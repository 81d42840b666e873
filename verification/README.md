# whouse

A tool that tells which process holds a file, listens on a port, or runs a
program, on Windows and Linux (`check`, `delete`, `rename`/`move`, `ps`, `kill`,
`port`, `where`, with Chinese aliases).

The library in `src/` is written in Verus: the parsing, formatting and the
decisions of each sub-command are executable functions with contracts, proved by
the verifier. What the operating system answers (through the `Platform` trait a
host implements) is taken as given; the functions that take those answers as
arguments state exactly what is reported for each.

- `numfmt`: decimal and hexadecimal rendering, `from_str_radix` parsing.
- `text`: whitespace, trimming, lines, words, searching and ordering of text.
- `net`: IPv4 and IPv6 address text, `/proc/net` addresses, ports in network
  byte order.
- `platform`: process and port records, the `Platform` interface a host
  implements, ordering and de-duplication of port bindings.
- `paths`: final path components and sorted lists of paths.
- `linux`: the texts of `/proc` and `lsof`, read.
- `windows`: the records the Win32 calls fill, read.
- `console`: console colours.
- `proc`, `commands`: the sub-commands, as reports with exit codes.

`app/` holds the program around it: argument handling, printing, and the
system calls of each platform, whose results it hands to the library.

Exit codes: 0 done or not in use, 1 in use and refused, 2 missing or another
error.
