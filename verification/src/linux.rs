//! The Linux side: reading the texts of `/proc/net/*`, `/proc/[pid]/*` and
//! `lsof`, and the decisions around them. Reading the files, walking `/proc`
//! and sending signals is left to the host; these functions take what was read.
use vstd::prelude::*;
use crate::net::{format_addr, format_addr_slices_ok, format_addr_text, pair_slices_ok};
use crate::numfmt::{
    chars_of, dec_chars, hex_upper4, hex_upper_padded4, parse_u32, parse_u32_spec, push_char,
    push_decimal, read_hex_upper4, string_from_chars,
};
use crate::paths::{dedup_strings, file_name, file_name_of, sort_dedup_strings, sort_strings};
use crate::platform::{
    dedup_bindings, dedup_port_bindings, sort_bindings, sort_port_bindings, BindingOrder,
    PortBinding, SameBinding,
};
use crate::text::{
    contains, contains_chars, from_utf8_lossy, join, join_strings, lines,
    lowercase, owned, push_str, split_lines, split_words, to_lowercase, trim, trim_chars,
    utf8_lossy, views, vviews, words,
};

verus! {

/// Linux 平台实现.
pub struct LinuxPlatform;

// ─── /proc/net/{tcp,tcp6,udp,udp6} ──────────────────────

/// The index of the last occurrence of `c` in `s`, if any.
pub open spec fn rfind_char(s: Seq<char>, c: char) -> Option<int>
    decreases s.len(),
{
    if s.len() == 0 {
        None
    } else if s.last() == c {
        Some(s.len() - 1)
    } else {
        rfind_char(s.drop_last(), c)
    }
}

/// The lines after the header line (`lines().skip(1)`).
pub open spec fn after_header(ls: Seq<Seq<char>>) -> Seq<Seq<char>> {
    if ls.len() == 0 {
        ls
    } else {
        ls.skip(1)
    }
}

/// For a socket-table line with at least ten columns whose local address (column 2)
/// ends in `:` and the port as four upper-case hexadecimal digits: the address part
/// before the last `:` and the inode (column 10).
pub open spec fn net_line_fields(line: Seq<char>, port: u16) -> Option<(Seq<char>, Seq<char>)> {
    let f = words(line);
    if f.len() < 10 {
        None
    } else {
        match rfind_char(f[1], ':') {
            None => None,
            Some(c) => if f[1].skip(c + 1) == hex_upper4(port) {
                Some((f[1].take(c), f[9]))
            } else {
                None
            },
        }
    }
}

/// Every matching line's address can be formatted without slicing inside a character.
pub open spec fn net_table_safe(content: Seq<char>, port: u16) -> bool {
    let ls = after_header(lines(content));
    forall|i: int|
        0 <= i < ls.len() ==> match #[trigger] net_line_fields(ls[i], port) {
            Some(p) => pair_slices_ok(p.0),
            None => true,
        }
}

/// The `(protocol, address:port, inode)` entries of the matching lines, in order.
pub open spec fn net_entries(ls: Seq<Seq<char>>, proto: Seq<char>, port: u16) -> Seq<
    (Seq<char>, Seq<char>, Seq<char>),
>
    decreases ls.len(),
{
    if ls.len() == 0 {
        seq![]
    } else {
        let rest = net_entries(ls.drop_last(), proto, port);
        match net_line_fields(ls.last(), port) {
            Some(p) => rest.push(
                (proto, format_addr_text(p.0) + seq![':'] + dec_chars(port as nat), p.1),
            ),
            None => rest,
        }
    }
}

/// The character sequences of string triples.
pub open spec fn triple_views(v: Seq<(String, String, String)>) -> Seq<
    (Seq<char>, Seq<char>, Seq<char>),
> {
    v.map_values(|t: (String, String, String)| (t.0@, t.1@, t.2@))
}

/// The local port of a socket-table line: the port whose four upper-case hexadecimal
/// digits end its local address (there is at most one, see `lemma_hex_upper4_injective`).
pub open spec fn line_port(line: Seq<char>) -> Option<u16> {
    if exists|p: u16| #[trigger] net_line_fields(line, p) is Some {
        Some(choose|p: u16| #[trigger] net_line_fields(line, p) is Some)
    } else {
        None
    }
}

/// Every line's address, whatever its port, can be formatted without slicing inside a
/// character.
pub open spec fn net_sockets_safe(content: Seq<char>) -> bool {
    let ls = after_header(lines(content));
    forall|i: int|
        0 <= i < ls.len() ==> match #[trigger] line_port(ls[i]) {
            Some(p) => pair_slices_ok(net_line_fields(ls[i], p).unwrap().0),
            None => true,
        }
}

/// The `(protocol, port, address:port, inode)` sockets of the lines with a port, in order.
pub open spec fn net_sockets(ls: Seq<Seq<char>>, proto: Seq<char>) -> Seq<
    (Seq<char>, u16, Seq<char>, Seq<char>),
>
    decreases ls.len(),
{
    if ls.len() == 0 {
        seq![]
    } else {
        let rest = net_sockets(ls.drop_last(), proto);
        match line_port(ls.last()) {
            Some(p) => {
                let f = net_line_fields(ls.last(), p).unwrap();
                rest.push((proto, p, format_addr_text(f.0) + seq![':'] + dec_chars(p as nat), f.1))
            },
            None => rest,
        }
    }
}

proof fn lemma_line_port_unique(line: Seq<char>, v: u16)
    requires
        net_line_fields(line, v) is Some,
    ensures
        line_port(line) == Some(v),
{
    let q = choose|p: u16| #[trigger] net_line_fields(line, p) is Some;
    assert(net_line_fields(line, q) is Some);
    let f = words(line);
    let c = rfind_char(f[1], ':').unwrap();
    assert(hex_upper4(q) == f[1].skip(c + 1));
    assert(hex_upper4(v) == f[1].skip(c + 1));
    crate::numfmt::lemma_hex_upper4_injective(q, v);
}

proof fn lemma_line_port_none(line: Seq<char>)
    requires
        forall|p: u16| !(#[trigger] net_line_fields(line, p) is Some),
    ensures
        line_port(line) is None,
{
}

/// The character sequences of socket quadruples.
pub open spec fn socket_quad_views(v: Seq<(String, u16, String, String)>) -> Seq<
    (Seq<char>, u16, Seq<char>, Seq<char>),
> {
    v.map_values(|t: (String, u16, String, String)| (t.0@, t.1, t.2@, t.3@))
}

fn rfind(s: &[char], c: char) -> (r: Option<usize>)
    ensures
        r matches Some(i) ==> rfind_char(s@, c) == Some(i as int) && i < s@.len(),
        r is None ==> rfind_char(s@, c) is None,
{
    let mut k = s.len();
    assert(s@.take(k as int) =~= s@);
    while k > 0 && s[k - 1] != c
        invariant
            k <= s@.len(),
            rfind_char(s@, c) == rfind_char(s@.take(k as int), c),
        decreases k,
    {
        assert(s@.take(k as int).drop_last() =~= s@.take(k - 1));
        k = k - 1;
    }
    if k == 0 {
        None
    } else {
        assert(s@.take(k as int).last() == s@[k - 1]);
        Some(k - 1)
    }
}

fn slice_chars(s: &[char], a: usize, b: usize) -> (r: Vec<char>)
    requires
        a <= b <= s@.len(),
    ensures
        r@ == s@.subrange(a as int, b as int),
{
    let mut r: Vec<char> = Vec::new();
    let mut i = a;
    while i < b
        invariant
            a <= i <= b <= s@.len(),
            r@ == s@.subrange(a as int, i as int),
        decreases b - i,
    {
        r.push(s[i]);
        assert(s@.subrange(a as int, i + 1) =~= s@.subrange(a as int, i as int).push(s@[i as int]));
        i = i + 1;
    }
    r
}

impl LinuxPlatform {
    /// The address part and inode of a socket-table line whose local port is `port`.
    pub fn split_net_line(line: &[char], port: u16) -> (r: Option<(Vec<char>, Vec<char>)>)
        ensures
            r matches Some(p) ==> net_line_fields(line@, port) == Some((p.0@, p.1@)),
            r is None ==> net_line_fields(line@, port) is None,
    {
        let f = split_words(line);
        proof {
            assert(vviews(f@).len() == f@.len());
        }
        if f.len() < 10 {
            return None;
        }
        assert(vviews(f@)[1] == f@[1]@);
        assert(vviews(f@)[9] == f@[9]@);
        let local = &f[1];
        match rfind(local.as_slice(), ':') {
            None => None,
            Some(c) => {
                let suffix = slice_chars(local.as_slice(), c + 1, local.len());
                let hex = chars_of(hex_upper_padded4(port).as_str());
                assert(local@.skip(c + 1) =~= suffix@);
                if crate::text::chars_eq(suffix.as_slice(), hex.as_slice()) {
                    let addr = slice_chars(local.as_slice(), 0, c);
                    assert(local@.take(c as int) =~= addr@);
                    let inode = slice_chars(f[9].as_slice(), 0, f[9].len());
                    assert(f@[9]@ =~= inode@);
                    Some((addr, inode))
                } else {
                    None
                }
            },
        }
    }

    /// Whether `parse_net_table` can format every matching line (see `net_table_safe`).
    pub fn net_table_is_safe(content: &str, port: u16) -> (b: bool)
        ensures
            b == net_table_safe(content@, port),
    {
        let c = chars_of(content);
        let ls = split_lines(c.as_slice());
        let ghost lv = vviews(ls@);
        let ghost body = after_header(lv);
        let mut i: usize = 1;
        while i < ls.len()
            invariant
                1 <= i,
                lv == vviews(ls@),
                lv == lines(content@),
                body == after_header(lv),
                i <= ls@.len() || ls@.len() == 0,
                forall|j: int|
                    0 <= j < i - 1 && j < body.len() ==> match #[trigger] net_line_fields(
                        body[j],
                        port,
                    ) {
                        Some(p) => pair_slices_ok(p.0),
                        None => true,
                    },
            decreases ls@.len() - i,
        {
            assert(body[i - 1] == ls@[i as int]@);
            match Self::split_net_line(ls[i].as_slice(), port) {
                Some((addr, _)) => {
                    let s = string_from_chars(addr.as_slice());
                    if !format_addr_slices_ok(s.as_str()) {
                        return false;
                    }
                },
                None => {},
            }
            i = i + 1;
        }
        true
    }

    /// The sockets of one `/proc/net/*` table (its text, and the protocol it lists) bound
    /// to `port`: `(protocol, address:port, inode)` for every line after the header with
    /// at least ten columns whose local address ends in `:` and the port as four
    /// upper-case hexadecimal digits.
    pub fn parse_net_table(content: &str, proto: &str, port: u16) -> (r: Vec<
        (String, String, String),
    >)
        requires
            net_table_safe(content@, port),
        ensures
            triple_views(r@) == net_entries(after_header(lines(content@)), proto@, port),
    {
        let c = chars_of(content);
        let ls = split_lines(c.as_slice());
        let ghost lv = vviews(ls@);
        let ghost body = after_header(lv);
        let mut r: Vec<(String, String, String)> = Vec::new();
        if ls.len() == 0 {
            return r;
        }
        let mut i: usize = 1;
        assert(body.take(0) =~= Seq::<Seq<char>>::empty());
        while i < ls.len()
            invariant
                1 <= i <= ls@.len(),
                lv == vviews(ls@),
                lv == lines(content@),
                body == after_header(lv),
                body.len() == ls@.len() - 1,
                net_table_safe(content@, port),
                triple_views(r@) == net_entries(body.take(i - 1), proto@, port),
            decreases ls@.len() - i,
        {
            assert(body[i - 1] == ls@[i as int]@);
            assert(body.take(i as int).drop_last() =~= body.take(i - 1));
            assert(body.take(i as int).last() == body[i - 1]);
            let ghost fields = net_line_fields(body[i - 1], port);
            match Self::split_net_line(ls[i].as_slice(), port) {
                Some((addr, inode)) => {
                    assert(pair_slices_ok(addr@));
                    let a = string_from_chars(addr.as_slice());
                    let mut text = format_addr(a.as_str());
                    push_char(&mut text, ':');
                    push_decimal(&mut text, port as u64);
                    assert(text@ =~= format_addr_text(addr@) + seq![':'] + dec_chars(port as nat));
                    let entry = (owned(proto), text, string_from_chars(inode.as_slice()));
                    r.push(entry);
                    assert(triple_views(r@) =~= triple_views(r@.drop_last()).push(
                        (entry.0@, entry.1@, entry.2@),
                    ));
                },
                None => {
                    assert(fields is None);
                },
            }
            i = i + 1;
        }
        assert(body.take(i - 1) =~= body);
        r
    }

    /// The address part, port and inode of a socket-table line, whatever its port.
    pub fn split_socket_line(line: &[char]) -> (r: Option<(Vec<char>, u16, Vec<char>)>)
        ensures
            r matches Some(t) ==> line_port(line@) == Some(t.1) && net_line_fields(line@, t.1)
                == Some((t.0@, t.2@)),
            r is None ==> line_port(line@) is None,
    {
        let f = split_words(line);
        proof {
            assert(vviews(f@).len() == f@.len());
        }
        if f.len() < 10 {
            proof {
                assert forall|p: u16| !(#[trigger] net_line_fields(line@, p) is Some) by {}
                lemma_line_port_none(line@);
            }
            return None;
        }
        assert(vviews(f@)[1] == f@[1]@);
        let local = &f[1];
        let c = match rfind(local.as_slice(), ':') {
            None => {
                proof {
                    assert forall|p: u16| !(#[trigger] net_line_fields(line@, p) is Some) by {}
                    lemma_line_port_none(line@);
                }
                return None;
            },
            Some(c) => c,
        };
        let suffix = slice_chars(local.as_slice(), c + 1, local.len());
        assert(local@.skip(c + 1) =~= suffix@);
        match read_hex_upper4(suffix.as_slice()) {
            None => {
                proof {
                    assert forall|p: u16| !(#[trigger] net_line_fields(line@, p) is Some) by {
                        assert(hex_upper4(p) != suffix@);
                    }
                    lemma_line_port_none(line@);
                }
                None
            },
            Some(v) => {
                assert(net_line_fields(line@, v) is Some);
                proof {
                    lemma_line_port_unique(line@, v);
                }
                match Self::split_net_line(line, v) {
                    Some((addr, inode)) => Some((addr, v, inode)),
                    None => None,
                }
            },
        }
    }

    /// Whether `parse_net_sockets` can format every line (see `net_sockets_safe`).
    pub fn net_sockets_are_safe(content: &str) -> (b: bool)
        ensures
            b == net_sockets_safe(content@),
    {
        let c = chars_of(content);
        let ls = split_lines(c.as_slice());
        let ghost lv = vviews(ls@);
        let ghost body = after_header(lv);
        let mut i: usize = 1;
        while i < ls.len()
            invariant
                1 <= i,
                lv == vviews(ls@),
                lv == lines(content@),
                body == after_header(lv),
                i <= ls@.len() || ls@.len() == 0,
                forall|j: int|
                    0 <= j < i - 1 && j < body.len() ==> match #[trigger] line_port(body[j]) {
                        Some(p) => pair_slices_ok(net_line_fields(body[j], p).unwrap().0),
                        None => true,
                    },
            decreases ls@.len() - i,
        {
            assert(body[i - 1] == ls@[i as int]@);
            match Self::split_socket_line(ls[i].as_slice()) {
                Some((addr, _, _)) => {
                    let s = string_from_chars(addr.as_slice());
                    if !format_addr_slices_ok(s.as_str()) {
                        return false;
                    }
                },
                None => {},
            }
            i = i + 1;
        }
        true
    }

    /// Every socket of one `/proc/net/*` table (its text, and the protocol it lists):
    /// `(protocol, port, address:port, inode)` for every line after the header with at
    /// least ten columns whose local address ends in `:` and four upper-case hexadecimal
    /// digits.
    pub fn parse_net_sockets(content: &str, proto: &str) -> (r: Vec<(String, u16, String, String)>)
        requires
            net_sockets_safe(content@),
        ensures
            socket_quad_views(r@) == net_sockets(after_header(lines(content@)), proto@),
    {
        let c = chars_of(content);
        let ls = split_lines(c.as_slice());
        let ghost lv = vviews(ls@);
        let ghost body = after_header(lv);
        let mut r: Vec<(String, u16, String, String)> = Vec::new();
        if ls.len() == 0 {
            return r;
        }
        let mut i: usize = 1;
        assert(body.take(0) =~= Seq::<Seq<char>>::empty());
        while i < ls.len()
            invariant
                1 <= i <= ls@.len(),
                lv == vviews(ls@),
                lv == lines(content@),
                body == after_header(lv),
                body.len() == ls@.len() - 1,
                net_sockets_safe(content@),
                socket_quad_views(r@) == net_sockets(body.take(i - 1), proto@),
            decreases ls@.len() - i,
        {
            assert(body[i - 1] == ls@[i as int]@);
            assert(body.take(i as int).drop_last() =~= body.take(i - 1));
            assert(body.take(i as int).last() == body[i - 1]);
            match Self::split_socket_line(ls[i].as_slice()) {
                Some((addr, port, inode)) => {
                    assert(pair_slices_ok(addr@));
                    let a = string_from_chars(addr.as_slice());
                    let mut text = format_addr(a.as_str());
                    push_char(&mut text, ':');
                    push_decimal(&mut text, port as u64);
                    assert(text@ =~= format_addr_text(addr@) + seq![':'] + dec_chars(port as nat));
                    let entry = (owned(proto), port, text, string_from_chars(inode.as_slice()));
                    r.push(entry);
                    assert(socket_quad_views(r@) =~= socket_quad_views(r@.drop_last()).push(
                        (entry.0@, entry.1, entry.2@, entry.3@),
                    ));
                },
                None => {},
            }
            i = i + 1;
        }
        assert(body.take(i - 1) =~= body);
        r
    }

    /// Whether one of a process's file-descriptor links is the socket with this inode
    /// (`socket:[inode]`).
    pub fn holds_socket(links: &Vec<String>, inode: &str) -> (b: bool)
        ensures
            b == exists|i: int| 0 <= i < links@.len() && #[trigger] links@[i]@ == "socket:["@
                + inode@ + "]"@,
    {
        let tag = Self::socket_tag(inode);
        let mut i: usize = 0;
        while i < links.len()
            invariant
                i <= links@.len(),
                tag@ == "socket:["@ + inode@ + "]"@,
                forall|j: int| 0 <= j < i ==> #[trigger] links@[j]@ != tag@,
            decreases links@.len() - i,
        {
            if crate::text::str_eq(links[i].as_str(), tag.as_str()) {
                return true;
            }
            i = i + 1;
        }
        false
    }

    /// The link text of a socket file descriptor for this inode: `socket:[inode]`.
    pub fn socket_tag(inode: &str) -> (s: String)
        ensures
            s@ == "socket:["@ + inode@ + "]"@,
    {
        let mut s = owned("socket:[");
        push_str(&mut s, inode);
        push_str(&mut s, "]");
        s
    }

    /// The process name shown for a port binding: the `comm` text when it could be
    /// read, else the file name of the executable, else `[PID n]`.
    pub fn binding_process_name(pid: u32, comm: Option<String>, exe_path: &Option<String>) -> (s:
        String)
        ensures
            comm matches Some(c) ==> s@ == c@,
            comm is None && (exe_path matches Some(e) && file_name_of(e@) is Some) ==> s@
                == file_name_of(exe_path.unwrap()@).unwrap(),
            comm is None && (exe_path is None || file_name_of(exe_path.unwrap()@) is None) ==> s@
                == "[PID "@ + dec_chars(pid as nat) + "]"@,
    {
        if let Some(c) = comm {
            return c;
        }
        if let Some(e) = exe_path {
            if let Some(n) = file_name(e.as_str()) {
                return n;
            }
        }
        let mut s = owned("[PID ");
        push_decimal(&mut s, pid as u64);
        push_str(&mut s, "]");
        s
    }

    /// The binding of a socket found in a table, once its owner is known: none when no
    /// process holds it (owner 0); otherwise the socket with the owner's PID, details and
    /// the name `binding_process_name` gives.
    pub fn socket_binding(
        pid: u32,
        port: u16,
        protocol: String,
        local_addr: String,
        comm: Option<String>,
        exe_path: Option<String>,
        cmd_line: Option<String>,
    ) -> (r: Option<PortBinding>)
        ensures
            pid == 0 ==> r is None,
            pid != 0 ==> (r matches Some(b) && b.pid == pid && b.port == port && b.protocol
                == protocol && b.local_addr == local_addr && b.exe_path == exe_path && b.cmd_line
                == cmd_line && (comm matches Some(c) ==> b.process_name@ == c@) && (comm is None
                && (exe_path matches Some(e) && file_name_of(e@) is Some) ==> b.process_name@
                == file_name_of(exe_path.unwrap()@).unwrap()) && (comm is None && (exe_path is None
                || file_name_of(exe_path.unwrap()@) is None) ==> b.process_name@ == "[PID "@
                + dec_chars(pid as nat) + "]"@)),
    {
        if pid == 0 {
            return None;
        }
        let process_name = Self::binding_process_name(pid, comm, &exe_path);
        Some(PortBinding { pid, port, protocol, local_addr, process_name, exe_path, cmd_line })
    }

    /// The last step of a port lookup: bindings sorted by PID then protocol, and each
    /// binding with the same PID, protocol and address as the one kept before it dropped.
    pub fn finish_port_bindings(v: Vec<PortBinding>) -> (r: Vec<PortBinding>)
        ensures
            r@ == dedup_bindings(
                sort_bindings(v@, BindingOrder::PidThenProtocol),
                SameBinding::PidProtocolAddr,
            ),
    {
        let s = sort_port_bindings(v, BindingOrder::PidThenProtocol);
        dedup_port_bindings(s, SameBinding::PidProtocolAddr)
    }

    // ─── /proc/[pid]/* ──────────────────────────────────

    /// The process name from the text of `/proc/[pid]/comm`: the text trimmed.
    pub fn parse_comm(content: &str) -> (s: String)
        ensures
            s@ == trim(content@),
    {
        crate::text::trim_str(content)
    }

    /// The arguments in the bytes of `/proc/[pid]/cmdline`: its non-empty
    /// `\0`-separated pieces.
    pub fn cmdline_args(bytes: &[u8]) -> (r: Vec<Vec<u8>>)
        ensures
            r@.map_values(|a: Vec<u8>| a@) == nonzero_runs(bytes@),
    {
        let mut args: Vec<Vec<u8>> = Vec::new();
        let mut pos: usize = 0;
        let ghost runs = nonzero_runs(bytes@);
        assert(bytes@.skip(0) =~= bytes@);
        while pos < bytes.len()
            invariant
                pos <= bytes@.len(),
                args@.map_values(|a: Vec<u8>| a@) + nonzero_runs(bytes@.skip(pos as int)) == runs,
            decreases bytes@.len() - pos,
        {
            let ghost rest = bytes@.skip(pos as int);
            if bytes[pos] == 0 {
                assert(rest.drop_first() =~= bytes@.skip(pos + 1));
                pos = pos + 1;
            } else {
                let mut e = pos;
                while e < bytes.len() && bytes[e] != 0
                    invariant
                        pos <= e <= bytes@.len(),
                        forall|j: int| pos <= j < e ==> #[trigger] bytes@[j] != 0,
                    decreases bytes@.len() - e,
                {
                    e = e + 1;
                }
                proof {
                    assert forall|j: int| 0 <= j < e - pos implies #[trigger] rest[j] != 0 by {
                        assert(rest[j] == bytes@[j + pos]);
                    }
                    if e < bytes@.len() {
                        assert(rest[e - pos] == bytes@[e as int]);
                    }
                    lemma_run_len(rest, e - pos);
                }
                let arg = slice_bytes(bytes, pos, e);
                assert(rest.take(e - pos) =~= bytes@.subrange(pos as int, e as int));
                assert(rest.skip(e - pos) =~= bytes@.skip(e as int));
                let ghost before = args@;
                args.push(arg);
                assert(args@.map_values(|a: Vec<u8>| a@) =~= before.map_values(|a: Vec<u8>| a@).push(
                    arg@,
                ));
                assert(nonzero_runs(rest) =~= seq![rest.take(e - pos)] + nonzero_runs(
                    bytes@.skip(e as int),
                ));
                pos = e;
            }
        }
        assert(bytes@.skip(pos as int) =~= Seq::<u8>::empty());
        assert(args@.map_values(|a: Vec<u8>| a@) =~= runs);
        args
    }

    /// The command line from the bytes of `/proc/[pid]/cmdline`: nothing for an empty
    /// file, otherwise its arguments (see `cmdline_args`), each decoded as UTF-8
    /// (invalid sequences replaced), joined with spaces.
    pub fn parse_cmdline(bytes: &[u8]) -> (r: Option<String>)
        ensures
            bytes@.len() == 0 ==> r is None,
            bytes@.len() > 0 ==> (r matches Some(s) && s@ == join(
                nonzero_runs(bytes@).map_values(|a: Seq<u8>| utf8_lossy(a)),
                seq![' '],
            )),
    {
        if bytes.len() == 0 {
            return None;
        }
        let runs = Self::cmdline_args(bytes);
        let ghost rv = runs@.map_values(|a: Vec<u8>| a@);
        let mut args: Vec<String> = Vec::new();
        let mut i: usize = 0;
        while i < runs.len()
            invariant
                i <= runs@.len(),
                rv == runs@.map_values(|a: Vec<u8>| a@),
                views(args@) == rv.take(i as int).map_values(|a: Seq<u8>| utf8_lossy(a)),
            decreases runs@.len() - i,
        {
            let arg = from_utf8_lossy(runs[i].as_slice());
            let ghost before = args@;
            args.push(arg);
            assert(rv.take(i + 1) =~= rv.take(i as int).push(runs@[i as int]@));
            assert(views(args@) =~= views(before).push(arg@));
            assert(views(args@) =~= rv.take(i + 1).map_values(|a: Seq<u8>| utf8_lossy(a)));
            i = i + 1;
        }
        assert(rv.take(i as int) =~= rv);
        let s = join_strings(&args, " ");
        proof {
            reveal_strlit(" ");
            assert(" "@ =~= seq![' ']);
        }
        Some(s)
    }

    /// The parent PID from the text of `/proc/[pid]/status`: the first line that starts
    /// with `PPid:`, the rest trimmed and read as a `u32`.
    pub fn parse_ppid(content: &str) -> (r: Option<u32>)
        ensures
            r matches Some(v) ==> ppid_of(lines(content@)) == Some(v as nat),
            r is None ==> ppid_of(lines(content@)) is None,
    {
        let c = chars_of(content);
        let ls = split_lines(c.as_slice());
        let ghost lv = vviews(ls@);
        let prefix = chars_of("PPid:");
        proof {
            reveal_strlit("PPid:");
        }
        assert(prefix@.len() == 5);
        let mut i: usize = 0;
        assert(lv.skip(0) =~= lv);
        while i < ls.len()
            invariant
                i <= ls@.len(),
                lv == vviews(ls@),
                lv == lines(content@),
                prefix@ == "PPid:"@,
                prefix@.len() == 5,
                ppid_of(lv) == ppid_of(lv.skip(i as int)),
            decreases ls@.len() - i,
        {
            let line = &ls[i];
            assert(lv.skip(i as int)[0] == line@);
            assert(lv.skip(i as int).drop_first() =~= lv.skip(i + 1));
            if starts_with_chars(line.as_slice(), prefix.as_slice()) {
                let rest = slice_chars(line.as_slice(), prefix.len(), line.len());
                assert(rest@ =~= line@.skip(5));
                let t = trim_chars(rest.as_slice());
                let ts = string_from_chars(t.as_slice());
                return match parse_u32(ts.as_str()) {
                    Some(v) => Some(v),
                    None => None,
                };
            }
            i = i + 1;
        }
        assert(lv.skip(i as int) =~= Seq::<Seq<char>>::empty());
        None
    }

    // ─── lsof ───────────────────────────────────────────

    /// Whether `lsof`'s output reports the file in use: it has more than one line (the
    /// first is the header).
    pub fn lsof_reports_in_use(stdout: &[u8]) -> (b: bool)
        ensures
            b == (lines(utf8_lossy(stdout@)).len() > 1),
    {
        let text = from_utf8_lossy(stdout);
        Self::lsof_text_in_use(text.as_str())
    }

    /// Whether `lsof`'s output, decoded, reports the file in use: it has more than one
    /// line.
    pub fn lsof_text_in_use(text: &str) -> (b: bool)
        ensures
            b == (lines(text@).len() > 1),
    {
        let c = chars_of(text);
        let ls = split_lines(c.as_slice());
        assert(vviews(ls@).len() == ls@.len());
        ls.len() > 1
    }

    /// The `(PID, command)` pairs of `lsof`'s output: every line after the header with
    /// at least two columns whose second column is a PID.
    pub fn parse_lsof(stdout: &[u8]) -> (r: Vec<(u32, String)>)
        ensures
            pid_views(r@) == lsof_entries(after_header(lines(utf8_lossy(stdout@)))),
    {
        let text = from_utf8_lossy(stdout);
        Self::parse_lsof_text(text.as_str())
    }

    /// The `(PID, command)` pairs of `lsof`'s output, decoded (see `parse_lsof`).
    pub fn parse_lsof_text(text: &str) -> (r: Vec<(u32, String)>)
        ensures
            pid_views(r@) == lsof_entries(after_header(lines(text@))),
    {
        let c = chars_of(text);
        let ls = split_lines(c.as_slice());
        let ghost body = after_header(vviews(ls@));
        let mut r: Vec<(u32, String)> = Vec::new();
        if ls.len() == 0 {
            return r;
        }
        let mut i: usize = 1;
        assert(body.take(0) =~= Seq::<Seq<char>>::empty());
        while i < ls.len()
            invariant
                1 <= i <= ls@.len(),
                body == after_header(vviews(ls@)),
                body.len() == ls@.len() - 1,
                pid_views(r@) == lsof_entries(body.take(i - 1)),
            decreases ls@.len() - i,
        {
            assert(body[i - 1] == ls@[i as int]@);
            assert(body.take(i as int).drop_last() =~= body.take(i - 1));
            assert(body.take(i as int).last() == body[i - 1]);
            let f = split_words(ls[i].as_slice());
            assert(vviews(f@).len() == f@.len());
            if f.len() >= 2 {
                assert(vviews(f@)[0] == f@[0]@ && vviews(f@)[1] == f@[1]@);
                let p = string_from_chars(f[1].as_slice());
                if let Some(pid) = parse_u32(p.as_str()) {
                    let name = string_from_chars(f[0].as_slice());
                    let ghost before = r@;
                    r.push((pid, name));
                    assert(pid_views(r@) =~= pid_views(before).push((pid, name@)));
                }
            }
            i = i + 1;
        }
        assert(body.take(i - 1) =~= body);
        r
    }

    // ─── processes ──────────────────────────────────────

    /// Whether a process matches a search for `name`: its `comm` name or its executable
    /// path, in lower case, contains the name in lower case.
    pub fn process_matches(name: &str, comm: &Option<String>, exe_path: &Option<String>) -> (b:
        bool)
        ensures
            b == ((comm matches Some(c) && contains(lowercase(c@), lowercase(name@))) || (
            exe_path matches Some(e) && contains(lowercase(e@), lowercase(name@)))),
    {
        let needle = chars_of(to_lowercase(name).as_str());
        if let Some(c) = comm {
            let l = chars_of(to_lowercase(c.as_str()).as_str());
            if contains_chars(l.as_slice(), needle.as_slice()) {
                return true;
            }
        }
        if let Some(e) = exe_path {
            let l = chars_of(to_lowercase(e.as_str()).as_str());
            if contains_chars(l.as_slice(), needle.as_slice()) {
                return true;
            }
        }
        false
    }

    /// The name listed for a found process: its `comm` name, or `[pid]`.
    pub fn listed_process_name(pid: u32, comm: Option<String>) -> (s: String)
        ensures
            comm matches Some(c) ==> s@ == c@,
            comm is None ==> s@ == seq!['['] + dec_chars(pid as nat) + seq![']'],
    {
        match comm {
            Some(c) => c,
            None => {
                let mut s = String::new();
                push_char(&mut s, '[');
                push_decimal(&mut s, pid as u64);
                push_char(&mut s, ']');
                assert(s@ =~= seq!['['] + dec_chars(pid as nat) + seq![']']);
                s
            },
        }
    }

    /// The name in a process's details: the file name of its executable, else its
    /// `comm` name, else `[pid]`.
    pub fn process_info_name(pid: u32, exe_path: &str, comm: Option<String>) -> (s: String)
        ensures
            file_name_of(exe_path@) matches Some(n) ==> s@ == n,
            file_name_of(exe_path@) is None && (comm matches Some(c)) ==> s@ == comm.unwrap()@,
            file_name_of(exe_path@) is None && comm is None ==> s@ == seq!['['] + dec_chars(
                pid as nat,
            ) + seq![']'],
    {
        match file_name(exe_path) {
            Some(n) => n,
            None => Self::listed_process_name(pid, comm),
        }
    }

    /// The outcome of `kill(pid, SIGTERM)` from its return value: `Ok` for 0, otherwise
    /// the message `终止进程 PID n 失败`.
    pub fn kill_outcome(pid: u32, ret: i32) -> (r: Result<(), String>)
        ensures
            ret == 0 ==> r is Ok,
            ret != 0 ==> (r matches Err(m) && m@ == "终止进程 PID "@ + dec_chars(pid as nat)
                + " 失败"@),
    {
        if ret == 0 {
            Ok(())
        } else {
            let mut m = owned("终止进程 PID ");
            push_decimal(&mut m, pid as u64);
            push_str(&mut m, " 失败");
            Err(m)
        }
    }

    /// The process ID that `kill` is sent: the PID itself when it names one process
    /// (from 1 to `i32::MAX`); none for 0 or a larger value, which `kill` would read as
    /// a process group or as every process.
    pub fn signal_target(pid: u32) -> (r: Option<i32>)
        ensures
            0 < pid <= i32::MAX ==> r == Some(pid as i32),
            !(0 < pid <= i32::MAX) ==> r is None,
    {
        if pid == 0 || pid > 0x7FFF_FFFF {
            None
        } else {
            Some(pid as i32)
        }
    }

    /// The error for a path that does not exist: `路径不存在: <path>`.
    pub fn missing_path(path: &str) -> (m: String)
        ensures
            m@ == "路径不存在: "@ + path@,
    {
        let mut m = owned("路径不存在: ");
        push_str(&mut m, path);
        m
    }

    /// Whether a file with these permission bits can be run: some execute bit is set.
    pub fn is_executable_mode(mode: u32) -> (b: bool)
        ensures
            b == (mode & 0o111u32 != 0),
    {
        mode & 0o111 != 0
    }

    /// The last step of a `PATH` search: the found paths sorted, repeats removed.
    pub fn finish_path_matches(found: Vec<String>) -> (r: Vec<String>)
        ensures
            views(r@) == dedup_strings(sort_strings(views(found@))),
    {
        sort_dedup_strings(found)
    }
}

// ─── helpers and their specifications ───────────────────

/// The length of the run of non-zero bytes at the start of `b`.
pub open spec fn run_len(b: Seq<u8>) -> nat
    decreases b.len(),
{
    if b.len() == 0 || b[0] == 0 {
        0
    } else {
        1 + run_len(b.drop_first())
    }
}

/// A run is no longer than the bytes, and not empty where they start with a non-zero
/// byte.
pub proof fn lemma_run_len_range(b: Seq<u8>)
    ensures
        run_len(b) <= b.len(),
        b.len() > 0 && b[0] != 0 ==> run_len(b) >= 1,
    decreases b.len(),
{
    if b.len() > 0 && b[0] != 0 {
        lemma_run_len_range(b.drop_first());
    }
}

proof fn lemma_run_len(b: Seq<u8>, k: int)
    requires
        0 <= k <= b.len(),
        forall|j: int| 0 <= j < k ==> #[trigger] b[j] != 0,
        k == b.len() || b[k] == 0,
    ensures
        run_len(b) == k,
    decreases k,
{
    if k > 0 {
        let t = b.drop_first();
        assert forall|j: int| 0 <= j < k - 1 implies #[trigger] t[j] != 0 by {
            assert(t[j] == b[j + 1]);
        }
        if k < b.len() {
            assert(t[k - 1] == b[k]);
        }
        lemma_run_len(t, k - 1);
    }
}

/// The maximal runs of non-zero bytes: the pieces of `split(|b| b == 0)` that are not
/// empty.
pub open spec fn nonzero_runs(b: Seq<u8>) -> Seq<Seq<u8>>
    decreases b.len(),
{
    if b.len() == 0 {
        seq![]
    } else if b[0] == 0 {
        nonzero_runs(b.drop_first())
    } else {
        proof {
            lemma_run_len_range(b);
        }
        seq![b.take(run_len(b) as int)] + nonzero_runs(b.skip(run_len(b) as int))
    }
}

fn slice_bytes(b: &[u8], s: usize, e: usize) -> (r: Vec<u8>)
    requires
        s <= e <= b@.len(),
    ensures
        r@ == b@.subrange(s as int, e as int),
{
    let mut r: Vec<u8> = Vec::new();
    let mut i = s;
    while i < e
        invariant
            s <= i <= e <= b@.len(),
            r@ == b@.subrange(s as int, i as int),
        decreases e - i,
    {
        r.push(b[i]);
        assert(b@.subrange(s as int, i + 1) =~= b@.subrange(s as int, i as int).push(b@[i as int]));
        i = i + 1;
    }
    r
}

/// The first line that starts with `PPid:`, the rest trimmed and read as a `u32`.
pub open spec fn ppid_of(ls: Seq<Seq<char>>) -> Option<nat>
    decreases ls.len(),
{
    if ls.len() == 0 {
        None
    } else if ls[0].len() >= 5 && ls[0].take(5) == "PPid:"@ {
        parse_u32_spec(trim(ls[0].skip(5)))
    } else {
        ppid_of(ls.drop_first())
    }
}

fn starts_with_chars(s: &[char], p: &[char]) -> (b: bool)
    ensures
        b == (s@.len() >= p@.len() && s@.take(p@.len() as int) == p@),
{
    if p.len() > s.len() {
        return false;
    }
    let mut k: usize = 0;
    while k < p.len()
        invariant
            p@.len() <= s@.len(),
            k <= p@.len(),
            forall|j: int| 0 <= j < k ==> s@[j] == p@[j],
        decreases p@.len() - k,
    {
        if s[k] != p[k] {
            assert(s@.take(p@.len() as int)[k as int] != p@[k as int]);
            return false;
        }
        k = k + 1;
    }
    assert(s@.take(p@.len() as int) =~= p@);
    true
}

/// The `(PID, command)` pairs of lsof lines with at least two columns whose second
/// column reads as a `u32`.
pub open spec fn lsof_entries(ls: Seq<Seq<char>>) -> Seq<(u32, Seq<char>)>
    decreases ls.len(),
{
    if ls.len() == 0 {
        seq![]
    } else {
        let rest = lsof_entries(ls.drop_last());
        let f = words(ls.last());
        if f.len() >= 2 && parse_u32_spec(f[1]) is Some {
            rest.push((parse_u32_spec(f[1]).unwrap() as u32, f[0]))
        } else {
            rest
        }
    }
}

/// The PID and character sequence of each pair.
pub open spec fn pid_views(v: Seq<(u32, String)>) -> Seq<(u32, Seq<char>)> {
    v.map_values(|t: (u32, String)| (t.0, t.1@))
}

} // verus!
