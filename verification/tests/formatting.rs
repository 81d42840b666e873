use whouse::net::{format_addr, format_addr_slices_ok, ipv4_from_u32, ipv6_from_bytes, port_from_u32, v4_endpoint, v6_endpoint};
use whouse::numfmt::{
    decimal, hex_lower, hex_upper_padded4, parse_u16, parse_u32, push_signed_decimal, read_hex_upper4,
};

#[test]
fn decimal_and_hex_rendering() {
    assert_eq!(decimal(0), "0");
    assert_eq!(decimal(8080), "8080");
    assert_eq!(decimal(u64::MAX), "18446744073709551615");
    assert_eq!(hex_lower(0), "0");
    assert_eq!(hex_lower(0xfe80), "fe80");
    assert_eq!(hex_upper_padded4(3000), "0BB8");
    assert_eq!(hex_upper_padded4(0), "0000");
    assert_eq!(hex_upper_padded4(65535), "FFFF");
    let mut s = String::from("x");
    push_signed_decimal(&mut s, -5);
    push_signed_decimal(&mut s, i32::MIN);
    assert_eq!(s, "x-5-2147483648");
}

#[test]
fn parsing_unsigned_numbers() {
    assert_eq!(parse_u32("61928"), Some(61928));
    assert_eq!(parse_u32("+7"), Some(7));
    assert_eq!(parse_u32("007"), Some(7));
    assert_eq!(parse_u32("4294967295"), Some(u32::MAX));
    assert_eq!(parse_u32("4294967296"), None);
    assert_eq!(parse_u32(""), None);
    assert_eq!(parse_u32("+"), None);
    assert_eq!(parse_u32("-1"), None);
    assert_eq!(parse_u32("12a"), None);
    assert_eq!(parse_u32(" 1"), None);
    assert_eq!(parse_u32("notepad"), None);
    assert_eq!(parse_u16("65535"), Some(65535));
    assert_eq!(parse_u16("65536"), None);
    assert_eq!(parse_u16("3000"), Some(3000));
}

#[test]
fn decimal_round_trip_law() {
    for n in [0u32, 1, 9, 10, 99, 100, 65535, 123456789, u32::MAX] {
        assert_eq!(parse_u32(&decimal(n as u64)), Some(n));
    }
}

#[test]
fn hex_port_text_names_one_port() {
    let texts: Vec<String> = (0u16..2000).map(hex_upper_padded4).collect();
    let mut sorted = texts.clone();
    sorted.sort();
    sorted.dedup();
    assert_eq!(sorted.len(), texts.len());
}

#[test]
fn ipv4_rendering() {
    assert_eq!(ipv4_from_u32(0x0100007F), "127.0.0.1");
    assert_eq!(ipv4_from_u32(0), "0.0.0.0");
    assert_eq!(ipv4_from_u32(0xFFFFFFFF), "255.255.255.255");
    assert_eq!(v4_endpoint(0, 3000), "0.0.0.0:3000");
}

#[test]
fn ipv6_special_addresses() {
    let mut a = [0u8; 16];
    assert_eq!(ipv6_from_bytes(&a), "::");
    a[15] = 1;
    assert_eq!(ipv6_from_bytes(&a), "::1");
    let mut m = [0u8; 16];
    m[10] = 0xff;
    m[11] = 0xff;
    m[12] = 192;
    m[13] = 168;
    m[14] = 1;
    m[15] = 7;
    assert_eq!(ipv6_from_bytes(&m), "192.168.1.7");
    assert_eq!(v6_endpoint(&a, 80), "[::1]:80");
}

#[test]
fn ipv6_group_compression() {
    // fe80:0:0:0:0:0:0:1 -> longest zero run in the middle
    let mut a = [0u8; 16];
    a[0] = 0xfe;
    a[1] = 0x80;
    a[15] = 1;
    assert_eq!(ipv6_from_bytes(&a), "fe80::1");
    // no zero group: all eight groups
    let b: [u8; 16] = [0x20, 0x01, 0x0d, 0xb8, 0, 1, 0, 2, 0, 3, 0, 4, 0, 5, 0, 6];
    assert_eq!(ipv6_from_bytes(&b), "2001:db8:1:2:3:4:5:6");
    // a single zero group is not compressed
    let c: [u8; 16] = [0x20, 0x01, 0, 0, 0, 1, 0, 2, 0, 3, 0, 4, 0, 5, 0, 6];
    assert_eq!(ipv6_from_bytes(&c), "2001:0:1:2:3:4:5:6");
    // the first of two equally long runs is compressed
    let d: [u8; 16] = [0, 1, 0, 0, 0, 0, 0, 2, 0, 0, 0, 0, 0, 3, 0, 4];
    assert_eq!(ipv6_from_bytes(&d), "1::2:0:0:3:4");
    // the longer of two runs is compressed
    let e: [u8; 16] = [0, 1, 0, 0, 0, 0, 0, 2, 0, 0, 0, 0, 0, 0, 0, 4];
    assert_eq!(ipv6_from_bytes(&e), "1:0:0:2::4");
    // a run at either end is written as `::` too
    let f: [u8; 16] = [0, 0, 0, 0, 0, 0, 0, 0, 0, 0, 0, 0, 0, 1, 0, 2];
    assert_eq!(ipv6_from_bytes(&f), "::1:2");
    let g: [u8; 16] = [0, 1, 0, 2, 0, 0, 0, 0, 0, 0, 0, 0, 0, 0, 0, 0];
    assert_eq!(ipv6_from_bytes(&g), "1:2::");
    let two: [u8; 16] = [0, 0, 0, 0, 0, 0, 0, 0, 0, 0, 0, 0, 0, 0, 0, 2];
    assert_eq!(ipv6_from_bytes(&two), "::2");
    let fe80: [u8; 16] = [0xfe, 0x80, 0, 0, 0, 0, 0, 0, 0, 0, 0, 0, 0, 0, 0, 0];
    assert_eq!(ipv6_from_bytes(&fe80), "fe80::");
}

#[test]
fn proc_net_addresses() {
    assert_eq!(format_addr("0100007F"), "127.0.0.1");
    assert_eq!(format_addr("00000000"), "0.0.0.0");
    // four little-endian words, as /proc/net/tcp6 writes them
    assert_eq!(format_addr("00000000000000000000000001000000"), "::1");
    assert_eq!(format_addr("00000000000000000000000000000000"), "::");
    assert_eq!(format_addr("0000000000000000FFFF00000100007F"), "127.0.0.1");
    assert_eq!(format_addr("000080FE00000000FF005452B4B9E4FE"), "fe80::5254:ff:fee4:b9b4");
    assert_eq!(format_addr("+100007F"), "127.0.0.1");
    assert_eq!(format_addr("XYZ"), "unknown:XYZ");
    assert_eq!(format_addr("0100007G"), "unknown:0100007G");
    // pairs that are not hexadecimal read as zero bytes
    assert_eq!(format_addr("00000000000000000000000001zz0000"), "::1");
    assert!(format_addr_slices_ok("0100007F"));
    assert!(format_addr_slices_ok("00000000000000000000000000000001"));
    // a 32-byte address whose pairs would split a character
    assert!(!format_addr_slices_ok("0é00000000000000000000000000000"));
    assert!(format_addr_slices_ok("é000000000000000000000000000000"));
    // a two-byte character in place of a pair reads as a zero byte
    assert_eq!(format_addr("é000000000000000000000001000000"), "::1");
}

#[test]
fn ports_in_network_byte_order() {
    let p = port_from_u32(0x0000_B80B);
    // the low 16 bits, converted from network byte order
    assert_eq!(p, u16::from_be(0xB80B));
    assert!(p == 3000 || p == 0xB80B);
    assert_eq!(port_from_u32(0xFFFF_0000), 0);
}

#[test]
fn reading_four_hex_digits() {
    let c = |s: &str| s.chars().collect::<Vec<char>>();
    assert_eq!(read_hex_upper4(&c("0BB8")), Some(3000));
    assert_eq!(read_hex_upper4(&c("FFFF")), Some(65535));
    assert_eq!(read_hex_upper4(&c("0000")), Some(0));
    assert_eq!(read_hex_upper4(&c("0bb8")), None);
    assert_eq!(read_hex_upper4(&c("BB8")), None);
    assert_eq!(read_hex_upper4(&c("00BB8")), None);
    assert_eq!(read_hex_upper4(&c("0G00")), None);
    for p in [0u16, 1, 80, 443, 3000, 8080, 65535] {
        assert_eq!(read_hex_upper4(&c(&hex_upper_padded4(p))), Some(p));
    }
}
