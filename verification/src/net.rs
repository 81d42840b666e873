//! Rendering of socket addresses: IPv4 dotted quads, IPv6 groups with
//! zero-run compression, the hexadecimal addresses of `/proc/net/*` tables,
//! and port numbers stored in network byte order.
use vstd::prelude::*;
use vstd::string::StringSliceAdditionalSpecFns;
use crate::numfmt::{
    all_digits, dec_chars, digit_value, digits_value, hex_chars, hex_lower, parse_radix,
    parse_radix_bytes, push_char, push_decimal,
};
use crate::text::{join, join_strings, owned, push_str, views};

verus! {

// ─── IPv4 ───────────────────────────────────────────────

/// `a.b.c.d` with each part in decimal.
pub open spec fn dotted_quad(a: nat, b: nat, c: nat, d: nat) -> Seq<char> {
    dec_chars(a) + seq!['.'] + dec_chars(b) + seq!['.'] + dec_chars(c) + seq!['.'] + dec_chars(d)
}

/// The dotted quad of an address whose first octet is its least significant byte.
pub open spec fn ipv4_text(addr: nat) -> Seq<char> {
    dotted_quad(addr % 256, (addr / 256) % 256, (addr / 65536) % 256, (addr / 16777216) % 256)
}

fn push_quad(out: &mut String, a: u8, b: u8, c: u8, d: u8)
    ensures
        final(out)@ == old(out)@ + dotted_quad(a as nat, b as nat, c as nat, d as nat),
{
    push_decimal(out, a as u64);
    push_char(out, '.');
    push_decimal(out, b as u64);
    push_char(out, '.');
    push_decimal(out, c as u64);
    push_char(out, '.');
    push_decimal(out, d as u64);
    assert(final(out)@ =~= old(out)@ + dotted_quad(a as nat, b as nat, c as nat, d as nat));
}

/// Formats an IPv4 address held in a `u32` whose least significant byte is the first
/// octet: `0x0100007F` gives `"127.0.0.1"`.
pub fn ipv4_from_u32(addr: u32) -> (s: String)
    ensures
        s@ == ipv4_text(addr as nat),
{
    let a = (addr & 0xFF) as u8;
    let b = ((addr >> 8) & 0xFF) as u8;
    let c = ((addr >> 16) & 0xFF) as u8;
    let d = ((addr >> 24) & 0xFF) as u8;
    assert(addr & 0xFF == addr % 256) by (bit_vector);
    assert((addr >> 8) & 0xFF == (addr / 256) % 256) by (bit_vector);
    assert((addr >> 16) & 0xFF == (addr / 65536) % 256) by (bit_vector);
    assert((addr >> 24) & 0xFF == (addr / 16777216) % 256) by (bit_vector);
    let mut s = String::new();
    push_quad(&mut s, a, b, c, d);
    assert(s@ =~= ipv4_text(addr as nat));
    s
}

// ─── ports in network byte order ────────────────────────

/// `n` with its two bytes exchanged.
pub open spec fn swap16(n: u16) -> u16 {
    ((n % 256) * 256 + n / 256) as u16
}

/// `u16::to_be`: on a big-endian target the value itself, on a little-endian target
/// the value with its bytes exchanged. Which of the two holds depends on the machine,
/// so only that the result is one of them is stated.
#[verifier::external_body]
pub(crate) fn u16_to_be(n: u16) -> (r: u16)
    ensures
        r == n || r == swap16(n),
{
    n.to_be()
}

/// Reads a port stored in network byte order in the low 16 bits of a table field:
/// the low 16 bits, converted with `u16::to_be` (byte-swapped on little-endian machines).
pub fn port_from_u32(port: u32) -> (p: u16)
    ensures
        p == (port % 65536) as u16 || p == swap16((port % 65536) as u16),
{
    assert(port & 0xFFFF == port % 65536) by (bit_vector);
    u16_to_be((port & 0xFFFF) as u16)
}

// ─── IPv6 ───────────────────────────────────────────────

/// The eight 16-bit groups of a 16-byte address, most significant byte first.
pub open spec fn groups(a: Seq<u8>) -> Seq<u16> {
    Seq::new(8, |i: int| (a[2 * i] * 256 + a[2 * i + 1]) as u16)
}

/// Groups `s .. s + l` exist and are all zero, and there is at least one of them.
pub open spec fn zero_run(g: Seq<u16>, s: int, l: int) -> bool {
    &&& 1 <= l
    &&& 0 <= s
    &&& s + l <= g.len()
    &&& forall|k: int| s <= k < s + l ==> g[k] == 0
}

/// `(start, len)` is the run of zero groups that gets compressed: the longest run
/// (length 0 when no group is zero), and among the longest the first.
pub open spec fn is_compressed_run(g: Seq<u16>, start: int, len: int) -> bool {
    &&& len >= 0
    &&& (len >= 1 ==> zero_run(g, start, len))
    &&& forall|s: int, l: int| #[trigger] zero_run(g, s, l) ==> l <= len
    &&& forall|s: int| 0 <= s < start ==> !#[trigger] zero_run(g, s, len)
}

/// The compressed run of an address's groups.
pub open spec fn compressed_run(g: Seq<u16>) -> (int, int) {
    choose|p: (int, int)| is_compressed_run(g, p.0, p.1)
}

/// Each group in lower-case hexadecimal without leading zeros.
pub open spec fn hex_groups(g: Seq<u16>) -> Seq<Seq<char>> {
    g.map_values(|x: u16| hex_chars(x as nat))
}

/// The groups joined with `:`; when the run `(start, len)` is at least two groups long,
/// its groups are left out and `::` stands in their place, wherever the run lies.
pub open spec fn render_groups(g: Seq<u16>, start: int, len: int) -> Seq<char> {
    if len < 2 {
        join(hex_groups(g), seq![':'])
    } else {
        join(hex_groups(g.take(start)), seq![':']) + seq![':', ':'] + join(
            hex_groups(g.skip(start + len)),
            seq![':'],
        )
    }
}

/// All bytes of `a` before index `n` are zero.
pub open spec fn zero_prefix(a: Seq<u8>, n: int) -> bool {
    forall|i: int| 0 <= i < n ==> a[i] == 0
}

/// How an IPv6 address is written: `::1` for loopback, `::` for the unspecified
/// address, the dotted quad of the last four bytes for an IPv4-mapped address, and
/// otherwise the groups with the longest run of zero groups written as `::`.
pub open spec fn ipv6_text(a: Seq<u8>) -> Seq<char> {
    if zero_prefix(a, 15) && a[15] == 1 {
        "::1"@
    } else if zero_prefix(a, 16) {
        "::"@
    } else if zero_prefix(a, 10) && a[10] == 0xff && a[11] == 0xff {
        dotted_quad(a[12] as nat, a[13] as nat, a[14] as nat, a[15] as nat)
    } else {
        render_groups(groups(a), compressed_run(groups(a)).0, compressed_run(groups(a)).1)
    }
}

proof fn lemma_compressed_run_unique(g: Seq<u16>, s1: int, l1: int, s2: int, l2: int)
    requires
        is_compressed_run(g, s1, l1),
        is_compressed_run(g, s2, l2),
    ensures
        l1 == l2,
        l1 >= 1 ==> s1 == s2,
{
    if l1 >= 1 {
        assert(zero_run(g, s1, l1));
        assert(l1 <= l2);
    }
    if l2 >= 1 {
        assert(zero_run(g, s2, l2));
        assert(l2 <= l1);
    }
    if l1 >= 1 {
        if s1 < s2 {
            assert(zero_run(g, s1, l2));
        }
        if s2 < s1 {
            assert(zero_run(g, s2, l1));
        }
    }
}

fn all_zero(a: &[u8; 16], n: usize) -> (b: bool)
    requires
        n <= 16,
    ensures
        b == zero_prefix(a@, n as int),
{
    let mut i: usize = 0;
    while i < n
        invariant
            i <= n <= 16,
            a@.len() == 16,
            zero_prefix(a@, i as int),
        decreases n - i,
    {
        if a[i] != 0 {
            return false;
        }
        i = i + 1;
    }
    true
}

/// Finds the compressed run of eight groups.
fn longest_zero_run(g: &[u16]) -> (r: (usize, usize))
    requires
        g@.len() == 8,
    ensures
        is_compressed_run(g@, r.0 as int, r.1 as int),
        r.1 <= 8,
        r.1 >= 1 ==> r.0 + r.1 <= 8,
{
    let mut best_start: usize = 8;
    let mut best_len: usize = 0;
    let mut cur_start: usize = 8;
    let mut cur_len: usize = 0;
    let mut i: usize = 0;
    while i < 8
        invariant
            g@.len() == 8,
            i <= 8,
            cur_len <= i,
            cur_len >= 1 ==> cur_start + cur_len == i,
            forall|k: int| i - cur_len <= k < i ==> g@[k] == 0,
            cur_len < i ==> g@[i - cur_len - 1] != 0,
            cur_len <= best_len <= i,
            best_len >= 1 ==> zero_run(g@, best_start as int, best_len as int) && best_start
                + best_len <= i,
            forall|s: int, l: int| #[trigger] zero_run(g@, s, l) && s + l <= i ==> l <= best_len,
            forall|s: int|
                0 <= s < best_start && s + best_len <= i ==> !#[trigger] zero_run(
                    g@,
                    s,
                    best_len as int,
                ),
        decreases 8 - i,
    {
        if g[i] == 0 {
            if cur_len == 0 {
                cur_start = i;
            }
            cur_len = cur_len + 1;
            if cur_len > best_len {
                best_start = cur_start;
                best_len = cur_len;
            }
        } else {
            cur_len = 0;
        }
        proof {
            let ni = i + 1;
            assert forall|s: int, l: int| #[trigger] zero_run(g@, s, l) && s + l <= ni implies l
                <= best_len by {
                if s + l == ni {
                    assert(g@[i as int] == 0);
                    if l > cur_len {
                        assert(g@[ni - cur_len - 1] == 0);
                    }
                }
            }
            assert forall|s: int|
                0 <= s < best_start && s + best_len <= ni implies !#[trigger] zero_run(
                g@,
                s,
                best_len as int,
            ) by {
                if zero_run(g@, s, best_len as int) {
                    if s + best_len <= i {
                    } else {
                        assert(g@[i as int] == 0);
                        assert(best_len >= 1);
                    }
                }
            }
        }
        i = i + 1;
    }
    (best_start, best_len)
}

fn push_hex_groups(parts: &mut Vec<String>, g: &[u16], from: usize, to: usize)
    requires
        from <= to <= g@.len(),
    ensures
        views(final(parts)@) == views(old(parts)@) + hex_groups(g@.subrange(from as int, to as int)),
{
    let mut i = from;
    while i < to
        invariant
            from <= i <= to <= g@.len(),
            views(parts@) == views(old(parts)@) + hex_groups(g@.subrange(from as int, i as int)),
        decreases to - i,
    {
        let h = hex_lower(g[i] as u64);
        let ghost before = parts@;
        parts.push(h);
        assert(views(parts@) =~= views(before).push(h@));
        assert(g@.subrange(from as int, i + 1) =~= g@.subrange(from as int, i as int).push(
            g@[i as int],
        ));
        assert(hex_groups(g@.subrange(from as int, i + 1)) =~= hex_groups(
            g@.subrange(from as int, i as int),
        ).push(hex_chars(g@[i as int] as nat)));
        assert(views(parts@) =~= views(old(parts)@) + hex_groups(
            g@.subrange(from as int, i + 1),
        ));
        i = i + 1;
    }
}

/// Formats a 16-byte IPv6 address: `"::1"`, `"::"`, `a.b.c.d` for an IPv4-mapped
/// address, otherwise eight lower-case hexadecimal groups joined with `:` in which the
/// first of the longest runs of at least two zero groups is written as `::`.
pub fn ipv6_from_bytes(addr: &[u8; 16]) -> (s: String)
    ensures
        s@ == ipv6_text(addr@),
{
    if all_zero(addr, 15) && addr[15] == 1 {
        return owned("::1");
    }
    if all_zero(addr, 16) {
        return owned("::");
    }
    if all_zero(addr, 10) && addr[10] == 0xff && addr[11] == 0xff {
        let mut s = String::new();
        push_quad(&mut s, addr[12], addr[13], addr[14], addr[15]);
        assert(s@ =~= ipv6_text(addr@));
        return s;
    }
    let mut g: Vec<u16> = Vec::new();
    let mut i: usize = 0;
    while i < 8
        invariant
            i <= 8,
            addr@.len() == 16,
            g@.len() == i,
            forall|k: int| 0 <= k < i ==> g@[k] == groups(addr@)[k],
        decreases 8 - i,
    {
        let hi = addr[2 * i];
        let lo = addr[2 * i + 1];
        assert(((hi as u16) << 8u16) | (lo as u16) == hi * 256 + lo) by (bit_vector);
        g.push(((hi as u16) << 8) | (lo as u16));
        i = i + 1;
    }
    assert(g@ =~= groups(addr@));
    let (best_start, best_len) = longest_zero_run(g.as_slice());
    proof {
        let p = compressed_run(g@);
        assert(is_compressed_run(g@, best_start as int, best_len as int));
        lemma_compressed_run_unique(g@, p.0, p.1, best_start as int, best_len as int);
    }
    proof {
        reveal_strlit(":");
        assert(":"@ =~= seq![':']);
    }
    if best_len < 2 {
        let mut parts: Vec<String> = Vec::new();
        push_hex_groups(&mut parts, g.as_slice(), 0, 8);
        assert(g@.subrange(0, 8) =~= g@);
        assert(views(parts@) =~= hex_groups(g@));
        join_strings(&parts, ":")
    } else {
        let mut before: Vec<String> = Vec::new();
        push_hex_groups(&mut before, g.as_slice(), 0, best_start);
        let mut after: Vec<String> = Vec::new();
        push_hex_groups(&mut after, g.as_slice(), best_start + best_len, 8);
        assert(g@.subrange(0, best_start as int) =~= g@.take(best_start as int));
        assert(g@.subrange(best_start + best_len, 8) =~= g@.skip(best_start + best_len));
        assert(views(before@) =~= hex_groups(g@.take(best_start as int)));
        assert(views(after@) =~= hex_groups(g@.skip(best_start + best_len)));
        let mut r = join_strings(&before, ":");
        push_char(&mut r, ':');
        push_char(&mut r, ':');
        let tail = join_strings(&after, ":");
        push_str(&mut r, tail.as_str());
        assert(r@ =~= render_groups(g@, best_start as int, best_len as int));
        r
    }
}

// ─── /proc/net addresses ────────────────────────────────

/// The value of the hexadecimal pair `k` (text bytes `2k .. 2k+2`), or 0 where it is
/// not a valid number.
pub open spec fn hex_pair(b: Seq<u8>, k: int) -> u8 {
    parse_radix(b.subrange(2 * k, 2 * k + 2), 16, 255).unwrap_or(0) as u8
}

/// The sixteen bytes of a 32-byte hexadecimal address as `/proc/net/tcp6` writes it:
/// four 32-bit words of eight digits, each stored least significant byte first, so byte
/// `4w + j` is pair `4w + 3 - j` of the text.
pub open spec fn hex_pairs(b: Seq<u8>) -> Seq<u8> {
    Seq::new(16, |i: int| hex_pair(b, 4 * (i / 4) + 3 - i % 4))
}

/// The value of the eight hexadecimal digits of word `k` (text bytes `8k .. 8k+8`).
pub open spec fn hex_word(b: Seq<u8>, k: int) -> nat {
    digits_value(b.subrange(8 * k, 8 * k + 8), 16)
}

/// The value of a digit byte (0 for a byte that is not one).
pub open spec fn dv(b: u8) -> nat {
    digit_value(b, 16).unwrap_or(0)
}

proof fn lemma_digits2(s: Seq<u8>)
    requires
        s.len() == 2,
        all_digits(s, 16),
    ensures
        parse_radix(s, 16, 255) == Some(dv(s[0]) * 16 + dv(s[1])),
{
    assert(s.drop_last().drop_last() =~= Seq::<u8>::empty());
    assert(s.drop_last().last() == s[0]);
    assert(digits_value(Seq::<u8>::empty(), 16) == 0);
    assert(digits_value(s.drop_last(), 16) == dv(s[0]));
    assert(digits_value(s, 16) == dv(s[0]) * 16 + dv(s[1]));
    assert(all_digits(s, 16));
    assert(digit_value(s[0], 16) is Some);
    assert(digit_value(s[1], 16) is Some);
    assert(s[0] != 43u8);
    assert(dv(s[0]) < 16 && dv(s[1]) < 16);
    assert(dv(s[0]) * 16 + dv(s[1]) <= 255) by (nonlinear_arith)
        requires
            dv(s[0]) < 16,
            dv(s[1]) < 16,
    ;
}

proof fn lemma_word_digits(s: Seq<u8>)
    requires
        s.len() == 8,
    ensures
        digits_value(s, 16) == dv(s[0]) * 268435456 + dv(s[1]) * 16777216 + dv(s[2]) * 1048576
            + dv(s[3]) * 65536 + dv(s[4]) * 4096 + dv(s[5]) * 256 + dv(s[6]) * 16 + dv(s[7]),
{
    assert(s.take(0) =~= Seq::<u8>::empty());
    assert forall|m: int| 0 <= m < 8 implies #[trigger] s.take(m + 1).drop_last() == s.take(m)
        && s.take(m + 1).last() == s[m] by {
        assert(s.take(m + 1).drop_last() =~= s.take(m));
    }
    let v1 = digits_value(s.take(1), 16);
    let v2 = digits_value(s.take(2), 16);
    let v3 = digits_value(s.take(3), 16);
    let v4 = digits_value(s.take(4), 16);
    let v5 = digits_value(s.take(5), 16);
    let v6 = digits_value(s.take(6), 16);
    let v7 = digits_value(s.take(7), 16);
    assert(s.take(1).drop_last() == s.take(0));
    assert(digits_value(s.take(0), 16) == 0);
    assert(s.take(1).last() == s[0]);
    assert(v1 == dv(s[0]));
    assert(s.take(2).drop_last() == s.take(1));
    assert(v2 == v1 * 16 + dv(s[1]));
    assert(s.take(3).drop_last() == s.take(2));
    assert(v3 == v2 * 16 + dv(s[2]));
    assert(s.take(4).drop_last() == s.take(3));
    assert(v4 == v3 * 16 + dv(s[3]));
    assert(s.take(5).drop_last() == s.take(4));
    assert(v5 == v4 * 16 + dv(s[4]));
    assert(s.take(6).drop_last() == s.take(5));
    assert(v6 == v5 * 16 + dv(s[5]));
    assert(s.take(7).drop_last() == s.take(6));
    assert(v7 == v6 * 16 + dv(s[6]));
    assert(s.take(8) =~= s);
    assert(s.take(8).drop_last() == s.take(7));
    assert(digits_value(s, 16) == v7 * 16 + dv(s[7]));
}

proof fn lemma_word_bytes(s: Seq<u8>)
    requires
        s.len() == 8,
        all_digits(s, 16),
    ensures
        parse_radix(s.subrange(6, 8), 16, 255) == Some(digits_value(s, 16) % 256),
        parse_radix(s.subrange(4, 6), 16, 255) == Some((digits_value(s, 16) / 256) % 256),
        parse_radix(s.subrange(2, 4), 16, 255) == Some((digits_value(s, 16) / 65536) % 256),
        parse_radix(s.subrange(0, 2), 16, 255) == Some((digits_value(s, 16) / 16777216) % 256),
{
    lemma_word_digits(s);
    assert forall|m: int| 0 <= m < 8 implies dv(#[trigger] s[m]) < 16 by {
        assert(digit_value(s[m], 16) is Some);
    }
    assert forall|a: int| 0 <= a < 4 implies #[trigger] all_digits(s.subrange(2 * a, 2 * a + 2), 16) by {
        assert forall|i: int| 0 <= i < 2 implies (#[trigger] digit_value(
            s.subrange(2 * a, 2 * a + 2)[i],
            16,
        )) is Some by {
            assert(s.subrange(2 * a, 2 * a + 2)[i] == s[2 * a + i]);
        }
    }
    let (d0, d1, d2, d3, d4, d5, d6, d7) = (
        dv(s[0]),
        dv(s[1]),
        dv(s[2]),
        dv(s[3]),
        dv(s[4]),
        dv(s[5]),
        dv(s[6]),
        dv(s[7]),
    );
    let w = digits_value(s, 16);
    assert(w % 256 == d6 * 16 + d7 && (w / 256) % 256 == d4 * 16 + d5 && (w / 65536) % 256 == d2
        * 16 + d3 && (w / 16777216) % 256 == d0 * 16 + d1) by (nonlinear_arith)
        requires
            d0 < 16,
            d1 < 16,
            d2 < 16,
            d3 < 16,
            d4 < 16,
            d5 < 16,
            d6 < 16,
            d7 < 16,
            w == d0 * 268435456 + d1 * 16777216 + d2 * 1048576 + d3 * 65536 + d4 * 4096 + d5 * 256
                + d6 * 16 + d7,
    ;
    assert(all_digits(s.subrange(0, 2), 16));
    assert(all_digits(s.subrange(2, 4), 16));
    assert(all_digits(s.subrange(4, 6), 16));
    assert(all_digits(s.subrange(6, 8), 16));
    lemma_digits2(s.subrange(0, 2));
    lemma_digits2(s.subrange(2, 4));
    lemma_digits2(s.subrange(4, 6));
    lemma_digits2(s.subrange(6, 8));
}

/// The bytes read from a 32-digit `/proc/net/tcp6` address are the four words of its
/// text, each in hexadecimal, stored least significant byte first: byte `4k + j` is byte
/// `j` of word `k`.
pub proof fn lemma_hex_pairs_words(b: Seq<u8>)
    requires
        b.len() == 32,
        all_digits(b, 16),
    ensures
        forall|k: int, j: int|
            0 <= k < 4 && 0 <= j < 4 ==> hex_pairs(b)[4 * k + j] as nat == (#[trigger] hex_word(
                b,
                k,
            ) / #[trigger] byte_weight(j)) % 256,
{
    assert forall|k: int, j: int| 0 <= k < 4 && 0 <= j < 4 implies hex_pairs(b)[4 * k + j] as nat
        == (#[trigger] hex_word(b, k) / #[trigger] byte_weight(j)) % 256 by {
        let w = b.subrange(8 * k, 8 * k + 8);
        assert forall|i: int| 0 <= i < 8 implies (#[trigger] digit_value(w[i], 16)) is Some by {
            assert(w[i] == b[8 * k + i]);
        }
        lemma_word_bytes(w);
        let i = 4 * k + j;
        assert(i / 4 == k && i % 4 == j);
        let pi = 4 * k + 3 - j;
        assert(b.subrange(2 * pi, 2 * pi + 2) =~= w.subrange(6 - 2 * j, 8 - 2 * j));
        if j == 0 {
            assert((hex_word(b, k) / 1) == hex_word(b, k));
        }
    }
}

/// 256 to the power `j`, for `j` from 0 to 3.
pub open spec fn byte_weight(j: int) -> nat {
    if j == 0 {
        1
    } else if j == 1 {
        256
    } else if j == 2 {
        65536
    } else {
        16777216
    }
}

/// `format_addr` slices a 32-byte address into pairs of bytes; the slicing requires
/// every even offset to be a character boundary.
pub open spec fn pair_slices_ok(s: Seq<char>) -> bool {
    let b = vstd::utf8::encode_utf8(s);
    b.len() == 32 ==> forall|k: int|
        0 <= k <= 16 ==> #[trigger] vstd::utf8::is_char_boundary(b, 2 * k)
}

/// How a `/proc/net/*` address is written. An 8-byte address is a `u32` in hexadecimal
/// whose least significant byte is the first octet; a 32-byte address is four such
/// words (see `hex_pairs`); anything else, or an 8-byte address that does not parse, is
/// written `unknown:` followed by the text.
pub open spec fn format_addr_text(s: Seq<char>) -> Seq<char> {
    let b = vstd::utf8::encode_utf8(s);
    if b.len() == 8 && parse_radix(b, 16, u32::MAX as nat) is Some {
        ipv4_text(parse_radix(b, 16, u32::MAX as nat).unwrap())
    } else if b.len() == 32 {
        ipv6_text(hex_pairs(b))
    } else {
        "unknown:"@ + s
    }
}

/// Whether `format_addr` can slice this address (see `pair_slices_ok`).
pub fn format_addr_slices_ok(hex_addr: &str) -> (b: bool)
    ensures
        b == pair_slices_ok(hex_addr@),
{
    let bytes = hex_addr.as_bytes();
    if bytes.len() != 32 {
        return true;
    }
    let mut k: usize = 0;
    while k <= 16
        invariant
            k <= 17,
            hex_addr.spec_bytes().len() == 32,
            forall|j: int|
                0 <= j < k ==> #[trigger] vstd::utf8::is_char_boundary(hex_addr.spec_bytes(), 2 * j),
        decreases 17 - k,
    {
        if !hex_addr.is_char_boundary(2 * k) {
            return false;
        }
        k = k + 1;
    }
    true
}

/// Formats the local address column of `/proc/net/tcp`, `tcp6`, `udp` or `udp6`:
/// `"0100007F"` gives `"127.0.0.1"`, `"00000000000000000000000001000000"` gives `"::1"`.
pub fn format_addr(hex_addr: &str) -> (s: String)
    requires
        pair_slices_ok(hex_addr@),
    ensures
        s@ == format_addr_text(hex_addr@),
{
    let b = hex_addr.as_bytes();
    let n = b.len();
    assert(b@ == vstd::utf8::encode_utf8(hex_addr@));
    if n == 8 {
        assert(b@.subrange(0, 8) =~= b@);
        if let Some(v) = parse_radix_bytes(b, 0, 8, 16, 0xffff_ffff) {
            return ipv4_from_u32(v as u32);
        }
    } else if n == 32 {
        let mut bytes: [u8; 16] = [0u8; 16];
        let mut i: usize = 0;
        while i < 16
            invariant
                i <= 16,
                b@.len() == 32,
                bytes@.len() == 16,
                forall|k: int| 0 <= k < i ==> bytes@[k] == hex_pairs(b@)[k],
            decreases 16 - i,
        {
            let k = 4 * (i / 4) + 3 - i % 4;
            let v = match parse_radix_bytes(b, 2 * k, 2 * k + 2, 16, 255) {
                Some(v) => v as u8,
                None => 0u8,
            };
            bytes[i] = v;
            i = i + 1;
        }
        assert(bytes@ =~= hex_pairs(b@));
        return ipv6_from_bytes(&bytes);
    }
    let mut s = owned("unknown:");
    push_str(&mut s, hex_addr);
    s
}

/// `addr:port` for an IPv4 address from a socket table.
pub fn v4_endpoint(addr: u32, port: u16) -> (s: String)
    ensures
        s@ == ipv4_text(addr as nat) + seq![':'] + dec_chars(port as nat),
{
    let mut s = ipv4_from_u32(addr);
    push_char(&mut s, ':');
    push_decimal(&mut s, port as u64);
    assert(s@ =~= ipv4_text(addr as nat) + seq![':'] + dec_chars(port as nat));
    s
}

/// `[addr]:port` for an IPv6 address from a socket table.
pub fn v6_endpoint(addr: &[u8; 16], port: u16) -> (s: String)
    ensures
        s@ == seq!['['] + ipv6_text(addr@) + seq![']', ':'] + dec_chars(port as nat),
{
    let mut s = String::new();
    push_char(&mut s, '[');
    let a = ipv6_from_bytes(addr);
    push_str(&mut s, a.as_str());
    push_char(&mut s, ']');
    push_char(&mut s, ':');
    push_decimal(&mut s, port as u64);
    assert(s@ =~= seq!['['] + ipv6_text(addr@) + seq![']', ':'] + dec_chars(port as nat));
    s
}

} // verus!
