//! Number formatting and parsing: decimal and hexadecimal rendering of
//! unsigned integers, and the `from_str_radix` rules for unsigned types.
use vstd::prelude::*;

verus! {

// ─── characters and strings ─────────────────────────────

/// `String::push`: appends one character to the end of the string.
#[verifier::external_body]
pub(crate) fn push_char(s: &mut String, c: char)
    ensures
        final(s)@ == old(s)@.push(c),
{
    s.push(c)
}

/// Builds a `String` holding exactly the given characters.
pub fn string_from_chars(v: &[char]) -> (s: String)
    ensures
        s@ == v@,
{
    let mut s = String::new();
    let mut i: usize = 0;
    while i < v.len()
        invariant
            i <= v@.len(),
            s@ == v@.take(i as int),
        decreases v@.len() - i,
    {
        push_char(&mut s, v[i]);
        assert(v@.take(i + 1) =~= v@.take(i as int).push(v@[i as int]));
        i = i + 1;
    }
    assert(v@.take(v@.len() as int) =~= v@);
    s
}

/// Appends the characters of `v` to `s`.
pub fn push_chars(s: &mut String, v: &[char])
    ensures
        final(s)@ == old(s)@ + v@,
{
    let mut i: usize = 0;
    while i < v.len()
        invariant
            i <= v@.len(),
            s@ == old(s)@ + v@.take(i as int),
        decreases v@.len() - i,
    {
        push_char(s, v[i]);
        assert(v@.take(i + 1) =~= v@.take(i as int).push(v@[i as int]));
        i = i + 1;
    }
    assert(v@.take(v@.len() as int) =~= v@);
}

/// The characters of a string slice, in order.
pub fn chars_of(s: &str) -> (v: Vec<char>)
    ensures
        v@ == s@,
{
    broadcast use vstd::string::group_string_axioms;
    let mut v: Vec<char> = Vec::new();
    for c in it: s.chars()
        invariant
            v@ == it.seq().take(it.index() as int),
            it.seq() == s@,
    {
        v.push(c);
    }
    v
}

// ─── decimal and hexadecimal rendering ──────────────────

/// The ASCII character of a digit value below 16; letters are lower case.
pub open spec fn digit_char_lower(d: nat) -> char {
    if d < 10 {
        (d + 48) as char
    } else {
        (d + 87) as char
    }
}

/// The ASCII character of a digit value below 16; letters are upper case.
pub open spec fn digit_char_upper(d: nat) -> char {
    if d < 10 {
        (d + 48) as char
    } else {
        (d + 55) as char
    }
}

/// `n` written in decimal, without leading zeros (`0` is written `"0"`).
pub open spec fn dec_chars(n: nat) -> Seq<char>
    decreases n,
{
    if n < 10 {
        seq![digit_char_lower(n)]
    } else {
        dec_chars(n / 10).push(digit_char_lower(n % 10))
    }
}

/// `n` written in lower-case hexadecimal, without leading zeros (the `{:x}` format).
pub open spec fn hex_chars(n: nat) -> Seq<char>
    decreases n,
{
    if n < 16 {
        seq![digit_char_lower(n)]
    } else {
        hex_chars(n / 16).push(digit_char_lower(n % 16))
    }
}

/// `n` written as exactly four upper-case hexadecimal digits (the `{:04X}` format of a `u16`).
pub open spec fn hex_upper4(n: u16) -> Seq<char> {
    seq![
        digit_char_upper((n / 4096) as nat),
        digit_char_upper(((n / 256) % 16) as nat),
        digit_char_upper(((n / 16) % 16) as nat),
        digit_char_upper((n % 16) as nat),
    ]
}

fn digit_lower(d: u64) -> (c: char)
    requires
        d < 16,
    ensures
        c == digit_char_lower(d as nat),
{
    if d < 10 {
        ((d as u8) + 48) as char
    } else {
        ((d as u8) + 87) as char
    }
}

fn digit_upper(d: u16) -> (c: char)
    requires
        d < 16,
    ensures
        c == digit_char_upper(d as nat),
{
    if d < 10 {
        ((d as u8) + 48) as char
    } else {
        ((d as u8) + 55) as char
    }
}

/// Appends `n` in decimal to `out`.
pub fn push_decimal(out: &mut String, n: u64)
    ensures
        final(out)@ == old(out)@ + dec_chars(n as nat),
    decreases n,
{
    if n >= 10 {
        push_decimal(out, n / 10);
    }
    push_char(out, digit_lower(n % 10));
    assert(final(out)@ =~= old(out)@ + dec_chars(n as nat));
}

/// Appends `n` in lower-case hexadecimal to `out`.
pub fn push_hex(out: &mut String, n: u64)
    ensures
        final(out)@ == old(out)@ + hex_chars(n as nat),
    decreases n,
{
    if n >= 16 {
        push_hex(out, n / 16);
    }
    push_char(out, digit_lower(n % 16));
    assert(final(out)@ =~= old(out)@ + hex_chars(n as nat));
}

/// A signed integer in decimal: a `-` before the digits of a negative value.
pub open spec fn int_dec_chars(i: int) -> Seq<char> {
    if i < 0 {
        seq!['-'] + dec_chars((-i) as nat)
    } else {
        dec_chars(i as nat)
    }
}

/// Appends a signed integer in decimal to `out` (the `{}` format of an `i32`).
pub fn push_signed_decimal(out: &mut String, i: i32)
    ensures
        final(out)@ == old(out)@ + int_dec_chars(i as int),
{
    if i < 0 {
        push_char(out, '-');
        let m: i64 = -(i as i64);
        push_decimal(out, m as u64);
    } else {
        push_decimal(out, i as u64);
    }
    assert(final(out)@ =~= old(out)@ + int_dec_chars(i as int));
}

/// `n` in decimal (the `{}` format of an unsigned integer).
pub fn decimal(n: u64) -> (s: String)
    ensures
        s@ == dec_chars(n as nat),
{
    let mut s = String::new();
    push_decimal(&mut s, n);
    assert(s@ =~= dec_chars(n as nat));
    s
}

/// `n` in lower-case hexadecimal (the `{:x}` format).
pub fn hex_lower(n: u64) -> (s: String)
    ensures
        s@ == hex_chars(n as nat),
{
    let mut s = String::new();
    push_hex(&mut s, n);
    assert(s@ =~= hex_chars(n as nat));
    s
}

/// `n` as four upper-case hexadecimal digits (the `{:04X}` format).
pub fn hex_upper_padded4(n: u16) -> (s: String)
    ensures
        s@ == hex_upper4(n),
{
    let mut s = String::new();
    push_char(&mut s, digit_upper(n / 4096));
    push_char(&mut s, digit_upper((n / 256) % 16));
    push_char(&mut s, digit_upper((n / 16) % 16));
    push_char(&mut s, digit_upper(n % 16));
    assert(s@ =~= hex_upper4(n));
    s
}

/// The value of an upper-case hexadecimal digit character.
fn upper_hex_value(c: char) -> (r: Option<u16>)
    ensures
        r matches Some(d) ==> d < 16 && digit_char_upper(d as nat) == c,
        r is None ==> forall|d: nat| d < 16 ==> #[trigger] digit_char_upper(d) != c,
{
    let u = c as u32;
    if 48 <= u && u <= 57 {
        let d = (u - 48) as u16;
        assert(((d + 48) as char) as u32 == d + 48);
        proof {
            vstd::utf8::char_u32_cast(c, u);
            vstd::utf8::char_u32_cast(digit_char_upper(d as nat), (d + 48) as u32);
        }
        Some(d)
    } else if 65 <= u && u <= 70 {
        let d = (u - 55) as u16;
        assert(((d + 55) as char) as u32 == d + 55);
        proof {
            vstd::utf8::char_u32_cast(c, u);
            vstd::utf8::char_u32_cast(digit_char_upper(d as nat), (d + 55) as u32);
        }
        Some(d)
    } else {
        assert forall|d: nat| d < 16 implies #[trigger] digit_char_upper(d) != c by {
            let x: nat = if d < 10 { d + 48 } else { d + 55 };
            assert((x as char) as u32 == x);
        }
        None
    }
}

/// Reads four upper-case hexadecimal digits (the inverse of `hex_upper_padded4`): the
/// `u16` whose `{:04X}` text is `s`, if there is one.
pub fn read_hex_upper4(s: &[char]) -> (r: Option<u16>)
    ensures
        r matches Some(p) ==> hex_upper4(p) == s@,
        r is None ==> forall|p: u16| #[trigger] hex_upper4(p) != s@,
{
    if s.len() != 4 {
        assert forall|p: u16| #[trigger] hex_upper4(p) != s@ by {
            assert(hex_upper4(p).len() == 4);
        }
        return None;
    }
    let d0 = upper_hex_value(s[0]);
    let d1 = upper_hex_value(s[1]);
    let d2 = upper_hex_value(s[2]);
    let d3 = upper_hex_value(s[3]);
    match (d0, d1, d2, d3) {
        (Some(a), Some(b), Some(c), Some(d)) => {
            let v: u16 = a * 4096 + b * 256 + c * 16 + d;
            assert(v / 4096 == a && (v / 256) % 16 == b && (v / 16) % 16 == c && v % 16 == d)
                by (nonlinear_arith)
                requires
                    a < 16,
                    b < 16,
                    c < 16,
                    d < 16,
                    v == a * 4096 + b * 256 + c * 16 + d,
            ;
            assert(hex_upper4(v) =~= s@);
            Some(v)
        },
        _ => {
            assert forall|p: u16| #[trigger] hex_upper4(p) != s@ by {
                let h = hex_upper4(p);
                if h == s@ {
                    assert(h[0] == digit_char_upper((p / 4096) as nat));
                    assert(h[1] == digit_char_upper(((p / 256) % 16) as nat));
                    assert(h[2] == digit_char_upper(((p / 16) % 16) as nat));
                    assert(h[3] == digit_char_upper((p % 16) as nat));
                    assert(p / 4096 < 16) by (nonlinear_arith)
                        requires
                            p < 65536,
                    ;
                }
            }
            None
        },
    }
}

// ─── parsing ────────────────────────────────────────────

/// The value of an ASCII digit byte in the given radix (at most 36), if it is one.
pub open spec fn digit_value(b: u8, radix: nat) -> Option<nat> {
    let v: int = if 48 <= b <= 57 {
        b - 48
    } else if 97 <= b <= 122 {
        b - 97 + 10
    } else if 65 <= b <= 90 {
        b - 65 + 10
    } else {
        radix as int
    };
    if v < radix {
        Some(v as nat)
    } else {
        None
    }
}

/// Every byte of `s` is a digit in the radix.
pub open spec fn all_digits(s: Seq<u8>, radix: nat) -> bool {
    forall|i: int| 0 <= i < s.len() ==> (#[trigger] digit_value(s[i], radix)) is Some
}

/// The value of a string of digits, most significant first.
pub open spec fn digits_value(s: Seq<u8>, radix: nat) -> nat
    decreases s.len(),
{
    if s.len() == 0 {
        0
    } else {
        digits_value(s.drop_last(), radix) * radix + digit_value(s.last(), radix).unwrap_or(0)
    }
}

/// What `from_str_radix` of an unsigned type whose largest value is `max` gives for
/// these bytes: an optional `+`, then one or more digits whose value is at most `max`.
pub open spec fn parse_radix(s: Seq<u8>, radix: nat, max: nat) -> Option<nat> {
    if s.len() == 0 {
        None
    } else {
        let d = if s[0] == 43u8 {
            s.drop_first()
        } else {
            s
        };
        if d.len() == 0 || !all_digits(d, radix) || digits_value(d, radix) > max {
            None
        } else {
            Some(digits_value(d, radix))
        }
    }
}

/// `str::parse::<u32>` (decimal).
pub open spec fn parse_u32_spec(s: Seq<char>) -> Option<nat> {
    parse_radix(vstd::utf8::encode_utf8(s), 10, u32::MAX as nat)
}

/// `str::parse::<u16>` (decimal).
pub open spec fn parse_u16_spec(s: Seq<char>) -> Option<nat> {
    parse_radix(vstd::utf8::encode_utf8(s), 10, u16::MAX as nat)
}

proof fn lemma_digits_value_mono(s: Seq<u8>, radix: nat)
    requires
        s.len() > 0,
        radix >= 2,
    ensures
        digits_value(s, radix) >= digits_value(s.drop_last(), radix),
{
    let p = digits_value(s.drop_last(), radix);
    assert(p * radix >= p) by (nonlinear_arith)
        requires
            radix >= 2,
    ;
}

fn byte_digit(b: u8, radix: u64) -> (r: Option<u64>)
    requires
        2 <= radix <= 36,
    ensures
        r matches Some(v) ==> digit_value(b, radix as nat) == Some(v as nat),
        r is None ==> digit_value(b, radix as nat) is None,
{
    let v: u64 = if 48 <= b && b <= 57 {
        (b - 48) as u64
    } else if 97 <= b && b <= 122 {
        (b - 97 + 10) as u64
    } else if 65 <= b && b <= 90 {
        (b - 65 + 10) as u64
    } else {
        radix
    };
    if v < radix {
        Some(v)
    } else {
        None
    }
}

/// `from_str_radix` for an unsigned type whose largest value is `max`, on the bytes
/// `s[start..end]`.
pub fn parse_radix_bytes(s: &[u8], start: usize, end: usize, radix: u64, max: u64) -> (r: Option<
    u64,
>)
    requires
        start <= end <= s@.len(),
        2 <= radix <= 36,
        max <= u32::MAX,
    ensures
        r matches Some(v) ==> parse_radix(s@.subrange(start as int, end as int), radix as nat, max as nat) == Some(v as nat),
        r is None ==> parse_radix(s@.subrange(start as int, end as int), radix as nat, max as nat) is None,
{
    let ghost t = s@.subrange(start as int, end as int);
    if start == end {
        return None;
    }
    let mut i = start;
    if s[start] == 43u8 {
        i = start + 1;
    }
    let ghost d = s@.subrange(i as int, end as int);
    assert(d =~= (if t[0] == 43u8 { t.drop_first() } else { t }));
    if i == end {
        return None;
    }
    let first = i;
    let mut acc: u64 = 0;
    while i < end
        invariant
            start <= first <= i <= end <= s@.len(),
            d == s@.subrange(first as int, end as int),
            t == s@.subrange(start as int, end as int),
            t.len() > 0,
            d.len() > 0,
            d == (if t[0] == 43u8 { t.drop_first() } else { t }),
            2 <= radix <= 36,
            max <= u32::MAX,
            all_digits(s@.subrange(first as int, i as int), radix as nat),
            acc == digits_value(s@.subrange(first as int, i as int), radix as nat),
            acc <= max,
        decreases end - i,
    {
        let ghost pre = s@.subrange(first as int, i as int);
        let ghost next = s@.subrange(first as int, i + 1);
        assert(next.drop_last() =~= pre);
        assert(next.last() == s@[i as int]);
        match byte_digit(s[i], radix) {
            None => {
                assert(d[i - first] == s@[i as int]);
                assert(digit_value(d[i - first], radix as nat) is None);
                assert(!all_digits(d, radix as nat));
                return None;
            },
            Some(v) => {
                assert(acc * radix + v <= u32::MAX * 36 + 36) by (nonlinear_arith)
                    requires
                        acc <= u32::MAX,
                        radix <= 36,
                        v < 36,
                ;
                let nacc = acc * radix + v;
                assert forall|j: int| 0 <= j < next.len() implies (#[trigger] digit_value(
                    next[j],
                    radix as nat,
                )) is Some by {
                    if j < pre.len() {
                        assert(next[j] == pre[j]);
                    }
                }
                if nacc > max {
                    // every further digit keeps the value at least as large
                    proof {
                        lemma_overflow_persists(s@, first as int, i + 1, end as int, radix as nat, max as nat);
                    }
                    return None;
                }
                acc = nacc;
                i = i + 1;
            },
        }
    }
    Some(acc)
}

proof fn lemma_overflow_persists(s: Seq<u8>, first: int, k: int, end: int, radix: nat, max: nat)
    requires
        0 <= first < k <= end <= s.len(),
        radix >= 2,
        digits_value(s.subrange(first, k), radix) > max,
    ensures
        digits_value(s.subrange(first, end), radix) > max,
    decreases end - k,
{
    if k < end {
        let nxt = s.subrange(first, k + 1);
        assert(nxt.drop_last() =~= s.subrange(first, k));
        lemma_digits_value_mono(nxt, radix);
        lemma_overflow_persists(s, first, k + 1, end, radix, max);
    }
}

/// `str::parse::<u32>`: `Some` exactly when the string is an optional `+` followed
/// by decimal digits whose value fits in a `u32`.
pub fn parse_u32(s: &str) -> (r: Option<u32>)
    ensures
        r matches Some(v) ==> parse_u32_spec(s@) == Some(v as nat),
        r is None ==> parse_u32_spec(s@) is None,
{
    let b = s.as_bytes();
    assert(b@.subrange(0, b@.len() as int) =~= b@);
    match parse_radix_bytes(b, 0, b.len(), 10, 0xffff_ffff) {
        Some(v) => Some(v as u32),
        None => None,
    }
}

/// `str::parse::<u16>`: `Some` exactly when the string is an optional `+` followed
/// by decimal digits whose value fits in a `u16`.
pub fn parse_u16(s: &str) -> (r: Option<u16>)
    ensures
        r matches Some(v) ==> parse_u16_spec(s@) == Some(v as nat),
        r is None ==> parse_u16_spec(s@) is None,
{
    let b = s.as_bytes();
    assert(b@.subrange(0, b@.len() as int) =~= b@);
    match parse_radix_bytes(b, 0, b.len(), 10, 0xffff) {
        Some(v) => Some(v as u16),
        None => None,
    }
}

// ─── laws ───────────────────────────────────────────────

/// The bytes of `n` written in decimal.
pub open spec fn dec_bytes(n: nat) -> Seq<u8>
    decreases n,
{
    if n < 10 {
        seq![(n + 48) as u8]
    } else {
        dec_bytes(n / 10).push((n % 10 + 48) as u8)
    }
}

proof fn lemma_dec_chars_bytes(n: nat)
    ensures
        dec_chars(n).len() == dec_bytes(n).len(),
        forall|i: int|
            0 <= i < dec_chars(n).len() ==> '0' <= #[trigger] dec_chars(n)[i] <= '9'
                && dec_chars(n)[i] as u8 == dec_bytes(n)[i],
    decreases n,
{
    if n >= 10 {
        lemma_dec_chars_bytes(n / 10);
        let d = (n % 10) as int;
        assert(((d + 48) as char) as u32 == d + 48);
    } else {
        assert(((n + 48) as char) as u32 == n + 48);
    }
}

proof fn lemma_dec_bytes_value(n: nat)
    ensures
        dec_bytes(n).len() > 0,
        48 <= dec_bytes(n)[0] <= 57,
        all_digits(dec_bytes(n), 10),
        digits_value(dec_bytes(n), 10) == n,
    decreases n,
{
    if n >= 10 {
        lemma_dec_bytes_value(n / 10);
        let b = dec_bytes(n);
        assert(b.drop_last() =~= dec_bytes(n / 10));
        assert(digit_value(b.last(), 10) == Some(n % 10));
        assert((n / 10) * 10 + n % 10 == n) by (nonlinear_arith);
        assert(digits_value(b, 10) == digits_value(b.drop_last(), 10) * 10 + digit_value(
            b.last(),
            10,
        ).unwrap_or(0));
        assert forall|i: int| 0 <= i < b.len() implies (#[trigger] digit_value(b[i], 10)) is Some by {
            if i < b.len() - 1 {
                assert(b[i] == dec_bytes(n / 10)[i]);
            }
        }
    } else {
        let b = dec_bytes(n);
        assert(b.drop_last() =~= Seq::<u8>::empty());
        assert(digits_value(b, 10) == digits_value(b.drop_last(), 10) * 10 + digit_value(
            b.last(),
            10,
        ).unwrap_or(0));
    }
}

/// Reading back a number written in decimal gives the number: `parse_u32` of
/// `decimal(n)` is `n`.
pub proof fn lemma_decimal_round_trip(n: u32)
    ensures
        parse_u32_spec(dec_chars(n as nat)) == Some(n as nat),
{
    let c = dec_chars(n as nat);
    lemma_dec_chars_bytes(n as nat);
    lemma_dec_bytes_value(n as nat);
    assert(vstd::utf8::is_ascii_chars(c));
    vstd::utf8::is_ascii_chars_encode_utf8(c);
    assert(vstd::utf8::encode_utf8(c) =~= dec_bytes(n as nat));
}

proof fn lemma_digit_char_upper_injective(a: nat, b: nat)
    requires
        a < 16,
        b < 16,
        digit_char_upper(a) == digit_char_upper(b),
    ensures
        a == b,
{
    let ca = if a < 10 { a + 48 } else { a + 55 };
    let cb = if b < 10 { b + 48 } else { b + 55 };
    assert((ca as char) as u32 == ca);
    assert((cb as char) as u32 == cb);
}

/// The four-digit upper-case hexadecimal text of a port names that port only: two
/// different ports never have the same `{:04X}` text, so a socket-table line matches
/// one port.
pub proof fn lemma_hex_upper4_injective(p: u16, q: u16)
    requires
        hex_upper4(p) == hex_upper4(q),
    ensures
        p == q,
{
    let hp = hex_upper4(p);
    let hq = hex_upper4(q);
    assert(hp[0] == hq[0] && hp[1] == hq[1] && hp[2] == hq[2] && hp[3] == hq[3]);
    lemma_digit_char_upper_injective((p / 4096) as nat, (q / 4096) as nat);
    lemma_digit_char_upper_injective(((p / 256) % 16) as nat, ((q / 256) % 16) as nat);
    lemma_digit_char_upper_injective(((p / 16) % 16) as nat, ((q / 16) % 16) as nat);
    lemma_digit_char_upper_injective((p % 16) as nat, (q % 16) as nat);
    assert(p == (p / 4096) * 4096 + ((p / 256) % 16) * 256 + ((p / 16) % 16) * 16 + p % 16)
        by (nonlinear_arith)
        requires
            p < 65536,
    ;
    assert(q == (q / 4096) * 4096 + ((q / 256) % 16) * 256 + ((q / 16) % 16) * 16 + q % 16)
        by (nonlinear_arith)
        requires
            q < 65536,
    ;
}

} // verus!
