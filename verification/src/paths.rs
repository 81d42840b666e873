//! Splitting text at a separator, the final component of a path, and sorted
//! de-duplicated lists of strings.
use vstd::prelude::*;
use crate::numfmt::{chars_of, string_from_chars};
use crate::text::{
    chars_eq, chars_lt, find_char, lemma_find_char_concat, lemma_find_char_range, seq_lt, views,
    vviews,
};

verus! {

/// `str::split` at a character: the pieces between separators, empty ones included
/// (`""` gives one empty piece).
pub open spec fn split_at_char(s: Seq<char>, c: char) -> Seq<Seq<char>>
    decreases s.len(),
{
    match find_char(s, c) {
        None => seq![s],
        Some(i) => {
            proof {
                lemma_find_char_range(s, c);
            }
            seq![s.take(i)] + split_at_char(s.skip(i + 1), c)
        },
    }
}

/// `str::split` at a character, on a character vector.
pub fn split_chars(s: &[char], c: char) -> (r: Vec<Vec<char>>)
    ensures
        crate::text::vviews(r@) == split_at_char(s@, c),
{
    let mut r: Vec<Vec<char>> = Vec::new();
    let mut cur: Vec<char> = Vec::new();
    let mut i: usize = 0;
    let mut start: usize = 0;
    assert(s@.skip(0) =~= s@);
    while i < s.len()
        invariant
            start <= i <= s@.len(),
            cur@ == s@.subrange(start as int, i as int),
            forall|j: int| start <= j < i ==> #[trigger] s@[j] != c,
            crate::text::vviews(r@) + split_at_char(s@.skip(start as int), c) == split_at_char(
                s@,
                c,
            ),
        decreases s@.len() - i,
    {
        if s[i] == c {
            proof {
                let t = s@.skip(start as int);
                assert forall|j: int| 0 <= j < i - start implies #[trigger] t[j] != c by {
                    assert(t[j] == s@[j + start]);
                }
                assert(t[i - start] == c);
                lemma_find_char_at(t, c, i - start);
                assert(t.take(i - start) =~= cur@);
                assert(t.skip(i - start + 1) =~= s@.skip(i + 1));
            }
            let piece = cur;
            r.push(piece);
            assert(crate::text::vviews(r@) =~= crate::text::vviews(r@.drop_last()) + seq![
                r@.last()@,
            ]);
            cur = Vec::new();
            start = i + 1;
            assert(cur@ =~= s@.subrange(start as int, start as int));
        } else {
            cur.push(s[i]);
            assert(s@.subrange(start as int, i + 1) =~= s@.subrange(start as int, i as int).push(
                s@[i as int],
            ));
        }
        i = i + 1;
    }
    proof {
        let t = s@.skip(start as int);
        assert forall|j: int| 0 <= j < t.len() implies #[trigger] t[j] != c by {
            assert(t[j] == s@[j + start]);
        }
        lemma_find_char_none(t, c);
        assert(t =~= cur@);
    }
    r.push(cur);
    assert(crate::text::vviews(r@) =~= crate::text::vviews(r@.drop_last()) + seq![r@.last()@]);
    r
}

proof fn lemma_find_char_at(s: Seq<char>, c: char, k: int)
    requires
        0 <= k < s.len(),
        s[k] == c,
        forall|j: int| 0 <= j < k ==> #[trigger] s[j] != c,
    ensures
        find_char(s, c) == Some(k),
    decreases k,
{
    if k > 0 {
        let t = s.drop_first();
        assert forall|j: int| 0 <= j < k - 1 implies #[trigger] t[j] != c by {
            assert(t[j] == s[j + 1]);
        }
        lemma_find_char_at(t, c, k - 1);
    }
}

/// A text without the character has no occurrence of it.
pub proof fn lemma_find_char_none_pub(s: Seq<char>, c: char)
    requires
        forall|j: int| 0 <= j < s.len() ==> #[trigger] s[j] != c,
    ensures
        find_char(s, c) is None,
{
    lemma_find_char_none(s, c);
}

proof fn lemma_find_char_none(s: Seq<char>, c: char)
    requires
        forall|j: int| 0 <= j < s.len() ==> #[trigger] s[j] != c,
    ensures
        find_char(s, c) is None,
    decreases s.len(),
{
    if s.len() > 0 {
        let t = s.drop_first();
        assert forall|j: int| 0 <= j < t.len() implies #[trigger] t[j] != c by {
            assert(t[j] == s[j + 1]);
        }
        lemma_find_char_none(t, c);
    }
}

// ─── file names ─────────────────────────────────────────

/// A path piece that names something: neither empty nor `.`.
pub open spec fn names_something(p: Seq<char>) -> bool {
    p.len() > 0 && p != seq!['.']
}

/// The last piece that names something.
pub open spec fn last_named(ps: Seq<Seq<char>>) -> Option<Seq<char>>
    decreases ps.len(),
{
    if ps.len() == 0 {
        None
    } else if names_something(ps.last()) {
        Some(ps.last())
    } else {
        last_named(ps.drop_last())
    }
}

/// `Path::file_name` with `/` as the separator: the last component of the path once
/// empty and `.` components are dropped, unless there is none or it is `..`.
pub open spec fn file_name_of(p: Seq<char>) -> Option<Seq<char>> {
    last_component_of(p)
}

fn is_dot(p: &[char]) -> (b: bool)
    ensures
        b == (p@ == seq!['.']),
{
    if p.len() == 1 && p[0] == '.' {
        assert(p@ =~= seq!['.']);
        true
    } else {
        false
    }
}

fn is_dot_dot(p: &[char]) -> (b: bool)
    ensures
        b == (p@ == seq!['.', '.']),
{
    if p.len() == 2 && p[0] == '.' && p[1] == '.' {
        assert(p@ =~= seq!['.', '.']);
        true
    } else {
        false
    }
}

/// The last named piece, unless it is `..`.
pub open spec fn named_last(ps: Seq<Seq<char>>) -> Option<Seq<char>> {
    match last_named(ps) {
        Some(n) => if n == seq!['.', '.'] {
            None
        } else {
            Some(n)
        },
        None => None,
    }
}

/// The last named piece of `c` split at `/`, unless it is `..`.
pub open spec fn last_component_of(c: Seq<char>) -> Option<Seq<char>> {
    named_last(split_at_char(c, '/'))
}

/// The last named piece of `c` split at `/`, leaving out the first `from` pieces.
pub open spec fn last_component_after(c: Seq<char>, from: int) -> Option<Seq<char>> {
    let ps = split_at_char(c, '/');
    if from < ps.len() {
        named_last(ps.skip(from))
    } else {
        None
    }
}

fn last_component_from(c: &[char], from: usize) -> (r: Option<String>)
    ensures
        r matches Some(s) ==> last_component_after(c@, from as int) == Some(s@),
        r is None ==> last_component_after(c@, from as int) is None,
{
    let pieces = split_chars(c, '/');
    let ghost ps = crate::text::vviews(pieces@);
    if from >= pieces.len() {
        return None;
    }
    let ghost tail = ps.skip(from as int);
    let mut k = pieces.len();
    assert(ps.subrange(from as int, k as int) =~= tail);
    while k > from && !(pieces[k - 1].len() > 0 && !is_dot(pieces[k - 1].as_slice()))
        invariant
            from <= k <= pieces@.len(),
            ps == crate::text::vviews(pieces@),
            tail == ps.skip(from as int),
            last_named(tail) == last_named(ps.subrange(from as int, k as int)),
        decreases k,
    {
        assert(ps.subrange(from as int, k as int).drop_last() =~= ps.subrange(from as int, k - 1));
        assert(ps.subrange(from as int, k as int).last() == pieces@[k - 1]@);
        k = k - 1;
    }
    if k == from {
        assert(ps.subrange(from as int, k as int) =~= Seq::<Seq<char>>::empty());
        return None;
    }
    assert(ps.subrange(from as int, k as int).last() == pieces@[k - 1]@);
    if is_dot_dot(pieces[k - 1].as_slice()) {
        return None;
    }
    Some(string_from_chars(pieces[k - 1].as_slice()))
}

fn last_component(c: &[char]) -> (r: Option<String>)
    ensures
        r matches Some(s) ==> last_component_of(c@) == Some(s@),
        r is None ==> last_component_of(c@) is None,
{
    proof {
        let ps = split_at_char(c@, '/');
        lemma_split_nonempty(c@, '/');
        assert(ps.skip(0) =~= ps);
    }
    last_component_from(c, 0)
}

/// Splitting always gives at least one piece.
pub proof fn lemma_split_nonempty(s: Seq<char>, c: char)
    ensures
        split_at_char(s, c).len() >= 1,
    decreases s.len(),
{
    match find_char(s, c) {
        None => {},
        Some(i) => {
            lemma_find_char_range(s, c);
            lemma_split_nonempty(s.skip(i + 1), c);
        },
    }
}

/// `Path::file_name` (with `/` separators): `"/usr/bin/node"` gives `"node"`, `"a/b/"`
/// gives `"b"`, `"/"` and `"a/.."` give nothing.
pub fn file_name(path: &str) -> (r: Option<String>)
    ensures
        r matches Some(s) ==> file_name_of(path@) == Some(s@),
        r is None ==> file_name_of(path@) is None,
{
    let c = chars_of(path);
    last_component(c.as_slice())
}

/// A UNC path: it starts with `\\` and is not a verbatim (`\\?\`) or device
/// (`\\.\`) path.
pub open spec fn is_unc(p: Seq<char>) -> bool {
    &&& p.len() >= 2 && p[0] == '\\' && p[1] == '\\'
    &&& !(p.len() >= 4 && (p[2] == '?' || p[2] == '.') && p[3] == '\\')
}

/// A Windows path read with `\` and `/` both as separators and a leading drive
/// (`C:`) set aside.
pub open spec fn windows_pieces(p: Seq<char>) -> Seq<char> {
    let q = if p.len() >= 2 && p[1] == ':' && (('a' <= p[0] && p[0] <= 'z') || ('A' <= p[0]
        && p[0] <= 'Z')) {
        p.skip(2)
    } else {
        p
    };
    q.map_values(|c: char| if c == '\\' { '/' } else { c })
}

/// `Path::file_name` for a Windows path (see `windows_pieces`): `"C:\\a\\node.exe"`
/// gives `"node.exe"`. In a UNC path the server and share (`\\server\share`) are its
/// prefix and never its file name. Verbatim (`\\?\`) and device (`\\.\`) prefixes
/// are read as ordinary pieces.
pub open spec fn windows_file_name_of(p: Seq<char>) -> Option<Seq<char>> {
    if is_unc(p) {
        last_component_after(windows_pieces(p), 4)
    } else {
        last_component_of(windows_pieces(p))
    }
}

/// `Path::file_name` for a Windows path (see `windows_file_name_of`).
pub fn windows_file_name(path: &str) -> (r: Option<String>)
    ensures
        r matches Some(s) ==> windows_file_name_of(path@) == Some(s@),
        r is None ==> windows_file_name_of(path@) is None,
{
    let c = chars_of(path);
    let mut start: usize = 0;
    if c.len() >= 2 && c[1] == ':' && (('a' <= c[0] && c[0] <= 'z') || ('A' <= c[0] && c[0] <= 'Z')) {
        start = 2;
    }
    let unc = c.len() >= 2 && c[0] == '\\' && c[1] == '\\' && !(c.len() >= 4 && (c[2] == '?'
        || c[2] == '.') && c[3] == '\\');
    let ghost q = c@.skip(start as int);
    let mut m: Vec<char> = Vec::new();
    let mut i = start;
    while i < c.len()
        invariant
            start <= i <= c@.len(),
            q == c@.skip(start as int),
            m@ == q.take(i - start).map_values(|x: char| if x == '\\' { '/' } else { x }),
        decreases c@.len() - i,
    {
        let x = c[i];
        let y = if x == '\\' { '/' } else { x };
        m.push(y);
        assert(q.take(i - start + 1) =~= q.take(i - start).push(x));
        assert(m@ =~= q.take(i - start + 1).map_values(|x: char| if x == '\\' { '/' } else { x }));
        i = i + 1;
    }
    assert(q.take(i - start) =~= q);
    assert(m@ =~= windows_pieces(path@));
    if unc {
        last_component_from(m.as_slice(), 4)
    } else {
        last_component(m.as_slice())
    }
}

// ─── locations ──────────────────────────────────────────

/// Splitting text made of two parts joined by the separator gives the pieces of the
/// first part followed by those of the second.
pub proof fn lemma_split_concat(s: Seq<char>, t: Seq<char>, c: char)
    ensures
        split_at_char(s + seq![c] + t, c) == split_at_char(s, c) + split_at_char(t, c),
    decreases s.len(),
{
    let u = s + seq![c] + t;
    assert(u =~= s + (seq![c] + t));
    lemma_find_char_concat(s, seq![c] + t, c);
    match find_char(s, c) {
        Some(i) => {
            lemma_find_char_range(s, c);
            assert(u.take(i) =~= s.take(i));
            assert(u.skip(i + 1) =~= s.skip(i + 1) + seq![c] + t);
            lemma_split_concat(s.skip(i + 1), t, c);
            assert(split_at_char(u, c) == seq![s.take(i)] + split_at_char(u.skip(i + 1), c));
            assert(split_at_char(s, c) == seq![s.take(i)] + split_at_char(s.skip(i + 1), c));
            assert(split_at_char(u, c) =~= split_at_char(s, c) + split_at_char(t, c));
        },
        None => {
            assert((seq![c] + t)[0] == c);
            assert(find_char(seq![c] + t, c) == Some(0int));
            assert(u.take(s.len() as int) =~= s);
            assert(u.skip(s.len() as int + 1) =~= t);
            assert(split_at_char(s, c) == seq![s]);
            assert(split_at_char(u, c) =~= split_at_char(s, c) + split_at_char(t, c));
        },
    }
}

/// The text with each `\\` read as `/`.
pub open spec fn slashed(s: Seq<char>) -> Seq<char> {
    s.map_values(|c: char| if c == '\\' { '/' } else { c })
}

/// One path piece applied to the pieces kept so far: an empty piece and `.` change
/// nothing, `..` drops the last piece kept (if any), any other piece is kept.
pub open spec fn step_piece(st: Seq<Seq<char>>, p: Seq<char>) -> Seq<Seq<char>> {
    if p.len() == 0 || p == seq!['.'] {
        st
    } else if p == seq!['.', '.'] {
        if st.len() > 0 {
            st.drop_last()
        } else {
            st
        }
    } else {
        st.push(p)
    }
}

/// The pieces applied one after another, from `st`.
pub open spec fn resolve_pieces(st: Seq<Seq<char>>, ps: Seq<Seq<char>>) -> Seq<Seq<char>>
    decreases ps.len(),
{
    if ps.len() == 0 {
        st
    } else {
        step_piece(resolve_pieces(st, ps.drop_last()), ps.last())
    }
}

/// Applying two runs of pieces is applying the second to what the first left.
pub proof fn lemma_resolve_concat(st: Seq<Seq<char>>, ps: Seq<Seq<char>>, qs: Seq<Seq<char>>)
    ensures
        resolve_pieces(st, ps + qs) == resolve_pieces(resolve_pieces(st, ps), qs),
    decreases qs.len(),
{
    if qs.len() == 0 {
        assert(ps + qs =~= ps);
    } else {
        assert((ps + qs).drop_last() =~= ps + qs.drop_last());
        assert((ps + qs).last() == qs.last());
        lemma_resolve_concat(st, ps, qs.drop_last());
    }
}

/// The location a path names, read from its text alone: `\\` and `/` both separate
/// pieces; the first piece (empty for `/…`, the drive for `C:\\…`) is kept as the root;
/// of the rest, empty pieces and `.` are dropped and `..` drops the piece before it.
/// Links are not followed.
pub open spec fn location(s: Seq<char>) -> Seq<Seq<char>> {
    let ps = split_at_char(slashed(s), '/');
    seq![ps[0]] + resolve_pieces(seq![], ps.skip(1))
}

fn copy_chars(v: &Vec<char>) -> (r: Vec<char>)
    ensures
        r@ == v@,
{
    let mut r: Vec<char> = Vec::new();
    let mut i: usize = 0;
    while i < v.len()
        invariant
            i <= v@.len(),
            r@ == v@.take(i as int),
        decreases v@.len() - i,
    {
        r.push(v[i]);
        assert(v@.take(i + 1) =~= v@.take(i as int).push(v@[i as int]));
        i = i + 1;
    }
    assert(v@.take(i as int) =~= v@);
    r
}

/// The location a path names (see `location`), as its pieces.
pub fn path_location(s: &[char]) -> (r: Vec<Vec<char>>)
    ensures
        vviews(r@) == location(s@),
{
    let mut m: Vec<char> = Vec::new();
    let mut i: usize = 0;
    while i < s.len()
        invariant
            i <= s@.len(),
            m@ == slashed(s@.take(i as int)),
        decreases s@.len() - i,
    {
        let x = s[i];
        m.push(if x == '\\' { '/' } else { x });
        assert(s@.take(i + 1) =~= s@.take(i as int).push(x));
        assert(m@ =~= slashed(s@.take(i + 1)));
        i = i + 1;
    }
    assert(s@.take(i as int) =~= s@);
    let pieces = split_chars(m.as_slice(), '/');
    let ghost ps = vviews(pieces@);
    proof {
        lemma_split_nonempty(m@, '/');
    }
    assert(ps.len() == pieces@.len());
    let mut st: Vec<Vec<char>> = Vec::new();
    let mut k: usize = 1;
    assert(ps.subrange(1, 1) =~= Seq::<Seq<char>>::empty());
    while k < pieces.len()
        invariant
            1 <= k <= pieces@.len(),
            ps == vviews(pieces@),
            ps.len() == pieces@.len(),
            vviews(st@) == resolve_pieces(seq![], ps.subrange(1, k as int)),
        decreases pieces@.len() - k,
    {
        let ghost before = vviews(st@);
        assert(ps.subrange(1, k + 1).drop_last() =~= ps.subrange(1, k as int));
        assert(ps.subrange(1, k + 1).last() == pieces@[k as int]@);
        let p = &pieces[k];
        if p.len() == 0 || is_dot(p.as_slice()) {
        } else if is_dot_dot(p.as_slice()) {
            if st.len() > 0 {
                st.pop();
                assert(vviews(st@) =~= before.drop_last());
            }
        } else {
            st.push(copy_chars(p));
            assert(vviews(st@) =~= before.push(p@));
        }
        k = k + 1;
    }
    assert(ps.subrange(1, k as int) =~= ps.skip(1));
    let mut r: Vec<Vec<char>> = Vec::new();
    r.push(copy_chars(&pieces[0]));
    let ghost rest = vviews(st@);
    let mut j: usize = 0;
    while j < st.len()
        invariant
            j <= st@.len(),
            rest == vviews(st@),
            vviews(r@) == seq![ps[0]] + rest.take(j as int),
        decreases st@.len() - j,
    {
        let ghost before = vviews(r@);
        r.push(copy_chars(&st[j]));
        assert(rest.take(j + 1) =~= rest.take(j as int).push(st@[j as int]@));
        assert(vviews(r@) =~= before.push(st@[j as int]@));
        j = j + 1;
    }
    assert(rest.take(j as int) =~= rest);
    r
}

/// Whether two locations are the same.
pub fn same_pieces(x: &Vec<Vec<char>>, y: &Vec<Vec<char>>) -> (b: bool)
    ensures
        b == (vviews(x@) == vviews(y@)),
{
    if x.len() != y.len() {
        assert(vviews(x@).len() != vviews(y@).len());
        return false;
    }
    let mut i: usize = 0;
    while i < x.len()
        invariant
            i <= x@.len(),
            x@.len() == y@.len(),
            forall|j: int| 0 <= j < i ==> x@[j]@ == y@[j]@,
        decreases x@.len() - i,
    {
        if !chars_eq(x[i].as_slice(), y[i].as_slice()) {
            assert(vviews(x@)[i as int] != vviews(y@)[i as int]);
            return false;
        }
        i = i + 1;
    }
    assert(vviews(x@) =~= vviews(y@));
    true
}

// ─── sorted string lists ────────────────────────────────

/// `x` put into `s` before the first element that it comes strictly before.
pub open spec fn insert_string(s: Seq<Seq<char>>, x: Seq<char>) -> Seq<Seq<char>>
    decreases s.len(),
{
    if s.len() == 0 {
        seq![x]
    } else if seq_lt(x, s[0]) {
        seq![x] + s
    } else {
        seq![s[0]] + insert_string(s.drop_first(), x)
    }
}

/// `slice::sort` on strings.
pub open spec fn sort_strings(s: Seq<Seq<char>>) -> Seq<Seq<char>>
    decreases s.len(),
{
    if s.len() == 0 {
        seq![]
    } else {
        insert_string(sort_strings(s.drop_last()), s.last())
    }
}

/// `Vec::dedup`: each string equal to the last string kept is dropped.
pub open spec fn dedup_strings(s: Seq<Seq<char>>) -> Seq<Seq<char>>
    decreases s.len(),
{
    if s.len() == 0 {
        seq![]
    } else {
        let d = dedup_strings(s.drop_last());
        if d.len() > 0 && d.last() == s.last() {
            d
        } else {
            d.push(s.last())
        }
    }
}

proof fn lemma_insert_string_at(s: Seq<Seq<char>>, x: Seq<char>, j: int)
    requires
        0 <= j <= s.len(),
        forall|k: int| 0 <= k < j ==> !seq_lt(x, #[trigger] s[k]),
        j == s.len() || seq_lt(x, s[j]),
    ensures
        insert_string(s, x) == s.take(j) + seq![x] + s.skip(j),
    decreases j,
{
    if j == 0 {
        assert(s.take(0) + seq![x] + s.skip(0) =~= seq![x] + s);
        if s.len() == 0 {
            assert(seq![x] + s =~= seq![x]);
        }
    } else {
        let t = s.drop_first();
        assert forall|k: int| 0 <= k < j - 1 implies !seq_lt(x, #[trigger] t[k]) by {
            assert(t[k] == s[k + 1]);
        }
        if j < s.len() {
            assert(t[j - 1] == s[j]);
        }
        lemma_insert_string_at(t, x, j - 1);
        assert(seq![s[0]] + (t.take(j - 1) + seq![x] + t.skip(j - 1)) =~= s.take(j) + seq![x]
            + s.skip(j));
    }
}

/// Sorts the strings and removes repeated neighbours (`sort` then `dedup`).
pub fn sort_dedup_strings(v: Vec<String>) -> (r: Vec<String>)
    ensures
        views(r@) == dedup_strings(sort_strings(views(v@))),
{
    let ghost orig = views(v@);
    let mut chars: Vec<Vec<char>> = Vec::new();
    let mut i: usize = 0;
    while i < v.len()
        invariant
            i <= v@.len(),
            orig == views(v@),
            chars@.len() == i,
            forall|k: int| 0 <= k < i ==> #[trigger] chars@[k]@ == orig[k],
        decreases v@.len() - i,
    {
        chars.push(chars_of(v[i].as_str()));
        i = i + 1;
    }
    // insertion sort
    let mut sorted: Vec<Vec<char>> = Vec::new();
    let mut n: usize = 0;
    while n < chars.len()
        invariant
            n <= chars@.len(),
            chars@.len() == orig.len(),
            forall|k: int| 0 <= k < chars@.len() ==> #[trigger] chars@[k]@ == orig[k],
            crate::text::vviews(sorted@) == sort_strings(orig.take(n as int)),
        decreases chars@.len() - n,
    {
        let x = chars[n].clone();
        let mut j: usize = 0;
        while j < sorted.len() && !chars_lt(x.as_slice(), sorted[j].as_slice())
            invariant
                j <= sorted@.len(),
                forall|k: int| 0 <= k < j ==> !seq_lt(x@, #[trigger] sorted@[k]@),
            decreases sorted@.len() - j,
        {
            j = j + 1;
        }
        proof {
            let sv = crate::text::vviews(sorted@);
            assert forall|k: int| 0 <= k < j implies !seq_lt(x@, #[trigger] sv[k]) by {
                assert(sv[k] == sorted@[k]@);
            }
            if j < sorted@.len() {
                assert(sv[j as int] == sorted@[j as int]@);
            }
            lemma_insert_string_at(sv, x@, j as int);
            assert(orig.take(n + 1).drop_last() =~= orig.take(n as int));
            assert(orig.take(n + 1).last() == x@);
        }
        let ghost before = sorted@;
        sorted.insert(j, x);
        assert(crate::text::vviews(sorted@) =~= crate::text::vviews(before).take(j as int) + seq![
            x@,
        ] + crate::text::vviews(before).skip(j as int));
        n = n + 1;
    }
    assert(orig.take(n as int) =~= orig);
    // dedup
    let ghost srt = sort_strings(orig);
    let mut r: Vec<String> = Vec::new();
    let mut last: Vec<char> = Vec::new();
    let mut m: usize = 0;
    assert(srt.take(0) =~= Seq::<Seq<char>>::empty());
    while m < sorted.len()
        invariant
            m <= sorted@.len(),
            crate::text::vviews(sorted@) == srt,
            views(r@) == dedup_strings(srt.take(m as int)),
            r@.len() > 0 ==> last@ == views(r@).last(),
        decreases sorted@.len() - m,
    {
        let cur = &sorted[m];
        assert(srt.take(m + 1).drop_last() =~= srt.take(m as int));
        assert(srt.take(m + 1).last() == cur@);
        let dup = r.len() > 0 && chars_eq(last.as_slice(), cur.as_slice());
        if !dup {
            r.push(string_from_chars(cur.as_slice()));
            last = cur.clone();
            assert(views(r@) =~= views(r@.drop_last()).push(cur@));
        }
        m = m + 1;
    }
    assert(srt.take(m as int) =~= srt);
    r
}

// ─── laws of sorted string lists ────────────────────────

/// No string comes strictly before a string placed ahead of it.
pub open spec fn strings_sorted(s: Seq<Seq<char>>) -> bool {
    forall|i: int, j: int| 0 <= i < j < s.len() ==> !seq_lt(#[trigger] s[j], #[trigger] s[i])
}

proof fn lemma_insert_string(s: Seq<Seq<char>>, x: Seq<char>)
    requires
        strings_sorted(s),
    ensures
        strings_sorted(insert_string(s, x)),
        insert_string(s, x).to_multiset() == s.to_multiset().insert(x),
    decreases s.len(),
{
    broadcast use vstd::seq_lib::group_to_multiset_ensures, vstd::multiset::group_multiset_axioms;
    let r = insert_string(s, x);
    if s.len() == 0 {
        assert(r =~= Seq::<Seq<char>>::empty().push(x));
    } else if seq_lt(x, s[0]) {
        assert forall|i: int, j: int| 0 <= i < j < r.len() implies !seq_lt(
            #[trigger] r[j],
            #[trigger] r[i],
        ) by {
            if i == 0 {
                assert(r[j] == s[j - 1]);
                if seq_lt(s[j - 1], x) {
                    crate::text::lemma_seq_lt_transitive(s[j - 1], x, s[0]);
                    crate::text::lemma_seq_lt_irreflexive(s[0]);
                }
            } else {
                assert(r[i] == s[i - 1] && r[j] == s[j - 1]);
            }
        }
        vstd::seq_lib::lemma_multiset_commutative(seq![x], s);
        assert(seq![x] =~= Seq::<Seq<char>>::empty().push(x));
    } else {
        let t = s.drop_first();
        assert forall|i: int, j: int| 0 <= i < j < t.len() implies !seq_lt(
            #[trigger] t[j],
            #[trigger] t[i],
        ) by {
            assert(t[i] == s[i + 1] && t[j] == s[j + 1]);
        }
        lemma_insert_string(t, x);
        let rt = insert_string(t, x);
        assert forall|k: int| 0 <= k < rt.len() implies !seq_lt(#[trigger] rt[k], s[0]) by {
            assert(rt.to_multiset().contains(rt[k]));
            if rt[k] != x {
                assert(t.to_multiset().contains(rt[k]));
                assert(t.contains(rt[k]));
                let m = choose|m: int| 0 <= m < t.len() && t[m] == rt[k];
                assert(s[m + 1] == t[m]);
            }
        }
        assert forall|i: int, j: int| 0 <= i < j < r.len() implies !seq_lt(
            #[trigger] r[j],
            #[trigger] r[i],
        ) by {
            if i == 0 {
                assert(r[j] == rt[j - 1]);
            } else {
                assert(r[i] == rt[i - 1] && r[j] == rt[j - 1]);
            }
        }
        vstd::seq_lib::lemma_multiset_commutative(seq![s[0]], rt);
        vstd::seq_lib::lemma_multiset_commutative(seq![s[0]], t);
        assert(s =~= seq![s[0]] + t);
    }
}

proof fn lemma_sort_strings(s: Seq<Seq<char>>)
    ensures
        strings_sorted(sort_strings(s)),
        sort_strings(s).to_multiset() == s.to_multiset(),
    decreases s.len(),
{
    broadcast use vstd::seq_lib::group_to_multiset_ensures;
    if s.len() > 0 {
        lemma_sort_strings(s.drop_last());
        lemma_insert_string(sort_strings(s.drop_last()), s.last());
        assert(s =~= s.drop_last().push(s.last()));
    }
}

proof fn lemma_dedup_strings(s: Seq<Seq<char>>)
    requires
        strings_sorted(s),
    ensures
        forall|i: int, j: int|
            0 <= i < j < dedup_strings(s).len() ==> seq_lt(
                #[trigger] dedup_strings(s)[i],
                #[trigger] dedup_strings(s)[j],
            ),
        forall|i: int| 0 <= i < dedup_strings(s).len() ==> s.contains(#[trigger] dedup_strings(s)[i]),
        forall|k: int| 0 <= k < s.len() ==> dedup_strings(s).contains(#[trigger] s[k]),
    decreases s.len(),
{
    if s.len() > 0 {
        let t = s.drop_last();
        assert forall|i: int, j: int| 0 <= i < j < t.len() implies !seq_lt(
            #[trigger] t[j],
            #[trigger] t[i],
        ) by {
            assert(t[i] == s[i] && t[j] == s[j]);
        }
        lemma_dedup_strings(t);
        let d = dedup_strings(t);
        let r = dedup_strings(s);
        let x = s.last();
        if d.len() > 0 && d.last() == x {
            assert forall|i: int| 0 <= i < r.len() implies s.contains(#[trigger] r[i]) by {
                let m = choose|m: int| 0 <= m < t.len() && t[m] == d[i];
                assert(s[m] == d[i]);
            }
            assert forall|k: int| 0 <= k < s.len() implies r.contains(#[trigger] s[k]) by {
                if k < t.len() {
                    assert(s[k] == t[k]);
                } else {
                    assert(r[r.len() - 1] == x);
                }
            }
        } else {
            assert forall|i: int| 0 <= i < r.len() implies s.contains(#[trigger] r[i]) by {
                if i < d.len() {
                    assert(r[i] == d[i]);
                    let m = choose|m: int| 0 <= m < t.len() && t[m] == d[i];
                    assert(s[m] == d[i]);
                } else {
                    assert(s[s.len() - 1] == x);
                }
            }
            assert forall|k: int| 0 <= k < s.len() implies r.contains(#[trigger] s[k]) by {
                if k < t.len() {
                    assert(s[k] == t[k]);
                    let i = choose|i: int| 0 <= i < d.len() && d[i] == t[k];
                    assert(r[i] == d[i]);
                } else {
                    assert(r[r.len() - 1] == x);
                }
            }
            if d.len() > 0 {
                let lastd = d.last();
                let m = choose|m: int| 0 <= m < t.len() && t[m] == lastd;
                assert(s[m] == lastd);
                assert(!seq_lt(x, lastd));
                crate::text::lemma_seq_lt_total(x, lastd);
                assert forall|i: int, j: int| 0 <= i < j < r.len() implies seq_lt(
                    #[trigger] r[i],
                    #[trigger] r[j],
                ) by {
                    if j < d.len() {
                        assert(r[i] == d[i] && r[j] == d[j]);
                    } else {
                        assert(r[j] == x && r[i] == d[i]);
                        if i < d.len() - 1 {
                            crate::text::lemma_seq_lt_transitive(d[i], lastd, x);
                        }
                    }
                }
            } else {
                assert(r =~= seq![x]);
            }
        }
    }
}

/// A `PATH` search lists each path once, in ascending order, and lists every path found.
pub proof fn lemma_path_matches(found: Seq<Seq<char>>)
    ensures
        ({
            let r = dedup_strings(sort_strings(found));
            &&& forall|i: int, j: int| 0 <= i < j < r.len() ==> seq_lt(#[trigger] r[i], #[trigger] r[j])
            &&& forall|k: int| 0 <= k < found.len() ==> r.contains(#[trigger] found[k])
            &&& forall|i: int| 0 <= i < r.len() ==> found.contains(#[trigger] r[i])
        }),
{
    broadcast use vstd::seq_lib::group_to_multiset_ensures;
    let srt = sort_strings(found);
    lemma_sort_strings(found);
    lemma_dedup_strings(srt);
    let r = dedup_strings(srt);
    assert forall|k: int| 0 <= k < found.len() implies r.contains(#[trigger] found[k]) by {
        assert(found.contains(found[k]));
        assert(srt.to_multiset().count(found[k]) > 0);
        let m = choose|m: int| 0 <= m < srt.len() && srt[m] == found[k];
        assert(r.contains(srt[m]));
    }
    assert forall|i: int| 0 <= i < r.len() implies found.contains(#[trigger] r[i]) by {
        assert(srt.contains(r[i]));
        assert(found.to_multiset().count(r[i]) > 0);
    }
}

} // verus!
