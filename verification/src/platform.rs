//! The platform-independent records (processes and port bindings), the
//! `Platform` interface that a host implements, and the ordering and
//! de-duplication of port bindings.
use vstd::prelude::*;
use crate::text::{chars_eq, chars_lt, seq_lt};
use crate::numfmt::chars_of;

verus! {

/// 平台抽象 trait —— 所有操作系统相关的操作都通过此接口.
/// Nothing is promised of what an implementation returns: the functions of this
/// library that call it state what holds whatever comes back.
pub trait Platform {
    /// Whether the file or folder is held open by another process
    /// (`Ok(true)` in use, `Ok(false)` free, `Err` missing or inaccessible).
    fn check_file_in_use(&self, path: &str) -> Result<bool, String>;

    /// The processes that hold the file open.
    fn find_locking_processes(&self, path: &str) -> Result<Vec<ProcessInfo>, String>;

    /// The running processes whose name or path contains `name`, ignoring case.
    fn find_processes(&self, name: &str) -> Vec<ProcessInfo>;

    /// Details of the process with this PID.
    fn get_process_info(&self, pid: u32) -> Option<ProcessInfo>;

    /// Terminates the process with this PID.
    fn kill_process(&self, pid: u32) -> Result<(), String>;

    /// The full paths of the executables called `name` found on `PATH`.
    fn find_in_path(&self, name: &str) -> Vec<String>;

    /// The sockets bound to this port and the processes that own them.
    fn find_process_by_port(&self, port: u16) -> Result<Vec<PortBinding>, String>;

    /// The sockets this process has bound, each port and protocol once.
    fn find_ports_by_pid(&self, pid: u32) -> Vec<PortBinding>;
}

/// `a` is an answer the platform gave to `check_file_in_use(path)`.
pub open spec fn says_in_use<P: Platform>(platform: &P, path: &str, a: Result<bool, String>) -> bool {
    call_ensures(P::check_file_in_use, (platform, path), a)
}

/// `a` is an answer the platform gave to `find_locking_processes(path)`.
pub open spec fn says_locking<P: Platform>(
    platform: &P,
    path: &str,
    a: Result<Vec<ProcessInfo>, String>,
) -> bool {
    call_ensures(P::find_locking_processes, (platform, path), a)
}

/// `a` is an answer the platform gave to `find_processes(name)`.
pub open spec fn says_processes<P: Platform>(platform: &P, name: &str, a: Vec<ProcessInfo>) -> bool {
    call_ensures(P::find_processes, (platform, name), a)
}

/// `a` is an answer the platform gave to `get_process_info(pid)`.
pub open spec fn says_info<P: Platform>(platform: &P, pid: u32, a: Option<ProcessInfo>) -> bool {
    call_ensures(P::get_process_info, (platform, pid), a)
}

/// `a` is an answer the platform gave to `kill_process(pid)`.
pub open spec fn says_killed<P: Platform>(platform: &P, pid: u32, a: Result<(), String>) -> bool {
    call_ensures(P::kill_process, (platform, pid), a)
}

/// `a` is an answer the platform gave to `find_in_path(name)`.
pub open spec fn says_in_path<P: Platform>(platform: &P, name: &str, a: Vec<String>) -> bool {
    call_ensures(P::find_in_path, (platform, name), a)
}

/// `a` is an answer the platform gave to `find_process_by_port(port)`.
pub open spec fn says_by_port<P: Platform>(
    platform: &P,
    port: u16,
    a: Result<Vec<PortBinding>, String>,
) -> bool {
    call_ensures(P::find_process_by_port, (platform, port), a)
}

/// `a` is an answer the platform gave to `find_ports_by_pid(pid)`.
pub open spec fn says_ports_of<P: Platform>(platform: &P, pid: u32, a: Vec<PortBinding>) -> bool {
    call_ensures(P::find_ports_by_pid, (platform, pid), a)
}

/// 平台无关的进程信息.
#[derive(Debug, Clone)]
pub struct ProcessInfo {
    pub pid: u32,
    pub name: String,
    pub exe_path: Option<String>,
    pub cmd_line: Option<String>,
    pub parent_pid: Option<u32>,
    pub thread_count: Option<u32>,
}

/// 端口绑定信息.
#[derive(Debug, Clone)]
pub struct PortBinding {
    pub pid: u32,
    pub port: u16,
    /// `TCP` or `UDP`.
    pub protocol: String,
    /// For example `0.0.0.0:3000`.
    pub local_addr: String,
    pub process_name: String,
    pub exe_path: Option<String>,
    pub cmd_line: Option<String>,
}

// ─── ordering ───────────────────────────────────────────

/// How bindings are ordered: by PID then protocol, or by port then protocol.
#[derive(Debug, Clone, Copy, PartialEq, Eq)]
pub enum BindingOrder {
    PidThenProtocol,
    PortThenProtocol,
}

/// The number a binding is ordered by first.
pub open spec fn primary_key(b: PortBinding, order: BindingOrder) -> int {
    match order {
        BindingOrder::PidThenProtocol => b.pid as int,
        BindingOrder::PortThenProtocol => b.port as int,
    }
}

/// `a` comes strictly before `b` in the order.
pub open spec fn key_lt(a: PortBinding, b: PortBinding, order: BindingOrder) -> bool {
    primary_key(a, order) < primary_key(b, order) || (primary_key(a, order) == primary_key(b, order)
        && seq_lt(a.protocol@, b.protocol@))
}

/// `x` put into `s` just before the first element that it comes strictly before.
pub open spec fn insert_sorted(s: Seq<PortBinding>, x: PortBinding, order: BindingOrder) -> Seq<
    PortBinding,
>
    decreases s.len(),
{
    if s.len() == 0 {
        seq![x]
    } else if key_lt(x, s[0], order) {
        seq![x] + s
    } else {
        seq![s[0]] + insert_sorted(s.drop_first(), x, order)
    }
}

/// The stable sort of `s` in the order (`slice::sort_by`): every element is inserted
/// after the elements before it that it does not come strictly before.
pub open spec fn sort_bindings(s: Seq<PortBinding>, order: BindingOrder) -> Seq<PortBinding>
    decreases s.len(),
{
    if s.len() == 0 {
        seq![]
    } else {
        insert_sorted(sort_bindings(s.drop_last(), order), s.last(), order)
    }
}

/// Which fields make two bindings duplicates.
#[derive(Debug, Clone, Copy, PartialEq, Eq)]
pub enum SameBinding {
    /// Same PID, protocol and local address.
    PidProtocolAddr,
    /// Same PID and protocol.
    PidProtocol,
    /// Same port and protocol.
    PortProtocol,
}

/// `a` duplicates `b`.
pub open spec fn same_binding(a: PortBinding, b: PortBinding, same: SameBinding) -> bool {
    match same {
        SameBinding::PidProtocolAddr => a.pid == b.pid && a.protocol@ == b.protocol@
            && a.local_addr@ == b.local_addr@,
        SameBinding::PidProtocol => a.pid == b.pid && a.protocol@ == b.protocol@,
        SameBinding::PortProtocol => a.port == b.port && a.protocol@ == b.protocol@,
    }
}

/// `Vec::dedup_by`: each element is dropped when it duplicates the last element kept.
pub open spec fn dedup_bindings(s: Seq<PortBinding>, same: SameBinding) -> Seq<PortBinding>
    decreases s.len(),
{
    if s.len() == 0 {
        seq![]
    } else {
        let d = dedup_bindings(s.drop_last(), same);
        if d.len() > 0 && same_binding(s.last(), d.last(), same) {
            d
        } else {
            d.push(s.last())
        }
    }
}

fn lt_binding(a: &PortBinding, b: &PortBinding, order: BindingOrder) -> (r: bool)
    ensures
        r == key_lt(*a, *b, order),
{
    let (ka, kb) = match order {
        BindingOrder::PidThenProtocol => (a.pid as u64, b.pid as u64),
        BindingOrder::PortThenProtocol => (a.port as u64, b.port as u64),
    };
    if ka < kb {
        true
    } else if ka > kb {
        false
    } else {
        let pa = chars_of(a.protocol.as_str());
        let pb = chars_of(b.protocol.as_str());
        chars_lt(pa.as_slice(), pb.as_slice())
    }
}

fn same_binding_exec(a: &PortBinding, b: &PortBinding, same: SameBinding) -> (r: bool)
    ensures
        r == same_binding(*a, *b, same),
{
    let pa = chars_of(a.protocol.as_str());
    let pb = chars_of(b.protocol.as_str());
    match same {
        SameBinding::PidProtocolAddr => {
            if a.pid != b.pid || !chars_eq(pa.as_slice(), pb.as_slice()) {
                return false;
            }
            let la = chars_of(a.local_addr.as_str());
            let lb = chars_of(b.local_addr.as_str());
            chars_eq(la.as_slice(), lb.as_slice())
        },
        SameBinding::PidProtocol => a.pid == b.pid && chars_eq(pa.as_slice(), pb.as_slice()),
        SameBinding::PortProtocol => a.port == b.port && chars_eq(pa.as_slice(), pb.as_slice()),
    }
}

proof fn lemma_insert_at(s: Seq<PortBinding>, x: PortBinding, order: BindingOrder, j: int)
    requires
        0 <= j <= s.len(),
        forall|k: int| 0 <= k < j ==> !key_lt(x, #[trigger] s[k], order),
        j == s.len() || key_lt(x, s[j], order),
    ensures
        insert_sorted(s, x, order) == s.take(j) + seq![x] + s.skip(j),
    decreases j,
{
    if j == 0 {
        assert(s.take(0) + seq![x] + s.skip(0) =~= seq![x] + s);
        if s.len() == 0 {
            assert(seq![x] + s =~= seq![x]);
        }
    } else {
        let t = s.drop_first();
        assert forall|k: int| 0 <= k < j - 1 implies !key_lt(x, #[trigger] t[k], order) by {
            assert(t[k] == s[k + 1]);
        }
        if j < s.len() {
            assert(t[j - 1] == s[j]);
        }
        lemma_insert_at(t, x, order, j - 1);
        assert(seq![s[0]] + (t.take(j - 1) + seq![x] + t.skip(j - 1)) =~= s.take(j) + seq![x]
            + s.skip(j));
    }
}

/// Sorts bindings stably in the given order (`sort_by` on the two keys).
pub fn sort_port_bindings(v: Vec<PortBinding>, order: BindingOrder) -> (r: Vec<PortBinding>)
    ensures
        r@ == sort_bindings(v@, order),
{
    let ghost orig = v@;
    let mut rest = v;
    let mut r: Vec<PortBinding> = Vec::new();
    let mut n: usize = 0;
    let total = rest.len();
    while rest.len() > 0
        invariant
            n + rest@.len() == orig.len(),
            orig.len() == total,
            rest@ == orig.skip(n as int),
            r@ == sort_bindings(orig.take(n as int), order),
        decreases rest@.len(),
    {
        let x = rest.remove(0);
        let mut j: usize = 0;
        while j < r.len() && !lt_binding(&x, &r[j], order)
            invariant
                j <= r@.len(),
                forall|k: int| 0 <= k < j ==> !key_lt(x, #[trigger] r@[k], order),
            decreases r@.len() - j,
        {
            j = j + 1;
        }
        proof {
            lemma_insert_at(r@, x, order, j as int);
            assert(orig.take(n + 1).drop_last() =~= orig.take(n as int));
            assert(orig.take(n + 1).last() == x);
        }
        r.insert(j, x);
        assert(r@ =~= sort_bindings(orig.take(n + 1), order));
        assert(rest@ =~= orig.skip(n + 1));
        n = n + 1;
    }
    assert(orig.take(n as int) =~= orig);
    r
}

/// Removes each binding that duplicates the last binding kept (`dedup_by`).
pub fn dedup_port_bindings(v: Vec<PortBinding>, same: SameBinding) -> (r: Vec<PortBinding>)
    ensures
        r@ == dedup_bindings(v@, same),
{
    let ghost orig = v@;
    let mut rest = v;
    let mut r: Vec<PortBinding> = Vec::new();
    let mut n: usize = 0;
    assert(orig.take(0) =~= Seq::<PortBinding>::empty());
    let total = rest.len();
    while rest.len() > 0
        invariant
            n + rest@.len() == orig.len(),
            orig.len() == total,
            rest@ == orig.skip(n as int),
            r@ == dedup_bindings(orig.take(n as int), same),
        decreases rest@.len(),
    {
        let x = rest.remove(0);
        proof {
            assert(orig.take(n + 1).drop_last() =~= orig.take(n as int));
            assert(orig.take(n + 1).last() == x);
        }
        let dup = r.len() > 0 && same_binding_exec(&x, &r[r.len() - 1], same);
        if !dup {
            r.push(x);
        }
        assert(rest@ =~= orig.skip(n + 1));
        n = n + 1;
    }
    assert(orig.take(n as int) =~= orig);
    r
}

/// The ports a process holds, from bindings of any processes: the bindings of `pid`,
/// sorted by port then protocol, each with the same port and protocol as the one kept
/// before it dropped.
pub fn ports_of_process(all: Vec<PortBinding>, pid: u32) -> (r: Vec<PortBinding>)
    ensures
        r@ == dedup_bindings(
            sort_bindings(all@.filter(|b: PortBinding| b.pid == pid), BindingOrder::PortThenProtocol),
            SameBinding::PortProtocol,
        ),
{
    let ghost orig = all@;
    let mut rest = all;
    let mut kept: Vec<PortBinding> = Vec::new();
    let mut n: usize = 0;
    let total = rest.len();
    assert(orig.take(0).filter(|b: PortBinding| b.pid == pid) =~= Seq::<PortBinding>::empty());
    while rest.len() > 0
        invariant
            n + rest@.len() == orig.len(),
            orig.len() == total,
            rest@ == orig.skip(n as int),
            kept@ == orig.take(n as int).filter(|b: PortBinding| b.pid == pid),
        decreases rest@.len(),
    {
        let b = rest.remove(0);
        assert(orig.take(n + 1).drop_last() =~= orig.take(n as int));
        assert(orig.take(n + 1).last() == b);
        reveal(Seq::filter);
        if b.pid == pid {
            kept.push(b);
        }
        assert(rest@ =~= orig.skip(n + 1));
        n = n + 1;
    }
    assert(orig.take(n as int) =~= orig);
    let s = sort_port_bindings(kept, BindingOrder::PortThenProtocol);
    dedup_port_bindings(s, SameBinding::PortProtocol)
}

/// The port numbers of bindings, in order, each dropped when it equals the one kept
/// before it (a port held over TCP and UDP is listed once).
pub open spec fn listed_ports(b: Seq<PortBinding>) -> Seq<u16>
    decreases b.len(),
{
    if b.len() == 0 {
        seq![]
    } else {
        let d = listed_ports(b.drop_last());
        if d.len() > 0 && d.last() == b.last().port {
            d
        } else {
            d.push(b.last().port)
        }
    }
}

/// The port numbers listed for a process's bindings (see `listed_ports`).
pub fn port_numbers(bindings: &Vec<PortBinding>) -> (r: Vec<u16>)
    ensures
        r@ == listed_ports(bindings@),
{
    let mut r: Vec<u16> = Vec::new();
    let mut i: usize = 0;
    while i < bindings.len()
        invariant
            i <= bindings@.len(),
            r@ == listed_ports(bindings@.take(i as int)),
        decreases bindings@.len() - i,
    {
        let p = bindings[i].port;
        assert(bindings@.take(i + 1).drop_last() =~= bindings@.take(i as int));
        assert(bindings@.take(i + 1).last() == bindings@[i as int]);
        if r.len() == 0 || r[r.len() - 1] != p {
            r.push(p);
        }
        i = i + 1;
    }
    assert(bindings@.take(i as int) =~= bindings@);
    r
}

// ─── laws of the ordering ───────────────────────────────

/// `a` and `b` have the same key in the order.
pub open spec fn same_key(a: PortBinding, b: PortBinding, order: BindingOrder) -> bool {
    primary_key(a, order) == primary_key(b, order) && a.protocol@ == b.protocol@
}

/// No element comes strictly before an element that precedes it.
pub open spec fn sorted_by_key(s: Seq<PortBinding>, order: BindingOrder) -> bool {
    forall|i: int, j: int| 0 <= i < j < s.len() ==> !key_lt(#[trigger] s[j], #[trigger] s[i], order)
}

proof fn lemma_key_lt_transitive(a: PortBinding, b: PortBinding, c: PortBinding, order: BindingOrder)
    requires
        key_lt(a, b, order),
        key_lt(b, c, order),
    ensures
        key_lt(a, c, order),
{
    if primary_key(a, order) == primary_key(b, order) && primary_key(b, order) == primary_key(
        c,
        order,
    ) {
        crate::text::lemma_seq_lt_transitive(a.protocol@, b.protocol@, c.protocol@);
    }
}

proof fn lemma_key_lt_irreflexive(a: PortBinding, order: BindingOrder)
    ensures
        !key_lt(a, a, order),
{
    crate::text::lemma_seq_lt_irreflexive(a.protocol@);
}

proof fn lemma_key_total(a: PortBinding, b: PortBinding, order: BindingOrder)
    ensures
        same_key(a, b, order) || key_lt(a, b, order) || key_lt(b, a, order),
{
    crate::text::lemma_seq_lt_total(a.protocol@, b.protocol@);
}

proof fn lemma_insert_sorted(s: Seq<PortBinding>, x: PortBinding, order: BindingOrder)
    requires
        sorted_by_key(s, order),
    ensures
        sorted_by_key(insert_sorted(s, x, order), order),
        insert_sorted(s, x, order).to_multiset() == s.to_multiset().insert(x),
    decreases s.len(),
{
    broadcast use vstd::seq_lib::group_to_multiset_ensures, vstd::multiset::group_multiset_axioms;
    let r = insert_sorted(s, x, order);
    if s.len() == 0 {
        assert(r.to_multiset() =~= Seq::<PortBinding>::empty().push(x).to_multiset()) by {
            assert(r =~= Seq::<PortBinding>::empty().push(x));
        }
    } else if key_lt(x, s[0], order) {
        assert forall|i: int, j: int| 0 <= i < j < r.len() implies !key_lt(
            #[trigger] r[j],
            #[trigger] r[i],
            order,
        ) by {
            if i == 0 {
                assert(r[j] == s[j - 1]);
                if j - 1 > 0 {
                    assert(!key_lt(s[j - 1], s[0], order));
                }
                if key_lt(s[j - 1], x, order) {
                    lemma_key_lt_transitive(s[j - 1], x, s[0], order);
                    lemma_key_lt_irreflexive(s[0], order);
                }
            } else {
                assert(r[i] == s[i - 1] && r[j] == s[j - 1]);
            }
        }
        vstd::seq_lib::lemma_multiset_commutative(seq![x], s);
        assert(seq![x].to_multiset() =~= Seq::<PortBinding>::empty().push(x).to_multiset()) by {
            assert(seq![x] =~= Seq::<PortBinding>::empty().push(x));
        }
    } else {
        let t = s.drop_first();
        assert forall|i: int, j: int| 0 <= i < j < t.len() implies !key_lt(
            #[trigger] t[j],
            #[trigger] t[i],
            order,
        ) by {
            assert(t[i] == s[i + 1] && t[j] == s[j + 1]);
        }
        lemma_insert_sorted(t, x, order);
        let rt = insert_sorted(t, x, order);
        assert(r == seq![s[0]] + rt);
        assert forall|k: int| 0 <= k < rt.len() implies !key_lt(#[trigger] rt[k], s[0], order) by {
            assert(rt.to_multiset().contains(rt[k]));
            assert(rt.to_multiset() == t.to_multiset().insert(x));
            if rt[k] != x {
                assert(t.to_multiset().contains(rt[k]));
                assert(t.contains(rt[k]));
                let m = choose|m: int| 0 <= m < t.len() && t[m] == rt[k];
                assert(s[m + 1] == t[m]);
            }
        }
        assert forall|i: int, j: int| 0 <= i < j < r.len() implies !key_lt(
            #[trigger] r[j],
            #[trigger] r[i],
            order,
        ) by {
            if i == 0 {
                assert(r[j] == rt[j - 1]);
            } else {
                assert(r[i] == rt[i - 1] && r[j] == rt[j - 1]);
            }
        }
        vstd::seq_lib::lemma_multiset_commutative(seq![s[0]], rt);
        vstd::seq_lib::lemma_multiset_commutative(seq![s[0]], t);
        assert(s =~= seq![s[0]] + t);
    }
}

/// The stable sort of port bindings puts them in order and keeps every binding: no
/// binding comes strictly before one placed ahead of it, and the result holds the same
/// bindings, as many times each, as the input.
pub proof fn lemma_sort_bindings(s: Seq<PortBinding>, order: BindingOrder)
    ensures
        sorted_by_key(sort_bindings(s, order), order),
        sort_bindings(s, order).to_multiset() == s.to_multiset(),
    decreases s.len(),
{
    broadcast use vstd::seq_lib::group_to_multiset_ensures;
    if s.len() > 0 {
        lemma_sort_bindings(s.drop_last(), order);
        lemma_insert_sorted(sort_bindings(s.drop_last(), order), s.last(), order);
        assert(s =~= s.drop_last().push(s.last()));
    }
}

proof fn lemma_dedup_from(s: Seq<PortBinding>, same: SameBinding)
    ensures
        forall|i: int|
            0 <= i < dedup_bindings(s, same).len() ==> s.contains(
                #[trigger] dedup_bindings(s, same)[i],
            ),
        s.len() > 0 ==> dedup_bindings(s, same).len() > 0,
    decreases s.len(),
{
    if s.len() > 0 {
        lemma_dedup_from(s.drop_last(), same);
        let d = dedup_bindings(s.drop_last(), same);
        assert forall|i: int| 0 <= i < dedup_bindings(s, same).len() implies s.contains(
            #[trigger] dedup_bindings(s, same)[i],
        ) by {
            if i < d.len() {
                assert(dedup_bindings(s, same)[i] == d[i]);
                let m = choose|m: int| 0 <= m < s.drop_last().len() && s.drop_last()[m] == d[i];
                assert(s[m] == d[i]);
            } else {
                assert(s[s.len() - 1] == s.last());
            }
        }
    }
}

/// After the dedup, no binding duplicates the one right before it.
pub proof fn lemma_dedup_no_adjacent(s: Seq<PortBinding>, same: SameBinding)
    ensures
        forall|i: int|
            0 <= i < dedup_bindings(s, same).len() - 1 ==> !same_binding(
                #[trigger] dedup_bindings(s, same)[i + 1],
                dedup_bindings(s, same)[i],
                same,
            ),
    decreases s.len(),
{
    if s.len() > 0 {
        lemma_dedup_no_adjacent(s.drop_last(), same);
        let d = dedup_bindings(s.drop_last(), same);
        let r = dedup_bindings(s, same);
        assert forall|i: int| 0 <= i < r.len() - 1 implies !same_binding(
            #[trigger] r[i + 1],
            r[i],
            same,
        ) by {
            if i + 1 < d.len() {
                assert(r[i + 1] == d[i + 1] && r[i] == d[i]);
            } else {
                assert(r[i] == d.last());
            }
        }
    }
}

/// A sorted sequence with no two neighbours of the same key has every key once:
/// each binding comes strictly before every later one.
proof fn lemma_dedup_sorted_strict(s: Seq<PortBinding>, order: BindingOrder, same: SameBinding)
    requires
        sorted_by_key(s, order),
        forall|a: PortBinding, b: PortBinding| same_binding(a, b, same) <==> same_key(a, b, order),
    ensures
        forall|i: int, j: int|
            0 <= i < j < dedup_bindings(s, same).len() ==> key_lt(
                #[trigger] dedup_bindings(s, same)[i],
                #[trigger] dedup_bindings(s, same)[j],
                order,
            ),
    decreases s.len(),
{
    if s.len() > 0 {
        let t = s.drop_last();
        assert forall|i: int, j: int| 0 <= i < j < t.len() implies !key_lt(
            #[trigger] t[j],
            #[trigger] t[i],
            order,
        ) by {
            assert(t[i] == s[i] && t[j] == s[j]);
        }
        lemma_dedup_sorted_strict(t, order, same);
        lemma_dedup_from(t, same);
        let d = dedup_bindings(t, same);
        let r = dedup_bindings(s, same);
        let x = s.last();
        if d.len() > 0 && !same_binding(x, d.last(), same) {
            let lastd = d.last();
            assert(t.contains(lastd));
            let m = choose|m: int| 0 <= m < t.len() && t[m] == lastd;
            assert(s[m] == lastd);
            assert(!key_lt(x, lastd, order));
            lemma_key_total(x, lastd, order);
            assert(key_lt(lastd, x, order));
            assert forall|i: int, j: int| 0 <= i < j < r.len() implies key_lt(
                #[trigger] r[i],
                #[trigger] r[j],
                order,
            ) by {
                if j < d.len() {
                    assert(r[i] == d[i] && r[j] == d[j]);
                } else {
                    assert(r[j] == x);
                    assert(r[i] == d[i]);
                    if i < d.len() - 1 {
                        assert(key_lt(d[i], d[d.len() - 1], order));
                        lemma_key_lt_transitive(d[i], lastd, x, order);
                    }
                }
            }
        } else if d.len() == 0 {
            assert(r =~= seq![x]);
        } else {
            assert forall|i: int, j: int| 0 <= i < j < r.len() implies key_lt(
                #[trigger] r[i],
                #[trigger] r[j],
                order,
            ) by {
                assert(r[i] == d[i] && r[j] == d[j]);
            }
        }
    }
}

/// Every binding dropped by the dedup duplicates one that is kept.
pub proof fn lemma_dedup_covers(s: Seq<PortBinding>, same: SameBinding)
    ensures
        forall|k: int|
            0 <= k < s.len() ==> exists|i: int|
                0 <= i < dedup_bindings(s, same).len() && same_binding(
                    #[trigger] s[k],
                    dedup_bindings(s, same)[i],
                    same,
                ),
    decreases s.len(),
{
    if s.len() > 0 {
        let t = s.drop_last();
        lemma_dedup_covers(t, same);
        let d = dedup_bindings(t, same);
        let r = dedup_bindings(s, same);
        assert forall|k: int| 0 <= k < s.len() implies exists|i: int|
            0 <= i < r.len() && same_binding(#[trigger] s[k], r[i], same) by {
            if k < t.len() {
                assert(s[k] == t[k]);
                let i = choose|i: int| 0 <= i < d.len() && same_binding(t[k], d[i], same);
                assert(r[i] == d[i]);
            } else {
                if d.len() > 0 && same_binding(s.last(), d.last(), same) {
                    assert(r[d.len() - 1] == d.last());
                } else {
                    assert(r[r.len() - 1] == s.last());
                }
            }
        }
    }
}

proof fn lemma_dedup_sorted(s: Seq<PortBinding>, order: BindingOrder, same: SameBinding)
    requires
        sorted_by_key(s, order),
    ensures
        sorted_by_key(dedup_bindings(s, same), order),
    decreases s.len(),
{
    if s.len() > 0 {
        let t = s.drop_last();
        assert forall|i: int, j: int| 0 <= i < j < t.len() implies !key_lt(
            #[trigger] t[j],
            #[trigger] t[i],
            order,
        ) by {
            assert(t[i] == s[i] && t[j] == s[j]);
        }
        lemma_dedup_sorted(t, order, same);
        lemma_dedup_from(t, same);
        let d = dedup_bindings(t, same);
        let r = dedup_bindings(s, same);
        assert forall|i: int, j: int| 0 <= i < j < r.len() implies !key_lt(
            #[trigger] r[j],
            #[trigger] r[i],
            order,
        ) by {
            if j < d.len() {
                assert(r[i] == d[i] && r[j] == d[j]);
            } else {
                assert(r[j] == s.last());
                assert(r[i] == d[i]);
                assert(t.contains(d[i]));
                let m = choose|m: int| 0 <= m < t.len() && t[m] == d[i];
                assert(s[m] == d[i]);
            }
        }
    }
}

/// Sorting and de-duplicating lists only bindings it was given: every binding a lookup
/// lists is one of the bindings found, so what held of all of them (the port asked
/// for, say) holds of every binding listed.
pub proof fn lemma_lookup_lists_found(v: Seq<PortBinding>, order: BindingOrder, same: SameBinding)
    ensures
        forall|i: int|
            0 <= i < dedup_bindings(sort_bindings(v, order), same).len() ==> v.contains(
                #[trigger] dedup_bindings(sort_bindings(v, order), same)[i],
            ),
{
    broadcast use vstd::seq_lib::group_to_multiset_ensures;
    let srt = sort_bindings(v, order);
    lemma_sort_bindings(v, order);
    lemma_dedup_from(srt, same);
    let r = dedup_bindings(srt, same);
    assert forall|i: int| 0 <= i < r.len() implies v.contains(#[trigger] r[i]) by {
        assert(srt.contains(r[i]));
        assert(srt.to_multiset().count(r[i]) > 0);
    }
}

/// 去重（同一 PID+协议可能出现在多个表中）: a Linux port lookup lists its bindings
/// sorted by PID then protocol, no binding repeats the PID, protocol and address of
/// the one before it, and every binding found is listed or repeats one listed.
pub proof fn lemma_linux_port_lookup(v: Seq<PortBinding>)
    ensures
        ({
            let r = dedup_bindings(
                sort_bindings(v, BindingOrder::PidThenProtocol),
                SameBinding::PidProtocolAddr,
            );
            &&& sorted_by_key(r, BindingOrder::PidThenProtocol)
            &&& forall|i: int|
                0 <= i < r.len() - 1 ==> !same_binding(
                    #[trigger] r[i + 1],
                    r[i],
                    SameBinding::PidProtocolAddr,
                )
            &&& forall|k: int|
                0 <= k < v.len() ==> exists|i: int|
                    0 <= i < r.len() && same_binding(
                        #[trigger] v[k],
                        r[i],
                        SameBinding::PidProtocolAddr,
                    )
        }),
{
    let order = BindingOrder::PidThenProtocol;
    let same = SameBinding::PidProtocolAddr;
    let srt = sort_bindings(v, order);
    lemma_sort_bindings(v, order);
    lemma_dedup_sorted(srt, order, same);
    lemma_dedup_no_adjacent(srt, same);
    lemma_dedup_covers(srt, same);
    let r = dedup_bindings(srt, same);
    assert forall|k: int| 0 <= k < v.len() implies exists|i: int|
        0 <= i < r.len() && same_binding(#[trigger] v[k], r[i], same) by {
        broadcast use vstd::seq_lib::group_to_multiset_ensures;
        assert(v.contains(v[k]));
        assert(srt.to_multiset().count(v[k]) > 0);
        assert(srt.contains(v[k]));
        let m = choose|m: int| 0 <= m < srt.len() && srt[m] == v[k];
        let i = choose|i: int| 0 <= i < r.len() && same_binding(srt[m], r[i], same);
        assert(same_binding(v[k], r[i], same));
    }
}

/// 去重: a Windows port lookup lists each (PID, protocol) pair once, and every pair
/// that occurs in the TCP or UDP bindings is listed.
pub proof fn lemma_port_lookup_unique(tcp: Seq<PortBinding>, udp: Seq<PortBinding>)
    ensures
        ({
            let r = dedup_bindings(
                sort_bindings(tcp + udp, BindingOrder::PidThenProtocol),
                SameBinding::PidProtocol,
            );
            forall|i: int, j: int|
                0 <= i < j < r.len() ==> !same_binding(
                    #[trigger] r[i],
                    #[trigger] r[j],
                    SameBinding::PidProtocol,
                )
        }),
        ({
            let all = tcp + udp;
            let r = dedup_bindings(
                sort_bindings(all, BindingOrder::PidThenProtocol),
                SameBinding::PidProtocol,
            );
            forall|k: int|
                0 <= k < all.len() ==> exists|i: int|
                    0 <= i < r.len() && same_binding(#[trigger] all[k], r[i], SameBinding::PidProtocol)
        }),
{
    let order = BindingOrder::PidThenProtocol;
    let same = SameBinding::PidProtocol;
    let srt = sort_bindings(tcp + udp, order);
    lemma_sort_bindings(tcp + udp, order);
    lemma_dedup_sorted_strict(srt, order, same);
    let r = dedup_bindings(srt, same);
    assert forall|i: int, j: int| 0 <= i < j < r.len() implies !same_binding(
        #[trigger] r[i],
        #[trigger] r[j],
        same,
    ) by {
        assert(key_lt(r[i], r[j], order));
        crate::text::lemma_seq_lt_irreflexive(r[i].protocol@);
    }
    let all = tcp + udp;
    lemma_dedup_covers(srt, same);
    assert forall|k: int| 0 <= k < all.len() implies exists|i: int|
        0 <= i < r.len() && same_binding(#[trigger] all[k], r[i], same) by {
        broadcast use vstd::seq_lib::group_to_multiset_ensures;
        assert(all.contains(all[k]));
        assert(srt.to_multiset().count(all[k]) > 0);
        assert(srt.contains(all[k]));
        let m = choose|m: int| 0 <= m < srt.len() && srt[m] == all[k];
        let i = choose|i: int| 0 <= i < r.len() && same_binding(srt[m], r[i], same);
        assert(same_binding(all[k], r[i], same));
    }
}

/// The ports of a process are listed once each per protocol.
pub proof fn lemma_ports_by_pid_unique(all: Seq<PortBinding>, pid: u32)
    ensures
        ({
            let r = dedup_bindings(
                sort_bindings(all.filter(|b: PortBinding| b.pid == pid), BindingOrder::PortThenProtocol),
                SameBinding::PortProtocol,
            );
            forall|i: int, j: int|
                0 <= i < j < r.len() ==> !same_binding(
                    #[trigger] r[i],
                    #[trigger] r[j],
                    SameBinding::PortProtocol,
                )
        }),
{
    let order = BindingOrder::PortThenProtocol;
    let same = SameBinding::PortProtocol;
    let f = all.filter(|b: PortBinding| b.pid == pid);
    let srt = sort_bindings(f, order);
    lemma_sort_bindings(f, order);
    lemma_dedup_sorted_strict(srt, order, same);
    let r = dedup_bindings(srt, same);
    assert forall|i: int, j: int| 0 <= i < j < r.len() implies !same_binding(
        #[trigger] r[i],
        #[trigger] r[j],
        same,
    ) by {
        assert(key_lt(r[i], r[j], order));
        crate::text::lemma_seq_lt_irreflexive(r[i].protocol@);
    }
}

proof fn lemma_listed_ports_ascending(s: Seq<PortBinding>)
    requires
        forall|i: int, j: int| 0 <= i < j < s.len() ==> (#[trigger] s[i]).port <= (#[trigger] s[j]).port,
    ensures
        forall|i: int, j: int|
            0 <= i < j < listed_ports(s).len() ==> #[trigger] listed_ports(s)[i]
                < #[trigger] listed_ports(s)[j],
        s.len() > 0 ==> listed_ports(s).len() > 0 && listed_ports(s).last() == s.last().port,
    decreases s.len(),
{
    if s.len() > 0 {
        let t = s.drop_last();
        assert forall|i: int, j: int| 0 <= i < j < t.len() implies (#[trigger] t[i]).port
            <= (#[trigger] t[j]).port by {
            assert(t[i] == s[i] && t[j] == s[j]);
        }
        lemma_listed_ports_ascending(t);
        let d = listed_ports(t);
        let r = listed_ports(s);
        if !(d.len() > 0 && d.last() == s.last().port) {
            assert forall|i: int, j: int| 0 <= i < j < r.len() implies #[trigger] r[i] < #[trigger] r[j] by {
                if j < d.len() {
                    assert(r[i] == d[i] && r[j] == d[j]);
                } else {
                    assert(r[j] == s.last().port);
                    assert(r[i] == d[i]);
                    assert(d.last() == t.last().port);
                    assert(t.last() == s[s.len() - 2]);
                    assert(s[s.len() - 2].port <= s[s.len() - 1].port);
                    if i < d.len() - 1 {
                        assert(d[i] < d[d.len() - 1]);
                    }
                }
            }
        }
    }
}

/// The ports listed for a process, taken from `ports_of_process`, come in ascending
/// order and each once.
pub proof fn lemma_process_ports_ascending(all: Seq<PortBinding>, pid: u32)
    ensures
        ({
            let p = listed_ports(
                dedup_bindings(
                    sort_bindings(all.filter(|b: PortBinding| b.pid == pid), BindingOrder::PortThenProtocol),
                    SameBinding::PortProtocol,
                ),
            );
            forall|i: int, j: int| 0 <= i < j < p.len() ==> #[trigger] p[i] < #[trigger] p[j]
        }),
{
    let order = BindingOrder::PortThenProtocol;
    let same = SameBinding::PortProtocol;
    let f = all.filter(|b: PortBinding| b.pid == pid);
    let srt = sort_bindings(f, order);
    lemma_sort_bindings(f, order);
    lemma_dedup_sorted(srt, order, same);
    let r = dedup_bindings(srt, same);
    assert forall|i: int, j: int| 0 <= i < j < r.len() implies (#[trigger] r[i]).port
        <= (#[trigger] r[j]).port by {
        assert(!key_lt(r[j], r[i], order));
    }
    lemma_listed_ports_ascending(r);
}

} // verus!
