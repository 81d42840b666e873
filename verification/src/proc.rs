//! 进程管理命令 (ps / kill): what each command decides, returned as a report
//! for the host to print.
use vstd::prelude::*;
use vstd::string::StringSliceAdditionalSpecFns;
use crate::numfmt::{chars_of, dec_chars, decimal, parse_u32, parse_u32_spec, string_from_chars};
use crate::platform::{
    listed_ports, port_numbers, says_info, says_killed, says_ports_of, says_processes, Platform,
    PortBinding, ProcessInfo,
};
use crate::text::{ends_with, ends_with_chars, join, join_strings, owned, push_str, views};

verus! {

/// A process name as listed: without a trailing `.exe`.
pub open spec fn display_name_of(name: Seq<char>) -> Seq<char> {
    if ends_with(name, ".exe"@) {
        name.take(name.len() - 4)
    } else {
        name
    }
}

/// A process name as listed: without a trailing `.exe` (`strip_suffix(".exe")`).
pub fn display_name(name: &str) -> (s: String)
    ensures
        s@ == display_name_of(name@),
{
    let c = chars_of(name);
    let suffix = chars_of(".exe");
    proof {
        reveal_strlit(".exe");
    }
    if ends_with_chars(c.as_slice(), suffix.as_slice()) {
        let mut v: Vec<char> = Vec::new();
        let mut i: usize = 0;
        while i < c.len() - 4
            invariant
                c@.len() >= 4,
                i <= c@.len() - 4,
                v@ == c@.take(i as int),
            decreases c@.len() - 4 - i,
        {
            v.push(c[i]);
            assert(c@.take(i + 1) =~= c@.take(i as int).push(c@[i as int]));
            i = i + 1;
        }
        string_from_chars(v.as_slice())
    } else {
        string_from_chars(c.as_slice())
    }
}

/// What is shown of a long command line: when it is longer than `limit` bytes, its
/// first `limit` bytes followed by `...`; otherwise all of it.
pub open spec fn truncated_text(s: Seq<char>, limit: nat) -> Seq<char> {
    let b = vstd::utf8::encode_utf8(s);
    if b.len() > limit {
        vstd::utf8::decode_utf8(b.take(limit as int)) + "..."@
    } else {
        s
    }
}

/// Shortens a command line for display (`&cmd[..limit]` plus `...`). Slicing there
/// requires `limit` to fall on a character boundary.
pub fn truncate_display(s: &str, limit: usize) -> (r: String)
    requires
        s.spec_bytes().len() > limit ==> vstd::utf8::is_char_boundary(s.spec_bytes(), limit as int),
    ensures
        r@ == truncated_text(s@, limit as nat),
{
    broadcast use vstd::utf8::encode_utf8_decode_utf8;
    let b = s.as_bytes();
    if b.len() > limit {
        let (head, _) = s.split_at(limit);
        let mut r = owned(head);
        push_str(&mut r, "...");
        assert(head.spec_bytes() =~= s.spec_bytes().take(limit as int));
        assert(vstd::utf8::decode_utf8(vstd::utf8::encode_utf8(head@)) == head@);
        r
    } else {
        owned(s)
    }
}

// ─── kill ───────────────────────────────────────────────

/// One process that a kill by name tried to terminate.
pub struct KillAttempt {
    pub pid: u32,
    pub name: String,
    pub killed: bool,
}

/// What `kill` did.
pub enum KillReport {
    /// No process has the PID (exit code 2).
    NoSuchProcess { pid: u32 },
    /// The process with the PID was terminated.
    Killed { pid: u32, name: String, exe_path: Option<String> },
    /// The process with the PID could not be terminated (exit code 1).
    KillFailed { pid: u32, error: String },
    /// No process matches the name.
    NoMatch { query: String },
    /// Every process matching the name was tried.
    ByName { query: String, attempts: Vec<KillAttempt>, killed: usize, failed: usize },
}

/// The number of attempts that succeeded.
pub open spec fn count_killed(a: Seq<KillAttempt>) -> nat
    decreases a.len(),
{
    if a.len() == 0 {
        0
    } else {
        count_killed(a.drop_last()) + if a.last().killed {
            1nat
        } else {
            0nat
        }
    }
}

impl KillReport {
    /// The process exit code: 2 when the PID does not exist, 1 when it could not be
    /// terminated, otherwise 0.
    pub fn exit_code(&self) -> (c: i32)
        ensures
            self is NoSuchProcess ==> c == 2,
            self is KillFailed ==> c == 1,
            !(self is NoSuchProcess) && !(self is KillFailed) ==> c == 0,
    {
        match self {
            KillReport::NoSuchProcess { .. } => 2,
            KillReport::KillFailed { .. } => 1,
            _ => 0,
        }
    }
}

/// The report of a kill by PID from the platform's answers: `info`, the details of the
/// process with that PID if there is one, and `outcome`, what terminating it gave
/// (asked only when it exists).
pub fn pid_kill_report(pid: u32, info: Option<ProcessInfo>, outcome: Result<(), String>) -> (r:
    KillReport)
    ensures
        match info {
            None => r == KillReport::NoSuchProcess { pid },
            Some(i) => match outcome {
                Ok(()) => r == KillReport::Killed { pid, name: i.name, exe_path: i.exe_path },
                Err(e) => r == KillReport::KillFailed { pid, error: e },
            },
        },
{
    match info {
        None => KillReport::NoSuchProcess { pid },
        Some(i) => match outcome {
            Ok(()) => KillReport::Killed { pid, name: i.name, exe_path: i.exe_path },
            Err(e) => KillReport::KillFailed { pid, error: e },
        },
    }
}

/// 按 PID 结束单个进程: the process is terminated only when the platform knows it (see
/// `pid_kill_report`).
fn kill_by_pid<P: Platform>(platform: &P, pid: u32) -> (r: KillReport)
    ensures
        match r {
            KillReport::NoSuchProcess { pid: p } => p == pid,
            KillReport::Killed { pid: p, .. } => p == pid,
            KillReport::KillFailed { pid: p, .. } => p == pid,
            _ => false,
        },
        pid_kill_answered(platform, pid, r),
{
    let info = platform.get_process_info(pid);
    let ghost i = info;
    assert(says_info(platform, pid, i));
    if info.is_some() {
        let outcome = platform.kill_process(pid);
        let ghost o = outcome;
        assert(says_killed(platform, pid, o));
        pid_kill_report(pid, info, outcome)
    } else {
        pid_kill_report(pid, info, Ok(()))
    }
}

/// What a kill by PID reports follows the platform's answers: no such process when it
/// knew none with that PID; otherwise what terminating it gave.
pub open spec fn pid_kill_answered<P: Platform>(platform: &P, pid: u32, r: KillReport) -> bool {
    exists|i: Option<ProcessInfo>|
        #[trigger] says_info(platform, pid, i) && match i {
            None => r == KillReport::NoSuchProcess { pid },
            Some(info) => exists|o: Result<(), String>|
                #[trigger] says_killed(platform, pid, o) && match o {
                    Ok(()) => r == KillReport::Killed {
                        pid,
                        name: info.name,
                        exe_path: info.exe_path,
                    },
                    Err(e) => r == KillReport::KillFailed { pid, error: e },
                },
        }
}

/// What a kill by name reports follows the platform's answers: no match when it found
/// no process; otherwise one attempt per process it found, in its order, each with
/// that process's PID and name and killed exactly when terminating that PID succeeded,
/// and the number killed and failed.
pub open spec fn name_kill_answered<P: Platform>(platform: &P, name: &str, r: KillReport) -> bool {
    exists|m: Vec<ProcessInfo>|
        #[trigger] says_processes(platform, name, m) && if m@.len() == 0 {
            r matches KillReport::NoMatch { query } && query@ == name@
        } else {
            r matches KillReport::ByName { query, attempts, killed, failed } && query@ == name@
                && attempts@.len() == m@.len() && (forall|j: int|
                0 <= j < m@.len() ==> (#[trigger] attempts@[j]).pid == m@[j].pid
                    && attempts@[j].name == m@[j].name && exists|o: Result<(), String>|
                    #[trigger] says_killed(platform, m@[j].pid, o) && attempts@[j].killed == (
                    o is Ok)) && killed == count_killed(attempts@) && failed == attempts@.len()
                - count_killed(attempts@)
        }
}

/// 按名称结束: every process the platform found is sent a kill, and is counted as
/// killed exactly when that kill succeeded; nothing is killed when none was found.
pub proof fn lemma_kill_by_name_tries_every_match<P: Platform>(
    platform: &P,
    name: &str,
    r: KillReport,
)
    requires
        name_kill_answered(platform, name, r),
    ensures
        r is NoMatch ==> exists|m: Vec<ProcessInfo>|
            #[trigger] says_processes(platform, name, m) && m@.len() == 0,
        r matches KillReport::ByName { attempts, killed, failed, .. } ==> exists|m: Vec<ProcessInfo>|
            #[trigger] says_processes(platform, name, m) && attempts@.len() == m@.len()
                && killed + failed == m@.len() && forall|j: int|
                0 <= j < m@.len() ==> (#[trigger] attempts@[j]).pid == m@[j].pid
                    && exists|o: Result<(), String>|
                    #[trigger] says_killed(platform, m@[j].pid, o) && (o is Ok
                        <==> attempts@[j].killed),
{
    if r is ByName {
        lemma_count_killed_bound(r->attempts@);
    }
}

/// 按 PID 结束: a process is reported terminated only when the platform knew it and
/// its kill succeeded, and missing only when the platform knew no such process.
pub proof fn lemma_kill_by_pid_follows_platform<P: Platform>(platform: &P, pid: u32, r: KillReport)
    requires
        pid_kill_answered(platform, pid, r),
    ensures
        r is NoSuchProcess ==> says_info(platform, pid, None),
        r is Killed ==> says_killed(platform, pid, Ok(())) && exists|i: Option<ProcessInfo>|
            #[trigger] says_info(platform, pid, i) && i is Some,
        r matches KillReport::KillFailed { error, .. } ==> says_killed(platform, pid, Err(error)),
{
    let i = choose|i: Option<ProcessInfo>|
        #[trigger] says_info(platform, pid, i) && match i {
            None => r == KillReport::NoSuchProcess { pid },
            Some(info) => exists|o: Result<(), String>|
                #[trigger] says_killed(platform, pid, o) && match o {
                    Ok(()) => r == KillReport::Killed {
                        pid,
                        name: info.name,
                        exe_path: info.exe_path,
                    },
                    Err(e) => r == KillReport::KillFailed { pid, error: e },
                },
        };
    if let Some(info) = i {
        let o = choose|o: Result<(), String>|
            #[trigger] says_killed(platform, pid, o) && match o {
                Ok(()) => r == KillReport::Killed {
                    pid,
                    name: info.name,
                    exe_path: info.exe_path,
                },
                Err(e) => r == KillReport::KillFailed { pid, error: e },
            };
        if r is Killed {
            assert(o is Ok);
            let u = o->Ok_0;
            assert(u == ());
            assert(o == Ok::<(), String>(()));
        }
    }
}

/// Whether the kill of match `j` succeeded: its outcome is `Ok` (a match with no
/// outcome counts as failed).
pub open spec fn outcome_ok(outcomes: Seq<Result<(), String>>, j: int) -> bool {
    j < outcomes.len() && outcomes[j] is Ok
}

/// The report of a kill by name from the platform's answers: `matches`, the processes
/// found, and `outcomes`, what terminating each of them gave, in the same order. No
/// match when none was found; otherwise one attempt per match, in order, with how many
/// succeeded and how many failed.
pub fn name_kill_report(query: &str, matches: Vec<ProcessInfo>, outcomes: Vec<
    Result<(), String>,
>) -> (r: KillReport)
    ensures
        matches@.len() == 0 ==> (r matches KillReport::NoMatch { query: q } && q@ == query@),
        matches@.len() > 0 ==> (r matches KillReport::ByName { query: q, attempts, killed, failed }
            && q@ == query@ && attempts@.len() == matches@.len() && (forall|j: int|
            0 <= j < matches@.len() ==> (#[trigger] attempts@[j]).pid == matches@[j].pid
                && attempts@[j].name == matches@[j].name && attempts@[j].killed == outcome_ok(
                outcomes@,
                j,
            )) && killed == count_killed(attempts@) && failed == attempts@.len() - count_killed(
            attempts@,
        )),
{
    if matches.len() == 0 {
        return KillReport::NoMatch { query: owned(query) };
    }
    let ghost orig = matches@;
    let total = matches.len();
    let mut rest = matches;
    let mut attempts: Vec<KillAttempt> = Vec::new();
    let mut killed: usize = 0;
    let mut j: usize = 0;
    while rest.len() > 0
        invariant
            j + rest@.len() == orig.len(),
            orig.len() == total,
            rest@ == orig.skip(j as int),
            attempts@.len() == j,
            forall|m: int|
                0 <= m < j ==> (#[trigger] attempts@[m]).pid == orig[m].pid && attempts@[m].name
                    == orig[m].name && attempts@[m].killed == outcome_ok(outcomes@, m),
            killed == count_killed(attempts@),
            killed <= j,
        decreases rest@.len(),
    {
        let info = rest.remove(0);
        assert(info == orig[j as int]);
        let ok = j < outcomes.len() && outcomes[j].is_ok();
        let ghost before = attempts@;
        attempts.push(KillAttempt { pid: info.pid, name: info.name, killed: ok });
        assert(attempts@.drop_last() =~= before);
        if ok {
            killed = killed + 1;
        }
        assert(rest@ =~= orig.skip(j + 1));
        j = j + 1;
    }
    let failed = attempts.len() - killed;
    KillReport::ByName { query: owned(query), attempts, killed, failed }
}

/// 按名称搜索并结束所有匹配的进程: every process found is terminated, in order (see
/// `name_kill_report`).
fn kill_by_name<P: Platform>(platform: &P, name: &str) -> (r: KillReport)
    ensures
        match r {
            KillReport::NoMatch { query } => query@ == name@,
            KillReport::ByName { query, attempts, killed, failed } => query@ == name@
                && attempts@.len() > 0 && killed == count_killed(attempts@) && killed + failed
                == attempts@.len(),
            _ => false,
        },
        name_kill_answered(platform, name, r),
{
    let matches = platform.find_processes(name);
    let ghost m = matches;
    assert(says_processes(platform, name, m));
    let mut outcomes: Vec<Result<(), String>> = Vec::new();
    let mut i: usize = 0;
    while i < matches.len()
        invariant
            i <= matches@.len(),
            matches == m,
            outcomes@.len() == i,
            forall|k: int| 0 <= k < i ==> #[trigger] says_killed(platform, m@[k].pid, outcomes@[k]),
        decreases matches@.len() - i,
    {
        let o = platform.kill_process(matches[i].pid);
        outcomes.push(o);
        i = i + 1;
    }
    let ghost os = outcomes@;
    let r = name_kill_report(name, matches, outcomes);
    proof {
        if r is ByName {
            lemma_count_killed_bound(r->attempts@);
            let attempts = r->attempts;
            assert forall|j: int| 0 <= j < m@.len() implies (#[trigger] attempts@[j]).pid
                == m@[j].pid && exists|o: Result<(), String>|
                #[trigger] says_killed(platform, m@[j].pid, o) && attempts@[j].killed == (
                o is Ok) by {
                assert(says_killed(platform, m@[j].pid, os[j]));
                assert(attempts@[j].killed == outcome_ok(os, j));
            }
        }
    }
    r
}

proof fn lemma_count_killed_bound(a: Seq<KillAttempt>)
    ensures
        count_killed(a) <= a.len(),
    decreases a.len(),
{
    if a.len() > 0 {
        lemma_count_killed_bound(a.drop_last());
    }
}

/// 结束进程 — 支持按 PID 或按名称: an input that reads as a `u32` is a PID, anything
/// else a name to search for.
pub fn cmd_kill<P: Platform>(platform: &P, input: &str) -> (r: KillReport)
    ensures
        parse_u32_spec(input@) matches Some(pid) ==> match r {
            KillReport::NoSuchProcess { pid: p } => p == pid,
            KillReport::Killed { pid: p, .. } => p == pid,
            KillReport::KillFailed { pid: p, .. } => p == pid,
            _ => false,
        },
        parse_u32_spec(input@) is None ==> match r {
            KillReport::NoMatch { query } => query@ == input@,
            KillReport::ByName { query, attempts, killed, failed } => query@ == input@
                && attempts@.len() > 0 && killed == count_killed(attempts@) && killed + failed
                == attempts@.len(),
            _ => false,
        },
        forall|pid: u32|
            parse_u32_spec(input@) == Some(pid as nat) ==> #[trigger] pid_kill_answered(
                platform,
                pid,
                r,
            ),
        parse_u32_spec(input@) is None ==> name_kill_answered(platform, input, r),
{
    match parse_u32(input) {
        Some(pid) => kill_by_pid(platform, pid),
        None => kill_by_name(platform, input),
    }
}

// ─── ps ─────────────────────────────────────────────────

/// A process found by `ps`, with the ports it holds.
pub struct ListedProcess {
    pub info: ProcessInfo,
    /// Its port numbers (see `listed_ports`).
    pub ports: Vec<u16>,
}

/// What `ps` found.
pub enum PsReport {
    /// No process matches the name.
    NoMatch { query: String },
    /// The matching processes, in the order the platform listed them.
    Found { query: String, processes: Vec<ListedProcess> },
}

/// A found process with the ports of the bindings the platform reported for it.
pub fn listed_process(info: ProcessInfo, bindings: &Vec<PortBinding>) -> (p: ListedProcess)
    ensures
        p.info == info,
        p.ports@ == listed_ports(bindings@),
{
    ListedProcess { info, ports: port_numbers(bindings) }
}

/// The port numbers in decimal, separated by `, ` (`8080, 8848`).
pub fn ports_text(ports: &Vec<u16>) -> (s: String)
    ensures
        s@ == join(ports@.map_values(|p: u16| dec_chars(p as nat)), ", "@),
{
    let mut parts: Vec<String> = Vec::new();
    let mut i: usize = 0;
    while i < ports.len()
        invariant
            i <= ports@.len(),
            views(parts@) == ports@.take(i as int).map_values(|p: u16| dec_chars(p as nat)),
        decreases ports@.len() - i,
    {
        let d = decimal(ports[i] as u64);
        let ghost before = parts@;
        parts.push(d);
        assert(views(parts@) =~= views(before).push(d@));
        assert(ports@.take(i + 1) =~= ports@.take(i as int).push(ports@[i as int]));
        assert(views(parts@) =~= ports@.take(i + 1).map_values(|p: u16| dec_chars(p as nat)));
        i = i + 1;
    }
    assert(ports@.take(i as int) =~= ports@);
    join_strings(&parts, ", ")
}

/// What `ps` reports from the processes found.
pub fn ps_report(name: &str, found: Vec<ListedProcess>) -> (r: PsReport)
    ensures
        found@.len() == 0 ==> (r matches PsReport::NoMatch { query } && query@ == name@),
        found@.len() > 0 ==> (r matches PsReport::Found { query, processes } && query@ == name@
            && processes == found),
{
    if found.len() == 0 {
        PsReport::NoMatch { query: owned(name) }
    } else {
        PsReport::Found { query: owned(name), processes: found }
    }
}

/// The bindings reported for match `j` (none where there is no entry for it).
pub open spec fn bindings_at(b: Seq<Vec<PortBinding>>, j: int) -> Seq<PortBinding> {
    if j < b.len() {
        b[j]@
    } else {
        Seq::empty()
    }
}

/// What `ps` reports from the platform's answers: `matches`, the processes found, and
/// `bindings`, the sockets each of them holds, in the same order. No match when none
/// was found; otherwise one entry per match, in order, each with the ports of its
/// bindings.
pub fn ps_from_matches(name: &str, matches: Vec<ProcessInfo>, bindings: Vec<Vec<PortBinding>>) -> (r:
    PsReport)
    ensures
        matches@.len() == 0 ==> (r matches PsReport::NoMatch { query } && query@ == name@),
        matches@.len() > 0 ==> (r matches PsReport::Found { query, processes } && query@ == name@
            && processes@.len() == matches@.len() && forall|j: int|
            0 <= j < matches@.len() ==> (#[trigger] processes@[j]).info == matches@[j]
                && processes@[j].ports@ == listed_ports(bindings_at(bindings@, j))),
{
    let ghost orig = matches@;
    let total = matches.len();
    let mut rest = matches;
    let mut found: Vec<ListedProcess> = Vec::new();
    let mut j: usize = 0;
    let empty: Vec<PortBinding> = Vec::new();
    while rest.len() > 0
        invariant
            j + rest@.len() == orig.len(),
            orig.len() == total,
            rest@ == orig.skip(j as int),
            found@.len() == j,
            empty@.len() == 0,
            forall|m: int|
                0 <= m < j ==> (#[trigger] found@[m]).info == orig[m] && found@[m].ports@
                    == listed_ports(bindings_at(bindings@, m)),
        decreases rest@.len(),
    {
        let info = rest.remove(0);
        assert(info == orig[j as int]);
        let p = if j < bindings.len() {
            listed_process(info, &bindings[j])
        } else {
            assert(empty@ =~= bindings_at(bindings@, j as int));
            listed_process(info, &empty)
        };
        found.push(p);
        assert(rest@ =~= orig.skip(j + 1));
        j = j + 1;
    }
    ps_report(name, found)
}

/// 搜索进程: the processes whose name or path contains the text, each with the ports
/// it holds (see `ps_from_matches`).
pub fn cmd_ps<P: Platform>(platform: &P, name: &str) -> (r: PsReport)
    ensures
        match r {
            PsReport::NoMatch { query } => query@ == name@,
            PsReport::Found { query, processes } => query@ == name@ && processes@.len() > 0,
        },
        ps_answered(platform, name, r),
{
    let matches = platform.find_processes(name);
    let ghost m = matches;
    assert(says_processes(platform, name, m));
    let mut bindings: Vec<Vec<PortBinding>> = Vec::new();
    let mut i: usize = 0;
    while i < matches.len()
        invariant
            i <= matches@.len(),
            matches == m,
            bindings@.len() == i,
            forall|k: int| 0 <= k < i ==> #[trigger] says_ports_of(platform, m@[k].pid, bindings@[k]),
        decreases matches@.len() - i,
    {
        let b = platform.find_ports_by_pid(matches[i].pid);
        bindings.push(b);
        i = i + 1;
    }
    let ghost bs = bindings@;
    let r = ps_from_matches(name, matches, bindings);
    proof {
        if r is Found {
            let processes = r->processes;
            assert forall|j: int| 0 <= j < m@.len() implies (#[trigger] processes@[j]).info
                == m@[j] && exists|b: Vec<PortBinding>|
                #[trigger] says_ports_of(platform, m@[j].pid, b) && processes@[j].ports@
                    == listed_ports(b@) by {
                assert(says_ports_of(platform, m@[j].pid, bs[j]));
                assert(bindings_at(bs, j) == bs[j]@);
            }
        }
    }
    r
}

/// What `ps` reports follows the platform's answers: no match when it found no
/// process; otherwise each process it found, in its order, with the ports of the
/// sockets the platform listed for that PID.
pub open spec fn ps_answered<P: Platform>(platform: &P, name: &str, r: PsReport) -> bool {
    exists|m: Vec<ProcessInfo>|
        #[trigger] says_processes(platform, name, m) && if m@.len() == 0 {
            r matches PsReport::NoMatch { query } && query@ == name@
        } else {
            r matches PsReport::Found { query, processes } && query@ == name@ && processes@.len()
                == m@.len() && forall|j: int|
                0 <= j < m@.len() ==> (#[trigger] processes@[j]).info == m@[j] && exists|
                    b: Vec<PortBinding>,
                |
                    #[trigger] says_ports_of(platform, m@[j].pid, b) && processes@[j].ports@
                        == listed_ports(b@)
        }
}

} // verus!
