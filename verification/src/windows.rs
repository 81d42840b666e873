//! The Windows side: the records that the Win32 calls fill, read as plain values,
//! and the decisions around those calls (file-lock probing, Restart Manager,
//! process snapshots, TCP/UDP tables, `PATHEXT`). The calls themselves are made by
//! the host, which hands their results to these functions.
use vstd::prelude::*;
use crate::net::{ipv4_text, ipv6_text, swap16, u16_to_be, v4_endpoint, v6_endpoint};
use crate::numfmt::{
    chars_of, dec_chars, int_dec_chars, push_decimal, push_signed_decimal, string_from_chars,
};
use crate::paths::{windows_file_name, windows_file_name_of};
use crate::platform::{
    dedup_bindings, dedup_port_bindings, ports_of_process, sort_bindings, sort_port_bindings,
    BindingOrder, PortBinding, ProcessInfo, SameBinding,
};
use crate::text::{
    contains, contains_chars, ends_with, ends_with_chars, lowercase, owned, push_str, to_lowercase,
    views, vviews,
};
use crate::paths::{split_at_char, split_chars};

verus! {

/// Windows 平台实现.
pub struct WindowsPlatform;

// ─── records filled by Win32 ────────────────────────────

/// `FILETIME`.
#[allow(non_camel_case_types)]
#[derive(Clone, Copy)]
pub struct FILETIME {
    pub dw_low_date_time: u32,
    pub dw_high_date_time: u32,
}

/// `RM_UNIQUE_PROCESS`.
#[allow(non_camel_case_types)]
#[derive(Clone, Copy)]
pub struct RM_UNIQUE_PROCESS {
    pub dw_process_id: u32,
    pub process_start_time: FILETIME,
}

/// `RM_PROCESS_INFO`, as the Restart Manager fills it.
#[allow(non_camel_case_types)]
#[derive(Clone, Copy)]
pub struct RM_PROCESS_INFO {
    pub process: RM_UNIQUE_PROCESS,
    pub str_app_name: [u16; 256],
    pub str_service_short_name: [u16; 64],
    pub application_type: u32,
    pub app_status: u32,
    pub ts_session_id: u32,
    pub b_restartable: i32,
}

/// `PROCESSENTRY32W`, as a process snapshot fills it.
#[allow(non_camel_case_types)]
#[derive(Clone, Copy)]
pub struct PROCESSENTRY32W {
    pub dw_size: u32,
    pub cnt_usage: u32,
    pub th32_process_id: u32,
    pub th32_default_heap_id: u64,
    pub th32_module_id: u32,
    pub cnt_threads: u32,
    pub th32_parent_process_id: u32,
    pub pc_pri_class_base: i32,
    pub dw_flags: u32,
    pub sz_exe_file: [u16; 260],
}

/// `UNICODE_STRING` as read from another process's memory: the length and capacity of
/// its text in bytes, and the address of the text in that process.
#[allow(non_camel_case_types)]
#[derive(Clone, Copy)]
pub struct UNICODE_STRING_REMOTE {
    pub length: u16,
    pub maximum_length: u16,
    /// The address of the text in the other process; 0 for none.
    pub buffer: usize,
}

/// The fields of an IPv4 row of a TCP or UDP table (`MIB_TCPROW_OWNER_PID`,
/// `MIB_UDPROW_OWNER_PID`) that a port lookup reads.
#[derive(Clone, Copy)]
pub struct Ipv4Row {
    pub local_addr: u32,
    /// The port in network byte order, in the low 16 bits.
    pub local_port: u32,
    pub owning_pid: u32,
}

/// The fields of an IPv6 row of a TCP or UDP table (`MIB_TCP6ROW_OWNER_PID`,
/// `MIB_UDP6ROW_OWNER_PID`) that a port lookup reads.
#[derive(Clone, Copy)]
pub struct Ipv6Row {
    pub local_addr: [u8; 16],
    /// The port in network byte order, in the low 16 bits.
    pub local_port: u32,
    pub owning_pid: u32,
}

// ─── UTF-16 text ────────────────────────────────────────

/// A UTF-16 code unit in the surrogate range.
pub open spec fn is_surrogate(u: u16) -> bool {
    0xD800 <= u <= 0xDFFF
}

/// The character a high and a low surrogate stand for together.
pub open spec fn pair_char(hi: u16, lo: u16) -> char {
    (0x10000 + (hi - 0xD800) * 0x400 + (lo - 0xDC00)) as char
}

/// `String::from_utf16_lossy`: a unit outside the surrogate range is the character of
/// that value; a high surrogate (`D800`–`DBFF`) followed by a low one (`DC00`–`DFFF`)
/// is the character of the pair; any other surrogate is U+FFFD.
pub open spec fn utf16_lossy(units: Seq<u16>) -> Seq<char>
    decreases units.len(),
{
    if units.len() == 0 {
        seq![]
    } else if !is_surrogate(units[0]) {
        seq![units[0] as char] + utf16_lossy(units.drop_first())
    } else if units[0] <= 0xDBFF && units.len() >= 2 && 0xDC00 <= units[1] <= 0xDFFF {
        seq![pair_char(units[0], units[1])] + utf16_lossy(units.skip(2))
    } else {
        seq!['\u{FFFD}'] + utf16_lossy(units.drop_first())
    }
}

/// The number of UTF-16 code units that encode the characters.
pub open spec fn utf16_len(s: Seq<char>) -> nat
    decreases s.len(),
{
    if s.len() == 0 {
        0
    } else {
        utf16_len(s.drop_last()) + if (s.last() as u32) >= 0x10000 {
            2nat
        } else {
            1nat
        }
    }
}

proof fn lemma_utf16_len_concat(a: Seq<char>, b: Seq<char>)
    ensures
        utf16_len(a + b) == utf16_len(a) + utf16_len(b),
    decreases b.len(),
{
    if b.len() > 0 {
        lemma_utf16_len_concat(a, b.drop_last());
        assert((a + b).drop_last() =~= a + b.drop_last());
    } else {
        assert(a + b =~= a);
    }
}

/// Decoding UTF-16 keeps its length: the characters decoded encode back into as many
/// units as were decoded.
pub proof fn lemma_utf16_lossy_len(units: Seq<u16>)
    ensures
        utf16_len(utf16_lossy(units)) == units.len(),
    decreases units.len(),
{
    if units.len() > 0 {
        let u = units[0];
        if !is_surrogate(u) {
            lemma_utf16_lossy_len(units.drop_first());
            assert((u as char) as u32 == u);
            lemma_utf16_len_concat(seq![u as char], utf16_lossy(units.drop_first()));
            assert(seq![u as char].drop_last() =~= Seq::<char>::empty());
            let c = u as char;
            assert(c as u32 == u as u32);
            assert(seq![c].last() == c);
            assert(utf16_len(Seq::<char>::empty()) == 0);
            assert(utf16_len(seq![c]) == 1);
            assert(utf16_lossy(units) == seq![u as char] + utf16_lossy(units.drop_first()));
        } else if u <= 0xDBFF && units.len() >= 2 && 0xDC00 <= units[1] <= 0xDFFF {
            lemma_utf16_lossy_len(units.skip(2));
            let x: u32 = (0x10000 + (u - 0xD800) * 0x400 + (units[1] - 0xDC00)) as u32;
            assert(0x10000 <= x <= 0x10FFFF);
            assert((x as char) as u32 == x);
            lemma_utf16_len_concat(seq![pair_char(u, units[1])], utf16_lossy(units.skip(2)));
            assert(seq![pair_char(u, units[1])].drop_last() =~= Seq::<char>::empty());
            assert(pair_char(u, units[1]) == x as char);
            let c = pair_char(u, units[1]);
            assert(c as u32 == x);
            assert(seq![c].last() == c);
            assert(utf16_len(Seq::<char>::empty()) == 0);
            assert(utf16_len(seq![c]) == 2);
            assert(utf16_lossy(units) == seq![pair_char(u, units[1])] + utf16_lossy(units.skip(2)));
        } else {
            lemma_utf16_lossy_len(units.drop_first());
            assert(('\u{FFFD}' as u32) == 0xFFFD);
            lemma_utf16_len_concat(seq!['\u{FFFD}'], utf16_lossy(units.drop_first()));
            assert(seq!['\u{FFFD}'].drop_last() =~= Seq::<char>::empty());
            let c = '\u{FFFD}';
            assert(seq![c].last() == c);
            assert(utf16_len(Seq::<char>::empty()) == 0);
            assert(utf16_len(seq![c]) == 1);
        }
    }
}

/// `String::from_utf16_lossy`: decodes UTF-16 as `utf16_lossy` states.
#[verifier::external_body]
fn from_utf16_lossy(units: &[u16]) -> (s: String)
    ensures
        s@ == utf16_lossy(units@),
{
    String::from_utf16_lossy(units)
}

/// `s` without its trailing `\0` characters (`trim_end_matches('\0')`).
pub open spec fn trim_nuls(s: Seq<char>) -> Seq<char>
    decreases s.len(),
{
    if s.len() > 0 && s.last() == '\0' {
        trim_nuls(s.drop_last())
    } else {
        s
    }
}

/// Decodes a zero-padded UTF-16 buffer and drops the trailing `\0` characters.
pub fn utf16_text(units: &[u16]) -> (s: String)
    ensures
        s@ == trim_nuls(utf16_lossy(units@)),
{
    let t = from_utf16_lossy(units);
    trim_trailing_nuls(t.as_str())
}

/// `s` without its trailing `\0` characters (`trim_end_matches('\0')`).
pub fn trim_trailing_nuls(s: &str) -> (r: String)
    ensures
        r@ == trim_nuls(s@),
{
    let c = chars_of(s);
    let mut k = c.len();
    assert(c@.take(k as int) =~= c@);
    while k > 0 && c[k - 1] == '\0'
        invariant
            k <= c@.len(),
            trim_nuls(c@) == trim_nuls(c@.take(k as int)),
        decreases k,
    {
        assert(c@.take(k as int).drop_last() =~= c@.take(k - 1));
        k = k - 1;
    }
    let mut r: Vec<char> = Vec::new();
    let mut i: usize = 0;
    while i < k
        invariant
            i <= k <= c@.len(),
            r@ == c@.take(i as int),
        decreases k - i,
    {
        r.push(c[i]);
        assert(c@.take(i + 1) =~= c@.take(i as int).push(c@[i as int]));
        i = i + 1;
    }
    string_from_chars(r.as_slice())
}

fn prefix_units(units: &[u16], n: usize) -> (r: Vec<u16>)
    requires
        n <= units@.len(),
    ensures
        r@ == units@.take(n as int),
{
    let mut r: Vec<u16> = Vec::new();
    let mut i: usize = 0;
    while i < n
        invariant
            i <= n <= units@.len(),
            r@ == units@.take(i as int),
        decreases n - i,
    {
        r.push(units[i]);
        assert(units@.take(i + 1) =~= units@.take(i as int).push(units@[i as int]));
        i = i + 1;
    }
    r
}

// ─── file locks ─────────────────────────────────────────

/// `GENERIC_READ | GENERIC_WRITE`.
pub const GENERIC_READ_WRITE: u32 = 0xC000_0000u32;

/// `FILE_LIST_DIRECTORY`.
pub const FILE_LIST_DIRECTORY: u32 = 0x0001u32;

/// `FILE_FLAG_BACKUP_SEMANTICS`.
pub const FILE_FLAG_BACKUP_SEMANTICS: u32 = 0x0200_0000u32;

/// `ERROR_SHARING_VIOLATION`.
pub const ERROR_SHARING_VIOLATION: u32 = 32u32;

/// `ERROR_ACCESS_DENIED`.
pub const ERROR_ACCESS_DENIED: u32 = 5u32;

/// How an exclusive open of the path went.
pub enum OpenAttempt {
    /// The path does not exist.
    NotFound,
    /// The open succeeded (and the handle was closed).
    Opened,
    /// The open failed with this `GetLastError` code.
    Failed { is_dir: bool, error: u32 },
}

/// The access rights and flags of the exclusive open used to probe a path: read and
/// write for a file, listing with backup semantics for a folder.
pub fn open_request(is_dir: bool) -> (r: (u32, u32))
    ensures
        is_dir ==> r == (FILE_LIST_DIRECTORY, FILE_FLAG_BACKUP_SEMANTICS),
        !is_dir ==> r == (GENERIC_READ_WRITE, 0u32),
{
    if is_dir {
        (FILE_LIST_DIRECTORY, FILE_FLAG_BACKUP_SEMANTICS)
    } else {
        (GENERIC_READ_WRITE, 0)
    }
}

/// 检查路径是否正被其他进程占用, from how the exclusive open went: a missing path is
/// an error; an open that succeeds means free; a sharing violation means in use; access
/// denied means in use for a file and is an error for a folder; any other failure is an
/// error carrying its code.
pub fn check_in_use(path: &str, attempt: OpenAttempt) -> (r: Result<bool, String>)
    ensures
        match attempt {
            OpenAttempt::NotFound => r matches Err(m) && m@ == "路径不存在: "@ + path@,
            OpenAttempt::Opened => r == Ok::<bool, String>(false),
            OpenAttempt::Failed { is_dir, error } => if error == ERROR_SHARING_VIOLATION {
                r == Ok::<bool, String>(true)
            } else if error == ERROR_ACCESS_DENIED {
                if is_dir {
                    r matches Err(m) && m@ == "访问被拒绝，可能没有足够权限"@
                } else {
                    r == Ok::<bool, String>(true)
                }
            } else {
                r matches Err(m) && m@ == "无法访问路径 (系统错误 "@ + dec_chars(error as nat) + ")"@
            },
        },
{
    match attempt {
        OpenAttempt::NotFound => {
            let mut m = owned("路径不存在: ");
            push_str(&mut m, path);
            Err(m)
        },
        OpenAttempt::Opened => Ok(false),
        OpenAttempt::Failed { is_dir, error } => {
            if error == ERROR_SHARING_VIOLATION {
                Ok(true)
            } else if error == ERROR_ACCESS_DENIED {
                if is_dir {
                    Err(owned("访问被拒绝，可能没有足够权限"))
                } else {
                    Ok(true)
                }
            } else {
                let mut m = owned("无法访问路径 (系统错误 ");
                push_decimal(&mut m, error as u64);
                push_str(&mut m, ")");
                Err(m)
            }
        },
    }
}

/// The message for a failed `RmStartSession`: a hint to run as administrator for
/// access denied (5), otherwise the code.
pub fn rm_start_error(ret: i32) -> (m: String)
    ensures
        ret == 5 ==> m@ == "权限不足，请以管理员身份运行"@,
        ret != 5 ==> m@ == "RmStartSession 失败 (error "@ + int_dec_chars(ret as int) + ")"@,
{
    if ret == 5 {
        owned("权限不足，请以管理员身份运行")
    } else {
        let mut m = owned("RmStartSession 失败 (error ");
        push_signed_decimal(&mut m, ret);
        push_str(&mut m, ")");
        m
    }
}

/// The message for a failed Restart Manager call: `<call> 失败 (error <code>)`.
pub fn rm_call_error(call: &str, ret: i32) -> (m: String)
    ensures
        m@ == call@ + " 失败 (error "@ + int_dec_chars(ret as int) + ")"@,
{
    let mut m = owned(call);
    push_str(&mut m, " 失败 (error ");
    push_signed_decimal(&mut m, ret);
    push_str(&mut m, ")");
    m
}

/// The `(PID, name)` pairs of the processes that hold a file, in list order, not
/// counting this process.
pub open spec fn locking_entries(list: Seq<RM_PROCESS_INFO>, own_pid: u32) -> Seq<(u32, Seq<char>)>
    decreases list.len(),
{
    if list.len() == 0 {
        seq![]
    } else {
        let rest = locking_entries(list.drop_last(), own_pid);
        let p = list.last();
        if p.process.dw_process_id != own_pid {
            rest.push((p.process.dw_process_id, trim_nuls(utf16_lossy(p.str_app_name@))))
        } else {
            rest
        }
    }
}

/// The PID and character sequence of each pair.
pub open spec fn pid_name_views(v: Seq<(u32, String)>) -> Seq<(u32, Seq<char>)> {
    v.map_values(|t: (u32, String)| (t.0, t.1@))
}

/// 通过 Restart Manager 找出占用进程: the first `count` entries of the list the
/// Restart Manager returned, without this process, each with its application name
/// decoded and its trailing `\0`s dropped.
pub fn locking_processes(list: &[RM_PROCESS_INFO], count: u32, own_pid: u32) -> (r: Vec<
    (u32, String),
>)
    ensures
        pid_name_views(r@) == locking_entries(
            list@.take(if count as int <= list@.len() { count as int } else { list@.len() as int }),
            own_pid,
        ),
{
    let n: usize = if (count as u64) <= (list.len() as u64) {
        count as usize
    } else {
        list.len()
    };
    let ghost taken = list@.take(n as int);
    let mut r: Vec<(u32, String)> = Vec::new();
    let mut i: usize = 0;
    assert(taken.take(0) =~= Seq::<RM_PROCESS_INFO>::empty());
    while i < n
        invariant
            i <= n <= list@.len(),
            taken == list@.take(n as int),
            pid_name_views(r@) == locking_entries(taken.take(i as int), own_pid),
        decreases n - i,
    {
        let p = list[i];
        assert(taken.take(i + 1).drop_last() =~= taken.take(i as int));
        assert(taken.take(i + 1).last() == p);
        if p.process.dw_process_id != own_pid {
            let name = utf16_text(&p.str_app_name);
            let ghost before = r@;
            r.push((p.process.dw_process_id, name));
            assert(pid_name_views(r@) =~= pid_name_views(before).push(
                (p.process.dw_process_id, name@),
            ));
        }
        i = i + 1;
    }
    assert(taken.take(n as int) =~= taken);
    r
}

/// A process holding a file, as the lock lookup reports it (no parent or thread count).
pub fn locking_process_info(pid: u32, name: String, exe_path: Option<String>, cmd_line: Option<
    String,
>) -> (p: ProcessInfo)
    ensures
        p.pid == pid,
        p.name == name,
        p.exe_path == exe_path,
        p.cmd_line == cmd_line,
        p.parent_pid is None,
        p.thread_count is None,
{
    ProcessInfo { pid, name, exe_path, cmd_line, parent_pid: None, thread_count: None }
}

// ─── processes ──────────────────────────────────────────

/// The executable name of a snapshot entry.
pub open spec fn entry_name(e: PROCESSENTRY32W) -> Seq<char> {
    trim_nuls(utf16_lossy(e.sz_exe_file@))
}

/// Whether a snapshot entry matches a search for `name`: its executable name, in lower
/// case, contains the name in lower case, or its full path in lower case does.
pub fn entry_matches(entry: &PROCESSENTRY32W, name: &str, exe_path: &Option<String>) -> (b:
    bool)
    ensures
        b == (contains(lowercase(entry_name(*entry)), lowercase(name@)) || (exe_path matches Some(p)
            && contains(lowercase(p@), lowercase(name@)))),
{
    let needle = chars_of(to_lowercase(name).as_str());
    let name = utf16_text(&entry.sz_exe_file);
    let l = chars_of(to_lowercase(name.as_str()).as_str());
    if contains_chars(l.as_slice(), needle.as_slice()) {
        return true;
    }
    match exe_path {
        Some(p) => {
            let lp = chars_of(to_lowercase(p.as_str()).as_str());
            contains_chars(lp.as_slice(), needle.as_slice())
        },
        None => false,
    }
}

/// The details of a process found in a snapshot: its PID, executable name, parent and
/// thread count from the entry, with the path and command line given.
pub fn process_from_entry(entry: &PROCESSENTRY32W, exe_path: Option<String>, cmd_line: Option<
    String,
>) -> (p: ProcessInfo)
    ensures
        p.pid == entry.th32_process_id,
        p.name@ == entry_name(*entry),
        p.exe_path == exe_path,
        p.cmd_line == cmd_line,
        p.parent_pid == Some(entry.th32_parent_process_id),
        p.thread_count == Some(entry.cnt_threads),
{
    ProcessInfo {
        pid: entry.th32_process_id,
        name: utf16_text(&entry.sz_exe_file),
        exe_path,
        cmd_line,
        parent_pid: Some(entry.th32_parent_process_id),
        thread_count: Some(entry.cnt_threads),
    }
}

/// The name in a process's details: the file name of its executable, or empty.
pub fn process_info_name(exe_path: &str) -> (s: String)
    ensures
        windows_file_name_of(exe_path@) matches Some(n) ==> s@ == n,
        windows_file_name_of(exe_path@) is None ==> s@ == Seq::<char>::empty(),
{
    match windows_file_name(exe_path) {
        Some(n) => n,
        None => String::new(),
    }
}

/// The path that `QueryFullProcessImageNameW` wrote: nothing when it failed (returned
/// 0), otherwise the first `size` units of the buffer decoded.
pub fn image_path(ok: i32, buf: &[u16], size: u32) -> (r: Option<String>)
    requires
        ok != 0 ==> size as int <= buf@.len(),
    ensures
        ok == 0 ==> r is None,
        ok != 0 ==> (r matches Some(s) && s@ == utf16_lossy(buf@.take(size as int))),
{
    if ok == 0 {
        return None;
    }
    let p = prefix_units(buf, size as usize);
    Some(from_utf16_lossy(p.as_slice()))
}

/// How to read a command line whose `UNICODE_STRING` was read from another process:
/// nothing when it has no text (a null address or a zero length); otherwise a buffer
/// of `length / 2 + 1` UTF-16 units and the `length` bytes to read into it.
pub fn command_line_read(us: &UNICODE_STRING_REMOTE) -> (r: Option<(usize, usize)>)
    ensures
        us.buffer == 0 || us.length == 0 ==> r is None,
        us.buffer != 0 && us.length != 0 ==> r == Some(
            ((us.length / 2 + 1) as usize, us.length as usize),
        ),
{
    if us.buffer == 0 || us.length == 0 {
        return None;
    }
    let byte_len = us.length as usize;
    Some((byte_len / 2 + 1, byte_len))
}

/// The command line read from another process's memory: nothing when no byte was read,
/// otherwise the whole units read, decoded, with trailing `\0`s dropped. The text never
/// ends in `\0` and takes no more UTF-16 units than were read.
pub fn command_line_text(buf: &[u16], bytes_read: usize) -> (r: Option<String>)
    requires
        bytes_read / 2 <= buf@.len(),
    ensures
        bytes_read == 0 ==> r is None,
        bytes_read != 0 ==> (r matches Some(s) && s@ == trim_nuls(
            utf16_lossy(buf@.take((bytes_read / 2) as int)),
        )),
        r matches Some(s) ==> utf16_len(s@) <= bytes_read / 2 && (s@.len() == 0 || s@.last()
            != '\0'),
{
    if bytes_read == 0 {
        return None;
    }
    let p = prefix_units(buf, bytes_read / 2);
    let s = utf16_text(p.as_slice());
    proof {
        let d = utf16_lossy(buf@.take((bytes_read / 2) as int));
        lemma_utf16_lossy_len(buf@.take((bytes_read / 2) as int));
        lemma_trim_nuls(d);
    }
    Some(s)
}

proof fn lemma_trim_nuls(s: Seq<char>)
    ensures
        utf16_len(trim_nuls(s)) <= utf16_len(s),
        trim_nuls(s).len() == 0 || trim_nuls(s).last() != '\0',
    decreases s.len(),
{
    if s.len() > 0 && s.last() == '\0' {
        lemma_trim_nuls(s.drop_last());
    }
}

/// The outcome of terminating a process: an error when it could not be opened, or when
/// `TerminateProcess` returned 0.
pub fn terminate_outcome(pid: u32, opened: bool, ret: i32) -> (r: Result<(), String>)
    ensures
        !opened ==> (r matches Err(m) && m@ == "无法打开进程 PID "@ + dec_chars(pid as nat)
            + "（权限不足）"@),
        opened && ret == 0 ==> (r matches Err(m) && m@ == "终止进程 PID "@ + dec_chars(pid as nat)
            + " 失败"@),
        opened && ret != 0 ==> r is Ok,
{
    if !opened {
        let mut m = owned("无法打开进程 PID ");
        push_decimal(&mut m, pid as u64);
        push_str(&mut m, "（权限不足）");
        return Err(m);
    }
    if ret == 0 {
        let mut m = owned("终止进程 PID ");
        push_decimal(&mut m, pid as u64);
        push_str(&mut m, " 失败");
        return Err(m);
    }
    Ok(())
}

// ─── PATH search ────────────────────────────────────────

/// The extensions of a `PATHEXT` value: split at `;`, each in lower case.
pub open spec fn pathext_spec(v: Seq<char>) -> Seq<Seq<char>> {
    split_at_char(v, ';').map_values(|e: Seq<char>| lowercase(e))
}

/// The extensions of a `PATHEXT` value (`.exe;.com;.bat;.cmd` when it is unset).
pub fn pathext_list(pathext: &str) -> (r: Vec<String>)
    ensures
        views(r@) == pathext_spec(pathext@),
{
    let c = chars_of(pathext);
    let parts = split_chars(c.as_slice(), ';');
    let ghost pv = vviews(parts@);
    let mut r: Vec<String> = Vec::new();
    let mut i: usize = 0;
    while i < parts.len()
        invariant
            i <= parts@.len(),
            pv == vviews(parts@),
            pv == split_at_char(pathext@, ';'),
            views(r@) == pv.take(i as int).map_values(|e: Seq<char>| lowercase(e)),
        decreases parts@.len() - i,
    {
        let s = string_from_chars(parts[i].as_slice());
        let l = to_lowercase(s.as_str());
        let ghost before = r@;
        r.push(l);
        assert(pv[i as int] == parts@[i as int]@);
        assert(pv.take(i + 1) =~= pv.take(i as int).push(pv[i as int]));
        assert(views(r@) =~= views(before).push(l@));
        assert(views(r@) =~= pv.take(i + 1).map_values(|e: Seq<char>| lowercase(e)));
        i = i + 1;
    }
    assert(pv.take(i as int) =~= pv);
    r
}

/// Whether the name, in lower case, already ends with one of the extensions.
pub fn has_known_extension(name: &str, exts: &Vec<String>) -> (b: bool)
    ensures
        b == exists|i: int| 0 <= i < exts@.len() && ends_with(lowercase(name@), #[trigger] exts@[i]@),
{
    let l = to_lowercase(name);
    ends_with_any(l.as_str(), exts)
}

/// Whether the text ends with one of the extensions.
pub fn ends_with_any(text: &str, exts: &Vec<String>) -> (b: bool)
    ensures
        b == exists|i: int| 0 <= i < exts@.len() && ends_with(text@, #[trigger] exts@[i]@),
{
    let l = chars_of(text);
    let mut i: usize = 0;
    while i < exts.len()
        invariant
            i <= exts@.len(),
            l@ == text@,
            forall|j: int| 0 <= j < i ==> !ends_with(text@, #[trigger] exts@[j]@),
        decreases exts@.len() - i,
    {
        let e = chars_of(exts[i].as_str());
        if ends_with_chars(l.as_slice(), e.as_slice()) {
            return true;
        }
        i = i + 1;
    }
    false
}

/// The file names to look for in each `PATH` folder when the name has no known
/// extension: the name in lower case followed by each extension, in order.
pub fn candidate_names(name: &str, exts: &Vec<String>) -> (r: Vec<String>)
    ensures
        views(r@) == views(exts@).map_values(|e: Seq<char>| lowercase(name@) + e),
{
    let l = to_lowercase(name);
    with_extensions(l.as_str(), exts)
}

/// The stem followed by each extension, in order.
pub fn with_extensions(stem: &str, exts: &Vec<String>) -> (r: Vec<String>)
    ensures
        views(r@) == views(exts@).map_values(|e: Seq<char>| stem@ + e),
{
    let mut r: Vec<String> = Vec::new();
    let mut i: usize = 0;
    while i < exts.len()
        invariant
            i <= exts@.len(),
            views(r@) == views(exts@).take(i as int).map_values(|e: Seq<char>| stem@ + e),
        decreases exts@.len() - i,
    {
        let mut c = owned(stem);
        push_str(&mut c, exts[i].as_str());
        let ghost before = r@;
        r.push(c);
        assert(views(exts@).take(i + 1) =~= views(exts@).take(i as int).push(exts@[i as int]@));
        assert(views(r@) =~= views(before).push(c@));
        assert(views(r@) =~= views(exts@).take(i + 1).map_values(|e: Seq<char>| stem@ + e));
        i = i + 1;
    }
    assert(views(exts@).take(i as int) =~= views(exts@));
    r
}

/// The file names to look for in each `PATH` folder: the name itself when it already
/// has a known extension, otherwise the candidates (see `candidate_names`).
pub fn names_to_try(name: &str, has_ext: bool, candidates: Vec<String>) -> (r: Vec<String>)
    ensures
        has_ext ==> views(r@) == seq![name@],
        !has_ext ==> r == candidates,
{
    if has_ext {
        let mut r: Vec<String> = Vec::new();
        r.push(owned(name));
        assert(views(r@) =~= seq![name@]);
        r
    } else {
        candidates
    }
}

/// Which of the names to try a `PATH` folder yields: the first that exists there, if
/// any (`exists` says, in order, whether each does).
pub fn first_existing(exists: &Vec<bool>) -> (r: Option<usize>)
    ensures
        r matches Some(i) ==> i < exists@.len() && exists@[i as int] && forall|j: int|
            0 <= j < i ==> !exists@[j],
        r is None ==> forall|j: int| 0 <= j < exists@.len() ==> !exists@[j],
{
    let mut i: usize = 0;
    while i < exists.len()
        invariant
            i <= exists@.len(),
            forall|j: int| 0 <= j < i ==> !exists@[j],
        decreases exists@.len() - i,
    {
        if exists[i] {
            return Some(i);
        }
        i = i + 1;
    }
    None
}

// ─── TCP and UDP tables ─────────────────────────────────

/// The kind of table `GetExtendedTcpTable` or `GetExtendedUdpTable` fills.
#[derive(Clone, Copy)]
pub enum TableKind {
    /// `MIB_TCPTABLE_OWNER_PID`.
    Tcp4,
    /// `MIB_UDPTABLE_OWNER_PID`.
    Udp4,
    /// `MIB_TCP6TABLE_OWNER_PID`.
    Tcp6,
    /// `MIB_UDP6TABLE_OWNER_PID`.
    Udp6,
}

/// The size in bytes of a row of the table.
pub open spec fn row_size(k: TableKind) -> int {
    match k {
        TableKind::Tcp4 => 24,
        TableKind::Udp4 => 12,
        TableKind::Tcp6 => 56,
        TableKind::Udp6 => 28,
    }
}

/// The offsets in a row of the local address, the local port and the owning PID.
pub open spec fn row_offsets(k: TableKind) -> (int, int, int) {
    match k {
        TableKind::Tcp4 => (4, 8, 20),
        TableKind::Udp4 => (0, 4, 8),
        TableKind::Tcp6 => (0, 20, 52),
        TableKind::Udp6 => (0, 20, 24),
    }
}

/// A field of a `MIB_*ROW_OWNER_PID` row.
pub enum RowField {
    State,
    LocalAddr,
    LocalScopeId,
    LocalPort,
    RemoteAddr,
    RemoteScopeId,
    RemotePort,
    OwningPid,
}

/// The fields of a row in the order Win32 declares them, each with its size in bytes
/// (`DWORD`s and 16-byte `UCHAR` addresses, with no padding between them).
pub open spec fn row_fields(k: TableKind) -> Seq<(RowField, int)> {
    match k {
        TableKind::Tcp4 => seq![
            (RowField::State, 4),
            (RowField::LocalAddr, 4),
            (RowField::LocalPort, 4),
            (RowField::RemoteAddr, 4),
            (RowField::RemotePort, 4),
            (RowField::OwningPid, 4),
        ],
        TableKind::Udp4 => seq![
            (RowField::LocalAddr, 4),
            (RowField::LocalPort, 4),
            (RowField::OwningPid, 4),
        ],
        TableKind::Tcp6 => seq![
            (RowField::LocalAddr, 16),
            (RowField::LocalScopeId, 4),
            (RowField::LocalPort, 4),
            (RowField::RemoteAddr, 16),
            (RowField::RemoteScopeId, 4),
            (RowField::RemotePort, 4),
            (RowField::State, 4),
            (RowField::OwningPid, 4),
        ],
        TableKind::Udp6 => seq![
            (RowField::LocalAddr, 16),
            (RowField::LocalScopeId, 4),
            (RowField::LocalPort, 4),
            (RowField::OwningPid, 4),
        ],
    }
}

/// Where a field starts in a row: the sizes of the fields declared before it, added up.
pub open spec fn field_offset(fs: Seq<(RowField, int)>, f: RowField) -> int
    decreases fs.len(),
{
    if fs.len() == 0 || fs[0].0 == f {
        0
    } else {
        fs[0].1 + field_offset(fs.drop_first(), f)
    }
}

/// The size of a row: the sizes of all its fields added up.
pub open spec fn fields_size(fs: Seq<(RowField, int)>) -> int
    decreases fs.len(),
{
    if fs.len() == 0 {
        0
    } else {
        fs[0].1 + fields_size(fs.drop_first())
    }
}

/// The rows are read where Win32 puts their fields: each row's size is the size of its
/// declared fields, and the local address, local port and owning PID are read at the
/// offsets their declarations give (in `MIB_TCP6ROW_OWNER_PID` the PID comes after the
/// state, at byte 52).
pub proof fn lemma_row_layout(k: TableKind)
    ensures
        row_size(k) == fields_size(row_fields(k)),
        row_offsets(k) == (
            field_offset(row_fields(k), RowField::LocalAddr),
            field_offset(row_fields(k), RowField::LocalPort),
            field_offset(row_fields(k), RowField::OwningPid),
        ),
{
    reveal_with_fuel(field_offset, 9);
    reveal_with_fuel(fields_size, 9);
    let fs = row_fields(k);
    assert(fs.len() <= 8);
    assert forall|m: int| 0 <= m <= fs.len() implies #[trigger] fs.skip(m).len() == fs.len() - m by {}
    match k {
        TableKind::Tcp4 => {
            assert(fs.drop_first() =~= fs.skip(1));
            assert(fs.skip(1).drop_first() =~= fs.skip(2));
            assert(fs.skip(2).drop_first() =~= fs.skip(3));
            assert(fs.skip(3).drop_first() =~= fs.skip(4));
            assert(fs.skip(4).drop_first() =~= fs.skip(5));
            assert(fs.skip(5).drop_first() =~= fs.skip(6));
        },
        TableKind::Udp4 => {
            assert(fs.drop_first() =~= fs.skip(1));
            assert(fs.skip(1).drop_first() =~= fs.skip(2));
            assert(fs.skip(2).drop_first() =~= fs.skip(3));
        },
        TableKind::Tcp6 => {
            assert(fs.drop_first() =~= fs.skip(1));
            assert(fs.skip(1).drop_first() =~= fs.skip(2));
            assert(fs.skip(2).drop_first() =~= fs.skip(3));
            assert(fs.skip(3).drop_first() =~= fs.skip(4));
            assert(fs.skip(4).drop_first() =~= fs.skip(5));
            assert(fs.skip(5).drop_first() =~= fs.skip(6));
            assert(fs.skip(6).drop_first() =~= fs.skip(7));
            assert(fs.skip(7).drop_first() =~= fs.skip(8));
        },
        TableKind::Udp6 => {
            assert(fs.drop_first() =~= fs.skip(1));
            assert(fs.skip(1).drop_first() =~= fs.skip(2));
            assert(fs.skip(2).drop_first() =~= fs.skip(3));
            assert(fs.skip(3).drop_first() =~= fs.skip(4));
        },
    }
}

/// The `u32` stored at `at` (Windows stores it least significant byte first).
pub open spec fn le_u32(b: Seq<u8>, at: int) -> u32 {
    (b[at] + b[at + 1] * 256 + b[at + 2] * 65536 + b[at + 3] * 16777216) as u32
}

/// The number of rows read from a table buffer: the count in its first four bytes, or
/// as many whole rows as follow it if there are fewer.
pub open spec fn rows_in(b: Seq<u8>, k: TableKind) -> int {
    if b.len() < 4 {
        0
    } else {
        let fit = (b.len() - 4) / row_size(k);
        if le_u32(b, 0) < fit {
            le_u32(b, 0) as int
        } else {
            fit
        }
    }
}

/// Where row `i` starts.
pub open spec fn row_start(k: TableKind, i: int) -> int {
    4 + i * row_size(k)
}

fn read_le_u32(b: &[u8], at: usize) -> (v: u32)
    requires
        at + 4 <= b@.len(),
    ensures
        v == le_u32(b@, at as int),
{
    let x0 = b[at] as u32;
    let x1 = b[at + 1] as u32;
    let x2 = b[at + 2] as u32;
    let x3 = b[at + 3] as u32;
    assert(x0 + x1 * 256 + x2 * 65536 + x3 * 16777216 <= 0xFFFF_FFFF) by (nonlinear_arith)
        requires
            x0 < 256,
            x1 < 256,
            x2 < 256,
            x3 < 256,
    ;
    x0 + x1 * 256 + x2 * 65536 + x3 * 16777216
}

fn row_layout(k: TableKind) -> (r: (usize, usize, usize, usize))
    ensures
        r.0 == row_size(k),
        (r.1 as int, r.2 as int, r.3 as int) == row_offsets(k),
        r.1 + 4 <= r.0,
        r.2 + 4 <= r.0,
        r.3 + 4 <= r.0,
        12 <= r.0 <= 56,
{
    match k {
        TableKind::Tcp4 => (24, 4, 8, 20),
        TableKind::Udp4 => (12, 0, 4, 8),
        TableKind::Tcp6 => (56, 0, 20, 52),
        TableKind::Udp6 => (28, 0, 20, 24),
    }
}

fn table_row_count(buf: &[u8], size: usize) -> (n: usize)
    requires
        12 <= size <= 56,
    ensures
        buf@.len() < 4 ==> n == 0,
        buf@.len() >= 4 ==> n == (if le_u32(buf@, 0) < (buf@.len() - 4) / (size as int) {
            le_u32(buf@, 0) as int
        } else {
            (buf@.len() - 4) / (size as int)
        }),
        4 + n * size <= buf@.len() || n == 0,
{
    if buf.len() < 4 {
        return 0;
    }
    let count = read_le_u32(buf, 0) as usize;
    let fit = (buf.len() - 4) / size;
    assert(4 + fit * size <= buf@.len()) by (nonlinear_arith)
        requires
            fit == (buf@.len() - 4) / (size as int),
            size > 0,
            buf@.len() >= 4,
    ;
    if count < fit {
        assert(4 + count * size <= buf@.len()) by (nonlinear_arith)
            requires
                count < fit,
                4 + fit * size <= buf@.len(),
        ;
        count
    } else {
        fit
    }
}

/// The IPv4 rows of a TCP or UDP table buffer, as the Win32 call filled it: each row's
/// local address, local port and owning PID.
pub fn parse_v4_table(buf: &[u8], tcp: bool) -> (r: Vec<Ipv4Row>)
    ensures
        ({
            let k = if tcp { TableKind::Tcp4 } else { TableKind::Udp4 };
            &&& r@.len() == rows_in(buf@, k)
            &&& forall|i: int|
                0 <= i < r@.len() ==> {
                    let o = row_start(k, i);
                    &&& (#[trigger] r@[i]).local_addr == le_u32(buf@, o + row_offsets(k).0)
                    &&& r@[i].local_port == le_u32(buf@, o + row_offsets(k).1)
                    &&& r@[i].owning_pid == le_u32(buf@, o + row_offsets(k).2)
                }
        }),
{
    let k = if tcp { TableKind::Tcp4 } else { TableKind::Udp4 };
    let (size, addr_at, port_at, pid_at) = row_layout(k);
    let n = table_row_count(buf, size);
    let total = buf.len();
    let mut r: Vec<Ipv4Row> = Vec::new();
    let mut i: usize = 0;
    let mut o: usize = 4;
    while i < n
        invariant
            i <= n,
            total == buf@.len(),
            n == rows_in(buf@, k),
            4 + n * size <= buf@.len() || n == 0,
            size == row_size(k),
            12 <= size <= 56,
            addr_at + 4 <= size,
            port_at + 4 <= size,
            pid_at + 4 <= size,
            (addr_at as int, port_at as int, pid_at as int) == row_offsets(k),
            o == row_start(k, i as int),
            r@.len() == i,
            forall|j: int|
                0 <= j < i ==> {
                    let oj = row_start(k, j);
                    &&& (#[trigger] r@[j]).local_addr == le_u32(buf@, oj + row_offsets(k).0)
                    &&& r@[j].local_port == le_u32(buf@, oj + row_offsets(k).1)
                    &&& r@[j].owning_pid == le_u32(buf@, oj + row_offsets(k).2)
                },
        decreases n - i,
    {
        assert(4 + n * size <= buf@.len());
        assert(o + size <= buf@.len()) by (nonlinear_arith)
            requires
                i < n,
                4 + n * size <= buf@.len(),
                o == 4 + i * size,
        ;
        let row = Ipv4Row {
            local_addr: read_le_u32(buf, o + addr_at),
            local_port: read_le_u32(buf, o + port_at),
            owning_pid: read_le_u32(buf, o + pid_at),
        };
        r.push(row);
        assert(row_start(k, i + 1) == o + size) by (nonlinear_arith)
            requires
                o == 4 + i * size,
                row_start(k, i + 1) == 4 + (i + 1) * size,
        ;
        o = o + size;
        i = i + 1;
    }
    r
}

/// The IPv6 rows of a TCP or UDP table buffer, as the Win32 call filled it: each row's
/// local address, local port and owning PID.
pub fn parse_v6_table(buf: &[u8], tcp: bool) -> (r: Vec<Ipv6Row>)
    ensures
        ({
            let k = if tcp { TableKind::Tcp6 } else { TableKind::Udp6 };
            &&& r@.len() == rows_in(buf@, k)
            &&& forall|i: int|
                0 <= i < r@.len() ==> {
                    let o = row_start(k, i);
                    &&& (#[trigger] r@[i]).local_addr@ == buf@.subrange(o, o + 16)
                    &&& r@[i].local_port == le_u32(buf@, o + row_offsets(k).1)
                    &&& r@[i].owning_pid == le_u32(buf@, o + row_offsets(k).2)
                }
        }),
{
    let k = if tcp { TableKind::Tcp6 } else { TableKind::Udp6 };
    let (size, _, port_at, pid_at) = row_layout(k);
    let n = table_row_count(buf, size);
    let total = buf.len();
    let mut r: Vec<Ipv6Row> = Vec::new();
    let mut i: usize = 0;
    let mut o: usize = 4;
    while i < n
        invariant
            i <= n,
            total == buf@.len(),
            n == rows_in(buf@, k),
            4 + n * size <= buf@.len() || n == 0,
            size == row_size(k),
            28 <= size <= 56,
            port_at + 4 <= size,
            pid_at + 4 <= size,
            (port_at as int, pid_at as int) == (row_offsets(k).1, row_offsets(k).2),
            o == row_start(k, i as int),
            r@.len() == i,
            forall|j: int|
                0 <= j < i ==> {
                    let oj = row_start(k, j);
                    &&& (#[trigger] r@[j]).local_addr@ == buf@.subrange(oj, oj + 16)
                    &&& r@[j].local_port == le_u32(buf@, oj + row_offsets(k).1)
                    &&& r@[j].owning_pid == le_u32(buf@, oj + row_offsets(k).2)
                },
        decreases n - i,
    {
        assert(4 + n * size <= buf@.len());
        assert(o + size <= buf@.len()) by (nonlinear_arith)
            requires
                i < n,
                4 + n * size <= buf@.len(),
                o == 4 + i * size,
        ;
        let mut addr: [u8; 16] = [0u8; 16];
        let mut j: usize = 0;
        while j < 16
            invariant
                j <= 16,
                total == buf@.len(),
                o + 16 <= buf@.len(),
                addr@.len() == 16,
                forall|m: int| 0 <= m < j ==> addr@[m] == buf@[o + m],
            decreases 16 - j,
        {
            addr[j] = buf[o + j];
            j = j + 1;
        }
        assert(addr@ =~= buf@.subrange(o as int, o + 16));
        let row = Ipv6Row {
            local_addr: addr,
            local_port: read_le_u32(buf, o + port_at),
            owning_pid: read_le_u32(buf, o + pid_at),
        };
        r.push(row);
        assert(row_start(k, i + 1) == o + size) by (nonlinear_arith)
            requires
                o == 4 + i * size,
                row_start(k, i + 1) == 4 + (i + 1) * size,
        ;
        o = o + size;
        i = i + 1;
    }
    r
}

/// The character sequences and numbers of a binding, leaving out the process details.
pub open spec fn socket_view(b: PortBinding) -> (u32, u16, Seq<char>, Seq<char>) {
    (b.pid, b.port, b.protocol@, b.local_addr@)
}

/// The bindings, each as `socket_view`.
pub open spec fn socket_views(v: Seq<PortBinding>) -> Seq<(u32, u16, Seq<char>, Seq<char>)> {
    v.map_values(|b: PortBinding| socket_view(b))
}

/// The IPv4 rows whose port (as read, given in `ports`) is `port`, as
/// `(pid, port, protocol, "a.b.c.d:port")`.
pub open spec fn v4_sockets(rows: Seq<Ipv4Row>, ports: Seq<u16>, port: u16, proto: Seq<char>) -> Seq<
    (u32, u16, Seq<char>, Seq<char>),
>
    decreases rows.len(),
{
    if rows.len() == 0 {
        seq![]
    } else {
        let rest = v4_sockets(rows.drop_last(), ports, port, proto);
        let r = rows.last();
        if ports[rows.len() - 1] == port {
            rest.push(
                (r.owning_pid, port, proto, ipv4_text(r.local_addr as nat) + seq![':'] + dec_chars(
                    port as nat,
                )),
            )
        } else {
            rest
        }
    }
}

/// The IPv6 rows whose port (as read, given in `ports`) is `port`, as
/// `(pid, port, protocol, "[addr]:port")`.
pub open spec fn v6_sockets(rows: Seq<Ipv6Row>, ports: Seq<u16>, port: u16, proto: Seq<char>) -> Seq<
    (u32, u16, Seq<char>, Seq<char>),
>
    decreases rows.len(),
{
    if rows.len() == 0 {
        seq![]
    } else {
        let rest = v6_sockets(rows.drop_last(), ports, port, proto);
        let r = rows.last();
        if ports[rows.len() - 1] == port {
            rest.push(
                (r.owning_pid, port, proto, seq!['['] + ipv6_text(r.local_addr@) + seq![']', ':']
                    + dec_chars(port as nat)),
            )
        } else {
            rest
        }
    }
}

/// A binding found in a table; its process details are left empty for the caller to
/// fill with `get_process_name_and_path`.
fn bare_binding(pid: u32, port: u16, protocol: &str, local_addr: String) -> (b: PortBinding)
    ensures
        socket_view(b) == (pid, port, protocol@, local_addr@),
        b.process_name@ == Seq::<char>::empty(),
        b.exe_path is None,
        b.cmd_line is None,
{
    PortBinding {
        pid,
        port,
        protocol: owned(protocol),
        local_addr,
        process_name: String::new(),
        exe_path: None,
        cmd_line: None,
    }
}

/// The bindings of the IPv4 rows whose port, as read into `ports`, is `port`.
pub fn v4_bindings(rows: &[Ipv4Row], ports: &[u16], port: u16, protocol: &str) -> (r: Vec<
    PortBinding,
>)
    requires
        ports@.len() == rows@.len(),
    ensures
        socket_views(r@) == v4_sockets(rows@, ports@, port, protocol@),
        all_bare(r@),
{
    let mut r: Vec<PortBinding> = Vec::new();
    let mut i: usize = 0;
    while i < rows.len()
        invariant
            i <= rows@.len(),
            ports@.len() == rows@.len(),
            socket_views(r@) == v4_sockets(rows@.take(i as int), ports@, port, protocol@),
            all_bare(r@),
        decreases rows@.len() - i,
    {
        let row = rows[i];
        assert(rows@.take(i + 1).drop_last() =~= rows@.take(i as int));
        assert(rows@.take(i + 1).last() == row);
        if ports[i] == port {
            let addr = v4_endpoint(row.local_addr, port);
            let b = bare_binding(row.owning_pid, port, protocol, addr);
            let ghost before = r@;
            r.push(b);
            assert(socket_views(r@) =~= socket_views(before).push(socket_view(b)));
        }
        i = i + 1;
    }
    assert(rows@.take(i as int) =~= rows@);
    r
}

/// The bindings of the IPv6 rows whose port, as read into `ports`, is `port`.
pub fn v6_bindings(rows: &[Ipv6Row], ports: &[u16], port: u16, protocol: &str) -> (r: Vec<
    PortBinding,
>)
    requires
        ports@.len() == rows@.len(),
    ensures
        socket_views(r@) == v6_sockets(rows@, ports@, port, protocol@),
        all_bare(r@),
{
    let mut r: Vec<PortBinding> = Vec::new();
    let mut i: usize = 0;
    while i < rows.len()
        invariant
            i <= rows@.len(),
            ports@.len() == rows@.len(),
            socket_views(r@) == v6_sockets(rows@.take(i as int), ports@, port, protocol@),
            all_bare(r@),
        decreases rows@.len() - i,
    {
        let row = rows[i];
        assert(rows@.take(i + 1).drop_last() =~= rows@.take(i as int));
        assert(rows@.take(i + 1).last() == row);
        if ports[i] == port {
            let addr = v6_endpoint(&row.local_addr, port);
            let b = bare_binding(row.owning_pid, port, protocol, addr);
            let ghost before = r@;
            r.push(b);
            assert(socket_views(r@) =~= socket_views(before).push(socket_view(b)));
        }
        i = i + 1;
    }
    assert(rows@.take(i as int) =~= rows@);
    r
}

/// A port field read in network byte order: its low 16 bits, with the two bytes
/// exchanged when this machine stores numbers least significant byte first.
pub open spec fn port_read(field: u32, swapped: bool) -> u16 {
    let n = (field % 65536) as u16;
    if swapped {
        swap16(n)
    } else {
        n
    }
}

/// The port fields, each read the same way.
pub open spec fn read_ports(fields: Seq<u32>, swapped: bool) -> Seq<u16> {
    fields.map_values(|f: u32| port_read(f, swapped))
}

/// Whether `u16::to_be` exchanges the two bytes of a number on this machine. Which it
/// does depends on the machine, so nothing is stated of the answer; asking once lets
/// every row of a table be read the same way.
fn network_order_swapped() -> bool {
    u16_to_be(1) != 1
}

/// Reads a port field: its low 16 bits, with the bytes exchanged when `swapped`.
pub fn port_in_order(field: u32, swapped: bool) -> (p: u16)
    ensures
        p == port_read(field, swapped),
{
    let n = (field & 0xFFFF) as u16;
    assert(field & 0xFFFF == field % 65536) by (bit_vector);
    if swapped {
        assert(((n << 8u16) | (n >> 8u16)) == ((n % 256) * 256 + n / 256) as u16) by (bit_vector);
        (n << 8) | (n >> 8)
    } else {
        n
    }
}

/// The port fields of IPv4 rows.
pub open spec fn v4_port_fields(rows: Seq<Ipv4Row>) -> Seq<u32> {
    rows.map_values(|r: Ipv4Row| r.local_port)
}

/// The port fields of IPv6 rows.
pub open spec fn v6_port_fields(rows: Seq<Ipv6Row>) -> Seq<u32> {
    rows.map_values(|r: Ipv6Row| r.local_port)
}

fn read_v4_ports(rows: &[Ipv4Row], swapped: bool) -> (p: Vec<u16>)
    ensures
        p@ == read_ports(v4_port_fields(rows@), swapped),
{
    let mut p: Vec<u16> = Vec::new();
    let mut i: usize = 0;
    while i < rows.len()
        invariant
            i <= rows@.len(),
            p@ == read_ports(v4_port_fields(rows@.take(i as int)), swapped),
        decreases rows@.len() - i,
    {
        p.push(port_in_order(rows[i].local_port, swapped));
        assert(v4_port_fields(rows@.take(i + 1)) =~= v4_port_fields(rows@.take(i as int)).push(
            rows@[i as int].local_port,
        ));
        i = i + 1;
        assert(p@ =~= read_ports(v4_port_fields(rows@.take(i as int)), swapped));
    }
    assert(rows@.take(i as int) =~= rows@);
    p
}

fn read_v6_ports(rows: &[Ipv6Row], swapped: bool) -> (p: Vec<u16>)
    ensures
        p@ == read_ports(v6_port_fields(rows@), swapped),
{
    let mut p: Vec<u16> = Vec::new();
    let mut i: usize = 0;
    while i < rows.len()
        invariant
            i <= rows@.len(),
            p@ == read_ports(v6_port_fields(rows@.take(i as int)), swapped),
        decreases rows@.len() - i,
    {
        p.push(port_in_order(rows[i].local_port, swapped));
        assert(v6_port_fields(rows@.take(i + 1)) =~= v6_port_fields(rows@.take(i as int)).push(
            rows@[i as int].local_port,
        ));
        i = i + 1;
        assert(p@ =~= read_ports(v6_port_fields(rows@.take(i as int)), swapped));
    }
    assert(rows@.take(i as int) =~= rows@);
    p
}

/// No process details have been filled in yet.
pub open spec fn all_bare(v: Seq<PortBinding>) -> bool {
    forall|i: int|
        0 <= i < v.len() ==> (#[trigger] v[i]).process_name@ == Seq::<char>::empty()
            && v[i].exe_path is None && v[i].cmd_line is None
}

/// The table bindings for `port`: the IPv4 rows then the IPv6 rows whose port, read
/// in network byte order, is `port`.
pub open spec fn table_sockets(
    v4: Seq<Ipv4Row>,
    v6: Seq<Ipv6Row>,
    p4: Seq<u16>,
    p6: Seq<u16>,
    port: u16,
    proto: Seq<char>,
) -> Seq<(u32, u16, Seq<char>, Seq<char>)> {
    v4_sockets(v4, p4, port, proto) + v6_sockets(v6, p6, port, proto)
}

impl WindowsPlatform {
    /// The sockets of a table bound to `port`, IPv4 rows first, each port field read the
    /// way `swapped` says; the process details are left empty.
    pub fn table_bindings(
        v4: &[Ipv4Row],
        v6: &[Ipv6Row],
        port: u16,
        protocol: &str,
        swapped: bool,
    ) -> (r: Vec<PortBinding>)
        ensures
            socket_views(r@) == table_sockets(
                v4@,
                v6@,
                read_ports(v4_port_fields(v4@), swapped),
                read_ports(v6_port_fields(v6@), swapped),
                port,
                protocol@,
            ),
            all_bare(r@),
    {
        let p4 = read_v4_ports(v4, swapped);
        let p6 = read_v6_ports(v6, swapped);
        let mut a = v4_bindings(v4, p4.as_slice(), port, protocol);
        let mut b = v6_bindings(v6, p6.as_slice(), port, protocol);
        let ghost sa = a@;
        let ghost sb = b@;
        a.append(&mut b);
        assert(socket_views(a@) =~= socket_views(sa) + socket_views(sb));
        assert(socket_views(a@) == table_sockets(v4@, v6@, p4@, p6@, port, protocol@));
        assert forall|i: int| 0 <= i < a@.len() implies (#[trigger] a@[i]).process_name@
            == Seq::<char>::empty() && a@[i].exe_path is None && a@[i].cmd_line is None by {
            if i < sa.len() {
                assert(a@[i] == sa[i]);
            } else {
                assert(a@[i] == sb[i - sa.len()]);
            }
        }
        a
    }

    fn find_by_port(v4: &[Ipv4Row], v6: &[Ipv6Row], port: u16, protocol: &str) -> (r: Vec<
        PortBinding,
    >)
        ensures
            exists|swapped: bool|
                socket_views(r@) == #[trigger] table_sockets(
                    v4@,
                    v6@,
                    read_ports(v4_port_fields(v4@), swapped),
                    read_ports(v6_port_fields(v6@), swapped),
                    port,
                    protocol@,
                ),
            all_bare(r@),
    {
        let swapped = network_order_swapped();
        Self::table_bindings(v4, v6, port, protocol, swapped)
    }

    /// The TCP sockets bound to `port`, IPv4 rows first, from the rows of the two TCP
    /// tables. The process details are left for `get_process_name_and_path`.
    pub fn find_tcp_by_port(&self, v4: &[Ipv4Row], v6: &[Ipv6Row], port: u16) -> (r: Vec<
        PortBinding,
    >)
        ensures
            exists|swapped: bool|
                socket_views(r@) == #[trigger] table_sockets(
                    v4@,
                    v6@,
                    read_ports(v4_port_fields(v4@), swapped),
                    read_ports(v6_port_fields(v6@), swapped),
                    port,
                    "TCP"@,
                ),
            all_bare(r@),
    {
        Self::find_by_port(v4, v6, port, "TCP")
    }

    /// The UDP sockets bound to `port`, IPv4 rows first, from the rows of the two UDP
    /// tables. The process details are left for `get_process_name_and_path`.
    pub fn find_udp_by_port(&self, v4: &[Ipv4Row], v6: &[Ipv6Row], port: u16) -> (r: Vec<
        PortBinding,
    >)
        ensures
            exists|swapped: bool|
                socket_views(r@) == #[trigger] table_sockets(
                    v4@,
                    v6@,
                    read_ports(v4_port_fields(v4@), swapped),
                    read_ports(v6_port_fields(v6@), swapped),
                    port,
                    "UDP"@,
                ),
            all_bare(r@),
    {
        Self::find_by_port(v4, v6, port, "UDP")
    }

    /// The last step of a port lookup: the TCP then UDP bindings, sorted by PID then
    /// protocol, with each binding of the same PID and protocol as the one kept before
    /// it dropped.
    pub fn finish_port_lookup(tcp: Vec<PortBinding>, udp: Vec<PortBinding>) -> (r: Vec<
        PortBinding,
    >)
        ensures
            r@ == dedup_bindings(
                sort_bindings(tcp@ + udp@, BindingOrder::PidThenProtocol),
                SameBinding::PidProtocol,
            ),
    {
        let mut all = tcp;
        let mut u = udp;
        let ghost st = all@;
        let ghost su = u@;
        all.append(&mut u);
        assert(all@ =~= st + su);
        let s = sort_port_bindings(all, BindingOrder::PidThenProtocol);
        dedup_port_bindings(s, SameBinding::PidProtocol)
    }

    /// The ports a process holds, from all table bindings (see `ports_of_process`).
    pub fn find_ports_by_pid(&self, all: Vec<PortBinding>, pid: u32) -> (r: Vec<PortBinding>)
        ensures
            r@ == dedup_bindings(
                sort_bindings(all@.filter(|b: PortBinding| b.pid == pid), BindingOrder::PortThenProtocol),
                SameBinding::PortProtocol,
            ),
    {
        ports_of_process(all, pid)
    }
}

/// Get process name and exe path by PID (helper for port lookup): the file name of the
/// executable, or `[PID n]`, together with the path and command line given.
pub fn get_process_name_and_path(pid: u32, exe_path: Option<String>, cmd_line: Option<String>) -> (r:
    (String, Option<String>, Option<String>))
    ensures
        r.1 == exe_path,
        r.2 == cmd_line,
        (exe_path matches Some(e) && windows_file_name_of(e@) is Some) ==> r.0@
            == windows_file_name_of(exe_path.unwrap()@).unwrap(),
        (exe_path is None || windows_file_name_of(exe_path.unwrap()@) is None) ==> r.0@
            == "[PID "@ + dec_chars(pid as nat) + "]"@,
{
    let name = match &exe_path {
        Some(e) => windows_file_name(e.as_str()),
        None => None,
    };
    let name = match name {
        Some(n) => n,
        None => {
            let mut s = owned("[PID ");
            push_decimal(&mut s, pid as u64);
            push_str(&mut s, "]");
            s
        },
    };
    (name, exe_path, cmd_line)
}

} // verus!
