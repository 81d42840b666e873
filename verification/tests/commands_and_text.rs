use whouse::commands::{
    after_copy, after_rename, check_report, cmd_check, cmd_delete, cmd_port, cmd_rename,
    cmd_where, guard_step, parse_command, paths_equivalent, port_report, where_report,
    CheckReport, Command, CopyOutcome, GuardStep, PortReport, RenameNext, WhereReport,
};
use whouse::console::{color_attribute, colored, green, red, reset, yellow};
use whouse::paths::{file_name, split_chars, windows_file_name};
use whouse::platform::{Platform, PortBinding, ProcessInfo};
use whouse::proc::{
    cmd_kill, cmd_ps, display_name, listed_process, name_kill_report, pid_kill_report,
    ports_text, ps_from_matches, ps_report, truncate_display, KillReport, PsReport,
};
use whouse::text::{contains_chars, join_strings, split_lines, split_words, trim_str};

struct Fake {
    in_use: Result<bool, String>,
    procs: Vec<u32>,
    fail_kill: Vec<u32>,
    ports: Result<usize, String>,
}

fn info(pid: u32) -> ProcessInfo {
    ProcessInfo {
        pid,
        name: format!("p{pid}.exe"),
        exe_path: Some(format!("/bin/p{pid}")),
        cmd_line: None,
        parent_pid: None,
        thread_count: None,
    }
}

impl Platform for Fake {
    fn check_file_in_use(&self, _path: &str) -> Result<bool, String> {
        self.in_use.clone()
    }
    fn find_locking_processes(&self, _path: &str) -> Result<Vec<ProcessInfo>, String> {
        Ok(self.procs.iter().map(|p| info(*p)).collect())
    }
    fn find_processes(&self, name: &str) -> Vec<ProcessInfo> {
        if name == "none" { vec![] } else { self.procs.iter().map(|p| info(*p)).collect() }
    }
    fn get_process_info(&self, pid: u32) -> Option<ProcessInfo> {
        if self.procs.contains(&pid) { Some(info(pid)) } else { None }
    }
    fn kill_process(&self, pid: u32) -> Result<(), String> {
        if self.fail_kill.contains(&pid) { Err("denied".into()) } else { Ok(()) }
    }
    fn find_in_path(&self, name: &str) -> Vec<String> {
        if name == "node" { vec!["/usr/bin/node".into()] } else { vec![] }
    }
    fn find_ports_by_pid(&self, pid: u32) -> Vec<PortBinding> {
        let b = |port: u16, proto: &str| PortBinding {
            pid,
            port,
            protocol: proto.into(),
            local_addr: String::new(),
            process_name: String::new(),
            exe_path: None,
            cmd_line: None,
        };
        if pid == 1 { vec![b(53, "TCP"), b(53, "UDP"), b(8080, "TCP")] } else { vec![] }
    }
    fn find_process_by_port(&self, port: u16) -> Result<Vec<PortBinding>, String> {
        match &self.ports {
            Ok(n) => Ok((0..*n)
                .map(|i| PortBinding {
                    pid: i as u32,
                    port,
                    protocol: "TCP".into(),
                    local_addr: String::new(),
                    process_name: String::new(),
                    exe_path: None,
                    cmd_line: None,
                })
                .collect()),
            Err(e) => Err(e.clone()),
        }
    }
}

fn fake() -> Fake {
    Fake { in_use: Ok(false), procs: vec![1, 2], fail_kill: vec![2], ports: Ok(0) }
}

fn args(v: &[&str]) -> Vec<String> {
    v.iter().map(|s| s.to_string()).collect()
}

#[test]
fn command_line() {
    assert!(matches!(parse_command(&args(&["w", "-h"])), Command::Help));
    assert!(matches!(parse_command(&args(&["w", "--help"])), Command::Help));
    assert!(matches!(parse_command(&args(&["w", "check"])), Command::Usage));
    assert!(matches!(parse_command(&args(&["w"])), Command::Usage));
    assert!(matches!(parse_command(&args(&["w", "frob", "x"])), Command::Usage));
    assert!(matches!(parse_command(&args(&["w", "检查", "a.txt"])), Command::Check { path } if path == "a.txt"));
    assert!(matches!(parse_command(&args(&["w", "delete", "b"])), Command::Delete { path } if path == "b"));
    assert!(matches!(parse_command(&args(&["w", "进程", "java"])), Command::Ps { name } if name == "java"));
    assert!(matches!(parse_command(&args(&["w", "kill", "61928"])), Command::Kill { target } if target == "61928"));
    assert!(matches!(parse_command(&args(&["w", "端口", "3000"])), Command::Port { port } if port == "3000"));
    assert!(matches!(parse_command(&args(&["w", "which", "node"])), Command::Where { name } if name == "node"));
    assert!(matches!(parse_command(&args(&["w", "move", "a"])), Command::RenameUsage));
    assert!(matches!(parse_command(&args(&["w", "重命名", "a", "b"])), Command::Rename { src, dst } if src == "a" && dst == "b"));
}

#[test]
fn check_reports_and_exit_codes() {
    let mut f = fake();
    let r = cmd_check(&f, "x");
    assert!(matches!(r, CheckReport::Free { ref path } if path == "x"));
    assert_eq!(r.exit_code(), 0);
    f.in_use = Ok(true);
    let r = cmd_check(&f, "x");
    assert!(matches!(r, CheckReport::InUse { ref locking, .. } if locking.as_ref().unwrap().len() == 2));
    assert_eq!(r.exit_code(), 1);
    f.in_use = Err("路径不存在: x".into());
    let r = cmd_check(&f, "x");
    assert!(matches!(r, CheckReport::Unknown { ref error } if error == "路径不存在: x"));
    assert_eq!(r.exit_code(), 2);
}

#[test]
fn delete_and_rename_guards() {
    let mut f = fake();
    let g = cmd_delete(&f, "x", false);
    assert!(matches!(g, GuardStep::NotFound { ref path } if path == "x"));
    assert_eq!(g.exit_code(), 2);
    let g = cmd_delete(&f, "x", true);
    assert!(matches!(g, GuardStep::Proceed));
    assert_eq!(g.exit_code(), 0);
    f.in_use = Ok(true);
    let g = cmd_rename(&f, "x", true);
    assert!(matches!(g, GuardStep::InUse { ref processes, .. } if processes.len() == 2));
    assert_eq!(g.exit_code(), 1);
    f.in_use = Err("e".into());
    let g = cmd_rename(&f, "x", true);
    assert!(matches!(g, GuardStep::CheckFailed { ref error } if error == "e"));
    assert_eq!(g.exit_code(), 2);
    assert!(matches!(after_rename(Ok(()), true), RenameNext::Moved));
    assert!(matches!(after_rename(Err("x".into()), true), RenameNext::CopyThenDelete { rename_error } if rename_error == "x"));
    assert!(matches!(after_rename(Err("x".into()), false), RenameNext::Failed { error } if error == "x"));
    assert!(matches!(after_copy("a".into(), Ok(())), CopyOutcome::Moved));
    assert!(matches!(after_copy("a".into(), Err("b".into())), CopyOutcome::Failed { rename_error, copy_error } if rename_error == "a" && copy_error == "b"));
}

#[test]
fn port_and_where() {
    let mut f = fake();
    let r = cmd_port(&f, "abc");
    assert!(matches!(r, PortReport::InvalidPort { ref text } if text == "abc"));
    assert_eq!(r.exit_code(), 2);
    assert!(matches!(cmd_port(&f, "70000"), PortReport::InvalidPort { .. }));
    let r = cmd_port(&f, "3000");
    assert!(matches!(r, PortReport::NoBinding { port: 3000 }));
    assert_eq!(r.exit_code(), 0);
    f.ports = Ok(2);
    assert!(matches!(cmd_port(&f, "3000"), PortReport::Bindings { port: 3000, ref bindings } if bindings.len() == 2));
    f.ports = Err("boom".into());
    let r = cmd_port(&f, "3000");
    assert!(matches!(r, PortReport::Failed { ref error } if error == "boom"));
    assert_eq!(r.exit_code(), 2);
    assert!(matches!(cmd_where(&f, "node"), WhereReport::Found { ref paths, .. } if paths.len() == 1));
    assert!(matches!(cmd_where(&f, "nope"), WhereReport::NotFound { ref name } if name == "nope"));
}

#[test]
fn kill_by_pid_or_name() {
    let f = fake();
    let r = cmd_kill(&f, "1");
    assert!(matches!(r, KillReport::Killed { pid: 1, ref name, .. } if name == "p1.exe"));
    assert_eq!(r.exit_code(), 0);
    let r = cmd_kill(&f, "2");
    assert!(matches!(r, KillReport::KillFailed { pid: 2, ref error } if error == "denied"));
    assert_eq!(r.exit_code(), 1);
    let r = cmd_kill(&f, "3");
    assert!(matches!(r, KillReport::NoSuchProcess { pid: 3 }));
    assert_eq!(r.exit_code(), 2);
    let r = cmd_kill(&f, "none");
    assert!(matches!(r, KillReport::NoMatch { ref query } if query == "none"));
    let r = cmd_kill(&f, "p");
    match r {
        KillReport::ByName { query, attempts, killed, failed } => {
            assert_eq!(query, "p");
            assert_eq!((killed, failed), (1, 1));
            assert!(attempts[0].killed && !attempts[1].killed);
        }
        _ => panic!("expected a kill by name"),
    }
    assert!(matches!(cmd_ps(&f, "none"), PsReport::NoMatch { .. }));
    match cmd_ps(&f, "p") {
        PsReport::Found { query, processes } => {
            assert_eq!(query, "p");
            assert_eq!(processes.len(), 2);
            assert_eq!(processes[0].info.pid, 1);
            assert_eq!(processes[0].ports, vec![53, 8080]);
            assert!(processes[1].ports.is_empty());
        }
        _ => panic!("expected processes"),
    }
}

#[test]
fn display_helpers() {
    assert_eq!(display_name("notepad.exe"), "notepad");
    assert_eq!(display_name("notepad.EXE"), "notepad.EXE");
    assert_eq!(display_name(".exe"), "");
    assert_eq!(display_name("java"), "java");
    assert_eq!(truncate_display("short", 150), "short");
    assert_eq!(truncate_display("abcdef", 3), "abc...");
    assert_eq!(truncate_display("abc", 3), "abc");
    assert_eq!(truncate_display("é", 2), "é");
    assert_eq!(truncate_display("aéb", 3), "aé...");
}

#[test]
fn console_colours() {
    assert_eq!(color_attribute(true, true, true, false), 7);
    assert_eq!(color_attribute(false, true, false, true), 10);
    assert_eq!(color_attribute(false, false, false, false), 0);
    assert_eq!(reset().attribute, 7);
    assert_eq!(reset().ansi, "\x1b[0m");
    assert_eq!(green().attribute, 10);
    assert_eq!(green().ansi, "\x1b[1;32m");
    assert_eq!(red().attribute, 12);
    assert_eq!(red().ansi, "\x1b[1;31m");
    assert_eq!(yellow().attribute, 14);
    assert_eq!(yellow().ansi, "\x1b[1;33m");
    assert_eq!(colored(&green(), "ok"), "\x1b[1;32mok\x1b[0m");
}

#[test]
fn text_helpers() {
    assert_eq!(trim_str(" \t a b \u{3000}\n"), "a b");
    assert_eq!(trim_str(""), "");
    let c: Vec<char> = "a\r\nb\n\nc\r".chars().collect();
    let ls: Vec<String> = split_lines(&c).iter().map(|l| l.iter().collect()).collect();
    assert_eq!(ls, vec!["a", "b", "", "c\r"]);
    let c: Vec<char> = "x\n".chars().collect();
    assert_eq!(split_lines(&c).len(), 1);
    let c: Vec<char> = "  a\u{a0}b  c ".chars().collect();
    let ws: Vec<String> = split_words(&c).iter().map(|l| l.iter().collect()).collect();
    assert_eq!(ws, vec!["a", "b", "c"]);
    let h: Vec<char> = "hello".chars().collect();
    let n: Vec<char> = "ll".chars().collect();
    assert!(contains_chars(&h, &n));
    assert!(contains_chars(&h, &[]));
    assert!(!contains_chars(&n, &h));
    assert_eq!(join_strings(&vec!["a".into(), "".into(), "b".into()], ":"), "a::b");
    assert_eq!(join_strings(&vec![], ":"), "");
    let p: Vec<char> = "a//b".chars().collect();
    assert_eq!(split_chars(&p, '/').len(), 3);
    assert!(paths_equivalent("C:\\Tools\\", "c:\\tools"));
    assert!(paths_equivalent("/opt/App", "/OPT/APP/"));
    assert!(paths_equivalent("/opt/app//", "/opt/app\\"));
    assert!(!paths_equivalent("/a/b", "/a/c"));
    // `.` and `..` pieces are read as the path text says
    assert!(paths_equivalent("/data/./logs", "/data/logs"));
    assert!(paths_equivalent("/data/tmp/../logs", "/data/logs"));
    assert!(paths_equivalent("C:\\Tools\\.\\bin", "c:/tools/bin/"));
    assert!(paths_equivalent("/..", "/"));
    assert!(!paths_equivalent("/data/../logs", "/data/logs"));
    assert!(!paths_equivalent("C:\\a", "D:\\a"));
}

#[test]
fn file_names() {
    assert_eq!(file_name("/usr/bin/node"), Some("node".to_string()));
    assert_eq!(file_name("a/b/"), Some("b".to_string()));
    assert_eq!(file_name("a/b/."), Some("b".to_string()));
    assert_eq!(file_name("/"), None);
    assert_eq!(file_name("a/.."), None);
    assert_eq!(file_name("."), None);
    assert_eq!(file_name(""), None);
    assert_eq!(file_name("x"), Some("x".to_string()));
    assert_eq!(windows_file_name("C:\\a\\b.exe"), Some("b.exe".to_string()));
    assert_eq!(windows_file_name("C:/a/b.exe"), Some("b.exe".to_string()));
    assert_eq!(windows_file_name("C:"), None);
    assert_eq!(windows_file_name("C:foo"), Some("foo".to_string()));
    // the server and share of a UNC path are its prefix, never its file name
    assert_eq!(windows_file_name("\\\\server\\share"), None);
    assert_eq!(windows_file_name("\\\\server\\share\\"), None);
    assert_eq!(windows_file_name("\\\\server"), None);
    assert_eq!(windows_file_name("\\\\server\\share\\bin\\a.exe"), Some("a.exe".to_string()));
    assert_eq!(windows_file_name("\\\\server\\share\\a.exe"), Some("a.exe".to_string()));
}

#[test]
fn reports_from_platform_answers() {
    let r = check_report("f", Ok(true), Err("权限不足".into()));
    assert!(matches!(r, CheckReport::InUse { ref path, locking: Err(ref e) } if path == "f" && e == "权限不足"));
    let r = check_report("f", Ok(false), Ok(vec![info(9)]));
    assert!(matches!(r, CheckReport::Free { ref path } if path == "f"));
    let r = check_report("f", Err("gone".into()), Ok(vec![]));
    assert!(matches!(r, CheckReport::Unknown { ref error } if error == "gone"));

    let g = guard_step("f", Ok(true), Err("no list".into()));
    assert!(matches!(g, GuardStep::InUse { ref path, ref processes } if path == "f" && processes.is_empty()));
    let g = guard_step("f", Ok(true), Ok(vec![info(4)]));
    assert!(matches!(g, GuardStep::InUse { ref processes, .. } if processes.len() == 1 && processes[0].pid == 4));
    assert!(matches!(guard_step("f", Ok(false), Ok(vec![])), GuardStep::Proceed));
    assert!(matches!(guard_step("f", Err("e".into()), Ok(vec![])), GuardStep::CheckFailed { ref error } if error == "e"));

    assert!(matches!(port_report(80, Ok(vec![])), PortReport::NoBinding { port: 80 }));
    assert!(matches!(port_report(80, Err("x".into())), PortReport::Failed { ref error } if error == "x"));
    assert!(matches!(where_report("gcc", vec![]), WhereReport::NotFound { ref name } if name == "gcc"));
    assert!(matches!(where_report("gcc", vec!["/usr/bin/gcc".into()]), WhereReport::Found { ref paths, .. } if paths[0] == "/usr/bin/gcc"));
    assert!(matches!(ps_report("q", vec![]), PsReport::NoMatch { ref query } if query == "q"));
    let listed = listed_process(info(7), &vec![]);
    assert!(matches!(ps_report("q", vec![listed]), PsReport::Found { ref processes, .. } if processes[0].info.pid == 7));
    assert_eq!(ports_text(&vec![8080, 8848]), "8080, 8848");
    assert_eq!(ports_text(&vec![22]), "22");
    assert_eq!(ports_text(&vec![]), "");

    let r = pid_kill_report(5, Some(info(5)), Ok(()));
    assert!(matches!(r, KillReport::Killed { pid: 5, ref name, exe_path: Some(ref e) } if name == "p5.exe" && e == "/bin/p5"));
    let r = pid_kill_report(5, Some(info(5)), Err("denied".into()));
    assert!(matches!(r, KillReport::KillFailed { pid: 5, ref error } if error == "denied"));
    assert!(matches!(pid_kill_report(5, None, Ok(())), KillReport::NoSuchProcess { pid: 5 }));
    assert!(matches!(name_kill_report("q", vec![], vec![]), KillReport::NoMatch { ref query } if query == "q"));
    match name_kill_report("q", vec![info(1), info(2), info(3)], vec![Ok(()), Err("no".into()), Ok(())]) {
        KillReport::ByName { query, attempts, killed, failed } => {
            assert_eq!(query, "q");
            let got: Vec<(u32, String, bool)> = attempts.iter().map(|a| (a.pid, a.name.clone(), a.killed)).collect();
            assert_eq!(got, vec![(1, "p1.exe".to_string(), true), (2, "p2.exe".to_string(), false), (3, "p3.exe".to_string(), true)]);
            assert_eq!((killed, failed), (2, 1));
        }
        _ => panic!("expected a kill by name"),
    }
    // a match without an outcome counts as failed
    match name_kill_report("q", vec![info(4)], vec![]) {
        KillReport::ByName { attempts, killed, failed, .. } => {
            assert!(!attempts[0].killed);
            assert_eq!((killed, failed), (0, 1));
        }
        _ => panic!("expected a kill by name"),
    }
    match ps_from_matches("q", vec![info(1), info(2)], vec![vec![], vec![port_binding(2, 443), port_binding(2, 80)]]) {
        PsReport::Found { processes, .. } => {
            assert_eq!(processes.len(), 2);
            assert_eq!(processes[0].info.pid, 1);
            assert!(processes[0].ports.is_empty());
            assert_eq!(processes[1].ports, vec![443, 80]);
        }
        _ => panic!("expected processes"),
    }
    assert!(matches!(ps_from_matches("q", vec![], vec![]), PsReport::NoMatch { .. }));
}

fn port_binding(pid: u32, port: u16) -> PortBinding {
    PortBinding {
        pid,
        port,
        protocol: "TCP".into(),
        local_addr: String::new(),
        process_name: String::new(),
        exe_path: None,
        cmd_line: None,
    }
}
