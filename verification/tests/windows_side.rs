use whouse::windows::{
    candidate_names, check_in_use, command_line_read, command_line_text, ends_with_any, first_existing,
    names_to_try,
    entry_matches, get_process_name_and_path, has_known_extension, image_path,
    locking_process_info, locking_processes, open_request, parse_v4_table, parse_v6_table,
    pathext_list, process_from_entry, process_info_name, rm_call_error, rm_start_error,
    terminate_outcome, trim_trailing_nuls, utf16_text, with_extensions, Ipv4Row, Ipv6Row,
    OpenAttempt, WindowsPlatform, FILETIME, PROCESSENTRY32W, RM_PROCESS_INFO, RM_UNIQUE_PROCESS,
    UNICODE_STRING_REMOTE,
};
use whouse::platform::{port_numbers, ports_of_process, PortBinding};

fn wide(s: &str, n: usize) -> Vec<u16> {
    let mut v: Vec<u16> = s.encode_utf16().collect();
    v.resize(n, 0);
    v
}

fn rm(pid: u32, name: &str) -> RM_PROCESS_INFO {
    let mut app = [0u16; 256];
    app.copy_from_slice(&wide(name, 256));
    RM_PROCESS_INFO {
        process: RM_UNIQUE_PROCESS { dw_process_id: pid, process_start_time: FILETIME { dw_low_date_time: 0, dw_high_date_time: 0 } },
        str_app_name: app,
        str_service_short_name: [0u16; 64],
        application_type: 0,
        app_status: 0,
        ts_session_id: 0,
        b_restartable: 0,
    }
}

fn entry(pid: u32, name: &str) -> PROCESSENTRY32W {
    let mut exe = [0u16; 260];
    exe.copy_from_slice(&wide(name, 260));
    PROCESSENTRY32W {
        dw_size: 0,
        cnt_usage: 0,
        th32_process_id: pid,
        th32_default_heap_id: 0,
        th32_module_id: 0,
        cnt_threads: 12,
        th32_parent_process_id: 4,
        pc_pri_class_base: 8,
        dw_flags: 0,
        sz_exe_file: exe,
    }
}

#[test]
fn file_lock_probe() {
    assert_eq!(open_request(true), (0x0001, 0x0200_0000));
    assert_eq!(open_request(false), (0xC000_0000, 0));
    assert_eq!(check_in_use("D:\\x", OpenAttempt::NotFound), Err("路径不存在: D:\\x".to_string()));
    assert_eq!(check_in_use("a", OpenAttempt::Opened), Ok(false));
    assert_eq!(check_in_use("a", OpenAttempt::Failed { is_dir: false, error: 32 }), Ok(true));
    assert_eq!(check_in_use("a", OpenAttempt::Failed { is_dir: true, error: 32 }), Ok(true));
    assert_eq!(check_in_use("a", OpenAttempt::Failed { is_dir: false, error: 5 }), Ok(true));
    assert_eq!(
        check_in_use("a", OpenAttempt::Failed { is_dir: true, error: 5 }),
        Err("访问被拒绝，可能没有足够权限".to_string())
    );
    assert_eq!(
        check_in_use("a", OpenAttempt::Failed { is_dir: false, error: 3 }),
        Err("无法访问路径 (系统错误 3)".to_string())
    );
}

#[test]
fn restart_manager() {
    assert_eq!(rm_start_error(5), "权限不足，请以管理员身份运行");
    assert_eq!(rm_start_error(-2), "RmStartSession 失败 (error -2)");
    assert_eq!(rm_call_error("RmGetList", 234), "RmGetList 失败 (error 234)");
    let list = vec![rm(10, "Word"), rm(99, "Self"), rm(11, "记事本"), rm(12, "Extra")];
    let got = locking_processes(&list, 3, 99);
    assert_eq!(got, vec![(10, "Word".to_string()), (11, "记事本".to_string())]);
    assert_eq!(locking_processes(&list, 100, 0).len(), 4);
    let p = locking_process_info(10, "Word".into(), None, Some("w.exe /x".into()));
    assert_eq!(p.pid, 10);
    assert!(p.parent_pid.is_none() && p.thread_count.is_none());
}

#[test]
fn utf16_text_drops_trailing_nuls() {
    assert_eq!(utf16_text(&wide("node.exe", 10)), "node.exe");
    assert_eq!(utf16_text(&[0x61, 0xD800, 0x62, 0, 0]), "a\u{FFFD}b");
    assert_eq!(utf16_text(&[0xD83D, 0xDE00]), "😀");
    assert_eq!(utf16_text(&[]), "");
}

#[test]
fn snapshot_entries() {
    let e = entry(321, "Notepad.exe");
    assert!(entry_matches(&e, "NOTEpad", &None));
    assert!(!entry_matches(&e, "java", &None));
    assert!(entry_matches(&e, "windows", &Some("C:\\Windows\\notepad.exe".into())));
    let p = process_from_entry(&e, Some("C:\\Windows\\Notepad.exe".into()), None);
    assert_eq!(p.pid, 321);
    assert_eq!(p.name, "Notepad.exe");
    assert_eq!(p.parent_pid, Some(4));
    assert_eq!(p.thread_count, Some(12));
}

#[test]
fn process_details() {
    assert_eq!(process_info_name("C:\\nvm4w\\nodejs\\node.exe"), "node.exe");
    assert_eq!(process_info_name("C:"), "");
    assert_eq!(image_path(0, &[0x41], 1), None);
    assert_eq!(image_path(1, &wide("C:\\a.exe", 20), 8), Some("C:\\a.exe".to_string()));
    assert_eq!(command_line_text(&wide("node app.js", 12), 0), None);
    assert_eq!(command_line_text(&wide("node app.js", 12), 24), Some("node app.js".to_string()));
    assert_eq!(command_line_text(&wide("node app.js", 12), 8), Some("node".to_string()));
    assert_eq!(terminate_outcome(9, false, 0), Err("无法打开进程 PID 9（权限不足）".to_string()));
    assert_eq!(terminate_outcome(9, true, 0), Err("终止进程 PID 9 失败".to_string()));
    assert_eq!(terminate_outcome(9, true, 1), Ok(()));
    let (n, e, c) = get_process_name_and_path(7, Some("C:\\x\\java.exe".into()), None);
    assert_eq!((n.as_str(), e.as_deref(), c), ("java.exe", Some("C:\\x\\java.exe"), None));
    let (n, _, _) = get_process_name_and_path(7, None, None);
    assert_eq!(n, "[PID 7]");
    let us = |length: u16, buffer: usize| UNICODE_STRING_REMOTE { length, maximum_length: 64, buffer };
    assert_eq!(command_line_read(&us(22, 0x7ff0_1000)), Some((12, 22)));
    assert_eq!(command_line_read(&us(0, 0x7ff0_1000)), None);
    assert_eq!(command_line_read(&us(22, 0)), None);
}

#[test]
fn path_extensions() {
    let exts = pathext_list(".EXE;.Com;.bat");
    assert_eq!(exts, vec![".exe", ".com", ".bat"]);
    assert!(has_known_extension("Node.EXE", &exts));
    assert!(!has_known_extension("node", &exts));
    assert_eq!(candidate_names("Node", &exts), vec!["node.exe", "node.com", "node.bat"]);
    // an empty extension (a trailing `;`) matches every name
    let e2 = pathext_list(".exe;");
    assert_eq!(e2, vec![".exe", ""]);
    assert!(has_known_extension("node", &e2));
    assert!(ends_with_any("app.bat", &exts));
    assert!(!ends_with_any("App.EXE", &exts));
    assert_eq!(with_extensions("Tool", &exts), vec!["Tool.exe", "Tool.com", "Tool.bat"]);
    assert_eq!(trim_trailing_nuls("a\0b\0\0"), "a\0b");
    assert_eq!(names_to_try("Node.EXE", true, vec!["x".into()]), vec!["Node.EXE"]);
    assert_eq!(names_to_try("node", false, vec!["node.exe".into(), "node.bat".into()]), vec!["node.exe", "node.bat"]);
    assert_eq!(first_existing(&vec![false, true, true]), Some(1));
    assert_eq!(first_existing(&vec![false, false]), None);
    assert_eq!(first_existing(&vec![]), None);
}

fn bound(pid: u32, port: u16, proto: &str) -> PortBinding {
    PortBinding {
        pid,
        port,
        protocol: proto.to_string(),
        local_addr: format!("0.0.0.0:{port}"),
        process_name: String::new(),
        exe_path: None,
        cmd_line: None,
    }
}

#[test]
fn tcp_and_udp_tables() {
    let w = WindowsPlatform;
    // 3000 = 0x0BB8, stored in network byte order
    let v4 = vec![
        Ipv4Row { local_addr: 0x0100007F, local_port: u16::from_be(0x0BB8) as u32, owning_pid: 10 },
        Ipv4Row { local_addr: 0, local_port: u16::from_be(0x0050) as u32, owning_pid: 11 },
    ];
    let mut a6 = [0u8; 16];
    a6[15] = 1;
    let v6 = vec![Ipv6Row { local_addr: a6, local_port: u16::from_be(0x0BB8) as u32, owning_pid: 12 }];
    let t = w.find_tcp_by_port(&v4, &v6, 3000);
    let got: Vec<(u32, u16, String, String)> =
        t.iter().map(|b| (b.pid, b.port, b.protocol.clone(), b.local_addr.clone())).collect();
    assert_eq!(
        got,
        vec![
            (10, 3000, "TCP".to_string(), "127.0.0.1:3000".to_string()),
            (12, 3000, "TCP".to_string(), "[::1]:3000".to_string()),
        ]
    );
    let u = w.find_udp_by_port(&v4, &[], 80);
    assert_eq!(u.len(), 1);
    assert_eq!((u[0].pid, u[0].protocol.as_str(), u[0].local_addr.as_str()), (11, "UDP", "0.0.0.0:80"));
    assert!(u[0].process_name.is_empty() && u[0].exe_path.is_none());
}

#[test]
fn port_lookup_lists_each_pid_and_protocol_once() {
    let tcp = vec![bound(20, 80, "TCP"), bound(10, 80, "TCP"), bound(20, 80, "TCP")];
    let udp = vec![bound(10, 80, "UDP"), bound(10, 80, "UDP")];
    let r = WindowsPlatform::finish_port_lookup(tcp, udp);
    let got: Vec<(u32, String)> = r.iter().map(|b| (b.pid, b.protocol.clone())).collect();
    assert_eq!(got, vec![(10, "TCP".to_string()), (10, "UDP".to_string()), (20, "TCP".to_string())]);
}

#[test]
fn ports_of_a_process() {
    let w = WindowsPlatform;
    let all = vec![bound(5, 8080, "UDP"), bound(5, 80, "TCP"), bound(6, 22, "TCP"), bound(5, 8080, "UDP"), bound(5, 80, "UDP")];
    let r = w.find_ports_by_pid(all, 5);
    let got: Vec<(u16, String)> = r.iter().map(|b| (b.port, b.protocol.clone())).collect();
    assert_eq!(got, vec![(80, "TCP".to_string()), (80, "UDP".to_string()), (8080, "UDP".to_string())]);
    assert!(w.find_ports_by_pid(vec![bound(6, 22, "TCP")], 5).is_empty());
    // a table read with a known byte order
    let rows = [Ipv4Row { local_addr: 0x0100007F, local_port: 0xB80B, owning_pid: 42 }];
    let swapped = WindowsPlatform::table_bindings(&rows, &[], 3000, "TCP", true);
    assert_eq!(swapped.len(), 1);
    assert_eq!((swapped[0].pid, swapped[0].local_addr.as_str()), (42, "127.0.0.1:3000"));
    assert!(WindowsPlatform::table_bindings(&rows, &[], 3000, "TCP", false).is_empty());
    assert_eq!(WindowsPlatform::table_bindings(&rows, &[], 0xB80B, "UDP", false).len(), 1);
    assert_eq!(port_numbers(&r), vec![80, 8080]);
    let again = ports_of_process(vec![bound(5, 443, "TCP"), bound(7, 443, "TCP")], 7);
    assert_eq!(again.len(), 1);
    assert_eq!(again[0].pid, 7);
}

fn le(v: u32) -> [u8; 4] {
    v.to_le_bytes()
}

#[test]
fn table_buffers() {
    // MIB_TCPTABLE_OWNER_PID with two rows, then trailing bytes
    let mut b: Vec<u8> = le(2).to_vec();
    for (addr, port, pid) in [(0x0100007Fu32, 0xB80Bu32, 42u32), (0, 0x5000, 7)] {
        for v in [2, addr, port, 0, 0, pid] {
            b.extend_from_slice(&le(v));
        }
    }
    b.extend_from_slice(&[9, 9]);
    let rows = parse_v4_table(&b, true);
    assert_eq!(rows.len(), 2);
    assert_eq!((rows[0].local_addr, rows[0].local_port, rows[0].owning_pid), (0x0100007F, 0xB80B, 42));
    assert_eq!((rows[1].local_addr, rows[1].local_port, rows[1].owning_pid), (0, 0x5000, 7));
    // a count larger than the rows present reads only the whole rows
    let mut u: Vec<u8> = le(5).to_vec();
    for v in [1u32, 0x3500, 99] {
        u.extend_from_slice(&le(v));
    }
    let rows = parse_v4_table(&u, false);
    assert_eq!(rows.len(), 1);
    assert_eq!((rows[0].local_addr, rows[0].local_port, rows[0].owning_pid), (1, 0x3500, 99));
    assert!(parse_v4_table(&[1, 0], true).is_empty());
    // MIB_UDP6TABLE_OWNER_PID with one row
    let mut v6: Vec<u8> = le(1).to_vec();
    let addr: [u8; 16] = [0, 0, 0, 0, 0, 0, 0, 0, 0, 0, 0, 0, 0, 0, 0, 1];
    v6.extend_from_slice(&addr);
    for v in [0u32, 0x3500, 1234] {
        v6.extend_from_slice(&le(v));
    }
    let rows = parse_v6_table(&v6, false);
    assert_eq!(rows.len(), 1);
    assert_eq!((rows[0].local_addr, rows[0].local_port, rows[0].owning_pid), (addr, 0x3500, 1234));
    assert!(parse_v6_table(&v6, true).is_empty());
}
