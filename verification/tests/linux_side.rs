use whouse::linux::LinuxPlatform;
use whouse::platform::PortBinding;

const TCP: &str = "  sl  local_address rem_address   st tx_queue rx_queue tr tm->when retrnsmt   uid  timeout inode\n   0: 00000000:0BB8 00000000:0000 0A 00000000:00000000 00:00000000 00000000  1000        0 123456 1 0000000000000000 100 0 0 10 0\n   1: 0100007F:1F90 00000000:0000 0A 00000000:00000000 00:00000000 00000000  1000        0 654321 1 0000000000000000 100 0 0 10 0\n   2: 0100007F:0BB8 0100007F:D2F0 01 00000000:00000000 00:00000000 00000000  1000        0 777 1\n   3: short line\n";

fn binding(pid: u32, proto: &str, addr: &str) -> PortBinding {
    PortBinding {
        pid,
        port: 3000,
        protocol: proto.to_string(),
        local_addr: addr.to_string(),
        process_name: String::new(),
        exe_path: None,
        cmd_line: None,
    }
}

#[test]
fn net_table_lines_for_a_port() {
    assert!(LinuxPlatform::net_table_is_safe(TCP, 3000));
    let e = LinuxPlatform::parse_net_table(TCP, "TCP", 3000);
    assert_eq!(
        e,
        vec![
            ("TCP".to_string(), "0.0.0.0:3000".to_string(), "123456".to_string()),
            ("TCP".to_string(), "127.0.0.1:3000".to_string(), "777".to_string()),
        ]
    );
    let e = LinuxPlatform::parse_net_table(TCP, "TCP", 8080);
    assert_eq!(e, vec![("TCP".to_string(), "127.0.0.1:8080".to_string(), "654321".to_string())]);
    assert!(LinuxPlatform::parse_net_table(TCP, "TCP", 22).is_empty());
    assert!(LinuxPlatform::parse_net_table("", "UDP", 22).is_empty());
    // the header line is never read as an entry
    assert!(LinuxPlatform::parse_net_table("x 00000000:0016 a b c d e f g 9", "TCP", 22).is_empty());
}

#[test]
fn net_table_ipv6_line() {
    let t = "header\n 0: 00000000000000000000000000000000:0050 00000000000000000000000000000000:0000 0A 0 0 0 0 0 4242\n";
    let e = LinuxPlatform::parse_net_table(t, "TCP", 80);
    assert_eq!(e, vec![("TCP".to_string(), ":::80".to_string(), "4242".to_string())]);
}

#[test]
fn net_table_with_an_unsliceable_address() {
    let t = "header\n 0: 0é00000000000000000000000000000:0050 x 0A 0 0 0 0 0 0 1\n";
    assert!(!LinuxPlatform::net_table_is_safe(t, 80));
    assert!(LinuxPlatform::net_table_is_safe(t, 81));
}

#[test]
fn split_net_line_fields() {
    let line: Vec<char> = " 1: 0100007F:1F90 0 0A 0 0 0 0 0 99".chars().collect();
    let (a, i) = LinuxPlatform::split_net_line(&line, 8080).unwrap();
    assert_eq!(a.iter().collect::<String>(), "0100007F");
    assert_eq!(i.iter().collect::<String>(), "99");
    assert!(LinuxPlatform::split_net_line(&line, 8081).is_none());
}

#[test]
fn socket_tags_and_names() {
    assert_eq!(LinuxPlatform::socket_tag("123"), "socket:[123]");
    assert_eq!(LinuxPlatform::binding_process_name(7, Some("nginx".into()), &None), "nginx");
    assert_eq!(LinuxPlatform::binding_process_name(7, None, &Some("/usr/bin/node".into())), "node");
    assert_eq!(LinuxPlatform::binding_process_name(7, None, &Some("/".into())), "[PID 7]");
    assert_eq!(LinuxPlatform::binding_process_name(7, None, &None), "[PID 7]");
    assert_eq!(LinuxPlatform::listed_process_name(42, None), "[42]");
    assert!(LinuxPlatform::socket_binding(0, 80, "TCP".into(), "0.0.0.0:80".into(), None, None, None).is_none());
    let b = LinuxPlatform::socket_binding(9, 80, "TCP".into(), "0.0.0.0:80".into(), None, Some("/usr/sbin/nginx".into()), None).unwrap();
    assert_eq!((b.pid, b.port, b.protocol.as_str(), b.local_addr.as_str(), b.process_name.as_str()), (9, 80, "TCP", "0.0.0.0:80", "nginx"));
    assert_eq!(b.exe_path.as_deref(), Some("/usr/sbin/nginx"));
    assert_eq!(LinuxPlatform::listed_process_name(42, Some("bash".into())), "bash");
    assert_eq!(LinuxPlatform::process_info_name(42, "/usr/lib/jvm/bin/java", Some("x".into())), "java");
    assert_eq!(LinuxPlatform::process_info_name(42, "/", Some("x".into())), "x");
    assert_eq!(LinuxPlatform::process_info_name(42, "/", None), "[42]");
}

#[test]
fn port_bindings_sorted_and_deduplicated() {
    let v = vec![
        binding(30, "UDP", "0.0.0.0:3000"),
        binding(10, "TCP", "0.0.0.0:3000"),
        binding(30, "TCP", "[::]:3000"),
        binding(10, "TCP", "0.0.0.0:3000"),
        binding(10, "TCP", "[::]:3000"),
    ];
    let r = LinuxPlatform::finish_port_bindings(v);
    let got: Vec<(u32, String, String)> =
        r.iter().map(|b| (b.pid, b.protocol.clone(), b.local_addr.clone())).collect();
    assert_eq!(
        got,
        vec![
            (10, "TCP".to_string(), "0.0.0.0:3000".to_string()),
            (10, "TCP".to_string(), "[::]:3000".to_string()),
            (30, "TCP".to_string(), "[::]:3000".to_string()),
            (30, "UDP".to_string(), "0.0.0.0:3000".to_string()),
        ]
    );
}

#[test]
fn proc_files() {
    assert_eq!(LinuxPlatform::parse_comm("bash\n"), "bash");
    assert_eq!(LinuxPlatform::parse_comm("  \n"), "");
    assert_eq!(LinuxPlatform::parse_cmdline(b""), None);
    assert_eq!(LinuxPlatform::parse_cmdline(b"java\0-jar\0app.jar\0"), Some("java -jar app.jar".to_string()));
    assert_eq!(LinuxPlatform::parse_cmdline(b"\0\0"), Some(String::new()));
    assert_eq!(LinuxPlatform::parse_cmdline(b"a\0\0b"), Some("a b".to_string()));
    assert_eq!(LinuxPlatform::parse_cmdline(b"x\xffy"), Some("x\u{FFFD}y".to_string()));
    assert_eq!(LinuxPlatform::cmdline_args(b"\0ls\0\0-l\0"), vec![b"ls".to_vec(), b"-l".to_vec()]);
    assert!(LinuxPlatform::cmdline_args(b"\0\0").is_empty());
    let status = "Name:\tbash\nUmask:\t0022\nPPid:\t  1234 \nTracerPid:\t0\n";
    assert_eq!(LinuxPlatform::parse_ppid(status), Some(1234));
    assert_eq!(LinuxPlatform::parse_ppid("Name: x\n"), None);
    assert_eq!(LinuxPlatform::parse_ppid("PPid: x\nPPid: 5\n"), None);
    assert_eq!(LinuxPlatform::parse_ppid("PPid:\t0\r\n"), Some(0));
}

#[test]
fn lsof_output() {
    let out = b"COMMAND   PID USER   FD   TYPE DEVICE SIZE/OFF    NODE NAME\nvim     4242 me    4u   REG    8,1     4096 1234 /tmp/f\nless    abc me\nx\n";
    assert!(LinuxPlatform::lsof_reports_in_use(out));
    assert!(!LinuxPlatform::lsof_reports_in_use(b"COMMAND PID\n"));
    assert!(!LinuxPlatform::lsof_reports_in_use(b""));
    assert_eq!(LinuxPlatform::parse_lsof(out), vec![(4242, "vim".to_string())]);
    let text = "COMMAND PID\nsshd 1 root\nbash 99999999999 me\n";
    assert!(LinuxPlatform::lsof_text_in_use(text));
    assert!(!LinuxPlatform::lsof_text_in_use("COMMAND PID\n"));
    assert_eq!(LinuxPlatform::parse_lsof_text(text), vec![(1, "sshd".to_string())]);
}

#[test]
fn process_search_ignores_case() {
    let q = "JaVa";
    assert!(LinuxPlatform::process_matches(q, &Some("JAVA".into()), &None));
    assert!(LinuxPlatform::process_matches(q, &None, &Some("/opt/JDK/bin/Java".into())));
    assert!(!LinuxPlatform::process_matches(q, &Some("node".into()), &Some("/usr/bin/node".into())));
    assert!(!LinuxPlatform::process_matches(q, &None, &None));
}

#[test]
fn kill_outcomes() {
    assert_eq!(LinuxPlatform::kill_outcome(5, 0), Ok(()));
    assert_eq!(LinuxPlatform::kill_outcome(5, -1), Err("终止进程 PID 5 失败".to_string()));
    assert_eq!(LinuxPlatform::signal_target(5), Some(5));
    assert_eq!(LinuxPlatform::signal_target(0), None);
    assert_eq!(LinuxPlatform::signal_target(0x8000_0000), None);
    assert_eq!(LinuxPlatform::signal_target(0x7FFF_FFFF), Some(i32::MAX));
    assert_eq!(LinuxPlatform::missing_path("/x"), "路径不存在: /x");
    assert!(LinuxPlatform::is_executable_mode(0o100755));
    assert!(LinuxPlatform::is_executable_mode(0o100001));
    assert!(!LinuxPlatform::is_executable_mode(0o100644));
}

#[test]
fn path_matches_sorted_once() {
    let r = LinuxPlatform::finish_path_matches(vec![
        "/usr/bin/node".to_string(),
        "/bin/node".to_string(),
        "/usr/bin/node".to_string(),
        "/usr/local/bin/node".to_string(),
    ]);
    assert_eq!(r, vec!["/bin/node", "/usr/bin/node", "/usr/local/bin/node"]);
    assert!(LinuxPlatform::finish_path_matches(vec![]).is_empty());
}

#[test]
fn every_socket_of_a_table() {
    assert!(LinuxPlatform::net_sockets_are_safe(TCP));
    let s = LinuxPlatform::parse_net_sockets(TCP, "TCP");
    assert_eq!(
        s,
        vec![
            ("TCP".to_string(), 3000, "0.0.0.0:3000".to_string(), "123456".to_string()),
            ("TCP".to_string(), 8080, "127.0.0.1:8080".to_string(), "654321".to_string()),
            ("TCP".to_string(), 3000, "127.0.0.1:3000".to_string(), "777".to_string()),
        ]
    );
    // a port written in lower case or with other than four digits names no port
    let t = "h\n 0: 0100007F:1f90 0 0A 0 0 0 0 0 1\n 1: 0100007F:01F90 0 0A 0 0 0 0 0 2\n";
    assert!(LinuxPlatform::parse_net_sockets(t, "TCP").is_empty());
    let line: Vec<char> = " 1: 0100007F:FFFF 0 0A 0 0 0 0 0 99".chars().collect();
    let (a, p, i) = LinuxPlatform::split_socket_line(&line).unwrap();
    assert_eq!((a.iter().collect::<String>(), p, i.iter().collect::<String>()), ("0100007F".to_string(), 65535, "99".to_string()));
    let t = "header\n 0: 0é00000000000000000000000000000:0050 x 0A 0 0 0 0 0 0 1\n";
    assert!(!LinuxPlatform::net_sockets_are_safe(t));
}

#[test]
fn socket_links_of_a_process() {
    let links = vec!["/dev/null".to_string(), "socket:[777]".to_string(), "pipe:[5]".to_string()];
    assert!(LinuxPlatform::holds_socket(&links, "777"));
    assert!(!LinuxPlatform::holds_socket(&links, "77"));
    assert!(!LinuxPlatform::holds_socket(&links, "5"));
    assert!(!LinuxPlatform::holds_socket(&vec![], "777"));
}
