use slipspace::ssh::{
    daemon_url, install_command, is_ssh_string, local_signal_server, look_again, make_decimal_text,
    parse_ssh_string, remote_signal_port, ssh_address, tunnel_command,
};

fn parsed(s: &str) -> (String, Option<String>, String, u16) {
    assert!(is_ssh_string(s));
    parse_ssh_string(s)
}

fn parts(user: &str, pw: Option<&str>, host: &str, port: u16) -> (String, Option<String>, String, u16) {
    (user.to_string(), pw.map(|p| p.to_string()), host.to_string(), port)
}

#[test]
fn connection_strings_are_read() {
    assert_eq!(parsed("ann@host"), parts("ann", None, "host", 22));
    assert_eq!(parsed("ann:secret@host:2222"), parts("ann", Some("secret"), "host", 2222));
    assert_eq!(parsed("ann:a:b@host"), parts("ann", Some("a:b"), "host", 22));
    assert_eq!(parsed("@"), parts("", None, "", 22));
    assert_eq!(parsed(":@:"), parts("", Some(""), "", 22));
    assert_eq!(parsed("j\u{fc}rg:p\u{e4}ss@h\u{f6}st:+80"), parts("j\u{fc}rg", Some("p\u{e4}ss"), "h\u{f6}st", 80));
}

#[test]
fn a_port_that_is_none_is_the_usual_one() {
    for s in ["a@h:", "a@h:x", "a@h:65536", "a@h:-1", "a@h:22:22", "a@h: 80"] {
        assert_eq!(parsed(s), parts("a", None, "h", 22), "{:?}", s);
    }
    assert_eq!(parsed("a@h:65535").3, 65535);
    assert_eq!(parsed("a@h:0").3, 0);
}

#[test]
fn other_strings_are_told_apart() {
    for s in ["", "host", "a@b@c", "@@", "user:pass"] {
        assert!(!is_ssh_string(s), "{:?}", s);
    }
}

#[test]
fn the_port_of_the_signals() {
    assert_eq!(remote_signal_port("127.0.0.1:9000"), "9000");
    assert_eq!(remote_signal_port("host:"), "");
    assert_eq!(remote_signal_port("host"), "8080");
    assert_eq!(remote_signal_port("::1"), "8080");
    assert_eq!(local_signal_server("9000"), "127.0.0.1:9000");
    assert_eq!(ssh_address("host", 22), "host:22");
}

#[test]
fn numbers_are_written_out() {
    for n in [0, 7, 10, 22, 65535, u64::MAX] {
        assert_eq!(make_decimal_text(n), n.to_string());
    }
}

#[test]
fn a_tunnel_is_opened() {
    assert_eq!(
        tunnel_command("ann", None, "host", 22, "8080"),
        vec!["ssh", "-N", "-L", "8080:127.0.0.1:8080", "ann@host", "-p", "22"]
    );
    assert_eq!(
        tunnel_command("ann", Some("pw"), "host", 2222, "1"),
        vec!["sshpass", "-p", "pw", "ssh", "-N", "-L", "1:127.0.0.1:1", "ann@host", "-p", "2222"]
    );
}

#[test]
fn the_daemon_is_installed() {
    assert_eq!(
        daemon_url(None),
        "https://github.com/mkhisty/slipspace/releases/latest/download/server-daemon-musl"
    );
    assert_eq!(daemon_url(Some("u".to_string())), "u");
    assert_eq!(
        install_command("http://x/y", "/srv/data"),
        "curl -L -o /tmp/slipspace_server_daemon 'http://x/y' && chmod +x /tmp/slipspace_server_daemon && nohup /tmp/slipspace_server_daemon --path '/srv/data' > /tmp/slipspace_server.log 2>&1 &"
    );
}

#[test]
fn a_started_daemon_is_looked_for() {
    assert!(look_again(0, false));
    assert!(look_again(4, false));
    assert!(!look_again(5, false));
    assert!(!look_again(1, true));
}
