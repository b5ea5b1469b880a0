use slipspace::path::same_path;
use slipspace::protocol::{
    make_clean_line, make_dirty_line, make_invalidate_line, make_patch_line, make_shutdown_line,
    make_subscribe_line, parse_notice, parse_request, to_wire_path, Request,
};

fn told(line: &[u8]) -> String {
    match parse_request(line) {
        Request::Subscribe => "subscribe".to_string(),
        Request::Shutdown => "shutdown".to_string(),
        Request::Dirty(p) => format!("dirty {}", String::from_utf8(p).unwrap()),
        Request::Clean(p) => format!("clean {}", String::from_utf8(p).unwrap()),
        Request::Patch(p, n) => format!("patch {} {}", String::from_utf8(p).unwrap(), n),
        Request::Ignored => "nothing".to_string(),
    }
}

#[test]
fn lines_are_read() {
    assert_eq!(told(b"SUBSCRIBE\n"), "subscribe");
    assert_eq!(told(b"SUBSCRIBE to all\n"), "subscribe");
    assert_eq!(told(b"SHUTDOWN\r\n"), "shutdown");
    assert_eq!(told(b"DIRTY /a/b\n"), "dirty /a/b");
    assert_eq!(told(b"CLEAN /a/b"), "clean /a/b");
    assert_eq!(told(b"DIRTY /a b\n"), "dirty /a b");
    assert_eq!(told(b"CLEAN /a b  c \r\n"), "clean /a b  c ");
    assert_eq!(told(b"DIRTY /a\t"), "dirty /a\t");
    assert_eq!(told(b"PATCH /a 1 2\n"), "patch /a 1 2");
    assert_eq!(told(b"PATCH /a b  17 \n"), "patch /a b  17");
    assert_eq!(told(b"PATCH /a/b 17\n"), "patch /a/b 17");
    assert_eq!(told(b"PATCH /a/b +17\n"), "patch /a/b 17");
}

#[test]
fn other_lines_are_ignored() {
    for line in [
        "", "\n", "DIRTY", "DIRTY\n", "DIRTY \n", "CLEAN\n", "PATCH /a\n", "PATCH /a x\n",
        "PATCH 12\n", "PATCH /a -1\n", "PATCH /a 99999999999999999999999\n", "dirty /a\n",
        " DIRTY /a\n", "SUBSCRIBED\n", "HELLO /a\n",
    ] {
        assert_eq!(told(line.as_bytes()), "nothing", "{:?}", line);
    }
}

#[test]
fn a_path_begins_behind_the_first_space() {
    assert_eq!(told(b"DIRTY  /a\n"), "dirty  /a");
    assert_eq!(told(b"PATCH  1\n"), "patch  1");
}

#[test]
fn lines_are_written() {
    assert_eq!(make_dirty_line(b"/srv", b"/srv/a"), b"DIRTY /a\n".to_vec());
    assert_eq!(make_clean_line(b"/srv", b"/srv/a"), b"CLEAN /a\n".to_vec());
    assert_eq!(make_patch_line(b"/srv", b"/srv/a", 120), b"PATCH /a 120\n".to_vec());
    assert_eq!(make_invalidate_line(b"/a/b"), b"INVALIDATE /a/b\n".to_vec());
    assert_eq!(make_invalidate_line(b"a/b"), b"INVALIDATE /a/b\n".to_vec());
    assert_eq!(make_subscribe_line(), b"SUBSCRIBE\n".to_vec());
    assert_eq!(make_shutdown_line(), b"SHUTDOWN\n".to_vec());
    assert_eq!(make_dirty_line(b"/srv", b"/srv/\xff"), "DIRTY /\u{fffd}\n".as_bytes().to_vec());
}

#[test]
fn wire_paths_begin_at_the_root() {
    assert_eq!(to_wire_path(b"/srv/data", b"/srv/data/x/y"), b"/x/y".to_vec());
    assert_eq!(to_wire_path(b"/srv/data/", b"/srv/data"), b"/".to_vec());
    // A path elsewhere stands as it is.
    assert_eq!(to_wire_path(b"/srv/data", b"/srv/other"), b"/srv/other".to_vec());
    assert_eq!(to_wire_path(b"/srv/data", b"other"), b"/other".to_vec());
}

#[test]
fn what_one_side_writes_the_other_reads() {
    assert_eq!(told(&make_dirty_line(b"/srv", b"/srv/a/b.txt")), "dirty /a/b.txt");
    assert_eq!(told(&make_clean_line(b"/srv", b"/srv/a/b.txt")), "clean /a/b.txt");
    assert_eq!(told(&make_patch_line(b"/srv", b"/srv/a/b.txt", 0)), "patch /a/b.txt 0");
    assert_eq!(
        told(&make_patch_line(b"/srv", b"/srv/a", usize::MAX)),
        format!("patch /a {}", usize::MAX)
    );
    assert_eq!(told(&make_subscribe_line()), "subscribe");
    assert_eq!(told(&make_shutdown_line()), "shutdown");
    for name in ["a b", " a", "a ", "a\t", "a  b 7", "a\u{3000}", "9 9", "\r a"] {
        let path = format!("/srv/{}", name);
        assert_eq!(told(&make_dirty_line(b"/srv", path.as_bytes())), format!("dirty /{}", name));
        assert_eq!(told(&make_clean_line(b"/srv", path.as_bytes())), format!("clean /{}", name));
        assert_eq!(
            told(&make_patch_line(b"/srv", path.as_bytes(), 12)),
            format!("patch /{} 12", name)
        );
    }
}

#[test]
fn notices_name_files() {
    let root = b"/srv/data";
    assert_eq!(parse_notice(root, b"INVALIDATE /a/b"), Some(b"/srv/data/a/b".to_vec()));
    assert_eq!(parse_notice(root, b"INVALIDATE a b"), Some(b"/srv/data/a b".to_vec()));
    assert_eq!(parse_notice(root, b"INVALIDATE //a"), Some(b"/a".to_vec()));
    assert_eq!(parse_notice(root, b"INVALIDATE "), Some(b"/srv/data/".to_vec()));
    assert_eq!(parse_notice(root, b"INVALIDATE"), None);
    assert_eq!(parse_notice(root, b"VALIDATE /a"), None);
    assert_eq!(parse_notice(root, b""), None);
}

#[test]
fn a_notice_finds_the_file_again() {
    let root = b"/srv/data";
    let path = b"/srv/data/a b/c";
    let mut line = make_invalidate_line(&to_wire_path(root, path));
    assert_eq!(line.pop(), Some(b'\n'));
    let found = parse_notice(root, &line).unwrap();
    assert!(same_path(&found, path));
}
