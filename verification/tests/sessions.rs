use slipspace::pathset::PathSet;
use slipspace::protocol::{make_clean_line, make_dirty_line};
use slipspace::rsync::{apply_delta, make_delta, restores};
use slipspace::server_fs::ServerDaemonFs;
use slipspace::session::{
    bind_address, receive_patch, take_result, Action, Clients, Patched, Session, IDLE_LIMIT,
    WATCH_PERIOD,
};

const BACK: &[u8] = b"/srv/.back";

#[test]
fn locks_come_and_go() {
    let mut dirty = PathSet::new();
    let mut s = Session::new();
    assert!(matches!(s.handle(b"DIRTY /a\n", BACK, &mut dirty), Action::Locked));
    assert!(dirty.contains(b"/a"));
    assert!(matches!(s.handle(b"CLEAN /a\n", BACK, &mut dirty), Action::Unlocked));
    assert!(!dirty.contains(b"/a"));
    assert!(!s.close(&mut dirty));
}

#[test]
fn lines_become_actions() {
    let mut dirty = PathSet::new();
    let mut s = Session::new();
    assert!(matches!(s.handle(b"SUBSCRIBE\n", BACK, &mut dirty), Action::Subscribe));
    assert!(matches!(s.handle(b"SHUTDOWN\n", BACK, &mut dirty), Action::Shutdown));
    assert!(matches!(s.handle(b"WHAT /a\n", BACK, &mut dirty), Action::Nothing));
    match s.handle(b"PATCH /a/b 12\n", BACK, &mut dirty) {
        Action::ReadPatch(p, n) => assert_eq!((p, n), (b"/srv/.back/a/b".to_vec(), 12)),
        _ => panic!("no patch"),
    }
    assert_eq!(dirty.len(), 0);
}

#[test]
fn a_session_leaves_no_locks() {
    let mut dirty = PathSet::new();
    dirty.insert(b"/other");
    let mut s = Session::new();
    s.handle(b"DIRTY /a\n", BACK, &mut dirty);
    s.handle(b"DIRTY /b\n", BACK, &mut dirty);
    s.handle(b"CLEAN /a\n", BACK, &mut dirty);
    s.handle(b"DIRTY /c\n", BACK, &mut dirty);
    assert_eq!(dirty.len(), 3);
    assert!(s.close(&mut dirty));
    assert_eq!(dirty.len(), 1);
    assert!(dirty.contains(b"/other"));
}

#[test]
fn a_clients_lock_is_refused_by_the_file_system() {
    let mut dirty = PathSet::new();
    let mut s = Session::new();
    let f = ServerDaemonFs::new(BACK.to_vec());
    s.handle(&make_dirty_line(b"/srv/data", b"/srv/data/x"), BACK, &mut dirty);
    assert!(f.lookup(1, b"x", &dirty).is_err());
    s.handle(&make_clean_line(b"/srv/data", b"/srv/data/x"), BACK, &mut dirty);
    assert!(f.lookup(1, b"x", &dirty).is_ok());
}

#[test]
fn a_name_with_spaces_is_locked_whole() {
    let mut dirty = PathSet::new();
    let mut s = Session::new();
    s.handle(b"DIRTY /a b\n", BACK, &mut dirty);
    assert!(dirty.contains(b"/a b"));
    assert!(!dirty.contains(b"/a"));
    match s.handle(b"PATCH /a b 12\n", BACK, &mut dirty) {
        Action::ReadPatch(p, n) => assert_eq!((p, n), (b"/srv/.back/a b".to_vec(), 12)),
        _ => panic!("no patch"),
    }
    s.handle(b"CLEAN /a b\n", BACK, &mut dirty);
    assert_eq!(dirty.len(), 0);
}

#[test]
fn a_client_has_its_locks_again() {
    let mut dirty = PathSet::new();
    let mut s = Session::new();
    s.handle(b"DIRTY /a\n", BACK, &mut dirty);
    s.close(&mut dirty);
    assert!(!dirty.contains(b"/a"));
    let mut changed = PathSet::new();
    changed.insert(b"/srv/data/a");
    changed.insert(b"/srv/data/b");
    let cache = slipspace::cache::FileCache::new(b"/c".to_vec(), b"/srv/data".to_vec());
    let mut again = Session::new();
    for line in cache.resend_lines(&changed) {
        again.handle(&line, BACK, &mut dirty);
    }
    assert!(dirty.contains(b"/a") && dirty.contains(b"/b"));
}

#[test]
fn deltas_are_applied() {
    let old = b"Hello, this is the original file data.";
    let new = b"Hello, this is the updated file data with more stuff.";
    let delta = make_delta(old, new);
    assert_ne!(delta, new.to_vec());
    assert_eq!(apply_delta(old, &delta), Some(new.to_vec()));
    // A short file is sent whole, so the delta fits any other.
    assert_eq!(apply_delta(b"anything", &delta), Some(new.to_vec()));
    assert_eq!(apply_delta(old, b"no delta"), None);
    assert_eq!(apply_delta(old, b""), None);
    assert!(restores(Some(new.to_vec()), new));
    assert!(!restores(Some(old.to_vec()), new));
    assert!(!restores(None, new));
}

#[test]
fn large_files_share_blocks() {
    let mut old = Vec::new();
    let mut i = 0u32;
    while i < 40000 {
        old.push((i * i / 7 + i) as u8);
        i += 1;
    }
    let mut new = old.clone();
    new.truncate(30000);
    new[15000] ^= 255;
    let delta = make_delta(&old, &new);
    assert!(delta.len() < 8000);
    assert_eq!(apply_delta(&old, &delta), Some(new));
    // Without old data everything is sent.
    let delta = make_delta(b"", &old);
    assert!(delta.len() > old.len());
    assert_eq!(apply_delta(b"x", &delta), Some(old));
}

#[test]
fn a_change_brings_the_servers_file_up_to_date() {
    let mut old = Vec::new();
    let mut i = 0u32;
    while i < 9000 {
        old.push((i * 31 / 3) as u8);
        i += 1;
    }
    let mut new = old.clone();
    new.insert(4000, 7);
    let versions = slipspace::pathset::Versions::new();
    let job = slipspace::sync::SyncJob::begin(b"/srv/data/a b".to_vec(), b"/c/f", &versions);
    let patch = job.patch(b"/srv/data", &old, &new);
    let mut dirty = PathSet::new();
    match Session::new().handle(&patch.line, BACK, &mut dirty) {
        Action::ReadPatch(p, n) => {
            assert_eq!((p, n), (b"/srv/.back/a b".to_vec(), patch.delta.len()))
        }
        _ => panic!("no patch"),
    }
    match receive_patch(Some(patch.delta), &old) {
        Patched::Write(v) => assert_eq!(v, new),
        _ => panic!("not written"),
    }
}

#[test]
fn a_session_unlocks_what_it_names() {
    let mut dirty = PathSet::new();
    dirty.insert(b"/x");
    dirty.insert(b"/y");
    let mut s = Session::new();
    s.handle(b"CLEAN /x\n", BACK, &mut dirty);
    s.handle(b"DIRTY /z\n", BACK, &mut dirty);
    s.close(&mut dirty);
    assert_eq!(dirty.len(), 1);
    assert!(dirty.contains(b"/y"));
}

#[test]
fn patches_are_received() {
    let delta = make_delta(b"old", b"new");
    match receive_patch(Some(delta), b"old") {
        Patched::Write(v) => assert_eq!(v, b"new".to_vec()),
        _ => panic!("not written"),
    }
    assert!(matches!(receive_patch(Some(b"junk".to_vec()), b"old"), Patched::Skip));
    assert!(matches!(receive_patch(None, b"old"), Patched::End));
    assert!(matches!(take_result(Some(b"x".to_vec())), Patched::Write(v) if v == b"x".to_vec()));
    assert!(matches!(take_result(None), Patched::Skip));
}

#[test]
fn an_idle_server_ends_at_the_sixth_look() {
    assert_eq!(IDLE_LIMIT / WATCH_PERIOD, 6);
    let mut c = Clients::new();
    for _ in 0..5 {
        assert!(!c.watch());
    }
    assert!(c.watch());
}

#[test]
fn a_client_resets_the_clock() {
    let mut c = Clients::new();
    for _ in 0..5 {
        assert!(!c.watch());
    }
    assert!(c.can_connect());
    assert_eq!(c.connected(), 1);
    assert_eq!(c.connected(), 2);
    assert!(!c.watch());
    assert_eq!(c.disconnected(), 1);
    assert_eq!(c.disconnected(), 0);
    for _ in 0..5 {
        assert!(!c.watch());
    }
    assert!(c.watch());
}

#[test]
fn the_server_listens_to_its_own_machine() {
    assert_eq!(bind_address(8080), b"127.0.0.1:8080".to_vec());
    assert_eq!(bind_address(0), b"127.0.0.1:0".to_vec());
}
