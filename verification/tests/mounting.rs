use slipspace::attr::{Errno, FileKind, FileStat};
use slipspace::cache::{to_base_path, to_local_path};
use slipspace::client_fs::{needs_download, Fetched, RemoteItem, SshFs};
use slipspace::pathset::{PathSet, Versions};
use slipspace::sync::SyncJob;

const MIB: u64 = 1024 * 1024;

fn fs() -> SshFs {
    SshFs::new(b"/srv".to_vec(), b"/tmp/c".to_vec())
}

fn set(paths: &[&str]) -> PathSet {
    let mut s = PathSet::new();
    for p in paths {
        s.insert(p.as_bytes());
    }
    s
}

fn stat(size: Option<u64>) -> FileStat {
    FileStat { size, uid: Some(3), gid: Some(4), perm: Some(0o100600), atime: None, mtime: Some(9) }
}

fn local(path: &str) -> Vec<u8> {
    to_local_path(b"/tmp/c", path.as_bytes())
}

fn look_up(f: &mut SshFs, name: &str) -> u64 {
    let p = f.lookup(1, name.as_bytes()).unwrap();
    f.lookup_reply(&p, Some(stat(Some(1))), None).unwrap().ino
}

#[test]
fn remote_entries_are_looked_up() {
    let mut f = fs();
    let p = f.lookup(1, b"a").unwrap();
    assert_eq!(p, b"/srv/a".to_vec());
    assert_eq!(f.lookup(5, b"a"), Err(Errno::NoEntry));
    assert_eq!(f.lookup_reply(&p, None, None), Err(Errno::NoEntry));
    let a = f.lookup_reply(&p, Some(stat(Some(600))), None).unwrap();
    assert_eq!((a.ino, a.size, a.blocks, a.uid, a.gid, a.mtime), (2, 600, 2, 3, 4, 9));
    assert_eq!(f.getattr(2), Ok(b"/srv/a".to_vec()));
    assert_eq!(f.getattr(3), Err(Errno::NoEntry));
    assert_eq!(f.get_inode(b"/srv/./a"), 2);
    assert_eq!(f.get_inode(b"/srv"), 1);
    assert_eq!(f.attr_reply(2, Some(stat(Some(600))), None), Ok(a));
}

#[test]
fn a_changed_file_has_its_local_size() {
    let mut f = fs();
    let ino = look_up(&mut f, "a");
    assert_eq!(f.local_source(b"/srv/a", &set(&["/srv/a"])), Some(local("/srv/a")));
    assert_eq!(f.local_source(b"/srv/a", &set(&[])), None);
    let a = f.attr_reply(ino, Some(stat(Some(600))), Some(5000)).unwrap();
    assert_eq!((a.size, a.blocks), (5000, 10));
    assert_eq!(f.attr_reply(ino, None, Some(5000)), Err(Errno::NoEntry));
}

#[test]
fn remote_directories_are_listed() {
    let mut f = fs();
    let dir = look_up(&mut f, "d");
    assert_eq!(f.readdir(dir), Ok(b"/srv/d".to_vec()));
    assert_eq!(f.readdir(99), Err(Errno::NoEntry));
    assert_eq!(f.listing(None).err(), Some(Errno::NoEntry));
    let mut sub = stat(None);
    sub.perm = Some(0o040755);
    let remote = vec![
        RemoteItem { path: b"/srv/d/x".to_vec(), stat: stat(Some(1)) },
        RemoteItem { path: b"/srv/d/y".to_vec(), stat: sub },
        RemoteItem { path: b"/srv/d/..".to_vec(), stat: sub },
    ];
    let items = f.listing(Some(remote)).ok().unwrap();
    assert_eq!(items[0].stat.perm, Some(0o755));

    let mut from = 0;
    let mut got = Vec::new();
    while let Some(e) = f.next_entry(dir, &items, 0, from) {
        from = e.cookie as usize;
        got.push((e.ino, e.cookie, e.kind, String::from_utf8(e.name).unwrap()));
    }
    assert_eq!(
        got,
        vec![
            (2, 1, FileKind::RegularFile, ".".to_string()),
            (1, 2, FileKind::RegularFile, "..".to_string()),
            (3, 3, FileKind::RegularFile, "x".to_string()),
            (4, 4, FileKind::Directory, "y".to_string()),
            (5, 5, FileKind::Directory, "".to_string()),
        ]
    );
    let e = f.next_entry(dir, &items, 3, 0).unwrap();
    assert_eq!(e.cookie, 4);
    assert!(f.next_entry(dir, &items, 5, 0).is_none());
}

#[test]
fn a_file_is_fetched_when_it_must() {
    let s = |n| Some(stat(Some(n)));
    assert!(needs_download(false, false, None, None));
    assert!(needs_download(false, true, None, None));
    assert!(!needs_download(true, true, s(1), Some(2)));
    assert!(needs_download(true, false, s(1), Some(2)));
    assert!(!needs_download(true, false, s(2), Some(2)));
    assert!(!needs_download(true, false, Some(stat(None)), Some(2)));
    assert!(!needs_download(true, false, None, Some(2)));
    assert!(!needs_download(true, false, s(1), None));
}

#[test]
fn files_are_opened_in_the_cache() {
    let mut f = fs();
    let ino = look_up(&mut f, "a");
    let plan = f.open(ino, &set(&["/srv/a"])).ok().unwrap();
    assert_eq!(plan.path, b"/srv/a".to_vec());
    assert_eq!(plan.local, local("/srv/a"));
    assert_eq!(plan.base, to_base_path(&local("/srv/a")));
    assert!(plan.is_dirty);
    assert_eq!(f.open(99, &set(&[])).err(), Some(Errno::NoEntry));
    let none = set(&[]);
    assert!(f.has_handles());
    assert_eq!(f.open_reply(b"/srv/a", Fetched::Missing, &none).err(), Some(Errno::NoEntry));
    assert_eq!(f.open_reply(b"/srv/a", Fetched::Cached, &none).ok().unwrap().0, 1);
    assert_eq!(f.open_reply(b"/srv/a", Fetched::Unread, &none).ok().unwrap().0, 2);
    assert!(f.has_room(700 * MIB));
    let (fh, gone) = f.open_reply(b"/srv/a", Fetched::Stored(700 * MIB), &none).ok().unwrap();
    assert_eq!((fh, gone.len()), (3, 0));
    let (fh, gone) = f.open_reply(b"/srv/b", Fetched::Stored(700 * MIB), &none).ok().unwrap();
    assert_eq!(fh, 4);
    assert_eq!(gone[0].local, local("/srv/a"));
    assert_eq!(f.read(4), Ok((b"/srv/b".to_vec(), local("/srv/b"))));
}

#[test]
fn reading_counts_as_use() {
    let mut f = fs();
    let none = set(&[]);
    let _ = f.open_reply(b"/srv/a", Fetched::Stored(400 * MIB), &none);
    let _ = f.open_reply(b"/srv/b", Fetched::Stored(400 * MIB), &none);
    assert_eq!(f.read(9), Err(Errno::Io));
    assert_eq!(f.read_reply(b"/srv/a", None), Err(Errno::Io));
    assert_eq!(f.read_reply(b"/srv/a", Some(b"x".to_vec())), Ok(b"x".to_vec()));
    let (_, gone) = f.open_reply(b"/srv/c", Fetched::Stored(400 * MIB), &none).ok().unwrap();
    assert_eq!(gone.len(), 1);
    assert_eq!(gone[0].local, local("/srv/b"));
}

#[test]
fn writing_marks_a_file() {
    let mut f = fs();
    let mut dirty = set(&[]);
    let mut versions = Versions::new();
    let (fh, _) = f.open_reply(b"/srv/a", Fetched::Stored(10), &dirty).ok().unwrap();
    let (path, l) = f.write(fh).unwrap();
    assert_eq!((path.clone(), l), (b"/srv/a".to_vec(), local("/srv/a")));
    assert_eq!(f.write(77), Err(Errno::Io));

    assert_eq!(f.write_reply(&path, None, None, &mut dirty, &mut versions).err(), Some(Errno::Io));
    assert_eq!((dirty.len(), versions.get(&path)), (0, 0));

    let w = f.write_reply(&path, Some(4), Some(14), &mut dirty, &mut versions).ok().unwrap();
    assert_eq!(w.count, 4);
    assert_eq!(w.marking.announce, Some(b"DIRTY /a\n".to_vec()));
    assert!(w.gone.is_empty());
    assert!(dirty.contains(b"/srv/a"));
    assert_eq!(versions.get(&path), 1);

    let w = f.write_reply(&path, Some(4), None, &mut dirty, &mut versions).ok().unwrap();
    assert_eq!(w.marking.announce, None);
    assert_eq!(versions.get(&path), 2);

    assert_eq!(f.release(fh, &dirty), Some((b"/srv/a".to_vec(), local("/srv/a"))));
    assert_eq!(f.release(fh, &dirty), None);
}

#[test]
fn a_file_without_changes_is_not_queued() {
    let mut f = fs();
    let (fh, _) = f.open_reply(b"/srv/a", Fetched::Cached, &set(&[])).ok().unwrap();
    assert_eq!(f.release(fh, &set(&["/srv/b"])), None);
}

#[test]
fn a_written_file_is_not_driven_out() {
    let mut f = fs();
    let mut dirty = set(&[]);
    let mut versions = Versions::new();
    let _ = f.open_reply(b"/srv/a", Fetched::Stored(600 * MIB), &dirty);
    let _ = f.open_reply(b"/srv/b", Fetched::Stored(300 * MIB), &dirty);
    let w = f
        .write_reply(b"/srv/a", Some(1), Some(2000 * MIB), &mut dirty, &mut versions)
        .ok()
        .unwrap();
    assert_eq!(w.gone.len(), 1);
    assert_eq!(w.gone[0].local, local("/srv/b"));
}

#[test]
fn changes_of_the_remote_side_are_to_be_ignored() {
    let mut f = fs();
    let mut ignores = set(&[]);
    assert_eq!(f.mkdir(1, b"d", &mut ignores), b"/srv/d".to_vec());
    assert_eq!(f.unlink(1, b"u", &mut ignores), (b"/srv/u".to_vec(), local("/srv/u")));
    assert_eq!(f.rmdir(1, b"r", &mut ignores), b"/srv/r".to_vec());
    assert_eq!(f.create(1, b"c", &mut ignores), b"/srv/c".to_vec());
    let r = f.rename(1, b"x", 1, b"y", &mut ignores);
    assert_eq!((r.from, r.local_from), (b"/srv/x".to_vec(), local("/srv/x")));
    assert_eq!((r.to, r.local_to), (b"/srv/y".to_vec(), local("/srv/y")));
    assert_eq!(ignores.len(), 6);
    for p in ["/srv/d", "/srv/u", "/srv/r", "/srv/c", "/srv/x", "/srv/y"] {
        assert!(ignores.contains(p.as_bytes()));
    }
    assert_eq!(f.done_reply(true), Ok(()));
    assert_eq!(f.done_reply(false), Err(Errno::Io));

    assert_eq!(f.mkdir_reply(b"/srv/d", false, None), Err(Errno::Io));
    assert_eq!(f.mkdir_reply(b"/srv/d", true, None), Err(Errno::NoEntry));
    assert_eq!(f.mkdir_reply(b"/srv/d", true, Some(stat(None))).unwrap().ino, 2);

    assert_eq!(f.created(b"/srv/c", false).err(), Some(Errno::Io));
    let (ino, fh, l, b) = f.created(b"/srv/c", true).ok().unwrap();
    assert_eq!((ino, fh), (3, 1));
    assert_eq!((l.clone(), b), (local("/srv/c"), to_base_path(&l)));
    assert_eq!(f.write(1).unwrap().0, b"/srv/c".to_vec());
}

#[test]
fn a_new_size_is_a_change() {
    let mut f = fs();
    let ino = look_up(&mut f, "a");
    let mut dirty = set(&[]);
    let mut versions = Versions::new();
    assert_eq!(f.set_path(ino), b"/srv/a".to_vec());
    let (path, resize) = f.setattr(ino, None, &mut dirty, &mut versions);
    assert_eq!(path, b"/srv/a".to_vec());
    assert!(resize.is_none());
    assert_eq!((dirty.len(), versions.get(b"/srv/a")), (0, 0));
    let job = SyncJob::begin(b"/srv/a".to_vec(), &local("/srv/a"), &versions);
    let (_, resize) = f.setattr(ino, Some(0), &mut dirty, &mut versions);
    assert_eq!(versions.get(b"/srv/a"), 1);
    // A job that was under way does not end with the file clean.
    assert_eq!(job.finish(b"/srv", &versions, &mut dirty), None);
    let resize = resize.unwrap();
    assert_eq!(resize.local, local("/srv/a"));
    assert_eq!(resize.marking.announce, Some(b"DIRTY /a\n".to_vec()));
    assert!(dirty.contains(b"/srv/a"));
    assert_eq!(f.cache().root(), &b"/srv".to_vec());
}
