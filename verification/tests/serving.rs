use slipspace::attr::{Errno, FileKind, Metadata};
use slipspace::pathset::PathSet;
use slipspace::server_fs::{
    path_below, DirItem, ServerDaemonFs, ACCESS_MODE, READ_ONLY, READ_WRITE,
};
use slipspace::workspace::{backing_dir, startup, Startup};

fn fs() -> ServerDaemonFs {
    ServerDaemonFs::new(b"/srv/.back".to_vec())
}

fn set(paths: &[&str]) -> PathSet {
    let mut s = PathSet::new();
    for p in paths {
        s.insert(p.as_bytes());
    }
    s
}

fn meta(is_dir: bool) -> Option<Metadata> {
    Some(Metadata {
        is_dir,
        is_symlink: false,
        size: 10,
        blocks: 1,
        atime: 1,
        mtime: 2,
        ctime: 3,
        mode: 0o644,
        nlink: 1,
        uid: 0,
        gid: 0,
        rdev: 0,
        blksize: 512,
    })
}

fn look_up(f: &mut ServerDaemonFs, dir: u64, name: &str) -> u64 {
    let t = f.lookup(dir, name.as_bytes(), &set(&[])).ok().unwrap();
    f.lookup_reply(&t, meta(false)).unwrap().ino
}

#[test]
fn the_flags_are_those_of_the_system() {
    assert_eq!(ACCESS_MODE, libc::O_ACCMODE);
    assert_eq!(READ_ONLY, libc::O_RDONLY);
    assert_eq!(READ_WRITE, libc::O_RDWR);
}

#[test]
fn paths_lie_in_the_backing_directory() {
    let f = fs();
    assert_eq!(f.to_real_path(b""), b"/srv/.back".to_vec());
    assert_eq!(f.to_real_path(b"//"), b"/srv/.back".to_vec());
    assert_eq!(f.to_real_path(b"/a/b"), b"/srv/.back/a/b".to_vec());
    assert_eq!(f.to_real_path(b"a/b"), b"/srv/.back/a/b".to_vec());
    assert_eq!(path_below(b"/srv/.back", b"/a/b"), b"/srv/.back/a/b".to_vec());
    assert_eq!(path_below(b"/srv/.back", b"/"), b"/srv/.back/".to_vec());
}

#[test]
fn entries_are_looked_up() {
    let mut f = fs();
    let t = f.lookup(1, b"a", &set(&[])).ok().unwrap();
    assert_eq!((t.rel.clone(), t.disk.clone()), (b"/a".to_vec(), b"/srv/.back/a".to_vec()));
    assert_eq!(f.lookup_reply(&t, None), Err(Errno::NoEntry));
    let a = f.lookup_reply(&t, meta(true)).unwrap();
    assert_eq!((a.ino, a.kind, a.size), (2, FileKind::Directory, 10));
    let t = f.lookup(2, b"b", &set(&[])).ok().unwrap();
    assert_eq!(t.rel, b"/a/b".to_vec());
    assert_eq!(f.lookup_reply(&t, meta(false)).unwrap().ino, 3);
    assert_eq!(f.lookup(9, b"b", &set(&[])).err(), Some(Errno::NoEntry));
}

#[test]
fn locked_paths_are_refused_everywhere() {
    let mut f = fs();
    let ino = look_up(&mut f, 1, "a");
    let fh = f.open_reply(true).unwrap();
    let d = set(&["/a"]);
    assert_eq!(f.lookup(1, b"a", &d).err(), Some(Errno::Access));
    assert_eq!(f.mkdir(1, b"a", &d).err(), Some(Errno::Access));
    assert_eq!(f.create(1, b"a", &d).err(), Some(Errno::Access));
    assert_eq!(f.unlink(1, b"a", &d).err(), Some(Errno::Access));
    assert_eq!(f.rmdir(1, b"a", &d).err(), Some(Errno::Access));
    assert_eq!(f.rename(1, b"a", 1, b"b", &d).err(), Some(Errno::Access));
    assert_eq!(f.rename(1, b"b", 1, b"a", &d).err(), Some(Errno::Access));
    assert_eq!(f.open(ino, libc::O_RDONLY, &d), Err(Errno::Access));
    assert_eq!(f.open(ino, libc::O_RDWR, &d), Err(Errno::Access));
    assert_eq!(f.read(ino, fh, 0, &d), Err(Errno::Access));
    assert_eq!(f.write(ino, fh, 0, &d), Err(Errno::Access));
    assert_eq!(f.setattr(ino, Some(0), &d).err(), Some(Errno::Access));
    assert!(f.setattr(ino, None, &d).is_ok());
    assert!(f.is_dirty(b"/a/", &d));
    assert!(f.is_dirty_any(b"/b", b"/a", &d));
    assert!(!f.is_dirty_any(b"/b", b"/c", &d));
    // A file that is only written to may be opened, and attributes are told.
    assert_eq!(f.open(ino, libc::O_WRONLY, &d), Ok((b"/srv/.back/a".to_vec(), true)));
    assert!(f.getattr(ino).is_ok());
    // Other paths are not concerned.
    assert!(f.lookup(1, b"b", &d).is_ok());
}

#[test]
fn files_are_opened() {
    let mut f = fs();
    let ino = look_up(&mut f, 1, "a");
    let none = set(&[]);
    let disk = b"/srv/.back/a".to_vec();
    assert_eq!(f.open(ino, libc::O_RDONLY | libc::O_CREAT, &none), Ok((disk.clone(), false)));
    assert_eq!(f.open(ino, libc::O_WRONLY, &none), Ok((disk.clone(), true)));
    assert_eq!(f.open(ino, libc::O_RDWR | libc::O_APPEND, &none), Ok((disk, true)));
    assert_eq!(f.open(77, libc::O_RDONLY, &none), Err(Errno::NoEntry));
    assert!(f.has_handles());
    assert_eq!(f.open_reply(false), Err(Errno::Io));
    assert_eq!(f.open_reply(true), Ok(1));
    assert_eq!(f.open_reply(true), Ok(2));
}

#[test]
fn open_files_are_read_and_written() {
    let mut f = fs();
    let ino = look_up(&mut f, 1, "a");
    let none = set(&[]);
    assert_eq!(f.read(ino, 1, 5, &none), Err(Errno::Io));
    let fh = f.open_reply(true).unwrap();
    assert_eq!(f.read(ino, fh, 5, &none), Ok(5));
    assert_eq!(f.write(ino, fh, 7, &none), Ok(7));
    assert_eq!(f.read(ino, fh, -1, &none), Ok(u64::MAX));
    assert_eq!(f.write_reply(ino, None, &none), Err(Errno::Io));
    assert_eq!(
        f.write_reply(ino, Some(3), &none),
        Ok((3, Some(b"INVALIDATE /a\n".to_vec())))
    );
    assert_eq!(f.write_reply(ino, Some(3), &set(&["/a"])), Ok((3, None)));
    f.release(fh);
    assert_eq!(f.read(ino, fh, 5, &none), Err(Errno::Io));
    // A file of which no number is known has the empty path.
    assert_eq!(f.write_reply(99, Some(1), &none), Ok((1, Some(b"INVALIDATE /\n".to_vec()))));
}

#[test]
fn attributes_are_told() {
    let mut f = fs();
    let ino = look_up(&mut f, 1, "a");
    assert_eq!(f.getattr(ino).ok().unwrap().disk, b"/srv/.back/a".to_vec());
    assert_eq!(f.getattr(50).err(), Some(Errno::NoEntry));
    assert_eq!(f.attr_reply(ino, meta(false)).unwrap().ino, ino);
    assert_eq!(f.attr_reply(ino, None), Err(Errno::NoEntry));
    let none = set(&[]);
    assert_eq!(f.setattr(ino, Some(3), &none).ok().unwrap().disk, b"/srv/.back/a".to_vec());
    assert_eq!(f.setattr(50, None, &none).ok().unwrap().disk, b"/srv/.back".to_vec());
}

#[test]
fn directories_are_made() {
    let mut f = fs();
    let none = set(&[]);
    let t = f.mkdir(1, b"d", &none).ok().unwrap();
    assert_eq!(t.disk, b"/srv/.back/d".to_vec());
    assert_eq!(f.mkdir_reply(&t, false, None, &none), Err(Errno::Io));
    assert_eq!(f.getattr(2).err(), Some(Errno::NoEntry));
    assert_eq!(f.mkdir_reply(&t, true, None, &none), Err(Errno::NoEntry));
    assert!(f.getattr(2).is_ok());
    let (attr, news) = f.mkdir_reply(&t, true, meta(true), &none).unwrap();
    assert_eq!((attr.ino, attr.kind), (2, FileKind::Directory));
    assert_eq!(news, Some(b"INVALIDATE /d\n".to_vec()));
    // Without a known parent the name stands alone.
    assert_eq!(f.mkdir(40, b"x", &none).ok().unwrap().rel, b"x".to_vec());
}

#[test]
fn files_are_created() {
    let mut f = fs();
    let none = set(&[]);
    let t = f.create(1, b"n", &none).ok().unwrap();
    assert_eq!(f.created(&t, false), Err(Errno::Io));
    let (ino, fh) = f.created(&t, true).unwrap();
    assert_eq!((ino, fh), (2, 1));
    assert_eq!(f.create_reply(ino, &t, None, &none), Err(Errno::NoEntry));
    assert_eq!(f.read(ino, fh, 0, &none), Ok(0));
    let (attr, news) = f.create_reply(ino, &t, meta(false), &none).unwrap();
    assert_eq!(attr.ino, 2);
    assert_eq!(news, Some(b"INVALIDATE /n\n".to_vec()));
    assert_eq!(f.create_reply(ino, &t, meta(false), &set(&["/n"])).unwrap().1, None);
}

#[test]
fn files_are_removed_and_renamed() {
    let f = fs();
    let none = set(&[]);
    let t = f.unlink(1, b"a", &none).ok().unwrap();
    assert_eq!(f.remove_reply(&t, true, &none), Ok(Some(b"INVALIDATE /a\n".to_vec())));
    assert_eq!(f.remove_reply(&t, false, &none), Err(Errno::Io));
    let t = f.rmdir(1, b"d", &none).ok().unwrap();
    assert_eq!(f.remove_reply(&t, true, &set(&["/d"])), Ok(None));
    let (from, to) = f.rename(1, b"a", 1, b"b", &none).ok().unwrap();
    assert_eq!((from.disk.clone(), to.disk.clone()), (b"/srv/.back/a".to_vec(), b"/srv/.back/b".to_vec()));
    assert_eq!(
        f.rename_reply(&from, &to, true, &none),
        Ok((Some(b"INVALIDATE /a\n".to_vec()), Some(b"INVALIDATE /b\n".to_vec())))
    );
    assert_eq!(f.rename_reply(&from, &to, false, &none), Err(Errno::Io));
    assert_eq!(f.invalidate_client(b"/a", &set(&["/a"])), None);
}

fn item(name: &str, is_dir: Option<bool>) -> DirItem {
    DirItem { name: name.as_bytes().to_vec(), is_dir }
}

#[test]
fn directories_are_listed() {
    let mut f = fs();
    let dir = look_up(&mut f, 1, "d");
    let (t, above) = f.readdir(dir).ok().unwrap();
    assert_eq!(t.disk, b"/srv/.back/d".to_vec());
    assert_eq!(above, b"/srv/.back".to_vec());
    assert_eq!(f.readdir(60).err(), Some(Errno::NoEntry));
    assert_eq!(f.listing(None, None, None).err(), Some(Errno::NoEntry));
    let on_disk = vec![item("x", Some(false)), item("?", None), item("y", Some(true))];
    let items = f.listing(Some(on_disk), Some(true), Some(true)).ok().unwrap();
    assert_eq!(items.len(), 5);

    let mut from = 0;
    let mut got = Vec::new();
    while let Some(e) = f.next_entry(&t.rel, &items, 0, from) {
        from = e.cookie as usize;
        got.push((e.ino, e.cookie, e.kind, String::from_utf8(e.name).unwrap()));
    }
    assert_eq!(
        got,
        vec![
            (2, 1, FileKind::Directory, ".".to_string()),
            (1, 2, FileKind::Directory, "..".to_string()),
            (3, 3, FileKind::RegularFile, "x".to_string()),
            (4, 5, FileKind::Directory, "y".to_string()),
        ]
    );
    assert_eq!(f.getattr(4).ok().unwrap().rel, b"/d/y".to_vec());
}

#[test]
fn a_listing_goes_on_where_it_stopped() {
    let mut f = fs();
    let on_disk = vec![item("x", Some(false)), item("?", None), item("y", Some(true))];
    let items = f.listing(Some(on_disk), Some(true), None).ok().unwrap();
    // The kernel has the third entry: the next one is the fifth.
    let e = f.next_entry(b"/", &items, 3, 0).unwrap();
    assert_eq!((e.cookie, e.name), (5, b"y".to_vec()));
    assert!(f.next_entry(b"/", &items, 5, 0).is_none());
    // Nothing is known of the directory above, so it is left out.
    let e = f.next_entry(b"/", &items, 1, 0).unwrap();
    assert_eq!(e.cookie, 3);
    assert!(f.next_entry(b"/", &items, -9, 0).is_some());
}

#[test]
fn the_backing_directory_lies_beside_the_workspace() {
    assert_eq!(backing_dir(b"/srv/data"), b"/srv/.slipspace_backing_data".to_vec());
    assert_eq!(backing_dir(b"/data/"), b"/.slipspace_backing_data".to_vec());
    assert_eq!(backing_dir(b"data"), b".slipspace_backing_data".to_vec());
    assert_eq!(backing_dir(b"/"), b"/.slipspace_backing_workspace".to_vec());
    assert_eq!(backing_dir(b"/srv/.."), b"/srv/.slipspace_backing_workspace".to_vec());
    assert_eq!(
        backing_dir(b"/srv/\xff"),
        "/srv/.slipspace_backing_\u{fffd}".as_bytes().to_vec()
    );
}

#[test]
fn a_workspace_is_started() {
    assert_eq!(startup(true, true), Startup::Reuse);
    assert_eq!(startup(true, false), Startup::Reuse);
    assert_eq!(startup(false, true), Startup::Move);
    assert_eq!(startup(false, false), Startup::Make);
}
