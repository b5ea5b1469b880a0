use slipspace::attr::{
    data_reply, fs_meta_to_attr, sftp_stat_to_attr, Errno, FileAttr, FileKind, FileStat, Metadata,
    TTL,
};

fn meta() -> Metadata {
    Metadata {
        is_dir: false,
        is_symlink: false,
        size: 1234,
        blocks: 8,
        atime: 100,
        mtime: 200,
        ctime: 300,
        mode: 0o100644,
        nlink: 2,
        uid: 1000,
        gid: 1001,
        rdev: 5,
        blksize: 4096,
    }
}

fn stat() -> FileStat {
    FileStat { size: None, uid: None, gid: None, perm: None, atime: None, mtime: None }
}

#[test]
fn metadata_become_attributes() {
    let want = FileAttr {
        ino: 7,
        size: 1234,
        blocks: 8,
        atime: 100,
        mtime: 200,
        ctime: 300,
        crtime: 300,
        kind: FileKind::RegularFile,
        perm: 0o644,
        nlink: 2,
        uid: 1000,
        gid: 1001,
        rdev: 5,
        blksize: 4096,
        flags: 0,
    };
    assert_eq!(fs_meta_to_attr(7, &meta()), want);
}

#[test]
fn kinds_of_server_files() {
    let mut m = meta();
    m.is_symlink = true;
    assert_eq!(fs_meta_to_attr(1, &m).kind, FileKind::Symlink);
    m.is_dir = true;
    assert_eq!(fs_meta_to_attr(1, &m).kind, FileKind::Directory);
}

#[test]
fn large_numbers_are_cut() {
    let mut m = meta();
    m.nlink = 0x1_0000_0003;
    m.rdev = u64::MAX;
    m.blksize = 0x2_0000_0200;
    m.mode = 0o107777;
    let a = fs_meta_to_attr(1, &m);
    assert_eq!((a.nlink, a.rdev, a.blksize, a.perm), (3, u32::MAX, 512, 0o777));
}

#[test]
fn times_before_the_epoch_are_told() {
    assert!(meta().is_datable());
    let mut m = meta();
    m.mtime = -1;
    assert!(!m.is_datable());
}

#[test]
fn what_is_left_out_has_defaults() {
    let a = sftp_stat_to_attr(9, &stat());
    assert_eq!(a.ino, 9);
    assert_eq!((a.size, a.blocks), (0, 0));
    assert_eq!((a.atime, a.mtime, a.ctime, a.crtime), (0, 0, 0, 0));
    assert_eq!(a.perm, 0o755);
    assert_eq!((a.uid, a.gid, a.nlink, a.rdev, a.blksize, a.flags), (0, 0, 1, 0, 4096, 0));
    assert_eq!(a.kind, FileKind::RegularFile);
}

#[test]
fn sizes_are_counted_in_blocks() {
    for (size, blocks) in [(0, 0), (1, 1), (511, 1), (512, 1), (513, 2), (5000, 10)] {
        let mut s = stat();
        s.size = Some(size);
        s.mtime = Some(42);
        s.atime = Some(41);
        let a = sftp_stat_to_attr(1, &s);
        assert_eq!((a.size, a.blocks), (size, blocks));
        assert_eq!((a.atime, a.mtime, a.ctime, a.crtime), (41, 42, 42, 42));
    }
}

#[test]
fn modes_tell_directories() {
    for (perm, dir) in [
        (Some(0o040755), true),
        (Some(0o100755), false),
        (Some(0o120777), false),
        (Some(0o755), false),
        (Some(0o060000), false),
        (None, false),
    ] {
        let mut s = stat();
        s.perm = perm;
        assert_eq!(s.is_dir(), dir);
        let kind = if dir { FileKind::Directory } else { FileKind::RegularFile };
        assert_eq!(sftp_stat_to_attr(1, &s).kind, kind);
    }
    let mut s = stat();
    s.perm = Some(0o1_040_755);
    assert_eq!(sftp_stat_to_attr(1, &s).perm, (0o1_040_755u32 & 0xffff) as u16);
}

#[test]
fn what_cannot_be_counted_is_told() {
    let mut s = stat();
    assert!(s.is_countable());
    s.size = Some(u64::MAX - 511);
    assert!(s.is_countable());
    s.size = Some(u64::MAX - 510);
    assert!(!s.is_countable());
    s.size = None;
    s.mtime = Some(i64::MAX as u64 + 1);
    assert!(!s.is_countable());
}

#[test]
fn data_are_answered_or_refused() {
    assert_eq!(data_reply(Some(b"ab".to_vec())), Ok(b"ab".to_vec()));
    assert_eq!(data_reply(None), Err(Errno::Io));
    assert_eq!(TTL, 0);
}
