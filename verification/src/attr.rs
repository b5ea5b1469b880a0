//! The attributes of files, as the two file systems report them.
use vstd::prelude::*;

verus! {

/// What went wrong with a request to a file system.
#[derive(Clone, Copy, Debug, PartialEq, Eq, Structural)]
pub enum Errno {
    /// There is no such file.
    NoEntry,
    /// Reading or writing failed.
    Io,
    /// The file is locked.
    Access,
}

/// The answer to a request for data: what was read, where reading went well.
pub fn data_reply(data: Option<Vec<u8>>) -> (r: Result<Vec<u8>, Errno>)
    ensures
        r == match data {
            Some(v) => Ok::<Vec<u8>, Errno>(v),
            None => Err(Errno::Io),
        },
{
    match data {
        Some(v) => Ok(v),
        None => Err(Errno::Io),
    }
}

/// What sort of file a file is.
#[derive(Clone, Copy, Debug, PartialEq, Eq, Structural)]
pub enum FileKind {
    /// A directory.
    Directory,
    /// A symbolic link.
    Symlink,
    /// Any other file.
    RegularFile,
}

/// For how many seconds the kernel may keep attributes.
pub const TTL: u64 = 0;

/// The attributes that a file system reports of a file. Times are in seconds
/// since the epoch.
#[derive(Clone, Copy, Debug, PartialEq, Eq, Structural)]
pub struct FileAttr {
    pub ino: u64,
    pub size: u64,
    pub blocks: u64,
    pub atime: u64,
    pub mtime: u64,
    pub ctime: u64,
    pub crtime: u64,
    pub kind: FileKind,
    pub perm: u16,
    pub nlink: u32,
    pub uid: u32,
    pub gid: u32,
    pub rdev: u32,
    pub blksize: u32,
    pub flags: u32,
}

/// What the server's disk tells of a file.
#[derive(Clone, Copy, Debug, PartialEq, Eq, Structural)]
pub struct Metadata {
    pub is_dir: bool,
    pub is_symlink: bool,
    pub size: u64,
    pub blocks: u64,
    pub atime: i64,
    pub mtime: i64,
    pub ctime: i64,
    pub mode: u32,
    pub nlink: u64,
    pub uid: u32,
    pub gid: u32,
    pub rdev: u64,
    pub blksize: u64,
}

/// What the remote side tells a client of a file; it may leave anything out.
#[derive(Clone, Copy, Debug, PartialEq, Eq, Structural)]
pub struct FileStat {
    pub size: Option<u64>,
    pub uid: Option<u32>,
    pub gid: Option<u32>,
    pub perm: Option<u32>,
    pub atime: Option<u64>,
    pub mtime: Option<u64>,
}

/// The value, or `other` where there is none.
pub open spec fn or_else<T>(v: Option<T>, other: T) -> T {
    match v {
        Some(x) => x,
        None => other,
    }
}

impl Metadata {
    /// Whether the times lie between the epoch and the last second that a
    /// clock can show.
    pub open spec fn datable(&self) -> bool {
        self.atime >= 0 && self.mtime >= 0 && self.ctime >= 0
    }

    /// Whether the times lie between the epoch and the last second that a
    /// clock can show.
    pub fn is_datable(&self) -> (r: bool)
        ensures
            r == self.datable(),
    {
        self.atime >= 0 && self.mtime >= 0 && self.ctime >= 0
    }
}

/// The kind of a file of the server.
pub open spec fn meta_kind(meta: Metadata) -> FileKind {
    if meta.is_dir {
        FileKind::Directory
    } else if meta.is_symlink {
        FileKind::Symlink
    } else {
        FileKind::RegularFile
    }
}

/// The attributes of a file of the server: nine bits of permissions, and the
/// low half of what does not fit.
pub open spec fn meta_attr(ino: u64, meta: Metadata) -> FileAttr {
    FileAttr {
        ino,
        size: meta.size,
        blocks: meta.blocks,
        atime: meta.atime as u64,
        mtime: meta.mtime as u64,
        ctime: meta.ctime as u64,
        crtime: meta.ctime as u64,
        kind: meta_kind(meta),
        perm: (meta.mode % 512) as u16,
        nlink: (meta.nlink % 0x1_0000_0000) as u32,
        uid: meta.uid,
        gid: meta.gid,
        rdev: (meta.rdev % 0x1_0000_0000) as u32,
        blksize: (meta.blksize % 0x1_0000_0000) as u32,
        flags: 0,
    }
}

/// The low half of a number.
fn low_half(n: u64) -> (r: u32)
    ensures
        r == n % 0x1_0000_0000,
{
    assert(n & 0xffff_ffff == n % 0x1_0000_0000) by (bit_vector);
    assert(n & 0xffff_ffff <= 0xffff_ffff) by (bit_vector);
    (n & 0xffff_ffff) as u32
}

/// The attributes of a file of the server.
pub fn fs_meta_to_attr(ino: u64, meta: &Metadata) -> (r: FileAttr)
    requires
        meta.datable(),
    ensures
        r == meta_attr(ino, *meta),
{
    let kind = if meta.is_dir {
        FileKind::Directory
    } else if meta.is_symlink {
        FileKind::Symlink
    } else {
        FileKind::RegularFile
    };
    let mode = meta.mode;
    assert(mode & 0o777 == mode % 512) by (bit_vector);
    FileAttr {
        ino,
        size: meta.size,
        blocks: meta.blocks,
        atime: meta.atime as u64,
        mtime: meta.mtime as u64,
        ctime: meta.ctime as u64,
        crtime: meta.ctime as u64,
        kind,
        perm: (mode & 0o777) as u16,
        nlink: low_half(meta.nlink),
        uid: meta.uid,
        gid: meta.gid,
        rdev: low_half(meta.rdev),
        blksize: low_half(meta.blksize),
        flags: 0,
    }
}

/// Whether the mode of a file is that of a directory.
pub open spec fn dir_mode(perm: Option<u32>) -> bool {
    or_else(perm, 0) & 0o170000 == 0o040000
}

/// Calls `FileStat::is_dir` of the crate `ssh2` on a value with this mode. The
/// claim: it looks at the mode alone, at the bits for the type of the file,
/// and takes a mode that is left out for 0.
#[verifier::external_body]
fn mode_is_dir(perm: Option<u32>) -> (r: bool)
    ensures
        r == dir_mode(perm),
{
    let stat = ssh2::FileStat { size: None, uid: None, gid: None, perm, atime: None, mtime: None };
    stat.is_dir()
}

impl FileStat {
    /// Whether the file is a directory.
    pub fn is_dir(&self) -> (r: bool)
        ensures
            r == dir_mode(self.perm),
    {
        mode_is_dir(self.perm)
    }

    /// Whether the size can be counted in blocks, and the times lie before the
    /// last second that a clock can show.
    pub open spec fn countable(&self) -> bool {
        &&& or_else(self.size, 0) + 511 <= u64::MAX
        &&& or_else(self.atime, 0) <= i64::MAX
        &&& or_else(self.mtime, 0) <= i64::MAX
    }

    /// Whether the size can be counted in blocks, and the times lie before the
    /// last second that a clock can show.
    pub fn is_countable(&self) -> (r: bool)
        ensures
            r == self.countable(),
    {
        let size: u64 = match self.size {
            Some(s) => s,
            None => 0,
        };
        let atime: u64 = match self.atime {
            Some(t) => t,
            None => 0,
        };
        let mtime: u64 = match self.mtime {
            Some(t) => t,
            None => 0,
        };
        size <= u64::MAX - 511 && atime <= i64::MAX as u64 && mtime <= i64::MAX as u64
    }
}

/// The kind of a remote file: a link is not told from a regular file.
pub open spec fn stat_kind(stat: FileStat) -> FileKind {
    if dir_mode(stat.perm) {
        FileKind::Directory
    } else {
        FileKind::RegularFile
    }
}

/// The attributes of a remote file. Its size is counted in blocks of 512
/// bytes, of which the last need not be full.
pub open spec fn stat_attr(ino: u64, stat: FileStat) -> FileAttr {
    let size = or_else(stat.size, 0);
    let mtime = or_else(stat.mtime, 0);
    FileAttr {
        ino,
        size,
        blocks: ((size + 511) / 512) as u64,
        atime: or_else(stat.atime, 0),
        mtime,
        ctime: mtime,
        crtime: mtime,
        kind: stat_kind(stat),
        perm: (or_else(stat.perm, 0o755) % 0x1_0000) as u16,
        nlink: 1,
        uid: or_else(stat.uid, 0),
        gid: or_else(stat.gid, 0),
        rdev: 0,
        blksize: 4096,
        flags: 0,
    }
}

/// The attributes of a remote file.
pub fn sftp_stat_to_attr(ino: u64, stat: &FileStat) -> (r: FileAttr)
    requires
        stat.countable(),
    ensures
        r == stat_attr(ino, *stat),
{
    let kind = if stat.is_dir() {
        FileKind::Directory
    } else {
        FileKind::RegularFile
    };
    let size: u64 = match stat.size {
        Some(s) => s,
        None => 0,
    };
    let atime: u64 = match stat.atime {
        Some(t) => t,
        None => 0,
    };
    let mtime: u64 = match stat.mtime {
        Some(t) => t,
        None => 0,
    };
    let perm: u32 = match stat.perm {
        Some(p) => p,
        None => 0o755,
    };
    assert(perm & 0xffff == perm % 0x1_0000) by (bit_vector);
    FileAttr {
        ino,
        size,
        blocks: (size + 511) / 512,
        atime,
        mtime,
        ctime: mtime,
        crtime: mtime,
        kind,
        perm: (perm & 0xffff) as u16,
        nlink: 1,
        uid: match stat.uid {
            Some(u) => u,
            None => 0,
        },
        gid: match stat.gid {
            Some(g) => g,
            None => 0,
        },
        rdev: 0,
        blksize: 4096,
        flags: 0,
    }
}

// ---------------------------------------------------------------------------
// What attributes tell
// ---------------------------------------------------------------------------

/// The attributes of a server's file tell of it what the disk does: its sizes,
/// times and owner as they are, the last nine bits of its mode, and the low
/// half of the numbers that have to be cut. It is a directory where the disk
/// says so, else a link where the disk says so, else a regular file.
pub proof fn law_server_attributes(ino: u64, m: Metadata)
    requires
        m.datable(),
    ensures
        ({
            let a = meta_attr(ino, m);
            &&& a.ino == ino && a.size == m.size && a.blocks == m.blocks
            &&& a.atime as int == m.atime as int
            &&& a.mtime as int == m.mtime as int
            &&& a.ctime as int == m.ctime as int
            &&& a.crtime as int == m.ctime as int
            &&& (a.kind == FileKind::Directory <==> m.is_dir)
            &&& (a.kind == FileKind::Symlink <==> !m.is_dir && m.is_symlink)
            &&& (a.kind == FileKind::RegularFile <==> !m.is_dir && !m.is_symlink)
            &&& a.perm < 512 && (m.mode - a.perm) % 512 == 0
            &&& a.uid == m.uid && a.gid == m.gid
            &&& (m.nlink - a.nlink) % 0x1_0000_0000 == 0
            &&& (m.rdev - a.rdev) % 0x1_0000_0000 == 0
            &&& (m.blksize - a.blksize) % 0x1_0000_0000 == 0
            &&& a.flags == 0
        }),
{
}

/// The attributes of a remote file tell of it what the remote side does. Its
/// blocks of 512 bytes are as many as its size takes, and no more; all times
/// but that of the last access are that of the last change. What is left out
/// counts as 0, and the mode as 0755. It is a directory exactly where the bits
/// of its mode for the type of a file, the four above the last twelve, say so.
pub proof fn law_remote_attributes(ino: u64, st: FileStat)
    requires
        st.countable(),
    ensures
        ({
            let a = stat_attr(ino, st);
            &&& a.ino == ino
            &&& st.size is Some ==> a.size == st.size->0
            &&& st.size is None ==> a.size == 0
            &&& a.size <= 512 * a.blocks < a.size + 512
            &&& st.atime is Some ==> a.atime == st.atime->0
            &&& st.atime is None ==> a.atime == 0
            &&& st.mtime is Some ==> a.mtime == st.mtime->0
            &&& st.mtime is None ==> a.mtime == 0
            &&& a.ctime == a.mtime && a.crtime == a.mtime
            &&& st.uid is Some ==> a.uid == st.uid->0
            &&& st.uid is None ==> a.uid == 0
            &&& st.gid is Some ==> a.gid == st.gid->0
            &&& st.gid is None ==> a.gid == 0
            &&& st.perm is Some ==> (st.perm->0 - a.perm) % 0x1_0000 == 0
            &&& st.perm is None ==> a.perm == 493
            &&& (a.kind == FileKind::Directory <==> st.perm is Some && (st.perm->0 / 4096) % 16
                == 4)
            &&& (a.kind == FileKind::RegularFile <==> !(st.perm is Some && (st.perm->0 / 4096)
                % 16 == 4))
            &&& a.nlink == 1 && a.rdev == 0 && a.blksize == 4096 && a.flags == 0
        }),
{
    let p = or_else(st.perm, 0);
    assert((p & 0o170000 == 0o040000) <==> ((p / 4096) % 16 == 4)) by (bit_vector);
}

} // verus!
