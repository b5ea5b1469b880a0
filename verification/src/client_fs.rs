//! The client's file system: it shows the remote directory, keeps the files
//! that are opened in a cache, and takes writes there.
//!
//! As on the server, each request has two halves: what is to be done, and what
//! is answered to what came of it. The sets that other threads share, of dirty
//! files, of versions and of notices to ignore, are handed in.
use vstd::prelude::*;
use crate::attr::sftp_stat_to_attr;
use crate::attr::stat_attr;
use crate::attr::stat_kind;
use crate::attr::Errno;
use crate::attr::FileAttr;
use crate::attr::FileKind;
use crate::attr::FileStat;
use crate::bytes::ascii;
use crate::bytes::copy_range;
use crate::bytes::DOT;
use crate::cache::after_eviction;
use crate::cache::base_path;
use crate::cache::entry_files;
use crate::cache::evicted;
use crate::cache::local_path;
use crate::cache::removal_views;
use crate::cache::size_of;
use crate::cache::stored;
use crate::cache::to_base_path;
use crate::cache::total;
use crate::cache::touched;
use crate::cache::FileCache;
use crate::cache::Marking;
use crate::cache::Removal;
use crate::cache::MAX_CACHE_SIZE;
use crate::digest::cache_name;
use crate::dir::dots;
use crate::dir::entry_name;
use crate::dir::make_entry_name;
use crate::dir::shown_from;
use crate::dir::DirEntry;
use crate::handles::Handles;
use crate::path::components;
use crate::path::join;
use crate::path::join_path;
use crate::path::names;
use crate::path::rooted;
use crate::path::same;
use crate::pathset::has_path;
use crate::pathset::inode_in;
use crate::pathset::numbers;
use crate::pathset::path_in;
use crate::pathset::with_path;
use crate::pathset::InodeTable;
use crate::pathset::PathSet;
use crate::pathset::Versions;
use crate::protocol::dirty_line;

verus! {

/// What the client's file system keeps.
#[verifier::ext_equal]
pub struct ClientState {
    /// The remote directory.
    pub root: Seq<u8>,
    /// The directory of the cache.
    pub cache_dir: Seq<u8>,
    /// How many bytes the cache may hold.
    pub max_size: u64,
    /// The cached files and their sizes, the least recently used first.
    pub entries: Seq<(Seq<u8>, u64)>,
    /// The paths that have a number, in the order of their numbers.
    pub inodes: Seq<Seq<u8>>,
    /// The paths of the open files, by their handles.
    pub open: Map<u64, Seq<u8>>,
    /// The handle of the next file.
    pub next_fh: u64,
}

/// The client's file system.
pub struct SshFs {
    inodes: InodeTable,
    cache: FileCache,
    open_files: Handles<Vec<u8>>,
}

/// The paths of open files.
spec fn paths_open(m: Map<u64, Vec<u8>>) -> Map<u64, Seq<u8>> {
    m.map_values(|v: Vec<u8>| v@)
}

impl View for SshFs {
    type V = ClientState;

    closed spec fn view(&self) -> ClientState {
        ClientState {
            root: self.cache.remote_root(),
            cache_dir: self.cache.cache_dir(),
            max_size: self.cache.max_size(),
            entries: self.cache.entries(),
            inodes: self.inodes.texts(),
            open: paths_open(self.open_files@),
            next_fh: self.open_files.next(),
        }
    }
}

/// The path with a number, or the empty path.
pub open spec fn path_at(s: ClientState, ino: u64) -> Seq<u8> {
    match path_in(s.inodes, ino) {
        Some(p) => p,
        None => Seq::empty(),
    }
}

/// The path of an entry of a directory.
pub open spec fn child(s: ClientState, dir: u64, name: Seq<u8>) -> Seq<u8> {
    join(path_at(s, dir), name)
}

/// The state once `path` has a number.
pub open spec fn numbered(s: ClientState, path: Seq<u8>) -> ClientState {
    ClientState { inodes: with_path(s.inodes, path), ..s }
}

/// The number of `path`, which may be a new one.
pub open spec fn number_of(s: ClientState, path: Seq<u8>) -> u64 {
    inode_in(with_path(s.inodes, path), path) as u64
}

/// The state once the file at `path` is open.
pub open spec fn opened(s: ClientState, path: Seq<u8>) -> ClientState {
    ClientState {
        open: s.open.insert(s.next_fh, path),
        next_fh: (s.next_fh + 1) as u64,
        ..s
    }
}

/// The state once a cached file has been used.
pub open spec fn used(s: ClientState, path: Seq<u8>) -> ClientState {
    ClientState { entries: touched(s.entries, path), ..s }
}

/// The state once the cache holds `path` with a size.
pub open spec fn cached(
    s: ClientState,
    path: Seq<u8>,
    size: u64,
    dirty: Set<Seq<Seq<u8>>>,
) -> ClientState {
    ClientState {
        entries: after_eviction(stored(s.entries, path, size), dirty, s.max_size as int),
        ..s
    }
}

/// The files that go when the cache takes `path` with a size.
pub open spec fn driven_out(
    s: ClientState,
    path: Seq<u8>,
    size: u64,
    dirty: Set<Seq<Seq<u8>>>,
) -> Seq<(Seq<u8>, Seq<u8>)> {
    entry_files(s.cache_dir, evicted(stored(s.entries, path, size), dirty, s.max_size as int))
}

/// Whether the cache can count one more file of this size.
pub open spec fn has_room(s: ClientState, path: Seq<u8>, size: u64) -> bool {
    &&& s.entries.len() < usize::MAX
    &&& total(s.entries) - size_of(s.entries, path) + size <= u64::MAX
}

/// What is told of a file: of one with changes here, the size is that of the
/// cached file, where it is known.
pub open spec fn overlay(stat: FileStat, local_len: Option<u64>) -> FileStat {
    if local_len is Some {
        FileStat { size: local_len, ..stat }
    } else {
        stat
    }
}

/// Whether what is told of a file, where it is there, can be shown.
pub open spec fn showable(stat: Option<FileStat>, local_len: Option<u64>) -> bool {
    stat is Some ==> overlay(stat->0, local_len).countable()
}

/// Whether a file is fetched before it is opened: it is not cached, or it is
/// not dirty and has another size on the remote side.
pub open spec fn download_due(
    is_cached: bool,
    is_dirty: bool,
    remote: Option<FileStat>,
    local_len: Option<u64>,
) -> bool {
    !is_cached || (!is_dirty && remote is Some && remote->0.size is Some && local_len is Some
        && remote->0.size != local_len)
}

/// Whether a file is fetched before it is opened. `remote` and `local_len` are
/// looked at only where the file is cached and not dirty.
pub fn needs_download(
    is_cached: bool,
    is_dirty: bool,
    remote: Option<FileStat>,
    local_len: Option<u64>,
) -> (r: bool)
    ensures
        r == download_due(is_cached, is_dirty, remote, local_len),
{
    if !is_cached {
        return true;
    }
    if is_dirty {
        return false;
    }
    match (remote, local_len) {
        (Some(stat), Some(len)) => match stat.size {
            Some(size) => size != len,
            None => false,
        },
        _ => false,
    }
}

/// What came of fetching a file.
#[derive(Clone, Copy, Debug, PartialEq, Eq, Structural)]
pub enum Fetched {
    /// It was not fetched, because the cached file will do.
    Cached,
    /// The remote file could not be opened.
    Missing,
    /// The remote file was opened, and could not be read.
    Unread,
    /// So many bytes were read and stored.
    Stored(u64),
}

/// Where an open file is kept.
pub struct OpenPlan {
    /// The path of the file.
    pub path: Vec<u8>,
    /// Where it is cached.
    pub local: Vec<u8>,
    /// Where the server's version is kept.
    pub base: Vec<u8>,
    /// Whether it has changes that the server lacks.
    pub is_dirty: bool,
}

/// What follows a write.
pub struct Written {
    /// How many bytes were written.
    pub count: u32,
    /// How the change is marked.
    pub marking: Marking,
    /// The files that the cache drops.
    pub gone: Vec<Removal>,
}

/// A new size for a cached file.
pub struct Resize {
    /// Where it is cached.
    pub local: Vec<u8>,
    /// How the change is marked.
    pub marking: Marking,
}

/// A file that gets another name.
pub struct Renaming {
    /// The path that it has.
    pub from: Vec<u8>,
    /// The path that it gets.
    pub to: Vec<u8>,
    /// Where the first is cached.
    pub local_from: Vec<u8>,
    /// Where the second is cached.
    pub local_to: Vec<u8>,
}

/// An entry of a remote directory. The first two are the directory itself and
/// the one above it.
pub struct RemoteItem {
    /// The path of the entry.
    pub path: Vec<u8>,
    /// What is told of it.
    pub stat: FileStat,
}

/// What a listing tells of a directory itself and the one above it.
pub open spec fn dots_stat() -> FileStat {
    FileStat { size: None, uid: None, gid: None, perm: Some(0o755), atime: None, mtime: None }
}

/// A remote directory shows all its entries.
pub open spec fn all_shown(items: Seq<RemoteItem>) -> Seq<bool> {
    items.map_values(|e: RemoteItem| true)
}

/// Whether the marking of `path` is what its change calls for.
pub open spec fn marks(
    m: Marking,
    s: ClientState,
    path: Seq<u8>,
    dirty: Set<Seq<Seq<u8>>>,
) -> bool {
    &&& m.changed_file@ == join(join(s.cache_dir, ascii(".changed"@)), cache_name(path))
    &&& match m.announce {
        Some(line) => !dirty.contains(components(path)) && line@ == dirty_line(s.root, path),
        None => dirty.contains(components(path)),
    }
}

/// What goes to the background sync when a file is closed: the path of a file
/// with changes, and where it is cached.
pub open spec fn to_sync(
    s: ClientState,
    fh: u64,
    dirty: Set<Seq<Seq<u8>>>,
) -> Option<(Seq<u8>, Seq<u8>)> {
    if s.open.contains_key(fh) && dirty.contains(components(s.open[fh])) {
        Some((s.open[fh], local_path(s.cache_dir, s.open[fh])))
    } else {
        None
    }
}

impl SshFs {
    /// Whether the sizes in the cache add up.
    pub closed spec fn valid(&self) -> bool {
        self.cache.valid()
    }

    /// A file system over a remote directory, with an empty cache.
    pub fn new(remote_path: Vec<u8>, cache_dir: Vec<u8>) -> (r: Self)
        ensures
            r.valid(),
            r@ == (ClientState {
                root: remote_path@,
                cache_dir: cache_dir@,
                max_size: MAX_CACHE_SIZE,
                entries: Seq::empty(),
                inodes: seq![remote_path@],
                open: Map::empty(),
                next_fh: 1,
            }),
    {
        let inodes = InodeTable::new(remote_path.as_slice());
        let r = SshFs {
            inodes,
            cache: FileCache::new(cache_dir, remote_path),
            open_files: Handles::new(),
        };
        assert(r@.open =~= Map::empty());
        r
    }

    /// The cache.
    pub fn cache(&self) -> (r: &FileCache)
        requires
            self.valid(),
        ensures
            r.valid(),
            r.remote_root() == self@.root,
            r.cache_dir() == self@.cache_dir,
            r.entries() == self@.entries,
            r.max_size() == self@.max_size,
    {
        &self.cache
    }

    /// Whether the cache can count another file of this size, under any path.
    pub fn has_room(&self, size: u64) -> (r: bool)
        requires
            self.valid(),
        ensures
            r == (self@.entries.len() < usize::MAX && total(self@.entries) + size <= u64::MAX),
            r ==> forall|p: Seq<u8>| #[trigger] has_room(self@, p, size),
    {
        self.cache.fits(size)
    }

    /// The number of a path, which gets the next one where it has none.
    pub fn get_inode(&mut self, path: &[u8]) -> (r: u64)
        ensures
            r == number_of(old(self)@, path@),
            numbers(final(self)@.inodes, r, path@),
            final(self)@ == numbered(old(self)@, path@),
            final(self).valid() == old(self).valid(),
    {
        self.inodes.get_inode(path)
    }

    fn child_path(&self, dir: u64, name: &[u8]) -> (r: Vec<u8>)
        ensures
            r@ == child(self@, dir, name@),
    {
        let p = self.inodes.path_or_empty(dir);
        join_path(p.as_slice(), name)
    }

    // -----------------------------------------------------------------------
    // Looking
    // -----------------------------------------------------------------------

    /// Begins the lookup of an entry of a directory: its path.
    pub fn lookup(&self, dir: u64, name: &[u8]) -> (r: Result<Vec<u8>, Errno>)
        ensures
            match r {
                Ok(p) => path_in(self@.inodes, dir) is Some && p@ == child(self@, dir, name@),
                Err(e) => path_in(self@.inodes, dir) is None && e == Errno::NoEntry,
            },
    {
        match self.inodes.path(dir) {
            Some(p) => Ok(join_path(p.as_slice(), name)),
            None => Err(Errno::NoEntry),
        }
    }

    /// The cached file whose size stands for that of a file with changes.
    pub fn local_source(&self, path: &[u8], dirty: &PathSet) -> (r: Option<Vec<u8>>)
        ensures
            match r {
                Some(l) => dirty@.contains(components(path@)) && l@ == local_path(
                    self@.cache_dir,
                    path@,
                ),
                None => !dirty@.contains(components(path@)),
            },
    {
        if dirty.contains(path) {
            Some(self.cache.get_local_path(path))
        } else {
            None
        }
    }

    /// Ends a lookup: an entry that is there gets a number.
    pub fn lookup_reply(
        &mut self,
        path: &[u8],
        stat: Option<FileStat>,
        local_len: Option<u64>,
    ) -> (r: Result<FileAttr, Errno>)
        requires
            showable(stat, local_len),
        ensures
            match stat {
                Some(st) => {
                    &&& r == Ok::<FileAttr, Errno>(
                        stat_attr(number_of(old(self)@, path@), overlay(st, local_len)),
                    )
                    &&& numbers(final(self)@.inodes, r->Ok_0.ino, path@)
                    &&& final(self)@ == numbered(old(self)@, path@)
                },
                None => r == Err::<FileAttr, Errno>(Errno::NoEntry) && final(self)@ == old(self)@,
            },
            final(self).valid() == old(self).valid(),
    {
        match stat {
            Some(_) => {
                let ino = self.get_inode(path);
                self.attr_reply(ino, stat, local_len)
            },
            None => Err(Errno::NoEntry),
        }
    }

    /// The path of a known file, of which something is asked.
    pub fn getattr(&self, ino: u64) -> (r: Result<Vec<u8>, Errno>)
        ensures
            match r {
                Ok(p) => path_in(self@.inodes, ino) == Some(p@),
                Err(e) => path_in(self@.inodes, ino) is None && e == Errno::NoEntry,
            },
    {
        match self.inodes.path(ino) {
            Some(p) => Ok(p),
            None => Err(Errno::NoEntry),
        }
    }

    /// Answers with the attributes of a file that is there.
    pub fn attr_reply(&self, ino: u64, stat: Option<FileStat>, local_len: Option<u64>) -> (r:
        Result<FileAttr, Errno>)
        requires
            showable(stat, local_len),
        ensures
            r == match stat {
                Some(st) => Ok::<FileAttr, Errno>(stat_attr(ino, overlay(st, local_len))),
                None => Err(Errno::NoEntry),
            },
    {
        match stat {
            Some(st) => {
                let told = match local_len {
                    Some(n) => FileStat { size: Some(n), ..st },
                    None => st,
                };
                Ok(sftp_stat_to_attr(ino, &told))
            },
            None => Err(Errno::NoEntry),
        }
    }

    /// Begins to list a directory: its path.
    pub fn readdir(&self, ino: u64) -> (r: Result<Vec<u8>, Errno>)
        ensures
            match r {
                Ok(p) => path_in(self@.inodes, ino) == Some(p@),
                Err(e) => path_in(self@.inodes, ino) is None && e == Errno::NoEntry,
            },
    {
        self.getattr(ino)
    }

    /// All entries of a directory that could be read: those for the directory
    /// itself and the one above it, and then the remote ones.
    pub fn listing(&self, remote: Option<Vec<RemoteItem>>) -> (r: Result<Vec<RemoteItem>, Errno>)
        ensures
            match remote {
                Some(v) => {
                    &&& r is Ok
                    &&& r->Ok_0@.len() == v@.len() + 2
                    &&& r->Ok_0@[0].path@ == seq![DOT] && r->Ok_0@[0].stat == dots_stat()
                    &&& r->Ok_0@[1].path@ == seq![DOT, DOT] && r->Ok_0@[1].stat == dots_stat()
                    &&& r->Ok_0@.skip(2) == v@
                },
                None => r == Err::<Vec<RemoteItem>, Errno>(Errno::NoEntry),
            },
    {
        match remote {
            Some(v) => {
                let mut rest = v;
                let stat = FileStat {
                    size: None,
                    uid: None,
                    gid: None,
                    perm: Some(0o755),
                    atime: None,
                    mtime: None,
                };
                let mut items: Vec<RemoteItem> = Vec::new();
                items.push(RemoteItem { path: dots(1), stat });
                items.push(RemoteItem { path: dots(2), stat });
                items.append(&mut rest);
                assert(items@.skip(2) =~= v@);
                Ok(items)
            },
            None => Err(Errno::NoEntry),
        }
    }

    /// The next entry that the kernel is offered of the directory `ino`, from
    /// the entry at `from` on, where the kernel has those up to `offset`. The
    /// directory above is always given as the root.
    pub fn next_entry(&mut self, ino: u64, items: &Vec<RemoteItem>, offset: i64, from: usize) -> (r:
        Option<DirEntry>)
        requires
            items@.len() <= i64::MAX,
        ensures
            ({
                let i = shown_from(all_shown(items@), offset, from as int);
                &&& r is Some <==> i < items@.len()
                &&& match r {
                    Some(e) => {
                        &&& e.ino == if i == 0 {
                            ino
                        } else if i == 1 {
                            1
                        } else {
                            number_of(old(self)@, items@[i].path@)
                        }
                        &&& i >= 2 ==> numbers(final(self)@.inodes, e.ino, items@[i].path@)
                        &&& e.cookie == i + 1
                        &&& e.kind == stat_kind(items@[i].stat)
                        &&& e.name@ == entry_name(items@[i].path@, i)
                        &&& final(self)@ == if i < 2 {
                            old(self)@
                        } else {
                            numbered(old(self)@, items@[i].path@)
                        }
                    },
                    None => final(self)@ == old(self)@,
                }
            }),
            final(self).valid() == old(self).valid(),
    {
        let ghost sh = all_shown(items@);
        let mut i: usize = from;
        while i < items.len() && i as i64 + 1 <= offset
            invariant
                from <= i,
                sh == all_shown(items@),
                sh.len() == items@.len() <= i64::MAX,
                shown_from(sh, offset, i as int) == shown_from(sh, offset, from as int),
                self@ == old(self)@,
                self.valid() == old(self).valid(),
            decreases items@.len() - i,
        {
            i += 1;
        }
        if i >= items.len() {
            return None;
        }
        assert(sh[i as int]);
        let item = &items[i];
        let entry_ino: u64 = if i == 0 {
            ino
        } else if i == 1 {
            1
        } else {
            self.get_inode(item.path.as_slice())
        };
        let kind = if item.stat.is_dir() {
            FileKind::Directory
        } else {
            FileKind::RegularFile
        };
        let name = make_entry_name(item.path.as_slice(), i);
        Some(DirEntry { ino: entry_ino, cookie: i as i64 + 1, kind, name })
    }

    // -----------------------------------------------------------------------
    // Open files
    // -----------------------------------------------------------------------

    /// Begins to open a file: where it is kept.
    pub fn open(&self, ino: u64, dirty: &PathSet) -> (r: Result<OpenPlan, Errno>)
        ensures
            match r {
                Ok(p) => {
                    &&& path_in(self@.inodes, ino) == Some(p.path@)
                    &&& p.local@ == local_path(self@.cache_dir, p.path@)
                    &&& p.base@ == base_path(p.local@)
                    &&& p.is_dirty == dirty@.contains(components(p.path@))
                },
                Err(e) => path_in(self@.inodes, ino) is None && e == Errno::NoEntry,
            },
    {
        match self.inodes.path(ino) {
            Some(path) => {
                let local = self.cache.get_local_path(path.as_slice());
                let base = to_base_path(local.as_slice());
                let is_dirty = dirty.contains(path.as_slice());
                Ok(OpenPlan { path, local, base, is_dirty })
            },
            None => Err(Errno::NoEntry),
        }
    }

    /// Whether there are handles left.
    pub fn has_handles(&self) -> (r: bool)
        ensures
            r == (self@.next_fh < u64::MAX),
    {
        self.open_files.has_next()
    }

    fn open_path(&mut self, path: &[u8]) -> (r: u64)
        requires
            old(self)@.next_fh < u64::MAX,
        ensures
            r == old(self)@.next_fh,
            final(self)@ == opened(old(self)@, path@),
            final(self).valid() == old(self).valid(),
    {
        let copy = copy_range(path, 0, path.len());
        assert(copy@ =~= path@);
        let fh = self.open_files.open(copy);
        assert(self@.open =~= old(self)@.open.insert(fh, path@));
        fh
    }

    /// Ends the opening of a file: it gets a handle, unless it was to be
    /// fetched and is missing. Tells too which files the cache drops.
    pub fn open_reply(&mut self, path: &[u8], fetched: Fetched, dirty: &PathSet) -> (r: Result<
        (u64, Vec<Removal>),
        Errno,
    >)
        requires
            old(self).valid(),
            old(self)@.next_fh < u64::MAX,
            fetched matches Fetched::Stored(size) ==> has_room(old(self)@, path@, size),
        ensures
            final(self).valid(),
            fetched == Fetched::Missing ==> r == Err::<(u64, Vec<Removal>), Errno>(Errno::NoEntry)
                && final(self)@ == old(self)@,
            fetched != Fetched::Missing ==> r is Ok && r->Ok_0.0 == old(self)@.next_fh,
            fetched == Fetched::Cached ==> r->Ok_0.1@.len() == 0 && final(self)@ == opened(
                used(old(self)@, path@),
                path@,
            ),
            fetched == Fetched::Unread ==> r->Ok_0.1@.len() == 0 && final(self)@ == opened(
                old(self)@,
                path@,
            ),
            fetched matches Fetched::Stored(size) ==> {
                &&& removal_views(r->Ok_0.1@) == driven_out(old(self)@, path@, size, dirty@)
                &&& final(self)@ == opened(cached(old(self)@, path@, size, dirty@), path@)
            },
    {
        let gone = match fetched {
            Fetched::Missing => {
                return Err(Errno::NoEntry);
            },
            Fetched::Cached => {
                self.cache.touch(path);
                Vec::new()
            },
            Fetched::Unread => Vec::new(),
            Fetched::Stored(size) => self.cache.add_file(path, size, dirty),
        };
        let fh = self.open_path(path);
        Ok((fh, gone))
    }

    /// The path of an open file, and where it is cached.
    fn open_file(&self, fh: u64) -> (r: Result<(Vec<u8>, Vec<u8>), Errno>)
        ensures
            match r {
                Ok(v) => {
                    &&& self@.open.contains_key(fh)
                    &&& v.0@ == self@.open[fh]
                    &&& v.1@ == local_path(self@.cache_dir, v.0@)
                },
                Err(e) => !self@.open.contains_key(fh) && e == Errno::Io,
            },
    {
        match self.open_files.get(fh) {
            Some(p) => {
                let path = copy_range(p.as_slice(), 0, p.len());
                assert(path@ =~= p@);
                let local = self.cache.get_local_path(path.as_slice());
                Ok((path, local))
            },
            None => Err(Errno::Io),
        }
    }

    /// Begins to read from an open file: its path, and where it is cached.
    pub fn read(&self, fh: u64) -> (r: Result<(Vec<u8>, Vec<u8>), Errno>)
        ensures
            match r {
                Ok(v) => {
                    &&& self@.open.contains_key(fh)
                    &&& v.0@ == self@.open[fh]
                    &&& v.1@ == local_path(self@.cache_dir, v.0@)
                },
                Err(e) => !self@.open.contains_key(fh) && e == Errno::Io,
            },
    {
        self.open_file(fh)
    }

    /// Ends a read: a file that was read has been used.
    pub fn read_reply(&mut self, path: &[u8], data: Option<Vec<u8>>) -> (r: Result<Vec<u8>, Errno>)
        requires
            old(self).valid(),
        ensures
            final(self).valid(),
            match data {
                Some(v) => r == Ok::<Vec<u8>, Errno>(v) && final(self)@ == used(old(self)@, path@),
                None => r == Err::<Vec<u8>, Errno>(Errno::Io) && final(self)@ == old(self)@,
            },
    {
        match data {
            Some(v) => {
                self.cache.touch(path);
                Ok(v)
            },
            None => Err(Errno::Io),
        }
    }

    /// Begins to write to an open file: its path, and where it is cached.
    pub fn write(&self, fh: u64) -> (r: Result<(Vec<u8>, Vec<u8>), Errno>)
        ensures
            match r {
                Ok(v) => {
                    &&& self@.open.contains_key(fh)
                    &&& v.0@ == self@.open[fh]
                    &&& v.1@ == local_path(self@.cache_dir, v.0@)
                },
                Err(e) => !self@.open.contains_key(fh) && e == Errno::Io,
            },
    {
        self.open_file(fh)
    }

    /// Ends a write of so many bytes, after which the cached file has the
    /// length `len`, where that is known: the file is dirty, its version goes
    /// up, and its size in the cache is the new one.
    pub fn write_reply(
        &mut self,
        path: &[u8],
        written: Option<usize>,
        len: Option<u64>,
        dirty: &mut PathSet,
        versions: &mut Versions,
    ) -> (r: Result<Written, Errno>)
        requires
            old(self).valid(),
            len is Some ==> has_room(old(self)@, path@, len->0),
            old(versions).version(path@) < u64::MAX,
        ensures
            final(self).valid(),
            written is None ==> {
                &&& r == Err::<Written, Errno>(Errno::Io)
                &&& final(self)@ == old(self)@
                &&& *final(dirty) == *old(dirty)
                &&& *final(versions) == *old(versions)
            },
            written is Some ==> {
                &&& r is Ok
                &&& r->Ok_0.count == written->0 as u32
                &&& marks(r->Ok_0.marking, old(self)@, path@, old(dirty)@)
                &&& final(dirty)@ == old(dirty)@.insert(components(path@))
                &&& final(dirty).texts() == with_path(old(dirty).texts(), path@)
                &&& forall|q: Seq<u8>| #[trigger]
                    final(versions).version(q) == if same(q, path@) {
                        old(versions).version(q) + 1
                    } else {
                        old(versions).version(q) as int
                    }
                &&& match len {
                    Some(n) => {
                        &&& final(self)@ == cached(old(self)@, path@, n, final(dirty)@)
                        &&& removal_views(r->Ok_0.gone@) == driven_out(
                            old(self)@,
                            path@,
                            n,
                            final(dirty)@,
                        )
                    },
                    None => final(self)@ == used(old(self)@, path@) && r->Ok_0.gone@.len() == 0,
                }
            },
    {
        match written {
            Some(n) => {
                let marking = self.cache.mark_dirty(path, dirty);
                let gone = match len {
                    Some(size) => self.cache.update_size(path, size, dirty),
                    None => {
                        self.cache.touch(path);
                        Vec::new()
                    },
                };
                versions.bump(path);
                #[verifier::truncate]
                let count: u32 = n as u32;
                Ok(Written { count, marking, gone })
            },
            None => Err(Errno::Io),
        }
    }

    /// Closes a file. One with changes goes to the background sync: its path,
    /// and where it is cached.
    pub fn release(&mut self, fh: u64, dirty: &PathSet) -> (r: Option<(Vec<u8>, Vec<u8>)>)
        ensures
            final(self)@ == (ClientState { open: old(self)@.open.remove(fh), ..old(self)@ }),
            final(self).valid() == old(self).valid(),
            match r {
                Some(v) => {
                    &&& old(self)@.open.contains_key(fh)
                    &&& dirty@.contains(components(old(self)@.open[fh]))
                    &&& v.0@ == old(self)@.open[fh]
                    &&& v.1@ == local_path(old(self)@.cache_dir, v.0@)
                },
                None => !(old(self)@.open.contains_key(fh) && dirty@.contains(
                    components(old(self)@.open[fh]),
                )),
            },
            match r {
                Some(v) => to_sync(old(self)@, fh, dirty@) == Some((v.0@, v.1@)),
                None => to_sync(old(self)@, fh, dirty@) is None,
            },
    {
        let closed = self.open_files.close(fh);
        assert(self@.open =~= old(self)@.open.remove(fh));
        match closed {
            Some(path) => {
                if dirty.contains(path.as_slice()) {
                    let local = self.cache.get_local_path(path.as_slice());
                    Some((path, local))
                } else {
                    None
                }
            },
            None => None,
        }
    }

    // -----------------------------------------------------------------------
    // Changing the remote side
    // -----------------------------------------------------------------------

    /// Begins to make a directory. The notice of it is to be ignored.
    pub fn mkdir(&self, dir: u64, name: &[u8], ignores: &mut PathSet) -> (r: Vec<u8>)
        ensures
            r@ == child(self@, dir, name@),
            final(ignores)@ == old(ignores)@.insert(components(r@)),
    {
        let path = self.child_path(dir, name);
        let _ = ignores.insert(path.as_slice());
        path
    }

    /// Ends the making of a directory, which gets a number where it was made.
    pub fn mkdir_reply(&mut self, path: &[u8], made: bool, stat: Option<FileStat>) -> (r: Result<
        FileAttr,
        Errno,
    >)
        requires
            showable(stat, None),
        ensures
            !made ==> r == Err::<FileAttr, Errno>(Errno::Io) && final(self)@ == old(self)@,
            made ==> numbers(final(self)@.inodes, number_of(old(self)@, path@), path@),
            made ==> final(self)@ == numbered(old(self)@, path@) && r == match stat {
                Some(st) => Ok::<FileAttr, Errno>(stat_attr(number_of(old(self)@, path@), st)),
                None => Err(Errno::NoEntry),
            },
            final(self).valid() == old(self).valid(),
    {
        if !made {
            return Err(Errno::Io);
        }
        let ino = self.get_inode(path);
        self.attr_reply(ino, stat, None)
    }

    /// Begins to remove a file: its path, and the cached file, which goes. The
    /// notice of it is to be ignored.
    pub fn unlink(&self, dir: u64, name: &[u8], ignores: &mut PathSet) -> (r: (Vec<u8>, Vec<u8>))
        ensures
            r.0@ == child(self@, dir, name@),
            r.1@ == local_path(self@.cache_dir, r.0@),
            final(ignores)@ == old(ignores)@.insert(components(r.0@)),
    {
        let path = self.child_path(dir, name);
        let local = self.cache.get_local_path(path.as_slice());
        let _ = ignores.insert(path.as_slice());
        (path, local)
    }

    /// Begins to remove a directory. The notice of it is to be ignored.
    pub fn rmdir(&self, dir: u64, name: &[u8], ignores: &mut PathSet) -> (r: Vec<u8>)
        ensures
            r@ == child(self@, dir, name@),
            final(ignores)@ == old(ignores)@.insert(components(r@)),
    {
        let path = self.child_path(dir, name);
        let _ = ignores.insert(path.as_slice());
        path
    }

    /// Begins to rename a file: both paths, and where either is cached. The
    /// notices of both are to be ignored.
    pub fn rename(
        &self,
        dir: u64,
        name: &[u8],
        new_dir: u64,
        new_name: &[u8],
        ignores: &mut PathSet,
    ) -> (r: Renaming)
        ensures
            r.from@ == child(self@, dir, name@),
            r.to@ == child(self@, new_dir, new_name@),
            r.local_from@ == local_path(self@.cache_dir, r.from@),
            r.local_to@ == local_path(self@.cache_dir, r.to@),
            final(ignores)@ == old(ignores)@.insert(components(r.from@)).insert(
                components(r.to@),
            ),
    {
        let from = self.child_path(dir, name);
        let to = self.child_path(new_dir, new_name);
        let local_from = self.cache.get_local_path(from.as_slice());
        let local_to = self.cache.get_local_path(to.as_slice());
        let _ = ignores.insert(from.as_slice());
        let _ = ignores.insert(to.as_slice());
        Renaming { from, to, local_from, local_to }
    }

    /// Ends a removal or a renaming.
    pub fn done_reply(&self, done: bool) -> (r: Result<(), Errno>)
        ensures
            r == if done {
                Ok::<(), Errno>(())
            } else {
                Err(Errno::Io)
            },
    {
        if done {
            Ok(())
        } else {
            Err(Errno::Io)
        }
    }

    /// Begins to create a file. The notice of it is to be ignored.
    pub fn create(&self, dir: u64, name: &[u8], ignores: &mut PathSet) -> (r: Vec<u8>)
        ensures
            r@ == child(self@, dir, name@),
            final(ignores)@ == old(ignores)@.insert(components(r@)),
    {
        let path = self.child_path(dir, name);
        let _ = ignores.insert(path.as_slice());
        path
    }

    /// Takes in a created file, which gets a number and a handle, and tells
    /// where it and its server's version are kept, both empty. Where it could
    /// not be created, the request fails.
    pub fn created(&mut self, path: &[u8], done: bool) -> (r: Result<
        (u64, u64, Vec<u8>, Vec<u8>),
        Errno,
    >)
        requires
            old(self)@.next_fh < u64::MAX,
        ensures
            final(self).valid() == old(self).valid(),
            match r {
                Ok(v) => {
                    &&& done
                    &&& v.0 == number_of(old(self)@, path@)
                    &&& numbers(final(self)@.inodes, v.0, path@)
                    &&& v.1 == old(self)@.next_fh
                    &&& v.2@ == local_path(old(self)@.cache_dir, path@)
                    &&& v.3@ == base_path(v.2@)
                    &&& final(self)@ == opened(numbered(old(self)@, path@), path@)
                },
                Err(e) => !done && e == Errno::Io && final(self)@ == old(self)@,
            },
    {
        if !done {
            return Err(Errno::Io);
        }
        let ino = self.get_inode(path);
        let fh = self.open_path(path);
        let local = self.cache.get_local_path(path);
        let base = to_base_path(local.as_slice());
        Ok((ino, fh, local, base))
    }

    /// Begins to set the attributes of a file, of which only the size is set.
    /// A new size is a change: the cached file gets it and is marked, and its
    /// version goes up.
    pub fn setattr(
        &self,
        ino: u64,
        size: Option<u64>,
        dirty: &mut PathSet,
        versions: &mut Versions,
    ) -> (r: (Vec<u8>, Option<Resize>))
        requires
            self.valid(),
            size is Some ==> old(versions).version(path_at(self@, ino)) < u64::MAX,
        ensures
            r.0@ == path_at(self@, ino),
            size is None ==> {
                &&& r.1 is None
                &&& *final(dirty) == *old(dirty)
                &&& *final(versions) == *old(versions)
            },
            size is Some ==> {
                &&& r.1 is Some
                &&& r.1->0.local@ == local_path(self@.cache_dir, r.0@)
                &&& marks(r.1->0.marking, self@, r.0@, old(dirty)@)
                &&& final(dirty)@ == old(dirty)@.insert(components(r.0@))
                &&& final(dirty).texts() == with_path(old(dirty).texts(), r.0@)
                &&& forall|q: Seq<u8>| #[trigger]
                    final(versions).version(q) == if same(q, r.0@) {
                        old(versions).version(q) + 1
                    } else {
                        old(versions).version(q) as int
                    }
            },
    {
        let path = self.inodes.path_or_empty(ino);
        match size {
            Some(_) => {
                let local = self.cache.get_local_path(path.as_slice());
                let marking = self.cache.mark_dirty(path.as_slice(), dirty);
                versions.bump(path.as_slice());
                (path, Some(Resize { local, marking }))
            },
            None => (path, None),
        }
    }

    /// The path of a file whose attributes are set; empty where it is not
    /// known.
    pub fn set_path(&self, ino: u64) -> (r: Vec<u8>)
        ensures
            r@ == path_at(self@, ino),
    {
        self.inodes.path_or_empty(ino)
    }
}

/// A remote directory is listed whole and in order: the entry offered next is
/// the first that the kernel lacks, or the first from `i` on.
pub proof fn law_listing_is_whole(items: Seq<RemoteItem>, offset: i64, i: int)
    requires
        0 <= i <= items.len(),
    ensures
        ({
            let k = if offset > i {
                offset as int
            } else {
                i
            };
            shown_from(all_shown(items), offset, i) == if k < items.len() {
                k
            } else {
                items.len() as int
            }
        }),
    decreases items.len() - i,
{
    if i < items.len() {
        assert(all_shown(items)[i]);
        if i + 1 <= offset {
            law_listing_is_whole(items, offset, i + 1);
        }
    }
}

/// The attributes of a file that was just looked up are those of the path that
/// was looked up, under the number that it was given, for as long as nothing
/// else changes: the path is found again, it is dirty exactly where it was,
/// and its text is the same where it was new.
pub proof fn law_getattr_repeats_lookup(s: ClientState, path: Seq<u8>, ino: u64)
    requires
        ino == number_of(s, path),
        numbers(numbered(s, path).inodes, ino, path),
    ensures
        path_in(numbered(s, path).inodes, ino) is Some,
        same(path_at(numbered(s, path), ino), path),
        !has_path(s.inodes, path) ==> path_at(numbered(s, path), ino) == path,
        forall|dirty: Set<Seq<Seq<u8>>>| #[trigger]
            dirty.contains(components(path_at(numbered(s, path), ino))) == dirty.contains(
                components(path),
            ),
{
    if !has_path(s.inodes, path) {
        let ts = numbered(s, path).inodes;
        crate::pathset::lemma_find_path(ts, path);
        assert(ts[ino - 1] == path) by {
            if ino - 1 < s.inodes.len() {
                assert(ts[ino - 1] == s.inodes[ino - 1]);
            }
        }
    }
}

/// A cached file with changes is not fetched again, so that opening it never
/// overwrites them; and neither is one that has its remote size.
pub proof fn law_changes_are_not_overwritten(stat: FileStat, local_len: Option<u64>)
    ensures
        !download_due(true, true, Some(stat), local_len),
        !download_due(true, true, None, local_len),
        stat.size == local_len ==> !download_due(true, false, Some(stat), local_len),
{
}

/// A file that was just written stays in the cache, with its new size,
/// whatever else is driven out.
pub proof fn law_written_file_stays(
    s: ClientState,
    path: Seq<u8>,
    size: u64,
    dirty: Set<Seq<Seq<u8>>>,
)
    requires
        dirty.contains(components(path)),
    ensures
        exists|p: Seq<u8>| #[trigger]
            cached(s, path, size, dirty).entries.contains((p, size)) && same(p, path),
{
    let es = stored(s.entries, path, size);
    let i = crate::cache::slot(s.entries, path);
    crate::pathset::lemma_find_path(crate::cache::paths_of(s.entries), path);
    let p = if i < s.entries.len() {
        s.entries[i].0
    } else {
        path
    };
    if i < s.entries.len() {
        assert(crate::cache::paths_of(s.entries)[i] == p);
    }
    assert(same(p, path));
    assert(es[es.len() - 1] == (p, size));
    assert(es.contains((p, size)));
    crate::cache::law_dirty_files_stay(es, dirty, s.max_size as int, (p, size));
    assert(cached(s, path, size, dirty).entries.contains((p, size)));
}

/// A file that is not cached is always fetched. A cached file without changes,
/// of which both sizes are known, is fetched exactly where they differ, in
/// either direction; where one is not known, it is not fetched.
pub proof fn law_outdated_file_is_fetched(
    is_dirty: bool,
    remote: Option<FileStat>,
    stat: FileStat,
    n: u64,
)
    ensures
        download_due(false, is_dirty, remote, Some(n)),
        download_due(false, is_dirty, remote, None),
        download_due(true, false, Some(stat), Some(n)) <==> stat.size is Some && stat.size->0 != n,
        !download_due(true, false, None, Some(n)),
        !download_due(true, false, remote, None),
{
}

/// An entry lies in the directory asked for: where the number `dir` has a path
/// that is not empty, the path of an entry has its components and then those
/// of the name. Under a number that no file has, the name stands alone.
pub proof fn law_entries_lie_in_directory(s: ClientState, dir: u64, name: Seq<u8>)
    requires
        !rooted(name),
    ensures
        1 <= dir <= s.inodes.len() && s.inodes[dir - 1].len() > 0 ==> components(
            child(s, dir, name),
        ) == components(s.inodes[dir - 1]) + names(name),
        dir == 0 || dir > s.inodes.len() ==> child(s, dir, name) == name,
{
    if 1 <= dir <= s.inodes.len() && s.inodes[dir - 1].len() > 0 {
        crate::path::law_join_components(s.inodes[dir - 1], name);
    } else if dir == 0 || dir > s.inodes.len() {
        assert(Seq::<u8>::empty() + name =~= name);
    }
}

/// The path with a number is the one in the table, and none where there is no
/// such number.
pub proof fn law_path_of_number(s: ClientState, ino: u64)
    ensures
        1 <= ino <= s.inodes.len() ==> path_in(s.inodes, ino) == Some(s.inodes[ino - 1])
            && path_at(s, ino) == s.inodes[ino - 1],
        ino == 0 || ino > s.inodes.len() ==> path_in(s.inodes, ino) is None && path_at(
            s,
            ino,
        ).len() == 0,
{
}

/// Of a file with changes here the size is that of the cached file, where it is
/// known, and all else is what the remote side tells.
pub proof fn law_changed_file_has_local_size(ino: u64, stat: FileStat, n: u64)
    ensures
        stat_attr(ino, overlay(stat, Some(n))).size == n,
        overlay(stat, Some(n)).uid == stat.uid,
        overlay(stat, Some(n)).gid == stat.gid,
        overlay(stat, Some(n)).perm == stat.perm,
        overlay(stat, Some(n)).atime == stat.atime,
        overlay(stat, Some(n)).mtime == stat.mtime,
        overlay(stat, None) == stat,
{
}

/// A request changes of the state what it is for, and nothing else: opening a
/// file gives it a handle of its own, a number is added to the table, and the
/// cache keeps its place and its limit.
pub proof fn law_requests_keep_the_rest(
    s: ClientState,
    path: Seq<u8>,
    size: u64,
    dirty: Set<Seq<Seq<u8>>>,
    fh: u64,
)
    requires
        s.next_fh < u64::MAX,
    ensures
        ({
            let t = opened(s, path);
            &&& t.open.contains_key(s.next_fh) && t.open[s.next_fh] == path
            &&& fh != s.next_fh ==> t.open.contains_key(fh) == s.open.contains_key(fh)
            &&& fh != s.next_fh && s.open.contains_key(fh) ==> t.open[fh] == s.open[fh]
            &&& t.next_fh == s.next_fh + 1
            &&& t.entries == s.entries && t.inodes == s.inodes
            &&& t.root == s.root && t.cache_dir == s.cache_dir && t.max_size == s.max_size
        }),
        ({
            let t = numbered(s, path);
            &&& crate::pathset::grown(s.inodes, t.inodes)
            &&& has_path(t.inodes, path)
            &&& t.inodes.len() <= s.inodes.len() + 1
            &&& t.entries == s.entries && t.open == s.open && t.next_fh == s.next_fh
            &&& t.root == s.root && t.cache_dir == s.cache_dir && t.max_size == s.max_size
        }),
        ({
            let t = used(s, path);
            &&& total(t.entries) == total(s.entries)
            &&& has_path(crate::cache::paths_of(s.entries), path) ==> t.entries.len() > 0 && same(
                t.entries.last().0,
                path,
            )
            &&& t.inodes == s.inodes && t.open == s.open && t.next_fh == s.next_fh
            &&& t.root == s.root && t.cache_dir == s.cache_dir && t.max_size == s.max_size
        }),
        ({
            let t = cached(s, path, size, dirty);
            &&& crate::cache::within_limit(t.entries, dirty, s.max_size as int)
            &&& t.inodes == s.inodes && t.open == s.open && t.next_fh == s.next_fh
            &&& t.root == s.root && t.cache_dir == s.cache_dir && t.max_size == s.max_size
        }),
{
    assert(s.inodes.take(s.inodes.len() as int) =~= s.inodes);
    crate::pathset::law_tables_grow(s.inodes, s.inodes, path);
    if !has_path(s.inodes, path) {
        assert(same(numbered(s, path).inodes[s.inodes.len() as int], path));
    }
    crate::cache::law_used_file(s.entries, path);
    if has_path(crate::cache::paths_of(s.entries), path) {
        crate::pathset::lemma_find_path(crate::cache::paths_of(s.entries), path);
    }
    crate::cache::law_eviction_reaches_limit(
        stored(s.entries, path, size),
        dirty,
        s.max_size as int,
    );
}

/// What is driven out when a file is taken in are the two files of entries that
/// were cached and are not dirty, of the file itself or of others; what was
/// cached and is dirty stays.
pub proof fn law_only_clean_files_go(
    s: ClientState,
    path: Seq<u8>,
    size: u64,
    dirty: Set<Seq<Seq<u8>>>,
    i: int,
)
    requires
        0 <= i < driven_out(s, path, size, dirty).len(),
    ensures
        exists|e: (Seq<u8>, u64)|
            #![trigger stored(s.entries, path, size).contains(e)]
            {
                &&& stored(s.entries, path, size).contains(e)
                &&& !dirty.contains(components(e.0))
                &&& driven_out(s, path, size, dirty)[i] == (
                    local_path(s.cache_dir, e.0),
                    base_path(local_path(s.cache_dir, e.0)),
                )
            },
{
    let es = stored(s.entries, path, size);
    let gone = evicted(es, dirty, s.max_size as int);
    crate::cache::law_removed_files(s.cache_dir, gone, i);
    let e = gone[i];
    assert(gone.contains(e));
    crate::cache::law_dirty_files_stay(es, dirty, s.max_size as int, e);
    assert(es.contains(e));
}

/// An entry that is listed is named by the last name of its path, and the
/// directory itself and the one above it as they stand; what is told of these
/// two is that they have the mode 0755 and nothing more.
pub proof fn law_listed_entry(dir: Seq<u8>, name: Seq<u8>, i: int)
    requires
        i >= 2,
        dir.len() > 0,
        !crate::path::skipped(name),
        name != seq![DOT, DOT],
        forall|j: int| 0 <= j < name.len() ==> name[j] != crate::path::SLASH,
    ensures
        entry_name(join(dir, name), i) == name,
        entry_name(name, 0) == name,
        entry_name(name, 1) == name,
        dots_stat().perm == Some(493u32),
        dots_stat().size is None && dots_stat().uid is None && dots_stat().gid is None,
        dots_stat().atime is None && dots_stat().mtime is None,
{
    crate::path::law_joined_name(dir, name);
}

/// A file that was opened, written and closed goes to the background sync under
/// its own path, from where it is cached; a file without changes does not, nor
/// does anything under a handle that no file has.
pub proof fn law_closed_file_is_synced(
    s: ClientState,
    path: Seq<u8>,
    dirty: Set<Seq<Seq<u8>>>,
    fh: u64,
)
    requires
        s.next_fh < u64::MAX,
    ensures
        to_sync(opened(s, path), s.next_fh, dirty.insert(components(path))) == Some(
            (path, local_path(s.cache_dir, path)),
        ),
        !dirty.contains(components(path)) ==> to_sync(opened(s, path), s.next_fh, dirty) is None,
        !s.open.contains_key(fh) ==> to_sync(s, fh, dirty) is None,
{
}

} // verus!
