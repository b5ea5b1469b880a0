//! The server's file system: it shows the backing directory under the
//! workspace's own path, and refuses files that a client has locked.
//!
//! Each request has two halves. The first says what is to be done on disk, or
//! why the request is refused; the second takes what came of it and says what
//! is answered, and which line goes to the subscribers.
use vstd::prelude::*;
use crate::attr::fs_meta_to_attr;
use crate::attr::meta_attr;
use crate::attr::Errno;
use crate::attr::FileAttr;
use crate::attr::FileKind;
use crate::attr::Metadata;
use crate::bytes::copy_range;
use crate::bytes::find_from;
use crate::bytes::DOT;
use crate::bytes::NEWLINE;
use crate::dir::dots;
use crate::dir::entry_name;
use crate::dir::make_entry_name;
use crate::dir::shown_from;
use crate::dir::DirEntry;
use crate::handles::Handles;
use crate::path::components;
use crate::path::is_under;
use crate::path::join;
use crate::path::join_path;
use crate::path::names;
use crate::path::parent;
use crate::path::parent_path;
use crate::path::rooted;
use crate::path::same;
use crate::path::same_path;
use crate::path::strip;
use crate::path::strip_prefix;
use crate::path::SLASH;
use crate::pathset::grown;
use crate::pathset::inode_in;
use crate::pathset::numbers;
use crate::pathset::path_in;
use crate::pathset::with_path;
use crate::pathset::InodeTable;
use crate::pathset::PathSet;
use crate::protocol::invalidate_line;
use crate::protocol::make_invalidate_line;
use crate::protocol::notice;
use crate::protocol::sendable;
use crate::protocol::wire_path;

verus! {

/// The bits of the flags of an open file that say how it is to be used.
pub const ACCESS_MODE: i32 = 3;

/// These bits for reading.
pub const READ_ONLY: i32 = 0;

/// These bits for reading and writing.
pub const READ_WRITE: i32 = 2;

// ---------------------------------------------------------------------------
// Paths
// ---------------------------------------------------------------------------

/// A path of the workspace, taken from the backing directory on.
pub open spec fn below(backing: Seq<u8>, path: Seq<u8>) -> Seq<u8> {
    join(
        backing,
        match strip(path, seq![SLASH]) {
            Some(r) => r,
            None => path,
        },
    )
}

/// Where a path of the workspace lies on disk.
pub open spec fn real_path(backing: Seq<u8>, rel: Seq<u8>) -> Seq<u8> {
    if rel.len() == 0 || same(rel, seq![SLASH]) {
        backing
    } else {
        below(backing, rel)
    }
}

fn root_path() -> (r: Vec<u8>)
    ensures
        r@ == seq![SLASH],
{
    let mut r: Vec<u8> = Vec::new();
    r.push(SLASH);
    assert(r@ =~= seq![SLASH]);
    r
}

/// A path of the workspace, taken from the backing directory on.
pub fn path_below(backing: &[u8], path: &[u8]) -> (r: Vec<u8>)
    ensures
        r@ == below(backing@, path@),
{
    let root = root_path();
    match strip_prefix(path, root.as_slice()) {
        Some(rest) => join_path(backing, rest.as_slice()),
        None => join_path(backing, path),
    }
}

/// A path of the workspace lies on disk where its names lead from the backing
/// directory; and a change that is sent for it goes there too.
pub proof fn law_real_path(backing: Seq<u8>, rel: Seq<u8>)
    requires
        backing.len() > 0,
        rooted(rel),
    ensures
        components(real_path(backing, rel)) == components(backing) + names(rel),
        same(below(backing, rel), real_path(backing, rel)),
{
    let root = seq![SLASH];
    crate::protocol::lemma_root_components();
    assert(rel.take(1) =~= root);
    assert(components(rel) == seq![root] + names(rel));
    assert(components(rel).take(1) =~= components(root));
    crate::path::law_strip_components(rel, root);
    let r = strip(rel, root)->0;
    assert(components(rel).skip(1) =~= names(rel));
    crate::path::law_join_components(backing, r);
    assert(components(below(backing, rel)) == components(backing) + names(rel));
    if same(rel, root) {
        assert(names(rel) =~= Seq::empty()) by {
            assert(components(rel).len() == 1);
        }
        assert(components(backing) + names(rel) =~= components(backing));
    }
}

// ---------------------------------------------------------------------------
// State
// ---------------------------------------------------------------------------

/// What the server's file system keeps.
#[verifier::ext_equal]
pub struct ServerState {
    /// The backing directory.
    pub backing: Seq<u8>,
    /// The paths that have a number, in the order of their numbers.
    pub inodes: Seq<Seq<u8>>,
    /// The handles of the open files.
    pub open: Set<u64>,
    /// The handle of the next file.
    pub next_fh: u64,
}

/// The server's file system.
pub struct ServerDaemonFs {
    backing_dir: Vec<u8>,
    inodes: InodeTable,
    open_files: Handles<()>,
}

impl View for ServerDaemonFs {
    type V = ServerState;

    closed spec fn view(&self) -> ServerState {
        ServerState {
            backing: self.backing_dir@,
            inodes: self.inodes.texts(),
            open: self.open_files@.dom(),
            next_fh: self.open_files.next(),
        }
    }
}

/// A path of the workspace, and where it lies on disk.
pub struct Target {
    /// The path of the workspace.
    pub rel: Vec<u8>,
    /// Where it lies on disk.
    pub disk: Vec<u8>,
}

impl View for Target {
    type V = (Seq<u8>, Seq<u8>);

    open spec fn view(&self) -> (Seq<u8>, Seq<u8>) {
        (self.rel@, self.disk@)
    }
}

/// A target, or why there is none.
pub open spec fn target_view(r: Result<Target, Errno>) -> Result<(Seq<u8>, Seq<u8>), Errno> {
    match r {
        Ok(t) => Ok(t@),
        Err(e) => Err(e),
    }
}

/// An optional line.
pub open spec fn line_view(l: Option<Vec<u8>>) -> Option<Seq<u8>> {
    match l {
        Some(v) => Some(v@),
        None => None,
    }
}

/// The path with a number, or the empty path.
pub open spec fn path_at(s: ServerState, ino: u64) -> Seq<u8> {
    match path_in(s.inodes, ino) {
        Some(p) => p,
        None => Seq::empty(),
    }
}

/// The path of an entry of a directory.
pub open spec fn child(s: ServerState, dir: u64, name: Seq<u8>) -> Seq<u8> {
    join(path_at(s, dir), name)
}

/// A path, and where it lies on disk.
pub open spec fn target(s: ServerState, rel: Seq<u8>) -> (Seq<u8>, Seq<u8>) {
    (rel, real_path(s.backing, rel))
}

/// A path that is not locked, or the refusal.
pub open spec fn unlocked_target(
    s: ServerState,
    rel: Seq<u8>,
    dirty: Set<Seq<Seq<u8>>>,
) -> Result<(Seq<u8>, Seq<u8>), Errno> {
    if dirty.contains(components(rel)) {
        Err(Errno::Access)
    } else {
        Ok(target(s, rel))
    }
}

/// What a lookup is after: an entry of a known directory.
pub open spec fn lookup_target(
    s: ServerState,
    dir: u64,
    name: Seq<u8>,
    dirty: Set<Seq<Seq<u8>>>,
) -> Result<(Seq<u8>, Seq<u8>), Errno> {
    if path_in(s.inodes, dir) is None {
        Err(Errno::NoEntry)
    } else {
        unlocked_target(s, child(s, dir, name), dirty)
    }
}

/// Whether flags ask for reading.
pub open spec fn wants_read(flags: i32) -> bool {
    flags & ACCESS_MODE == READ_ONLY || flags & ACCESS_MODE == READ_WRITE
}

/// Whether flags ask for writing.
pub open spec fn wants_write(flags: i32) -> bool {
    flags & ACCESS_MODE != READ_ONLY
}

/// What an open file is opened as: where it lies, and whether for writing. A
/// locked file is refused to those who would read it.
pub open spec fn open_target(
    s: ServerState,
    ino: u64,
    flags: i32,
    dirty: Set<Seq<Seq<u8>>>,
) -> Result<(Seq<u8>, bool), Errno> {
    if path_in(s.inodes, ino) is None {
        Err(Errno::NoEntry)
    } else if wants_read(flags) && dirty.contains(components(path_at(s, ino))) {
        Err(Errno::Access)
    } else {
        Ok((real_path(s.backing, path_at(s, ino)), wants_write(flags)))
    }
}

/// The place in an open file at which to read or write, or the refusal.
pub open spec fn place_in_file(
    s: ServerState,
    ino: u64,
    fh: u64,
    offset: i64,
    dirty: Set<Seq<Seq<u8>>>,
) -> Result<u64, Errno> {
    if dirty.contains(components(path_at(s, ino))) {
        Err(Errno::Access)
    } else if s.open.contains(fh) {
        Ok(offset as u64)
    } else {
        Err(Errno::Io)
    }
}

/// The file whose attributes are set, or the refusal of a new size.
pub open spec fn resize_target(
    s: ServerState,
    ino: u64,
    size: Option<u64>,
    dirty: Set<Seq<Seq<u8>>>,
) -> Result<(Seq<u8>, Seq<u8>), Errno> {
    if size is Some && dirty.contains(components(path_at(s, ino))) {
        Err(Errno::Access)
    } else {
        Ok(target(s, path_at(s, ino)))
    }
}

/// The line that goes to the subscribers when a path has changed. For a locked
/// path there is none: the change is the client's own.
pub open spec fn news(rel: Seq<u8>, dirty: Set<Seq<Seq<u8>>>) -> Option<Seq<u8>> {
    if dirty.contains(components(rel)) {
        None
    } else {
        Some(invalidate_line(rel))
    }
}

/// The state once `rel` has a number.
pub open spec fn numbered(s: ServerState, rel: Seq<u8>) -> ServerState {
    ServerState { inodes: with_path(s.inodes, rel), ..s }
}

/// The state once another file is open.
pub open spec fn opened(s: ServerState) -> ServerState {
    ServerState { open: s.open.insert(s.next_fh), next_fh: (s.next_fh + 1) as u64, ..s }
}

/// The number of `rel`, which may be a new one.
pub open spec fn number_of(s: ServerState, rel: Seq<u8>) -> u64 {
    inode_in(with_path(s.inodes, rel), rel) as u64
}

/// The directory above; the path itself where there is none.
pub open spec fn up(p: Seq<u8>) -> Seq<u8> {
    match parent(p) {
        Some(q) => q,
        None => p,
    }
}

/// The directory above; the path itself where there is none.
fn path_up(p: &[u8]) -> (r: Vec<u8>)
    ensures
        r@ == up(p@),
{
    match parent_path(p) {
        Some(q) => q,
        None => {
            let r = copy_range(p, 0, p.len());
            assert(r@ =~= p@);
            r
        },
    }
}

/// An entry of a directory on disk. The first two are the directory itself and
/// the one above it.
pub struct DirItem {
    /// The name of the entry.
    pub name: Vec<u8>,
    /// Whether it is a directory, where that is known.
    pub is_dir: Option<bool>,
}

/// Which entries are shown: those of which something is known.
pub open spec fn shown(items: Seq<DirItem>) -> Seq<bool> {
    items.map_values(|e: DirItem| e.is_dir is Some)
}

/// The path of the entry at `i` of the directory `rel`.
pub open spec fn entry_path(rel: Seq<u8>, items: Seq<DirItem>, i: int) -> Seq<u8> {
    if i == 0 {
        rel
    } else if i == 1 {
        up(rel)
    } else {
        join(rel, items[i].name@)
    }
}

/// The kind of an entry: only directories are told apart.
pub open spec fn item_kind(item: DirItem) -> FileKind {
    if item.is_dir == Some(true) {
        FileKind::Directory
    } else {
        FileKind::RegularFile
    }
}

/// Whether the metadata, where there are any, have times that can be shown.
pub open spec fn showable(meta: Option<Metadata>) -> bool {
    meta is Some ==> meta->0.datable()
}

impl ServerDaemonFs {
    /// A file system over a backing directory, with nothing open.
    pub fn new(backing_dir: Vec<u8>) -> (r: Self)
        ensures
            r@ == (ServerState {
                backing: backing_dir@,
                inodes: seq![seq![SLASH]],
                open: Set::empty(),
                next_fh: 1,
            }),
    {
        let root = root_path();
        let r = ServerDaemonFs {
            backing_dir,
            inodes: InodeTable::new(root.as_slice()),
            open_files: Handles::new(),
        };
        assert(r@.open =~= Set::empty());
        r
    }

    /// The number of a path, which gets the next one where it has none.
    pub fn get_inode(&mut self, rel: &[u8]) -> (r: u64)
        ensures
            r == number_of(old(self)@, rel@),
            numbers(final(self)@.inodes, r, rel@),
            final(self)@ == numbered(old(self)@, rel@),
    {
        self.inodes.get_inode(rel)
    }

    /// Where a path of the workspace lies on disk.
    pub fn to_real_path(&self, rel: &[u8]) -> (r: Vec<u8>)
        ensures
            r@ == real_path(self@.backing, rel@),
    {
        let root = root_path();
        if rel.len() == 0 || same_path(rel, root.as_slice()) {
            let r = copy_range(self.backing_dir.as_slice(), 0, self.backing_dir.len());
            assert(r@ =~= self.backing_dir@);
            r
        } else {
            path_below(self.backing_dir.as_slice(), rel)
        }
    }

    /// Whether a path is locked.
    pub fn is_dirty(&self, rel: &[u8], dirty: &PathSet) -> (r: bool)
        ensures
            r == dirty@.contains(components(rel@)),
    {
        dirty.contains(rel)
    }

    /// Whether one of two paths is locked.
    pub fn is_dirty_any(&self, a: &[u8], b: &[u8], dirty: &PathSet) -> (r: bool)
        ensures
            r == (dirty@.contains(components(a@)) || dirty@.contains(components(b@))),
    {
        self.is_dirty(a, dirty) || self.is_dirty(b, dirty)
    }

    /// The line that goes to the subscribers when a path has changed.
    pub fn invalidate_client(&self, rel: &[u8], dirty: &PathSet) -> (r: Option<Vec<u8>>)
        ensures
            line_view(r) == news(rel@, dirty@),
    {
        if dirty.contains(rel) {
            None
        } else {
            Some(make_invalidate_line(rel))
        }
    }

    fn target(&self, rel: Vec<u8>) -> (r: Target)
        ensures
            r@ == target(self@, rel@),
    {
        let disk = self.to_real_path(rel.as_slice());
        Target { rel, disk }
    }

    fn unlocked_target(&self, rel: Vec<u8>, dirty: &PathSet) -> (r: Result<Target, Errno>)
        ensures
            target_view(r) == unlocked_target(self@, rel@, dirty@),
    {
        if self.is_dirty(rel.as_slice(), dirty) {
            Err(Errno::Access)
        } else {
            Ok(self.target(rel))
        }
    }

    fn child_target(&self, dir: u64, name: &[u8], dirty: &PathSet) -> (r: Result<Target, Errno>)
        ensures
            target_view(r) == unlocked_target(self@, child(self@, dir, name@), dirty@),
    {
        let p = self.inodes.path_or_empty(dir);
        let rel = join_path(p.as_slice(), name);
        self.unlocked_target(rel, dirty)
    }

    // -----------------------------------------------------------------------
    // Looking
    // -----------------------------------------------------------------------

    /// Begins the lookup of an entry of a directory.
    pub fn lookup(&self, dir: u64, name: &[u8], dirty: &PathSet) -> (r: Result<Target, Errno>)
        ensures
            target_view(r) == lookup_target(self@, dir, name@, dirty@),
    {
        match self.inodes.path(dir) {
            Some(p) => {
                let rel = join_path(p.as_slice(), name);
                self.unlocked_target(rel, dirty)
            },
            None => Err(Errno::NoEntry),
        }
    }

    /// Ends a lookup: an entry that is there gets a number.
    pub fn lookup_reply(&mut self, t: &Target, meta: Option<Metadata>) -> (r: Result<
        FileAttr,
        Errno,
    >)
        requires
            showable(meta),
        ensures
            match meta {
                Some(m) => {
                    &&& r == Ok::<FileAttr, Errno>(meta_attr(number_of(old(self)@, t.rel@), m))
                    &&& numbers(final(self)@.inodes, r->Ok_0.ino, t.rel@)
                    &&& final(self)@ == numbered(old(self)@, t.rel@)
                },
                None => r == Err::<FileAttr, Errno>(Errno::NoEntry) && final(self)@ == old(self)@,
            },
    {
        match meta {
            Some(m) => {
                let ino = self.get_inode(t.rel.as_slice());
                Ok(fs_meta_to_attr(ino, &m))
            },
            None => Err(Errno::NoEntry),
        }
    }

    /// Begins to get the attributes of a file. A locked file has them too.
    pub fn getattr(&self, ino: u64) -> (r: Result<Target, Errno>)
        ensures
            target_view(r) == match path_in(self@.inodes, ino) {
                Some(p) => Ok(target(self@, p)),
                None => Err(Errno::NoEntry),
            },
    {
        match self.inodes.path(ino) {
            Some(p) => Ok(self.target(p)),
            None => Err(Errno::NoEntry),
        }
    }

    /// Answers with the attributes of a file that is there.
    pub fn attr_reply(&self, ino: u64, meta: Option<Metadata>) -> (r: Result<FileAttr, Errno>)
        requires
            showable(meta),
        ensures
            r == match meta {
                Some(m) => Ok::<FileAttr, Errno>(meta_attr(ino, m)),
                None => Err(Errno::NoEntry),
            },
    {
        match meta {
            Some(m) => Ok(fs_meta_to_attr(ino, &m)),
            None => Err(Errno::NoEntry),
        }
    }

    /// Begins to set the attributes of a file, of which only the size is set.
    /// A locked file keeps its size.
    pub fn setattr(&self, ino: u64, size: Option<u64>, dirty: &PathSet) -> (r: Result<
        Target,
        Errno,
    >)
        ensures
            target_view(r) == resize_target(self@, ino, size, dirty@),
    {
        let p = self.inodes.path_or_empty(ino);
        if size.is_some() && self.is_dirty(p.as_slice(), dirty) {
            return Err(Errno::Access);
        }
        Ok(self.target(p))
    }

    /// Begins to list a directory: the directory, and the one above it on
    /// disk.
    pub fn readdir(&self, ino: u64) -> (r: Result<(Target, Vec<u8>), Errno>)
        ensures
            match r {
                Ok(v) => {
                    &&& path_in(self@.inodes, ino) is Some
                    &&& v.0@ == target(self@, path_at(self@, ino))
                    &&& v.1@ == up(v.0@.1)
                },
                Err(e) => path_in(self@.inodes, ino) is None && e == Errno::NoEntry,
            },
    {
        match self.inodes.path(ino) {
            Some(p) => {
                let t = self.target(p);
                let above = path_up(t.disk.as_slice());
                Ok((t, above))
            },
            None => Err(Errno::NoEntry),
        }
    }

    /// All entries of a directory that could be read: those for the directory
    /// itself and the one above it, of which `here` and `above` tell whether
    /// they are directories, and then those on disk.
    pub fn listing(
        &self,
        on_disk: Option<Vec<DirItem>>,
        here: Option<bool>,
        above: Option<bool>,
    ) -> (r: Result<Vec<DirItem>, Errno>)
        ensures
            match on_disk {
                Some(v) => {
                    &&& r is Ok
                    &&& r->Ok_0@.len() == v@.len() + 2
                    &&& r->Ok_0@[0].name@ == seq![DOT] && r->Ok_0@[0].is_dir == here
                    &&& r->Ok_0@[1].name@ == seq![DOT, DOT] && r->Ok_0@[1].is_dir == above
                    &&& r->Ok_0@.skip(2) == v@
                },
                None => r == Err::<Vec<DirItem>, Errno>(Errno::NoEntry),
            },
    {
        match on_disk {
            Some(v) => {
                let mut rest = v;
                let mut items: Vec<DirItem> = Vec::new();
                items.push(DirItem { name: dots(1), is_dir: here });
                items.push(DirItem { name: dots(2), is_dir: above });
                items.append(&mut rest);
                assert(items@.skip(2) =~= v@);
                Ok(items)
            },
            None => Err(Errno::NoEntry),
        }
    }

    /// The next entry that the kernel is offered of a directory, from the
    /// entry at `from` on, where the kernel has those up to `offset`. The file
    /// gets a number. Entries of which nothing is known are left out.
    pub fn next_entry(&mut self, rel: &[u8], items: &Vec<DirItem>, offset: i64, from: usize) -> (r:
        Option<DirEntry>)
        requires
            items@.len() <= i64::MAX,
        ensures
            ({
                let i = shown_from(shown(items@), offset, from as int);
                &&& r is Some <==> i < items@.len()
                &&& match r {
                    Some(e) => {
                        let p = entry_path(rel@, items@, i);
                        &&& e.ino == number_of(old(self)@, p)
                        &&& numbers(final(self)@.inodes, e.ino, p)
                        &&& e.cookie == i + 1
                        &&& e.kind == item_kind(items@[i])
                        &&& e.name@ == entry_name(items@[i].name@, i)
                        &&& final(self)@ == numbered(old(self)@, p)
                    },
                    None => final(self)@ == old(self)@,
                }
            }),
    {
        let ghost sh = shown(items@);
        let mut i: usize = from;
        while i < items.len()
            invariant
                from <= i,
                sh == shown(items@),
                sh.len() == items@.len() <= i64::MAX,
                shown_from(sh, offset, i as int) == shown_from(sh, offset, from as int),
                self@ == old(self)@,
            decreases items@.len() - i,
        {
            let item = &items[i];
            let cookie: i64 = i as i64 + 1;
            assert(sh[i as int] == (items@[i as int].is_dir is Some));
            if cookie > offset {
                if let Some(is_dir) = item.is_dir {
                    let p = if i == 0 {
                        copy_range(rel, 0, rel.len())
                    } else if i == 1 {
                        path_up(rel)
                    } else {
                        join_path(rel, item.name.as_slice())
                    };
                    assert(p@ =~= entry_path(rel@, items@, i as int));
                    let ino = self.get_inode(p.as_slice());
                    let kind = if is_dir {
                        FileKind::Directory
                    } else {
                        FileKind::RegularFile
                    };
                    let name = make_entry_name(item.name.as_slice(), i);
                    return Some(DirEntry { ino, cookie, kind, name });
                }
            }
            i += 1;
        }
        None
    }

    // -----------------------------------------------------------------------
    // Open files
    // -----------------------------------------------------------------------

    /// Begins to open a file: where it lies, and whether it is opened for
    /// writing too.
    pub fn open(&self, ino: u64, flags: i32, dirty: &PathSet) -> (r: Result<
        (Vec<u8>, bool),
        Errno,
    >)
        ensures
            match r {
                Ok(v) => open_target(self@, ino, flags, dirty@) == Ok::<(Seq<u8>, bool), Errno>(
                    (v.0@, v.1),
                ),
                Err(e) => open_target(self@, ino, flags, dirty@) == Err::<(Seq<u8>, bool), Errno>(
                    e,
                ),
            },
    {
        match self.inodes.path(ino) {
            Some(p) => {
                let access: i32 = flags & ACCESS_MODE;
                let read = access == READ_ONLY || access == READ_WRITE;
                if read && self.is_dirty(p.as_slice(), dirty) {
                    return Err(Errno::Access);
                }
                Ok((self.to_real_path(p.as_slice()), access != READ_ONLY))
            },
            None => Err(Errno::NoEntry),
        }
    }

    /// Whether there are handles left.
    pub fn has_handles(&self) -> (r: bool)
        ensures
            r == (self@.next_fh < u64::MAX),
    {
        self.open_files.has_next()
    }

    /// Ends the opening of a file, which gets a handle.
    pub fn open_reply(&mut self, done: bool) -> (r: Result<u64, Errno>)
        requires
            old(self)@.next_fh < u64::MAX,
        ensures
            done ==> r == Ok::<u64, Errno>(old(self)@.next_fh) && final(self)@ == opened(
                old(self)@,
            ),
            !done ==> r == Err::<u64, Errno>(Errno::Io) && final(self)@ == old(self)@,
    {
        if done {
            let fh = self.open_files.open(());
            assert(self@.open =~= old(self)@.open.insert(fh));
            Ok(fh)
        } else {
            Err(Errno::Io)
        }
    }

    fn place(&self, ino: u64, fh: u64, offset: i64, dirty: &PathSet) -> (r: Result<u64, Errno>)
        ensures
            r == place_in_file(self@, ino, fh, offset, dirty@),
    {
        let p = self.inodes.path_or_empty(ino);
        if self.is_dirty(p.as_slice(), dirty) {
            return Err(Errno::Access);
        }
        match self.open_files.get(fh) {
            Some(_) => Ok(offset as u64),
            None => Err(Errno::Io),
        }
    }

    /// Begins to read from an open file: from where.
    pub fn read(&self, ino: u64, fh: u64, offset: i64, dirty: &PathSet) -> (r: Result<u64, Errno>)
        ensures
            r == place_in_file(self@, ino, fh, offset, dirty@),
    {
        self.place(ino, fh, offset, dirty)
    }

    /// Begins to write to an open file: from where.
    pub fn write(&self, ino: u64, fh: u64, offset: i64, dirty: &PathSet) -> (r: Result<u64, Errno>)
        ensures
            r == place_in_file(self@, ino, fh, offset, dirty@),
    {
        self.place(ino, fh, offset, dirty)
    }

    /// Ends a write of so many bytes: what is answered, and what goes to the
    /// subscribers.
    pub fn write_reply(&self, ino: u64, written: Option<usize>, dirty: &PathSet) -> (r: Result<
        (u32, Option<Vec<u8>>),
        Errno,
    >)
        ensures
            match written {
                Some(n) => r is Ok && r->Ok_0.0 == n as u32 && line_view(r->Ok_0.1) == news(
                    path_at(self@, ino),
                    dirty@,
                ),
                None => r == Err::<(u32, Option<Vec<u8>>), Errno>(Errno::Io),
            },
    {
        match written {
            Some(n) => {
                let p = self.inodes.path_or_empty(ino);
                #[verifier::truncate]
                let count: u32 = n as u32;
                Ok((count, self.invalidate_client(p.as_slice(), dirty)))
            },
            None => Err(Errno::Io),
        }
    }

    /// Closes a file.
    pub fn release(&mut self, fh: u64)
        ensures
            final(self)@ == (ServerState { open: old(self)@.open.remove(fh), ..old(self)@ }),
    {
        let _ = self.open_files.close(fh);
        assert(self@.open =~= old(self)@.open.remove(fh));
    }

    // -----------------------------------------------------------------------
    // Changing a directory
    // -----------------------------------------------------------------------

    /// Begins to make a directory.
    pub fn mkdir(&self, dir: u64, name: &[u8], dirty: &PathSet) -> (r: Result<Target, Errno>)
        ensures
            target_view(r) == unlocked_target(self@, child(self@, dir, name@), dirty@),
    {
        self.child_target(dir, name, dirty)
    }

    /// Ends the making of a directory, which gets a number where it was made.
    pub fn mkdir_reply(
        &mut self,
        t: &Target,
        made: bool,
        meta: Option<Metadata>,
        dirty: &PathSet,
    ) -> (r: Result<(FileAttr, Option<Vec<u8>>), Errno>)
        requires
            showable(meta),
        ensures
            !made ==> r == Err::<(FileAttr, Option<Vec<u8>>), Errno>(Errno::Io) && final(self)@
                == old(self)@,
            made ==> final(self)@ == numbered(old(self)@, t.rel@),
            made && meta is None ==> r == Err::<(FileAttr, Option<Vec<u8>>), Errno>(
                Errno::NoEntry,
            ),
            made && meta is Some ==> {
                &&& r is Ok
                &&& r->Ok_0.0 == meta_attr(number_of(old(self)@, t.rel@), meta->0)
                &&& numbers(final(self)@.inodes, number_of(old(self)@, t.rel@), t.rel@)
                &&& line_view(r->Ok_0.1) == news(t.rel@, dirty@)
            },
    {
        if !made {
            return Err(Errno::Io);
        }
        let ino = self.get_inode(t.rel.as_slice());
        self.entry_reply(ino, t, meta, dirty)
    }

    fn entry_reply(&self, ino: u64, t: &Target, meta: Option<Metadata>, dirty: &PathSet) -> (r:
        Result<(FileAttr, Option<Vec<u8>>), Errno>)
        requires
            showable(meta),
        ensures
            match meta {
                Some(m) => {
                    &&& r is Ok
                    &&& r->Ok_0.0 == meta_attr(ino, m)
                    &&& line_view(r->Ok_0.1) == news(t.rel@, dirty@)
                },
                None => r == Err::<(FileAttr, Option<Vec<u8>>), Errno>(Errno::NoEntry),
            },
    {
        match meta {
            Some(m) => Ok(
                (fs_meta_to_attr(ino, &m), self.invalidate_client(t.rel.as_slice(), dirty)),
            ),
            None => Err(Errno::NoEntry),
        }
    }

    /// Begins to create a file.
    pub fn create(&self, dir: u64, name: &[u8], dirty: &PathSet) -> (r: Result<Target, Errno>)
        ensures
            target_view(r) == unlocked_target(self@, child(self@, dir, name@), dirty@),
    {
        self.child_target(dir, name, dirty)
    }

    /// Takes in a created file: the number and the handle that it gets. Where
    /// it could not be created, the request fails.
    pub fn created(&mut self, t: &Target, done: bool) -> (r: Result<(u64, u64), Errno>)
        requires
            old(self)@.next_fh < u64::MAX,
        ensures
            done ==> r == Ok::<(u64, u64), Errno>(
                (number_of(old(self)@, t.rel@), old(self)@.next_fh),
            ) && final(self)@ == opened(numbered(old(self)@, t.rel@)),
            done ==> numbers(final(self)@.inodes, number_of(old(self)@, t.rel@), t.rel@),
            !done ==> r == Err::<(u64, u64), Errno>(Errno::Io) && final(self)@ == old(self)@,
    {
        if !done {
            return Err(Errno::Io);
        }
        let ino = self.get_inode(t.rel.as_slice());
        let fh = self.open_files.open(());
        assert(self@.open =~= old(self)@.open.insert(fh));
        Ok((ino, fh))
    }

    /// Ends the creation of the file with the number `ino`: what is answered
    /// where its attributes are there, and what goes to the subscribers.
    pub fn create_reply(
        &self,
        ino: u64,
        t: &Target,
        meta: Option<Metadata>,
        dirty: &PathSet,
    ) -> (r: Result<(FileAttr, Option<Vec<u8>>), Errno>)
        requires
            showable(meta),
        ensures
            match meta {
                Some(m) => {
                    &&& r is Ok
                    &&& r->Ok_0.0 == meta_attr(ino, m)
                    &&& line_view(r->Ok_0.1) == news(t.rel@, dirty@)
                },
                None => r == Err::<(FileAttr, Option<Vec<u8>>), Errno>(Errno::NoEntry),
            },
    {
        self.entry_reply(ino, t, meta, dirty)
    }

    /// Begins to remove a file.
    pub fn unlink(&self, dir: u64, name: &[u8], dirty: &PathSet) -> (r: Result<Target, Errno>)
        ensures
            target_view(r) == unlocked_target(self@, child(self@, dir, name@), dirty@),
    {
        self.child_target(dir, name, dirty)
    }

    /// Begins to remove a directory.
    pub fn rmdir(&self, dir: u64, name: &[u8], dirty: &PathSet) -> (r: Result<Target, Errno>)
        ensures
            target_view(r) == unlocked_target(self@, child(self@, dir, name@), dirty@),
    {
        self.child_target(dir, name, dirty)
    }

    /// Ends the removal of a file or a directory: what goes to the subscribers
    /// where it is gone.
    pub fn remove_reply(&self, t: &Target, removed: bool, dirty: &PathSet) -> (r: Result<
        Option<Vec<u8>>,
        Errno,
    >)
        ensures
            removed ==> r is Ok && line_view(r->Ok_0) == news(t.rel@, dirty@),
            !removed ==> r == Err::<Option<Vec<u8>>, Errno>(Errno::Io),
    {
        if removed {
            Ok(self.invalidate_client(t.rel.as_slice(), dirty))
        } else {
            Err(Errno::Io)
        }
    }

    /// Begins to rename a file. Neither path may be locked.
    pub fn rename(
        &self,
        dir: u64,
        name: &[u8],
        new_dir: u64,
        new_name: &[u8],
        dirty: &PathSet,
    ) -> (r: Result<(Target, Target), Errno>)
        ensures
            ({
                let a = unlocked_target(self@, child(self@, dir, name@), dirty@);
                let b = unlocked_target(self@, child(self@, new_dir, new_name@), dirty@);
                match r {
                    Ok(v) => a == Ok::<(Seq<u8>, Seq<u8>), Errno>(v.0@) && b == Ok::<
                        (Seq<u8>, Seq<u8>),
                        Errno,
                    >(v.1@),
                    Err(e) => e == Errno::Access && (a is Err || b is Err),
                }
            }),
    {
        let p = self.inodes.path_or_empty(dir);
        let rel = join_path(p.as_slice(), name);
        let q = self.inodes.path_or_empty(new_dir);
        let new_rel = join_path(q.as_slice(), new_name);
        if self.is_dirty_any(rel.as_slice(), new_rel.as_slice(), dirty) {
            return Err(Errno::Access);
        }
        Ok((self.target(rel), self.target(new_rel)))
    }

    /// Ends a renaming: what goes to the subscribers for either path.
    pub fn rename_reply(&self, from: &Target, to: &Target, renamed: bool, dirty: &PathSet) -> (r:
        Result<(Option<Vec<u8>>, Option<Vec<u8>>), Errno>)
        ensures
            renamed ==> {
                &&& r is Ok
                &&& line_view(r->Ok_0.0) == news(from.rel@, dirty@)
                &&& line_view(r->Ok_0.1) == news(to.rel@, dirty@)
            },
            !renamed ==> r == Err::<(Option<Vec<u8>>, Option<Vec<u8>>), Errno>(Errno::Io),
    {
        if renamed {
            Ok(
                (
                    self.invalidate_client(from.rel.as_slice(), dirty),
                    self.invalidate_client(to.rel.as_slice(), dirty),
                ),
            )
        } else {
            Err(Errno::Io)
        }
    }
}

// ---------------------------------------------------------------------------
// What a lock does
// ---------------------------------------------------------------------------

/// A locked path is refused to every request that would look it up, make,
/// create, remove or rename it, open it for reading, read it, write to it or
/// give it another size; and an unlocked one to none of them on that ground.
pub proof fn law_locked_paths_are_refused(
    s: ServerState,
    dir: u64,
    name: Seq<u8>,
    ino: u64,
    fh: u64,
    flags: i32,
    offset: i64,
    size: Option<u64>,
    dirty: Set<Seq<Seq<u8>>>,
)
    requires
        path_in(s.inodes, dir) is Some,
        path_in(s.inodes, ino) is Some,
    ensures
        dirty.contains(components(child(s, dir, name))) <==> lookup_target(s, dir, name, dirty)
            == Err::<(Seq<u8>, Seq<u8>), Errno>(Errno::Access),
        dirty.contains(components(child(s, dir, name))) <==> unlocked_target(
            s,
            child(s, dir, name),
            dirty,
        ) == Err::<(Seq<u8>, Seq<u8>), Errno>(Errno::Access),
        dirty.contains(components(path_at(s, ino))) && wants_read(flags) <==> open_target(
            s,
            ino,
            flags,
            dirty,
        ) == Err::<(Seq<u8>, bool), Errno>(Errno::Access),
        dirty.contains(components(path_at(s, ino))) <==> place_in_file(s, ino, fh, offset, dirty)
            == Err::<u64, Errno>(Errno::Access),
        dirty.contains(components(path_at(s, ino))) && size is Some <==> resize_target(
            s,
            ino,
            size,
            dirty,
        ) == Err::<(Seq<u8>, Seq<u8>), Errno>(Errno::Access),
{
}

/// A directory is listed under the numbers that its files have: its own for
/// itself, that of the directory above for that one, which is 1 at the root and
/// right under it, and for each entry the number that a lookup gives it.
pub proof fn law_listing_gives_numbers(
    s: ServerState,
    ino: u64,
    items: Seq<DirItem>,
    i: int,
)
    requires
        crate::pathset::distinct(s.inodes),
        grown(seq![seq![SLASH]], s.inodes),
        path_in(s.inodes, ino) is Some,
        2 <= i < items.len(),
    ensures
        ({
            let p = path_at(s, ino);
            &&& number_of(s, entry_path(p, items, 0)) == ino
            &&& number_of(s, entry_path(p, items, 1)) == number_of(s, up(p))
            &&& rooted(p) && names(p).len() <= 1 ==> number_of(s, up(p)) == 1
            &&& entry_path(p, items, i) == child(s, ino, items[i].name@)
        }),
{
    let p = path_at(s, ino);
    let root = seq![SLASH];
    crate::pathset::law_inode_of_path(s.inodes, ino);
    assert(same(s.inodes[ino - 1], p));
    assert(crate::pathset::has_path(s.inodes, p));
    if rooted(p) && names(p).len() <= 1 {
        crate::path::law_parent_components(p);
        crate::protocol::lemma_root_components();
        assert(p.take(1) =~= root);
        if parent(p) is Some {
            assert(components(p).drop_last() =~= seq![root]);
        } else {
            assert(components(p) =~= seq![root]);
        }
        assert(same(up(p), root));
        crate::pathset::law_root_is_first(root, s.inodes);
        assert(s.inodes.take(1)[0] == s.inodes[0]);
        assert(same(s.inodes[0], up(p)));
        crate::pathset::lemma_find_path_is(s.inodes, up(p), 0);
    }
}

/// A file that has been looked up is found again under the number that it was
/// given, and a lock of its path refuses reads under that number.
pub proof fn law_number_finds_file(s: ServerState, rel: Seq<u8>, fh: u64, offset: i64)
    requires
        s.inodes.len() < u64::MAX,
    ensures
        same(path_at(numbered(s, rel), number_of(s, rel)), rel),
        forall|dirty: Set<Seq<Seq<u8>>>|
            dirty.contains(components(rel)) ==> #[trigger] place_in_file(
                numbered(s, rel),
                number_of(s, rel),
                fh,
                offset,
                dirty,
            ) == Err::<u64, Errno>(Errno::Access),
{
    crate::pathset::lemma_find_path(s.inodes, rel);
    crate::pathset::lemma_find_path(with_path(s.inodes, rel), rel);
    let ts = with_path(s.inodes, rel);
    if !crate::pathset::has_path(s.inodes, rel) {
        assert(same(ts[s.inodes.len() as int], rel));
        assert(crate::pathset::has_path(ts, rel));
    }
}

// ---------------------------------------------------------------------------
// What requests are for
// ---------------------------------------------------------------------------

/// How a file may be opened is told by the two lowest bits of the flags alone:
/// 0 and 2 ask for reading, and all but 0 for writing. A locked file is refused
/// to those who would read it, and to nobody else.
pub proof fn law_open_goes_by_access_mode(
    s: ServerState,
    ino: u64,
    f: i32,
    g: i32,
    dirty: Set<Seq<Seq<u8>>>,
)
    requires
        1 <= ino <= s.inodes.len(),
    ensures
        f & 3 == g & 3 ==> open_target(s, ino, f, dirty) == open_target(s, ino, g, dirty),
        open_target(s, ino, f, dirty) == Err::<(Seq<u8>, bool), Errno>(Errno::Access)
            <==> dirty.contains(components(s.inodes[ino - 1])) && (f & 3 == 0 || f & 3 == 2),
        !(dirty.contains(components(s.inodes[ino - 1])) && (f & 3 == 0 || f & 3 == 2)) ==> {
            let r = open_target(s, ino, f, dirty);
            &&& r is Ok
            &&& r->Ok_0.1 == (f & 3 != 0)
            &&& s.backing.len() > 0 && rooted(s.inodes[ino - 1]) ==> components(r->Ok_0.0)
                == components(s.backing) + names(s.inodes[ino - 1])
        },
{
    if s.backing.len() > 0 && rooted(s.inodes[ino - 1]) {
        law_real_path(s.backing, s.inodes[ino - 1]);
    }
}

/// A number that no file has is answered with its absence: nothing is opened
/// or looked up under it.
pub proof fn law_unknown_numbers(
    s: ServerState,
    ino: u64,
    flags: i32,
    name: Seq<u8>,
    dirty: Set<Seq<Seq<u8>>>,
)
    requires
        ino == 0 || ino > s.inodes.len(),
    ensures
        open_target(s, ino, flags, dirty) == Err::<(Seq<u8>, bool), Errno>(Errno::NoEntry),
        lookup_target(s, ino, name, dirty) == Err::<(Seq<u8>, Seq<u8>), Errno>(Errno::NoEntry),
        path_at(s, ino).len() == 0,
        child(s, ino, name) == name,
{
    assert(Seq::<u8>::empty() + name =~= name);
}

/// An entry lies in the directory asked for: its path has the components of the
/// directory and then those of the name, on disk as in the workspace; and it is
/// refused exactly where that path is locked.
pub proof fn law_entries_lie_in_directory(
    s: ServerState,
    dir: u64,
    name: Seq<u8>,
    dirty: Set<Seq<Seq<u8>>>,
)
    requires
        1 <= dir <= s.inodes.len(),
        rooted(s.inodes[dir - 1]),
        !rooted(name),
        s.backing.len() > 0,
    ensures
        ({
            let d = s.inodes[dir - 1];
            let key = components(d) + names(name);
            let r = lookup_target(s, dir, name, dirty);
            &&& unlocked_target(s, child(s, dir, name), dirty) == r
            &&& dirty.contains(key) ==> r == Err::<(Seq<u8>, Seq<u8>), Errno>(Errno::Access)
            &&& !dirty.contains(key) ==> r is Ok && components(r->Ok_0.0) == key && components(
                r->Ok_0.1,
            ) == components(s.backing) + names(d) + names(name)
        }),
{
    let d = s.inodes[dir - 1];
    let p = join(d, name);
    crate::path::law_join_components(d, name);
    assert(rooted(p)) by {
        assert(p[0] == d[0]);
    }
    law_real_path(s.backing, p);
    assert(components(p).skip(1) =~= names(p));
    assert(components(d).skip(1) =~= names(d));
    assert((components(d) + names(name)).skip(1) =~= names(d) + names(name));
    assert(components(s.backing) + names(d) + names(name) =~= components(s.backing) + (names(d)
        + names(name)));
}

/// A file whose attributes are asked or set is the one with the number: its
/// path is the one in the table, and on disk its names follow those of the
/// backing directory. Only a new size for a locked path is refused.
pub proof fn law_attributes_are_of_the_file(
    s: ServerState,
    ino: u64,
    size: Option<u64>,
    dirty: Set<Seq<Seq<u8>>>,
)
    requires
        1 <= ino <= s.inodes.len(),
        rooted(s.inodes[ino - 1]),
        s.backing.len() > 0,
    ensures
        ({
            let p = s.inodes[ino - 1];
            let t = target(s, p);
            let r = resize_target(s, ino, size, dirty);
            &&& path_in(s.inodes, ino) == Some(p)
            &&& t.0 == p
            &&& components(t.1) == components(s.backing) + names(p)
            &&& size is Some && dirty.contains(components(p)) ==> r == Err::<
                (Seq<u8>, Seq<u8>),
                Errno,
            >(Errno::Access)
            &&& size is None || !dirty.contains(components(p)) ==> r == Ok::<
                (Seq<u8>, Seq<u8>),
                Errno,
            >(t)
        }),
{
    law_real_path(s.backing, s.inodes[ino - 1]);
}

/// An open file is read and written where the kernel says, under its own
/// handle only, and not at all while it is locked.
pub proof fn law_place_in_file(
    s: ServerState,
    ino: u64,
    fh: u64,
    offset: i64,
    dirty: Set<Seq<Seq<u8>>>,
)
    requires
        1 <= ino <= s.inodes.len(),
        offset >= 0,
    ensures
        ({
            let r = place_in_file(s, ino, fh, offset, dirty);
            let locked = dirty.contains(components(s.inodes[ino - 1]));
            &&& locked ==> r == Err::<u64, Errno>(Errno::Access)
            &&& !locked && !s.open.contains(fh) ==> r == Err::<u64, Errno>(Errno::Io)
            &&& !locked && s.open.contains(fh) ==> r is Ok && r->Ok_0 as int == offset as int
        }),
{
}

/// A file that is opened gets a handle of its own: the other open files keep
/// theirs, and nothing else changes. A path that gets a number changes nothing
/// but the table, in which all numbers given before stand.
pub proof fn law_requests_keep_the_rest(s: ServerState, rel: Seq<u8>)
    requires
        s.next_fh < u64::MAX,
    ensures
        forall|fh: u64|
            opened(s).open.contains(fh) <==> s.open.contains(fh) || fh == s.next_fh,
        opened(s).next_fh > s.next_fh,
        opened(s).inodes == s.inodes,
        opened(s).backing == s.backing,
        grown(s.inodes, numbered(s, rel).inodes),
        crate::pathset::has_path(numbered(s, rel).inodes, rel),
        numbered(s, rel).inodes.len() <= s.inodes.len() + 1,
        numbered(s, rel).open == s.open,
        numbered(s, rel).next_fh == s.next_fh,
        numbered(s, rel).backing == s.backing,
{
    assert(s.inodes.take(s.inodes.len() as int) =~= s.inodes);
    crate::pathset::law_tables_grow(s.inodes, s.inodes, rel);
    let ts = numbered(s, rel).inodes;
    if !crate::pathset::has_path(s.inodes, rel) {
        assert(same(ts[s.inodes.len() as int], rel));
    }
}

/// The subscribers hear of every change to a path that is not locked, and of
/// no other; and a client whose remote root is `root` reads the one line that
/// it is told as the path with the components of its root and then the names
/// of the changed path. So of a changed file that it knows as `p` it is told
/// by a path that is the same as `p`.
pub proof fn law_news_name_the_file(
    rel: Seq<u8>,
    dirty: Set<Seq<Seq<u8>>>,
    root: Seq<u8>,
    p: Seq<u8>,
)
    requires
        sendable(rel),
        rooted(rel) ==> !rooted(rel.skip(1)),
        components(root).len() > 0,
    ensures
        news(rel, dirty) is None <==> dirty.contains(components(rel)),
        news(rel, dirty) is Some ==> {
            let line = news(rel, dirty)->0;
            let told = notice(root, line.drop_last());
            &&& find_from(line, NEWLINE, 0) == line.len() - 1
            &&& told is Some
            &&& components(told->0) == components(root) + names(rel)
            &&& is_under(p, root) && names(rel) == components(p).skip(
                components(root).len() as int,
            ) ==> same(told->0, p)
            &&& is_under(p, root) && components(rel) == components(wire_path(root, p)) ==> same(
                told->0,
                p,
            )
        },
{
    if news(rel, dirty) is Some {
        crate::protocol::lemma_invalidate_line(root, rel);
        let n = components(root).len() as int;
        if is_under(p, root) {
            crate::protocol::law_wire_path_components(root, p);
            assert(components(p) =~= components(root) + components(p).skip(n));
            if components(rel) == components(wire_path(root, p)) {
                let w = components(rel);
                assert(w[0] == seq![SLASH]);
                assert(w.skip(1) =~= components(p).skip(n));
                assert(rooted(rel)) by {
                    if !rooted(rel) {
                        crate::path::lemma_spans(rel, 0);
                        if crate::path::has_lead(rel) {
                            assert(w[0] == rel.take(1));
                            assert(w[0][0] == rel[0]);
                        } else {
                            let s = crate::path::spans(rel)[0];
                            assert(w[0] == rel.subrange(s.0, s.1));
                            assert(w[0][0] == rel[s.0]);
                        }
                        assert(seq![SLASH][0] == SLASH);
                    }
                }
                assert(w.skip(1) =~= names(rel));
            }
        }
    }
}

/// An entry that is listed is named by its own name, has the path of the
/// directory with that name, and is shown as a directory exactly where it is
/// one; entries of which nothing is known are not shown.
pub proof fn law_listed_entry(rel: Seq<u8>, items: Seq<DirItem>, i: int)
    requires
        2 <= i < items.len(),
        rel.len() > 0,
        !crate::path::skipped(items[i].name@),
        items[i].name@ != seq![DOT, DOT],
        forall|j: int| 0 <= j < items[i].name@.len() ==> items[i].name@[j] != SLASH,
    ensures
        entry_name(items[i].name@, i) == items[i].name@,
        components(entry_path(rel, items, i)) == components(rel).push(items[i].name@),
        item_kind(items[i]) == FileKind::Directory <==> items[i].is_dir == Some(true),
        item_kind(items[i]) == FileKind::RegularFile <==> items[i].is_dir != Some(true),
        shown(items).len() == items.len(),
        shown(items)[i] <==> items[i].is_dir is Some,
        entry_path(rel, items, 0) == rel,
        parent(rel) is Some ==> components(entry_path(rel, items, 1)) == components(
            rel,
        ).drop_last(),
        parent(rel) is None ==> entry_path(rel, items, 1) == rel,
        entry_name(items[0].name@, 0) == items[0].name@,
        entry_name(items[1].name@, 1) == items[1].name@,
{
    let name = items[i].name@;
    crate::path::law_single_name(name);
    crate::path::law_join_components(rel, name);
    crate::path::law_parent_components(rel);
    assert(components(rel) + seq![name] =~= components(rel).push(name));
    assert(names(name).last() == name);
}

/// A path that does not begin at the root, and is not empty, lies on disk where
/// its names lead from the backing directory too; and the empty path and the
/// root are the backing directory itself.
pub proof fn law_real_path_of_others(backing: Seq<u8>, rel: Seq<u8>)
    requires
        backing.len() > 0,
        !rooted(rel),
    ensures
        components(real_path(backing, rel)) == components(backing) + names(rel),
        real_path(backing, Seq::empty()) == backing,
        real_path(backing, seq![SLASH]) == backing,
{
    let root = seq![SLASH];
    crate::protocol::lemma_root_components();
    if rel.len() == 0 {
        assert(crate::path::spans_from(rel, 0) =~= Seq::empty());
        assert(names(rel) =~= Seq::empty());
        assert(components(backing) + names(rel) =~= components(backing));
    } else {
        let c = components(rel);
        if is_under(rel, root) || same(rel, root) {
            assert(c.len() > 0 && c[0] == root) by {
                assert(c.take(1)[0] == c[0]);
            }
            crate::path::lemma_spans(rel, 0);
            if crate::path::has_lead(rel) {
                assert(c[0] == rel.take(1));
                assert(c[0][0] == rel[0]);
            } else {
                let s = crate::path::spans(rel)[0];
                assert(c[0] == rel.subrange(s.0, s.1));
                assert(c[0][0] == rel[s.0]);
            }
            assert(root[0] == SLASH);
        }
        crate::path::law_join_components(backing, rel);
    }
}

} // verus!
