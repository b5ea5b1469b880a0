//! The server's side of the connections with its clients.
//!
//! A client locks and unlocks paths over its connection. The locks of all
//! clients are one set; each session remembers its own, so that they go when
//! the connection does.
use vstd::prelude::*;
use crate::bytes::ascii;
use crate::bytes::ascii_bytes;
use crate::bytes::append_bytes;
use crate::bytes::decimal;
use crate::bytes::decimal_bytes;
use crate::cache::announcement;
use crate::path::components;
use crate::path::is_under;
use crate::path::rooted;
use crate::path::SLASH;
use crate::pathset::PathSet;
use crate::protocol::clean_line;
use crate::protocol::dirty_line;
use crate::protocol::parse_request;
use crate::protocol::patch_line;
use crate::protocol::request;
use crate::protocol::sendable;
use crate::protocol::wire_path;
use crate::protocol::Request;
use crate::rsync::apply_delta;
use crate::rsync::rsync_apply;
use crate::server_fs::below;
use crate::server_fs::path_below;

verus! {

/// What the server does about a line from a client.
pub enum Action<P> {
    /// Nothing.
    Nothing,
    /// Sends notices over this connection from now on.
    Subscribe,
    /// Restores the workspace and ends.
    Shutdown,
    /// Nothing more: the path is locked.
    Locked,
    /// Wakes those who wait for the path, which is unlocked.
    Unlocked,
    /// Reads so many bytes of delta for the file on disk.
    ReadPatch(P, usize),
}

impl View for Action<Vec<u8>> {
    type V = Action<Seq<u8>>;

    open spec fn view(&self) -> Action<Seq<u8>> {
        match self {
            Action::Nothing => Action::Nothing,
            Action::Subscribe => Action::Subscribe,
            Action::Shutdown => Action::Shutdown,
            Action::Locked => Action::Locked,
            Action::Unlocked => Action::Unlocked,
            Action::ReadPatch(p, n) => Action::ReadPatch(p@, *n),
        }
    }
}

/// What the server does about a request.
pub open spec fn action(backing: Seq<u8>, req: Request<Seq<u8>>) -> Action<Seq<u8>> {
    match req {
        Request::Subscribe => Action::Subscribe,
        Request::Shutdown => Action::Shutdown,
        Request::Dirty(_) => Action::Locked,
        Request::Clean(_) => Action::Unlocked,
        Request::Patch(p, n) => Action::ReadPatch(below(backing, p), n),
        Request::Ignored => Action::Nothing,
    }
}

/// A set of paths after a request: what is locked, or what one session has
/// locked.
pub open spec fn after_request(
    paths: Set<Seq<Seq<u8>>>,
    req: Request<Seq<u8>>,
) -> Set<Seq<Seq<u8>>> {
    match req {
        Request::Dirty(p) => paths.insert(components(p)),
        Request::Clean(p) => paths.remove(components(p)),
        _ => paths,
    }
}

/// The connection with one client.
pub struct Session {
    locks: PathSet,
}

impl View for Session {
    type V = Set<Seq<Seq<u8>>>;

    /// The paths that this client has locked.
    closed spec fn view(&self) -> Set<Seq<Seq<u8>>> {
        self.locks@
    }
}

impl Session {
    /// A session without locks.
    pub fn new() -> (r: Self)
        ensures
            r@ == Set::<Seq<Seq<u8>>>::empty(),
    {
        Session { locks: PathSet::new() }
    }

    /// Takes a line from the client; `dirty` holds the locks of all clients.
    pub fn handle(&mut self, line: &[u8], backing: &[u8], dirty: &mut PathSet) -> (r: Action<
        Vec<u8>,
    >)
        ensures
            r@ == action(backing@, request(line@)),
            final(self)@ == after_request(old(self)@, request(line@)),
            final(dirty)@ == after_request(old(dirty)@, request(line@)),
    {
        match parse_request(line) {
            Request::Subscribe => Action::Subscribe,
            Request::Shutdown => Action::Shutdown,
            Request::Dirty(p) => {
                let _ = dirty.insert(p.as_slice());
                let _ = self.locks.insert(p.as_slice());
                Action::Locked
            },
            Request::Clean(p) => {
                let _ = dirty.remove(p.as_slice());
                let _ = self.locks.remove(p.as_slice());
                Action::Unlocked
            },
            Request::Patch(p, n) => Action::ReadPatch(path_below(backing, p.as_slice()), n),
            Request::Ignored => Action::Nothing,
        }
    }

    /// Ends the session: what it has locked is unlocked. Tells whether there
    /// was anything, so that those who wait are to be woken.
    pub fn close(self, dirty: &mut PathSet) -> (r: bool)
        ensures
            final(dirty)@ == old(dirty)@.difference(self@),
            r <==> exists|k: Seq<Seq<u8>>| self@.contains(k),
    {
        let some = self.locks.len() > 0;
        proof {
            let ts = self.locks.texts();
            if ts.len() > 0 {
                crate::pathset::lemma_path_keys(ts, ts[0]);
                assert(crate::path::same(ts[0], ts[0]));
                assert(self@.contains(components(ts[0])));
            } else {
                assert(self@ =~= Set::empty());
            }
        }
        if some {
            dirty.remove_all(&self.locks);
        } else {
            assert(dirty@ =~= old(dirty)@.difference(self@));
        }
        some
    }
}

/// What becomes of a delta.
pub enum Patched<C> {
    /// The connection failed before all of it came: the session ends.
    End,
    /// The file gets this content.
    Write(C),
    /// It does not fit the file, which stays as it is.
    Skip,
}

impl View for Patched<Vec<u8>> {
    type V = Patched<Seq<u8>>;

    open spec fn view(&self) -> Patched<Seq<u8>> {
        match self {
            Patched::End => Patched::End,
            Patched::Write(v) => Patched::Write(v@),
            Patched::Skip => Patched::Skip,
        }
    }
}

/// What becomes of a delta that came, given what applying it gave.
pub open spec fn applied(result: Option<Seq<u8>>) -> Patched<Seq<u8>> {
    match result {
        Some(new_data) => Patched::Write(new_data),
        None => Patched::Skip,
    }
}

/// What becomes of a delta for a file with the content `old_data`.
pub open spec fn patched(patch: Option<Seq<u8>>, old_data: Seq<u8>) -> Patched<Seq<u8>> {
    match patch {
        Some(p) => applied(rsync_apply(old_data, p)),
        None => Patched::End,
    }
}

/// What becomes of a delta that came, given what applying it gave.
pub fn take_result(result: Option<Vec<u8>>) -> (r: Patched<Vec<u8>>)
    ensures
        r@ == applied(
            match result {
                Some(v) => Some(v@),
                None => None,
            },
        ),
{
    match result {
        Some(new_data) => Patched::Write(new_data),
        None => Patched::Skip,
    }
}

/// Takes a delta from the client, or none where it did not come, for a file
/// with the content `old_data`.
pub fn receive_patch(patch: Option<Vec<u8>>, old_data: &[u8]) -> (r: Patched<Vec<u8>>)
    ensures
        r@ == patched(
            match patch {
                Some(p) => Some(p@),
                None => None,
            },
            old_data@,
        ),
{
    match patch {
        Some(p) => take_result(apply_delta(old_data, p.as_slice())),
        None => Patched::End,
    }
}

// ---------------------------------------------------------------------------
// Whether anybody is there
// ---------------------------------------------------------------------------

/// How many seconds pass between two looks at the clients.
pub const WATCH_PERIOD: u32 = 10;

/// After how many seconds without clients the server ends.
pub const IDLE_LIMIT: u32 = 60;

/// The number of connections, and for how long there has been none.
pub struct Clients {
    active: u32,
    idle: u32,
}

/// For how long there has been no client, after one more look.
pub open spec fn idle_after(idle: nat, active: nat) -> nat {
    if active == 0 {
        idle + WATCH_PERIOD as nat
    } else {
        0
    }
}

impl Clients {
    /// The number of connections.
    pub closed spec fn active(&self) -> nat {
        self.active as nat
    }

    /// For how many seconds there has been no connection.
    pub closed spec fn idle(&self) -> nat {
        self.idle as nat
    }

    /// No connections yet.
    pub fn new() -> (r: Self)
        ensures
            r.active() == 0,
            r.idle() == 0,
    {
        Clients { active: 0, idle: 0 }
    }

    /// Whether one more connection can be counted.
    pub fn can_connect(&self) -> (r: bool)
        ensures
            r == (self.active() < u32::MAX),
    {
        self.active < u32::MAX
    }

    /// One more connection; gives their number.
    pub fn connected(&mut self) -> (r: u32)
        requires
            old(self).active() < u32::MAX,
        ensures
            final(self).active() == old(self).active() + 1,
            final(self).idle() == old(self).idle(),
            r == final(self).active(),
    {
        self.active = self.active + 1;
        self.active
    }

    /// One connection less; gives their number.
    pub fn disconnected(&mut self) -> (r: u32)
        requires
            old(self).active() > 0,
        ensures
            final(self).active() == old(self).active() - 1,
            final(self).idle() == old(self).idle(),
            r == final(self).active(),
    {
        self.active = self.active - 1;
        self.active
    }

    /// One more look at the clients; tells whether the server is to end.
    pub fn watch(&mut self) -> (r: bool)
        requires
            old(self).idle() < IDLE_LIMIT,
        ensures
            final(self).active() == old(self).active(),
            final(self).idle() == idle_after(old(self).idle(), old(self).active()),
            r == (final(self).idle() >= IDLE_LIMIT),
    {
        if self.active == 0 {
            self.idle = self.idle + WATCH_PERIOD;
        } else {
            self.idle = 0;
        }
        self.idle >= IDLE_LIMIT
    }
}

/// For how long there has been no client after looks that found these numbers
/// of them.
pub open spec fn idle_over(looks: Seq<nat>) -> nat
    decreases looks.len(),
{
    if looks.len() == 0 {
        0
    } else {
        idle_after(idle_over(looks.drop_last()), looks.last())
    }
}

/// The server ends after the sixth look in a row that finds no client, and not
/// before.
pub proof fn law_idle_server_ends(looks: Seq<nat>)
    ensures
        idle_over(looks) >= IDLE_LIMIT <==> looks.len() >= 6 && forall|i: int|
            looks.len() - 6 <= i < looks.len() ==> #[trigger] looks[i] == 0,
    decreases looks.len(),
{
    lemma_idle_over(looks);
    let k = idle_over(looks) / 10;
    if k < 6 && looks.len() >= 6 {
        assert(looks[looks.len() - 1 - k] != 0);
    }
}

proof fn lemma_idle_over(looks: Seq<nat>)
    ensures
        ({
            let k = idle_over(looks) / 10;
            &&& idle_over(looks) == 10 * k
            &&& k <= looks.len()
            &&& forall|i: int| looks.len() - k <= i < looks.len() ==> #[trigger] looks[i] == 0
            &&& k < looks.len() ==> looks[looks.len() - 1 - k] != 0
        }),
    decreases looks.len(),
{
    if looks.len() > 0 {
        let d = looks.drop_last();
        lemma_idle_over(d);
        assert forall|i: int| 0 <= i < d.len() implies looks[i] == d[i] by {}
    }
}

/// The address at which the server waits for clients of the same machine.
pub open spec fn local_address(port: u16) -> Seq<u8> {
    ascii("127.0.0.1:"@) + decimal(port as nat)
}

/// The address at which the server waits for clients of the same machine.
pub fn bind_address(port: u16) -> (r: Vec<u8>)
    ensures
        r@ == local_address(port),
{
    proof {
        reveal_strlit("127.0.0.1:");
    }
    let mut r = ascii_bytes("127.0.0.1:");
    append_bytes(&mut r, decimal_bytes(port as u64).as_slice());
    r
}

// ---------------------------------------------------------------------------
// What a session leaves behind
// ---------------------------------------------------------------------------

/// A client's lock reaches the path that the server knows the file by, and its
/// unlock frees that path; no other path is touched.
pub proof fn law_lock_reaches_server(
    root: Seq<u8>,
    path: Seq<u8>,
    rel: Seq<u8>,
    dirty: Set<Seq<Seq<u8>>>,
)
    requires
        sendable(wire_path(root, path)),
        is_under(path, root),
        components(root).len() > 0,
        components(rel) == seq![seq![SLASH]] + components(path).skip(
            components(root).len() as int,
        ),
    ensures
        after_request(dirty, request(dirty_line(root, path))) == dirty.insert(components(rel)),
        after_request(dirty, request(clean_line(root, path))) == dirty.remove(components(rel)),
{
    crate::protocol::law_lock_lines_are_read(root, path);
    crate::protocol::law_wire_path_components(root, path);
}

/// A change that a client hands over is read whole, and goes to the file that
/// has in the backing directory the names that the client's file has under
/// the remote root.
pub proof fn law_change_reaches_file(root: Seq<u8>, path: Seq<u8>, n: usize, backing: Seq<u8>)
    requires
        sendable(wire_path(root, path)),
        is_under(path, root),
        components(root).len() > 0,
        backing.len() > 0,
    ensures
        ({
            let disk = below(backing, wire_path(root, path));
            &&& action(backing, request(patch_line(root, path, n as nat))) == Action::ReadPatch(
                disk,
                n,
            )
            &&& components(disk) == components(backing) + components(path).skip(
                components(root).len() as int,
            )
        }),
{
    let w = wire_path(root, path);
    crate::protocol::law_patch_line_is_read(root, path, n);
    crate::protocol::law_wire_path_components(root, path);
    crate::protocol::lemma_wire_path_rooted(root, path);
    crate::server_fs::law_real_path(backing, w);
    assert(components(w).skip(1) =~= crate::path::names(w));
    assert(components(w).skip(1) =~= components(path).skip(components(root).len() as int));
}

/// A change that a client hands over brings the server's file to the client's
/// content: a delta that leads from the old content to the new one, sent behind
/// its line, is read whole and for the right file, and where that file has the
/// old content, it gets the new one.
pub proof fn law_file_is_synced(
    root: Seq<u8>,
    path: Seq<u8>,
    backing: Seq<u8>,
    old_data: Seq<u8>,
    new_data: Seq<u8>,
    patch: Seq<u8>,
)
    requires
        sendable(wire_path(root, path)),
        is_under(path, root),
        components(root).len() > 0,
        backing.len() > 0,
        patch.len() <= usize::MAX,
    ensures
        rsync_apply(old_data, patch) == Some(new_data) ==> {
            let disk = below(backing, wire_path(root, path));
            &&& action(backing, request(patch_line(root, path, patch.len())))
                == Action::ReadPatch(disk, patch.len() as usize)
            &&& components(disk) == components(backing) + components(path).skip(
                components(root).len() as int,
            )
            &&& patched(Some(patch), old_data) == Patched::Write(new_data)
        },
{
    law_change_reaches_file(root, path, patch.len() as usize, backing);
}

/// The components of a client's file as the server knows it.
pub open spec fn wire_key(root: Seq<u8>, key: Seq<Seq<u8>>) -> Seq<Seq<u8>> {
    seq![seq![SLASH]] + key.skip(components(root).len() as int)
}

/// Whether the server has locked every file that a client has changed. All of
/// them lie under the client's remote root.
pub open spec fn mirrored(
    root: Seq<u8>,
    changed: Set<Seq<Seq<u8>>>,
    locked: Set<Seq<Seq<u8>>>,
) -> bool {
    forall|k: Seq<Seq<u8>>| #[trigger]
        changed.contains(k) ==> {
            &&& components(root).len() <= k.len()
            &&& k.take(components(root).len() as int) == components(root)
            &&& locked.contains(wire_key(root, k))
        }
}

/// While a client announces each file that it changes, and unlocks it when the
/// server has the change, the server has locked every file that the client has
/// changed: the lock of one file does not depend on the others.
pub proof fn law_locks_follow_changes(
    root: Seq<u8>,
    path: Seq<u8>,
    changed: Set<Seq<Seq<u8>>>,
    locked: Set<Seq<Seq<u8>>>,
)
    requires
        mirrored(root, changed, locked),
        sendable(wire_path(root, path)),
        is_under(path, root),
        components(root).len() > 0,
    ensures
        mirrored(
            root,
            changed.insert(components(path)),
            after_request(locked, request(dirty_line(root, path))),
        ),
        mirrored(
            root,
            changed.remove(components(path)),
            after_request(locked, request(clean_line(root, path))),
        ),
        changed.contains(components(path)) ==> mirrored(
            root,
            changed.insert(components(path)),
            locked,
        ),
{
    let c = components(path);
    let n = components(root).len() as int;
    crate::protocol::law_lock_lines_are_read(root, path);
    crate::protocol::law_wire_path_components(root, path);
    assert(components(wire_path(root, path)) == wire_key(root, c));
    let freed = after_request(locked, request(clean_line(root, path)));
    assert forall|k: Seq<Seq<u8>>| #[trigger] changed.remove(c).contains(k) implies {
        &&& components(root).len() <= k.len()
        &&& k.take(n) == components(root)
        &&& freed.contains(wire_key(root, k))
    } by {
        assert(changed.contains(k));
        if wire_key(root, k) == wire_key(root, c) {
            assert(wire_key(root, k).skip(1) =~= k.skip(n));
            assert(wire_key(root, c).skip(1) =~= c.skip(n));
            assert(k =~= k.take(n) + k.skip(n));
            assert(c =~= c.take(n) + c.skip(n));
        }
    }
    if changed.contains(c) {
        assert(changed.insert(c) =~= changed);
    }
}

/// The requests that lock files anew.
pub open spec fn lock_requests(root: Seq<u8>, paths: Seq<Seq<u8>>) -> Seq<Request<Seq<u8>>> {
    paths.map_values(|p: Seq<u8>| request(dirty_line(root, p)))
}

/// A client that has lost its connection, and with it its locks, has them
/// again once it has sent the lock line of every file that it has changed.
pub proof fn law_resending_restores_locks(
    root: Seq<u8>,
    paths: Seq<Seq<u8>>,
    locked: Set<Seq<Seq<u8>>>,
)
    requires
        components(root).len() > 0,
        forall|i: int|
            0 <= i < paths.len() ==> is_under(#[trigger] paths[i], root) && sendable(
                wire_path(root, paths[i]),
            ),
    ensures
        mirrored(
            root,
            crate::pathset::path_keys(paths),
            after_requests(locked, lock_requests(root, paths)),
        ),
    decreases paths.len(),
{
    if paths.len() == 0 {
        assert(crate::pathset::path_keys(paths) =~= Set::empty());
    } else {
        let rest = paths.drop_last();
        let p = paths.last();
        assert forall|i: int| 0 <= i < rest.len() implies is_under(#[trigger] rest[i], root)
            && sendable(wire_path(root, rest[i])) by {
            assert(rest[i] == paths[i]);
        }
        law_resending_restores_locks(root, rest, locked);
        assert(paths[paths.len() - 1] == p);
        assert(lock_requests(root, paths).drop_last() =~= lock_requests(root, rest));
        assert(paths =~= rest.push(p));
        crate::pathset::lemma_keys_push(rest, p);
        law_locks_follow_changes(
            root,
            p,
            crate::pathset::path_keys(rest),
            after_requests(locked, lock_requests(root, rest)),
        );
    }
}

/// A set of paths after several requests.
pub open spec fn after_requests(
    paths: Set<Seq<Seq<u8>>>,
    reqs: Seq<Request<Seq<u8>>>,
) -> Set<Seq<Seq<u8>>>
    decreases reqs.len(),
{
    if reqs.len() == 0 {
        paths
    } else {
        after_request(after_requests(paths, reqs.drop_last()), reqs.last())
    }
}

/// The paths that requests lock or unlock.
pub open spec fn named_in(reqs: Seq<Request<Seq<u8>>>) -> Set<Seq<Seq<u8>>>
    decreases reqs.len(),
{
    if reqs.len() == 0 {
        Set::empty()
    } else {
        let before = named_in(reqs.drop_last());
        match reqs.last() {
            Request::Dirty(p) => before.insert(components(p)),
            Request::Clean(p) => before.insert(components(p)),
            _ => before,
        }
    }
}

/// Whatever a client asks, when its session has ended the paths that are left
/// locked are those that were locked when it began and that it neither locked
/// nor unlocked.
pub proof fn law_session_leaves_no_locks(
    dirty: Set<Seq<Seq<u8>>>,
    reqs: Seq<Request<Seq<u8>>>,
)
    ensures
        after_requests(dirty, reqs).difference(after_requests(Set::empty(), reqs))
            == dirty.difference(named_in(reqs)),
{
    assert forall|k: Seq<Seq<u8>>|
        after_requests(dirty, reqs).difference(after_requests(Set::empty(), reqs)).contains(k)
            == dirty.difference(named_in(reqs)).contains(k) by {
        lemma_key_after(dirty, reqs, k);
    }
    assert(after_requests(dirty, reqs).difference(after_requests(Set::empty(), reqs))
        =~= dirty.difference(named_in(reqs)));
}

/// A path that requests name ends locked for all exactly where it ends locked
/// by them; of any other nothing changes.
proof fn lemma_key_after(
    dirty: Set<Seq<Seq<u8>>>,
    reqs: Seq<Request<Seq<u8>>>,
    k: Seq<Seq<u8>>,
)
    ensures
        named_in(reqs).contains(k) ==> after_requests(dirty, reqs).contains(k) == after_requests(
            Set::empty(),
            reqs,
        ).contains(k),
        !named_in(reqs).contains(k) ==> after_requests(dirty, reqs).contains(k)
            == dirty.contains(k) && !after_requests(Set::empty(), reqs).contains(k),
    decreases reqs.len(),
{
    if reqs.len() > 0 {
        lemma_key_after(dirty, reqs.drop_last(), k);
    }
}

/// What the server does follows from what is asked alone: it subscribes, ends,
/// locks or unlocks only where a line asks for that, reads a delta only behind
/// a patch line, and of the locks a request touches at most the path that it
/// names.
pub proof fn law_actions_follow_requests(
    backing: Seq<u8>,
    req: Request<Seq<u8>>,
    paths: Set<Seq<Seq<u8>>>,
    k: Seq<Seq<u8>>,
)
    ensures
        action(backing, req) is Subscribe <==> req is Subscribe,
        action(backing, req) is Shutdown <==> req is Shutdown,
        action(backing, req) is Locked <==> req is Dirty,
        action(backing, req) is Unlocked <==> req is Clean,
        action(backing, req) is Nothing <==> req is Ignored,
        action(backing, req) is ReadPatch <==> req is Patch,
        req matches Request::Dirty(p) ==> (after_request(paths, req).contains(k) <==> (
        paths.contains(k) || k == components(p))),
        req matches Request::Clean(p) ==> (after_request(paths, req).contains(k) <==> (
        paths.contains(k) && k != components(p))),
        !(req is Dirty) && !(req is Clean) ==> after_request(paths, req) == paths,
        req matches Request::Patch(p, n) ==> {
            let a = action(backing, req);
            &&& a matches Action::ReadPatch(disk, m) && m == n && (rooted(p) && backing.len() > 0
                ==> components(disk) == components(backing) + crate::path::names(p))
        },
{
    if let Request::Patch(p, n) = req {
        if rooted(p) && backing.len() > 0 {
            crate::server_fs::law_real_path(backing, p);
        }
    }
}

/// A delta that did not come ends the session, one that does not fit leaves the
/// file as it is, and one that fits gives the file what applying it gives.
pub proof fn law_deltas_do_what_they_give(patch: Seq<u8>, old_data: Seq<u8>)
    ensures
        patched(None, old_data) == Patched::<Seq<u8>>::End,
        patched(Some(patch), old_data) is End == false,
        rsync_apply(old_data, patch) is None <==> patched(Some(patch), old_data) is Skip,
        patched(Some(patch), old_data) matches Patched::Write(v) ==> rsync_apply(old_data, patch)
            == Some(v),
{
}

/// A look without clients counts ten seconds, and one with clients begins anew;
/// the server ends at sixty.
pub proof fn law_looks_count_seconds(idle: nat, active: nat)
    ensures
        active > 0 ==> idle_after(idle, active) == 0,
        active == 0 ==> idle_after(idle, active) == idle + 10,
        WATCH_PERIOD == 10,
        IDLE_LIMIT == 60,
{
}

/// The server waits on its own machine only, at the port that it was given: the
/// address is `127.0.0.1:` and digits that are read back as the port.
pub proof fn law_address_has_the_port(port: u16)
    ensures
        local_address(port).len() > 10,
        local_address(port).take(10) == ascii("127.0.0.1:"@),
        crate::bytes::number(local_address(port).skip(10), u16::MAX as nat) == Some(port as nat),
{
    reveal_strlit("127.0.0.1:");
    crate::bytes::law_decimal_reads_back(port as nat, u16::MAX as nat);
    assert(local_address(port).take(10) =~= ascii("127.0.0.1:"@));
    assert(local_address(port).skip(10) =~= decimal(port as nat));
}

/// A change locks the file: whatever the client has changed before, once it has
/// marked a change and sent what it then announces, the server has locked that
/// file and all that the client has changed. What is announced is read as the
/// lock of that file, and of a file that is locked already nothing is.
pub proof fn law_change_locks_file(
    root: Seq<u8>,
    path: Seq<u8>,
    changed: Set<Seq<Seq<u8>>>,
    locked: Set<Seq<Seq<u8>>>,
)
    requires
        mirrored(root, changed, locked),
        sendable(wire_path(root, path)),
        is_under(path, root),
        components(root).len() > 0,
    ensures
        ({
            let line = announcement(root, path, changed);
            let now = match line {
                Some(l) => after_request(locked, request(l)),
                None => locked,
            };
            &&& mirrored(root, changed.insert(components(path)), now)
            &&& now.contains(wire_key(root, components(path)))
            &&& changed.contains(components(path)) ==> line is None
            &&& !changed.contains(components(path)) ==> line is Some && now == locked.insert(
                wire_key(root, components(path)),
            )
        }),
{
    law_locks_follow_changes(root, path, changed, locked);
    crate::protocol::law_lock_lines_are_read(root, path);
    crate::protocol::law_wire_path_components(root, path);
    assert(changed.insert(components(path)).contains(components(path)));
}

} // verus!
