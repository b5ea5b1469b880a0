//! What a client does about files that change on the server.
use vstd::prelude::*;
use crate::cache::files_of;
use crate::cache::local_path;
use crate::cache::to_base_path;
use crate::cache::to_local_path;
use crate::cache::Removal;
use crate::path::components;
use crate::path::descend;
use crate::path::is_under;
use crate::path::rooted;
use crate::path::SLASH;
use crate::pathset::PathSet;
use crate::protocol::invalidate_line;
use crate::protocol::notice;
use crate::protocol::parse_notice;
use crate::protocol::sendable;
use crate::protocol::wire_path;
use crate::server_fs::news;

verus! {

/// How many seconds pass before the next connection is tried.
pub const RECONNECT_DELAY: u64 = 1;

/// What a client that listens to the server does next.
#[derive(Clone, Copy, Debug, PartialEq, Eq, Structural)]
pub enum Listening {
    /// Makes a connection.
    Connect,
    /// Sends the line that subscribes to notices.
    Subscribe,
    /// Reads the next line.
    Read,
    /// Waits before the next connection.
    Pause,
}

/// What a client that listens does after a step that went well or did not.
pub open spec fn listening_after(step: Listening, ok: bool) -> Listening {
    match step {
        Listening::Pause => Listening::Connect,
        Listening::Connect => if ok {
            Listening::Subscribe
        } else {
            Listening::Pause
        },
        _ => if ok {
            Listening::Read
        } else {
            Listening::Pause
        },
    }
}

/// A client that listens reads only on a connection over which it has
/// subscribed, goes on reading while it can, and after any failure waits once
/// and then makes a new connection and subscribes anew.
pub proof fn law_listener_begins_anew(step: Listening, ok: bool)
    ensures
        listening_after(step, ok) == Listening::Read <==> ok && (step == Listening::Subscribe
            || step == Listening::Read),
        listening_after(step, ok) == Listening::Subscribe <==> ok && step == Listening::Connect,
        listening_after(step, ok) == Listening::Pause <==> !ok && step != Listening::Pause,
        listening_after(step, ok) == Listening::Connect <==> step == Listening::Pause,
{
}

/// What a client that listens does after a step that went well or did not: it
/// reads for as long as there is something to read, and then begins anew.
pub fn listen_next(step: Listening, ok: bool) -> (r: Listening)
    ensures
        r == listening_after(step, ok),
        r == match step {
            Listening::Pause => Listening::Connect,
            _ if !ok => Listening::Pause,
            Listening::Connect => Listening::Subscribe,
            _ => Listening::Read,
        },
{
    match step {
        Listening::Pause => Listening::Connect,
        Listening::Connect => if ok {
            Listening::Subscribe
        } else {
            Listening::Pause
        },
        _ => if ok {
            Listening::Read
        } else {
            Listening::Pause
        },
    }
}

/// The path whose cached files a line from the server makes worthless, for a
/// client with these changes and these notices to ignore.
pub open spec fn purged(
    root: Seq<u8>,
    line: Seq<u8>,
    dirty: Set<Seq<Seq<u8>>>,
    ignores: Set<Seq<Seq<u8>>>,
) -> Option<Seq<u8>> {
    match notice(root, line) {
        Some(p) => if dirty.contains(components(p)) || ignores.contains(components(p)) {
            None
        } else {
            Some(p)
        },
        None => None,
    }
}

/// The cached files that a line from the server makes worthless. A file with
/// changes of this client stays, and so does one that this client itself has
/// just changed on the server: that one notice is used up.
pub fn purge(
    root: &[u8],
    cache_dir: &[u8],
    line: &[u8],
    dirty: &PathSet,
    ignores: &mut PathSet,
) -> (r: Option<Removal>)
    ensures
        match notice(root@, line@) {
            Some(p) => {
                &&& final(ignores)@ == old(ignores)@.remove(components(p))
                &&& r is Some <==> !dirty@.contains(components(p)) && !old(ignores)@.contains(
                    components(p),
                )
                &&& r is Some ==> (r->0.local@, r->0.base@) == files_of(cache_dir@, p)
            },
            None => r is None && *final(ignores) == *old(ignores),
        },
        match r {
            Some(v) => match purged(root@, line@, dirty@, old(ignores)@) {
                Some(p) => (v.local@, v.base@) == files_of(cache_dir@, p),
                None => false,
            },
            None => purged(root@, line@, dirty@, old(ignores)@) is None,
        },
{
    match parse_notice(root, line) {
        Some(p) => {
            let is_dirty = dirty.contains(p.as_slice());
            let is_ignored = ignores.remove(p.as_slice());
            if is_dirty || is_ignored {
                return None;
            }
            let local = to_local_path(cache_dir, p.as_slice());
            let base = to_base_path(local.as_slice());
            Some(Removal { local, base })
        },
        None => None,
    }
}

/// A client that changes a file on the server itself, and says so, ignores the
/// notice that the server then sends under the name that the file has there.
pub proof fn law_own_change_is_ignored(
    root: Seq<u8>,
    path: Seq<u8>,
    ignores: Set<Seq<Seq<u8>>>,
)
    requires
        is_under(path, root),
        components(root).len() > 0,
        sendable(wire_path(root, path)),
    ensures
        ({
            let line = invalidate_line(wire_path(root, path)).drop_last();
            &&& notice(root, line) is Some
            &&& ignores.insert(components(path)).contains(components(notice(root, line)->0))
            &&& ignores.insert(components(path)).remove(components(notice(root, line)->0))
                == ignores.remove(components(path))
        }),
{
    crate::protocol::law_notice_names_the_file(root, path);
    assert(ignores.insert(components(path)).remove(components(path)) =~= ignores.remove(
        components(path),
    ));
}

/// A notice hits the copy that it is about: where the server came to a file by
/// some names from the root of the workspace, and a client by the same names
/// from its remote root, the client reads the server's notice of the file as
/// the very path by which it knows the file, and so drops the files that it
/// keeps for it.
pub proof fn law_notice_hits_cached_copy(
    root: Seq<u8>,
    cache_dir: Seq<u8>,
    ns: Seq<Seq<u8>>,
    dirty: Set<Seq<Seq<u8>>>,
)
    requires
        components(root).len() > 0,
        ns.len() > 0,
        forall|i: int|
            0 <= i < ns.len() ==> (#[trigger] ns[i]).len() > 0 && !rooted(ns[i]),
        sendable(descend(seq![SLASH], ns)),
        !dirty.contains(components(descend(seq![SLASH], ns))),
    ensures
        ({
            let line = news(descend(seq![SLASH], ns), dirty);
            &&& line is Some
            &&& notice(root, line->0.drop_last()) == Some(descend(root, ns))
            &&& files_of(cache_dir, notice(root, line->0.drop_last())->0).0 == local_path(
                cache_dir,
                descend(root, ns),
            )
        }),
{
    let top = seq![SLASH];
    let rel = descend(top, ns);
    let x = descend(Seq::empty(), ns);
    crate::path::law_descend(top, ns);
    crate::path::law_descend(root, ns);
    assert(rel =~= top + x);
    assert(rel.skip(1) =~= x);
    crate::protocol::lemma_invalidate_line(root, rel);
}

/// When a file changes on the server that the client came to by the same names,
/// the client drops its copy exactly where it has no changes of its own to the
/// file and the change was not its own; and it drops no other.
pub proof fn law_outdated_copy_is_dropped(
    root: Seq<u8>,
    ns: Seq<Seq<u8>>,
    locked: Set<Seq<Seq<u8>>>,
    dirty: Set<Seq<Seq<u8>>>,
    ignores: Set<Seq<Seq<u8>>>,
)
    requires
        components(root).len() > 0,
        ns.len() > 0,
        forall|i: int|
            0 <= i < ns.len() ==> (#[trigger] ns[i]).len() > 0 && !rooted(ns[i]),
        sendable(descend(seq![SLASH], ns)),
        !locked.contains(components(descend(seq![SLASH], ns))),
    ensures
        ({
            let line = news(descend(seq![SLASH], ns), locked)->0.drop_last();
            let p = descend(root, ns);
            purged(root, line, dirty, ignores) == if dirty.contains(components(p))
                || ignores.contains(components(p)) {
                None
            } else {
                Some(p)
            }
        }),
{
    law_notice_hits_cached_copy(root, Seq::empty(), ns, locked);
}

} // verus!
