//! Where the server keeps a workspace's files while it shows them under the
//! workspace's own path.
use vstd::prelude::*;
use crate::bytes::append_bytes;
use crate::bytes::ascii;
use crate::bytes::ascii_bytes;
use crate::digest::lossy;
use crate::digest::lossy_bytes;
use crate::path::components;
use crate::path::file_name;
use crate::path::join;
use crate::path::join_path;
use crate::path::lemma_last_span;
use crate::path::names;
use crate::path::parent;
use crate::path::parent_path;
use crate::path::path_file_name;
use crate::path::same;
use crate::path::SLASH;

verus! {

/// The name of the backing directory of a workspace with this name.
pub open spec fn hidden_name(name: Seq<u8>) -> Seq<u8> {
    ascii(".slipspace_backing_"@) + lossy(name)
}

/// The backing directory of a workspace: it lies beside it.
pub open spec fn backing_path(target: Seq<u8>) -> Seq<u8> {
    join(
        match parent(target) {
            Some(p) => p,
            None => seq![SLASH],
        },
        hidden_name(
            match file_name(target) {
                Some(n) => n,
                None => ascii("workspace"@),
            },
        ),
    )
}

/// The backing directory of a workspace.
pub fn backing_dir(target: &[u8]) -> (r: Vec<u8>)
    ensures
        r@ == backing_path(target@),
{
    proof {
        reveal_strlit(".slipspace_backing_");
        reveal_strlit("workspace");
    }
    let above = match parent_path(target) {
        Some(p) => p,
        None => {
            let mut root: Vec<u8> = Vec::new();
            root.push(SLASH);
            assert(root@ =~= seq![SLASH]);
            root
        },
    };
    let name = match path_file_name(target) {
        Some(n) => n,
        None => ascii_bytes("workspace"),
    };
    let mut hidden = ascii_bytes(".slipspace_backing_");
    append_bytes(&mut hidden, lossy_bytes(name.as_slice()).as_slice());
    join_path(above.as_slice(), hidden.as_slice())
}

/// What becomes of the directories when the server starts. In any event the
/// workspace's own path is then an empty directory to mount on.
#[derive(Clone, Copy, Debug, PartialEq, Eq, Structural)]
pub enum Startup {
    /// The backing directory is there already, and is used as it is.
    Reuse,
    /// There is no workspace yet: the backing directory is made, empty.
    Make,
    /// The workspace is moved to the backing directory.
    Move,
}

/// What becomes of the directories when the server starts.
pub fn startup(backing_exists: bool, target_exists: bool) -> (r: Startup)
    ensures
        r == if backing_exists {
            Startup::Reuse
        } else if target_exists {
            Startup::Move
        } else {
            Startup::Make
        },
{
    if backing_exists {
        Startup::Reuse
    } else if target_exists {
        Startup::Move
    } else {
        Startup::Make
    }
}

/// The backing directory of a workspace whose name is UTF-8 has the components
/// of the workspace but for the name, which tells the two apart.
pub proof fn law_backing_beside_target(target: Seq<u8>)
    requires
        parent(target) is Some,
        parent(target)->0.len() > 0,
        file_name(target) is Some,
        vstd::utf8::valid_utf8(file_name(target)->0),
    ensures
        components(backing_path(target)) == components(target).drop_last().push(
            hidden_name(file_name(target)->0),
        ),
        !same(backing_path(target), target),
{
    reveal_strlit(".slipspace_backing_");
    let name = file_name(target)->0;
    let h = hidden_name(name);
    let s = crate::path::spans(target);
    crate::path::law_parent_components(target);
    crate::path::lemma_spans(target, 0);
    let last = s[s.len() - 1];
    assert(name == target.subrange(last.0, last.1));
    assert forall|j: int| 0 <= j < h.len() implies h[j] != SLASH by {
        let k = ascii(".slipspace_backing_"@).len();
        if j >= k {
            assert(h[j] == name[j - k]);
            assert(name[j - k] == target[last.0 + j - k]);
        }
    }
    assert(h[1] != 46);
    assert(h.skip(0) =~= h);
    lemma_last_span(h, 0, 0);
    crate::bytes::lemma_find_from_is(h, SLASH, 0, h.len() as int);
    let n = h.len() as int;
    assert(crate::path::spans_from(h, n + 1) =~= Seq::empty());
    assert(h.subrange(0, n) =~= h);
    assert(crate::path::spans_from(h, 0) =~= seq![(0int, n)]);
    assert(names(h) =~= seq![h]);
    crate::path::law_join_components(parent(target)->0, h);
    let cs = components(target);
    assert(components(backing_path(target)) =~= cs.drop_last().push(h));
    assert(cs.last() == name) by {
        assert(names(target).last() == name);
    }
    assert(h.len() > name.len());
    assert(components(backing_path(target)).last() == h);
}

/// A workspace that is given by its name alone has its backing directory beside
/// it too, and one without a name of its own has that of a workspace with the
/// name `workspace`; at the root that lies right under the root.
pub proof fn law_backing_without_parent(target: Seq<u8>)
    ensures
        parent(target) is Some && parent(target)->0.len() == 0 && file_name(target) is Some
            && vstd::utf8::valid_utf8(file_name(target)->0) ==> backing_path(target) == ascii(
            ".slipspace_backing_"@,
        ) + file_name(target)->0,
        target == seq![SLASH] ==> backing_path(target) == seq![SLASH] + ascii(
            ".slipspace_backing_workspace"@,
        ),
{
    reveal_strlit(".slipspace_backing_");
    reveal_strlit("workspace");
    reveal_strlit(".slipspace_backing_workspace");
    if target == seq![SLASH] {
        crate::protocol::lemma_root_components();
        crate::path::law_parent_components(target);
        assert(names(target).len() == 0);
        let w = ascii("workspace"@);
        assert(vstd::utf8::valid_utf8(w)) by {
            vstd::utf8::encode_utf8_valid_utf8("workspace"@);
            vstd::utf8::is_ascii_chars_encode_utf8("workspace"@);
            assert(vstd::utf8::encode_utf8("workspace"@) =~= w);
        }
        assert(backing_path(target) =~= seq![SLASH] + ascii(".slipspace_backing_workspace"@));
    } else if parent(target) is Some && parent(target)->0.len() == 0 && file_name(target) is Some
        && vstd::utf8::valid_utf8(file_name(target)->0) {
        assert(backing_path(target) =~= hidden_name(file_name(target)->0));
    }
}

/// The name of the backing directory is the name of the workspace behind a word
/// that hides it.
pub proof fn law_hidden_name(name: Seq<u8>)
    requires
        vstd::utf8::valid_utf8(name),
    ensures
        hidden_name(name).len() == 19 + name.len(),
        hidden_name(name).take(19) == ascii(".slipspace_backing_"@),
        hidden_name(name).skip(19) == name,
{
    reveal_strlit(".slipspace_backing_");
    assert(hidden_name(name).take(19) =~= ascii(".slipspace_backing_"@));
    assert(hidden_name(name).skip(19) =~= name);
}

} // verus!
