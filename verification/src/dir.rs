//! How a directory is listed, a few entries at a time.
//!
//! Entries are numbered from 1. The kernel names the last entry that it has,
//! and is offered those behind it until it has enough.
use vstd::prelude::*;
use crate::attr::FileKind;
use crate::bytes::DOT;
use crate::path::file_name;
use crate::path::path_file_name;

verus! {

/// An entry of a directory, as the kernel is offered it.
pub struct DirEntry {
    /// The number of the file.
    pub ino: u64,
    /// The number of the entry.
    pub cookie: i64,
    /// What sort of file it is.
    pub kind: FileKind,
    /// Its name.
    pub name: Vec<u8>,
}

/// The place of the first entry from `i` on that is shown and lies behind
/// `offset`, or the number of entries.
pub open spec fn shown_from(shown: Seq<bool>, offset: i64, i: int) -> int
    decreases shown.len() - i,
{
    if i >= shown.len() {
        shown.len() as int
    } else if i + 1 > offset && shown[i] {
        i
    } else {
        shown_from(shown, offset, i + 1)
    }
}

/// What is found is shown and lies behind the offset, and nothing in front of
/// it does.
pub proof fn lemma_shown_from(shown: Seq<bool>, offset: i64, i: int)
    requires
        0 <= i,
    ensures
        shown_from(shown, offset, i) <= shown.len(),
        i <= shown.len() ==> i <= shown_from(shown, offset, i),
        shown_from(shown, offset, i) < shown.len() ==> {
            let k = shown_from(shown, offset, i);
            i <= k && k + 1 > offset && shown[k]
        },
        forall|j: int|
            i <= j < shown_from(shown, offset, i) ==> !(#[trigger] shown[j]) || j + 1 <= offset,
    decreases shown.len() - i,
{
    if i < shown.len() && !(i + 1 > offset && shown[i]) {
        lemma_shown_from(shown, offset, i + 1);
    }
}

/// A listing that is taken up again behind an entry goes on with the entry
/// that would have come next: nothing is left out, and nothing comes twice.
pub proof fn law_listing_resumes(shown: Seq<bool>, offset: i64, i: int)
    requires
        0 <= i < shown.len() <= i64::MAX,
        i + 1 > offset,
    ensures
        shown_from(shown, (i + 1) as i64, 0) == shown_from(shown, offset, i + 1),
{
    lemma_skip(shown, (i + 1) as i64, 0, i + 1);
    lemma_offset(shown, offset, (i + 1) as i64, i + 1);
}

proof fn lemma_skip(shown: Seq<bool>, offset: i64, i: int, k: int)
    requires
        0 <= i <= k <= shown.len(),
        k <= offset,
    ensures
        shown_from(shown, offset, i) == shown_from(shown, offset, k),
    decreases k - i,
{
    if i < k {
        lemma_skip(shown, offset, i + 1, k);
    }
}

proof fn lemma_offset(shown: Seq<bool>, a: i64, b: i64, i: int)
    requires
        0 <= i,
        a <= i,
        b <= i,
    ensures
        shown_from(shown, a, i) == shown_from(shown, b, i),
    decreases shown.len() - i,
{
    if i < shown.len() {
        lemma_offset(shown, a, b, i + 1);
    }
}

/// The name of a directory for itself, of one dot, or for the one above it, of
/// two.
pub fn dots(n: usize) -> (r: Vec<u8>)
    requires
        n == 1 || n == 2,
    ensures
        r@ == if n == 1 {
            seq![DOT]
        } else {
            seq![DOT, DOT]
        },
{
    let mut r: Vec<u8> = Vec::new();
    r.push(DOT);
    if n == 2 {
        r.push(DOT);
        assert(r@ =~= seq![DOT, DOT]);
    } else {
        assert(r@ =~= seq![DOT]);
    }
    r
}

/// The name of the entry at `i`: the first two are the directory itself and
/// the one above it, and are named as they stand; the others by the last name
/// of their path.
pub open spec fn entry_name(path: Seq<u8>, i: int) -> Seq<u8> {
    if i < 2 {
        path
    } else {
        match file_name(path) {
            Some(n) => n,
            None => Seq::empty(),
        }
    }
}

/// The name of the entry at `i`.
pub fn make_entry_name(path: &[u8], i: usize) -> (r: Vec<u8>)
    ensures
        r@ == entry_name(path@, i as int),
{
    if i < 2 {
        let r = crate::bytes::copy_range(path, 0, path.len());
        assert(r@ =~= path@);
        r
    } else {
        match path_file_name(path) {
            Some(n) => n,
            None => Vec::new(),
        }
    }
}

} // verus!
