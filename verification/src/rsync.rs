//! Deltas between two versions of a file.
use vstd::prelude::*;
use crate::bytes::bytes_eq;

verus! {

/// The granularity of the signatures that deltas are made against.
pub const BLOCK_SIZE: u32 = 2048;

/// The number of hash bytes that a signature keeps of each block.
pub const HASH_SIZE: u32 = 8;

/// The delta that `fast_rsync` computes from `old` to `new`, with blocks of
/// `block_size` bytes of which `hash_size` hash bytes are kept.
pub uninterp spec fn rsync_delta(old_data: Seq<u8>, new_data: Seq<u8>, block_size: u32, hash_size: u32) -> Seq<u8>;

/// What `fast_rsync` makes of `base` when it applies `delta`; none where the
/// delta does not fit.
pub uninterp spec fn rsync_apply(base: Seq<u8>, delta: Seq<u8>) -> Option<Seq<u8>>;

/// Calls `Signature::calculate` and `Signature::index` of the crate
/// `fast_rsync` on the old data, and `diff` on the result and the new data.
/// The claim: the delta depends on the arguments alone; and a delta with no
/// old data, or to new data shorter than a block, holds the new data
/// literally, so that applying it to anything gives the new data. Of other
/// data the crate promises no reconstruction: its block hashes can collide.
#[verifier::external_body]
fn diff_data(old_data: &[u8], new_data: &[u8], block_size: u32, hash_size: u32) -> (r: Vec<u8>)
    requires
        block_size > 0,
        hash_size <= 16,
    ensures
        r@ == rsync_delta(old_data@, new_data@, block_size, hash_size),
        old_data@.len() == 0 || new_data@.len() < block_size ==> forall|b: Seq<u8>|
            #[trigger] rsync_apply(b, r@) == Some(new_data@),
{
    let options = fast_rsync::SignatureOptions { block_size, crypto_hash_size: hash_size };
    let signature = fast_rsync::Signature::calculate(old_data, options);
    let mut delta = Vec::new();
    fast_rsync::diff(&signature.index(), new_data, &mut delta).unwrap();
    delta
}

/// Calls `apply` of the crate `fast_rsync`. The claim: success and outcome
/// depend on the base and the delta alone.
#[verifier::external_body]
fn apply_data(base: &[u8], delta: &[u8]) -> (r: Option<Vec<u8>>)
    ensures
        match r {
            Some(v) => rsync_apply(base@, delta@) == Some(v@),
            None => rsync_apply(base@, delta@) is None,
        },
{
    let mut out = Vec::new();
    match fast_rsync::apply(base, delta, &mut out) {
        Ok(()) => Some(out),
        Err(_) => None,
    }
}

/// The delta between two versions of a file.
pub open spec fn delta(old_data: Seq<u8>, new_data: Seq<u8>) -> Seq<u8> {
    rsync_delta(old_data, new_data, BLOCK_SIZE, HASH_SIZE)
}

/// The delta that is sent: the one between the two versions where it restores
/// the new one, else one that holds the new version whole.
pub open spec fn sent_delta(old_data: Seq<u8>, new_data: Seq<u8>) -> Seq<u8> {
    if rsync_apply(old_data, delta(old_data, new_data)) == Some(new_data) {
        delta(old_data, new_data)
    } else {
        delta(Seq::empty(), new_data)
    }
}

/// Whether what applying a delta gave is the new data.
pub fn restores(result: Option<Vec<u8>>, new_data: &[u8]) -> (r: bool)
    ensures
        r == match result {
            Some(v) => v@ == new_data@,
            None => false,
        },
{
    match result {
        Some(v) => bytes_eq(v.as_slice(), new_data),
        None => false,
    }
}

/// A delta that brings a file from `old_data` to `new_data`. Where block hashes
/// collide, so that the delta between the two would not restore the new data,
/// the new data are sent whole.
pub fn make_delta(old_data: &[u8], new_data: &[u8]) -> (r: Vec<u8>)
    ensures
        rsync_apply(old_data@, r@) == Some(new_data@),
        r@ == sent_delta(old_data@, new_data@),
        rsync_apply(old_data@, delta(old_data@, new_data@)) == Some(new_data@) ==> r@ == delta(
            old_data@,
            new_data@,
        ),
        old_data@.len() == 0 || new_data@.len() < BLOCK_SIZE ==> forall|b: Seq<u8>|
            #[trigger] rsync_apply(b, r@) == Some(new_data@),
{
    let between = diff_data(old_data, new_data, BLOCK_SIZE, HASH_SIZE);
    if restores(apply_data(old_data, between.as_slice()), new_data) {
        return between;
    }
    let nothing: Vec<u8> = Vec::new();
    assert(nothing@ =~= Seq::empty());
    diff_data(nothing.as_slice(), new_data, BLOCK_SIZE, HASH_SIZE)
}

/// Applies a received delta to a file; none where the delta does not fit.
pub fn apply_delta(base: &[u8], patch: &[u8]) -> (r: Option<Vec<u8>>)
    ensures
        match r {
            Some(v) => rsync_apply(base@, patch@) == Some(v@),
            None => rsync_apply(base@, patch@) is None,
        },
{
    apply_data(base, patch)
}

} // verus!
