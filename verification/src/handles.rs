//! The files that a file system has open, by their handles.
use vstd::prelude::*;
use std::collections::HashMap;

verus! {

/// Open files, each with a handle. Handles count up from 1, and none is given
/// out twice.
pub struct Handles<T> {
    files: HashMap<u64, T>,
    next: u64,
}

impl<T> View for Handles<T> {
    type V = Map<u64, T>;

    closed spec fn view(&self) -> Map<u64, T> {
        self.files@
    }
}

impl<T> Handles<T> {
    /// The handle that is given out next.
    pub closed spec fn next(&self) -> u64 {
        self.next
    }

    #[verifier::type_invariant]
    spec fn inv(self) -> bool {
        forall|k: u64| #[trigger] self.files@.contains_key(k) ==> k < self.next
    }

    /// No open files.
    pub fn new() -> (r: Self)
        ensures
            r@ == Map::<u64, T>::empty(),
            r.next() == 1,
    {
        Handles { files: HashMap::new(), next: 1 }
    }

    /// Whether there are handles left.
    pub fn has_next(&self) -> (r: bool)
        ensures
            r == (self.next() < u64::MAX),
    {
        self.next < u64::MAX
    }

    /// Gives a file a handle, which no file had before.
    pub fn open(&mut self, file: T) -> (r: u64)
        requires
            old(self).next() < u64::MAX,
        ensures
            r == old(self).next(),
            !old(self)@.contains_key(r),
            final(self)@ == old(self)@.insert(r, file),
            final(self).next() == r + 1,
    {
        broadcast use vstd::std_specs::hash::group_hash_axioms;

        proof {
            use_type_invariant(&*self);
        }
        let mut whole = Handles { files: HashMap::new(), next: 1 };
        std::mem::swap(&mut whole, self);
        let Handles { mut files, next } = whole;
        let _ = files.insert(next, file);
        *self = Handles { files, next: next + 1 };
        next
    }

    /// The file with the handle `fh`.
    pub fn get(&self, fh: u64) -> (r: Option<&T>)
        ensures
            match r {
                Some(f) => self@.contains_key(fh) && *f == self@[fh],
                None => !self@.contains_key(fh),
            },
    {
        broadcast use vstd::std_specs::hash::group_hash_axioms;

        self.files.get(&fh)
    }

    /// Takes the file with the handle `fh` out.
    pub fn close(&mut self, fh: u64) -> (r: Option<T>)
        ensures
            match r {
                Some(f) => old(self)@.contains_key(fh) && f == old(self)@[fh],
                None => !old(self)@.contains_key(fh),
            },
            final(self)@ == old(self)@.remove(fh),
            final(self).next() == old(self).next(),
    {
        broadcast use vstd::std_specs::hash::group_hash_axioms;

        proof {
            use_type_invariant(&*self);
        }
        let mut whole = Handles { files: HashMap::new(), next: 1 };
        std::mem::swap(&mut whole, self);
        let Handles { mut files, next } = whole;
        let r = files.remove(&fh);
        *self = Handles { files, next };
        r
    }
}

} // verus!
