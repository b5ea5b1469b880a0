//! Sets of paths, and counters kept per path.
use vstd::prelude::*;
use crate::bytes::copy_range;
use crate::path::components;
use crate::path::same;
use crate::path::same_path;

verus! {

/// The byte strings in a list of vectors.
pub open spec fn texts_of(v: Seq<Vec<u8>>) -> Seq<Seq<u8>> {
    v.map_values(|t: Vec<u8>| t@)
}

/// The place of the first text in `ts` that is the same path as `p`, or the
/// length of `ts`.
pub open spec fn find_path(ts: Seq<Seq<u8>>, p: Seq<u8>) -> int
    decreases ts.len(),
{
    if ts.len() == 0 {
        0
    } else if same(ts[0], p) {
        0
    } else {
        1 + find_path(ts.skip(1), p)
    }
}

/// Whether one of the texts is the same path as `p`.
pub open spec fn has_path(ts: Seq<Seq<u8>>, p: Seq<u8>) -> bool {
    exists|i: int| 0 <= i < ts.len() && same(#[trigger] ts[i], p)
}

/// Whether no two of the texts are the same path.
pub open spec fn distinct(ts: Seq<Seq<u8>>) -> bool {
    forall|i: int, j: int|
        0 <= i < j < ts.len() ==> !same(#[trigger] ts[i], #[trigger] ts[j])
}

/// What `find_path` finds.
pub proof fn lemma_find_path(ts: Seq<Seq<u8>>, p: Seq<u8>)
    ensures
        0 <= find_path(ts, p) <= ts.len(),
        forall|i: int| 0 <= i < find_path(ts, p) ==> !same(#[trigger] ts[i], p),
        find_path(ts, p) < ts.len() ==> same(ts[find_path(ts, p)], p),
        has_path(ts, p) <==> find_path(ts, p) < ts.len(),
    decreases ts.len(),
{
    if ts.len() > 0 && !same(ts[0], p) {
        lemma_find_path(ts.skip(1), p);
        assert forall|i: int| 0 <= i < find_path(ts, p) implies !same(#[trigger] ts[i], p) by {
            if i > 0 {
                assert(ts[i] == ts.skip(1)[i - 1]);
            }
        }
    }
}

/// A place with the path `p`, and none before it, is the one that `find_path`
/// finds.
pub proof fn lemma_find_path_is(ts: Seq<Seq<u8>>, p: Seq<u8>, k: int)
    requires
        0 <= k <= ts.len(),
        forall|i: int| 0 <= i < k ==> !same(#[trigger] ts[i], p),
        k < ts.len() ==> same(ts[k], p),
    ensures
        find_path(ts, p) == k,
{
    lemma_find_path(ts, p);
    if find_path(ts, p) < k {
        assert(!same(ts[find_path(ts, p)], p));
    }
}

/// The place of the first text in `v` that is the same path as `p`, or the
/// length of `v`.
pub fn find_in(v: &Vec<Vec<u8>>, p: &[u8]) -> (r: usize)
    ensures
        r == find_path(texts_of(v@), p@),
        r <= v@.len(),
{
    let mut i: usize = 0;
    let ghost ts = texts_of(v@);
    while i < v.len()
        invariant
            i <= v@.len(),
            ts == texts_of(v@),
            forall|k: int| 0 <= k < i ==> !same(#[trigger] ts[k], p@),
        decreases v@.len() - i,
    {
        if same_path(v[i].as_slice(), p) {
            proof {
                lemma_find_path_is(ts, p@, i as int);
            }
            return i;
        }
        assert(ts[i as int] == v@[i as int]@);
        i += 1;
    }
    proof {
        lemma_find_path_is(ts, p@, i as int);
    }
    i
}

/// A set of paths. Two texts of one path are one element; the text that came
/// first is kept.
pub struct PathSet {
    items: Vec<Vec<u8>>,
}

impl View for PathSet {
    type V = Set<Seq<Seq<u8>>>;

    /// The set of the component sequences of the paths.
    open spec fn view(&self) -> Set<Seq<Seq<u8>>> {
        path_keys(self.texts())
    }
}

/// The texts once `p` is among them: unchanged where it was, else with `p`
/// behind them.
pub open spec fn with_path(ts: Seq<Seq<u8>>, p: Seq<u8>) -> Seq<Seq<u8>> {
    if has_path(ts, p) {
        ts
    } else {
        ts.push(p)
    }
}

/// The texts without that of `p`.
pub open spec fn without_path(ts: Seq<Seq<u8>>, p: Seq<u8>) -> Seq<Seq<u8>> {
    if has_path(ts, p) {
        ts.remove(find_path(ts, p))
    } else {
        ts
    }
}

/// The texts without those of the paths `ps`.
pub open spec fn without_paths(ts: Seq<Seq<u8>>, ps: Seq<Seq<u8>>) -> Seq<Seq<u8>>
    decreases ps.len(),
{
    if ps.len() == 0 {
        ts
    } else {
        without_path(without_paths(ts, ps.drop_last()), ps.last())
    }
}

/// The component sequences of the texts.
pub open spec fn path_keys(ts: Seq<Seq<u8>>) -> Set<Seq<Seq<u8>>> {
    ts.map_values(|t: Seq<u8>| components(t)).to_set()
}

/// Whether the components of `p` are among those of the texts.
pub proof fn lemma_path_keys(ts: Seq<Seq<u8>>, p: Seq<u8>)
    ensures
        path_keys(ts).contains(components(p)) == has_path(ts, p),
{
    let ks = ts.map_values(|t: Seq<u8>| components(t));
    if has_path(ts, p) {
        let i = choose|i: int| 0 <= i < ts.len() && same(#[trigger] ts[i], p);
        assert(ks[i] == components(p));
    }
    if ks.contains(components(p)) {
        let i = choose|i: int| 0 <= i < ks.len() && ks[i] == components(p);
        assert(same(ts[i], p));
    }
}

impl PathSet {
    /// The texts of the paths, in the order in which they came.
    pub closed spec fn texts(&self) -> Seq<Seq<u8>> {
        texts_of(self.items@)
    }

    #[verifier::type_invariant]
    spec fn inv(self) -> bool {
        distinct(texts_of(self.items@))
    }

    /// An empty set.
    pub fn new() -> (r: Self)
        ensures
            r@ == Set::<Seq<Seq<u8>>>::empty(),
            r.texts() == Seq::<Seq<u8>>::empty(),
    {
        let r = PathSet { items: Vec::new() };
        assert(r.texts() =~= Seq::empty());
        assert(r@ =~= Set::empty());
        r
    }

    /// The number of paths, no two of which are the same.
    pub fn len(&self) -> (r: usize)
        ensures
            r == self.texts().len(),
            distinct(self.texts()),
    {
        proof {
            use_type_invariant(self);
        }
        self.items.len()
    }

    /// The text of the path at `i`.
    pub fn text(&self, i: usize) -> (r: &Vec<u8>)
        requires
            i < self.texts().len(),
        ensures
            r@ == self.texts()[i as int],
    {
        &self.items[i]
    }

    /// Whether the path is in the set.
    pub fn contains(&self, p: &[u8]) -> (r: bool)
        ensures
            r == self@.contains(components(p@)),
    {
        let i = find_in(&self.items, p);
        proof {
            lemma_find_path(self.texts(), p@);
            lemma_path_keys(self.texts(), p@);
        }
        i < self.items.len()
    }

    /// Puts the path into the set; tells whether it was not there.
    pub fn insert(&mut self, p: &[u8]) -> (r: bool)
        ensures
            r == !old(self)@.contains(components(p@)),
            final(self)@ == old(self)@.insert(components(p@)),
            final(self).texts() == with_path(old(self).texts(), p@),
    {
        proof {
            use_type_invariant(&*self);
        }
        let ghost ts = self.texts();
        let i = find_in(&self.items, p);
        proof {
            lemma_find_path(ts, p@);
            lemma_path_keys(ts, p@);
        }
        if i < self.items.len() {
            assert(self@ =~= old(self)@.insert(components(p@)));
            return false;
        }
        let mut items: Vec<Vec<u8>> = Vec::new();
        std::mem::swap(&mut items, &mut self.items);
        let copy = copy_range(p, 0, p.len());
        assert(copy@ =~= p@);
        items.push(copy);
        assert(texts_of(items@) =~= ts.push(p@));
        self.items = items;
        proof {
            lemma_keys_push(ts, p@);
        }
        true
    }

    /// Takes the path out of the set; tells whether it was there.
    pub fn remove(&mut self, p: &[u8]) -> (r: bool)
        ensures
            r == old(self)@.contains(components(p@)),
            final(self)@ == old(self)@.remove(components(p@)),
            final(self).texts() == without_path(old(self).texts(), p@),
    {
        proof {
            use_type_invariant(&*self);
        }
        let ghost ts = self.texts();
        let i = find_in(&self.items, p);
        proof {
            lemma_find_path(ts, p@);
            lemma_path_keys(ts, p@);
        }
        if i == self.items.len() {
            assert(self@ =~= old(self)@.remove(components(p@)));
            return false;
        }
        let mut items: Vec<Vec<u8>> = Vec::new();
        std::mem::swap(&mut items, &mut self.items);
        let _ = items.remove(i);
        assert(texts_of(items@) =~= ts.remove(i as int));
        self.items = items;
        proof {
            lemma_keys_remove(ts, p@, i as int);
        }
        true
    }

    /// Takes every path of `other` out of the set.
    pub fn remove_all(&mut self, other: &PathSet)
        ensures
            final(self)@ == old(self)@.difference(other@),
            final(self).texts() == without_paths(old(self).texts(), other.texts()),
    {
        let mut i: usize = 0;
        let ghost ts = other.texts();
        assert(path_keys(ts.take(0)) =~= Set::empty());
        assert(self@ =~= old(self)@.difference(path_keys(ts.take(0))));
        while i < other.len()
            invariant
                i <= ts.len(),
                ts == other.texts(),
                self@ == old(self)@.difference(path_keys(ts.take(i as int))),
                self.texts() == without_paths(old(self).texts(), ts.take(i as int)),
            decreases ts.len() - i,
        {
            let _ = self.remove(other.text(i).as_slice());
            proof {
                assert(ts.take(i + 1) =~= ts.take(i as int).push(ts[i as int]));
                assert(ts.take(i + 1).drop_last() =~= ts.take(i as int));
                lemma_keys_push(ts.take(i as int), ts[i as int]);
                assert(self@ =~= old(self)@.difference(path_keys(ts.take(i + 1))));
            }
            i += 1;
        }
        assert(ts.take(i as int) =~= ts);
    }
}

/// Adding a text adds its components.
pub proof fn lemma_keys_push(ts: Seq<Seq<u8>>, p: Seq<u8>)
    ensures
        path_keys(ts.push(p)) == path_keys(ts).insert(components(p)),
{
    let f = |t: Seq<u8>| components(t);
    let a = ts.map_values(f);
    let b = ts.push(p).map_values(f);
    assert(b =~= a.push(components(p)));
    assert forall|k: Seq<Seq<u8>>| b.contains(k) == (a.contains(k) || k == components(p)) by {
        if a.contains(k) {
            let i = choose|i: int| 0 <= i < a.len() && a[i] == k;
            assert(b[i] == k);
        }
        assert(b[a.len() as int] == components(p));
    }
    assert(path_keys(ts.push(p)) =~= path_keys(ts).insert(components(p)));
}

proof fn lemma_keys_remove(ts: Seq<Seq<u8>>, p: Seq<u8>, i: int)
    requires
        distinct(ts),
        0 <= i < ts.len(),
        same(ts[i], p),
    ensures
        path_keys(ts.remove(i)) == path_keys(ts).remove(components(p)),
        distinct(ts.remove(i)),
{
    let f = |t: Seq<u8>| components(t);
    let a = ts.map_values(f);
    let us = ts.remove(i);
    let b = us.map_values(f);
    assert forall|k: Seq<Seq<u8>>| b.contains(k) == (a.contains(k) && k != components(p)) by {
        if b.contains(k) {
            let j = choose|j: int| 0 <= j < b.len() && b[j] == k;
            if j < i {
                assert(a[j] == k);
                assert(!same(ts[j], ts[i]));
            } else {
                assert(a[j + 1] == k);
                assert(!same(ts[i], ts[j + 1]));
            }
        }
        if a.contains(k) && k != components(p) {
            let j = choose|j: int| 0 <= j < a.len() && a[j] == k;
            if j < i {
                assert(b[j] == k);
            } else {
                assert(j > i);
                assert(b[j - 1] == k);
            }
        }
    }
    assert(path_keys(us) =~= path_keys(ts).remove(components(p)));
    assert forall|x: int, y: int| 0 <= x < y < us.len() implies !same(
        #[trigger] us[x],
        #[trigger] us[y],
    ) by {
        let x1 = if x < i { x } else { x + 1 };
        let y1 = if y < i { y } else { y + 1 };
        assert(us[x] == ts[x1] && us[y] == ts[y1]);
    }
}

/// A counter for each path: how often the file has been written.
pub struct Versions {
    paths: Vec<Vec<u8>>,
    counts: Vec<u64>,
}

impl Versions {
    #[verifier::type_invariant]
    spec fn inv(self) -> bool {
        self.paths@.len() == self.counts@.len() && distinct(texts_of(self.paths@))
    }

    /// The counter of the path `p`; 0 where there is none yet.
    pub closed spec fn version(&self, p: Seq<u8>) -> u64 {
        let i = find_path(texts_of(self.paths@), p);
        if i < self.counts@.len() {
            self.counts@[i]
        } else {
            0
        }
    }

    /// No counters.
    pub fn new() -> (r: Self)
        ensures
            forall|q: Seq<u8>| #[trigger] r.version(q) == 0,
    {
        Versions { paths: Vec::new(), counts: Vec::new() }
    }

    /// The counter of a path; 0 where there is none yet.
    pub fn get(&self, p: &[u8]) -> (r: u64)
        ensures
            r == self.version(p@),
    {
        proof {
            use_type_invariant(self);
            lemma_find_path(texts_of(self.paths@), p@);
        }
        let i = find_in(&self.paths, p);
        if i < self.counts.len() {
            self.counts[i]
        } else {
            0
        }
    }

    /// Counts one more write of a path.
    pub fn bump(&mut self, p: &[u8])
        requires
            old(self).version(p@) < u64::MAX,
        ensures
            forall|q: Seq<u8>| #[trigger]
                final(self).version(q) == if same(q, p@) {
                    old(self).version(q) + 1
                } else {
                    old(self).version(q) as int
                },
    {
        proof {
            use_type_invariant(&*self);
        }
        let i = find_in(&self.paths, p);
        let ghost ts = texts_of(self.paths@);
        let ghost cs = self.counts@;
        proof {
            lemma_find_path(ts, p@);
        }
        let mut whole = Versions { paths: Vec::new(), counts: Vec::new() };
        std::mem::swap(&mut whole, self);
        let Versions { mut paths, mut counts } = whole;
        if i < paths.len() {
            let v = counts[i];
            counts.set(i, v + 1);
        } else {
            let copy = copy_range(p, 0, p.len());
            assert(copy@ =~= p@);
            paths.push(copy);
            counts.push(1);
            assert(texts_of(paths@) =~= ts.push(p@));
        }
        *self = Versions { paths, counts };
        proof {
            assert forall|q: Seq<u8>| #[trigger] self.version(q) == if same(q, p@) {
                old(self).version(q) + 1
            } else {
                old(self).version(q) as int
            } by {
                let us = texts_of(self.paths@);
                lemma_find_path(ts, q);
                lemma_find_path(us, q);
                let j = find_path(ts, q);
                if i < ts.len() {
                    assert(us == ts);
                    if same(q, p@) {
                        lemma_find_path_is(ts, q, i as int);
                    }
                } else if same(q, p@) {
                    assert(us == ts.push(p@));
                    lemma_find_path_is(us, q, ts.len() as int);
                    assert(j == ts.len()) by {
                        if j < ts.len() {
                            assert(same(ts[j], p@));
                        }
                    }
                } else if j < ts.len() {
                    assert forall|k: int| 0 <= k < j implies !same(#[trigger] us[k], q) by {
                        assert(us[k] == ts[k]);
                    }
                    lemma_find_path_is(us, q, j);
                } else {
                    assert forall|k: int| 0 <= k < us.len() implies !same(#[trigger] us[k], q) by {
                        if k < ts.len() {
                            assert(us[k] == ts[k]);
                        }
                    }
                    lemma_find_path_is(us, q, us.len() as int);
                }
            }
        }
    }
}

/// The numbers of the paths that a file system has handed out, from 1 on. A
/// path keeps its number, and the text that it was first seen with.
pub struct InodeTable {
    paths: Vec<Vec<u8>>,
}

/// The number of the path `p` in a table of paths; 0 where it has none.
pub open spec fn inode_in(ts: Seq<Seq<u8>>, p: Seq<u8>) -> int {
    if has_path(ts, p) {
        find_path(ts, p) + 1
    } else {
        0
    }
}

/// The path with the number `ino`; none where there is none.
pub open spec fn path_in(ts: Seq<Seq<u8>>, ino: u64) -> Option<Seq<u8>> {
    if 1 <= ino <= ts.len() {
        Some(ts[ino - 1])
    } else {
        None
    }
}

/// Whether `ino` is the number of `p` in a table that holds each path once.
pub open spec fn numbers(ts: Seq<Seq<u8>>, ino: u64, p: Seq<u8>) -> bool {
    &&& distinct(ts)
    &&& 1 <= ino <= ts.len()
    &&& ino == inode_in(ts, p)
    &&& same(ts[ino - 1], p)
}

/// Whether a table has grown into another: what it holds stands where it
/// stood.
pub open spec fn grown(ts: Seq<Seq<u8>>, us: Seq<Seq<u8>>) -> bool {
    ts.len() <= us.len() && us.take(ts.len() as int) == ts
}

impl InodeTable {
    #[verifier::type_invariant]
    spec fn inv(self) -> bool {
        distinct(texts_of(self.paths@)) && self.paths@.len() > 0
    }

    /// The paths, in the order of their numbers.
    pub closed spec fn texts(&self) -> Seq<Seq<u8>> {
        texts_of(self.paths@)
    }

    /// A table that holds the root, with the number 1.
    pub fn new(root: &[u8]) -> (r: Self)
        ensures
            r.texts() == seq![root@],
    {
        let mut paths: Vec<Vec<u8>> = Vec::new();
        let copy = copy_range(root, 0, root.len());
        assert(copy@ =~= root@);
        paths.push(copy);
        assert(texts_of(paths@) =~= seq![root@]);
        InodeTable { paths }
    }

    /// The path with the number `ino`.
    pub fn path(&self, ino: u64) -> (r: Option<Vec<u8>>)
        ensures
            match r {
                Some(v) => path_in(self.texts(), ino) == Some(v@),
                None => path_in(self.texts(), ino) is None,
            },
    {
        if ino >= 1 && ino <= self.paths.len() as u64 {
            let t = &self.paths[(ino - 1) as usize];
            let v = copy_range(t.as_slice(), 0, t.len());
            assert(v@ =~= self.texts()[ino - 1]);
            Some(v)
        } else {
            None
        }
    }

    /// The path with the number `ino`, or the empty path.
    pub fn path_or_empty(&self, ino: u64) -> (r: Vec<u8>)
        ensures
            r@ == match path_in(self.texts(), ino) {
                Some(p) => p,
                None => Seq::empty(),
            },
    {
        match self.path(ino) {
            Some(p) => p,
            None => Vec::new(),
        }
    }

    /// The number of a path, which gets the next one where it has none.
    pub fn get_inode(&mut self, p: &[u8]) -> (r: u64)
        ensures
            final(self).texts() == with_path(old(self).texts(), p@),
            r == inode_in(final(self).texts(), p@),
            1 <= r <= final(self).texts().len(),
            same(final(self).texts()[r - 1], p@),
            distinct(final(self).texts()),
    {
        proof {
            use_type_invariant(&*self);
        }
        let ghost ts = self.texts();
        let i = find_in(&self.paths, p);
        proof {
            lemma_find_path(ts, p@);
        }
        if i < self.paths.len() {
            return i as u64 + 1;
        }
        let mut first: Vec<Vec<u8>> = Vec::new();
        first.push(Vec::new());
        std::mem::swap(&mut first, &mut self.paths);
        let copy = copy_range(p, 0, p.len());
        assert(copy@ =~= p@);
        first.push(copy);
        let n = first.len();
        assert(texts_of(first@) =~= ts.push(p@));
        self.paths = first;
        proof {
            let us = self.texts();
            assert forall|k: int| 0 <= k < ts.len() implies !same(#[trigger] us[k], p@) by {
                assert(us[k] == ts[k]);
            }
            lemma_find_path_is(us, p@, ts.len() as int);
            lemma_find_path(us, p@);
        }
        n as u64
    }
}

/// A path keeps its number for good: giving another path `q` a number changes
/// neither the number of `p` nor the path behind any number.
pub proof fn law_inode_stable(ts: Seq<Seq<u8>>, p: Seq<u8>, q: Seq<u8>, ino: u64)
    requires
        has_path(ts, p),
        path_in(ts, ino) is Some,
    ensures
        inode_in(with_path(ts, q), p) == inode_in(ts, p),
        path_in(with_path(ts, q), ino) == path_in(ts, ino),
{
    let us = with_path(ts, q);
    lemma_find_path(ts, p);
    let i = find_path(ts, p);
    assert forall|k: int| 0 <= k < i implies !same(#[trigger] us[k], p) by {
        assert(us[k] == ts[k]);
    }
    assert(us[i] == ts[i]);
    lemma_find_path_is(us, p, i);
    lemma_find_path(us, p);
}

/// Numbers and paths correspond one to one: the number of the path behind a
/// number is that number.
pub proof fn law_inode_of_path(ts: Seq<Seq<u8>>, ino: u64)
    requires
        distinct(ts),
        path_in(ts, ino) is Some,
    ensures
        inode_in(ts, path_in(ts, ino)->0) == ino,
{
    let p = ts[ino - 1];
    assert forall|k: int| 0 <= k < ino - 1 implies !same(#[trigger] ts[k], p) by {}
    lemma_find_path_is(ts, p, ino - 1);
    lemma_find_path(ts, p);
}

/// A path that gets a number leaves the table without repeats, and only adds
/// to it; so tables grow over any number of requests.
pub proof fn law_tables_grow(ts: Seq<Seq<u8>>, us: Seq<Seq<u8>>, p: Seq<u8>)
    requires
        grown(ts, us),
    ensures
        grown(ts, with_path(us, p)),
        distinct(us) ==> distinct(with_path(us, p)),
{
    let vs = with_path(us, p);
    assert(vs.take(ts.len() as int) =~= us.take(ts.len() as int));
    if distinct(us) && !has_path(us, p) {
        assert forall|i: int, j: int| 0 <= i < j < vs.len() implies !same(
            #[trigger] vs[i],
            #[trigger] vs[j],
        ) by {
            if j < us.len() {
                assert(!same(us[i], us[j]));
            } else {
                assert(!same(us[i], p));
            }
        }
    }
}

/// Two numbers, the second given at any later time, are equal exactly where
/// their paths are the same.
pub proof fn law_numbers_one_to_one(
    ts: Seq<Seq<u8>>,
    i: u64,
    p: Seq<u8>,
    us: Seq<Seq<u8>>,
    j: u64,
    q: Seq<u8>,
)
    requires
        numbers(ts, i, p),
        numbers(us, j, q),
        grown(ts, us),
    ensures
        i == j <==> same(p, q),
        path_in(us, i) is Some,
        path_in(us, i) == path_in(ts, i),
        same(path_in(us, i)->0, p),
{
    assert(us.take(ts.len() as int)[i - 1] == us[i - 1]);
    if i < j {
        assert(!same(us[i - 1], us[j - 1]));
    } else if j < i {
        assert(!same(us[j - 1], us[i - 1]));
    }
}

/// The path that a table began with keeps the number 1.
pub proof fn law_root_is_first(root: Seq<u8>, us: Seq<Seq<u8>>)
    requires
        grown(seq![root], us),
    ensures
        inode_in(us, root) == 1,
{
    assert(us.take(1)[0] == us[0]);
    assert(same(us[0], root));
    lemma_find_path_is(us, root, 0);
    lemma_find_path(us, root);
}

} // verus!
