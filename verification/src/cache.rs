//! The client's cache of remote files.
use vstd::prelude::*;
use lru::LruCache;
use crate::bytes::append_bytes;
use crate::bytes::ascii;
use crate::bytes::ascii_bytes;
use crate::bytes::copy_range;
use crate::bytes::find_last_byte;
use crate::bytes::last_of;
use crate::bytes::DOT;
use crate::digest::cache_file_name;
use crate::digest::cache_name;
use crate::digest::is_hex;
use crate::digest::law_name_spells_digest;
use crate::digest::lossy;
use crate::digest::lossy_bytes;
use crate::digest::sha256;
use crate::digest::spells;
use crate::path::components;
use crate::path::file_name;
use crate::path::join;
use crate::path::join_path;
use crate::path::lemma_last_span;
use crate::path::names;
use crate::path::path_file_name;
use crate::path::path_spans;
use crate::path::same;
use crate::path::spans;
use crate::path::SLASH;
use crate::pathset::distinct;
use crate::pathset::find_in;
use crate::pathset::find_path;
use crate::pathset::has_path;
use crate::pathset::lemma_find_path;
use crate::pathset::lemma_find_path_is;
use crate::pathset::texts_of;
use crate::pathset::with_path;
use crate::pathset::PathSet;
use crate::protocol::dirty_line;
use crate::protocol::make_dirty_line;
use crate::recency::lru_cap;
use crate::recency::lru_entries;
use crate::recency::lru_get;
use crate::recency::lru_len;
use crate::recency::lru_pop;
use crate::recency::lru_put;
use crate::recency::new_lru;

verus! {

/// How many bytes the cached files may take together: one gibibyte.
pub const MAX_CACHE_SIZE: u64 = 1073741824;

/// Where the server's version of the file cached at `p` is kept: the path with
/// `base` added to the extension of its name. A name without an extension gets
/// an empty one first; of one that is a dot with an extension, at the end of
/// the text, two dots are left.
pub open spec fn base_path(p: Seq<u8>) -> Seq<u8> {
    match file_name(p) {
        Some(name) => {
            let s = spans(p).last();
            let d = last_of(name, DOT);
            if d <= 0 {
                p.take(s.1) + ascii("..base"@)
            } else if d == 1 && name[0] == DOT && s.1 == p.len() {
                p.take(s.0 + 2)
            } else {
                p.take(s.0 + d).push(DOT) + lossy(name.skip(d + 1)) + ascii(".base"@)
            }
        },
        None => p,
    }
}

/// Where the server's version of the file cached at `p` is kept.
pub fn to_base_path(p: &[u8]) -> (r: Vec<u8>)
    ensures
        r@ == base_path(p@),
{
    proof {
        reveal_strlit("..base");
        reveal_strlit(".base");
    }
    match path_file_name(p) {
        Some(name) => {
            let s = path_spans(p);
            let last = s[s.len() - 1];
            assert(name@ =~= p@.subrange(last.0 as int, last.1 as int));
            let d: usize = match find_last_byte(name.as_slice(), DOT) {
                Some(d) => d,
                None => 0,
            };
            if d == 0 {
                let mut r = copy_range(p, 0, last.1);
                append_bytes(&mut r, ascii_bytes("..base").as_slice());
                assert(r@ =~= base_path(p@));
                r
            } else if d == 1 && name[0] == DOT && last.1 == p.len() {
                let r = copy_range(p, 0, last.0 + 2);
                assert(r@ =~= base_path(p@));
                r
            } else {
                let mut r = copy_range(p, 0, last.0 + d);
                r.push(DOT);
                let ext = copy_range(name.as_slice(), d + 1, name.len());
                assert(ext@ =~= name@.skip(d + 1));
                append_bytes(&mut r, lossy_bytes(ext.as_slice()).as_slice());
                append_bytes(&mut r, ascii_bytes(".base").as_slice());
                assert(r@ =~= base_path(p@));
                r
            }
        },
        None => copy_range(p, 0, p.len()),
    }
}

/// The server's version of a file whose name is made of hexadecimal digits
/// lies beside it, under the same name with `..base` behind it; so it never
/// lies where another file under such a name does.
pub proof fn law_base_beside_file(dir: Seq<u8>, name: Seq<u8>, other: Seq<u8>)
    requires
        name.len() > 0,
        forall|i: int| 0 <= i < name.len() ==> is_hex(#[trigger] name[i]),
        other.len() == name.len(),
        forall|i: int| 0 <= i < other.len() ==> is_hex(#[trigger] other[i]),
    ensures
        base_path(join(dir, name)) == join(dir, name) + ascii("..base"@),
        base_path(join(dir, name)) != join(dir, other),
{
    reveal_strlit("..base");
    let p = join(dir, name);
    let x = p.len() - name.len();
    assert(is_hex(name[0]) && is_hex(other[0]));
    assert(p.skip(x) =~= name);
    assert forall|j: int| x <= j < p.len() implies p[j] != SLASH by {
        assert(p[j] == name[j - x]);
    }
    if x > 0 {
        assert(p[x - 1] == SLASH);
    }
    lemma_last_span(p, 0, x);
    assert(names(p).last() == p.subrange(x, p.len() as int));
    assert(p.subrange(x, p.len() as int) =~= name);
    assert(seq![DOT, DOT][0] == DOT);
    lemma_no_dot(name);
    assert(p.take(p.len() as int) =~= p);
    assert(join(dir, other).len() == p.len());
    assert(base_path(p).len() == p.len() + ascii("..base"@).len());
}

proof fn lemma_no_dot(name: Seq<u8>)
    requires
        forall|i: int| 0 <= i < name.len() ==> is_hex(#[trigger] name[i]),
    ensures
        last_of(name, DOT) == -1,
    decreases name.len(),
{
    if name.len() > 0 {
        assert(is_hex(name[name.len() - 1]));
        assert forall|i: int| 0 <= i < name.drop_last().len() implies is_hex(
            #[trigger] name.drop_last()[i],
        ) by {
            assert(is_hex(name[i]));
        }
        lemma_no_dot(name.drop_last());
    }
}

/// Where the file at `path` is cached.
pub open spec fn local_path(cache_dir: Seq<u8>, path: Seq<u8>) -> Seq<u8> {
    join(cache_dir, cache_name(path))
}

/// Where the file at `path` is cached.
pub fn to_local_path(cache_dir: &[u8], path: &[u8]) -> (r: Vec<u8>)
    ensures
        r@ == local_path(cache_dir@, path@),
{
    let name = cache_file_name(path);
    join_path(cache_dir, name.as_slice())
}

/// The sizes of the entries, added up.
pub open spec fn total(es: Seq<(Seq<u8>, u64)>) -> nat
    decreases es.len(),
{
    if es.len() == 0 {
        0
    } else {
        es[0].1 as nat + total(es.skip(1))
    }
}

/// The paths of the entries.
pub open spec fn paths_of(es: Seq<(Seq<u8>, u64)>) -> Seq<Seq<u8>> {
    es.map_values(|e: (Seq<u8>, u64)| e.0)
}

/// The place of the entry of a path, or the number of entries.
pub open spec fn slot(es: Seq<(Seq<u8>, u64)>, p: Seq<u8>) -> int {
    find_path(paths_of(es), p)
}

/// The size that the cache holds for a path; 0 where it holds none.
pub open spec fn size_of(es: Seq<(Seq<u8>, u64)>, p: Seq<u8>) -> u64 {
    if slot(es, p) < es.len() {
        es[slot(es, p)].1
    } else {
        0
    }
}

/// The entries once the entry of `p` has been used.
pub open spec fn touched(es: Seq<(Seq<u8>, u64)>, p: Seq<u8>) -> Seq<(Seq<u8>, u64)> {
    let i = slot(es, p);
    if i < es.len() {
        es.remove(i).push(es[i])
    } else {
        es
    }
}

/// The entries once `p` has been stored with `size`, and so been used.
pub open spec fn stored(es: Seq<(Seq<u8>, u64)>, p: Seq<u8>, size: u64) -> Seq<(Seq<u8>, u64)> {
    let i = slot(es, p);
    if i < es.len() {
        es.remove(i).push((es[i].0, size))
    } else {
        es.push((p, size))
    }
}

/// Whether an entry's file is dirty.
pub open spec fn entry_dirty(dirty: Set<Seq<Seq<u8>>>) -> spec_fn((Seq<u8>, u64)) -> bool {
    |e: (Seq<u8>, u64)| dirty.contains(components(e.0))
}

/// Whether an entry's file is clean.
pub open spec fn entry_clean(dirty: Set<Seq<Seq<u8>>>) -> spec_fn((Seq<u8>, u64)) -> bool {
    |e: (Seq<u8>, u64)| !dirty.contains(components(e.0))
}

/// How many entries, from the least recently used on, are looked at until the
/// clean ones among them bring `size` down to `max`.
pub open spec fn looked_at(
    es: Seq<(Seq<u8>, u64)>,
    dirty: Set<Seq<Seq<u8>>>,
    size: int,
    max: int,
) -> int
    decreases es.len(),
{
    if size <= max || es.len() == 0 {
        0
    } else if entry_dirty(dirty)(es[0]) {
        1 + looked_at(es.skip(1), dirty, size, max)
    } else {
        1 + looked_at(es.skip(1), dirty, size - es[0].1, max)
    }
}

/// The entries that leave a cache that may hold `max` bytes.
pub open spec fn evicted(
    es: Seq<(Seq<u8>, u64)>,
    dirty: Set<Seq<Seq<u8>>>,
    max: int,
) -> Seq<(Seq<u8>, u64)> {
    es.take(looked_at(es, dirty, total(es) as int, max)).filter(entry_clean(dirty))
}

/// The entries that stay: those not looked at, and behind them, as if just
/// used, the dirty ones.
pub open spec fn after_eviction(
    es: Seq<(Seq<u8>, u64)>,
    dirty: Set<Seq<Seq<u8>>>,
    max: int,
) -> Seq<(Seq<u8>, u64)> {
    let n = looked_at(es, dirty, total(es) as int, max);
    es.skip(n) + es.take(n).filter(entry_dirty(dirty))
}

/// The files that go when an entry leaves the cache.
pub struct Removal {
    /// The cached file.
    pub local: Vec<u8>,
    /// The server's version that is kept beside it.
    pub base: Vec<u8>,
}

/// What is to be done once a file has been marked as changed.
pub struct Marking {
    /// The line that locks the file on the server, where it is not locked.
    pub announce: Option<Vec<u8>>,
    /// The empty file that marks the change on disk.
    pub changed_file: Vec<u8>,
}

/// The line that locks a file that is changed, where it was clean until then.
pub open spec fn announcement(
    root: Seq<u8>,
    path: Seq<u8>,
    dirty: Set<Seq<Seq<u8>>>,
) -> Option<Seq<u8>> {
    if dirty.contains(components(path)) {
        None
    } else {
        Some(dirty_line(root, path))
    }
}

/// The files of an entry of the cache in `cache_dir`.
pub open spec fn files_of(cache_dir: Seq<u8>, path: Seq<u8>) -> (Seq<u8>, Seq<u8>) {
    (local_path(cache_dir, path), base_path(local_path(cache_dir, path)))
}

/// The files that a list of removals names.
pub open spec fn removal_views(rs: Seq<Removal>) -> Seq<(Seq<u8>, Seq<u8>)> {
    rs.map_values(|r: Removal| (r.local@, r.base@))
}

/// The files of the entries.
pub open spec fn entry_files(
    cache_dir: Seq<u8>,
    es: Seq<(Seq<u8>, u64)>,
) -> Seq<(Seq<u8>, Seq<u8>)> {
    es.map_values(|e: (Seq<u8>, u64)| files_of(cache_dir, e.0))
}

// ---------------------------------------------------------------------------
// Sums and filters
// ---------------------------------------------------------------------------

proof fn lemma_total_push(es: Seq<(Seq<u8>, u64)>, e: (Seq<u8>, u64))
    ensures
        total(es.push(e)) == total(es) + e.1,
    decreases es.len(),
{
    if es.len() == 0 {
        reveal_with_fuel(total, 2);
        assert(es.push(e).skip(1) =~= Seq::empty());
    } else {
        assert(es.push(e).skip(1) =~= es.skip(1).push(e));
        lemma_total_push(es.skip(1), e);
    }
}

proof fn lemma_total_remove(es: Seq<(Seq<u8>, u64)>, i: int)
    requires
        0 <= i < es.len(),
    ensures
        total(es) == total(es.remove(i)) + es[i].1,
    decreases es.len(),
{
    if i == 0 {
        assert(es.remove(0) =~= es.skip(1));
    } else {
        assert(es.remove(i).skip(1) =~= es.skip(1).remove(i - 1));
        lemma_total_remove(es.skip(1), i - 1);
    }
}

proof fn lemma_total_cat(a: Seq<(Seq<u8>, u64)>, b: Seq<(Seq<u8>, u64)>)
    ensures
        total(a + b) == total(a) + total(b),
    decreases a.len(),
{
    if a.len() == 0 {
        assert(a + b =~= b);
    } else {
        assert((a + b).skip(1) =~= a.skip(1) + b);
        lemma_total_cat(a.skip(1), b);
    }
}

/// A filter over one more element.
proof fn lemma_filter_step<A>(s: Seq<A>, f: spec_fn(A) -> bool, k: int)
    requires
        0 <= k < s.len(),
    ensures
        s.take(k + 1).filter(f) == if f(s[k]) {
            s.take(k).filter(f).push(s[k])
        } else {
            s.take(k).filter(f)
        },
{
    reveal(Seq::filter);
    assert(s.take(k + 1).drop_last() =~= s.take(k));
}

/// The dirty and the clean entries together have the size of all.
proof fn lemma_total_split(es: Seq<(Seq<u8>, u64)>, dirty: Set<Seq<Seq<u8>>>)
    ensures
        total(es) == total(es.filter(entry_dirty(dirty))) + total(es.filter(entry_clean(dirty))),
    decreases es.len(),
{
    reveal(Seq::filter);
    if es.len() > 0 {
        let d = es.drop_last();
        lemma_total_split(d, dirty);
        assert(es =~= d.push(es.last()));
        lemma_total_push(d, es.last());
        lemma_total_push(d.filter(entry_dirty(dirty)), es.last());
        lemma_total_push(d.filter(entry_clean(dirty)), es.last());
    }
}

proof fn lemma_looked_at(
    es: Seq<(Seq<u8>, u64)>,
    dirty: Set<Seq<Seq<u8>>>,
    size: int,
    max: int,
)
    ensures
        0 <= looked_at(es, dirty, size, max) <= es.len(),
    decreases es.len(),
{
    if size > max && es.len() > 0 {
        if entry_dirty(dirty)(es[0]) {
            lemma_looked_at(es.skip(1), dirty, size, max);
        } else {
            lemma_looked_at(es.skip(1), dirty, size - es[0].1, max);
        }
    }
}

// ---------------------------------------------------------------------------
// What eviction keeps
// ---------------------------------------------------------------------------

/// A filtered sequence holds what passes, and nothing else.
proof fn lemma_filter_holds<A>(s: Seq<A>, f: spec_fn(A) -> bool, x: A)
    ensures
        s.filter(f).contains(x) == (s.contains(x) && f(x)),
    decreases s.len(),
{
    reveal(Seq::filter);
    if s.len() > 0 {
        let d = s.drop_last();
        lemma_filter_holds(d, f, x);
        assert(s =~= d.push(s.last()));
        if d.contains(x) {
            let i = choose|i: int| 0 <= i < d.len() && d[i] == x;
            assert(s[i] == x);
        }
        if s.contains(x) && x != s.last() {
            let i = choose|i: int| 0 <= i < s.len() && s[i] == x;
            assert(d[i] == x);
        }
        let e = d.filter(f);
        if f(s.last()) {
            let g = e.push(s.last());
            assert(g[e.len() as int] == s.last());
            if e.contains(x) {
                let i = choose|i: int| 0 <= i < e.len() && e[i] == x;
                assert(g[i] == x);
            }
            if g.contains(x) && x != s.last() {
                let i = choose|i: int| 0 <= i < g.len() && g[i] == x;
                assert(e[i] == x);
            }
        }
        if x == s.last() {
            assert(s[s.len() - 1] == x);
        }
    }
}

/// An entry of a concatenation is one of either part.
proof fn lemma_cat_holds<A>(a: Seq<A>, b: Seq<A>, x: A)
    ensures
        (a + b).contains(x) == (a.contains(x) || b.contains(x)),
{
    if a.contains(x) {
        let i = choose|i: int| 0 <= i < a.len() && a[i] == x;
        assert((a + b)[i] == x);
    }
    if b.contains(x) {
        let i = choose|i: int| 0 <= i < b.len() && b[i] == x;
        assert((a + b)[a.len() + i] == x);
    }
    if (a + b).contains(x) {
        let i = choose|i: int| 0 <= i < (a + b).len() && (a + b)[i] == x;
        if i < a.len() {
            assert(a[i] == x);
        } else {
            assert(b[i - a.len()] == x);
        }
    }
}

/// Every entry of a cache either stays or leaves it, and only clean ones
/// leave: a file with changes that the server lacks is never dropped.
pub proof fn law_dirty_files_stay(
    es: Seq<(Seq<u8>, u64)>,
    dirty: Set<Seq<Seq<u8>>>,
    max: int,
    e: (Seq<u8>, u64),
)
    ensures
        es.contains(e) == (after_eviction(es, dirty, max).contains(e) || evicted(
            es,
            dirty,
            max,
        ).contains(e)),
        evicted(es, dirty, max).contains(e) ==> !dirty.contains(components(e.0)),
        es.contains(e) && dirty.contains(components(e.0)) ==> after_eviction(
            es,
            dirty,
            max,
        ).contains(e),
{
    let n = looked_at(es, dirty, total(es) as int, max);
    lemma_looked_at(es, dirty, total(es) as int, max);
    assert(es =~= es.take(n) + es.skip(n));
    lemma_cat_holds(es.take(n), es.skip(n), e);
    lemma_filter_holds(es.take(n), entry_clean(dirty), e);
    lemma_filter_holds(es.take(n), entry_dirty(dirty), e);
    lemma_cat_holds(es.skip(n), es.take(n).filter(entry_dirty(dirty)), e);
}

/// What stays and what leaves add up.
pub proof fn law_eviction_sizes(
    es: Seq<(Seq<u8>, u64)>,
    dirty: Set<Seq<Seq<u8>>>,
    max: int,
)
    ensures
        total(es) == total(after_eviction(es, dirty, max)) + total(evicted(es, dirty, max)),
{
    let n = looked_at(es, dirty, total(es) as int, max);
    lemma_looked_at(es, dirty, total(es) as int, max);
    assert(es =~= es.take(n) + es.skip(n));
    lemma_total_cat(es.take(n), es.skip(n));
    lemma_total_split(es.take(n), dirty);
    lemma_total_cat(es.skip(n), es.take(n).filter(entry_dirty(dirty)));
}

/// What passes a filter among the first entries, the first of them apart.
proof fn lemma_filter_front(es: Seq<(Seq<u8>, u64)>, f: spec_fn((Seq<u8>, u64)) -> bool, k: int)
    requires
        0 <= k < es.len(),
    ensures
        total(es.take(k + 1).filter(f)) == total(es.skip(1).take(k).filter(f)) + if f(es[0]) {
            es[0].1 as int
        } else {
            0
        },
    decreases k,
{
    reveal(Seq::filter);
    if k == 0 {
        assert(es.take(1).drop_last() =~= Seq::empty());
        lemma_total_push(Seq::empty(), es[0]);
        assert(es.skip(1).take(0) =~= Seq::empty());
        assert(es.take(1).last() == es[0]);
    } else {
        lemma_filter_front(es, f, k - 1);
        lemma_filter_step(es, f, k);
        lemma_filter_step(es.skip(1), f, k - 1);
        assert(es.skip(1)[k - 1] == es[k]);
        lemma_total_push(es.take(k).filter(f), es[k]);
        lemma_total_push(es.skip(1).take(k - 1).filter(f), es[k]);
    }
}

/// While entries are looked at, what is left is over the limit; and when no
/// more are, it is not, or there are no more.
proof fn lemma_looked_at_least(
    es: Seq<(Seq<u8>, u64)>,
    dirty: Set<Seq<Seq<u8>>>,
    size: int,
    max: int,
)
    ensures
        ({
            let n = looked_at(es, dirty, size, max);
            let f = entry_clean(dirty);
            &&& forall|k: int|
                0 <= k < n ==> size - total(#[trigger] es.take(k).filter(f)) > max
            &&& size - total(es.take(n).filter(f)) <= max || n == es.len()
        }),
    decreases es.len(),
{
    let n = looked_at(es, dirty, size, max);
    let f = entry_clean(dirty);
    reveal(Seq::filter);
    assert(es.take(0).filter(f) =~= Seq::empty());
    if size > max && es.len() > 0 {
        let rest = es.skip(1);
        let left = if entry_dirty(dirty)(es[0]) {
            size
        } else {
            size - es[0].1
        };
        lemma_looked_at(rest, dirty, left, max);
        lemma_looked_at_least(rest, dirty, left, max);
        assert forall|k: int| 0 <= k < n implies size - total(#[trigger] es.take(k).filter(f))
            > max by {
            if k > 0 {
                lemma_filter_front(es, f, k - 1);
                assert(left - total(rest.take(k - 1).filter(f)) > max);
            }
        }
        lemma_filter_front(es, f, n - 1);
    }
}

/// Whether the entries are within a limit, or all of them dirty.
pub open spec fn within_limit(
    es: Seq<(Seq<u8>, u64)>,
    dirty: Set<Seq<Seq<u8>>>,
    max: int,
) -> bool {
    total(es) <= max || forall|i: int|
        0 <= i < es.len() ==> dirty.contains(components((#[trigger] es[i]).0))
}

/// After eviction the cache is within its limit, or all that it still holds
/// is dirty.
pub proof fn law_eviction_reaches_limit(
    es: Seq<(Seq<u8>, u64)>,
    dirty: Set<Seq<Seq<u8>>>,
    max: int,
)
    ensures
        within_limit(after_eviction(es, dirty, max), dirty, max),
{
    let n = looked_at(es, dirty, total(es) as int, max);
    let after = after_eviction(es, dirty, max);
    lemma_looked_at(es, dirty, total(es) as int, max);
    lemma_looked_at_least(es, dirty, total(es) as int, max);
    law_eviction_sizes(es, dirty, max);
    if n == es.len() {
        assert forall|i: int| 0 <= i < after.len() implies dirty.contains(
            components((#[trigger] after[i]).0),
        ) by {
            let g = es.take(n).filter(entry_dirty(dirty));
            assert(after[i] == g[i]);
            assert(g.contains(g[i]));
            lemma_filter_holds(es.take(n), entry_dirty(dirty), g[i]);
        }
    }
}

/// Eviction takes from the front, where the least recently used entries
/// stand, and no further than it must: without any one of those that were
/// looked at, from the last on, the cache would be over its limit. A cache
/// within its limit stays as it is.
pub proof fn law_eviction_is_least(
    es: Seq<(Seq<u8>, u64)>,
    dirty: Set<Seq<Seq<u8>>>,
    max: int,
)
    ensures
        exists|n: int|
            #![trigger es.skip(n)]
            {
                &&& 0 <= n <= es.len()
                &&& evicted(es, dirty, max) == es.take(n).filter(entry_clean(dirty))
                &&& after_eviction(es, dirty, max) == es.skip(n) + es.take(n).filter(
                    entry_dirty(dirty),
                )
                &&& forall|k: int|
                    0 <= k < n ==> total(es) - total(
                        #[trigger] es.take(k).filter(entry_clean(dirty)),
                    ) > max
            },
        total(es) <= max ==> after_eviction(es, dirty, max) == es && evicted(es, dirty, max).len()
            == 0,
{
    let n = looked_at(es, dirty, total(es) as int, max);
    lemma_looked_at(es, dirty, total(es) as int, max);
    lemma_looked_at_least(es, dirty, total(es) as int, max);
    assert(es.skip(n) == es.skip(n));
    if total(es) <= max {
        reveal(Seq::filter);
        assert(n == 0);
        assert(es.take(0).filter(entry_clean(dirty)) =~= Seq::empty());
        assert(after_eviction(es, dirty, max) =~= es);
    }
}

// ---------------------------------------------------------------------------
// The cache
// ---------------------------------------------------------------------------

/// The cached files, in the order of their last use, and their sizes. The
/// order is kept over small numbers; `known` holds the path of each number.
pub struct FileCache {
    cache_dir: Vec<u8>,
    changed_dir: Vec<u8>,
    remote_root: Vec<u8>,
    recent: LruCache<u64, u64>,
    known: Vec<Vec<u8>>,
    current_size: u64,
    max_size: u64,
}

/// The entries that a list of numbers and sizes stands for.
spec fn named(l: Seq<(u64, u64)>, known: Seq<Seq<u8>>) -> Seq<(Seq<u8>, u64)> {
    l.map_values(|e: (u64, u64)| (known[e.0 as int], e.1))
}

/// Whether the numbers in the list are different, and each has a path.
spec fn numbered(l: Seq<(u64, u64)>, known: Seq<Seq<u8>>) -> bool {
    &&& distinct(known)
    &&& forall|i: int| 0 <= i < l.len() ==> (#[trigger] l[i]).0 < known.len()
    &&& forall|i: int, j: int|
        0 <= i < j < l.len() ==> (#[trigger] l[i]).0 != (#[trigger] l[j]).0
}

/// The entry of a path is the one with the path's number.
proof fn lemma_slot(l: Seq<(u64, u64)>, known: Seq<Seq<u8>>, p: Seq<u8>, i: int)
    requires
        numbered(l, known),
        0 <= i < l.len(),
        l[i].0 == find_path(known, p),
    ensures
        slot(named(l, known), p) == i,
{
    let ps = paths_of(named(l, known));
    lemma_find_path(known, p);
    assert forall|k: int| 0 <= k < i implies !same(#[trigger] ps[k], p) by {
        let a = l[k].0 as int;
        let b = l[i].0 as int;
        assert(ps[k] == known[a]);
        assert(a != b);
        if a < b {
            assert(!same(known[a], known[b]));
        } else {
            assert(!same(known[b], known[a]));
        }
    }
    assert(ps[i] == known[l[i].0 as int]);
    lemma_find_path_is(ps, p, i);
}

/// A path whose number is not in the list has no entry.
proof fn lemma_no_slot(l: Seq<(u64, u64)>, known: Seq<Seq<u8>>, p: Seq<u8>)
    requires
        numbered(l, known),
        forall|i: int| 0 <= i < l.len() ==> (#[trigger] l[i]).0 != find_path(known, p),
    ensures
        slot(named(l, known), p) == l.len(),
{
    let ps = paths_of(named(l, known));
    lemma_find_path(known, p);
    let f = find_path(known, p);
    assert forall|k: int| 0 <= k < l.len() implies !same(#[trigger] ps[k], p) by {
        let a = l[k].0 as int;
        assert(ps[k] == known[a]);
        if same(known[a], p) {
            assert(f < known.len());
            if a < f {
                assert(!same(known[a], known[f]));
            } else {
                assert(f < a);
                assert(!same(known[f], known[a]));
            }
        }
    }
    lemma_find_path_is(ps, p, l.len() as int);
}

impl FileCache {
    /// The directory of the cached files.
    pub closed spec fn cache_dir(&self) -> Seq<u8> {
        self.cache_dir@
    }

    /// The remote directory whose files are cached.
    pub closed spec fn remote_root(&self) -> Seq<u8> {
        self.remote_root@
    }

    /// How many bytes the cached files may take together.
    pub closed spec fn max_size(&self) -> u64 {
        self.max_size
    }

    /// The paths in the cache with their sizes, the least recently used first.
    pub closed spec fn entries(&self) -> Seq<(Seq<u8>, u64)> {
        named(lru_entries(self.recent), texts_of(self.known@))
    }

    /// The number of bytes that the cache takes itself to hold.
    pub closed spec fn current_size(&self) -> u64 {
        self.current_size
    }

    /// What holds of every cache: no path has two entries, and the size it
    /// takes itself to have is that of its entries.
    pub closed spec fn valid(&self) -> bool {
        &&& self.ordered()
        &&& self.current_size == total(self.entries())
    }

    /// What holds of a cache between a change of its entries and that of its
    /// size.
    spec fn ordered(&self) -> bool {
        &&& numbered(lru_entries(self.recent), texts_of(self.known@))
        &&& lru_entries(self.recent).len() <= lru_cap(self.recent)
        &&& lru_cap(self.recent) == usize::MAX
        &&& self.changed_dir@ == join(self.cache_dir@, ascii(".changed"@))
    }

    /// A cache holds each path once, and the size that it goes by is that of
    /// its entries together.
    pub proof fn law_cache_adds_up(&self)
        requires
            self.valid(),
        ensures
            distinct(paths_of(self.entries())),
            self.current_size() == total(self.entries()),
    {
        let l = lru_entries(self.recent);
        let known = texts_of(self.known@);
        let ps = paths_of(self.entries());
        assert forall|i: int, j: int| 0 <= i < j < ps.len() implies !same(
            #[trigger] ps[i],
            #[trigger] ps[j],
        ) by {
            let a = l[i].0 as int;
            let b = l[j].0 as int;
            assert(ps[i] == known[a] && ps[j] == known[b] && a != b);
            if a < b {
                assert(!same(known[a], known[b]));
            } else {
                assert(!same(known[b], known[a]));
            }
        }
    }

    /// An empty cache of the files under `remote_root`, which are to be kept
    /// in `cache_dir`.
    pub fn new(cache_dir: Vec<u8>, remote_root: Vec<u8>) -> (r: Self)
        ensures
            r.valid(),
            r.cache_dir() == cache_dir@,
            r.remote_root() == remote_root@,
            r.max_size() == MAX_CACHE_SIZE,
            r.entries() == Seq::<(Seq<u8>, u64)>::empty(),
    {
        proof {
            reveal_strlit(".changed");
        }
        let changed_dir = join_path(cache_dir.as_slice(), ascii_bytes(".changed").as_slice());
        let r = FileCache {
            cache_dir,
            changed_dir,
            remote_root,
            recent: new_lru(),
            known: Vec::new(),
            current_size: 0,
            max_size: MAX_CACHE_SIZE,
        };
        assert(r.entries() =~= Seq::empty());
        r
    }

    /// The directory of the marks for changed files.
    pub fn changed_dir(&self) -> (r: &Vec<u8>)
        requires
            self.valid(),
        ensures
            r@ == join(self.cache_dir(), ascii(".changed"@)),
    {
        &self.changed_dir
    }

    /// The remote directory whose files are cached.
    pub fn root(&self) -> (r: &Vec<u8>)
        ensures
            r@ == self.remote_root(),
    {
        &self.remote_root
    }

    /// Where the file at `remote_path` is cached.
    pub fn get_local_path(&self, remote_path: &[u8]) -> (r: Vec<u8>)
        ensures
            r@ == local_path(self.cache_dir(), remote_path@),
    {
        to_local_path(self.cache_dir.as_slice(), remote_path)
    }

    /// Counts a use of a cached file.
    pub fn touch(&mut self, remote_path: &[u8])
        requires
            old(self).valid(),
        ensures
            final(self).valid(),
            final(self).entries() == touched(old(self).entries(), remote_path@),
            final(self).same_place(old(self)),
    {
        let ghost l = lru_entries(self.recent);
        let ghost known = texts_of(self.known@);
        let id = find_in(&self.known, remote_path);
        proof {
            lemma_find_path(known, remote_path@);
        }
        let found = lru_get(&mut self.recent, id as u64);
        proof {
            match found {
                Some(v) => {
                    let i = choose|i: int|
                        0 <= i < l.len() && #[trigger] l[i] == (id as u64, v) && lru_entries(
                            self.recent,
                        ) == l.remove(i).push((id as u64, v));
                    lemma_slot(l, known, remote_path@, i);
                    lemma_moved(l, known, i, v);
                },
                None => {
                    lemma_no_slot(l, known, remote_path@);
                },
            }
        }
    }

    /// Stores a path with a size, and gives the size that it had.
    fn store(&mut self, path: &[u8], size: u64) -> (r: Option<u64>)
        requires
            old(self).ordered(),
            old(self).entries().len() < usize::MAX,
        ensures
            final(self).ordered(),
            final(self).entries() == stored(old(self).entries(), path@, size),
            total(final(self).entries()) == total(old(self).entries()) - size_of(
                old(self).entries(),
                path@,
            ) + size,
            size_of(old(self).entries(), path@) <= total(old(self).entries()),
            r == if slot(old(self).entries(), path@) < old(self).entries().len() {
                Some(size_of(old(self).entries(), path@))
            } else {
                None
            },
            final(self).current_size() == old(self).current_size(),
            final(self).same_place(old(self)),
    {
        let ghost l = lru_entries(self.recent);
        let ghost known = texts_of(self.known@);
        let ghost es = self.entries();
        let id = find_in(&self.known, path);
        proof {
            lemma_find_path(known, path@);
        }
        let before = lru_put(&mut self.recent, id as u64, size);
        match before {
            Some(v) => {
                proof {
                    let i = choose|i: int|
                        0 <= i < l.len() && #[trigger] l[i] == (id as u64, v) && lru_entries(
                            self.recent,
                        ) == l.remove(i).push((id as u64, size));
                    lemma_slot(l, known, path@, i);
                    lemma_moved(l, known, i, size);
                    lemma_total_remove(es, i);
                }
            },
            None => {
                let copy = copy_range(path, 0, path.len());
                assert(copy@ =~= path@);
                proof {
                    lemma_no_slot(l, known, path@);
                    lemma_total_push(es, (path@, size));
                }
                if id < self.known.len() {
                    self.known.set(id, copy);
                    assert(texts_of(self.known@) =~= known.update(id as int, path@));
                } else {
                    self.known.push(copy);
                    assert(texts_of(self.known@) =~= known.push(path@));
                }
                proof {
                    lemma_added(l, known, texts_of(self.known@), path@, size);
                }
            },
        }
        before
    }

    /// Takes entries out until the cache is within its limit, the least
    /// recently used first, but no dirty ones; tells which files go.
    pub fn evict_if_needed(&mut self, dirty: &PathSet) -> (r: Vec<Removal>)
        requires
            old(self).valid(),
        ensures
            final(self).valid(),
            final(self).entries() == after_eviction(
                old(self).entries(),
                dirty@,
                old(self).max_size() as int,
            ),
            removal_views(r@) == entry_files(
                old(self).cache_dir(),
                evicted(old(self).entries(), dirty@, old(self).max_size() as int),
            ),
            forall|e: (Seq<u8>, u64)|
                old(self).entries().contains(e) && dirty@.contains(components(e.0)) ==> #[trigger]
                final(self).entries().contains(e),
            within_limit(final(self).entries(), dirty@, old(self).max_size() as int),
            final(self).current_size() == total(final(self).entries()),
            final(self).same_place(old(self)),
    {
        let ghost l = lru_entries(self.recent);
        let ghost known = texts_of(self.known@);
        let ghost es = self.entries();
        let ghost max = self.max_size as int;
        let ghost fd = entry_dirty(dirty@);
        let ghost fc = entry_clean(dirty@);
        let ghost n = looked_at(es, dirty@, total(es) as int, max);
        let mut to_restore: Vec<(u64, u64)> = Vec::new();
        let mut gone: Vec<Removal> = Vec::new();
        let ghost mut k: int = 0;
        proof {
            lemma_looked_at(es, dirty@, total(es) as int, max);
            assert(l.skip(0) =~= l);
            assert(es.skip(0) =~= es);
            assert(es.take(0) =~= Seq::empty());
            reveal(Seq::filter);
            assert(named(to_restore@, known) =~= es.take(0).filter(fd));
            assert(removal_views(gone@) =~= entry_files(self.cache_dir@, es.take(0).filter(fc)));
        }
        while self.current_size > self.max_size
            invariant_except_break
                k + looked_at(es.skip(k), dirty@, self.current_size as int, max) == n,
            invariant
                0 <= k <= l.len(),
                l.len() == es.len(),
                es == named(l, known),
                numbered(l, known),
                known == texts_of(self.known@),
                fd == entry_dirty(dirty@),
                fc == entry_clean(dirty@),
                max == self.max_size,
                lru_entries(self.recent) == l.skip(k),
                lru_cap(self.recent) == usize::MAX,
                l.len() <= usize::MAX,
                self.changed_dir@ == join(self.cache_dir@, ascii(".changed"@)),
                self.same_place(old(self)),
                self.current_size == total(es.skip(k)) + total(es.take(k).filter(fd)),
                named(to_restore@, known) == es.take(k).filter(fd),
                forall|i: int|
                    0 <= i < to_restore@.len() ==> l.take(k).contains(#[trigger] to_restore@[i]),
                forall|i: int, j: int|
                    0 <= i < j < to_restore@.len() ==> (#[trigger] to_restore@[i]).0 != (
                    #[trigger] to_restore@[j]).0,
                removal_views(gone@) == entry_files(self.cache_dir@, es.take(k).filter(fc)),
            ensures
                k == n,
            decreases l.len() - k,
        {
            let popped = lru_pop(&mut self.recent);
            match popped {
                Some((id, size)) => {
                    proof {
                        assert(l.skip(k).skip(1) =~= l.skip(k + 1));
                        assert(es.skip(k).skip(1) =~= es.skip(k + 1));
                        assert(l.skip(k)[0] == l[k]);
                        assert(es.skip(k)[0] == es[k]);
                        assert(es[k] == (known[id as int], size));
                        lemma_filter_step(es, fd, k);
                        lemma_filter_step(es, fc, k);
                        lemma_total_push(es.take(k).filter(fd), es[k]);
                        assert(l.take(k + 1) =~= l.take(k).push(l[k]));
                    }
                    assert(id < self.known.len());
                    let path = &self.known[id as usize];
                    assert(path@ == known[id as int]);
                    if dirty.contains(path.as_slice()) {
                        proof {
                            assert forall|i: int| 0 <= i < to_restore@.len() implies (
                            #[trigger] to_restore@[i]).0 != id by {
                                let x = to_restore@[i];
                                let j = choose|j: int| 0 <= j < k && l.take(k)[j] == x;
                                assert(l[j].0 != l[k].0);
                            }
                        }
                        let ghost before = to_restore@;
                        to_restore.push((id, size));
                        proof {
                            assert(named(to_restore@, known) =~= named(before, known).push(es[k]));
                            assert forall|i: int| 0 <= i < to_restore@.len() implies l.take(
                                k + 1,
                            ).contains(#[trigger] to_restore@[i]) by {
                                if i < before.len() {
                                    assert(l.take(k).contains(before[i]));
                                    let j = choose|j: int| 0 <= j < k && l.take(k)[j] == before[i];
                                    assert(l.take(k + 1)[j] == before[i]);
                                } else {
                                    assert(l.take(k + 1)[k] == l[k]);
                                }
                            }
                            k = k + 1;
                        }
                    } else {
                        let local = to_local_path(self.cache_dir.as_slice(), path.as_slice());
                        let base = to_base_path(local.as_slice());
                        let ghost before = gone@;
                        gone.push(Removal { local, base });
                        self.current_size = self.current_size - size;
                        proof {
                            assert(removal_views(gone@) =~= removal_views(before).push(
                                files_of(self.cache_dir@, es[k].0),
                            ));
                            assert(entry_files(self.cache_dir@, es.take(k).filter(fc).push(es[k]))
                                =~= entry_files(self.cache_dir@, es.take(k).filter(fc)).push(
                                files_of(self.cache_dir@, es[k].0),
                            ));
                            assert forall|i: int| 0 <= i < to_restore@.len() implies l.take(
                                k + 1,
                            ).contains(#[trigger] to_restore@[i]) by {
                                let j = choose|j: int|
                                    0 <= j < k && l.take(k)[j] == to_restore@[i];
                                assert(l.take(k + 1)[j] == to_restore@[i]);
                            }
                            k = k + 1;
                        }
                    }
                },
                None => {
                    break;
                },
            }
        }
        let ghost kept = es.take(n).filter(fd);
        let mut i: usize = 0;
        assert(l.skip(n) + to_restore@.take(0) =~= l.skip(n));
        while i < to_restore.len()
            invariant
                0 <= n <= l.len() <= usize::MAX,
                i <= to_restore@.len() <= n,
                numbered(l, known),
                known == texts_of(self.known@),
                lru_entries(self.recent) == l.skip(n) + to_restore@.take(i as int),
                lru_cap(self.recent) == usize::MAX,
                self.changed_dir@ == join(self.cache_dir@, ascii(".changed"@)),
                self.same_place(old(self)),
                self.current_size == total(es.skip(n)) + total(kept),
                forall|x: int|
                    0 <= x < to_restore@.len() ==> l.take(n).contains(#[trigger] to_restore@[x]),
                forall|x: int, y: int|
                    0 <= x < y < to_restore@.len() ==> (#[trigger] to_restore@[x]).0 != (
                    #[trigger] to_restore@[y]).0,
            decreases to_restore@.len() - i,
        {
            let entry = to_restore[i];
            let ghost m = lru_entries(self.recent);
            proof {
                assert forall|x: int| 0 <= x < m.len() implies (#[trigger] m[x]).0 != entry.0 by {
                    let e = to_restore@[i as int];
                    let j = choose|j: int| 0 <= j < n && l.take(n)[j] == e;
                    if x < l.len() - n {
                        assert(m[x] == l[x + n]);
                        assert(l[j].0 != l[x + n].0);
                    } else {
                        assert(m[x] == to_restore@[x - (l.len() - n)]);
                    }
                }
            }
            let _ = lru_put(&mut self.recent, entry.0, entry.1);
            assert(lru_entries(self.recent) =~= l.skip(n) + to_restore@.take(i + 1));
            i += 1;
        }
        proof {
            let m = lru_entries(self.recent);
            assert(to_restore@.take(i as int) =~= to_restore@);
            assert(m == l.skip(n) + to_restore@);
            assert(named(m, known) =~= es.skip(n) + kept);
            lemma_total_cat(es.skip(n), kept);
            assert forall|x: int| 0 <= x < m.len() implies (#[trigger] m[x]).0 < known.len() by {
                if x < l.len() - n {
                    assert(m[x] == l[x + n]);
                } else {
                    let e = to_restore@[x - (l.len() - n)];
                    let j = choose|j: int| 0 <= j < n && l.take(n)[j] == e;
                    assert(m[x] == l[j]);
                }
            }
            assert forall|x: int, y: int| 0 <= x < y < m.len() implies (#[trigger] m[x]).0 != (
            #[trigger] m[y]).0 by {
                if y < l.len() - n {
                    assert(m[x] == l[x + n] && m[y] == l[y + n]);
                } else {
                    let e = to_restore@[y - (l.len() - n)];
                    assert(m[y] == e);
                    let j = choose|j: int| 0 <= j < n && l.take(n)[j] == e;
                    if x < l.len() - n {
                        assert(m[x] == l[x + n]);
                        assert(l[j].0 != l[x + n].0);
                    } else {
                        assert(m[x] == to_restore@[x - (l.len() - n)]);
                    }
                }
            }
        }
        proof {
            law_eviction_reaches_limit(es, dirty@, max);
            assert forall|e: (Seq<u8>, u64)|
                es.contains(e) && dirty@.contains(components(e.0)) implies #[trigger]
                self.entries().contains(e) by {
                law_dirty_files_stay(es, dirty@, max, e);
            }
        }
        gone
    }

    /// Puts a downloaded file into the cache, which may drive others out;
    /// tells which files go.
    pub fn add_file(&mut self, remote_path: &[u8], size: u64, dirty: &PathSet) -> (r: Vec<Removal>)
        requires
            old(self).valid(),
            old(self).entries().len() < usize::MAX,
            total(old(self).entries()) - size_of(old(self).entries(), remote_path@) + size
                <= u64::MAX,
        ensures
            final(self).valid(),
            final(self).entries() == after_eviction(
                stored(old(self).entries(), remote_path@, size),
                dirty@,
                old(self).max_size() as int,
            ),
            removal_views(r@) == entry_files(
                old(self).cache_dir(),
                evicted(
                    stored(old(self).entries(), remote_path@, size),
                    dirty@,
                    old(self).max_size() as int,
                ),
            ),
            within_limit(final(self).entries(), dirty@, old(self).max_size() as int),
            final(self).current_size() == total(final(self).entries()),
            final(self).same_place(old(self)),
    {
        if let Some(old_size) = self.store(remote_path, size) {
            self.current_size = self.current_size - old_size;
        }
        self.current_size = self.current_size + size;
        self.evict_if_needed(dirty)
    }

    /// Takes over the new size of a file that was written, which may drive
    /// others out; tells which files go.
    pub fn update_size(&mut self, remote_path: &[u8], new_size: u64, dirty: &PathSet) -> (r: Vec<
        Removal,
    >)
        requires
            old(self).valid(),
            old(self).entries().len() < usize::MAX,
            total(old(self).entries()) - size_of(old(self).entries(), remote_path@) + new_size
                <= u64::MAX,
        ensures
            final(self).valid(),
            final(self).entries() == after_eviction(
                stored(old(self).entries(), remote_path@, new_size),
                dirty@,
                old(self).max_size() as int,
            ),
            removal_views(r@) == entry_files(
                old(self).cache_dir(),
                evicted(
                    stored(old(self).entries(), remote_path@, new_size),
                    dirty@,
                    old(self).max_size() as int,
                ),
            ),
            within_limit(final(self).entries(), dirty@, old(self).max_size() as int),
            final(self).current_size() == total(final(self).entries()),
            final(self).same_place(old(self)),
    {
        let old_size = match self.store(remote_path, new_size) {
            Some(s) => s,
            None => 0,
        };
        self.current_size = self.current_size - old_size;
        self.current_size = self.current_size + new_size;
        self.evict_if_needed(dirty)
    }

    /// Whether another file of this size can be counted.
    pub fn fits(&self, size: u64) -> (r: bool)
        requires
            self.valid(),
        ensures
            r == (self.entries().len() < usize::MAX && total(self.entries()) + size <= u64::MAX),
    {
        lru_len(&self.recent) < usize::MAX && size <= u64::MAX - self.current_size
    }

    /// Marks a file as changed here. The server is to be told of it once, when
    /// the file was clean until now; the mark on disk is made in any event.
    pub fn mark_dirty(&self, remote_path: &[u8], dirty: &mut PathSet) -> (r: Marking)
        requires
            self.valid(),
        ensures
            final(dirty)@ == old(dirty)@.insert(components(remote_path@)),
            final(dirty).texts() == with_path(old(dirty).texts(), remote_path@),
            match r.announce {
                Some(line) => !old(dirty)@.contains(components(remote_path@)) && line@
                    == dirty_line(self.remote_root(), remote_path@),
                None => old(dirty)@.contains(components(remote_path@)),
            },
            match r.announce {
                Some(line) => announcement(self.remote_root(), remote_path@, old(dirty)@) == Some(
                    line@,
                ),
                None => announcement(self.remote_root(), remote_path@, old(dirty)@) is None,
            },
            r.changed_file@ == join(
                join(self.cache_dir(), ascii(".changed"@)),
                cache_name(remote_path@),
            ),
    {
        let newly = dirty.insert(remote_path);
        let announce = if newly {
            Some(make_dirty_line(self.remote_root.as_slice(), remote_path))
        } else {
            None
        };
        let name = cache_file_name(remote_path);
        let changed_file = join_path(self.changed_dir.as_slice(), name.as_slice());
        Marking { announce, changed_file }
    }

    /// The lines that tell a new connection of every dirty file.
    pub fn resend_lines(&self, dirty: &PathSet) -> (r: Vec<Vec<u8>>)
        ensures
            texts_of(r@) == dirty.texts().map_values(
                |t: Seq<u8>| dirty_line(self.remote_root(), t),
            ),
    {
        let mut r: Vec<Vec<u8>> = Vec::new();
        let mut i: usize = 0;
        while i < dirty.len()
            invariant
                i <= dirty.texts().len(),
                r@.len() == i,
                forall|k: int|
                    0 <= k < i ==> (#[trigger] r@[k])@ == dirty_line(
                        self.remote_root(),
                        dirty.texts()[k],
                    ),
            decreases dirty.texts().len() - i,
        {
            r.push(make_dirty_line(self.remote_root.as_slice(), dirty.text(i).as_slice()));
            i += 1;
        }
        assert(texts_of(r@) =~= dirty.texts().map_values(
            |t: Seq<u8>| dirty_line(self.remote_root(), t),
        ));
        r
    }

    /// Whether this cache has the directories and the limit of the other.
    pub open spec fn same_place(&self, other: &FileCache) -> bool {
        &&& self.cache_dir() == other.cache_dir()
        &&& self.remote_root() == other.remote_root()
        &&& self.max_size() == other.max_size()
    }
}

/// Adding an entry for a path that has none.
proof fn lemma_added(
    l: Seq<(u64, u64)>,
    known: Seq<Seq<u8>>,
    now: Seq<Seq<u8>>,
    p: Seq<u8>,
    size: u64,
)
    requires
        numbered(l, known),
        forall|i: int| 0 <= i < l.len() ==> (#[trigger] l[i]).0 != find_path(known, p),
        now == if find_path(known, p) < known.len() {
            known.update(find_path(known, p), p)
        } else {
            known.push(p)
        },
        known.len() <= u64::MAX,
    ensures
        numbered(l.push((find_path(known, p) as u64, size)), now),
        named(l.push((find_path(known, p) as u64, size)), now) == named(l, known).push((p, size)),
{
    lemma_find_path(known, p);
    let f = find_path(known, p);
    let m = l.push((f as u64, size));
    assert forall|i: int| 0 <= i < l.len() implies now[(#[trigger] l[i]).0 as int]
        == known[l[i].0 as int] by {}
    assert(named(m, now) =~= named(l, known).push((p, size)));
    assert forall|i: int, j: int| 0 <= i < j < now.len() implies !same(
        #[trigger] now[i],
        #[trigger] now[j],
    ) by {
        if f == known.len() {
            if j < known.len() {
                assert(!same(known[i], known[j]));
            } else {
                assert(!same(known[i], p));
            }
        } else {
            assert(!same(known[i], known[j]));
            assert(same(known[f], p));
        }
    }
    assert forall|i: int, j: int| 0 <= i < j < m.len() implies (#[trigger] m[i]).0 != (
    #[trigger] m[j]).0 by {
        if j < l.len() {
            assert(l[i].0 != l[j].0);
        } else {
            assert(m[i] == l[i]);
        }
    }
}

/// Moving an entry to the end, with a new size.
proof fn lemma_moved(l: Seq<(u64, u64)>, known: Seq<Seq<u8>>, i: int, size: u64)
    requires
        numbered(l, known),
        0 <= i < l.len(),
    ensures
        ({
            let m = l.remove(i).push((l[i].0, size));
            let es = named(l, known);
            &&& numbered(m, known)
            &&& named(m, known) == es.remove(i).push((es[i].0, size))
            &&& total(named(m, known)) == total(es) - es[i].1 + size
        }),
{
    let m = l.remove(i).push((l[i].0, size));
    let es = named(l, known);
    assert(named(m, known) =~= es.remove(i).push((es[i].0, size)));
    lemma_total_remove(es, i);
    lemma_total_push(es.remove(i), (es[i].0, size));
    assert forall|a: int, b: int| 0 <= a < b < m.len() implies (#[trigger] m[a]).0 != (
    #[trigger] m[b]).0 by {
        let a1 = if a < i { a } else { a + 1 };
        let b1 = if b == m.len() - 1 {
            i
        } else if b < i {
            b
        } else {
            b + 1
        };
        assert(m[a].0 == l[a1].0);
        assert(m[b].0 == l[b1].0);
        if a1 < b1 {
            assert(l[a1].0 != l[b1].0);
        } else {
            assert(l[b1].0 != l[a1].0);
        }
    }
    assert forall|a: int| 0 <= a < m.len() implies (#[trigger] m[a]).0 < known.len() by {
        let a1 = if a == m.len() - 1 {
            i
        } else if a < i {
            a
        } else {
            a + 1
        };
        assert(m[a].0 == l[a1].0);
    }
}

// ---------------------------------------------------------------------------
// Which files belong to an entry, and what use does to it
// ---------------------------------------------------------------------------

/// A cached file lies in the directory of the cache, under the hexadecimal
/// notation of the digest of its whole path, and beside it, with `..base`
/// behind, the server's version. So files whose paths have different digests
/// share neither.
pub proof fn law_files_are_apart(dir: Seq<u8>, p: Seq<u8>, q: Seq<u8>)
    requires
        vstd::utf8::valid_utf8(p),
        vstd::utf8::valid_utf8(q),
    ensures
        exists|name: Seq<u8>|
            #![trigger spells(name, sha256(p))]
            spells(name, sha256(p)) && local_path(dir, p) == join(dir, name) && (sha256(p).len()
                > 0 ==> files_of(dir, p) == (
                join(dir, name),
                join(dir, name) + ascii("..base"@),
            )),
        sha256(p) != sha256(q) ==> local_path(dir, p) != local_path(dir, q),
        sha256(p) != sha256(q) && sha256(p).len() == sha256(q).len() && sha256(p).len() > 0 ==> {
            &&& files_of(dir, p).0 != files_of(dir, q).0
            &&& files_of(dir, p).1 != files_of(dir, q).1
            &&& files_of(dir, p).1 != files_of(dir, q).0
        },
{
    let a = cache_name(p);
    let b = cache_name(q);
    law_name_spells_digest(p, q);
    law_name_spells_digest(q, p);
    assert(spells(a, sha256(p)));
    let x = join(dir, a);
    let y = join(dir, b);
    let e = ascii("..base"@);
    if a.len() > 0 {
        assert(is_hex(a[0]));
        law_base_beside_file(dir, a, a);
    }
    if b.len() > 0 {
        assert(is_hex(b[0]));
        law_base_beside_file(dir, b, b);
    }
    assert(x.skip(x.len() - a.len()) =~= a);
    assert(y.skip(y.len() - b.len()) =~= b);
    assert(x.len() - a.len() == y.len() - b.len());
    if a.len() == b.len() && a.len() > 0 {
        law_base_beside_file(dir, a, b);
        assert((x + e).take(x.len() as int) =~= x);
        assert((y + e).take(y.len() as int) =~= y);
    }
}

/// With an entry go its own two files: the cached file and, beside it, the
/// server's version.
pub proof fn law_removed_files(dir: Seq<u8>, es: Seq<(Seq<u8>, u64)>, i: int)
    requires
        0 <= i < es.len(),
    ensures
        entry_files(dir, es).len() == es.len(),
        entry_files(dir, es)[i] == (local_path(dir, es[i].0), base_path(
            local_path(dir, es[i].0),
        )),
{
}

/// Storing a file gives its path the new size and makes it the last used; the
/// sizes of other paths, and their order, stay. A path takes one entry.
pub proof fn law_stored_file(es: Seq<(Seq<u8>, u64)>, p: Seq<u8>, size: u64, q: Seq<u8>)
    requires
        distinct(paths_of(es)),
    ensures
        ({
            let after = stored(es, p, size);
            &&& distinct(paths_of(after))
            &&& after.last().1 == size
            &&& same(after.last().0, p)
            &&& size_of(after, p) == size
            &&& !same(q, p) ==> size_of(after, q) == size_of(es, q)
            &&& total(after) == total(es) - size_of(es, p) + size
            &&& forall|i: int, j: int|
                0 <= i < j < es.len() && !same(es[i].0, p) && !same(es[j].0, p) ==> exists|
                    k: int,
                    l: int,
                | #![trigger after[k], after[l]]
                    0 <= k < l < after.len() - 1 && after[k] == #[trigger] es[i] && after[l]
                        == #[trigger] es[j]
        }),
{
    let after = stored(es, p, size);
    let ps = paths_of(es);
    let qs = paths_of(after);
    let s = slot(es, p);
    lemma_find_path(ps, p);
    let n = after.len() as int;
    let k = |i: int|
        if s < es.len() && i > s {
            i - 1
        } else {
            i
        };
    assert forall|i: int| 0 <= i < es.len() && i != s implies 0 <= k(i) < n - 1 && after[k(i)]
        == #[trigger] es[i] by {}
    if s < es.len() {
        lemma_total_remove(es, s);
        lemma_total_push(es.remove(s), (es[s].0, size));
        assert(ps[s] == es[s].0);
        assert(same(es[s].0, p));
    } else {
        lemma_total_push(es, (p, size));
    }
    assert(after.last().1 == size && same(after.last().0, p));
    assert forall|i: int, j: int| 0 <= i < j < qs.len() implies !same(
        #[trigger] qs[i],
        #[trigger] qs[j],
    ) by {
        let a = if s < es.len() && i >= s {
            i + 1
        } else {
            i
        };
        assert(after[i] == es[a] && qs[i] == ps[a]);
        if j < n - 1 {
            let b = if s < es.len() && j >= s {
                j + 1
            } else {
                j
            };
            assert(after[j] == es[b] && qs[j] == ps[b]);
            assert(!same(ps[a], ps[b]));
        } else {
            assert(same(qs[j], p));
            if s < es.len() {
                if a < s {
                    assert(!same(ps[a], ps[s]));
                } else {
                    assert(!same(ps[s], ps[a]));
                }
            } else {
                assert(!same(ps[a], p));
            }
        }
    }
    assert forall|i: int| 0 <= i < n - 1 implies !same(#[trigger] qs[i], p) by {
        assert(!same(qs[i], qs[n - 1]));
        assert(same(qs[n - 1], p));
    }
    lemma_find_path_is(qs, p, n - 1);
    if !same(q, p) {
        let t = slot(es, q);
        lemma_find_path(ps, q);
        if t < es.len() {
            assert(same(ps[t], q));
            assert(t != s) by {
                if t == s {
                    assert(same(ps[s], p));
                }
            }
            let u = k(t);
            assert(after[u] == es[t] && qs[u] == ps[t]);
            assert forall|i: int| 0 <= i < u implies !same(#[trigger] qs[i], q) by {
                assert(!same(qs[i], qs[u]));
            }
            lemma_find_path_is(qs, q, u);
        } else {
            assert forall|i: int| 0 <= i < n implies !same(#[trigger] qs[i], q) by {
                if i < n - 1 {
                    let a = if s < es.len() && i >= s {
                        i + 1
                    } else {
                        i
                    };
                    assert(after[i] == es[a] && qs[i] == ps[a]);
                    assert(!same(ps[a], q));
                } else {
                    assert(same(qs[i], p));
                }
            }
            lemma_find_path_is(qs, q, n);
        }
    }
    assert forall|i: int, j: int|
        0 <= i < j < es.len() && !same(es[i].0, p) && !same(es[j].0, p) implies exists|
            k: int,
            l: int,
        | #![trigger after[k], after[l]]
            0 <= k < l < after.len() - 1 && after[k] == #[trigger] es[i] && after[l]
                == #[trigger] es[j] by {
        assert(i != s && j != s) by {
            assert(ps[i] == es[i].0 && ps[j] == es[j].0);
        }
        assert(after[k(i)] == es[i] && after[k(j)] == es[j]);
        assert(0 <= k(i) < k(j) < n - 1);
    }
}

/// Using a file makes it the last used and changes nothing else: it is stored
/// again with the size that it has. A file that is not cached changes nothing.
pub proof fn law_used_file(es: Seq<(Seq<u8>, u64)>, p: Seq<u8>)
    ensures
        has_path(paths_of(es), p) ==> touched(es, p) == stored(es, p, size_of(es, p)) && same(
            touched(es, p).last().0,
            p,
        ) && touched(es, p).len() == es.len(),
        !has_path(paths_of(es), p) ==> touched(es, p) == es && size_of(es, p) == 0,
        total(touched(es, p)) == total(es),
{
    let ps = paths_of(es);
    let s = slot(es, p);
    lemma_find_path(ps, p);
    if s < es.len() {
        assert(ps[s] == es[s].0);
        lemma_total_remove(es, s);
        lemma_total_push(es.remove(s), es[s]);
    }
}

} // verus!
