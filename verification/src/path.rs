//! Unix paths as byte strings.
//!
//! A path is a sequence of components: the root or a leading dot, where the
//! text begins with one, and then its names. Empty pieces and dots between
//! separators are no names. Two texts are the same path where their
//! components are equal, so `/a//b/` and `/a/b` are one path.
use vstd::prelude::*;
use crate::bytes::append_bytes;
use crate::bytes::bytes_eq;
use crate::bytes::copy_range;
use crate::bytes::find_byte;
use crate::bytes::DOT;

verus! {

/// The byte that separates the names of a path.
pub const SLASH: u8 = 47;

/// Whether a path begins at the root.
pub open spec fn rooted(p: Seq<u8>) -> bool {
    p.len() > 0 && p[0] == SLASH
}

/// Whether a path begins with a component that is no name: the root, or a dot.
pub open spec fn has_lead(p: Seq<u8>) -> bool {
    rooted(p) || (p.len() > 0 && p[0] == DOT && (p.len() == 1 || p[1] == SLASH))
}

/// The length of the text of that first component, or 0.
pub open spec fn lead_len(p: Seq<u8>) -> int {
    if has_lead(p) {
        1
    } else {
        0
    }
}

/// Whether a piece between separators is no name: it is empty, or a dot.
pub open spec fn skipped(piece: Seq<u8>) -> bool {
    piece.len() == 0 || (piece.len() == 1 && piece[0] == DOT)
}

/// The places of the names of `p` from `i` on: where each begins and ends.
pub open spec fn spans_from(p: Seq<u8>, i: int) -> Seq<(int, int)>
    decreases p.len() + 1 - i,
{
    if i < 0 || i >= p.len() {
        Seq::empty()
    } else {
        let e = crate::bytes::find_from(p, SLASH, i);
        proof {
            crate::bytes::lemma_find_from(p, SLASH, i);
        }
        if skipped(p.subrange(i, e)) {
            spans_from(p, e + 1)
        } else {
            seq![(i, e)] + spans_from(p, e + 1)
        }
    }
}

/// The places of the names of a path.
pub open spec fn spans(p: Seq<u8>) -> Seq<(int, int)> {
    spans_from(p, 0)
}

/// The names of `p` from `i` on.
pub open spec fn names_from(p: Seq<u8>, i: int) -> Seq<Seq<u8>> {
    spans_from(p, i).map_values(|s: (int, int)| p.subrange(s.0, s.1))
}

/// The names of a path.
pub open spec fn names(p: Seq<u8>) -> Seq<Seq<u8>> {
    names_from(p, 0)
}

/// The components of a path: its lead, where it has one, and its names.
pub open spec fn components(p: Seq<u8>) -> Seq<Seq<u8>> {
    if has_lead(p) {
        seq![p.take(1)] + names(p)
    } else {
        names(p)
    }
}

/// Whether two texts are the same path.
pub open spec fn same(p: Seq<u8>, q: Seq<u8>) -> bool {
    components(p) == components(q)
}

/// `p` with `q` behind it; `q` alone where `q` begins at the root.
pub open spec fn join(p: Seq<u8>, q: Seq<u8>) -> Seq<u8> {
    if rooted(q) {
        q
    } else if p.len() == 0 || p.last() == SLASH {
        p + q
    } else {
        p.push(SLASH) + q
    }
}

/// The path without its last component; none where the path is empty or the
/// root.
pub open spec fn parent(p: Seq<u8>) -> Option<Seq<u8>> {
    let s = spans(p);
    if s.len() >= 2 {
        Some(p.take(s[s.len() - 2].1))
    } else if s.len() == 1 {
        Some(p.take(lead_len(p)))
    } else if has_lead(p) && !rooted(p) {
        Some(Seq::empty())
    } else {
        None
    }
}

/// The last name of a path; none where the path ends in `..` or has no name.
pub open spec fn file_name(p: Seq<u8>) -> Option<Seq<u8>> {
    let n = names(p);
    if n.len() > 0 && n.last() != seq![DOT, DOT] {
        Some(n.last())
    } else {
        None
    }
}

/// Whether the components of `base` begin those of `p`.
pub open spec fn is_under(p: Seq<u8>, base: Seq<u8>) -> bool {
    let b = components(base);
    b.len() <= components(p).len() && components(p).take(b.len() as int) == b
}

/// The end of the text of the last component of `p`.
pub open spec fn body_end(p: Seq<u8>) -> int {
    let s = spans(p);
    if s.len() > 0 {
        s.last().1
    } else {
        lead_len(p)
    }
}

/// What is left of `p` behind `base`; none where `p` does not lie under `base`.
pub open spec fn strip(p: Seq<u8>, base: Seq<u8>) -> Option<Seq<u8>> {
    let k = components(base).len();
    if !is_under(p, base) {
        None
    } else if k == 0 {
        Some(p.take(body_end(p)))
    } else if k == components(p).len() {
        Some(Seq::empty())
    } else {
        Some(p.subrange(spans(p)[k - lead_len(p)].0, body_end(p)))
    }
}

// ---------------------------------------------------------------------------
// What the places of the names look like
// ---------------------------------------------------------------------------

/// Each name lies in the text, is not skipped, holds no separator, and ends at
/// a separator or at the end; each lies behind the one before it.
pub proof fn lemma_spans(p: Seq<u8>, i: int)
    requires
        0 <= i,
    ensures
        forall|k: int|
            0 <= k < spans_from(p, i).len() ==> {
                let s = #[trigger] spans_from(p, i)[k];
                &&& i <= s.0 < s.1 <= p.len()
                &&& !skipped(p.subrange(s.0, s.1))
                &&& forall|j: int| s.0 <= j < s.1 ==> p[j] != SLASH
                &&& s.1 < p.len() ==> p[s.1] == SLASH
                &&& s.0 > i ==> p[s.0 - 1] == SLASH
            },
        forall|k: int, l: int|
            0 <= k < l < spans_from(p, i).len() ==> (#[trigger] spans_from(p, i)[k]).1 < (
            #[trigger] spans_from(p, i)[l]).0,
    decreases p.len() + 1 - i,
{
    if i < p.len() {
        let e = crate::bytes::find_from(p, SLASH, i);
        crate::bytes::lemma_find_from(p, SLASH, i);
        lemma_spans(p, e + 1);
        let rest = spans_from(p, e + 1);
        let all = spans_from(p, i);
        if skipped(p.subrange(i, e)) {
            assert(all == rest);
        } else {
            assert(all == seq![(i, e)] + rest);
            assert forall|k: int| 0 < k < all.len() implies all[k] == rest[k - 1] by {}
        }
        assert(p.len() <= e + 1 ==> rest.len() == 0);
        if e + 1 <= p.len() {
            assert(p[e + 1 - 1] == SLASH);
        }
    }
}

/// The places of the names of a path.
pub fn path_spans(p: &[u8]) -> (r: Vec<(usize, usize)>)
    ensures
        r@.len() == spans(p@).len(),
        forall|k: int|
            #![trigger r@[k]]
            #![trigger spans(p@)[k]]
            0 <= k < r@.len() ==> r@[k].0 == spans(p@)[k].0 && r@[k].1 == spans(p@)[k].1
                && r@[k].0 < r@[k].1 <= p@.len(),
{
    let mut r: Vec<(usize, usize)> = Vec::new();
    let mut i: usize = 0;
    let ghost all = spans(p@);
    proof {
        lemma_spans(p@, 0);
    }
    assert(Seq::<(int, int)>::empty() + spans_from(p@, 0) =~= spans_from(p@, 0));
    while i < p.len()
        invariant
            i <= p@.len(),
            all == spans(p@),
            r@.map_values(|s: (usize, usize)| (s.0 as int, s.1 as int)) + spans_from(p@, i as int)
                == all,
        decreases p@.len() - i,
    {
        let e = find_byte(p, SLASH, i);
        let ghost before = r@.map_values(|s: (usize, usize)| (s.0 as int, s.1 as int));
        let skip = e == i || (e - i == 1 && p[i] == DOT);
        assert(skip == skipped(p@.subrange(i as int, e as int)));
        if !skip {
            r.push((i, e));
            assert(r@.map_values(|s: (usize, usize)| (s.0 as int, s.1 as int)) =~= before.push(
                (i as int, e as int),
            ));
            assert(before.push((i as int, e as int)) + spans_from(p@, e + 1) =~= before + (seq![
                (i as int, e as int),
            ] + spans_from(p@, e + 1)));
        }
        if e == p.len() {
            assert(spans_from(p@, e as int) =~= spans_from(p@, e + 1));
            i = e;
        } else {
            i = e + 1;
        }
    }
    let ghost m = r@.map_values(|s: (usize, usize)| (s.0 as int, s.1 as int));
    assert(spans_from(p@, i as int) =~= Seq::empty());
    assert(m =~= all);
    assert forall|k: int| 0 <= k < r@.len() implies r@[k].0 == spans(p@)[k].0 && r@[k].1 == spans(
        p@,
    )[k].1 && r@[k].0 < r@[k].1 <= p@.len() by {
        assert(m[k] == all[k]);
    }
    r
}

/// Whether a path begins at the root.
pub fn is_rooted(p: &[u8]) -> (r: bool)
    ensures
        r == rooted(p@),
{
    p.len() > 0 && p[0] == SLASH
}

/// The length of the text of the lead of a path, or 0.
pub fn path_lead_len(p: &[u8]) -> (r: usize)
    ensures
        r == lead_len(p@),
        r <= p@.len(),
{
    if p.len() > 0 && (p[0] == SLASH || (p[0] == DOT && (p.len() == 1 || p[1] == SLASH))) {
        1
    } else {
        0
    }
}

/// The components of a path.
pub fn path_components(p: &[u8]) -> (r: Vec<Vec<u8>>)
    ensures
        r@.map_values(|c: Vec<u8>| c@) == components(p@),
{
    let s = path_spans(p);
    let mut r: Vec<Vec<u8>> = Vec::new();
    let ghost view = |c: Vec<u8>| c@;
    if path_lead_len(p) == 1 {
        r.push(copy_range(p, 0, 1));
        assert(p@.subrange(0, 1) =~= p@.take(1));
        assert(r@.map_values(view) =~= seq![p@.take(1)]);
    }
    let ghost lead = r@.map_values(view);
    let mut i: usize = 0;
    while i < s.len()
        invariant
            i <= s@.len(),
            s@.len() == spans(p@).len(),
            view == (|c: Vec<u8>| c@),
            forall|k: int|
                #![trigger s@[k]]
                #![trigger spans(p@)[k]]
                0 <= k < s@.len() ==> s@[k].0 == spans(p@)[k].0 && s@[k].1 == spans(p@)[k].1
                    && s@[k].0 < s@[k].1 <= p@.len(),
            r@.map_values(view) == lead + names(p@).take(i as int),
        decreases s@.len() - i,
    {
        let c = copy_range(p, s[i].0, s[i].1);
        let ghost before = r@.map_values(view);
        r.push(c);
        assert(c@ == names(p@)[i as int]);
        i += 1;
        assert(r@.map_values(view) =~= before.push(c@));
        assert(lead + names(p@).take(i as int) =~= (lead + names(p@).take(i - 1)).push(c@));
    }
    assert(names(p@).take(i as int) =~= names(p@));
    assert(lead + names(p@) =~= components(p@));
    r
}

/// Whether the components in `a` are those that begin `b`.
fn begins(a: &Vec<Vec<u8>>, b: &Vec<Vec<u8>>) -> (r: bool)
    requires
        a@.len() <= b@.len(),
    ensures
        r == (b@.map_values(|c: Vec<u8>| c@).take(a@.len() as int) == a@.map_values(
            |c: Vec<u8>| c@,
        )),
{
    let ghost x = a@.map_values(|c: Vec<u8>| c@);
    let ghost y = b@.map_values(|c: Vec<u8>| c@);
    let mut i: usize = 0;
    while i < a.len()
        invariant
            i <= a@.len() <= b@.len(),
            x == a@.map_values(|c: Vec<u8>| c@),
            y == b@.map_values(|c: Vec<u8>| c@),
            forall|k: int| 0 <= k < i ==> x[k] == y[k],
        decreases a@.len() - i,
    {
        if !bytes_eq(a[i].as_slice(), b[i].as_slice()) {
            assert(y.take(a@.len() as int)[i as int] == y[i as int]);
            assert(x[i as int] != y[i as int]);
            return false;
        }
        i += 1;
    }
    assert(y.take(a@.len() as int) =~= x);
    true
}

/// Whether two texts are the same path.
pub fn same_path(p: &[u8], q: &[u8]) -> (r: bool)
    ensures
        r == same(p@, q@),
{
    let a = path_components(p);
    let b = path_components(q);
    let ghost x = a@.map_values(|c: Vec<u8>| c@);
    let ghost y = b@.map_values(|c: Vec<u8>| c@);
    if a.len() != b.len() {
        assert(x.len() != y.len());
        return false;
    }
    assert(y.take(a@.len() as int) =~= y);
    begins(&a, &b)
}

/// Puts `q` behind `p`; gives `q` alone where `q` begins at the root.
pub fn join_path(p: &[u8], q: &[u8]) -> (r: Vec<u8>)
    ensures
        r@ == join(p@, q@),
{
    if is_rooted(q) {
        return copy_range(q, 0, q.len());
    }
    let mut r = copy_range(p, 0, p.len());
    if p.len() > 0 && p[p.len() - 1] != SLASH {
        r.push(SLASH);
    }
    append_bytes(&mut r, q);
    r
}

/// The path without its last component.
pub fn parent_path(p: &[u8]) -> (r: Option<Vec<u8>>)
    ensures
        match r {
            Some(v) => parent(p@) == Some(v@),
            None => parent(p@) is None,
        },
{
    let s = path_spans(p);
    let n = s.len();
    let lead = path_lead_len(p);
    if n >= 2 {
        let e = s[n - 2].1;
        assert(p@.subrange(0, e as int) =~= p@.take(e as int));
        Some(copy_range(p, 0, e))
    } else if n == 1 {
        assert(p@.subrange(0, lead as int) =~= p@.take(lead as int));
        Some(copy_range(p, 0, lead))
    } else if lead == 1 && p[0] != SLASH {
        Some(Vec::new())
    } else {
        None
    }
}

/// The last name of a path.
pub fn path_file_name(p: &[u8]) -> (r: Option<Vec<u8>>)
    ensures
        match r {
            Some(v) => file_name(p@) == Some(v@),
            None => file_name(p@) is None,
        },
{
    let s = path_spans(p);
    if s.len() == 0 {
        return None;
    }
    let last = s[s.len() - 1];
    let v = copy_range(p, last.0, last.1);
    assert(v@ == names(p@).last());
    if v.len() == 2 && v[0] == DOT && v[1] == DOT {
        assert(v@ =~= seq![DOT, DOT]);
        None
    } else {
        Some(v)
    }
}

proof fn lemma_under_lead(p: Seq<u8>, base: Seq<u8>)
    requires
        is_under(p, base),
        components(base).len() > 0,
    ensures
        lead_len(p) <= components(base).len(),
        components(p).len() == lead_len(p) + names(p).len(),
{
}

/// What is left of `p` behind `base`.
pub fn strip_prefix(p: &[u8], base: &[u8]) -> (r: Option<Vec<u8>>)
    ensures
        match r {
            Some(v) => strip(p@, base@) == Some(v@),
            None => strip(p@, base@) is None,
        },
{
    let a = path_components(base);
    let b = path_components(p);
    let ghost x = a@.map_values(|c: Vec<u8>| c@);
    let ghost y = b@.map_values(|c: Vec<u8>| c@);
    assert(x.len() == a@.len() && y.len() == b@.len());
    if a.len() > b.len() || !begins(&a, &b) {
        return None;
    }
    let s = path_spans(p);
    let lead = path_lead_len(p);
    let end: usize = if s.len() > 0 {
        s[s.len() - 1].1
    } else {
        lead
    };
    assert(end == body_end(p@));
    if a.len() == 0 {
        assert(p@.subrange(0, end as int) =~= p@.take(end as int));
        Some(copy_range(p, 0, end))
    } else if a.len() == b.len() {
        Some(Vec::new())
    } else {
        proof {
            lemma_under_lead(p@, base@);
            lemma_spans(p@, 0);
        }
        let j = a.len() - lead;
        assert(spans(p@)[j as int].0 == s@[j as int].0);
        proof {
            let n = spans(p@).len();
            if j < n - 1 {
                assert(spans(p@)[j as int].1 < spans(p@)[n - 1].0);
            }
        }
        Some(copy_range(p, s[j].0, end))
    }
}

// ---------------------------------------------------------------------------
// How joining and stripping act on components
// ---------------------------------------------------------------------------

proof fn lemma_names_step(p: Seq<u8>, i: int)
    requires
        0 <= i < p.len(),
    ensures
        ({
            let e = crate::bytes::find_from(p, SLASH, i);
            names_from(p, i) == if skipped(p.subrange(i, e)) {
                names_from(p, e + 1)
            } else {
                seq![p.subrange(i, e)] + names_from(p, e + 1)
            }
        }),
{
    let e = crate::bytes::find_from(p, SLASH, i);
    if !skipped(p.subrange(i, e)) {
        assert(names_from(p, i) =~= seq![p.subrange(i, e)] + names_from(p, e + 1));
    }
}

proof fn lemma_names_past_end(p: Seq<u8>, i: int)
    requires
        i >= p.len(),
    ensures
        names_from(p, i) == Seq::<Seq<u8>>::empty(),
{
    assert(names_from(p, i) =~= Seq::empty());
}

/// The names of `p` from `i + x` on are those of `p.skip(i)` from `x` on.
proof fn lemma_names_shift(p: Seq<u8>, i: int, x: int)
    requires
        0 <= i <= p.len(),
        0 <= x,
    ensures
        names_from(p, i + x) == names_from(p.skip(i), x),
    decreases p.len() + 1 - i - x,
{
    let q = p.skip(i);
    if i + x >= p.len() {
        lemma_names_past_end(p, i + x);
        lemma_names_past_end(q, x);
    } else {
        let e = crate::bytes::find_from(q, SLASH, x);
        crate::bytes::lemma_find_from(q, SLASH, x);
        assert forall|j: int| i + x <= j < i + e implies p[j] != SLASH by {
            assert(q[j - i] != SLASH);
        }
        crate::bytes::lemma_find_from_is(p, SLASH, i + x, i + e);
        lemma_names_step(p, i + x);
        lemma_names_step(q, x);
        assert(p.subrange(i + x, i + e) =~= q.subrange(x, e));
        lemma_names_shift(p, i, e + 1);
    }
}

proof fn lemma_names_cat_from(a: Seq<u8>, b: Seq<u8>, i: int)
    requires
        0 <= i <= a.len(),
    ensures
        names_from(a.push(SLASH) + b, i) == names_from(a, i) + names(b),
    decreases a.len() + 1 - i,
{
    let c = a.push(SLASH) + b;
    let n = a.len() as int;
    assert(c.skip(n + 1) =~= b);
    lemma_names_shift(c, n + 1, 0);
    if i == n {
        crate::bytes::lemma_find_from_is(c, SLASH, n, n);
        lemma_names_step(c, n);
        lemma_names_past_end(a, n);
        assert(Seq::<Seq<u8>>::empty() + names(b) =~= names(b));
    } else {
        let e = crate::bytes::find_from(a, SLASH, i);
        crate::bytes::lemma_find_from(a, SLASH, i);
        assert forall|j: int| i <= j < e implies c[j] != SLASH by {
            assert(c[j] == a[j]);
        }
        assert(c[e] == SLASH);
        crate::bytes::lemma_find_from_is(c, SLASH, i, e);
        lemma_names_step(c, i);
        lemma_names_step(a, i);
        assert(c.subrange(i, e) =~= a.subrange(i, e));
        if e == n {
            lemma_names_past_end(a, e + 1);
            assert(names_from(c, e + 1) =~= names_from(a, e + 1) + names(b));
        } else {
            lemma_names_cat_from(a, b, e + 1);
        }
        if !skipped(a.subrange(i, e)) {
            let h = seq![a.subrange(i, e)];
            assert(h + (names_from(a, e + 1) + names(b)) =~= (h + names_from(a, e + 1)) + names(
                b,
            ));
        }
    }
}

/// The names of two texts with a separator between them.
pub proof fn lemma_names_cat(a: Seq<u8>, b: Seq<u8>)
    ensures
        names(a.push(SLASH) + b) == names(a) + names(b),
{
    lemma_names_cat_from(a, b, 0);
}

/// A last piece that is no separator and not skipped is the last name.
pub proof fn lemma_last_span(p: Seq<u8>, i: int, x: int)
    requires
        0 <= i <= x < p.len(),
        x == i || p[x - 1] == SLASH,
        forall|j: int| x <= j < p.len() ==> p[j] != SLASH,
        !skipped(p.skip(x)),
    ensures
        spans_from(p, i).len() > 0,
        spans_from(p, i).last() == (x, p.len() as int),
    decreases x - i,
{
    assert(p.skip(x) =~= p.subrange(x, p.len() as int));
    if i == x {
        crate::bytes::lemma_find_from_is(p, SLASH, i, p.len() as int);
        let n = p.len() as int;
        assert(spans_from(p, n + 1) =~= Seq::empty());
        assert(spans_from(p, i) == seq![(i, n)] + spans_from(p, n + 1));
    } else {
        let e = crate::bytes::find_from(p, SLASH, i);
        crate::bytes::lemma_find_from(p, SLASH, i);
        lemma_last_span(p, e + 1, x);
        let rest = spans_from(p, e + 1);
        if !skipped(p.subrange(i, e)) {
            assert(spans_from(p, i) == seq![(i, e)] + rest);
            assert(spans_from(p, i).last() == rest.last());
        }
    }
}

/// Joining `q`, which does not begin at the root, behind a path that is not
/// empty adds the names of `q` to its components.
pub proof fn law_join_components(p: Seq<u8>, q: Seq<u8>)
    requires
        p.len() > 0,
        !rooted(q),
    ensures
        components(join(p, q)) == components(p) + names(q),
{
    let j = join(p, q);
    if p.last() == SLASH {
        let a = p.drop_last();
        assert(p =~= a.push(SLASH));
        assert(p =~= a.push(SLASH) + Seq::<u8>::empty());
        lemma_names_cat(a, Seq::empty());
        lemma_names_past_end(Seq::empty(), 0);
        assert(names(a) + Seq::<Seq<u8>>::empty() =~= names(a));
        lemma_names_cat(a, q);
        if p.len() == 1 {
            assert(has_lead(j) && has_lead(p));
        } else {
            assert(j[0] == p[0] && j[1] == p[1]);
        }
    } else {
        lemma_names_cat(p, q);
        assert(j[0] == p[0]);
        if p.len() == 1 {
            assert(j[1] == SLASH);
        } else {
            assert(j[1] == p[1]);
        }
    }
    assert(has_lead(j) == has_lead(p));
    if has_lead(p) {
        assert(j.take(1) =~= p.take(1));
        assert(components(j) =~= components(p) + names(q));
    }
}

proof fn lemma_spans_at(p: Seq<u8>, i: int, k: int)
    requires
        0 <= i,
        0 <= k < spans_from(p, i).len(),
    ensures
        spans_from(p, spans_from(p, i)[k].0) == spans_from(p, i).skip(k),
    decreases p.len() + 1 - i,
{
    let e = crate::bytes::find_from(p, SLASH, i);
    crate::bytes::lemma_find_from(p, SLASH, i);
    let rest = spans_from(p, e + 1);
    if skipped(p.subrange(i, e)) {
        lemma_spans_at(p, e + 1, k);
    } else if k == 0 {
        assert(spans_from(p, i).skip(0) =~= spans_from(p, i));
    } else {
        lemma_spans_at(p, e + 1, k - 1);
        assert(spans_from(p, i)[k] == rest[k - 1]);
        assert(spans_from(p, i).skip(k) =~= rest.skip(k - 1));
    }
}

/// Cutting a text at a separator behind its last name keeps its names.
proof fn lemma_names_cut(p: Seq<u8>, e: int, i: int)
    requires
        0 <= i,
        0 <= e <= p.len(),
        e < p.len() ==> p[e] == SLASH,
        forall|k: int| 0 <= k < spans_from(p, i).len() ==> (#[trigger] spans_from(p, i)[k]).1 <= e,
    ensures
        names_from(p.take(e), i) == names_from(p, i),
    decreases p.len() + 1 - i,
{
    let q = p.take(e);
    if i >= e {
        lemma_names_past_end(q, i);
        lemma_spans(p, i);
        if spans_from(p, i).len() > 0 {
            let s = spans_from(p, i)[0];
            assert(i <= s.0 < s.1 <= e);
        }
        assert(names_from(p, i) =~= Seq::empty());
    } else {
        let x = crate::bytes::find_from(p, SLASH, i);
        crate::bytes::lemma_find_from(p, SLASH, i);
        assert(x <= e);
        crate::bytes::lemma_find_from_is(q, SLASH, i, x);
        lemma_names_step(p, i);
        lemma_names_step(q, i);
        assert(q.subrange(i, x) =~= p.subrange(i, x));
        let all = spans_from(p, i);
        let rest = spans_from(p, x + 1);
        assert forall|k: int| 0 <= k < rest.len() implies (#[trigger] rest[k]).1 <= e by {
            if skipped(p.subrange(i, x)) {
                assert(rest[k] == all[k]);
            } else {
                assert(rest[k] == all[k + 1]);
            }
        }
        lemma_names_cut(p, e, x + 1);
    }
}

proof fn lemma_body_end(p: Seq<u8>)
    ensures
        lead_len(p) <= body_end(p) <= p.len(),
        forall|k: int| 0 <= k < spans(p).len() ==> (#[trigger] spans(p)[k]).1 <= body_end(p),
        spans(p).len() > 0 && body_end(p) < p.len() ==> p[body_end(p)] == SLASH,
{
    lemma_spans(p, 0);
    let s = spans(p);
    if s.len() > 0 {
        assert forall|k: int| 0 <= k < s.len() implies (#[trigger] s[k]).1 <= body_end(p) by {
            if k < s.len() - 1 {
                assert(s[k].1 < s[s.len() - 1].0);
            }
        }
        assert(s[s.len() - 1].0 < s.last().1);
    }
}

/// The parent of a path has its components but for the last.
pub proof fn law_parent_components(p: Seq<u8>)
    ensures
        parent(p) is Some ==> components(parent(p)->0) == components(p).drop_last(),
        parent(p) is None <==> components(p).len() == 0 || components(p) == seq![seq![SLASH]],
{
    let s = spans(p);
    let n = s.len() as int;
    lemma_spans(p, 0);
    assert(names(p).len() == n);
    let root = seq![seq![SLASH]];
    assert(root.len() == 1 && root[0][0] == SLASH);
    if n >= 2 {
        let a = s[n - 2];
        let e = a.1;
        let q = p.take(e);
        let rest = p.skip(e + 1);
        assert(a.1 < s[n - 1].0);
        assert(p[e] == SLASH);
        assert(p =~= q.push(SLASH) + rest);
        lemma_names_cat(q, rest);
        lemma_names_shift(p, e + 1, 0);
        lemma_spans_at(p, 0, n - 2);
        assert forall|j: int| a.0 <= j < e implies p[j] != SLASH by {}
        crate::bytes::lemma_find_from_is(p, SLASH, a.0, e);
        let tail = spans_from(p, a.0);
        assert(tail == s.skip(n - 2));
        assert(tail == seq![(a.0, e)] + spans_from(p, e + 1));
        assert(tail.len() == 2);
        assert(spans_from(p, e + 1).len() == 1);
        assert(names(rest).len() == 1);
        assert(names(q) =~= names(p).drop_last());
        assert(has_lead(q) == has_lead(p)) by {
            if e == 1 {
                assert(p.subrange(0, 1) =~= q);
            } else {
                assert(q[0] == p[0] && q[1] == p[1]);
            }
        }
        if has_lead(p) {
            assert(s[0].0 < s[0].1 <= e) by {
                if n > 2 {
                    assert(s[0].1 < s[n - 2].0);
                }
            }
            assert(q.take(1) =~= p.take(1));
            assert(components(q) =~= components(p).drop_last());
        }
        assert(components(p).len() >= 2);
    } else {
        lemma_lead_names(p);
        if n == 1 {
            let q = p.take(lead_len(p));
            if has_lead(p) {
                assert(q.take(1) =~= p.take(1));
                assert(components(q) =~= components(p).drop_last());
                assert(components(p).len() == 2);
            } else {
                lemma_names_past_end(q, 0);
                assert(components(q) =~= components(p).drop_last());
                let c = s[0];
                assert(components(p)[0] == p.subrange(c.0, c.1));
                assert(p[c.0] != SLASH);
                assert(components(p)[0][0] == p[c.0]);
            }
        } else if has_lead(p) {
            assert(components(p) =~= seq![p.take(1)]);
            lemma_names_past_end(Seq::empty(), 0);
            if rooted(p) {
                assert(p.take(1) =~= seq![SLASH]);
                assert(components(p) =~= root);
            } else {
                assert(components(p)[0] == p.take(1));
                assert(components(Seq::<u8>::empty()) =~= components(p).drop_last());
                assert(p.take(1)[0] != SLASH);
            }
        } else {
            assert(components(p) =~= Seq::empty());
        }
    }
}

/// The lead of a path alone has no names.
proof fn lemma_lead_names(p: Seq<u8>)
    requires
        p.len() > 0 || !has_lead(p),
    ensures
        has_lead(p) ==> has_lead(p.take(1)) && names(p.take(1)) == Seq::<Seq<u8>>::empty(),
{
    if has_lead(p) {
        let q = p.take(1);
        let e = crate::bytes::find_from(q, SLASH, 0);
        crate::bytes::lemma_find_from(q, SLASH, 0);
        lemma_names_step(q, 0);
        lemma_names_past_end(q, e + 1);
        lemma_names_past_end(q, 1);
        if q[0] != SLASH {
            assert(q.subrange(0, 1) =~= q);
        }
    }
}

/// What is left behind a base with components has the components that follow
/// those of the base, and has neither root nor leading dot.
pub proof fn law_strip_components(p: Seq<u8>, base: Seq<u8>)
    requires
        is_under(p, base),
        components(base).len() > 0,
    ensures
        strip(p, base) is Some,
        components(strip(p, base)->0) == components(p).skip(components(base).len() as int),
        !has_lead(strip(p, base)->0),
        names(strip(p, base)->0) == components(strip(p, base)->0),
{
    let k = components(base).len() as int;
    let r = strip(p, base)->0;
    lemma_under_lead(p, base);
    if k == components(p).len() {
        lemma_names_past_end(r, 0);
        assert(components(r) =~= components(p).skip(k));
    } else {
        let j = k - lead_len(p);
        let s = spans(p);
        let e = body_end(p);
        lemma_body_end(p);
        lemma_spans(p, 0);
        lemma_spans_at(p, 0, j);
        let from = s[j].0;
        assert(s[j].0 < s[j].1);
        assert forall|x: int| 0 <= x < spans_from(p, from).len() implies (
        #[trigger] spans_from(p, from)[x]).1 <= e by {
            assert(spans_from(p, from)[x] == s[x + j]);
        }
        lemma_names_cut(p, e, from);
        assert(p.take(e).skip(from) =~= r);
        lemma_names_shift(p.take(e), from, 0);
        assert(names(r) =~= names(p).skip(j));
        assert(!skipped(p.subrange(from, s[j].1)));
        assert(r[0] == p[from]);
        if r[0] == DOT {
            if s[j].1 == from + 1 {
                assert(p.subrange(from, s[j].1)[0] == DOT);
                assert(false);
            }
            assert(r.len() > 1);
            assert(r[1] == p[from + 1]);
        }
        assert(!has_lead(r));
        assert(components(p).skip(k) =~= names(p).skip(j));
    }
}

/// Joining what is left behind a base to that base gives the path back.
pub proof fn law_strip_then_join(p: Seq<u8>, base: Seq<u8>)
    requires
        is_under(p, base),
        components(base).len() > 0,
    ensures
        same(join(base, strip(p, base)->0), p),
{
    let r = strip(p, base)->0;
    law_strip_components(p, base);
    if base.len() == 0 {
        lemma_names_past_end(base, 0);
    }
    law_join_components(base, r);
    let k = components(base).len() as int;
    assert(components(p).take(k) + components(p).skip(k) =~= components(p));
}

/// With no base, what is left is the same path.
pub proof fn law_strip_nothing(p: Seq<u8>, base: Seq<u8>)
    requires
        components(base).len() == 0,
    ensures
        strip(p, base) is Some,
        same(strip(p, base)->0, p),
        rooted(strip(p, base)->0) == rooted(p),
{
    let e = body_end(p);
    let r = p.take(e);
    assert(components(p).take(0) =~= components(base));
    lemma_body_end(p);
    lemma_spans(p, 0);
    if spans(p).len() > 0 {
        lemma_names_cut(p, e, 0);
        let s = spans(p)[0];
        assert(s.0 < s.1 <= e);
        assert(r[0] == p[0]);
        if has_lead(p) {
            assert(s.0 >= 1) by {
                if s.0 == 0 {
                    assert(p[0] != SLASH);
                    assert(!skipped(p.subrange(0, s.1)));
                    if s.1 == 1 {
                        assert(p.subrange(0, s.1)[0] == DOT);
                    } else {
                        assert(p[1] != SLASH);
                    }
                }
            }
            if e > 1 {
                assert(r[1] == p[1]);
            }
            assert(has_lead(r));
            assert(r.take(1) =~= p.take(1));
        } else {
            if e > 1 {
                assert(r[1] == p[1]);
            } else if r[0] == DOT {
                assert(s.0 == 0 && s.1 == 1);
                assert(p.subrange(0, 1)[0] == DOT);
                assert(false);
            }
            assert(!has_lead(r));
        }
    } else {
        assert(names(p) =~= Seq::empty());
        if has_lead(p) {
            assert(r[0] == p[0] && r.len() == 1);
            assert(r.take(1) =~= p.take(1));
            crate::bytes::lemma_find_from(r, SLASH, 0);
            if r[0] == SLASH {
                crate::bytes::lemma_find_from_is(r, SLASH, 0, 0);
            } else {
                crate::bytes::lemma_find_from_is(r, SLASH, 0, 1);
                assert(skipped(r.subrange(0, 1)));
            }
            lemma_names_step(r, 0);
            lemma_names_past_end(r, 1);
            lemma_names_past_end(r, 2);
        } else {
            lemma_names_past_end(r, 0);
        }
    }
}

/// A text without separators that is not skipped is one name.
pub proof fn law_single_name(name: Seq<u8>)
    requires
        !skipped(name),
        forall|i: int| 0 <= i < name.len() ==> name[i] != SLASH,
    ensures
        names(name) == seq![name],
        !rooted(name),
{
    let n = name.len() as int;
    assert(name.skip(0) =~= name);
    crate::bytes::lemma_find_from_is(name, SLASH, 0, n);
    assert(spans_from(name, n + 1) =~= Seq::empty());
    assert(name.subrange(0, n) =~= name);
    assert(spans_from(name, 0) =~= seq![(0int, n)]);
    assert(names(name) =~= seq![name]);
}

/// The last name of a path to which a name was joined is that name, and its
/// parent is the path to which it was joined.
pub proof fn law_joined_name(p: Seq<u8>, name: Seq<u8>)
    requires
        p.len() > 0,
        !skipped(name),
        name != seq![DOT, DOT],
        forall|i: int| 0 <= i < name.len() ==> name[i] != SLASH,
    ensures
        file_name(join(p, name)) == Some(name),
        parent(join(p, name)) is Some,
        same(parent(join(p, name))->0, p),
{
    let j = join(p, name);
    law_single_name(name);
    law_join_components(p, name);
    law_parent_components(j);
    let c = components(j);
    assert(c =~= components(p).push(name));
    assert(c.drop_last() =~= components(p));
    assert(names(j).len() > 0) by {
        if names(j).len() == 0 {
            assert(has_lead(j));
            assert(c =~= seq![j.take(1)]);
            assert(name == j.take(1));
            assert(components(p).len() == 0);
            assert(has_lead(p)) by {
                assert(j[0] == p[0]);
                assert(name[0] == p[0]);
                if p[0] == SLASH {
                } else {
                    assert(name =~= seq![DOT]);
                }
            }
        }
    }
    assert(names(j).last() == c.last());
    if c.len() == 1 {
        assert(c[0][0] == name[0]);
        assert(name[0] != SLASH);
        assert(seq![seq![SLASH]][0][0] == SLASH);
    } else if c == seq![seq![SLASH]] {
        assert(c.len() == 1);
    }
}

/// What is joined behind a path lies under it, and is what is left when the
/// path is taken away.
pub proof fn law_joined_lies_under(p: Seq<u8>, q: Seq<u8>)
    requires
        components(p).len() > 0,
        !rooted(q),
    ensures
        is_under(join(p, q), p),
        strip(join(p, q), p) is Some,
        components(strip(join(p, q), p)->0) == names(q),
{
    if p.len() == 0 {
        lemma_names_past_end(p, 0);
    }
    law_join_components(p, q);
    let n = components(p).len() as int;
    assert((components(p) + names(q)).take(n) =~= components(p));
    assert((components(p) + names(q)).skip(n) =~= names(q));
    law_strip_components(join(p, q), p);
}

/// A path lies under another exactly where it has its components and perhaps
/// more behind them; only then something is left of it.
pub proof fn law_lies_under(p: Seq<u8>, base: Seq<u8>)
    ensures
        is_under(p, base) <==> exists|rest: Seq<Seq<u8>>|
            #![trigger components(base) + rest]
            components(p) == components(base) + rest,
        strip(p, base) is Some <==> is_under(p, base),
{
    let n = components(base).len() as int;
    if is_under(p, base) {
        assert(components(p) =~= components(base) + components(p).skip(n));
    }
    if exists|rest: Seq<Seq<u8>>|
        #![trigger components(base) + rest]
        components(p) == components(base) + rest {
        let rest = choose|rest: Seq<Seq<u8>>|
            #![trigger components(base) + rest]
            components(p) == components(base) + rest;
        assert(components(p).take(n) =~= components(base));
    }
}

/// The path that one comes to from `top` by one name after the other.
pub open spec fn descend(top: Seq<u8>, ns: Seq<Seq<u8>>) -> Seq<u8>
    decreases ns.len(),
{
    if ns.len() == 0 {
        top
    } else {
        join(descend(top, ns.drop_last()), ns.last())
    }
}

/// Going down by several names is the same as joining them all at once.
pub proof fn law_descend(top: Seq<u8>, ns: Seq<Seq<u8>>)
    requires
        ns.len() > 0,
        forall|i: int|
            0 <= i < ns.len() ==> (#[trigger] ns[i]).len() > 0 && !rooted(ns[i]),
    ensures
        descend(top, ns) == join(top, descend(Seq::empty(), ns)),
        descend(Seq::empty(), ns).len() > 0,
        !rooted(descend(Seq::empty(), ns)),
    decreases ns.len(),
{
    let n = ns.last();
    let d = ns.drop_last();
    assert(n == ns[ns.len() - 1]);
    if d.len() == 0 {
        reveal_with_fuel(descend, 2);
        assert(Seq::<u8>::empty() + n =~= n);
    } else {
        assert forall|i: int| 0 <= i < d.len() implies (#[trigger] d[i]).len() > 0 && !rooted(
            d[i],
        ) by {
            assert(d[i] == ns[i]);
        }
        law_descend(top, d);
        let x = descend(Seq::empty(), d);
        let xn = join(x, n);
        assert(xn[0] == x[0]);
        assert(join(top, x).last() == x.last());
        assert(join(join(top, x), n) =~= join(top, xn));
    }
}

} // verus!
