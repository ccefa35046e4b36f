//! Span trees from the spans of a trace: one span per id (the last one recorded under it), ordered
//! by id, each placed under the span whose id is its parent id.

use vstd::prelude::*;
use std::rc::Rc;

use crate::types::Span;

verus! {

broadcast use vstd::std_specs::vec::group_vec_axioms;

/// Byte strings compare as `Vec<u8>` does: byte by byte, a prefix first.
pub open spec fn bytes_lt(a: Seq<u8>, b: Seq<u8>) -> bool
    decreases a.len(),
{
    if a.len() == 0 {
        b.len() > 0
    } else if b.len() == 0 {
        false
    } else if a[0] != b[0] {
        a[0] < b[0]
    } else {
        bytes_lt(a.drop_first(), b.drop_first())
    }
}

proof fn lemma_bytes_lt_irreflexive(a: Seq<u8>)
    ensures
        !bytes_lt(a, a),
    decreases a.len(),
{
    if a.len() > 0 {
        lemma_bytes_lt_irreflexive(a.drop_first());
    }
}

proof fn lemma_bytes_lt_transitive(a: Seq<u8>, b: Seq<u8>, c: Seq<u8>)
    requires
        bytes_lt(a, b),
        bytes_lt(b, c),
    ensures
        bytes_lt(a, c),
    decreases a.len(),
{
    if a.len() > 0 && b.len() > 0 && c.len() > 0 && a[0] == b[0] && b[0] == c[0] {
        lemma_bytes_lt_transitive(a.drop_first(), b.drop_first(), c.drop_first());
    }
}

proof fn lemma_bytes_lt_total(a: Seq<u8>, b: Seq<u8>)
    requires
        a != b,
    ensures
        bytes_lt(a, b) || bytes_lt(b, a),
    decreases a.len(),
{
    if a.len() > 0 && b.len() > 0 && a[0] == b[0] {
        if a.drop_first() == b.drop_first() {
            assert(a =~= seq![a[0]] + a.drop_first());
            assert(b =~= seq![b[0]] + b.drop_first());
        }
        lemma_bytes_lt_total(a.drop_first(), b.drop_first());
    } else if a.len() == 0 && b.len() == 0 {
        assert(a =~= b);
    }
}

/// Whether `a` comes before `b` as byte strings compare.
fn bytes_less(a: &Vec<u8>, b: &Vec<u8>) -> (r: bool)
    ensures
        r == bytes_lt(a@, b@),
{
    let mut i: usize = 0;
    assert(a@.skip(0) =~= a@);
    assert(b@.skip(0) =~= b@);
    while i < a.len() && i < b.len()
        invariant
            i <= a@.len(),
            i <= b@.len(),
            bytes_lt(a@, b@) == bytes_lt(a@.skip(i as int), b@.skip(i as int)),
        decreases a@.len() - i,
    {
        assert(a@.skip(i as int)[0] == a@[i as int]);
        assert(b@.skip(i as int)[0] == b@[i as int]);
        if a[i] != b[i] {
            return a[i] < b[i];
        }
        assert(a@.skip(i as int).drop_first() =~= a@.skip(i + 1));
        assert(b@.skip(i as int).drop_first() =~= b@.skip(i + 1));
        i += 1;
    }
    i == a.len() && i < b.len()
}

/// The spans are in increasing order of id, so no id is there twice.
pub open spec fn ids_sorted(s: Seq<Span>) -> bool {
    forall|i: int, j: int| 0 <= i < j < s.len() ==> bytes_lt(s[i].span_id@, s[j].span_id@)
}

/// Number of spans whose id comes before `id`.
pub open spec fn ids_below(s: Seq<Span>, id: Seq<u8>) -> nat
    decreases s.len(),
{
    if s.len() == 0 {
        0
    } else {
        ids_below(s.drop_last(), id) + if bytes_lt(s.last().span_id@, id) { 1nat } else { 0nat }
    }
}

/// Position of the first span with the given id.
pub open spec fn id_index(s: Seq<Span>, id: Seq<u8>) -> Option<int>
    decreases s.len(),
{
    if s.len() == 0 {
        None
    } else {
        match id_index(s.drop_last(), id) {
            Some(k) => Some(k),
            None => if s.last().span_id@ == id { Some(s.len() - 1) } else { None },
        }
    }
}

/// `s` with `x` stored under its id, as inserting into a map ordered by id does: a span with
/// the same id is replaced, or else `x` goes after the spans whose ids come before its id.
pub open spec fn by_id_insert(s: Seq<Span>, x: Span) -> Seq<Span> {
    match id_index(s, x.span_id@) {
        Some(k) => s.update(k, x),
        None => s.insert(ids_below(s, x.span_id@) as int, x),
    }
}

/// The spans stored by id in turn: one span per id, the last one recorded under it, in order
/// of id.
pub open spec fn latest_by_id(spans: Seq<Span>) -> Seq<Span>
    decreases spans.len(),
{
    if spans.len() == 0 {
        Seq::empty()
    } else {
        by_id_insert(latest_by_id(spans.drop_last()), spans.last())
    }
}

proof fn lemma_ids_below_prefix(s: Seq<Span>, id: Seq<u8>, lb: int)
    requires
        0 <= lb <= s.len(),
        forall|k: int| 0 <= k < lb ==> bytes_lt(#[trigger] s[k].span_id@, id),
        forall|k: int| lb <= k < s.len() ==> !bytes_lt(#[trigger] s[k].span_id@, id),
    ensures
        ids_below(s, id) == lb,
    decreases s.len(),
{
    if s.len() > 0 {
        if s.len() > lb {
            lemma_ids_below_prefix(s.drop_last(), id, lb);
        } else {
            lemma_ids_below_prefix(s.drop_last(), id, lb - 1);
        }
    }
}

proof fn lemma_id_index_of(s: Seq<Span>, id: Seq<u8>)
    ensures
        match id_index(s, id) {
            Some(k) => 0 <= k < s.len() && s[k].span_id@ == id && forall|j: int| 0 <= j < k ==> s[j].span_id@ != id,
            None => forall|j: int| 0 <= j < s.len() ==> s[j].span_id@ != id,
        },
    decreases s.len(),
{
    if s.len() > 0 {
        lemma_id_index_of(s.drop_last(), id);
        assert forall|j: int| 0 <= j < s.len() - 1 implies s[j] == s.drop_last()[j] by {}
    }
}

/// Position of the first span, in id order, whose id does not come before `id`.
fn lower_bound(s: &Vec<Span>, id: &Vec<u8>) -> (r: usize)
    requires
        ids_sorted(s@),
    ensures
        r <= s@.len(),
        forall|k: int| 0 <= k < r ==> bytes_lt(#[trigger] s@[k].span_id@, id@),
        forall|k: int| r <= k < s@.len() ==> !bytes_lt(#[trigger] s@[k].span_id@, id@),
{
    let mut lo: usize = 0;
    let mut hi: usize = s.len();
    while lo < hi
        invariant
            ids_sorted(s@),
            lo <= hi <= s@.len(),
            forall|k: int| 0 <= k < lo ==> bytes_lt(#[trigger] s@[k].span_id@, id@),
            forall|k: int| hi <= k < s@.len() ==> !bytes_lt(#[trigger] s@[k].span_id@, id@),
        decreases hi - lo,
    {
        let mid = lo + (hi - lo) / 2;
        if bytes_less(&s[mid].span_id, id) {
            assert forall|k: int| 0 <= k < mid + 1 implies bytes_lt(#[trigger] s@[k].span_id@, id@) by {
                if k < mid {
                    lemma_bytes_lt_transitive(s@[k].span_id@, s@[mid as int].span_id@, id@);
                }
            }
            lo = mid + 1;
        } else {
            assert forall|k: int| mid <= k < s@.len() implies !bytes_lt(#[trigger] s@[k].span_id@, id@) by {
                if k > mid && bytes_lt(s@[k].span_id@, id@) {
                    lemma_bytes_lt_transitive(s@[mid as int].span_id@, s@[k].span_id@, id@);
                }
            }
            hi = mid;
        }
    }
    lo
}

/// Position of the span with the given id.
pub fn find_by_id(s: &Vec<Span>, id: &Vec<u8>) -> (r: Option<usize>)
    requires
        ids_sorted(s@),
    ensures
        match r {
            Some(k) => id_index(s@, id@) == Some(k as int),
            None => id_index(s@, id@) is None,
        },
        r matches Some(k) ==> k < s@.len(),
{
    proof {
        lemma_id_index_of(s@, id@);
    }
    let lb = lower_bound(s, id);
    if lb < s.len() && crate::types::bytes_equal(&s[lb].span_id, id) {
        proof {
            assert forall|j: int| 0 <= j < lb implies s@[j].span_id@ != id@ by {
                lemma_bytes_lt_irreflexive(id@);
            }
            match id_index(s@, id@) {
                Some(k) => {
                    if k > lb {
                        assert(s@[k].span_id@ != id@);
                    }
                },
                None => {},
            }
        }
        Some(lb)
    } else {
        proof {
            assert forall|j: int| 0 <= j < s@.len() implies s@[j].span_id@ != id@ by {
                if j < lb {
                    lemma_bytes_lt_irreflexive(id@);
                } else if j > lb && s@[j].span_id@ == id@ {
                    lemma_bytes_lt_total(s@[lb as int].span_id@, id@);
                    assert(bytes_lt(s@[lb as int].span_id@, s@[j].span_id@));
                    lemma_bytes_lt_transitive(id@, s@[lb as int].span_id@, id@);
                    lemma_bytes_lt_irreflexive(id@);
                }
            }
        }
        None
    }
}

/// Stores `x` under its id, keeping the spans in order of id.
fn insert_by_id(s: &mut Vec<Span>, x: Span)
    requires
        ids_sorted(old(s)@),
    ensures
        final(s)@ == by_id_insert(old(s)@, x),
        ids_sorted(final(s)@),
{
    proof {
        lemma_id_index_of(s@, x.span_id@);
    }
    let lb = lower_bound(s, &x.span_id);
    proof {
        lemma_ids_below_prefix(s@, x.span_id@, lb as int);
    }
    if lb < s.len() && crate::types::bytes_equal(&s[lb].span_id, &x.span_id) {
        proof {
            assert forall|j: int| 0 <= j < lb implies s@[j].span_id@ != x.span_id@ by {
                lemma_bytes_lt_irreflexive(x.span_id@);
            }
            match id_index(s@, x.span_id@) {
                Some(k) => {
                    if k > lb {
                        assert(s@[k].span_id@ != x.span_id@);
                    }
                },
                None => {},
            }
        }
        s.set(lb, x);
    } else {
        let ghost old_s = s@;
        proof {
            assert forall|j: int| 0 <= j < old_s.len() implies old_s[j].span_id@ != x.span_id@ by {
                if j < lb {
                    lemma_bytes_lt_irreflexive(x.span_id@);
                } else if j > lb && old_s[j].span_id@ == x.span_id@ {
                    lemma_bytes_lt_total(old_s[lb as int].span_id@, x.span_id@);
                    assert(bytes_lt(old_s[lb as int].span_id@, old_s[j].span_id@));
                    lemma_bytes_lt_transitive(x.span_id@, old_s[lb as int].span_id@, x.span_id@);
                    lemma_bytes_lt_irreflexive(x.span_id@);
                }
            }
            assert forall|j: int| lb <= j < old_s.len() implies bytes_lt(x.span_id@, #[trigger] old_s[j].span_id@) by {
                lemma_bytes_lt_total(old_s[j].span_id@, x.span_id@);
            }
        }
        s.insert(lb, x);
        proof {
            assert forall|i: int, j: int| 0 <= i < j < s@.len() implies bytes_lt(s@[i].span_id@, s@[j].span_id@) by {
                if j < lb {
                    assert(s@[i] == old_s[i]);
                    assert(s@[j] == old_s[j]);
                } else if j == lb {
                    assert(s@[i] == old_s[i]);
                } else if i < lb {
                    assert(s@[i] == old_s[i]);
                    assert(s@[j] == old_s[j - 1]);
                } else if i == lb {
                    assert(s@[j] == old_s[j - 1]);
                } else {
                    assert(s@[i] == old_s[i - 1]);
                    assert(s@[j] == old_s[j - 1]);
                }
            }
        }
    }
}

/// One span per id, the last one recorded under it, in order of id.
pub fn spans_by_id(spans: Vec<Span>) -> (r: Vec<Span>)
    ensures
        r@ == latest_by_id(spans@),
        ids_sorted(r@),
{
    let ghost g = spans@;
    let mut out: Vec<Span> = Vec::new();
    for x in iter: spans.into_iter()
        invariant
            iter.seq() == g,
            out@ == latest_by_id(g.take(iter.index() as int)),
            ids_sorted(out@),
    {
        proof {
            assert(g.take(iter.index() + 1).drop_last() =~= g.take(iter.index() as int));
        }
        insert_by_id(&mut out, x);
    }
    assert(g.take(g.len() as int) =~= g);
    out
}

/// No two spans have the same id.
pub open spec fn ids_distinct(s: Seq<Span>) -> bool {
    forall|i: int, j: int| 0 <= i < j < s.len() ==> (#[trigger] s[i]).span_id@ != (#[trigger] s[j]).span_id@
}

/// Every id recorded in `spans` is the id of a span of `u`.
pub open spec fn keeps_ids(spans: Seq<Span>, u: Seq<Span>) -> bool {
    forall|i: int| 0 <= i < spans.len() ==> exists|k: int| 0 <= k < u.len()
        && (#[trigger] u[k]).span_id@ == (#[trigger] spans[i]).span_id@
}

/// The `i`-th span is the last one recorded under its id.
pub open spec fn last_under_id(spans: Seq<Span>, i: int) -> bool {
    forall|j: int| i < j < spans.len() ==> (#[trigger] spans[j]).span_id@ != spans[i].span_id@
}

/// Each span of `u` is the last one recorded under its id in `spans`.
pub open spec fn keeps_last(spans: Seq<Span>, u: Seq<Span>) -> bool {
    forall|k: int| 0 <= k < u.len() ==> exists|i: int| 0 <= i < spans.len()
        && #[trigger] spans[i] == #[trigger] u[k] && last_under_id(spans, i)
}

proof fn lemma_update_distinct(up: Seq<Span>, q: int, x: Span)
    requires
        ids_distinct(up),
        0 <= q < up.len(),
        up[q].span_id@ == x.span_id@,
    ensures
        ids_distinct(up.update(q, x)),
{
    let u = up.update(q, x);
    assert forall|i: int, j: int| 0 <= i < j < u.len() implies (#[trigger] u[i]).span_id@ != (#[trigger] u[j]).span_id@ by {
        assert(up[i].span_id@ != up[j].span_id@);
    }
}

proof fn lemma_update_keeps_ids(spans: Seq<Span>, up: Seq<Span>, q: int)
    requires
        spans.len() > 0,
        keeps_ids(spans.drop_last(), up),
        0 <= q < up.len(),
        up[q].span_id@ == spans.last().span_id@,
    ensures
        keeps_ids(spans, up.update(q, spans.last())),
{
    let p = spans.drop_last();
    let n = spans.len() - 1;
    let u = up.update(q, spans.last());
    assert forall|i: int| 0 <= i < spans.len() implies exists|k: int| 0 <= k < u.len()
        && (#[trigger] u[k]).span_id@ == (#[trigger] spans[i]).span_id@ by {
        if i == n {
            assert(u[q].span_id@ == spans[i].span_id@);
        } else {
            assert(p[i] == spans[i]);
            let k = choose|k: int| 0 <= k < up.len() && (#[trigger] up[k]).span_id@ == (#[trigger] p[i]).span_id@;
            assert(u[k].span_id@ == up[k].span_id@);
        }
    }
}

#[verifier::rlimit(40)]
proof fn lemma_update_keeps_last(spans: Seq<Span>, up: Seq<Span>, q: int)
    requires
        spans.len() > 0,
        ids_distinct(up),
        keeps_last(spans.drop_last(), up),
        0 <= q < up.len(),
        up[q].span_id@ == spans.last().span_id@,
    ensures
        keeps_last(spans, up.update(q, spans.last())),
{
    let p = spans.drop_last();
    let n = spans.len() - 1;
    let u = up.update(q, spans.last());
    assert forall|k: int| 0 <= k < u.len() implies exists|i: int| 0 <= i < spans.len()
        && #[trigger] spans[i] == #[trigger] u[k] && last_under_id(spans, i) by {
        if k == q {
            assert(spans[n] == u[k]);
            assert(last_under_id(spans, n));
        } else {
            let i = choose|i: int| 0 <= i < p.len() && #[trigger] p[i] == #[trigger] up[k] && last_under_id(p, i);
            assert(spans[i] == u[k]);
            if k < q {
                assert(up[k].span_id@ != up[q].span_id@);
            } else {
                assert(up[q].span_id@ != up[k].span_id@);
            }
            assert forall|j: int| i < j < spans.len() implies (#[trigger] spans[j]).span_id@ != spans[i].span_id@ by {
                if j < n {
                    assert(p[j] == spans[j]);
                }
            }
        }
    }
}

proof fn lemma_latest_step_update(spans: Seq<Span>, up: Seq<Span>, q: int)
    requires
        spans.len() > 0,
        ids_distinct(up),
        keeps_ids(spans.drop_last(), up),
        keeps_last(spans.drop_last(), up),
        0 <= q < up.len(),
        up[q].span_id@ == spans.last().span_id@,
    ensures
        ids_distinct(up.update(q, spans.last())),
        keeps_ids(spans, up.update(q, spans.last())),
        keeps_last(spans, up.update(q, spans.last())),
{
    lemma_update_distinct(up, q, spans.last());
    lemma_update_keeps_ids(spans, up, q);
    lemma_update_keeps_last(spans, up, q);
}

#[verifier::rlimit(60)]
proof fn lemma_latest_step_insert(spans: Seq<Span>, up: Seq<Span>, b: int)
    requires
        spans.len() > 0,
        ids_distinct(up),
        keeps_ids(spans.drop_last(), up),
        keeps_last(spans.drop_last(), up),
        0 <= b <= up.len(),
        forall|j: int| 0 <= j < up.len() ==> (#[trigger] up[j]).span_id@ != spans.last().span_id@,
    ensures
        ids_distinct(up.insert(b, spans.last())),
        keeps_ids(spans, up.insert(b, spans.last())),
        keeps_last(spans, up.insert(b, spans.last())),
{
    let p = spans.drop_last();
    let x = spans.last();
    let n = spans.len() - 1;
    let u = up.insert(b, x);
    assert(spans[n] == x);
    assert forall|i: int, j: int| 0 <= i < j < u.len() implies (#[trigger] u[i]).span_id@ != (#[trigger] u[j]).span_id@ by {
        if j < b {
            assert(u[i] == up[i] && u[j] == up[j]);
        } else if j == b {
            assert(u[i] == up[i]);
        } else if i < b {
            assert(u[i] == up[i] && u[j] == up[j - 1]);
        } else if i == b {
            assert(u[j] == up[j - 1]);
        } else {
            assert(u[i] == up[i - 1] && u[j] == up[j - 1]);
        }
    }
    assert forall|i: int| 0 <= i < spans.len() implies exists|k: int| 0 <= k < u.len()
        && (#[trigger] u[k]).span_id@ == (#[trigger] spans[i]).span_id@ by {
        if i == n {
            assert(u[b] == spans[i]);
        } else {
            assert(p[i] == spans[i]);
            let k = choose|k: int| 0 <= k < up.len() && (#[trigger] up[k]).span_id@ == (#[trigger] p[i]).span_id@;
            if k < b {
                assert(u[k] == up[k]);
            } else {
                assert(u[k + 1] == up[k]);
            }
        }
    }
    assert forall|k: int| 0 <= k < u.len() implies exists|i: int| 0 <= i < spans.len()
        && #[trigger] spans[i] == #[trigger] u[k] && last_under_id(spans, i) by {
        if k == b {
            assert(spans[n] == u[k]);
            assert(last_under_id(spans, n));
        } else {
            let k2 = if k < b { k } else { k - 1 };
            assert(u[k] == up[k2]);
            let i = choose|i: int| 0 <= i < p.len() && #[trigger] p[i] == #[trigger] up[k2] && last_under_id(p, i);
            assert(spans[i] == u[k]);
            assert forall|j: int| i < j < spans.len() implies (#[trigger] spans[j]).span_id@ != spans[i].span_id@ by {
                if j < n {
                    assert(p[j] == spans[j]);
                }
            }
        }
    }
}

/// Storing the spans by id keeps one span per id: every id recorded is kept, no id twice, and
/// the span kept under an id is the last one recorded under it.
pub proof fn lemma_latest_by_id(spans: Seq<Span>)
    ensures
        ids_distinct(latest_by_id(spans)),
        keeps_ids(spans, latest_by_id(spans)),
        keeps_last(spans, latest_by_id(spans)),
    decreases spans.len(),
{
    if spans.len() > 0 {
        let x = spans.last();
        let up = latest_by_id(spans.drop_last());
        lemma_latest_by_id(spans.drop_last());
        lemma_id_index_of(up, x.span_id@);
        match id_index(up, x.span_id@) {
            Some(q) => {
                lemma_latest_step_update(spans, up, q);
            },
            None => {
                lemma_ids_below_le(up, x.span_id@);
                lemma_latest_step_insert(spans, up, ids_below(up, x.span_id@) as int);
            },
        }
    }
}

proof fn lemma_ids_below_le(s: Seq<Span>, id: Seq<u8>)
    ensures
        ids_below(s, id) <= s.len(),
    decreases s.len(),
{
    if s.len() > 0 {
        lemma_ids_below_le(s.drop_last(), id);
    }
}

/// Position of the span whose id is the parent id of the `i`-th span.
pub open spec fn parent_of(s: Seq<Span>, i: int) -> Option<int> {
    id_index(s, s[i].parent_span_id@)
}

/// The position of each span's parent.
pub open spec fn parents(s: Seq<Span>) -> Seq<Option<int>> {
    Seq::new(s.len(), |i: int| parent_of(s, i))
}

/// Every parent position is a position.
pub open spec fn parents_valid(par: Seq<Option<int>>) -> bool {
    forall|i: int| 0 <= i < par.len() ==> (#[trigger] par[i] matches Some(x) ==> 0 <= x < par.len())
}

/// The ancestor `d` steps up from `i`.
pub open spec fn anc(par: Seq<Option<int>>, i: int, d: nat) -> Option<int>
    decreases d,
{
    if d == 0 {
        Some(i)
    } else {
        match anc(par, i, (d - 1) as nat) {
            Some(j) => if 0 <= j < par.len() { par[j] } else { None },
            None => None,
        }
    }
}

/// `j` is `i` or below it.
pub open spec fn in_subtree(par: Seq<Option<int>>, j: int, i: int) -> bool {
    exists|d: nat| #[trigger] anc(par, j, d) == Some(i)
}

/// The ancestor `d` steps up from `i` is a span without a parent.
pub open spec fn rooted_at(par: Seq<Option<int>>, i: int, d: nat) -> bool {
    anc(par, i, d) matches Some(r) && 0 <= r < par.len() && par[r] is None
}

/// The positions, below `n`, of the spans whose parent is at `i`, in order.
pub open spec fn kids_below(par: Seq<Option<int>>, i: int, n: int) -> Seq<int>
    decreases n,
{
    if n <= 0 {
        Seq::empty()
    } else if par[n - 1] == Some(i) {
        kids_below(par, i, n - 1).push(n - 1)
    } else {
        kids_below(par, i, n - 1)
    }
}

/// The positions of the spans whose parent is at `i`, in order.
pub open spec fn kids(par: Seq<Option<int>>, i: int) -> Seq<int> {
    kids_below(par, i, par.len() as int)
}

/// The positions, below `n`, of the spans without a parent, in order.
pub open spec fn roots_below(par: Seq<Option<int>>, n: int) -> Seq<int>
    decreases n,
{
    if n <= 0 {
        Seq::empty()
    } else if par[n - 1] is None {
        roots_below(par, n - 1).push(n - 1)
    } else {
        roots_below(par, n - 1)
    }
}

/// The positions of the spans without a parent, in order.
pub open spec fn roots(par: Seq<Option<int>>) -> Seq<int> {
    roots_below(par, par.len() as int)
}

proof fn lemma_kids_below(par: Seq<Option<int>>, i: int, n: int)
    requires
        0 <= n <= par.len(),
    ensures
        forall|m: int| 0 <= m < kids_below(par, i, n).len() ==> {
            &&& 0 <= #[trigger] kids_below(par, i, n)[m] < n
            &&& par[kids_below(par, i, n)[m]] == Some(i)
        },
        forall|m1: int, m2: int| 0 <= m1 < m2 < kids_below(par, i, n).len()
            ==> kids_below(par, i, n)[m1] < kids_below(par, i, n)[m2],
        forall|k: int| 0 <= k < n && par[k] == Some(i) ==> exists|m: int| 0 <= m < kids_below(par, i, n).len()
            && #[trigger] kids_below(par, i, n)[m] == k,
    decreases n,
{
    if n > 0 {
        lemma_kids_below(par, i, n - 1);
        let prev = kids_below(par, i, n - 1);
        if par[n - 1] == Some(i) {
            assert forall|k: int| 0 <= k < n && par[k] == Some(i) implies exists|m: int| 0 <= m < kids_below(par, i, n).len()
                && #[trigger] kids_below(par, i, n)[m] == k by {
                if k == n - 1 {
                    assert(kids_below(par, i, n)[prev.len() as int] == k);
                } else {
                    let m = choose|m: int| 0 <= m < prev.len() && #[trigger] prev[m] == k;
                    assert(kids_below(par, i, n)[m] == k);
                }
            }
        } else {
            assert forall|k: int| 0 <= k < n && par[k] == Some(i) implies exists|m: int| 0 <= m < kids_below(par, i, n).len()
                && #[trigger] kids_below(par, i, n)[m] == k by {
                let m = choose|m: int| 0 <= m < prev.len() && #[trigger] prev[m] == k;
                assert(kids_below(par, i, n)[m] == k);
            }
        }
    }
}

proof fn lemma_roots_below(par: Seq<Option<int>>, n: int)
    requires
        0 <= n <= par.len(),
    ensures
        forall|m: int| 0 <= m < roots_below(par, n).len() ==> {
            &&& 0 <= #[trigger] roots_below(par, n)[m] < n
            &&& par[roots_below(par, n)[m]] is None
        },
        forall|m1: int, m2: int| 0 <= m1 < m2 < roots_below(par, n).len()
            ==> roots_below(par, n)[m1] < roots_below(par, n)[m2],
    decreases n,
{
    if n > 0 {
        lemma_roots_below(par, n - 1);
    }
}

proof fn lemma_anc_compose(par: Seq<Option<int>>, i: int, a: nat, b: nat)
    ensures
        anc(par, i, a + b) == (match anc(par, i, a) {
            Some(j) => anc(par, j, b),
            None => None,
        }),
    decreases b,
{
    if b > 0 {
        lemma_anc_compose(par, i, a, (b - 1) as nat);
        assert((a + b - 1) as nat == a + (b - 1) as nat);
    } else {
        assert(a + b == a);
    }
}

proof fn lemma_anc_prefix(par: Seq<Option<int>>, i: int, d: nat, t: nat)
    requires
        anc(par, i, d) is Some,
        t <= d,
    ensures
        anc(par, i, t) is Some,
    decreases d,
{
    if t < d {
        lemma_anc_prefix(par, i, (d - 1) as nat, t);
    }
}

proof fn lemma_anc_in_range(par: Seq<Option<int>>, i: int, d: nat)
    requires
        parents_valid(par),
        0 <= i < par.len(),
    ensures
        anc(par, i, d) matches Some(x) ==> 0 <= x < par.len(),
    decreases d,
{
    if d > 0 {
        lemma_anc_in_range(par, i, (d - 1) as nat);
    }
}

/// On a cycle of parents every span has a parent.
proof fn lemma_cycle(par: Seq<Option<int>>, x: int, c: nat, t: nat)
    requires
        parents_valid(par),
        0 <= x < par.len(),
        c >= 1,
        anc(par, x, c) == Some(x),
    ensures
        anc(par, x, t) matches Some(y) && 0 <= y < par.len() && par[y] is Some,
    decreases t,
{
    if t < c {
        lemma_anc_prefix(par, x, c, t);
        lemma_anc_prefix(par, x, c, t + 1);
        lemma_anc_in_range(par, x, t);
    } else {
        lemma_anc_compose(par, x, c, (t - c) as nat);
        assert(c + (t - c) as nat == t);
        lemma_cycle(par, x, c, (t - c) as nat);
    }
}

proof fn lemma_no_self_cycle(par: Seq<Option<int>>, i: int, d: nat, c: nat)
    requires
        parents_valid(par),
        0 <= i < par.len(),
        rooted_at(par, i, d),
        c >= 1,
    ensures
        anc(par, i, c) != Some(i),
{
    if anc(par, i, c) == Some(i) {
        lemma_cycle(par, i, c, d);
    }
}

proof fn lemma_chain_distinct(par: Seq<Option<int>>, i: int, d: nat, a: nat, b: nat)
    requires
        parents_valid(par),
        0 <= i < par.len(),
        rooted_at(par, i, d),
        a < b <= d,
    ensures
        anc(par, i, a) != anc(par, i, b),
{
    lemma_anc_prefix(par, i, d, a);
    if anc(par, i, a) == anc(par, i, b) {
        let x = anc(par, i, a)->0;
        lemma_anc_in_range(par, i, a);
        lemma_anc_compose(par, i, a, (b - a) as nat);
        assert(a + (b - a) as nat == b);
        lemma_anc_compose(par, i, a, (d - a) as nat);
        assert(a + (d - a) as nat == d);
        lemma_cycle(par, x, (b - a) as nat, (d - a) as nat);
    }
}

/// A span with a root `d` steps up is less than the number of spans away from it.
proof fn lemma_depth_bound(par: Seq<Option<int>>, i: int, d: nat)
    requires
        parents_valid(par),
        0 <= i < par.len(),
        rooted_at(par, i, d),
    ensures
        d < par.len(),
{
    let chain = Seq::new(d + 1, |t: int| anc(par, i, t as nat)->0);
    assert forall|a: int, b: int| 0 <= a < chain.len() && 0 <= b < chain.len() && a != b implies chain[a] != chain[b] by {
        lemma_anc_prefix(par, i, d, a as nat);
        lemma_anc_prefix(par, i, d, b as nat);
        if a < b {
            lemma_chain_distinct(par, i, d, a as nat, b as nat);
        } else {
            lemma_chain_distinct(par, i, d, b as nat, a as nat);
        }
    }
    assert(chain.no_duplicates());
    chain.unique_seq_to_set();
    assert forall|x: int| chain.to_set().contains(x) implies vstd::set_lib::set_int_range(0, par.len() as int).contains(x) by {
        let t = choose|t: int| 0 <= t < chain.len() && chain[t] == x;
        lemma_anc_prefix(par, i, d, t as nat);
        lemma_anc_in_range(par, i, t as nat);
    }
    vstd::set_lib::lemma_int_range(0, par.len() as int);
    vstd::set_lib::lemma_len_subset(chain.to_set(), vstd::set_lib::set_int_range(0, par.len() as int));
}

proof fn lemma_kid_rooted(par: Seq<Option<int>>, i: int, k: int, d: nat)
    requires
        0 <= k < par.len(),
        par[k] == Some(i),
        rooted_at(par, i, d),
    ensures
        rooted_at(par, k, d + 1),
{
    lemma_anc_compose(par, k, 1, d);
    assert(1 + d == d + 1);
    assert(anc(par, k, 1) == Some(i)) by {
        assert(anc(par, k, 0) == Some(k));
    }
}

proof fn lemma_parent_not_below_kid(par: Seq<Option<int>>, i: int, k: int, d: nat)
    requires
        parents_valid(par),
        0 <= k < par.len(),
        par[k] == Some(i),
        rooted_at(par, i, d),
    ensures
        !in_subtree(par, i, k),
{
    lemma_kid_rooted(par, i, k, d);
    if in_subtree(par, i, k) {
        let e = choose|e: nat| #[trigger] anc(par, i, e) == Some(k);
        lemma_anc_compose(par, k, 1, e);
        assert(anc(par, k, 1) == Some(i)) by {
            assert(anc(par, k, 0) == Some(k));
        }
        lemma_no_self_cycle(par, k, d + 1, 1 + e);
    }
}

proof fn lemma_siblings_apart(par: Seq<Option<int>>, i: int, k1: int, k2: int, d: nat, j: int)
    requires
        parents_valid(par),
        0 <= i < par.len(),
        0 <= k1 < par.len(),
        0 <= k2 < par.len(),
        k1 != k2,
        par[k1] == Some(i),
        par[k2] == Some(i),
        rooted_at(par, i, d),
    ensures
        !(in_subtree(par, j, k1) && in_subtree(par, j, k2)),
{
    if in_subtree(par, j, k1) && in_subtree(par, j, k2) {
        let a = choose|a: nat| #[trigger] anc(par, j, a) == Some(k1);
        let b = choose|b: nat| #[trigger] anc(par, j, b) == Some(k2);
        assert(anc(par, k1, 1) == Some(i)) by {
            assert(anc(par, k1, 0) == Some(k1));
        }
        assert(anc(par, k2, 1) == Some(i)) by {
            assert(anc(par, k2, 0) == Some(k2));
        }
        if a < b {
            lemma_anc_compose(par, j, a, (b - a) as nat);
            assert(a + (b - a) as nat == b);
            lemma_anc_compose(par, k1, (b - a) as nat, 1);
            lemma_anc_compose(par, k1, 1, (b - a) as nat);
            assert((b - a) as nat + 1 == 1 + (b - a) as nat);
            lemma_no_self_cycle(par, i, d, (b - a) as nat);
        } else if b < a {
            lemma_anc_compose(par, j, b, (a - b) as nat);
            assert(b + (a - b) as nat == a);
            lemma_anc_compose(par, k2, (a - b) as nat, 1);
            lemma_anc_compose(par, k2, 1, (a - b) as nat);
            assert((a - b) as nat + 1 == 1 + (a - b) as nat);
            lemma_no_self_cycle(par, i, d, (a - b) as nat);
        }
    }
}

proof fn lemma_kid_subtree(par: Seq<Option<int>>, i: int, k: int, j: int)
    requires
        0 <= k < par.len(),
        par[k] == Some(i),
        in_subtree(par, j, k),
    ensures
        in_subtree(par, j, i),
{
    let e = choose|e: nat| #[trigger] anc(par, j, e) == Some(k);
    assert(anc(par, j, e + 1) == Some(i));
}

/// A span below `i`, other than `i`, is below one of the spans whose parent is `i`.
proof fn lemma_subtree_split(par: Seq<Option<int>>, i: int, j: int) -> (k: int)
    requires
        parents_valid(par),
        0 <= j < par.len(),
        in_subtree(par, j, i),
        j != i,
    ensures
        0 <= k < par.len(),
        par[k] == Some(i),
        in_subtree(par, j, k),
{
    let e = choose|e: nat| #[trigger] anc(par, j, e) == Some(i);
    assert(e >= 1);
    lemma_anc_prefix(par, j, e, (e - 1) as nat);
    lemma_anc_in_range(par, j, (e - 1) as nat);
    let k = anc(par, j, (e - 1) as nat)->0;
    assert(anc(par, j, (e - 1) as nat) == Some(k));
    k
}

/// The spans agree in everything but their children.
pub open spec fn same_but_children(a: Span, b: Span) -> bool {
    &&& a.name == b.name
    &&& a.original_name == b.original_name
    &&& a.span_id == b.span_id
    &&& a.trace_id == b.trace_id
    &&& a.parent_span_id == b.parent_span_id
    &&& a.start_time == b.start_time
    &&& a.end_time == b.end_time
    &&& a.attributes == b.attributes
    &&& a.events == b.events
    &&& a.node == b.node
    &&& a.scope == b.scope
    &&& a.min_start_time == b.min_start_time
    &&& a.max_end_time == b.max_end_time
    &&& a.display_options == b.display_options
    &&& a.collapse_children == b.collapse_children
    &&& a.dont_collapse_this_span == b.dont_collapse_this_span
    &&& a.parent_height_offset == b.parent_height_offset
    &&& a.active_segments == b.active_segments
}

/// `node` is the `i`-th span with, as its children, the trees of the spans whose parent is at
/// `i`, in order.
pub open spec fn is_tree(par: Seq<Option<int>>, u: Seq<Span>, node: Span, i: int) -> bool
    decreases node,
{
    &&& 0 <= i < u.len()
    &&& same_but_children(node, u[i])
    &&& trees_match(par, u, node.children@, kids(par, i))
}

/// Each span handle is the tree of the span at the matching position.
pub open spec fn trees_match(par: Seq<Option<int>>, u: Seq<Span>, cs: Seq<Rc<Span>>, ks: Seq<int>) -> bool
    decreases cs,
{
    &&& cs.len() == ks.len()
    &&& cs.len() > 0 ==> {
        &&& trees_match(par, u, cs.drop_last(), ks.drop_last())
        &&& is_tree(par, u, *cs.last(), ks.last())
    }
}

/// The optional position, as an integer.
pub open spec fn pos_view(o: Option<usize>) -> Option<int> {
    match o {
        Some(x) => Some(x as int),
        None => None,
    }
}

/// The position of each span's parent.
pub(crate) fn parent_positions(s: &Vec<Span>) -> (r: Vec<Option<usize>>)
    requires
        ids_sorted(s@),
    ensures
        r@.len() == s@.len(),
        forall|i: int| 0 <= i < s@.len() ==> pos_view(#[trigger] r@[i]) == parent_of(s@, i),
{
    let mut out: Vec<Option<usize>> = Vec::new();
    for i in 0..s.len()
        invariant
            ids_sorted(s@),
            out@.len() == i,
            forall|k: int| 0 <= k < i ==> pos_view(#[trigger] out@[k]) == parent_of(s@, k),
    {
        let p = find_by_id(s, &s[i].parent_span_id);
        out.push(p);
    }
    out
}

pub(crate) proof fn lemma_parents_valid(s: Seq<Span>)
    ensures
        parents_valid(parents(s)),
        parents(s).len() == s.len(),
{
    assert forall|i: int| 0 <= i < parents(s).len() implies (#[trigger] parents(s)[i] matches Some(x) ==> 0 <= x < parents(s).len()) by {
        lemma_id_index_of(s, s[i].parent_span_id@);
    }
}

/// For each position, the positions of the spans whose parent is there, in order.
pub(crate) fn kid_lists(par: &Vec<Option<usize>>) -> (r: Vec<Vec<usize>>)
    ensures
        r@.len() == par@.len(),
        forall|i: int| 0 <= i < par@.len() ==> (#[trigger] r@[i])@.map_values(|x: usize| x as int)
            == kids_below(par@.map_values(|o: Option<usize>| pos_view(o)), i, par@.len() as int),
{
    let ghost pv = par@.map_values(|o: Option<usize>| pos_view(o));
    let mut out: Vec<Vec<usize>> = Vec::new();
    for i in 0..par.len()
        invariant
            out@.len() == i,
            forall|k: int| 0 <= k < i ==> (#[trigger] out@[k])@.len() == 0,
    {
        out.push(Vec::new());
    }
    for j in 0..par.len()
        invariant
            out@.len() == par@.len(),
            pv == par@.map_values(|o: Option<usize>| pos_view(o)),
            forall|i: int| 0 <= i < par@.len() ==> (#[trigger] out@[i])@.map_values(|x: usize| x as int)
                == kids_below(pv, i, j as int),
    {
        match par[j] {
            Some(p) => {
                if p < out.len() {
                    let ghost before = out@;
                    out[p].push(j);
                    assert forall|i: int| 0 <= i < par@.len() implies (#[trigger] out@[i])@.map_values(|x: usize| x as int)
                        == kids_below(pv, i, j + 1) by {
                        assert(pv[j as int] == Some(p as int));
                        if i == p {
                            assert(out@[i]@.map_values(|x: usize| x as int)
                                =~= before[i]@.map_values(|x: usize| x as int).push(j as int));
                        }
                    }
                } else {
                    assert forall|i: int| 0 <= i < par@.len() implies (#[trigger] out@[i])@.map_values(|x: usize| x as int)
                        == kids_below(pv, i, j + 1) by {
                        assert(pv[j as int] == Some(p as int));
                    }
                }
            },
            None => {
                assert forall|i: int| 0 <= i < par@.len() implies (#[trigger] out@[i])@.map_values(|x: usize| x as int)
                    == kids_below(pv, i, j + 1) by {
                    assert(pv[j as int] is None);
                }
            },
        }
    }
    out
}

/// `j` is `i` or below one of the first `m` spans whose parent is `i`.
pub open spec fn taken_below(par: Seq<Option<int>>, j: int, i: int, m: int) -> bool {
    j == i || exists|m2: int| 0 <= m2 < m && #[trigger] in_subtree(par, j, kids(par, i)[m2])
}

/// Builds the tree of the span at `i`, taking the spans below it out of `pool`.
fn build_tree(
    i: usize,
    pool: &mut Vec<Option<Span>>,
    kids_of: &Vec<Vec<usize>>,
    Ghost(par): Ghost<Seq<Option<int>>>,
    Ghost(u): Ghost<Seq<Span>>,
    Ghost(d): Ghost<nat>,
) -> (r: Rc<Span>)
    requires
        par.len() == u.len(),
        old(pool)@.len() == u.len(),
        kids_of@.len() == u.len(),
        parents_valid(par),
        forall|q: int| 0 <= q < u.len() ==> (#[trigger] kids_of@[q])@.map_values(|x: usize| x as int) == kids(par, q),
        i < u.len(),
        rooted_at(par, i as int, d),
        forall|j: int| 0 <= j < u.len() && #[trigger] in_subtree(par, j, i as int) ==> old(pool)@[j] == Some(u[j]),
    ensures
        final(pool)@.len() == u.len(),
        forall|j: int| 0 <= j < u.len() ==> #[trigger] final(pool)@[j] == if in_subtree(par, j, i as int) {
            None
        } else {
            old(pool)@[j]
        },
        is_tree(par, u, *r, i as int),
    decreases u.len() - d,
{
    let ghost n = u.len() as int;
    let ghost ii = i as int;
    let ghost ks = kids(par, ii);
    proof {
        lemma_depth_bound(par, ii, d);
        lemma_kids_below(par, ii, n);
        assert(anc(par, ii, 0) == Some(ii));
        assert(in_subtree(par, ii, ii));
    }
    let ghost pool0 = pool@;
    let taken = pool[i].take();
    let mut node = taken.unwrap();
    assert(pool@ == pool0.update(ii, None));
    let ks_exec = &kids_of[i];
    assert(ks_exec@.map_values(|x: usize| x as int) == ks);
    let mut children: Vec<Rc<Span>> = Vec::new();
    for m in 0..ks_exec.len()
        invariant
            n == u.len(),
            ii == i,
            ks == kids(par, ii),
            ks_exec@.map_values(|x: usize| x as int) == ks,
            par.len() == u.len(),
            kids_of@.len() == u.len(),
            parents_valid(par),
            forall|q: int| 0 <= q < u.len() ==> (#[trigger] kids_of@[q])@.map_values(|x: usize| x as int) == kids(par, q),
            rooted_at(par, ii, d),
            0 <= ii < n,
            forall|j: int| 0 <= j < u.len() && #[trigger] in_subtree(par, j, ii) ==> pool0[j] == Some(u[j]),
            pool@.len() == n,
            forall|j: int| 0 <= j < n ==> #[trigger] pool@[j] == if taken_below(par, j, ii, m as int) { None } else { pool0[j] },
            children@.len() == m,
            trees_match(par, u, children@, ks.take(m as int)),
            forall|m1: int| 0 <= m1 < ks.len() ==> 0 <= #[trigger] ks[m1] < n && par[ks[m1]] == Some(ii),
            forall|m1: int, m2: int| 0 <= m1 < m2 < ks.len() ==> ks[m1] < ks[m2],
    {
        let k = ks_exec[m];
        assert(ks[m as int] == k as int);
        let ghost kk = k as int;
        proof {
            lemma_kid_rooted(par, ii, kk, d);
            lemma_depth_bound(par, kk, d + 1);
            assert forall|j: int| 0 <= j < n && #[trigger] in_subtree(par, j, kk) implies pool@[j] == Some(u[j]) by {
                lemma_parent_not_below_kid(par, ii, kk, d);
                lemma_kid_subtree(par, ii, kk, j);
                assert forall|m2: int| 0 <= m2 < m implies !#[trigger] in_subtree(par, j, kids(par, ii)[m2]) by {
                    lemma_siblings_apart(par, ii, ks[m2], kk, d, j);
                }
                assert(!taken_below(par, j, ii, m as int));
            }
        }
        let ghost before = pool@;
        let child = build_tree(k, pool, kids_of, Ghost(par), Ghost(u), Ghost(d + 1));
        let ghost old_children = children@;
        children.push(child);
        proof {
            assert(children@.drop_last() =~= old_children);
            assert(ks.take(m + 1).drop_last() =~= ks.take(m as int));
            assert forall|j: int| 0 <= j < n implies #[trigger] pool@[j] == if taken_below(par, j, ii, m + 1) { None } else { pool0[j] } by {
                if in_subtree(par, j, kk) {
                    assert(taken_below(par, j, ii, m + 1)) by {
                        assert(in_subtree(par, j, kids(par, ii)[m as int]));
                    }
                } else {
                    if taken_below(par, j, ii, m + 1) && j != ii {
                        let m2 = choose|m2: int| 0 <= m2 < m + 1 && #[trigger] in_subtree(par, j, kids(par, ii)[m2]);
                        assert(m2 != m);
                        assert(taken_below(par, j, ii, m as int));
                    }
                    if taken_below(par, j, ii, m as int) && j != ii {
                        let m2 = choose|m2: int| 0 <= m2 < m && #[trigger] in_subtree(par, j, kids(par, ii)[m2]);
                        assert(taken_below(par, j, ii, m + 1));
                    }
                }
            }
        }
    }
    proof {
        assert(ks.take(ks.len() as int) =~= ks);
        assert forall|j: int| 0 <= j < n implies #[trigger] pool@[j] == if in_subtree(par, j, ii) { None } else { pool0[j] } by {
            if in_subtree(par, j, ii) && j != ii {
                let k = lemma_subtree_split(par, ii, j);
                let m2 = choose|m2: int| 0 <= m2 < ks.len() && #[trigger] ks[m2] == k;
                assert(in_subtree(par, j, kids(par, ii)[m2]));
                assert(taken_below(par, j, ii, ks.len() as int));
            }
            if taken_below(par, j, ii, ks.len() as int) && j != ii {
                let m2 = choose|m2: int| 0 <= m2 < ks.len() && #[trigger] in_subtree(par, j, kids(par, ii)[m2]);
                lemma_kid_subtree(par, ii, ks[m2], j);
            }
        }
    }
    node.children = children;
    Rc::new(node)
}

/// The trees are `par`-apart: no span is below two of them.
pub open spec fn tops_apart(par: Seq<Option<int>>, tops: Seq<int>) -> bool {
    forall|m1: int, m2: int, j: int| 0 <= m1 < tops.len() && 0 <= m2 < tops.len() && m1 != m2
        ==> !(#[trigger] in_subtree(par, j, tops[m1]) && #[trigger] in_subtree(par, j, tops[m2]))
}

/// `j` is below one of the first `m` tops.
pub open spec fn below_tops(par: Seq<Option<int>>, tops: Seq<int>, j: int, m: int) -> bool {
    exists|m2: int| 0 <= m2 < m && #[trigger] in_subtree(par, j, tops[m2])
}

/// Builds the trees of the spans at `tops`, each with the spans below it.
pub fn build_forest(
    records: Vec<Span>,
    kids_of: &Vec<Vec<usize>>,
    tops: &Vec<usize>,
    Ghost(par): Ghost<Seq<Option<int>>>,
) -> (r: Vec<Rc<Span>>)
    requires
        par.len() == records@.len(),
        kids_of@.len() == records@.len(),
        parents_valid(par),
        forall|q: int| 0 <= q < records@.len() ==> (#[trigger] kids_of@[q])@.map_values(|x: usize| x as int) == kids(par, q),
        forall|m: int| 0 <= m < tops@.len() ==> (#[trigger] tops@[m]) < records@.len() && exists|d: nat| rooted_at(par, tops@[m] as int, d),
        tops_apart(par, tops@.map_values(|x: usize| x as int)),
    ensures
        trees_match(par, records@, r@, tops@.map_values(|x: usize| x as int)),
{
    let ghost u = records@;
    let ghost n = u.len() as int;
    let ghost tv = tops@.map_values(|x: usize| x as int);
    let mut pool: Vec<Option<Span>> = Vec::new();
    for x in iter: records.into_iter()
        invariant
            iter.seq() == u,
            pool@.len() == iter.index(),
            forall|j: int| 0 <= j < iter.index() ==> #[trigger] pool@[j] == Some(u[j]),
    {
        pool.push(Some(x));
    }
    let mut out: Vec<Rc<Span>> = Vec::new();
    for m in 0..tops.len()
        invariant
            n == u.len(),
            par.len() == u.len(),
            kids_of@.len() == u.len(),
            parents_valid(par),
            forall|q: int| 0 <= q < u.len() ==> (#[trigger] kids_of@[q])@.map_values(|x: usize| x as int) == kids(par, q),
            forall|m1: int| 0 <= m1 < tops@.len() ==> (#[trigger] tops@[m1]) < u.len() && exists|d: nat| rooted_at(par, tops@[m1] as int, d),
            tv == tops@.map_values(|x: usize| x as int),
            tops_apart(par, tv),
            pool@.len() == n,
            forall|j: int| 0 <= j < n ==> #[trigger] pool@[j] == if below_tops(par, tv, j, m as int) { None } else { Some(u[j]) },
            out@.len() == m,
            trees_match(par, u, out@, tv.take(m as int)),
    {
        let t = tops[m];
        assert(tv[m as int] == t as int);
        let ghost d = choose|d: nat| rooted_at(par, t as int, d);
        proof {
            assert(tops@[m as int] == t);
            assert forall|j: int| 0 <= j < n && #[trigger] in_subtree(par, j, t as int) implies pool@[j] == Some(u[j]) by {
                assert forall|m2: int| 0 <= m2 < m implies !#[trigger] in_subtree(par, j, tv[m2]) by {
                    assert(in_subtree(par, j, tv[m as int]));
                }
            }
        }
        let tree = build_tree(t, &mut pool, kids_of, Ghost(par), Ghost(u), Ghost(d));
        let ghost old_out = out@;
        out.push(tree);
        proof {
            assert(out@.drop_last() =~= old_out);
            assert(tv.take(m + 1).drop_last() =~= tv.take(m as int));
            assert forall|j: int| 0 <= j < n implies #[trigger] pool@[j] == if below_tops(par, tv, j, m + 1) { None } else { Some(u[j]) } by {
                if in_subtree(par, j, t as int) {
                    assert(in_subtree(par, j, tv[m as int]));
                } else if below_tops(par, tv, j, m + 1) {
                    let m2 = choose|m2: int| 0 <= m2 < m + 1 && #[trigger] in_subtree(par, j, tv[m2]);
                    assert(m2 != m);
                    assert(below_tops(par, tv, j, m as int));
                } else if below_tops(par, tv, j, m as int) {
                    let m2 = choose|m2: int| 0 <= m2 < m && #[trigger] in_subtree(par, j, tv[m2]);
                    assert(below_tops(par, tv, j, m + 1));
                }
            }
        }
    }
    assert(tv.take(tv.len() as int) =~= tv);
    out
}

pub(crate) proof fn lemma_roots_apart(par: Seq<Option<int>>)
    requires
        parents_valid(par),
    ensures
        tops_apart(par, roots(par)),
        forall|m: int| 0 <= m < roots(par).len() ==> rooted_at(par, #[trigger] roots(par)[m], 0),
{
    let rs = roots(par);
    lemma_roots_below(par, par.len() as int);
    assert forall|m1: int, m2: int, j: int| 0 <= m1 < rs.len() && 0 <= m2 < rs.len() && m1 != m2
        implies !(#[trigger] in_subtree(par, j, rs[m1]) && #[trigger] in_subtree(par, j, rs[m2])) by {
        if in_subtree(par, j, rs[m1]) && in_subtree(par, j, rs[m2]) {
            let a = choose|a: nat| #[trigger] anc(par, j, a) == Some(rs[m1]);
            let b = choose|b: nat| #[trigger] anc(par, j, b) == Some(rs[m2]);
            if m1 < m2 {
                assert(rs[m1] < rs[m2]);
            } else {
                assert(rs[m2] < rs[m1]);
            }
            if a < b {
                lemma_anc_compose(par, j, a, (b - a) as nat);
                assert(a + (b - a) as nat == b);
                lemma_anc_compose(par, rs[m1], 1, (b - a - 1) as nat);
                assert(1 + (b - a - 1) as nat == (b - a) as nat);
                assert(anc(par, rs[m1], 1) is None) by {
                    assert(anc(par, rs[m1], 0) == Some(rs[m1]));
                }
            } else if b < a {
                lemma_anc_compose(par, j, b, (a - b) as nat);
                assert(b + (a - b) as nat == a);
                lemma_anc_compose(par, rs[m2], 1, (a - b - 1) as nat);
                assert(1 + (a - b - 1) as nat == (a - b) as nat);
                assert(anc(par, rs[m2], 1) is None) by {
                    assert(anc(par, rs[m2], 0) == Some(rs[m2]));
                }
            }
        }
    }
    assert forall|m: int| 0 <= m < rs.len() implies rooted_at(par, #[trigger] rs[m], 0) by {
        assert(anc(par, rs[m], 0) == Some(rs[m]));
    }
}

/// The positions of the spans without a parent, in order.
pub(crate) fn root_positions(par: &Vec<Option<usize>>) -> (r: Vec<usize>)
    ensures
        r@.map_values(|x: usize| x as int) == roots(par@.map_values(|o: Option<usize>| pos_view(o))),
        forall|m: int| 0 <= m < r@.len() ==> #[trigger] r@[m] < par@.len(),
{
    let ghost pv = par@.map_values(|o: Option<usize>| pos_view(o));
    let mut out: Vec<usize> = Vec::new();
    for j in 0..par.len()
        invariant
            pv == par@.map_values(|o: Option<usize>| pos_view(o)),
            out@.map_values(|x: usize| x as int) == roots_below(pv, j as int),
            forall|m: int| 0 <= m < out@.len() ==> #[trigger] out@[m] < j,
    {
        let ghost before = out@;
        if par[j].is_none() {
            out.push(j);
            assert(out@.map_values(|x: usize| x as int) =~= before.map_values(|x: usize| x as int).push(j as int));
        }
    }
    out
}

/// The span trees of a trace: one span per id, the last one recorded under it, ordered by id;
/// the spans whose parent id is no span's id are the roots, and each span is under the span
/// whose id is its parent id.
pub fn span_forest(spans: Vec<Span>) -> (r: Vec<Rc<Span>>)
    ensures
        ({
            let u = latest_by_id(spans@);
            trees_match(parents(u), u, r@, roots(parents(u)))
        }),
{
    let unique = spans_by_id(spans);
    let ghost u = unique@;
    let par_exec = parent_positions(&unique);
    let ghost par = parents(u);
    proof {
        lemma_parents_valid(u);
        assert(par_exec@.map_values(|o: Option<usize>| pos_view(o)) =~= par);
        lemma_roots_apart(par);
    }
    let kids_of = kid_lists(&par_exec);
    let tops = root_positions(&par_exec);
    proof {
        assert forall|m: int| 0 <= m < tops@.len() implies (#[trigger] tops@[m]) < u.len()
            && exists|d: nat| rooted_at(par, tops@[m] as int, d) by {
            assert(tops@.map_values(|x: usize| x as int)[m] == roots(par)[m]);
            assert(rooted_at(par, roots(par)[m], 0));
        }
    }
    build_forest(unique, &kids_of, &tops, Ghost(par))
}

/// The spans at and below `i` that are shown at the top: `i` itself when it is visible, or else,
/// in turn, those at and below each span whose parent is `i`; `f` bounds the depth searched.
pub open spec fn shown_tops(par: Seq<Option<int>>, vis: Seq<bool>, i: int, f: nat) -> Seq<int>
    decreases f, 0int, 0int,
{
    if f == 0 {
        Seq::empty()
    } else if vis[i] {
        seq![i]
    } else {
        shown_tops_list(par, vis, kids(par, i), (f - 1) as nat)
    }
}

/// `shown_tops` of each span in turn.
pub open spec fn shown_tops_list(par: Seq<Option<int>>, vis: Seq<bool>, ks: Seq<int>, f: nat) -> Seq<int>
    decreases f, 1int, ks.len(),
{
    if ks.len() == 0 {
        Seq::empty()
    } else {
        shown_tops_list(par, vis, ks.drop_last(), f) + shown_tops(par, vis, ks.last(), f)
    }
}

pub(crate) proof fn lemma_trees_match_append(par: Seq<Option<int>>, u: Seq<Span>, a: Seq<Rc<Span>>, x: Seq<int>, b: Seq<Rc<Span>>, y: Seq<int>)
    requires
        trees_match(par, u, a, x),
        trees_match(par, u, b, y),
    ensures
        trees_match(par, u, a + b, x + y),
    decreases b.len(),
{
    if b.len() > 0 {
        lemma_trees_match_append(par, u, a, x, b.drop_last(), y.drop_last());
        assert((a + b).drop_last() =~= a + b.drop_last());
        assert((x + y).drop_last() =~= x + y.drop_last());
    } else {
        assert(a + b =~= a);
        assert(x + y =~= x);
    }
}

/// Builds the trees of the spans at and below `i` that are shown at the top, taking their spans
/// out of `pool`.
pub(crate) fn hoist(
    i: usize,
    pool: &mut Vec<Option<Span>>,
    kids_of: &Vec<Vec<usize>>,
    vis: &Vec<bool>,
    out: &mut Vec<Rc<Span>>,
    Ghost(par): Ghost<Seq<Option<int>>>,
    Ghost(u): Ghost<Seq<Span>>,
    Ghost(d): Ghost<nat>,
)
    requires
        par.len() == u.len(),
        old(pool)@.len() == u.len(),
        kids_of@.len() == u.len(),
        vis@.len() == u.len(),
        parents_valid(par),
        forall|q: int| 0 <= q < u.len() ==> (#[trigger] kids_of@[q])@.map_values(|x: usize| x as int) == kids(par, q),
        i < u.len(),
        rooted_at(par, i as int, d),
        forall|j: int| 0 <= j < u.len() && #[trigger] in_subtree(par, j, i as int) ==> old(pool)@[j] == Some(u[j]),
    ensures
        final(pool)@.len() == u.len(),
        forall|j: int| 0 <= j < u.len() && !in_subtree(par, j, i as int) ==> #[trigger] final(pool)@[j] == old(pool)@[j],
        final(out)@.len() >= old(out)@.len(),
        final(out)@.take(old(out)@.len() as int) == old(out)@,
        trees_match(par, u, final(out)@.skip(old(out)@.len() as int), shown_tops(par, vis@, i as int, (u.len() - d) as nat)),
    decreases u.len() - d,
{
    let ghost n = u.len() as int;
    let ghost ii = i as int;
    let ghost f = (n - d) as nat;
    let ghost start = out@;
    proof {
        lemma_depth_bound(par, ii, d);
    }
    if vis[i] {
        let tree = build_tree(i, pool, kids_of, Ghost(par), Ghost(u), Ghost(d));
        out.push(tree);
        proof {
            assert(out@.take(start.len() as int) =~= start);
            assert(out@.skip(start.len() as int) =~= seq![tree]);
            assert(seq![tree].drop_last() =~= Seq::<Rc<Span>>::empty());
            assert(seq![ii].drop_last() =~= Seq::<int>::empty());
            assert(f >= 1);
            assert(vis@[ii]);
            assert(shown_tops(par, vis@, ii, f) == seq![ii]);
            assert(trees_match(par, u, Seq::<Rc<Span>>::empty(), Seq::<int>::empty()));
            assert(trees_match(par, u, seq![tree], seq![ii]));
        }
        return;
    }
    let ghost ks = kids(par, ii);
    proof {
        lemma_kids_below(par, ii, n);
    }
    let ks_exec = &kids_of[i];
    assert(ks_exec@.map_values(|x: usize| x as int) == ks);
    let ghost pool0 = pool@;
    for m in 0..ks_exec.len()
        invariant
            n == u.len(),
            ii == i,
            f == (n - d) as nat,
            f >= 1,
            ks == kids(par, ii),
            ks_exec@.map_values(|x: usize| x as int) == ks,
            par.len() == u.len(),
            kids_of@.len() == u.len(),
            vis@.len() == u.len(),
            parents_valid(par),
            forall|q: int| 0 <= q < u.len() ==> (#[trigger] kids_of@[q])@.map_values(|x: usize| x as int) == kids(par, q),
            rooted_at(par, ii, d),
            0 <= ii < n,
            forall|j: int| 0 <= j < u.len() && #[trigger] in_subtree(par, j, ii) ==> pool0[j] == Some(u[j]),
            pool@.len() == n,
            forall|j: int| 0 <= j < n && !taken_below(par, j, ii, m as int) ==> #[trigger] pool@[j] == pool0[j],
            forall|m1: int| 0 <= m1 < ks.len() ==> 0 <= #[trigger] ks[m1] < n && par[ks[m1]] == Some(ii),
            forall|m1: int, m2: int| 0 <= m1 < m2 < ks.len() ==> ks[m1] < ks[m2],
            out@.len() >= start.len(),
            out@.take(start.len() as int) == start,
            trees_match(par, u, out@.skip(start.len() as int), shown_tops_list(par, vis@, ks.take(m as int), (f - 1) as nat)),
    {
        let k = ks_exec[m];
        assert(ks[m as int] == k as int);
        let ghost kk = k as int;
        proof {
            lemma_kid_rooted(par, ii, kk, d);
            lemma_depth_bound(par, kk, d + 1);
            assert forall|j: int| 0 <= j < n && #[trigger] in_subtree(par, j, kk) implies pool@[j] == Some(u[j]) by {
                lemma_parent_not_below_kid(par, ii, kk, d);
                lemma_kid_subtree(par, ii, kk, j);
                assert forall|m2: int| 0 <= m2 < m implies !#[trigger] in_subtree(par, j, kids(par, ii)[m2]) by {
                    lemma_siblings_apart(par, ii, ks[m2], kk, d, j);
                }
                assert(!taken_below(par, j, ii, m as int));
            }
        }
        let ghost before = out@;
        hoist(k, pool, kids_of, vis, out, Ghost(par), Ghost(u), Ghost(d + 1));
        proof {
            let mid = before.len() as int;
            assert forall|q: int| 0 <= q < mid implies out@[q] == before[q] by {
                assert(out@.take(mid)[q] == out@[q]);
            }
            assert(out@.take(start.len() as int) =~= before.take(start.len() as int));
            assert(out@.skip(start.len() as int) =~= before.skip(start.len() as int) + out@.skip(mid));
            assert(ks.take(m + 1).drop_last() =~= ks.take(m as int));
            assert((n - (d + 1)) as nat == (f - 1) as nat);
            lemma_trees_match_append(par, u, before.skip(start.len() as int),
                shown_tops_list(par, vis@, ks.take(m as int), (f - 1) as nat),
                out@.skip(mid), shown_tops(par, vis@, kk, (f - 1) as nat));
            assert forall|j: int| 0 <= j < n && !taken_below(par, j, ii, m + 1) implies #[trigger] pool@[j] == pool0[j] by {
                assert(!in_subtree(par, j, kids(par, ii)[m as int]));
                if taken_below(par, j, ii, m as int) {
                    let m2 = choose|m2: int| 0 <= m2 < m && #[trigger] in_subtree(par, j, kids(par, ii)[m2]);
                    assert(taken_below(par, j, ii, m + 1));
                }
            }
        }
    }
    proof {
        assert(ks.take(ks.len() as int) =~= ks);
        assert forall|j: int| 0 <= j < n && !in_subtree(par, j, ii) implies #[trigger] pool@[j] == pool0[j] by {
            if taken_below(par, j, ii, ks.len() as int) {
                assert(anc(par, ii, 0) == Some(ii));
                if j != ii {
                    let m2 = choose|m2: int| 0 <= m2 < ks.len() && #[trigger] in_subtree(par, j, kids(par, ii)[m2]);
                    lemma_kid_subtree(par, ii, ks[m2], j);
                }
            }
        }
    }
}

} // verus!
