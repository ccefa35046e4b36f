//! Helpers shared by the span analyses: collecting spans, unique names, statistics.

use vstd::prelude::*;
use std::rc::Rc;

use crate::text::chars_of;
use crate::types::{bytes_equal, Span};

verus! {

broadcast use vstd::std_specs::vec::group_vec_axioms;

/// A copy of a shared span handle; both designate the same span.
#[verifier::external_body]
pub(crate) fn rc_clone<T>(r: &Rc<T>) -> (res: Rc<T>)
    ensures
        res == *r,
{
    Rc::clone(r)
}

/// The span ids of the spans.
pub open spec fn span_ids(spans: Seq<Rc<Span>>) -> Seq<Seq<u8>>
    decreases spans.len(),
{
    if spans.len() == 0 {
        Seq::empty()
    } else {
        span_ids(spans.drop_last()).push(spans.last().span_id@)
    }
}

pub(crate) proof fn lemma_span_ids(spans: Seq<Rc<Span>>)
    ensures
        span_ids(spans).len() == spans.len(),
        forall|i: int| 0 <= i < spans.len() ==> #[trigger] span_ids(spans)[i] == spans[i].span_id@,
    decreases spans.len(),
{
    if spans.len() > 0 {
        lemma_span_ids(spans.drop_last());
    }
}

/// Whether some span of the list has the given id.
pub fn contains_span_id(spans: &Vec<Rc<Span>>, id: &Vec<u8>) -> (r: bool)
    ensures
        r == span_ids(spans@).contains(id@),
{
    proof {
        lemma_span_ids(spans@);
    }
    for i in 0..spans.len()
        invariant
            span_ids(spans@).len() == spans@.len(),
            forall|k: int| 0 <= k < spans@.len() ==> #[trigger] span_ids(spans@)[k] == spans@[k].span_id@,
            forall|j: int| 0 <= j < i ==> spans@[j].span_id@ != id@,
    {
        if bytes_equal(&spans[i].span_id, id) {
            assert(span_ids(spans@)[i as int] == id@);
            return true;
        }
    }
    assert(!span_ids(spans@).contains(id@)) by {
        if span_ids(spans@).contains(id@) {
            let k = choose|k: int| 0 <= k < span_ids(spans@).len() && span_ids(spans@)[k] == id@;
            assert(spans@[k].span_id@ == id@);
        }
    }
    false
}

/// Whether the list holds the given id.
pub fn contains_id(ids: &Vec<Vec<u8>>, id: &Vec<u8>) -> (r: bool)
    ensures
        r == ids@.map_values(|v: Vec<u8>| v@).contains(id@),
{
    let ghost view = ids@.map_values(|v: Vec<u8>| v@);
    for i in 0..ids.len()
        invariant
            view == ids@.map_values(|v: Vec<u8>| v@),
            forall|j: int| 0 <= j < i ==> ids@[j]@ != id@,
    {
        if bytes_equal(&ids[i], id) {
            assert(view[i as int] == id@);
            return true;
        }
    }
    assert(!view.contains(id@)) by {
        if view.contains(id@) {
            let k = choose|k: int| 0 <= k < view.len() && view[k] == id@;
            assert(ids@[k]@ == id@);
        }
    }
    false
}

/// The spans of a tree in preorder, each id kept once: a span whose id was already collected
/// is left out together with the spans below it.
pub open spec fn visit(span: Span, done: Seq<Rc<Span>>) -> Seq<Rc<Span>>
    decreases span,
{
    if span_ids(done).contains(span.span_id@) {
        done
    } else {
        visit_list(span.children@, done.push(Rc::new(span)))
    }
}

/// `visit` applied to each span of the list in turn.
pub open spec fn visit_list(spans: Seq<Rc<Span>>, done: Seq<Rc<Span>>) -> Seq<Rc<Span>>
    decreases spans,
{
    if spans.len() == 0 {
        done
    } else {
        visit(*spans.last(), visit_list(spans.drop_last(), done))
    }
}

fn collect_descendant_spans_with_deduplication(current_span: &Rc<Span>, collected_spans: &mut Vec<Rc<Span>>)
    ensures
        final(collected_spans)@ == visit(**current_span, old(collected_spans)@),
    decreases **current_span,
{
    if !contains_span_id(collected_spans, &current_span.span_id) {
        collected_spans.push(rc_clone(current_span));
        assert(collected_spans@ == old(collected_spans)@.push(Rc::new(**current_span)));
        let ghost start = collected_spans@;
        let children = &current_span.children;
        for i in 0..children.len()
            invariant
                *children == current_span.children,
                collected_spans@ == visit_list(children@.take(i as int), start),
        {
            assert(children@.take(i + 1).drop_last() =~= children@.take(i as int));
            proof {
                assert(decreases_to!(**current_span => current_span.children));
                assert(decreases_to!(current_span.children => current_span.children@));
                assert(decreases_to!(current_span.children@ => *current_span.children@[i as int]));
            }
            collect_descendant_spans_with_deduplication(&children[i], collected_spans);
        }
        assert(children@.take(children@.len() as int) =~= children@);
    }
}

/// The spans of the tree under `root_span` in preorder, each id once, appended to `collected_spans`.
pub fn collect_span_tree_with_deduplication(root_span: &Rc<Span>, collected_spans: &mut Vec<Rc<Span>>)
    ensures
        final(collected_spans)@ == old(collected_spans)@ + visit(**root_span, Seq::empty()),
{
    let mut tree: Vec<Rc<Span>> = Vec::new();
    collect_descendant_spans_with_deduplication(root_span, &mut tree);
    let mut t = tree;
    collected_spans.append(&mut t);
}

/// The spans whose trace name is `target_name`, in order.
pub open spec fn named_spans(spans: Seq<Rc<Span>>, target_name: Seq<char>) -> Seq<Rc<Span>>
    decreases spans.len(),
{
    if spans.len() == 0 {
        Seq::empty()
    } else if spans.last().original_name@ == target_name {
        named_spans(spans.drop_last(), target_name).push(spans.last())
    } else {
        named_spans(spans.drop_last(), target_name)
    }
}

/// The spans with a trace name are exactly the spans of the list with that name.
pub proof fn lemma_named_spans_exact(spans: Seq<Rc<Span>>, name: Seq<char>)
    ensures
        forall|j: int| 0 <= j < named_spans(spans, name).len()
            ==> (#[trigger] named_spans(spans, name)[j]).original_name@ == name && spans.contains(named_spans(spans, name)[j]),
        forall|i: int| 0 <= i < spans.len() && (#[trigger] spans[i]).original_name@ == name
            ==> named_spans(spans, name).contains(spans[i]),
    decreases spans.len(),
{
    if spans.len() > 0 {
        let p = spans.drop_last();
        lemma_named_spans_exact(p, name);
        let r = named_spans(spans, name);
        let pr = named_spans(p, name);
        assert forall|j: int| 0 <= j < r.len()
            implies (#[trigger] r[j]).original_name@ == name && spans.contains(r[j]) by {
            if j < pr.len() {
                assert(r[j] == pr[j]);
                assert(p.contains(pr[j]));
                let q = choose|q: int| 0 <= q < p.len() && p[q] == pr[j];
                assert(spans[q] == r[j]);
            } else {
                assert(r[j] == spans.last());
                assert(spans[spans.len() - 1] == r[j]);
            }
        }
        assert forall|i: int| 0 <= i < spans.len() && (#[trigger] spans[i]).original_name@ == name
            implies r.contains(spans[i]) by {
            if i < p.len() {
                assert(spans[i] == p[i]);
                assert(pr.contains(p[i]));
                let w = choose|w: int| 0 <= w < pr.len() && pr[w] == p[i];
                assert(r[w] == pr[w]);
            } else {
                assert(spans[i] == spans.last());
                assert(r[r.len() - 1] == spans.last());
            }
        }
    }
}

/// Appends the spans whose trace name is `target_name`, in order.
pub fn collect_matching_spans(spans: &[Rc<Span>], target_name: &str, matching_spans: &mut Vec<Rc<Span>>)
    ensures
        final(matching_spans)@ == old(matching_spans)@ + named_spans(spans@, target_name@),
{
    let ghost start = matching_spans@;
    let name = chars_of(target_name);
    for i in 0..spans.len()
        invariant
            name@ == target_name@,
            matching_spans@ == start + named_spans(spans@.take(i as int), target_name@),
    {
        assert(spans@.take(i + 1).drop_last() =~= spans@.take(i as int));
        let n = chars_of(spans[i].original_name.as_str());
        if crate::text::chars_eq(n.as_slice(), name.as_slice()) {
            matching_spans.push(rc_clone(&spans[i]));
            assert(matching_spans@ =~= start + named_spans(spans@.take(i + 1), target_name@));
        } else {
            assert(matching_spans@ =~= start + named_spans(spans@.take(i + 1), target_name@));
        }
    }
    assert(spans@.take(spans@.len() as int) =~= spans@);
}

/// Smallest value, or `u64::MAX` for none.
pub open spec fn seq_min(s: Seq<u64>) -> u64
    decreases s.len(),
{
    if s.len() == 0 {
        u64::MAX
    } else {
        let m = seq_min(s.drop_last());
        if s.last() < m { s.last() } else { m }
    }
}

/// Largest value, or zero for none.
pub open spec fn seq_max(s: Seq<u64>) -> u64
    decreases s.len(),
{
    if s.len() == 0 {
        0
    } else {
        let m = seq_max(s.drop_last());
        if s.last() > m { s.last() } else { m }
    }
}

/// Sum of the values.
pub open spec fn seq_sum(s: Seq<u64>) -> int
    decreases s.len(),
{
    if s.len() == 0 {
        0
    } else {
        seq_sum(s.drop_last()) + s.last()
    }
}

/// `seq_min` is no greater and `seq_max` no smaller than any value, and each is one of the
/// values when there are any.
pub proof fn lemma_seq_extremes(d: Seq<u64>)
    ensures
        forall|i: int| 0 <= i < d.len() ==> seq_min(d) <= d[i] && d[i] <= seq_max(d),
        d.len() > 0 ==> exists|i: int| 0 <= i < d.len() && d[i] == seq_min(d),
        d.len() > 0 ==> exists|i: int| 0 <= i < d.len() && d[i] == seq_max(d),
        seq_sum(d) >= 0,
    decreases d.len(),
{
    if d.len() > 0 {
        let p = d.drop_last();
        lemma_seq_extremes(p);
        assert forall|i: int| 0 <= i < p.len() implies d[i] == p[i] by {}
        if p.len() > 0 {
            let a = choose|i: int| 0 <= i < p.len() && p[i] == seq_min(p);
            let b = choose|i: int| 0 <= i < p.len() && p[i] == seq_max(p);
            assert(d[a] == p[a]);
            assert(d[b] == p[b]);
        }
        assert(d[d.len() - 1] == d.last());
    }
}

/// Stores and calculates statistics for a collection of values.
pub struct Statistics {
    pub count: usize,
    pub min: u64,
    pub max: u64,
    pub total: u128,
    pub data_points: Vec<u64>,
}

impl Statistics {
    /// The fields agree with the values in `data_points`.
    pub open spec fn wf(&self) -> bool {
        &&& self.count == self.data_points@.len()
        &&& self.min == seq_min(self.data_points@)
        &&& self.max == seq_max(self.data_points@)
        &&& self.total == seq_sum(self.data_points@)
        &&& self.total <= self.count * 0xFFFF_FFFF_FFFF_FFFFu64
    }

    /// Statistics of no values.
    pub fn new() -> (r: Statistics)
        ensures
            r.wf(),
            r.data_points@ == Seq::<u64>::empty(),
    {
        Statistics { count: 0, min: u64::MAX, max: 0, total: 0, data_points: Vec::new() }
    }

    /// Adds a value.
    pub fn add_value(&mut self, value: u64)
        requires
            old(self).wf(),
            old(self).count < usize::MAX,
        ensures
            final(self).wf(),
            final(self).data_points@ == old(self).data_points@.push(value),
    {
        assert(self.data_points@.push(value).drop_last() =~= self.data_points@);
        assert(self.total + value <= (self.count + 1) * 0xFFFF_FFFF_FFFF_FFFFu64) by (nonlinear_arith)
            requires self.total <= self.count * 0xFFFF_FFFF_FFFF_FFFFu64, value <= 0xFFFF_FFFF_FFFF_FFFFu64;
        assert(self.total + value < 0x1_0000_0000_0000_0000_0000_0000_0000_0000) by (nonlinear_arith)
            requires self.total + value <= (self.count + 1) * 0xFFFF_FFFF_FFFF_FFFFu64, self.count < usize::MAX,
                usize::MAX <= 0xFFFF_FFFF_FFFF_FFFFu64;
        self.count += 1;
        if value < self.min {
            self.min = value;
        }
        if value > self.max {
            self.max = value;
        }
        self.total += value as u128;
        self.data_points.push(value);
    }
}

/// Number of values no greater than `v`.
pub open spec fn count_le(s: Seq<u64>, v: u64) -> nat
    decreases s.len(),
{
    if s.len() == 0 {
        0
    } else {
        count_le(s.drop_last(), v) + if s.last() <= v { 1nat } else { 0nat }
    }
}

/// The values in increasing order, each inserted after the values no greater than it.
pub open spec fn sorted_values(s: Seq<u64>) -> Seq<u64>
    decreases s.len(),
{
    if s.len() == 0 {
        s
    } else {
        let t = sorted_values(s.drop_last());
        t.insert(count_le(t, s.last()) as int, s.last())
    }
}

proof fn lemma_count_le_bound(s: Seq<u64>, v: u64)
    ensures
        count_le(s, v) <= s.len(),
    decreases s.len(),
{
    if s.len() > 0 {
        lemma_count_le_bound(s.drop_last(), v);
    }
}

proof fn lemma_sorted_values_len(s: Seq<u64>)
    ensures
        sorted_values(s).len() == s.len(),
    decreases s.len(),
{
    if s.len() > 0 {
        lemma_sorted_values_len(s.drop_last());
        lemma_count_le_bound(sorted_values(s.drop_last()), s.last());
    }
}

/// The values are in increasing order.
pub open spec fn ascending(s: Seq<u64>) -> bool {
    forall|i: int, j: int| 0 <= i < j < s.len() ==> s[i] <= s[j]
}

/// In increasing values, those no greater than `v` come first, `count_le` of them.
proof fn lemma_count_le_split(t: Seq<u64>, v: u64)
    requires
        ascending(t),
    ensures
        count_le(t, v) <= t.len(),
        forall|i: int| 0 <= i < count_le(t, v) ==> t[i] <= v,
        forall|i: int| count_le(t, v) <= i < t.len() ==> t[i] > v,
    decreases t.len(),
{
    if t.len() > 0 {
        let p = t.drop_last();
        assert(ascending(p));
        lemma_count_le_split(p, v);
        let c = count_le(t, v);
        if t.last() <= v {
            assert(count_le(p, v) == p.len()) by {
                if count_le(p, v) < p.len() {
                    assert(p[p.len() - 1] > v);
                    assert(t[t.len() - 2] <= t[t.len() - 1]);
                }
            }
            assert(c == t.len());
            assert forall|i: int| 0 <= i < c implies t[i] <= v by {
                assert(t[i] <= t[t.len() - 1]);
            }
        } else {
            assert(c == count_le(p, v));
            assert forall|i: int| 0 <= i < c implies t[i] <= v by {
                assert(t[i] == p[i]);
            }
            assert forall|i: int| c <= i < t.len() implies t[i] > v by {
                if i < p.len() {
                    assert(t[i] == p[i]);
                } else {
                    assert(t[i] == t.last());
                }
            }
        }
    }
}

/// The sorted values are in increasing order, and are the values taken in some order.
pub proof fn lemma_sorted_values(s: Seq<u64>)
    ensures
        ascending(sorted_values(s)),
        sorted_values(s).to_multiset() == s.to_multiset(),
    decreases s.len(),
{
    broadcast use vstd::seq_lib::to_multiset_build, vstd::seq_lib::to_multiset_insert;
    if s.len() == 0 {
        assert(sorted_values(s) =~= Seq::<u64>::empty());
    } else {
        let p = s.drop_last();
        let x = s.last();
        lemma_sorted_values(p);
        let t = sorted_values(p);
        lemma_count_le_split(t, x);
        let c = count_le(t, x) as int;
        let u = t.insert(c, x);
        assert(sorted_values(s) == u);
        assert forall|i: int, j: int| 0 <= i < j < u.len() implies u[i] <= u[j] by {
            if j < c {
                assert(u[i] == t[i] && u[j] == t[j]);
            } else if j == c {
                assert(u[i] == t[i]);
            } else if i < c {
                assert(u[i] == t[i] && u[j] == t[j - 1]);
            } else if i == c {
                assert(u[j] == t[j - 1]);
            } else {
                assert(u[i] == t[i - 1] && u[j] == t[j - 1]);
            }
        }
        assert(p.push(x) =~= s);
        assert(u.to_multiset() == t.to_multiset().insert(x));
        assert(s.to_multiset() == p.to_multiset().insert(x));
    }
}

/// Two sequences in increasing order with the same values are the same.
proof fn lemma_ascending_unique(a: Seq<u64>, b: Seq<u64>)
    requires
        ascending(a),
        ascending(b),
        a.to_multiset() == b.to_multiset(),
    ensures
        a == b,
    decreases a.len(),
{
    broadcast use vstd::seq_lib::to_multiset_build, vstd::seq_lib::to_multiset_len,
        vstd::seq_lib::to_multiset_contains;
    if a.len() == 0 {
        assert(b.to_multiset().len() == 0);
        assert(b =~= a);
    } else {
        assert(a.to_multiset().len() == a.len());
        assert(b.to_multiset().len() == b.len());
        assert(b.len() == a.len());
        let x = a.last();
        let y = b.last();
        assert(a.to_multiset().count(x) > 0) by { assert(a.contains(x)) by { assert(a[a.len() - 1] == x); } }
        assert(b.to_multiset().count(y) > 0) by { assert(b.contains(y)) by { assert(b[b.len() - 1] == y); } }
        assert(b.contains(x));
        assert(a.contains(y));
        let ib = choose|i: int| 0 <= i < b.len() && b[i] == x;
        let ia = choose|i: int| 0 <= i < a.len() && a[i] == y;
        assert(x <= y) by { if ib < b.len() - 1 { assert(b[ib] <= b[b.len() - 1]); } }
        assert(y <= x) by { if ia < a.len() - 1 { assert(a[ia] <= a[a.len() - 1]); } }
        let pa = a.drop_last();
        let pb = b.drop_last();
        assert(pa.push(x) =~= a);
        assert(pb.push(y) =~= b);
        assert(pa.to_multiset().insert(x) == pb.to_multiset().insert(x));
        assert(pa.to_multiset() =~= pb.to_multiset()) by {
            assert forall|v: u64| pa.to_multiset().count(v) == pb.to_multiset().count(v) by {
                assert(pa.to_multiset().insert(x).count(v) == pb.to_multiset().insert(x).count(v));
            }
        }
        lemma_ascending_unique(pa, pb);
    }
}

/// The median values do not depend on the order in which the values were added: the same
/// values, in any order, sort the same.
pub proof fn lemma_sorted_values_order_free(a: Seq<u64>, b: Seq<u64>)
    requires
        a.to_multiset() == b.to_multiset(),
    ensures
        sorted_values(a) == sorted_values(b),
{
    lemma_sorted_values(a);
    lemma_sorted_values(b);
    lemma_ascending_unique(sorted_values(a), sorted_values(b));
}

impl Statistics {
    /// The middle values of the sorted data points: the middle one twice for an odd count, the
    /// two middle ones for an even count; none without data points. Their mean is the median.
    pub fn median_values(&self) -> (r: Option<(u64, u64)>)
        ensures
            self.data_points@.len() == 0 ==> r is None,
            self.data_points@.len() > 0 ==> r == Some({
                let t = sorted_values(self.data_points@);
                let mid = (t.len() / 2) as int;
                if t.len() % 2 == 0 { (t[mid - 1], t[mid]) } else { (t[mid], t[mid]) }
            }),
    {
        let d = &self.data_points;
        if d.len() == 0 {
            return None;
        }
        let mut sorted: Vec<u64> = Vec::new();
        for i in 0..d.len()
            invariant
                sorted@ == sorted_values(d@.take(i as int)),
        {
            assert(d@.take(i + 1).drop_last() =~= d@.take(i as int));
            let x = d[i];
            let mut p: usize = 0;
            for j in 0..sorted.len()
                invariant
                    p == count_le(sorted@.take(j as int), x),
                    p <= j,
            {
                assert(sorted@.take(j + 1).drop_last() =~= sorted@.take(j as int));
                if sorted[j] <= x {
                    p = p + 1;
                }
            }
            assert(sorted@.take(sorted@.len() as int) =~= sorted@);
            sorted.insert(p, x);
        }
        assert(d@.take(d@.len() as int) =~= d@);
        proof {
            lemma_sorted_values_len(d@);
        }
        let mid = sorted.len() / 2;
        if sorted.len() % 2 == 0 {
            Some((sorted[mid - 1], sorted[mid]))
        } else {
            Some((sorted[mid], sorted[mid]))
        }
    }
}

/// Number of spans that start no later than `t`.
pub open spec fn count_starting_by(spans: Seq<Rc<Span>>, t: u64) -> nat
    decreases spans.len(),
{
    if spans.len() == 0 {
        0
    } else {
        count_starting_by(spans.drop_last(), t) + if spans.last().start_time <= t { 1nat } else { 0nat }
    }
}

/// `x` placed after the spans that start no later than it.
pub open spec fn insert_by_start(sorted: Seq<Rc<Span>>, x: Rc<Span>) -> Seq<Rc<Span>> {
    sorted.insert(count_starting_by(sorted, x.start_time) as int, x)
}

/// The spans ordered by start time; spans that start together keep their order.
pub open spec fn sort_by_start(spans: Seq<Rc<Span>>) -> Seq<Rc<Span>>
    decreases spans.len(),
{
    if spans.len() == 0 {
        spans
    } else {
        insert_by_start(sort_by_start(spans.drop_last()), spans.last())
    }
}

proof fn lemma_count_starting_by_le(spans: Seq<Rc<Span>>, t: u64)
    ensures
        count_starting_by(spans, t) <= spans.len(),
    decreases spans.len(),
{
    if spans.len() > 0 {
        lemma_count_starting_by_le(spans.drop_last(), t);
    }
}

proof fn lemma_sort_len(spans: Seq<Rc<Span>>)
    ensures
        sort_by_start(spans).len() == spans.len(),
    decreases spans.len(),
{
    if spans.len() > 0 {
        lemma_sort_len(spans.drop_last());
        lemma_count_starting_by_le(sort_by_start(spans.drop_last()), spans.last().start_time);
    }
}

/// The spans are in order of start time.
pub open spec fn starts_sorted(s: Seq<Rc<Span>>) -> bool {
    forall|i: int, j: int| 0 <= i <= j < s.len() ==> #[trigger] s[i].start_time <= #[trigger] s[j].start_time
}

/// In spans ordered by start time, those that start no later than `t` come first.
proof fn lemma_count_split(s: Seq<Rc<Span>>, t: u64)
    requires
        starts_sorted(s),
    ensures
        count_starting_by(s, t) <= s.len(),
        forall|i: int| 0 <= i < count_starting_by(s, t) ==> #[trigger] s[i].start_time <= t,
        forall|i: int| count_starting_by(s, t) <= i < s.len() ==> #[trigger] s[i].start_time > t,
    decreases s.len(),
{
    if s.len() > 0 {
        let p = s.drop_last();
        assert(starts_sorted(p)) by {
            assert forall|i: int, j: int| 0 <= i <= j < p.len() implies #[trigger] p[i].start_time <= #[trigger] p[j].start_time by {
                assert(s[i].start_time <= s[j].start_time);
            }
        }
        lemma_count_split(p, t);
        let c = count_starting_by(p, t);
        if s.last().start_time <= t {
            if c < p.len() {
                assert(s[c as int].start_time <= s[s.len() - 1].start_time);
                assert(p[c as int].start_time > t);
            }
            assert forall|i: int| 0 <= i < count_starting_by(s, t) implies #[trigger] s[i].start_time <= t by {
                if i < p.len() {
                    assert(p[i].start_time <= t);
                }
            }
        } else {
            assert forall|i: int| count_starting_by(s, t) <= i < s.len() implies #[trigger] s[i].start_time > t by {
                if i < p.len() {
                    assert(p[i].start_time > t);
                }
            }
            assert forall|i: int| 0 <= i < count_starting_by(s, t) implies #[trigger] s[i].start_time <= t by {
                assert(p[i].start_time <= t);
            }
        }
    }
}

/// Sorting by start time orders the spans by start time and keeps each of them, as often as
/// it occurs.
pub proof fn lemma_sort_by_start_sorted(spans: Seq<Rc<Span>>)
    ensures
        starts_sorted(sort_by_start(spans)),
        sort_by_start(spans).to_multiset() == spans.to_multiset(),
    decreases spans.len(),
{
    broadcast use vstd::seq_lib::to_multiset_insert, vstd::seq_lib::to_multiset_build;
    if spans.len() == 0 {
    } else {
        let q = sort_by_start(spans.drop_last());
        let x = spans.last();
        lemma_sort_by_start_sorted(spans.drop_last());
        lemma_count_split(q, x.start_time);
        let c = count_starting_by(q, x.start_time) as int;
        let r = sort_by_start(spans);
        assert(r == q.insert(c, x));
        assert forall|i: int, j: int| 0 <= i <= j < r.len() implies #[trigger] r[i].start_time <= #[trigger] r[j].start_time by {
            if j < c {
                assert(r[i] == q[i] && r[j] == q[j]);
            } else if j == c {
                if i < c {
                    assert(r[i] == q[i]);
                }
            } else if i < c {
                assert(r[i] == q[i] && r[j] == q[j - 1]);
            } else if i == c {
                assert(r[j] == q[j - 1]);
            } else {
                assert(r[i] == q[i - 1] && r[j] == q[j - 1]);
            }
        }
        assert(spans.drop_last().push(x) == spans);
    }
}

/// Sorts spans by start time, keeping the order of spans that start together.
pub fn sort_spans_by_start(spans: &Vec<Rc<Span>>) -> (r: Vec<Rc<Span>>)
    ensures
        r@ == sort_by_start(spans@),
{
    let mut res: Vec<Rc<Span>> = Vec::new();
    for i in 0..spans.len()
        invariant
            res@ == sort_by_start(spans@.take(i as int)),
    {
        assert(spans@.take(i + 1).drop_last() =~= spans@.take(i as int));
        let x = &spans[i];
        let mut p: usize = 0;
        for j in 0..res.len()
            invariant
                p == count_starting_by(res@.take(j as int), x.start_time),
                p <= j,
        {
            assert(res@.take(j + 1).drop_last() =~= res@.take(j as int));
            if res[j].start_time <= x.start_time {
                p += 1;
            }
        }
        assert(res@.take(res@.len() as int) =~= res@);
        res.insert(p, rc_clone(x));
    }
    assert(spans@.take(spans@.len() as int) =~= spans@);
    res
}

/// What `str::to_lowercase` gives for the characters of a string.
pub uninterp spec fn lowercase(s: Seq<char>) -> Seq<char>;

/// The lowercase form of a string, as `str::to_lowercase` gives it.
#[verifier::external_body]
pub(crate) fn to_lowercase(s: &str) -> (r: String)
    ensures
        r@ == lowercase(s@),
{
    s.to_lowercase()
}

/// `a` comes no later than `b` in the order of their characters.
pub open spec fn chars_le(a: Seq<char>, b: Seq<char>) -> bool
    decreases a.len(),
{
    if a.len() == 0 {
        true
    } else if b.len() == 0 {
        false
    } else if a[0] != b[0] {
        a[0] < b[0]
    } else {
        chars_le(a.drop_first(), b.drop_first())
    }
}

/// Whether `a` comes no later than `b` in the order of their characters, which is the order of `String`.
pub fn chars_le_exec(a: &[char], b: &[char]) -> (r: bool)
    ensures
        r == chars_le(a@, b@),
{
    let mut i: usize = 0;
    assert(a@.skip(0) =~= a@);
    assert(b@.skip(0) =~= b@);
    while i < a.len()
        invariant
            i <= a@.len(),
            chars_le(a@, b@) == chars_le(a@.skip(i as int), b@.skip(i as int)),
            i <= b@.len(),
        decreases a.len() - i,
    {
        assert(a@.skip(i as int).drop_first() =~= a@.skip(i + 1));
        if i >= b.len() {
            return false;
        }
        assert(b@.skip(i as int).drop_first() =~= b@.skip(i + 1));
        if a[i] != b[i] {
            return a[i] < b[i];
        }
        i += 1;
    }
    true
}

/// The names in the order of their lowercase forms.
pub open spec fn sorted_by_lowercase(names: Seq<String>) -> bool {
    forall|i: int, j: int| 0 <= i < j < names.len() ==> chars_le(lowercase(names[i]@), lowercase(names[j]@))
}

/// All spans of the trees under the given roots (each root's tree in preorder, each id once per
/// tree), and the distinct trace names of those spans, in the order of their lowercase forms.
pub open spec fn analysis_spans(spans: Seq<Rc<Span>>) -> Seq<Rc<Span>>
    decreases spans.len(),
{
    if spans.len() == 0 {
        Seq::empty()
    } else {
        analysis_spans(spans.drop_last()) + visit(*spans.last(), Seq::empty())
    }
}

proof fn lemma_chars_le_total(a: Seq<char>, b: Seq<char>)
    ensures
        chars_le(a, b) || chars_le(b, a),
    decreases a.len(),
{
    if a.len() > 0 && b.len() > 0 && a[0] == b[0] {
        lemma_chars_le_total(a.drop_first(), b.drop_first());
    }
}

proof fn lemma_chars_le_trans(a: Seq<char>, b: Seq<char>, c: Seq<char>)
    requires
        chars_le(a, b),
        chars_le(b, c),
    ensures
        chars_le(a, c),
    decreases a.len(),
{
    if a.len() > 0 && b.len() > 0 && c.len() > 0 && a[0] == b[0] && b[0] == c[0] {
        lemma_chars_le_trans(a.drop_first(), b.drop_first(), c.drop_first());
    }
}

/// Each span's trace name is listed, and each listed name is that of a span.
pub open spec fn names_cover(spans: Seq<Rc<Span>>, names: Seq<String>) -> bool {
    &&& forall|i: int| 0 <= i < spans.len() ==> name_listed(names, #[trigger] spans[i].original_name@)
    &&& forall|j: int| 0 <= j < names.len() ==> name_of_some(spans, #[trigger] names[j]@)
}

/// Some name of the list is `n`.
pub open spec fn name_listed(names: Seq<String>, n: Seq<char>) -> bool {
    exists|j: int| 0 <= j < names.len() && #[trigger] names[j]@ == n
}

/// Some span of the list has the trace name `n`.
pub open spec fn name_of_some(spans: Seq<Rc<Span>>, n: Seq<char>) -> bool {
    exists|i: int| 0 <= i < spans.len() && #[trigger] spans[i].original_name@ == n
}

/// Processes a slice of spans to collect a deduplicated list of all spans (including children)
/// and a sorted list of unique span names.
pub fn process_spans_for_analysis(spans: &[Rc<Span>]) -> (r: (Vec<Rc<Span>>, Vec<String>))
    ensures
        r.0@ == analysis_spans(spans@),
        names_cover(r.0@, r.1@),
        forall|i: int, j: int| 0 <= i < j < r.1@.len() ==> r.1@[i]@ != r.1@[j]@,
        sorted_by_lowercase(r.1@),
{
    let mut all_spans: Vec<Rc<Span>> = Vec::new();
    for i in 0..spans.len()
        invariant
            all_spans@ == analysis_spans(spans@.take(i as int)),
    {
        assert(spans@.take(i + 1).drop_last() =~= spans@.take(i as int));
        collect_span_tree_with_deduplication(&spans[i], &mut all_spans);
    }
    assert(spans@.take(spans@.len() as int) =~= spans@);
    // Sorted insertion of each distinct name, by lowercase form.
    let mut names: Vec<String> = Vec::new();
    let mut keys: Vec<Vec<char>> = Vec::new();
    let mut i: usize = 0;
    while i < all_spans.len()
        invariant
            i <= all_spans@.len(),
            names@.len() == keys@.len(),
            forall|k: int| 0 <= k < keys@.len() ==> #[trigger] keys@[k]@ == lowercase(names@[k]@),
            forall|a: int| 0 <= a < i ==> name_listed(names@, #[trigger] all_spans@[a].original_name@),
            forall|j: int| 0 <= j < names@.len() ==> name_of_some(all_spans@, #[trigger] names@[j]@),
            forall|a: int, b: int| 0 <= a < b < names@.len() ==> names@[a]@ != names@[b]@,
            sorted_by_lowercase(names@),
        decreases all_spans.len() - i,
    {
        let name = &all_spans[i].original_name;
        let mut present = false;
        let mut k: usize = 0;
        while k < names.len()
            invariant
                k <= names@.len(),
                !present ==> forall|j: int| 0 <= j < k ==> names@[j]@ != name@,
                present ==> name_listed(names@, name@),
            decreases names.len() - k,
        {
            if names[k].eq(name) {
                present = true;
                assert(names@[k as int]@ == name@);
            }
            k += 1;
        }
        if present {
            assert(name_listed(names@, all_spans@[i as int].original_name@));
        } else {
            let key_s = to_lowercase(name.as_str());
            let key = chars_of(key_s.as_str());
            let mut p: usize = 0;
            while p < keys.len() && chars_le_exec(keys[p].as_slice(), key.as_slice())
                invariant
                    p <= keys@.len(),
                    names@.len() == keys@.len(),
                    forall|m: int| 0 <= m < keys@.len() ==> #[trigger] keys@[m]@ == lowercase(names@[m]@),
                    forall|m: int| 0 <= m < p ==> chars_le(lowercase(names@[m]@), key@),
                decreases keys.len() - p,
            {
                p += 1;
            }
            let ghost old_names = names@;
            proof {
                if p < keys@.len() {
                    assert(!chars_le(keys@[p as int]@, key@));
                    lemma_chars_le_total(keys@[p as int]@, key@);
                }
                assert forall|m: int| p <= m < old_names.len() implies chars_le(key@, lowercase(#[trigger] old_names[m]@)) by {
                    assert(!chars_le(keys@[p as int]@, key@));
                    lemma_chars_le_total(keys@[p as int]@, key@);
                    if m > p {
                        lemma_chars_le_trans(key@, lowercase(old_names[p as int]@), lowercase(old_names[m]@));
                    }
                }
            }
            names.insert(p, name.clone());
            keys.insert(p, key);
            proof {
                assert forall|a: int, b: int| 0 <= a < b < names@.len() implies chars_le(lowercase(names@[a]@), lowercase(names@[b]@)) by {
                    if b < p as int {
                        assert(names@[a] == old_names[a] && names@[b] == old_names[b]);
                    } else if b == p as int {
                        assert(names@[a] == old_names[a]);
                    } else if a == p as int {
                        assert(names@[b] == old_names[b - 1]);
                    } else if a < p as int {
                        assert(names@[a] == old_names[a] && names@[b] == old_names[b - 1]);
                        lemma_chars_le_trans(lowercase(old_names[a]@), key@, lowercase(old_names[b - 1]@));
                    } else {
                        assert(names@[a] == old_names[a - 1] && names@[b] == old_names[b - 1]);
                    }
                }
                assert forall|x: int| 0 <= x < names@.len() implies name_of_some(all_spans@, #[trigger] names@[x]@) by {
                    if x < p as int {
                        assert(names@[x] == old_names[x]);
                    } else if x == p as int {
                        assert(names@[x]@ == all_spans@[i as int].original_name@);
                    } else {
                        assert(names@[x] == old_names[x - 1]);
                    }
                }
                assert forall|a: int, b: int| 0 <= a < b < names@.len() implies names@[a]@ != names@[b]@ by {
                    if a == p as int {
                        assert(names@[b] == old_names[b - 1]);
                    } else if b == p as int {
                        assert(names@[a] == old_names[a]);
                    } else if a < p as int && b < p as int {
                        assert(names@[a] == old_names[a] && names@[b] == old_names[b]);
                    } else if a < p as int {
                        assert(names@[a] == old_names[a] && names@[b] == old_names[b - 1]);
                    } else {
                        assert(names@[a] == old_names[a - 1] && names@[b] == old_names[b - 1]);
                    }
                }
                assert forall|m: int| 0 <= m < keys@.len() implies #[trigger] keys@[m]@ == lowercase(names@[m]@) by {
                    if m < p as int {
                        assert(names@[m] == old_names[m]);
                    } else if m > p as int {
                        assert(names@[m] == old_names[m - 1]);
                    }
                }
                assert forall|a: int| 0 <= a < i + 1 implies name_listed(names@, #[trigger] all_spans@[a].original_name@) by {
                    if a == i as int {
                        assert(names@[p as int]@ == all_spans@[a].original_name@);
                    } else {
                        assert(name_listed(old_names, all_spans@[a].original_name@));
                        let j = choose|j: int| 0 <= j < old_names.len() && #[trigger] old_names[j]@ == all_spans@[a].original_name@;
                        if j < p as int {
                            assert(names@[j] == old_names[j]);
                        } else {
                            assert(names@[j + 1] == old_names[j]);
                        }
                    }
                }
            }
        }
        i += 1;
    }
    assert(names_cover(all_spans@, names@));
    (all_spans, names)
}

} // verus!
