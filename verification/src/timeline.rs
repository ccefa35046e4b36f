//! What the timeline needs of the span trees: their time extents, their events, where blocks
//! are produced, and whether intervals and rows meet.

use vstd::prelude::*;
use std::rc::Rc;

use crate::analyze_utils::rc_clone;
use crate::relation::{forest_spans, gather_forest};
use crate::text::{starts_with_seq, starts_with_str};
use crate::types::{copy_events, events_same, fields_copy_of, segments_of, Event, Span, TimePoint};

verus! {

broadcast use vstd::std_specs::vec::group_vec_axioms;

/// `x` lies in `[a, b]`.
pub open spec fn between(x: u64, a: u64, b: u64) -> bool {
    a <= x && x <= b
}

/// Whether `x` lies in `[a, b]`.
pub fn is_between(x: u64, a: u64, b: u64) -> (r: bool)
    ensures
        r == between(x, a, b),
{
    a <= x && x <= b
}

/// An end of one interval lies in the other.
pub open spec fn intersecting(a: u64, b: u64, c: u64, d: u64) -> bool {
    between(a, c, d) || between(b, c, d) || between(c, a, b) || between(d, a, b)
}

/// Whether `[a, b]` and `[c, d]` meet: an end of one lies in the other.
pub fn is_intersecting(a: u64, b: u64, c: u64, d: u64) -> (r: bool)
    ensures
        r == intersecting(a, b, c, d),
{
    is_between(a, c, d) || is_between(b, c, d) || is_between(c, a, b) || is_between(d, a, b)
}

/// Rows `[y1, y1 + height1]` and `[y2, y2 + height2]` overlap by more than touching.
pub open spec fn collide_in_y(y1: u64, height1: u64, y2: u64, height2: u64) -> bool {
    intersecting(y1, (y1 + height1) as u64, y2, (y2 + height2) as u64)
        && y1 + height1 != y2 && y2 + height2 != y1
}

/// Whether two spans drawn on rows `[y1, y1 + height1]` and `[y2, y2 + height2]` overlap;
/// touching rows do not.
pub fn do_spans_collide_in_y(y1: u64, height1: u64, y2: u64, height2: u64) -> (r: bool)
    requires
        y1 + height1 <= u64::MAX,
        y2 + height2 <= u64::MAX,
    ensures
        r == collide_in_y(y1, height1, y2, height2),
{
    if !is_intersecting(y1, y1 + height1, y2, y2 + height2) {
        return false;
    }
    if y1 + height1 == y2 || y2 + height2 == y1 {
        return false;
    }
    true
}

/// Closed intervals meet exactly when each starts no later than the other ends.
pub proof fn lemma_intersecting_intervals(a: u64, b: u64, c: u64, d: u64)
    requires
        a <= b,
        c <= d,
    ensures
        intersecting(a, b, c, d) <==> (a <= d && c <= b),
{
}

/// Meeting does not depend on which interval comes first.
pub proof fn lemma_intersecting_symmetric(a: u64, b: u64, c: u64, d: u64)
    ensures
        intersecting(a, b, c, d) == intersecting(c, d, a, b),
{
}

/// Collision does not depend on which span comes first.
pub proof fn lemma_collide_symmetric(y1: u64, height1: u64, y2: u64, height2: u64)
    requires
        y1 + height1 <= u64::MAX,
        y2 + height2 <= u64::MAX,
    ensures
        collide_in_y(y1, height1, y2, height2) == collide_in_y(y2, height2, y1, height1),
{
}

/// Rows that touch or are apart do not collide; rows that share more than an edge do.
pub proof fn lemma_collide_rows(y1: u64, height1: u64, y2: u64, height2: u64)
    requires
        y1 + height1 <= u64::MAX,
        y2 + height2 <= u64::MAX,
    ensures
        collide_in_y(y1, height1, y2, height2) <==> (y1 < y2 + height2 && y2 < y1 + height1),
{
}

/// The earliest start below and at a span.
pub open spec fn subtree_min(s: Span) -> u64
    decreases s,
{
    list_min(s.children@, s.start_time)
}

/// `m` or the earliest start below and at any of the spans, if earlier.
pub open spec fn list_min(cs: Seq<Rc<Span>>, m: u64) -> u64
    decreases cs,
{
    if cs.len() == 0 {
        m
    } else {
        let a = list_min(cs.drop_last(), m);
        let b = subtree_min(*cs.last());
        if b < a { b } else { a }
    }
}

/// The latest end below and at a span.
pub open spec fn subtree_max(s: Span) -> u64
    decreases s,
{
    list_max(s.children@, s.end_time)
}

/// `m` or the latest end below and at any of the spans, if later.
pub open spec fn list_max(cs: Seq<Rc<Span>>, m: u64) -> u64
    decreases cs,
{
    if cs.len() == 0 {
        m
    } else {
        let a = list_max(cs.drop_last(), m);
        let b = subtree_max(*cs.last());
        if b > a { b } else { a }
    }
}

/// `r` is a copy of the tree of `s` in which each span's extent is that of the spans at and
/// below it.
pub open spec fn extents_of(r: Span, s: Span) -> bool
    decreases s,
{
    &&& fields_copy_of(r, Span { min_start_time: r.min_start_time, max_end_time: r.max_end_time, ..s })
    &&& segments_of(r.active_segments) == segments_of(s.active_segments)
    &&& r.min_start_time == subtree_min(s)
    &&& r.max_end_time == subtree_max(s)
    &&& extents_list(r.children@, s.children@)
}

/// `extents_of` for each pair of spans.
pub open spec fn extents_list(rs: Seq<Rc<Span>>, ss: Seq<Rc<Span>>) -> bool
    decreases ss,
{
    &&& rs.len() == ss.len()
    &&& ss.len() > 0 ==> {
        &&& extents_list(rs.drop_last(), ss.drop_last())
        &&& extents_of(*rs.last(), *ss.last())
    }
}

fn with_extents(span: &Rc<Span>) -> (r: Rc<Span>)
    ensures
        extents_of(*r, **span),
    decreases **span,
{
    let children = &span.children;
    let mut new_children: Vec<Rc<Span>> = Vec::new();
    let mut min_start = span.start_time;
    let mut max_end = span.end_time;
    for i in 0..children.len()
        invariant
            *children == span.children,
            new_children@.len() == i,
            extents_list(new_children@, children@.take(i as int)),
            min_start == list_min(children@.take(i as int), span.start_time),
            max_end == list_max(children@.take(i as int), span.end_time),
    {
        assert(children@.take(i + 1).drop_last() =~= children@.take(i as int));
        proof {
            assert(decreases_to!(**span => span.children));
            assert(decreases_to!(span.children => span.children@));
            assert(decreases_to!(span.children@ => *span.children@[i as int]));
        }
        let c = with_extents(&children[i]);
        if c.min_start_time < min_start {
            min_start = c.min_start_time;
        }
        if c.max_end_time > max_end {
            max_end = c.max_end_time;
        }
        let ghost before = new_children@;
        new_children.push(c);
        assert(new_children@.drop_last() =~= before);
    }
    assert(children@.take(children@.len() as int) =~= children@);
    let mut copy = crate::types::copy_span(span, new_children);
    copy.min_start_time = min_start;
    copy.max_end_time = max_end;
    Rc::new(copy)
}

/// The trees with each span's extent set to that of the spans at and below it.
pub fn set_min_max_time(spans: &[Rc<Span>]) -> (r: Vec<Rc<Span>>)
    ensures
        extents_list(r@, spans@),
{
    let mut out: Vec<Rc<Span>> = Vec::new();
    for i in 0..spans.len()
        invariant
            extents_list(out@, spans@.take(i as int)),
    {
        assert(spans@.take(i + 1).drop_last() =~= spans@.take(i as int));
        let c = with_extents(&spans[i]);
        let ghost before = out@;
        out.push(c);
        assert(out@.drop_last() =~= before);
    }
    assert(spans@.take(spans.len() as int) =~= spans@);
    out
}

/// The earliest extent start of the spans.
pub open spec fn min_extent_start(spans: Seq<Rc<Span>>) -> u64
    decreases spans.len(),
{
    if spans.len() <= 1 {
        spans[0].min_start_time
    } else if spans.last().min_start_time < min_extent_start(spans.drop_last()) {
        spans.last().min_start_time
    } else {
        min_extent_start(spans.drop_last())
    }
}

/// The latest extent end of the spans.
pub open spec fn max_extent_end(spans: Seq<Rc<Span>>) -> u64
    decreases spans.len(),
{
    if spans.len() <= 1 {
        spans[0].max_end_time
    } else if spans.last().max_end_time > max_extent_end(spans.drop_last()) {
        spans.last().max_end_time
    } else {
        max_extent_end(spans.drop_last())
    }
}

/// The spans cover from the earliest extent start to the latest extent end: no span's extent
/// starts earlier or ends later, and some span's extent starts and some span's extent ends there.
pub proof fn lemma_extent_bounds(spans: Seq<Rc<Span>>)
    requires
        spans.len() > 0,
    ensures
        forall|i: int| 0 <= i < spans.len() ==> min_extent_start(spans) <= spans[i].min_start_time
            && spans[i].max_end_time <= max_extent_end(spans),
        exists|i: int| 0 <= i < spans.len() && min_extent_start(spans) == spans[i].min_start_time,
        exists|i: int| 0 <= i < spans.len() && max_extent_end(spans) == spans[i].max_end_time,
    decreases spans.len(),
{
    if spans.len() > 1 {
        let p = spans.drop_last();
        lemma_extent_bounds(p);
        assert forall|i: int| 0 <= i < p.len() implies spans[i] == p[i] by {}
        let a = choose|i: int| 0 <= i < p.len() && min_extent_start(p) == p[i].min_start_time;
        let b = choose|i: int| 0 <= i < p.len() && max_extent_end(p) == p[i].max_end_time;
        assert(spans[a] == p[a]);
        assert(spans[b] == p[b]);
        assert(spans[spans.len() - 1] == spans.last());
    } else {
        assert(spans[0].min_start_time == min_extent_start(spans));
        assert(spans[0].max_end_time == max_extent_end(spans));
    }
}

/// The earliest start over a list of trees and a bound is no later than the bound and than each
/// tree's earliest start, and is one of them; the latest end likewise.
pub proof fn lemma_list_extent(cs: Seq<Rc<Span>>, m: u64)
    ensures
        list_min(cs, m) <= m,
        list_max(cs, m) >= m,
        forall|i: int| 0 <= i < cs.len() ==> list_min(cs, m) <= subtree_min(*cs[i])
            && subtree_max(*cs[i]) <= list_max(cs, m),
        list_min(cs, m) == m || exists|i: int| 0 <= i < cs.len() && list_min(cs, m) == subtree_min(*cs[i]),
        list_max(cs, m) == m || exists|i: int| 0 <= i < cs.len() && list_max(cs, m) == subtree_max(*cs[i]),
    decreases cs.len(),
{
    if cs.len() > 0 {
        let p = cs.drop_last();
        lemma_list_extent(p, m);
        assert forall|i: int| 0 <= i < p.len() implies cs[i] == p[i] by {}
        if list_min(p, m) != m {
            let a = choose|i: int| 0 <= i < p.len() && list_min(p, m) == subtree_min(*p[i]);
            assert(cs[a] == p[a]);
        }
        if list_max(p, m) != m {
            let b = choose|i: int| 0 <= i < p.len() && list_max(p, m) == subtree_max(*p[i]);
            assert(cs[b] == p[b]);
        }
        assert(cs[cs.len() - 1] == cs.last());
    }
}

/// The time the spans cover, from the earliest extent start to the latest extent end; none for
/// no spans.
pub fn get_min_max_time(spans: &[Rc<Span>]) -> (r: Option<(TimePoint, TimePoint)>)
    ensures
        spans@.len() == 0 ==> r is None,
        spans@.len() > 0 ==> r == Some((min_extent_start(spans@), max_extent_end(spans@))),
{
    if spans.len() == 0 {
        return None;
    }
    let mut min_time = spans[0].min_start_time;
    let mut max_time = spans[0].max_end_time;
    for i in 1..spans.len()
        invariant
            spans@.len() >= 1,
            min_time == min_extent_start(spans@.take(i as int)),
            max_time == max_extent_end(spans@.take(i as int)),
    {
        assert(spans@.take(i + 1).drop_last() =~= spans@.take(i as int));
        if spans[i].min_start_time < min_time {
            min_time = spans[i].min_start_time;
        }
        if spans[i].max_end_time > max_time {
            max_time = spans[i].max_end_time;
        }
    }
    assert(spans@.take(spans.len() as int) =~= spans@);
    Some((min_time, max_time))
}

/// The events of a span and of the spans below it.
pub open spec fn tree_events(s: Span) -> Seq<Event>
    decreases s,
{
    s.events@ + list_events(s.children@)
}

/// The events of the trees, tree after tree.
pub open spec fn list_events(cs: Seq<Rc<Span>>) -> Seq<Event>
    decreases cs,
{
    if cs.len() == 0 {
        Seq::empty()
    } else {
        list_events(cs.drop_last()) + tree_events(*cs.last())
    }
}

/// The number of events of a span and of the spans below it, or the largest count when there
/// are more.
pub fn count_events(span: &Span) -> (r: usize)
    ensures
        r == (if tree_events(*span).len() <= usize::MAX { tree_events(*span).len() as usize } else { usize::MAX }),
    decreases span,
{
    let mut count: usize = span.events.len();
    let children = &span.children;
    for i in 0..children.len()
        invariant
            *children == span.children,
            count == (if span.events@.len() + list_events(children@.take(i as int)).len() <= usize::MAX {
                (span.events@.len() + list_events(children@.take(i as int)).len()) as usize
            } else {
                usize::MAX
            }),
    {
        assert(children@.take(i + 1).drop_last() =~= children@.take(i as int));
        proof {
            assert(decreases_to!(*span => span.children));
            assert(decreases_to!(span.children => span.children@));
            assert(decreases_to!(span.children@ => *span.children@[i as int]));
        }
        let c = count_events(&children[i]);
        count = count.saturating_add(c);
    }
    assert(children@.take(children@.len() as int) =~= children@);
    count
}

/// Copies of the events of a span and of the spans below it, the span's own first.
pub fn collect_events(span: &Span) -> (r: Vec<Event>)
    ensures
        events_same(r@, tree_events(*span)),
    decreases span,
{
    let mut result = copy_events(&span.events);
    let children = &span.children;
    for i in 0..children.len()
        invariant
            *children == span.children,
            events_same(result@, span.events@ + list_events(children@.take(i as int))),
    {
        assert(children@.take(i + 1).drop_last() =~= children@.take(i as int));
        proof {
            assert(decreases_to!(*span => span.children));
            assert(decreases_to!(span.children => span.children@));
            assert(decreases_to!(span.children@ => *span.children@[i as int]));
        }
        let mut more = collect_events(&children[i]);
        let ghost before = result@;
        result.append(&mut more);
        proof {
            let target = span.events@ + list_events(children@.take(i + 1));
            let prev = span.events@ + list_events(children@.take(i as int));
            assert(target =~= prev + tree_events(*children@[i as int]));
            assert forall|k: int| 0 <= k < result@.len() implies {
                &&& (#[trigger] result@[k]).name@ == target[k].name@
                &&& result@[k].time == target[k].time
                &&& crate::types::kv_list_same(result@[k].attributes@, target[k].attributes@)
            } by {
                if k < before.len() {
                    assert(result@[k] == before[k]);
                    assert(target[k] == prev[k]);
                } else {
                    assert(target[k] == tree_events(*children@[i as int])[k - before.len()]);
                }
            }
        }
    }
    assert(children@.take(children@.len() as int) =~= children@);
    result
}

/// The spans of the trees, in preorder, whose name starts with "produce_block", each as its
/// start and its node's name.
pub open spec fn produce_block_starts(spans: Seq<Rc<Span>>) -> Seq<(TimePoint, Seq<char>)>
    decreases spans.len(),
{
    if spans.len() == 0 {
        Seq::empty()
    } else if starts_with_seq(spans.last().name@, "produce_block"@) {
        produce_block_starts(spans.drop_last()).push((spans.last().start_time, spans.last().node.name@))
    } else {
        produce_block_starts(spans.drop_last())
    }
}

/// Where and when blocks are produced: the start and node of each span of the trees, in
/// preorder, whose name starts with "produce_block".
pub fn collect_produce_block_starts_with_nodes(spans: &[Rc<Span>]) -> (r: Vec<(TimePoint, String)>)
    ensures
        r@.map_values(|p: (TimePoint, String)| (p.0, p.1@)) == produce_block_starts(forest_spans(spans@)),
{
    let all = gather_forest(spans);
    let mut result: Vec<(TimePoint, String)> = Vec::new();
    for i in 0..all.len()
        invariant
            result@.map_values(|p: (TimePoint, String)| (p.0, p.1@)) == produce_block_starts(all@.take(i as int)),
    {
        assert(all@.take(i + 1).drop_last() =~= all@.take(i as int));
        if starts_with_str(all[i].name.as_str(), "produce_block") {
            let ghost before = result@;
            result.push((all[i].start_time, all[i].node.name.clone()));
            assert(result@.map_values(|p: (TimePoint, String)| (p.0, p.1@))
                =~= before.map_values(|p: (TimePoint, String)| (p.0, p.1@)).push((all@[i as int].start_time, all@[i as int].node.name@)));
        }
    }
    assert(all@.take(all.len() as int) =~= all@);
    result
}

} // verus!
