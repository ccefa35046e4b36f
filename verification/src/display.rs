//! What the timeline shows of the span trees: the children displayed under each span, where a
//! span can collapse everything below it but the spans kept open; and the spans and time window
//! brought into view for dependency links.

use vstd::prelude::*;
use std::rc::Rc;

use crate::analyze_dependency::DependencyLink;
use crate::analyze_utils::{contains_id, contains_span_id, rc_clone, span_ids};
use crate::modes::{max_end, max_end_of, min_start, min_start_of};
use crate::relation::{forest_spans, gather_tree, tree_spans};
use crate::types::{copy_span, span_copy_of, Span, TimePoint};

verus! {

broadcast use vstd::std_specs::vec::group_vec_axioms;

/// The span stays displayed under a collapsing span: it asks for it, or it is highlighted.
pub open spec fn kept_open(s: Span, highlighted: Seq<Seq<u8>>) -> bool {
    s.dont_collapse_this_span || highlighted.contains(s.span_id@)
}

/// The spans displayed at one level for the spans in turn: under a collapsing span, a span that
/// is not kept open is left out and the spans displayed for its children take its place.
pub open spec fn shown_list(spans: Seq<Rc<Span>>, collapsing: bool, highlighted: Seq<Seq<u8>>) -> Seq<Rc<Span>>
    decreases spans,
{
    if spans.len() == 0 {
        Seq::empty()
    } else {
        shown_list(spans.drop_last(), collapsing, highlighted) + shown_one(*spans.last(), collapsing, highlighted)
    }
}

/// The spans displayed for one span: the span itself, unless a collapsing span above hides it.
pub open spec fn shown_one(span: Span, collapsing: bool, highlighted: Seq<Seq<u8>>) -> Seq<Rc<Span>>
    decreases span,
{
    if collapsing && !kept_open(span, highlighted) {
        shown_list(span.children@, true, highlighted)
    } else {
        seq![Rc::new(span)]
    }
}

/// `out` displays `orig`: a copy of it whose children display, in order, the spans displayed
/// below it; below a span that collapses its children, only the spans kept open are displayed.
pub open spec fn displays(out: Span, orig: Span, highlighted: Seq<Seq<u8>>) -> bool
    decreases out,
{
    &&& span_copy_of(out, orig)
    &&& all_display(out.children@, shown_list(orig.children@, orig.collapse_children, highlighted), highlighted)
}

/// Each span of `outs` displays the span at the same place in `origs`.
pub open spec fn all_display(outs: Seq<Rc<Span>>, origs: Seq<Rc<Span>>, highlighted: Seq<Seq<u8>>) -> bool
    decreases outs,
{
    &&& outs.len() == origs.len()
    &&& outs.len() > 0 ==> {
        &&& all_display(outs.drop_last(), origs.drop_last(), highlighted)
        &&& displays(*outs.last(), *origs.last(), highlighted)
    }
}

/// The ids of a list of ids.
pub open spec fn ids_view(ids: Seq<Vec<u8>>) -> Seq<Seq<u8>> {
    ids.map_values(|v: Vec<u8>| v@)
}

fn shown_into(
    out: &mut Vec<Rc<Span>>,
    Ghost(g): Ghost<Seq<Rc<Span>>>,
    span: &Rc<Span>,
    collapsing: bool,
    highlighted: &Vec<Vec<u8>>,
)
    requires
        all_display(old(out)@, g, ids_view(highlighted@)),
    ensures
        all_display(final(out)@, g + shown_one(**span, collapsing, ids_view(highlighted@)), ids_view(highlighted@)),
    decreases **span,
{
    let ghost hl = ids_view(highlighted@);
    let keep = span.dont_collapse_this_span || contains_id(highlighted, &span.span_id);
    let children = &span.children;
    if collapsing && !keep {
        let ghost start = out@;
        for i in 0..children.len()
            invariant
                *children == span.children,
                hl == ids_view(highlighted@),
                all_display(out@, g + shown_list(children@.take(i as int), true, hl), hl),
        {
            assert(children@.take(i + 1).drop_last() =~= children@.take(i as int));
            proof {
                assert(decreases_to!(**span => span.children));
                assert(decreases_to!(span.children => span.children@));
                assert(decreases_to!(span.children@ => *span.children@[i as int]));
            }
            shown_into(out, Ghost(g + shown_list(children@.take(i as int), true, hl)), &children[i], true, highlighted);
            assert(g + shown_list(children@.take(i as int), true, hl) + shown_one(*children@[i as int], true, hl)
                =~= g + shown_list(children@.take(i + 1), true, hl));
        }
        assert(children@.take(children@.len() as int) =~= children@);
    } else {
        let mut kids: Vec<Rc<Span>> = Vec::new();
        let c = span.collapse_children;
        assert(all_display(kids@, Seq::<Rc<Span>>::empty(), hl));
        for i in 0..children.len()
            invariant
                *children == span.children,
                c == span.collapse_children,
                hl == ids_view(highlighted@),
                all_display(kids@, shown_list(children@.take(i as int), c, hl), hl),
        {
            assert(children@.take(i + 1).drop_last() =~= children@.take(i as int));
            proof {
                assert(decreases_to!(**span => span.children));
                assert(decreases_to!(span.children => span.children@));
                assert(decreases_to!(span.children@ => *span.children@[i as int]));
            }
            shown_into(&mut kids, Ghost(shown_list(children@.take(i as int), c, hl)), &children[i], c, highlighted);
            assert(shown_list(children@.take(i as int), c, hl) + shown_one(*children@[i as int], c, hl)
                =~= shown_list(children@.take(i + 1), c, hl));
        }
        assert(children@.take(children@.len() as int) =~= children@);
        let n = copy_span(span, kids);
        assert(displays(n, **span, hl));
        let ghost before = out@;
        out.push(Rc::new(n));
        assert(out@.drop_last() =~= before);
        assert((g + shown_one(**span, collapsing, hl)).drop_last() =~= g);
    }
}

/// The span trees as displayed: each top span with, below it, the children it displays. A span
/// that collapses its children displays, in their place, only the spans below it that are kept
/// open (they ask for it, or their id is among the highlighted ids), with the spans they display.
pub fn display_forest(spans: &[Rc<Span>], highlighted: &Vec<Vec<u8>>) -> (r: Vec<Rc<Span>>)
    ensures
        all_display(r@, spans@, ids_view(highlighted@)),
{
    let ghost hl = ids_view(highlighted@);
    let mut out: Vec<Rc<Span>> = Vec::new();
    for i in 0..spans.len()
        invariant
            hl == ids_view(highlighted@),
            all_display(out@, shown_list(spans@.take(i as int), false, hl), hl),
    {
        assert(spans@.take(i + 1).drop_last() =~= spans@.take(i as int));
        shown_into(&mut out, Ghost(shown_list(spans@.take(i as int), false, hl)), &spans[i], false, highlighted);
        assert(shown_list(spans@.take(i as int), false, hl) + shown_one(*spans@[i as int], false, hl)
            =~= shown_list(spans@.take(i + 1), false, hl));
    }
    assert(spans@.take(spans@.len() as int) =~= spans@);
    proof {
        lemma_top_level_shown(spans@, hl);
    }
    out
}

/// Nothing is collapsed at the top: the spans displayed there are the spans themselves.
proof fn lemma_top_level_shown(spans: Seq<Rc<Span>>, hl: Seq<Seq<u8>>)
    ensures
        shown_list(spans, false, hl) == spans,
    decreases spans.len(),
{
    if spans.len() > 0 {
        lemma_top_level_shown(spans.drop_last(), hl);
        assert(shown_one(*spans.last(), false, hl) =~= seq![spans.last()]);
        assert(spans.drop_last().push(spans.last()) =~= spans);
    }
}

/// The spans of the links in turn: the sources, then the targets of each link.
pub open spec fn link_spans(links: Seq<DependencyLink>) -> Seq<Rc<Span>>
    decreases links.len(),
{
    if links.len() == 0 {
        Seq::empty()
    } else {
        link_spans(links.drop_last()) + links.last().source_spans@ + links.last().target_spans@
    }
}

/// The first span with each id, in order.
pub open spec fn firsts_by_id(spans: Seq<Rc<Span>>) -> Seq<Rc<Span>>
    decreases spans.len(),
{
    if spans.len() == 0 {
        Seq::empty()
    } else {
        let p = firsts_by_id(spans.drop_last());
        if span_ids(p).contains(spans.last().span_id@) { p } else { p.push(spans.last()) }
    }
}

fn push_new_ids(out: &mut Vec<Rc<Span>>, ids: &mut Vec<Vec<u8>>, Ghost(seen): Ghost<Seq<Rc<Span>>>, spans: &Vec<Rc<Span>>)
    requires
        old(out)@ == firsts_by_id(seen),
        ids_view(old(ids)@) == span_ids(old(out)@),
    ensures
        final(out)@ == firsts_by_id(seen + spans@),
        ids_view(final(ids)@) == span_ids(final(out)@),
{
    for i in 0..spans.len()
        invariant
            out@ == firsts_by_id(seen + spans@.take(i as int)),
            ids_view(ids@) == span_ids(out@),
    {
        assert((seen + spans@.take(i + 1)).drop_last() =~= seen + spans@.take(i as int));
        assert((seen + spans@.take(i + 1)).last() == spans@[i as int]);
        let s = &spans[i];
        if !contains_id(ids, &s.span_id) {
            let ghost before = ids@;
            let ghost before_out = out@;
            ids.push(crate::types::copy_bytes(&s.span_id));
            out.push(rc_clone(s));
            assert(ids_view(ids@) =~= ids_view(before).push(s.span_id@));
            assert(out@.drop_last() =~= before_out);
            assert(span_ids(out@) == span_ids(before_out).push(s.span_id@));
        }
    }
    assert(spans@.take(spans@.len() as int) =~= spans@);
}

/// The spans to highlight for the links: the sources and targets of each link in turn, each id
/// once, at its first place.
pub fn spans_to_highlight(links: &Vec<DependencyLink>) -> (r: Vec<Rc<Span>>)
    ensures
        r@ == firsts_by_id(link_spans(links@)),
{
    let mut out: Vec<Rc<Span>> = Vec::new();
    let mut ids: Vec<Vec<u8>> = Vec::new();
    assert(ids_view(ids@) =~= span_ids(out@));
    for i in 0..links.len()
        invariant
            out@ == firsts_by_id(link_spans(links@.take(i as int))),
            ids_view(ids@) == span_ids(out@),
    {
        assert(links@.take(i + 1).drop_last() =~= links@.take(i as int));
        let ghost before = link_spans(links@.take(i as int));
        push_new_ids(&mut out, &mut ids, Ghost(before), &links[i].source_spans);
        push_new_ids(&mut out, &mut ids, Ghost(before + links@[i as int].source_spans@), &links[i].target_spans);
        assert(before + links@[i as int].source_spans@ + links@[i as int].target_spans@
            =~= link_spans(links@.take(i + 1)));
    }
    assert(links@.take(links@.len() as int) =~= links@);
    out
}

/// Nanoseconds in the longest time that highlighting brings into view.
pub const MAX_HIGHLIGHT_TIMELINE_ZOOM: u64 = 3_000_000_000;

/// The time window that shows highlighted spans: from the earliest start to the latest end, but
/// no more than the longest zoom after the start, widened on each side by a fifth of its length.
pub open spec fn highlight_window_of(spans: Seq<Rc<Span>>) -> (TimePoint, TimePoint) {
    let lo = min_start(spans);
    let cap = if lo + MAX_HIGHLIGHT_TIMELINE_ZOOM <= u64::MAX { (lo + MAX_HIGHLIGHT_TIMELINE_ZOOM) as u64 } else { u64::MAX };
    let hi = if max_end(spans) > cap { cap } else { max_end(spans) };
    let pad: u64 = if hi >= lo { ((hi - lo) / 5) as u64 } else { 0 };
    (
        if lo >= pad { (lo - pad) as u64 } else { 0 },
        if hi + pad <= u64::MAX { (hi + pad) as u64 } else { u64::MAX },
    )
}

/// The time window that shows the highlighted spans; none without spans.
pub fn highlight_time_window(spans: &Vec<Rc<Span>>) -> (r: Option<(TimePoint, TimePoint)>)
    ensures
        spans@.len() == 0 ==> r is None,
        spans@.len() > 0 ==> r == Some(highlight_window_of(spans@)),
{
    if spans.len() == 0 {
        return None;
    }
    let lo = min_start_of(spans);
    let cap = lo.saturating_add(MAX_HIGHLIGHT_TIMELINE_ZOOM);
    let max = max_end_of(spans);
    let hi = if max > cap { cap } else { max };
    let pad: u64 = if hi >= lo { (hi - lo) / 5 } else { 0 };
    Some((lo.saturating_sub(pad), hi.saturating_add(pad)))
}

/// The selected time range after highlighting: the window, when it reaches outside the range,
/// or else the range unchanged.
pub fn selection_after_highlight(selected: (TimePoint, TimePoint), window: (TimePoint, TimePoint)) -> (r: (TimePoint, TimePoint))
    ensures
        r == (if window.0 < selected.0 || window.1 > selected.1 { window } else { selected }),
{
    if window.0 < selected.0 || window.1 > selected.1 {
        window
    } else {
        selected
    }
}

/// The span an `Rc` points to.
spec fn pointee(r: Rc<Span>) -> Span {
    *r
}

/// Some span of the displayed trees, at any depth, is a copy of `s`.
pub open spec fn copy_displayed(outs: Seq<Rc<Span>>, s: Span) -> bool {
    exists|k: int| 0 <= k < forest_spans(outs).len() && span_copy_of(*#[trigger] forest_spans(outs)[k], s)
}

proof fn lemma_all_display_split(outs: Seq<Rc<Span>>, a: Seq<Rc<Span>>, b: Seq<Rc<Span>>, hl: Seq<Seq<u8>>)
    requires
        all_display(outs, a + b, hl),
    ensures
        outs.len() == a.len() + b.len(),
        all_display(outs.take(a.len() as int), a, hl),
        all_display(outs.skip(a.len() as int), b, hl),
    decreases b.len(),
{
    if b.len() == 0 {
        assert(a + b =~= a);
        assert(outs.take(a.len() as int) =~= outs);
        assert(outs.skip(a.len() as int) =~= Seq::<Rc<Span>>::empty());
    } else {
        assert((a + b).drop_last() =~= a + b.drop_last());
        assert((a + b).last() == b.last());
        lemma_all_display_split(outs.drop_last(), a, b.drop_last(), hl);
        assert(outs.drop_last().take(a.len() as int) =~= outs.take(a.len() as int));
        let rest = outs.skip(a.len() as int);
        assert(rest.drop_last() =~= outs.drop_last().skip(a.len() as int));
        assert(rest.last() == outs.last());
    }
}

proof fn lemma_forest_spans_concat(a: Seq<Rc<Span>>, b: Seq<Rc<Span>>)
    ensures
        forest_spans(a + b) == forest_spans(a) + forest_spans(b),
    decreases b.len(),
{
    if b.len() == 0 {
        assert(a + b =~= a);
        assert(forest_spans(a) + forest_spans(b) =~= forest_spans(a));
    } else {
        lemma_forest_spans_concat(a, b.drop_last());
        assert((a + b).drop_last() =~= a + b.drop_last());
        assert((a + b).last() == b.last());
        assert(forest_spans(a + b) =~= forest_spans(a) + forest_spans(b));
    }
}

proof fn lemma_kept_open_shown(outs: Seq<Rc<Span>>, list: Seq<Rc<Span>>, c: bool, hl: Seq<Seq<u8>>)
    requires
        all_display(outs, shown_list(list, c, hl), hl),
    ensures
        forall|i: int| 0 <= i < forest_spans(list).len() && kept_open(*forest_spans(list)[i], hl)
            ==> copy_displayed(outs, *#[trigger] forest_spans(list)[i]),
    decreases list,
{
    if list.len() > 0 {
        let dl = list.drop_last();
        let x = list.last();
        let n1 = shown_list(dl, c, hl).len();
        lemma_all_display_split(outs, shown_list(dl, c, hl), shown_one(pointee(x), c, hl), hl);
        let head = outs.take(n1 as int);
        let tail = outs.skip(n1 as int);
        assert(outs =~= head + tail);
        lemma_forest_spans_concat(head, tail);
        lemma_kept_open_shown(head, dl, c, hl);
        let fo = forest_spans(outs);
        let fh = forest_spans(head);
        assert(forest_spans(list) == forest_spans(dl) + tree_spans(*x));
        assert(tree_spans(*x) == seq![x] + forest_spans(x.children@));
        assert(decreases_to!(list => list[list.len() - 1]));
        assert(decreases_to!(list[list.len() - 1] => x.children));
        assert(decreases_to!(x.children => x.children@));
        if c && !kept_open(pointee(x), hl) {
            lemma_kept_open_shown(tail, x.children@, true, hl);
        } else {
            assert(shown_one(*x, c, hl) =~= seq![x]);
            assert(tail.len() == 1);
            let o = tail[0];
            assert(tail.drop_last() =~= Seq::<Rc<Span>>::empty());
            assert(displays(*o, *x, hl));
            lemma_kept_open_shown(o.children@, x.children@, x.collapse_children, hl);
            assert(forest_spans(tail) == forest_spans(tail.drop_last()) + tree_spans(*o));
            assert(forest_spans(tail) =~= seq![o] + forest_spans(o.children@));
        }
        assert forall|i: int| 0 <= i < forest_spans(list).len() && kept_open(*forest_spans(list)[i], hl)
            implies copy_displayed(outs, *#[trigger] forest_spans(list)[i]) by {
            let fd = forest_spans(dl);
            if i < fd.len() {
                assert(forest_spans(list)[i] == fd[i]);
                assert(copy_displayed(head, *fd[i]));
                let k = choose|k: int| 0 <= k < fh.len() && span_copy_of(*#[trigger] fh[k], *fd[i]);
                assert(fo[k] == fh[k]);
            } else {
                let j = i - fd.len();
                let ts = tree_spans(*x);
                assert(forest_spans(list)[i] == ts[j]);
                if c && !kept_open(*x, hl) {
                    assert(j > 0);
                    assert(ts[j] == forest_spans(x.children@)[j - 1]);
                    let ft = forest_spans(tail);
                    let k = choose|k: int| 0 <= k < ft.len() && span_copy_of(*#[trigger] ft[k], *ts[j]);
                    assert(fo[fh.len() + k] == ft[k]);
                } else {
                    let o = tail[0];
                    if j == 0 {
                        assert(fo[fh.len() as int] == o);
                    } else {
                        assert(ts[j] == forest_spans(x.children@)[j - 1]);
                        let fc = forest_spans(o.children@);
                        let k = choose|k: int| 0 <= k < fc.len() && span_copy_of(*#[trigger] fc[k], *ts[j]);
                        assert(fo[fh.len() + 1 + k] == fc[k]);
                    }
                }
            }
        }
    }
}

/// Every span kept open, one that asks for it or whose id is highlighted, is displayed, however
/// deep it is below spans that collapse their children.
pub proof fn lemma_kept_open_displayed(r: Seq<Rc<Span>>, spans: Seq<Rc<Span>>, highlighted: Seq<Seq<u8>>)
    requires
        all_display(r, spans, highlighted),
    ensures
        forall|i: int| 0 <= i < forest_spans(spans).len() && kept_open(*forest_spans(spans)[i], highlighted)
            ==> copy_displayed(r, *#[trigger] forest_spans(spans)[i]),
{
    lemma_top_level_shown(spans, highlighted);
    lemma_kept_open_shown(r, spans, false, highlighted);
}

/// The root whose tree holds a span with this id: the last such root, as a table from ids to
/// roots filled root after root keeps the last one.
pub open spec fn root_of(roots: Seq<Rc<Span>>, id: Seq<u8>) -> Option<Rc<Span>>
    decreases roots.len(),
{
    if roots.len() == 0 {
        None
    } else if span_ids(tree_spans(*roots.last())).contains(id) {
        Some(roots.last())
    } else {
        root_of(roots.drop_last(), id)
    }
}

/// The roots brought in for the highlighted spans, in turn: the root of each highlighted span,
/// unless a displayed span or a root already brought in has its id.
pub open spec fn roots_added(displayed_ids: Seq<Seq<u8>>, roots: Seq<Rc<Span>>, highlighted: Seq<Rc<Span>>) -> Seq<Rc<Span>>
    decreases highlighted.len(),
{
    if highlighted.len() == 0 {
        Seq::empty()
    } else {
        let prev = roots_added(displayed_ids, roots, highlighted.drop_last());
        match root_of(roots, highlighted.last().span_id@) {
            Some(rt) => if displayed_ids.contains(rt.span_id@) || span_ids(prev).contains(rt.span_id@) {
                prev
            } else {
                prev.push(rt)
            },
            None => prev,
        }
    }
}

/// The root, among `roots`, whose tree holds a span with this id, as `root_of` gives it.
fn find_root(roots: &Vec<Rc<Span>>, id: &Vec<u8>) -> (r: Option<Rc<Span>>)
    ensures
        r == root_of(roots@, id@),
{
    let mut i: usize = roots.len();
    assert(roots@.take(roots@.len() as int) =~= roots@);
    while i > 0
        invariant
            i <= roots@.len(),
            root_of(roots@, id@) == root_of(roots@.take(i as int), id@),
        decreases i,
    {
        let ghost t = roots@.take(i as int);
        assert(t.drop_last() =~= roots@.take(i - 1));
        assert(t.last() == roots@[i - 1]);
        let mut tree: Vec<Rc<Span>> = Vec::new();
        gather_tree(&roots[i - 1], &mut tree);
        assert(tree@ =~= tree_spans(*roots@[i - 1]));
        if contains_span_id(&tree, id) {
            return Some(rc_clone(&roots[i - 1]));
        }
        i -= 1;
    }
    None
}

/// The spans to draw: the displayed spans, then the roots of the highlighted spans that are not
/// displayed yet, each once, in the order of the highlighted spans.
pub fn spans_to_render(displayed: &Vec<Rc<Span>>, roots: &Vec<Rc<Span>>, highlighted: &Vec<Rc<Span>>) -> (r: Vec<Rc<Span>>)
    ensures
        r@ == displayed@ + roots_added(span_ids(displayed@), roots@, highlighted@),
{
    let mut added: Vec<Rc<Span>> = Vec::new();
    for i in 0..highlighted.len()
        invariant
            added@ == roots_added(span_ids(displayed@), roots@, highlighted@.take(i as int)),
    {
        let ghost h = highlighted@.take(i + 1);
        assert(h.drop_last() =~= highlighted@.take(i as int));
        assert(h.last() == highlighted@[i as int]);
        match find_root(roots, &highlighted[i].span_id) {
            Some(rt) => {
                if !contains_span_id(displayed, &rt.span_id) && !contains_span_id(&added, &rt.span_id) {
                    added.push(rt);
                }
            },
            None => {},
        }
    }
    assert(highlighted@.take(highlighted@.len() as int) =~= highlighted@);
    let mut out: Vec<Rc<Span>> = Vec::new();
    for i in 0..displayed.len()
        invariant
            out@ == displayed@.take(i as int),
    {
        out.push(rc_clone(&displayed[i]));
        assert(displayed@.take(i + 1) =~= displayed@.take(i as int).push(displayed@[i as int]));
    }
    assert(displayed@.take(displayed@.len() as int) =~= displayed@);
    for i in 0..added.len()
        invariant
            out@ == displayed@ + added@.take(i as int),
    {
        out.push(rc_clone(&added[i]));
        assert(added@.take(i + 1) =~= added@.take(i as int).push(added@[i as int]));
    }
    assert(added@.take(added@.len() as int) =~= added@);
    out
}

} // verus!
