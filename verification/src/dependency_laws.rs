//! Laws of a whole dependency analysis: where the spans of each node's links are recorded, and
//! that no span serves two links.

use vstd::prelude::*;
use std::rc::Rc;

use crate::analyze_dependency::{
    all_on_node, analysis_outcome, lemma_n_to_one_no_reuse, lemma_one_to_n_no_reuse,
    n_to_one_fold, n_to_one_nodes, n_to_one_run, names_not_in, names_with_spans, node_names,
    one_to_n_fold, one_to_n_nodes, one_to_n_run, spans_on_node, AnalysisCardinality, LinkRules,
    LinkV, RunState, SourceScope,
};
use crate::analyze_utils::{lemma_sort_by_start_sorted, named_spans, sort_by_start};
use crate::types::Span;

verus! {

/// Every source span of every link is recorded by the node the link is listed under.
pub open spec fn sources_on_node(pn: Seq<(Seq<char>, Seq<LinkV>)>) -> bool {
    forall|i: int, j: int, k: int|
        0 <= i < pn.len() && 0 <= j < pn[i].1.len() && 0 <= k < pn[i].1[j].0.len()
            ==> (#[trigger] pn[i].1[j].0[k]).node.name@ == pn[i].0
}

/// Every target span of every link is recorded by the node the link is listed under.
pub open spec fn targets_on_node(pn: Seq<(Seq<char>, Seq<LinkV>)>) -> bool {
    forall|i: int, j: int, k: int|
        0 <= i < pn.len() && 0 <= j < pn[i].1.len() && 0 <= k < pn[i].1[j].1.len()
            ==> (#[trigger] pn[i].1[j].1[k]).node.name@ == pn[i].0
}

/// No two links, of any nodes, share the id of a source span.
pub open spec fn sources_never_shared(pn: Seq<(Seq<char>, Seq<LinkV>)>) -> bool {
    forall|i1: int, j1: int, k1: int, i2: int, j2: int, k2: int|
        0 <= i1 < pn.len() && 0 <= j1 < pn[i1].1.len() && 0 <= k1 < pn[i1].1[j1].0.len()
            && 0 <= i2 < pn.len() && 0 <= j2 < pn[i2].1.len() && 0 <= k2 < pn[i2].1[j2].0.len()
            && (i1 != i2 || j1 != j2)
            ==> (#[trigger] pn[i1].1[j1].0[k1]).span_id@ != (#[trigger] pn[i2].1[j2].0[k2]).span_id@
}

/// No two links, of any nodes, share the id of a target span.
pub open spec fn targets_never_shared(pn: Seq<(Seq<char>, Seq<LinkV>)>) -> bool {
    forall|i1: int, j1: int, k1: int, i2: int, j2: int, k2: int|
        0 <= i1 < pn.len() && 0 <= j1 < pn[i1].1.len() && 0 <= k1 < pn[i1].1[j1].1.len()
            && 0 <= i2 < pn.len() && 0 <= j2 < pn[i2].1.len() && 0 <= k2 < pn[i2].1[j2].1.len()
            && (i1 != i2 || j1 != j2)
            ==> (#[trigger] pn[i1].1[j1].1[k1]).span_id@ != (#[trigger] pn[i2].1[j2].1[k2]).span_id@
}

/// Within each node, no two links share the id of a source span, nor that of a target span.
pub open spec fn never_shared_within_nodes(pn: Seq<(Seq<char>, Seq<LinkV>)>) -> bool {
    forall|i: int, j1: int, j2: int, k1: int, k2: int|
        #![trigger pn[i].1[j1].0[k1], pn[i].1[j2].0[k2]]
        #![trigger pn[i].1[j1].1[k1], pn[i].1[j2].1[k2]]
        0 <= i < pn.len() && 0 <= j1 < pn[i].1.len() && 0 <= j2 < pn[i].1.len() && j1 != j2
            ==> {
                &&& (0 <= k1 < pn[i].1[j1].0.len() && 0 <= k2 < pn[i].1[j2].0.len()
                    ==> pn[i].1[j1].0[k1].span_id@ != pn[i].1[j2].0[k2].span_id@)
                &&& (0 <= k1 < pn[i].1[j1].1.len() && 0 <= k2 < pn[i].1[j2].1.len()
                    ==> pn[i].1[j1].1[k1].span_id@ != pn[i].1[j2].1[k2].span_id@)
            }
}

/// The spans that `spans_on_node` picks are recorded by that node.
proof fn lemma_on_node(spans: Seq<Rc<Span>>, n: Seq<char>)
    ensures
        all_on_node(spans_on_node(spans, n), n),
    decreases spans.len(),
{
    if spans.len() > 0 {
        lemma_on_node(spans.drop_last(), n);
        let r = spans_on_node(spans.drop_last(), n);
        let q = spans_on_node(spans, n);
        assert forall|i: int| 0 <= i < q.len() implies (#[trigger] q[i]).node.name@ == n by {
            if i < r.len() {
                assert(q[i] == r[i]);
            }
        }
    }
}

/// Each N-to-1 link found after `st` has one target, taken from the targets run over.
proof fn lemma_n_to_one_targets(r: LinkRules, cands: Seq<Rc<Span>>, st: RunState, targets: Seq<Rc<Span>>)
    ensures
        ({
            let out = n_to_one_run(r, cands, st, targets);
            forall|m: int| st.2.len() <= m < out.2.len()
                ==> (#[trigger] out.2[m]).1.len() == 1 && targets.contains(out.2[m].1[0])
        }),
    decreases targets.len(),
{
    if targets.len() > 0 {
        let p = targets.drop_last();
        lemma_n_to_one_targets(r, cands, st, p);
        lemma_n_to_one_no_reuse(r, cands, st, p);
        let mid = n_to_one_run(r, cands, st, p);
        let out = n_to_one_run(r, cands, st, targets);
        assert forall|m: int| st.2.len() <= m < out.2.len()
            implies (#[trigger] out.2[m]).1.len() == 1 && targets.contains(out.2[m].1[0]) by {
            if m < mid.2.len() {
                assert(out.2[m] == mid.2[m]);
                let q = choose|q: int| 0 <= q < p.len() && p[q] == mid.2[m].1[0];
                assert(targets[q] == p[q]);
            } else {
                assert(out.2[m].1 == seq![targets.last()]);
                assert(targets[targets.len() - 1] == targets.last());
            }
        }
    }
}

/// Each 1-to-N link found after `st` has one source, taken from the sources run over.
proof fn lemma_one_to_n_sources(r: LinkRules, cands: Seq<Rc<Span>>, st: RunState, sources: Seq<Rc<Span>>)
    ensures
        ({
            let out = one_to_n_run(r, cands, st, sources);
            forall|m: int| st.2.len() <= m < out.2.len()
                ==> (#[trigger] out.2[m]).0.len() == 1 && sources.contains(out.2[m].0[0])
        }),
    decreases sources.len(),
{
    if sources.len() > 0 {
        let p = sources.drop_last();
        lemma_one_to_n_sources(r, cands, st, p);
        lemma_one_to_n_no_reuse(r, cands, st, p);
        let mid = one_to_n_run(r, cands, st, p);
        let out = one_to_n_run(r, cands, st, sources);
        assert forall|m: int| st.2.len() <= m < out.2.len()
            implies (#[trigger] out.2[m]).0.len() == 1 && sources.contains(out.2[m].0[0]) by {
            if m < mid.2.len() {
                assert(out.2[m] == mid.2[m]);
                let q = choose|q: int| 0 <= q < p.len() && p[q] == mid.2[m].0[0];
                assert(sources[q] == p[q]);
            } else {
                assert(out.2[m].0 == seq![sources.last()]);
                assert(sources[sources.len() - 1] == sources.last());
            }
        }
    }
}

/// What an N-to-1 fold gives: targets on their node and no span twice within a node; with the
/// same-node scope also sources on their node, no source id in two links, and every source id
/// among the used ids that the fold carries.
pub open spec fn n_to_one_fold_laws(scope: SourceScope, f: (Seq<Seq<u8>>, Seq<(Seq<char>, Seq<LinkV>)>)) -> bool {
    &&& targets_on_node(f.1)
    &&& never_shared_within_nodes(f.1)
    &&& scope == SourceScope::SameNode ==> {
        &&& sources_on_node(f.1)
        &&& sources_never_shared(f.1)
        &&& forall|i: int, j: int, k: int|
            0 <= i < f.1.len() && 0 <= j < f.1[i].1.len() && 0 <= k < f.1[i].1[j].0.len()
                ==> f.0.contains((#[trigger] f.1[i].1[j].0[k]).span_id@)
    }
}

/// The N-to-1 links of one node's run, from a state without links: one target each, on the
/// node; sources among the candidates; no span twice; no source id that was used before.
proof fn lemma_n_to_one_node_run(r: LinkRules, cands: Seq<Rc<Span>>, used0: Seq<Seq<u8>>, ts: Seq<Rc<Span>>, n: Seq<char>)
    requires
        all_on_node(ts, n),
    ensures
        ({
            let run = n_to_one_run(r, cands, (used0, Seq::empty(), Seq::empty()), ts);
            &&& forall|j: int, k: int| 0 <= j < run.2.len() && 0 <= k < run.2[j].1.len()
                ==> (#[trigger] run.2[j].1[k]).node.name@ == n
            &&& forall|j: int, k: int| 0 <= j < run.2.len() && 0 <= k < run.2[j].0.len()
                ==> cands.contains(#[trigger] run.2[j].0[k])
            &&& forall|j: int, k: int| 0 <= j < run.2.len() && 0 <= k < run.2[j].0.len()
                ==> !used0.contains((#[trigger] run.2[j].0[k]).span_id@)
                    && run.0.contains(run.2[j].0[k].span_id@)
            &&& forall|x: Seq<u8>| used0.contains(x) ==> run.0.contains(x)
            &&& forall|j1: int, j2: int, k1: int, k2: int|
            #![trigger run.2[j1].0[k1], run.2[j2].0[k2]]
            #![trigger run.2[j1].1[k1], run.2[j2].1[k2]]
            0 <= j1 < run.2.len() && 0 <= j2 < run.2.len() && j1 != j2
                ==> {
                    &&& (0 <= k1 < run.2[j1].0.len() && 0 <= k2 < run.2[j2].0.len()
                        ==> run.2[j1].0[k1].span_id@ != run.2[j2].0[k2].span_id@)
                    &&& (0 <= k1 < run.2[j1].1.len() && 0 <= k2 < run.2[j2].1.len()
                        ==> run.2[j1].1[k1].span_id@ != run.2[j2].1[k2].span_id@)
                }
        }),
{
    let st: RunState = (used0, Seq::empty(), Seq::empty());
    let run = n_to_one_run(r, cands, st, ts);
    lemma_n_to_one_no_reuse(r, cands, st, ts);
    lemma_n_to_one_targets(r, cands, st, ts);
    assert forall|j: int, k: int| 0 <= j < run.2.len() && 0 <= k < run.2[j].1.len()
        implies (#[trigger] run.2[j].1[k]).node.name@ == n by {
        let q = choose|q: int| 0 <= q < ts.len() && ts[q] == run.2[j].1[0];
        assert(ts[q].node.name@ == n);
    }
    assert forall|j: int, k: int| 0 <= j < run.2.len() && 0 <= k < run.2[j].0.len()
        implies cands.contains(#[trigger] run.2[j].0[k]) by {
        assert(crate::analyze_dependency::n_to_one_link_sound(r.linking_attribute@, cands, run.2[j]));
    }
    assert forall|j: int, k: int| 0 <= j < run.2.len() && 0 <= k < run.2[j].0.len()
        implies !used0.contains((#[trigger] run.2[j].0[k]).span_id@)
            && run.0.contains(run.2[j].0[k].span_id@) by {
        assert(crate::analyze_dependency::ids_unused(run.2[j].0, used0));
    }
    assert forall|j1: int, j2: int, k1: int, k2: int|
            #![trigger run.2[j1].0[k1], run.2[j2].0[k2]]
            #![trigger run.2[j1].1[k1], run.2[j2].1[k2]]
            0 <= j1 < run.2.len() && 0 <= j2 < run.2.len() && j1 != j2
        implies {
            &&& (0 <= k1 < run.2[j1].0.len() && 0 <= k2 < run.2[j2].0.len()
                ==> run.2[j1].0[k1].span_id@ != run.2[j2].0[k2].span_id@)
            &&& (0 <= k1 < run.2[j1].1.len() && 0 <= k2 < run.2[j2].1.len()
                ==> run.2[j1].1[k1].span_id@ != run.2[j2].1[k2].span_id@)
        } by {
        if j1 < j2 {
            assert(crate::analyze_dependency::ids_apart(run.2[j1].0, run.2[j2].0));
            assert(crate::analyze_dependency::ids_apart(run.2[j1].1, run.2[j2].1));
        } else {
            assert(crate::analyze_dependency::ids_apart(run.2[j2].0, run.2[j1].0));
            assert(crate::analyze_dependency::ids_apart(run.2[j2].1, run.2[j1].1));
        }
    }
}

/// The laws of an N-to-1 fold over the listed nodes.
proof fn lemma_n_to_one_fold(
    r: LinkRules,
    scope: SourceScope,
    sources: Seq<Rc<Span>>,
    targets: Seq<Rc<Span>>,
    nodes: Seq<Seq<char>>,
)
    ensures
        n_to_one_fold_laws(scope, n_to_one_fold(r, scope, sources, targets, nodes)),
    decreases nodes.len(),
{
    if nodes.len() > 0 {
        let p = nodes.drop_last();
        lemma_n_to_one_fold(r, scope, sources, targets, p);
        let prev = n_to_one_fold(r, scope, sources, targets, p);
        let n = nodes.last();
        let ts = spans_on_node(targets, n);
        if ts.len() > 0 {
            let same = scope == SourceScope::SameNode;
            let cands = if same { spans_on_node(sources, n) } else { sources };
            let used0 = if same { prev.0 } else { Seq::<Seq<u8>>::empty() };
            let run = n_to_one_run(r, cands, (used0, Seq::empty(), Seq::empty()), ts);
            lemma_on_node(targets, n);
            lemma_on_node(sources, n);
            lemma_n_to_one_node_run(r, cands, used0, ts, n);
            let f = n_to_one_fold(r, scope, sources, targets, nodes);
            assert(f.0 == if same { run.0 } else { prev.0 });
            if run.2.len() > 0 {
                let pn = prev.1.push((n, run.2));
                assert(f.1 == pn);
                lemma_push_laws(scope, prev, f.0, n, run.2, cands, used0, run.0);
            } else {
                assert(f.1 == prev.1);
                if same {
                    assert forall|i: int, j: int, k: int|
                        0 <= i < f.1.len() && 0 <= j < f.1[i].1.len() && 0 <= k < f.1[i].1[j].0.len()
                            implies f.0.contains((#[trigger] f.1[i].1[j].0[k]).span_id@) by {
                        assert(prev.0.contains(prev.1[i].1[j].0[k].span_id@));
                    }
                }
            }
        }
    }
}

/// Adding a node's links to a fold keeps its laws.
proof fn lemma_push_laws(
    scope: SourceScope,
    prev: (Seq<Seq<u8>>, Seq<(Seq<char>, Seq<LinkV>)>),
    used: Seq<Seq<u8>>,
    n: Seq<char>,
    links: Seq<LinkV>,
    cands: Seq<Rc<Span>>,
    used0: Seq<Seq<u8>>,
    run_used: Seq<Seq<u8>>,
)
    requires
        n_to_one_fold_laws(scope, prev),
        scope == SourceScope::SameNode ==> used0 == prev.0 && used == run_used
            && all_on_node(cands, n),
        forall|j: int, k: int| 0 <= j < links.len() && 0 <= k < links[j].1.len()
            ==> (#[trigger] links[j].1[k]).node.name@ == n,
        forall|j: int, k: int| 0 <= j < links.len() && 0 <= k < links[j].0.len()
            ==> cands.contains(#[trigger] links[j].0[k]),
        forall|j: int, k: int| 0 <= j < links.len() && 0 <= k < links[j].0.len()
            ==> !used0.contains((#[trigger] links[j].0[k]).span_id@)
                && run_used.contains(links[j].0[k].span_id@),
        forall|x: Seq<u8>| used0.contains(x) ==> run_used.contains(x),
        forall|j1: int, j2: int, k1: int, k2: int|
            #![trigger links[j1].0[k1], links[j2].0[k2]]
            #![trigger links[j1].1[k1], links[j2].1[k2]]
            0 <= j1 < links.len() && 0 <= j2 < links.len() && j1 != j2
            ==> {
                &&& (0 <= k1 < links[j1].0.len() && 0 <= k2 < links[j2].0.len()
                    ==> links[j1].0[k1].span_id@ != links[j2].0[k2].span_id@)
                &&& (0 <= k1 < links[j1].1.len() && 0 <= k2 < links[j2].1.len()
                    ==> links[j1].1[k1].span_id@ != links[j2].1[k2].span_id@)
            },
    ensures
        n_to_one_fold_laws(scope, (used, prev.1.push((n, links)))),
{
    let pn = prev.1.push((n, links));
    let last = prev.1.len() as int;
    assert(pn[last] == (n, links));
    assert forall|i: int| 0 <= i < last implies #[trigger] pn[i] == prev.1[i] by {}
    assert(targets_on_node(pn)) by {
        assert forall|i: int, j: int, k: int|
            0 <= i < pn.len() && 0 <= j < pn[i].1.len() && 0 <= k < pn[i].1[j].1.len()
                implies (#[trigger] pn[i].1[j].1[k]).node.name@ == pn[i].0 by {
            if i < last {
                assert(pn[i] == prev.1[i]);
            }
        }
    }
    assert(never_shared_within_nodes(pn)) by {
        assert forall|i: int, j1: int, j2: int, k1: int, k2: int|
            #![trigger pn[i].1[j1].0[k1], pn[i].1[j2].0[k2]]
            #![trigger pn[i].1[j1].1[k1], pn[i].1[j2].1[k2]]
            0 <= i < pn.len() && 0 <= j1 < pn[i].1.len() && 0 <= j2 < pn[i].1.len() && j1 != j2
                implies {
                    &&& (0 <= k1 < pn[i].1[j1].0.len() && 0 <= k2 < pn[i].1[j2].0.len()
                        ==> pn[i].1[j1].0[k1].span_id@ != pn[i].1[j2].0[k2].span_id@)
                    &&& (0 <= k1 < pn[i].1[j1].1.len() && 0 <= k2 < pn[i].1[j2].1.len()
                        ==> pn[i].1[j1].1[k1].span_id@ != pn[i].1[j2].1[k2].span_id@)
                } by {
            if i < last {
                assert(pn[i] == prev.1[i]);
            }
        }
    }
    if scope == SourceScope::SameNode {
        assert(sources_on_node(pn)) by {
            assert forall|i: int, j: int, k: int|
                0 <= i < pn.len() && 0 <= j < pn[i].1.len() && 0 <= k < pn[i].1[j].0.len()
                    implies (#[trigger] pn[i].1[j].0[k]).node.name@ == pn[i].0 by {
                if i < last {
                    assert(pn[i] == prev.1[i]);
                } else {
                    let q = choose|q: int| 0 <= q < cands.len() && cands[q] == links[j].0[k];
                    assert(cands[q].node.name@ == n);
                }
            }
        }
        assert forall|i: int, j: int, k: int|
            0 <= i < pn.len() && 0 <= j < pn[i].1.len() && 0 <= k < pn[i].1[j].0.len()
                implies used.contains((#[trigger] pn[i].1[j].0[k]).span_id@) by {
            if i < last {
                assert(pn[i] == prev.1[i]);
                assert(prev.0.contains(prev.1[i].1[j].0[k].span_id@));
            }
        }
        assert(sources_never_shared(pn)) by {
            assert forall|i1: int, j1: int, k1: int, i2: int, j2: int, k2: int|
                0 <= i1 < pn.len() && 0 <= j1 < pn[i1].1.len() && 0 <= k1 < pn[i1].1[j1].0.len()
                    && 0 <= i2 < pn.len() && 0 <= j2 < pn[i2].1.len() && 0 <= k2 < pn[i2].1[j2].0.len()
                    && (i1 != i2 || j1 != j2)
                    implies (#[trigger] pn[i1].1[j1].0[k1]).span_id@ != (#[trigger] pn[i2].1[j2].0[k2]).span_id@ by {
                if i1 < last && i2 < last {
                    assert(pn[i1] == prev.1[i1]);
                    assert(pn[i2] == prev.1[i2]);
                } else if i1 < last {
                    assert(pn[i1] == prev.1[i1]);
                    assert(prev.0.contains(prev.1[i1].1[j1].0[k1].span_id@));
                    assert(pn[i2].1 == links);
                    assert(!used0.contains(links[j2].0[k2].span_id@));
                } else if i2 < last {
                    assert(pn[i2] == prev.1[i2]);
                    assert(prev.0.contains(prev.1[i2].1[j2].0[k2].span_id@));
                    assert(pn[i1].1 == links);
                    assert(!used0.contains(links[j1].0[k1].span_id@));
                } else {
                    assert(pn[i1].1 == links);
                    assert(pn[i2].1 == links);
                    assert(links[j1].0[k1].span_id@ != links[j2].0[k2].span_id@);
                }
            }
        }
    }
}

/// What a 1-to-N fold gives: sources on their node and no span twice within a node; with the
/// same-node scope also targets on their node, no target id in two links, and every target id
/// among the used ids that the fold carries.
pub open spec fn one_to_n_fold_laws(scope: SourceScope, f: (Seq<Seq<u8>>, Seq<(Seq<char>, Seq<LinkV>)>)) -> bool {
    &&& sources_on_node(f.1)
    &&& never_shared_within_nodes(f.1)
    &&& scope == SourceScope::SameNode ==> {
        &&& targets_on_node(f.1)
        &&& targets_never_shared(f.1)
        &&& forall|i: int, j: int, k: int|
            0 <= i < f.1.len() && 0 <= j < f.1[i].1.len() && 0 <= k < f.1[i].1[j].1.len()
                ==> f.0.contains((#[trigger] f.1[i].1[j].1[k]).span_id@)
    }
}

/// The 1-to-N links of one node's run, from a state without links: one source each, on the
/// node; targets among the candidates; no span twice; no target id that was used before.
proof fn lemma_one_to_n_node_run(r: LinkRules, cands: Seq<Rc<Span>>, used0: Seq<Seq<u8>>, ts: Seq<Rc<Span>>, n: Seq<char>)
    requires
        all_on_node(ts, n),
    ensures
        ({
            let run = one_to_n_run(r, cands, (Seq::empty(), used0, Seq::empty()), ts);
            &&& forall|j: int, k: int| 0 <= j < run.2.len() && 0 <= k < run.2[j].0.len()
                ==> (#[trigger] run.2[j].0[k]).node.name@ == n
            &&& forall|j: int, k: int| 0 <= j < run.2.len() && 0 <= k < run.2[j].1.len()
                ==> cands.contains(#[trigger] run.2[j].1[k])
            &&& forall|j: int, k: int| 0 <= j < run.2.len() && 0 <= k < run.2[j].1.len()
                ==> !used0.contains((#[trigger] run.2[j].1[k]).span_id@)
                    && run.1.contains(run.2[j].1[k].span_id@)
            &&& forall|x: Seq<u8>| used0.contains(x) ==> run.1.contains(x)
            &&& forall|j1: int, j2: int, k1: int, k2: int|
            #![trigger run.2[j1].1[k1], run.2[j2].1[k2]]
            #![trigger run.2[j1].0[k1], run.2[j2].0[k2]]
            0 <= j1 < run.2.len() && 0 <= j2 < run.2.len() && j1 != j2
                ==> {
                    &&& (0 <= k1 < run.2[j1].1.len() && 0 <= k2 < run.2[j2].1.len()
                        ==> run.2[j1].1[k1].span_id@ != run.2[j2].1[k2].span_id@)
                    &&& (0 <= k1 < run.2[j1].0.len() && 0 <= k2 < run.2[j2].0.len()
                        ==> run.2[j1].0[k1].span_id@ != run.2[j2].0[k2].span_id@)
                }
        }),
{
    let st: RunState = (Seq::empty(), used0, Seq::empty());
    let run = one_to_n_run(r, cands, st, ts);
    lemma_one_to_n_no_reuse(r, cands, st, ts);
    lemma_one_to_n_sources(r, cands, st, ts);
    assert forall|j: int, k: int| 0 <= j < run.2.len() && 0 <= k < run.2[j].0.len()
        implies (#[trigger] run.2[j].0[k]).node.name@ == n by {
        let q = choose|q: int| 0 <= q < ts.len() && ts[q] == run.2[j].0[0];
        assert(ts[q].node.name@ == n);
    }
    assert forall|j: int, k: int| 0 <= j < run.2.len() && 0 <= k < run.2[j].1.len()
        implies cands.contains(#[trigger] run.2[j].1[k]) by {
        assert(crate::analyze_dependency::one_to_n_link_sound(r.linking_attribute@, cands, run.2[j]));
    }
    assert forall|j: int, k: int| 0 <= j < run.2.len() && 0 <= k < run.2[j].1.len()
        implies !used0.contains((#[trigger] run.2[j].1[k]).span_id@)
            && run.1.contains(run.2[j].1[k].span_id@) by {
        assert(crate::analyze_dependency::ids_unused(run.2[j].1, used0));
    }
    assert forall|j1: int, j2: int, k1: int, k2: int|
            #![trigger run.2[j1].1[k1], run.2[j2].1[k2]]
            #![trigger run.2[j1].0[k1], run.2[j2].0[k2]]
            0 <= j1 < run.2.len() && 0 <= j2 < run.2.len() && j1 != j2
        implies {
            &&& (0 <= k1 < run.2[j1].1.len() && 0 <= k2 < run.2[j2].1.len()
                ==> run.2[j1].1[k1].span_id@ != run.2[j2].1[k2].span_id@)
            &&& (0 <= k1 < run.2[j1].0.len() && 0 <= k2 < run.2[j2].0.len()
                ==> run.2[j1].0[k1].span_id@ != run.2[j2].0[k2].span_id@)
        } by {
        if j1 < j2 {
            assert(crate::analyze_dependency::ids_apart(run.2[j1].0, run.2[j2].0));
            assert(crate::analyze_dependency::ids_apart(run.2[j1].1, run.2[j2].1));
        } else {
            assert(crate::analyze_dependency::ids_apart(run.2[j2].0, run.2[j1].0));
            assert(crate::analyze_dependency::ids_apart(run.2[j2].1, run.2[j1].1));
        }
    }
}

/// The laws of a 1-to-N fold over the listed nodes.
proof fn lemma_one_to_n_fold(
    r: LinkRules,
    scope: SourceScope,
    sources: Seq<Rc<Span>>,
    targets: Seq<Rc<Span>>,
    nodes: Seq<Seq<char>>,
)
    ensures
        one_to_n_fold_laws(scope, one_to_n_fold(r, scope, sources, targets, nodes)),
    decreases nodes.len(),
{
    if nodes.len() > 0 {
        let p = nodes.drop_last();
        lemma_one_to_n_fold(r, scope, sources, targets, p);
        let prev = one_to_n_fold(r, scope, sources, targets, p);
        let n = nodes.last();
        let ss = spans_on_node(sources, n);
        let same = scope == SourceScope::SameNode;
        let cands = if same { spans_on_node(targets, n) } else { targets };
        let used0 = if same { prev.0 } else { Seq::<Seq<u8>>::empty() };
        let run = one_to_n_run(r, cands, (Seq::empty(), used0, Seq::empty()), ss);
        lemma_on_node(targets, n);
        lemma_on_node(sources, n);
        lemma_one_to_n_node_run(r, cands, used0, ss, n);
        let f = one_to_n_fold(r, scope, sources, targets, nodes);
        assert(f.0 == if same { run.1 } else { prev.0 });
        if run.2.len() > 0 {
            let pn = prev.1.push((n, run.2));
            assert(f.1 == pn);
            lemma_push_one_to_n_laws(scope, prev, f.0, n, run.2, cands, used0, run.1);
        } else {
            assert(f.1 == prev.1);
            if same {
                assert forall|i: int, j: int, k: int|
                    0 <= i < f.1.len() && 0 <= j < f.1[i].1.len() && 0 <= k < f.1[i].1[j].1.len()
                        implies f.0.contains((#[trigger] f.1[i].1[j].1[k]).span_id@) by {
                    assert(prev.0.contains(prev.1[i].1[j].1[k].span_id@));
                }
            }
        }
    }
}

/// Adding a node's links to a 1-to-N fold keeps its laws.
proof fn lemma_push_one_to_n_laws(
    scope: SourceScope,
    prev: (Seq<Seq<u8>>, Seq<(Seq<char>, Seq<LinkV>)>),
    used: Seq<Seq<u8>>,
    n: Seq<char>,
    links: Seq<LinkV>,
    cands: Seq<Rc<Span>>,
    used0: Seq<Seq<u8>>,
    run_used: Seq<Seq<u8>>,
)
    requires
        one_to_n_fold_laws(scope, prev),
        scope == SourceScope::SameNode ==> used0 == prev.0 && used == run_used
            && all_on_node(cands, n),
        forall|j: int, k: int| 0 <= j < links.len() && 0 <= k < links[j].0.len()
            ==> (#[trigger] links[j].0[k]).node.name@ == n,
        forall|j: int, k: int| 0 <= j < links.len() && 0 <= k < links[j].1.len()
            ==> cands.contains(#[trigger] links[j].1[k]),
        forall|j: int, k: int| 0 <= j < links.len() && 0 <= k < links[j].1.len()
            ==> !used0.contains((#[trigger] links[j].1[k]).span_id@)
                && run_used.contains(links[j].1[k].span_id@),
        forall|x: Seq<u8>| used0.contains(x) ==> run_used.contains(x),
        forall|j1: int, j2: int, k1: int, k2: int|
            #![trigger links[j1].1[k1], links[j2].1[k2]]
            #![trigger links[j1].0[k1], links[j2].0[k2]]
            0 <= j1 < links.len() && 0 <= j2 < links.len() && j1 != j2
            ==> {
                &&& (0 <= k1 < links[j1].1.len() && 0 <= k2 < links[j2].1.len()
                    ==> links[j1].1[k1].span_id@ != links[j2].1[k2].span_id@)
                &&& (0 <= k1 < links[j1].0.len() && 0 <= k2 < links[j2].0.len()
                    ==> links[j1].0[k1].span_id@ != links[j2].0[k2].span_id@)
            },
    ensures
        one_to_n_fold_laws(scope, (used, prev.1.push((n, links)))),
{
    let pn = prev.1.push((n, links));
    let last = prev.1.len() as int;
    assert(pn[last] == (n, links));
    assert forall|i: int| 0 <= i < last implies #[trigger] pn[i] == prev.1[i] by {}
    assert(sources_on_node(pn)) by {
        assert forall|i: int, j: int, k: int|
            0 <= i < pn.len() && 0 <= j < pn[i].1.len() && 0 <= k < pn[i].1[j].0.len()
                implies (#[trigger] pn[i].1[j].0[k]).node.name@ == pn[i].0 by {
            if i < last {
                assert(pn[i] == prev.1[i]);
            }
        }
    }
    assert(never_shared_within_nodes(pn)) by {
        assert forall|i: int, j1: int, j2: int, k1: int, k2: int|
            #![trigger pn[i].1[j1].1[k1], pn[i].1[j2].1[k2]]
            #![trigger pn[i].1[j1].0[k1], pn[i].1[j2].0[k2]]
            0 <= i < pn.len() && 0 <= j1 < pn[i].1.len() && 0 <= j2 < pn[i].1.len() && j1 != j2
                implies {
                    &&& (0 <= k1 < pn[i].1[j1].1.len() && 0 <= k2 < pn[i].1[j2].1.len()
                        ==> pn[i].1[j1].1[k1].span_id@ != pn[i].1[j2].1[k2].span_id@)
                    &&& (0 <= k1 < pn[i].1[j1].0.len() && 0 <= k2 < pn[i].1[j2].0.len()
                        ==> pn[i].1[j1].0[k1].span_id@ != pn[i].1[j2].0[k2].span_id@)
                } by {
            if i < last {
                assert(pn[i] == prev.1[i]);
            }
        }
    }
    if scope == SourceScope::SameNode {
        assert(targets_on_node(pn)) by {
            assert forall|i: int, j: int, k: int|
                0 <= i < pn.len() && 0 <= j < pn[i].1.len() && 0 <= k < pn[i].1[j].1.len()
                    implies (#[trigger] pn[i].1[j].1[k]).node.name@ == pn[i].0 by {
                if i < last {
                    assert(pn[i] == prev.1[i]);
                } else {
                    let q = choose|q: int| 0 <= q < cands.len() && cands[q] == links[j].1[k];
                    assert(cands[q].node.name@ == n);
                }
            }
        }
        assert forall|i: int, j: int, k: int|
            0 <= i < pn.len() && 0 <= j < pn[i].1.len() && 0 <= k < pn[i].1[j].1.len()
                implies used.contains((#[trigger] pn[i].1[j].1[k]).span_id@) by {
            if i < last {
                assert(pn[i] == prev.1[i]);
                assert(prev.0.contains(prev.1[i].1[j].1[k].span_id@));
            }
        }
        assert(targets_never_shared(pn)) by {
            assert forall|i1: int, j1: int, k1: int, i2: int, j2: int, k2: int|
                0 <= i1 < pn.len() && 0 <= j1 < pn[i1].1.len() && 0 <= k1 < pn[i1].1[j1].1.len()
                    && 0 <= i2 < pn.len() && 0 <= j2 < pn[i2].1.len() && 0 <= k2 < pn[i2].1[j2].1.len()
                    && (i1 != i2 || j1 != j2)
                    implies (#[trigger] pn[i1].1[j1].1[k1]).span_id@ != (#[trigger] pn[i2].1[j2].1[k2]).span_id@ by {
                if i1 < last && i2 < last {
                    assert(pn[i1] == prev.1[i1]);
                    assert(pn[i2] == prev.1[i2]);
                } else if i1 < last {
                    assert(pn[i1] == prev.1[i1]);
                    assert(prev.0.contains(prev.1[i1].1[j1].1[k1].span_id@));
                    assert(pn[i2].1 == links);
                    assert(!used0.contains(links[j2].1[k2].span_id@));
                } else if i2 < last {
                    assert(pn[i2] == prev.1[i2]);
                    assert(prev.0.contains(prev.1[i2].1[j2].1[k2].span_id@));
                    assert(pn[i1].1 == links);
                    assert(!used0.contains(links[j1].1[k1].span_id@));
                } else {
                    assert(pn[i1].1 == links);
                    assert(pn[i2].1 == links);
                    assert(links[j1].1[k1].span_id@ != links[j2].1[k2].span_id@);
                }
            }
        }
    }
}

/// The links of an analysis, node by node: no span serves two links of one node; a link's
/// targets (N-to-1) or sources (1-to-N) are recorded by the node it is listed under, and with the
/// same-node scope all its spans are; with the same-node scope no source (N-to-1) or target
/// (1-to-N) serves two links of any nodes.
pub proof fn lemma_analysis_links(
    source_name: Option<String>,
    target_name: Option<String>,
    all: Seq<Rc<Span>>,
    r: LinkRules,
    scope: SourceScope,
    card: AnalysisCardinality,
)
    ensures
        analysis_outcome(source_name, target_name, all, r, scope, card) matches Ok(pn) ==> {
            &&& never_shared_within_nodes(pn)
            &&& card == AnalysisCardinality::NToOne ==> targets_on_node(pn)
            &&& card == AnalysisCardinality::OneToN ==> sources_on_node(pn)
            &&& scope == SourceScope::SameNode ==> sources_on_node(pn) && targets_on_node(pn)
            &&& scope == SourceScope::SameNode && card == AnalysisCardinality::NToOne ==> sources_never_shared(pn)
            &&& scope == SourceScope::SameNode && card == AnalysisCardinality::OneToN ==> targets_never_shared(pn)
        },
{
    if let (Some(s), Some(t)) = (source_name, target_name) {
        let sources = crate::analyze_utils::named_spans(all, s@);
        let targets = crate::analyze_utils::named_spans(all, t@);
        let ss = sort_by_start(sources);
        let ts = sort_by_start(targets);
        if card == AnalysisCardinality::NToOne {
            lemma_n_to_one_fold(r, scope, ss, ts, n_to_one_nodes(scope, ss, ts));
        } else {
            lemma_one_to_n_fold(r, scope, ss, ts, one_to_n_nodes(scope, ss, ts));
        }
    }
}

/// No name is listed twice.
pub open spec fn names_distinct(s: Seq<Seq<char>>) -> bool {
    forall|i: int, j: int| 0 <= i < j < s.len() ==> s[i] != s[j]
}

/// Every span of a link is among the given sources or targets, and no node is listed twice.
pub open spec fn drawn_from(pn: Seq<(Seq<char>, Seq<LinkV>)>, sources: Seq<Rc<Span>>, targets: Seq<Rc<Span>>) -> bool {
    &&& forall|i: int, j: int, k: int|
        0 <= i < pn.len() && 0 <= j < pn[i].1.len() && 0 <= k < pn[i].1[j].0.len()
            ==> sources.contains(#[trigger] pn[i].1[j].0[k])
    &&& forall|i: int, j: int, k: int|
        0 <= i < pn.len() && 0 <= j < pn[i].1.len() && 0 <= k < pn[i].1[j].1.len()
            ==> targets.contains(#[trigger] pn[i].1[j].1[k])
    &&& forall|i1: int, i2: int| 0 <= i1 < i2 < pn.len() ==> (#[trigger] pn[i1]).0 != (#[trigger] pn[i2]).0
}

proof fn lemma_node_names_distinct(spans: Seq<Rc<Span>>)
    ensures
        names_distinct(node_names(spans)),
    decreases spans.len(),
{
    if spans.len() > 0 {
        lemma_node_names_distinct(spans.drop_last());
    }
}

proof fn lemma_names_with_spans(a: Seq<Seq<char>>, spans: Seq<Rc<Span>>)
    requires
        names_distinct(a),
    ensures
        names_distinct(names_with_spans(a, spans)),
        forall|x: Seq<char>| names_with_spans(a, spans).contains(x) ==> a.contains(x),
    decreases a.len(),
{
    if a.len() > 0 {
        let p = a.drop_last();
        lemma_names_with_spans(p, spans);
        let r = names_with_spans(p, spans);
        assert forall|x: Seq<char>| r.contains(x) implies p.contains(x) by {}
        if !r.contains(a.last()) {
        } else {
            assert(p.contains(a.last()));
            let q = choose|q: int| 0 <= q < p.len() && p[q] == a.last();
            assert(a[q] == a[a.len() - 1]);
        }
        assert forall|x: Seq<char>| names_with_spans(a, spans).contains(x) implies a.contains(x) by {
            if r.contains(x) {
                assert(p.contains(x));
                let q = choose|q: int| 0 <= q < p.len() && p[q] == x;
                assert(a[q] == x);
            } else {
                assert(a[a.len() - 1] == x);
            }
        }
    }
}

proof fn lemma_names_not_in(a: Seq<Seq<char>>, b: Seq<Seq<char>>)
    requires
        names_distinct(b),
    ensures
        names_distinct(names_not_in(a, b)),
        forall|x: Seq<char>| names_not_in(a, b).contains(x) ==> !a.contains(x) && b.contains(x),
    decreases b.len(),
{
    if b.len() > 0 {
        let p = b.drop_last();
        lemma_names_not_in(a, p);
        let r = names_not_in(a, p);
        if !a.contains(b.last()) && r.contains(b.last()) {
            assert(p.contains(b.last()));
            let q = choose|q: int| 0 <= q < p.len() && p[q] == b.last();
            assert(b[q] == b[b.len() - 1]);
        }
        assert forall|x: Seq<char>| names_not_in(a, b).contains(x) implies !a.contains(x) && b.contains(x) by {
            if r.contains(x) {
                assert(p.contains(x));
                let q = choose|q: int| 0 <= q < p.len() && p[q] == x;
                assert(b[q] == x);
            } else {
                assert(b[b.len() - 1] == x);
            }
        }
    }
}

proof fn lemma_nodes_distinct(scope: SourceScope, ss: Seq<Rc<Span>>, ts: Seq<Rc<Span>>)
    ensures
        names_distinct(n_to_one_nodes(scope, ss, ts)),
        names_distinct(one_to_n_nodes(scope, ss, ts)),
{
    lemma_node_names_distinct(ss);
    lemma_node_names_distinct(ts);
    lemma_names_with_spans(node_names(ss), ts);
    lemma_names_not_in(node_names(ss), node_names(ts));
    let a = node_names(ss);
    let b = names_not_in(a, node_names(ts));
    let c = a + b;
    assert forall|i: int, j: int| 0 <= i < j < c.len() implies c[i] != c[j] by {
        if j >= a.len() && i < a.len() {
            assert(b.contains(c[j])) by { assert(b[j - a.len()] == c[j]); }
            assert(a.contains(c[i])) by { assert(a[i] == c[i]); }
        } else if i >= a.len() {
            assert(c[i] == b[i - a.len()]);
            assert(c[j] == b[j - a.len()]);
        }
    }
}

/// The spans that `spans_on_node` picks are among the spans.
proof fn lemma_on_node_within(spans: Seq<Rc<Span>>, n: Seq<char>)
    ensures
        forall|x: Rc<Span>| spans_on_node(spans, n).contains(x) ==> spans.contains(x),
    decreases spans.len(),
{
    if spans.len() > 0 {
        let p = spans.drop_last();
        lemma_on_node_within(p, n);
        assert forall|x: Rc<Span>| spans_on_node(spans, n).contains(x) implies spans.contains(x) by {
            if spans_on_node(p, n).contains(x) {
                assert(p.contains(x));
                let q = choose|q: int| 0 <= q < p.len() && p[q] == x;
                assert(spans[q] == x);
            } else {
                assert(spans[spans.len() - 1] == x);
            }
        }
    }
}

/// The links of an N-to-1 fold over distinct nodes are drawn from its sources and targets.
proof fn lemma_n_to_one_drawn(
    r: LinkRules,
    scope: SourceScope,
    sources: Seq<Rc<Span>>,
    targets: Seq<Rc<Span>>,
    nodes: Seq<Seq<char>>,
)
    requires
        names_distinct(nodes),
    ensures
        drawn_from(n_to_one_fold(r, scope, sources, targets, nodes).1, sources, targets),
        forall|i: int| 0 <= i < n_to_one_fold(r, scope, sources, targets, nodes).1.len()
            ==> nodes.contains(#[trigger] n_to_one_fold(r, scope, sources, targets, nodes).1[i].0),
    decreases nodes.len(),
{
    if nodes.len() > 0 {
        let p = nodes.drop_last();
        lemma_n_to_one_drawn(r, scope, sources, targets, p);
        let prev = n_to_one_fold(r, scope, sources, targets, p);
        let n = nodes.last();
        let ts = spans_on_node(targets, n);
        let f = n_to_one_fold(r, scope, sources, targets, nodes);
        assert forall|i: int| 0 <= i < prev.1.len() implies nodes.contains(#[trigger] prev.1[i].0) by {
            let q = choose|q: int| 0 <= q < p.len() && p[q] == prev.1[i].0;
            assert(nodes[q] == p[q]);
        }
        if ts.len() > 0 {
            let same = scope == SourceScope::SameNode;
            let cands = if same { spans_on_node(sources, n) } else { sources };
            let used0 = if same { prev.0 } else { Seq::<Seq<u8>>::empty() };
            let st: RunState = (used0, Seq::empty(), Seq::empty());
            let run = n_to_one_run(r, cands, st, ts);
            lemma_on_node(targets, n);
            lemma_on_node_within(targets, n);
            lemma_on_node_within(sources, n);
            lemma_n_to_one_node_run(r, cands, used0, ts, n);
            lemma_n_to_one_targets(r, cands, st, ts);
            if run.2.len() > 0 {
                let pn = prev.1.push((n, run.2));
                assert(f.1 == pn);
                let last = prev.1.len() as int;
                assert(pn[last] == (n, run.2));
                assert forall|i: int| 0 <= i < last implies #[trigger] pn[i] == prev.1[i] by {}
                assert forall|i: int, j: int, k: int|
                    0 <= i < pn.len() && 0 <= j < pn[i].1.len() && 0 <= k < pn[i].1[j].0.len()
                        implies sources.contains(#[trigger] pn[i].1[j].0[k]) by {
                    if i < last {
                        assert(pn[i] == prev.1[i]);
                    } else {
                        assert(cands.contains(run.2[j].0[k]));
                    }
                }
                assert forall|i: int, j: int, k: int|
                    0 <= i < pn.len() && 0 <= j < pn[i].1.len() && 0 <= k < pn[i].1[j].1.len()
                        implies targets.contains(#[trigger] pn[i].1[j].1[k]) by {
                    if i < last {
                        assert(pn[i] == prev.1[i]);
                    } else {
                        assert(run.2[j].1.len() == 1 && ts.contains(run.2[j].1[0]));
                        assert(k == 0);
                    }
                }
                assert forall|i1: int, i2: int| 0 <= i1 < i2 < pn.len() implies (#[trigger] pn[i1]).0 != (#[trigger] pn[i2]).0 by {
                    if i2 == last {
                        assert(pn[i1] == prev.1[i1]);
                        if prev.1[i1].0 == n {
                            let q = choose|q: int| 0 <= q < p.len() && p[q] == prev.1[i1].0;
                            assert(nodes[q] == nodes[nodes.len() - 1]);
                        }
                    } else {
                        assert(pn[i1] == prev.1[i1]);
                        assert(pn[i2] == prev.1[i2]);
                    }
                }
                assert forall|i: int| 0 <= i < pn.len() implies nodes.contains(#[trigger] pn[i].0) by {
                    if i < last {
                        assert(pn[i] == prev.1[i]);
                    } else {
                        assert(nodes[nodes.len() - 1] == n);
                    }
                }
            }
        }
    }
}

/// The links of a 1-to-N fold over distinct nodes are drawn from its sources and targets.
proof fn lemma_one_to_n_drawn(
    r: LinkRules,
    scope: SourceScope,
    sources: Seq<Rc<Span>>,
    targets: Seq<Rc<Span>>,
    nodes: Seq<Seq<char>>,
)
    requires
        names_distinct(nodes),
    ensures
        drawn_from(one_to_n_fold(r, scope, sources, targets, nodes).1, sources, targets),
        forall|i: int| 0 <= i < one_to_n_fold(r, scope, sources, targets, nodes).1.len()
            ==> nodes.contains(#[trigger] one_to_n_fold(r, scope, sources, targets, nodes).1[i].0),
    decreases nodes.len(),
{
    if nodes.len() > 0 {
        let p = nodes.drop_last();
        lemma_one_to_n_drawn(r, scope, sources, targets, p);
        let prev = one_to_n_fold(r, scope, sources, targets, p);
        let n = nodes.last();
        let ss = spans_on_node(sources, n);
        let f = one_to_n_fold(r, scope, sources, targets, nodes);
        assert forall|i: int| 0 <= i < prev.1.len() implies nodes.contains(#[trigger] prev.1[i].0) by {
            let q = choose|q: int| 0 <= q < p.len() && p[q] == prev.1[i].0;
            assert(nodes[q] == p[q]);
        }
        let same = scope == SourceScope::SameNode;
        let cands = if same { spans_on_node(targets, n) } else { targets };
        let used0 = if same { prev.0 } else { Seq::<Seq<u8>>::empty() };
        let st: RunState = (Seq::empty(), used0, Seq::empty());
        let run = one_to_n_run(r, cands, st, ss);
        lemma_on_node(sources, n);
        lemma_on_node_within(targets, n);
        lemma_on_node_within(sources, n);
        lemma_one_to_n_node_run(r, cands, used0, ss, n);
        lemma_one_to_n_sources(r, cands, st, ss);
        if run.2.len() > 0 {
            let pn = prev.1.push((n, run.2));
            assert(f.1 == pn);
            let last = prev.1.len() as int;
            assert(pn[last] == (n, run.2));
            assert forall|i: int| 0 <= i < last implies #[trigger] pn[i] == prev.1[i] by {}
            assert forall|i: int, j: int, k: int|
                0 <= i < pn.len() && 0 <= j < pn[i].1.len() && 0 <= k < pn[i].1[j].1.len()
                    implies targets.contains(#[trigger] pn[i].1[j].1[k]) by {
                if i < last {
                    assert(pn[i] == prev.1[i]);
                } else {
                    assert(cands.contains(run.2[j].1[k]));
                }
            }
            assert forall|i: int, j: int, k: int|
                0 <= i < pn.len() && 0 <= j < pn[i].1.len() && 0 <= k < pn[i].1[j].0.len()
                    implies sources.contains(#[trigger] pn[i].1[j].0[k]) by {
                if i < last {
                    assert(pn[i] == prev.1[i]);
                } else {
                    assert(run.2[j].0.len() == 1 && ss.contains(run.2[j].0[0]));
                    assert(k == 0);
                }
            }
            assert forall|i1: int, i2: int| 0 <= i1 < i2 < pn.len() implies (#[trigger] pn[i1]).0 != (#[trigger] pn[i2]).0 by {
                if i2 == last {
                    assert(pn[i1] == prev.1[i1]);
                    if prev.1[i1].0 == n {
                        let q = choose|q: int| 0 <= q < p.len() && p[q] == prev.1[i1].0;
                        assert(nodes[q] == nodes[nodes.len() - 1]);
                    }
                } else {
                    assert(pn[i1] == prev.1[i1]);
                    assert(pn[i2] == prev.1[i2]);
                }
            }
            assert forall|i: int| 0 <= i < pn.len() implies nodes.contains(#[trigger] pn[i].0) by {
                if i < last {
                    assert(pn[i] == prev.1[i]);
                } else {
                    assert(nodes[nodes.len() - 1] == n);
                }
            }
        }
    }
}

/// Spans recorded by different nodes have different ids.
pub open spec fn ids_apart_across_nodes(all: Seq<Rc<Span>>) -> bool {
    forall|i: int, j: int| 0 <= i < all.len() && 0 <= j < all.len()
        && (#[trigger] all[i]).span_id@ == (#[trigger] all[j]).span_id@
        ==> all[i].node.name@ == all[j].node.name@
}

proof fn lemma_named_within(all: Seq<Rc<Span>>, name: Seq<char>)
    ensures
        forall|x: Rc<Span>| named_spans(all, name).contains(x) ==> all.contains(x),
    decreases all.len(),
{
    if all.len() > 0 {
        let p = all.drop_last();
        lemma_named_within(p, name);
        assert forall|x: Rc<Span>| named_spans(all, name).contains(x) implies all.contains(x) by {
            if named_spans(p, name).contains(x) {
                assert(p.contains(x));
                let q = choose|q: int| 0 <= q < p.len() && p[q] == x;
                assert(all[q] == x);
            } else {
                assert(all[all.len() - 1] == x);
            }
        }
    }
}

/// The spans sorted by start time from those named `name` are among all spans.
proof fn lemma_sorted_named_within(all: Seq<Rc<Span>>, name: Seq<char>)
    ensures
        forall|x: Rc<Span>| sort_by_start(named_spans(all, name)).contains(x) ==> all.contains(x),
{
    broadcast use vstd::seq_lib::to_multiset_contains;
    lemma_named_within(all, name);
    lemma_sort_by_start_sorted(named_spans(all, name));
    assert forall|x: Rc<Span>| sort_by_start(named_spans(all, name)).contains(x) implies all.contains(x) by {
        assert(sort_by_start(named_spans(all, name)).to_multiset().count(x) > 0);
        assert(named_spans(all, name).contains(x));
    }
}

/// Two of the spans with the same id are recorded by the same node.
proof fn lemma_same_id_same_node(all: Seq<Rc<Span>>, x: Rc<Span>, y: Rc<Span>)
    requires
        ids_apart_across_nodes(all),
        all.contains(x),
        all.contains(y),
        x.span_id@ == y.span_id@,
    ensures
        x.node.name@ == y.node.name@,
{
    let a = choose|a: int| 0 <= a < all.len() && all[a] == x;
    let b = choose|b: int| 0 <= b < all.len() && all[b] == y;
    assert(all[a].span_id@ == all[b].span_id@);
}

/// Targets on their node, drawn from spans whose ids differ across nodes, never shared within a
/// node, are never shared at all.
proof fn lemma_targets_never_shared(pn: Seq<(Seq<char>, Seq<LinkV>)>, ss: Seq<Rc<Span>>, ts: Seq<Rc<Span>>, all: Seq<Rc<Span>>)
    requires
        ids_apart_across_nodes(all),
        forall|x: Rc<Span>| ts.contains(x) ==> all.contains(x),
        drawn_from(pn, ss, ts),
        targets_on_node(pn),
        never_shared_within_nodes(pn),
    ensures
        targets_never_shared(pn),
{
    assert forall|i1: int, j1: int, k1: int, i2: int, j2: int, k2: int|
        0 <= i1 < pn.len() && 0 <= j1 < pn[i1].1.len() && 0 <= k1 < pn[i1].1[j1].1.len()
            && 0 <= i2 < pn.len() && 0 <= j2 < pn[i2].1.len() && 0 <= k2 < pn[i2].1[j2].1.len()
            && (i1 != i2 || j1 != j2)
        implies (#[trigger] pn[i1].1[j1].1[k1]).span_id@ != (#[trigger] pn[i2].1[j2].1[k2]).span_id@ by {
        let x = pn[i1].1[j1].1[k1];
        let y = pn[i2].1[j2].1[k2];
        if x.span_id@ == y.span_id@ {
            assert(ts.contains(x) && ts.contains(y));
            lemma_same_id_same_node(all, x, y);
            if i1 == i2 {
                assert(pn[i1].1[j1].1[k1].span_id@ != pn[i1].1[j2].1[k2].span_id@);
            } else if i1 < i2 {
                assert(pn[i1].0 != pn[i2].0);
            } else {
                assert(pn[i2].0 != pn[i1].0);
            }
        }
    }
}

/// Sources on their node, drawn from spans whose ids differ across nodes, never shared within a
/// node, are never shared at all.
proof fn lemma_sources_never_shared(pn: Seq<(Seq<char>, Seq<LinkV>)>, ss: Seq<Rc<Span>>, ts: Seq<Rc<Span>>, all: Seq<Rc<Span>>)
    requires
        ids_apart_across_nodes(all),
        forall|x: Rc<Span>| ss.contains(x) ==> all.contains(x),
        drawn_from(pn, ss, ts),
        sources_on_node(pn),
        never_shared_within_nodes(pn),
    ensures
        sources_never_shared(pn),
{
    assert forall|i1: int, j1: int, k1: int, i2: int, j2: int, k2: int|
        0 <= i1 < pn.len() && 0 <= j1 < pn[i1].1.len() && 0 <= k1 < pn[i1].1[j1].0.len()
            && 0 <= i2 < pn.len() && 0 <= j2 < pn[i2].1.len() && 0 <= k2 < pn[i2].1[j2].0.len()
            && (i1 != i2 || j1 != j2)
        implies (#[trigger] pn[i1].1[j1].0[k1]).span_id@ != (#[trigger] pn[i2].1[j2].0[k2]).span_id@ by {
        let x = pn[i1].1[j1].0[k1];
        let y = pn[i2].1[j2].0[k2];
        if x.span_id@ == y.span_id@ {
            assert(ss.contains(x) && ss.contains(y));
            lemma_same_id_same_node(all, x, y);
            if i1 == i2 {
                assert(pn[i1].1[j1].0[k1].span_id@ != pn[i1].1[j2].0[k2].span_id@);
            } else if i1 < i2 {
                assert(pn[i1].0 != pn[i2].0);
            } else {
                assert(pn[i2].0 != pn[i1].0);
            }
        }
    }
}

/// With the same-node scope, and where spans recorded by different nodes have different ids, no
/// span id serves two links of the analysis: neither as a source nor as a target, on any nodes.
pub proof fn lemma_same_node_spans_used_once(
    source_name: Option<String>,
    target_name: Option<String>,
    all: Seq<Rc<Span>>,
    r: LinkRules,
    card: AnalysisCardinality,
)
    requires
        ids_apart_across_nodes(all),
    ensures
        analysis_outcome(source_name, target_name, all, r, SourceScope::SameNode, card) matches Ok(pn)
            ==> sources_never_shared(pn) && targets_never_shared(pn),
{
    lemma_analysis_links(source_name, target_name, all, r, SourceScope::SameNode, card);
    if let (Some(s), Some(t)) = (source_name, target_name) {
        let ss = sort_by_start(named_spans(all, s@));
        let ts = sort_by_start(named_spans(all, t@));
        lemma_sorted_named_within(all, s@);
        lemma_sorted_named_within(all, t@);
        lemma_nodes_distinct(SourceScope::SameNode, ss, ts);
        if let Ok(pn) = analysis_outcome(source_name, target_name, all, r, SourceScope::SameNode, card) {
            if card == AnalysisCardinality::NToOne {
                let nodes = n_to_one_nodes(SourceScope::SameNode, ss, ts);
                lemma_n_to_one_drawn(r, SourceScope::SameNode, ss, ts, nodes);
                assert(pn == n_to_one_fold(r, SourceScope::SameNode, ss, ts, nodes).1);
                lemma_targets_never_shared(pn, ss, ts, all);
            } else {
                let nodes = one_to_n_nodes(SourceScope::SameNode, ss, ts);
                lemma_one_to_n_drawn(r, SourceScope::SameNode, ss, ts, nodes);
                assert(pn == one_to_n_fold(r, SourceScope::SameNode, ss, ts, nodes).1);
                lemma_sources_never_shared(pn, ss, ts, all);
            }
        }
    }
}

/// The spans of a node are exactly the spans of the list recorded by that node.
pub proof fn lemma_spans_on_node_exact(spans: Seq<Rc<Span>>, n: Seq<char>)
    ensures
        all_on_node(spans_on_node(spans, n), n),
        forall|x: Rc<Span>| spans_on_node(spans, n).contains(x) ==> spans.contains(x),
        forall|i: int| 0 <= i < spans.len() && (#[trigger] spans[i]).node.name@ == n
            ==> spans_on_node(spans, n).contains(spans[i]),
    decreases spans.len(),
{
    lemma_on_node(spans, n);
    lemma_on_node_within(spans, n);
    if spans.len() > 0 {
        let p = spans.drop_last();
        lemma_spans_on_node_exact(p, n);
        let r = spans_on_node(spans, n);
        let pr = spans_on_node(p, n);
        assert forall|i: int| 0 <= i < spans.len() && (#[trigger] spans[i]).node.name@ == n
            implies r.contains(spans[i]) by {
            if i < p.len() {
                assert(spans[i] == p[i]);
                assert(pr.contains(p[i]));
                let w = choose|w: int| 0 <= w < pr.len() && pr[w] == p[i];
                assert(r[w] == pr[w]);
            } else {
                assert(spans[i] == spans.last());
                assert(r[r.len() - 1] == spans.last());
            }
        }
    }
}

/// The node names of spans list each node of a span once: no name twice, and every span's node.
pub proof fn lemma_node_names_exact(spans: Seq<Rc<Span>>)
    ensures
        names_distinct(node_names(spans)),
        forall|i: int| 0 <= i < spans.len() ==> node_names(spans).contains((#[trigger] spans[i]).node.name@),
        forall|x: Seq<char>| node_names(spans).contains(x) ==> exists|i: int| 0 <= i < spans.len() && spans[i].node.name@ == x,
    decreases spans.len(),
{
    lemma_node_names_distinct(spans);
    if spans.len() > 0 {
        let p = spans.drop_last();
        lemma_node_names_exact(p);
        let r = node_names(spans);
        let pr = node_names(p);
        assert forall|i: int| 0 <= i < spans.len() implies r.contains((#[trigger] spans[i]).node.name@) by {
            if i < p.len() {
                assert(spans[i] == p[i]);
                assert(pr.contains(p[i].node.name@));
                let w = choose|w: int| 0 <= w < pr.len() && pr[w] == p[i].node.name@;
                assert(r[w] == pr[w]);
            } else {
                assert(spans[i] == spans.last());
                if !pr.contains(spans.last().node.name@) {
                    assert(r[r.len() - 1] == spans.last().node.name@);
                } else {
                    assert(r == pr);
                }
            }
        }
        assert forall|x: Seq<char>| r.contains(x) implies exists|i: int| 0 <= i < spans.len() && spans[i].node.name@ == x by {
            if pr.contains(x) {
                let i = choose|i: int| 0 <= i < p.len() && p[i].node.name@ == x;
                assert(spans[i] == p[i]);
            } else {
                assert(spans[spans.len() - 1].node.name@ == x);
            }
        }
    }
}

} // verus!
