//! Relations between spans: a relation links a span that one selector selects to later spans
//! that another selects, when their attributes and nodes agree as the relation asks.

use vstd::prelude::*;
use std::rc::Rc;

use sha2::Digest;

use crate::analyze_utils::{lemma_sort_by_start_sorted, rc_clone, sort_by_start, sort_spans_by_start, starts_sorted};
use crate::structured_modes::{copy_selector, selector_selects_recorded, SpanSelector};
use crate::text::{chars_of, owned, parse_i64, parse_int, str_eq};
use crate::types::{attr_get, get_attribute, value_text, value_to_text, Span, TimePoint};

verus! {

broadcast use vstd::std_specs::vec::group_vec_axioms;

/// The identity of a relation: 128 bits, as two halves (the first eight bytes, big-endian, then
/// the last eight).
#[derive(Debug, Clone, Copy, PartialEq, Eq, Structural)]
pub struct RelationId {
    pub high: u64,
    pub low: u64,
}

/// The SHA-256 digest of the UTF-8 bytes of a text.
pub uninterp spec fn sha256_of_text(text: Seq<char>) -> Seq<u8>;

/// `sha2::Sha256::digest` of the UTF-8 bytes of `text`: the result is the digest that
/// `sha256_of_text` names, 32 bytes.
#[verifier::external_body]
fn sha256_text(text: &str) -> (r: [u8; 32])
    ensures
        r@ == sha256_of_text(text@),
{
    sha2::Sha256::digest(text).into()
}

/// The value of bytes read as a big-endian number.
pub open spec fn be_value(bytes: Seq<u8>) -> nat
    decreases bytes.len(),
{
    if bytes.len() == 0 {
        0
    } else {
        be_value(bytes.drop_last()) * 256 + bytes.last() as nat
    }
}

/// `256` to the power `k`.
pub open spec fn pow256(k: nat) -> nat
    decreases k,
{
    if k == 0 {
        1
    } else {
        256 * pow256((k - 1) as nat)
    }
}

/// The big-endian value of eight bytes of a digest, from `from` on.
fn be_u64(d: &[u8; 32], from: usize) -> (r: u64)
    requires
        from + 8 <= 32,
    ensures
        r as nat == be_value(d@.subrange(from as int, from + 8)),
{
    let mut v: u64 = 0;
    let mut i: usize = from;
    assert(pow256(8) == 0x1_0000_0000_0000_0000) by {
        reveal_with_fuel(pow256, 9);
    }
    while i < from + 8
        invariant
            from <= i <= from + 8,
            from + 8 <= 32,
            d@.len() == 32,
            v as nat == be_value(d@.subrange(from as int, i as int)),
            (v as nat) < pow256((i - from) as nat),
            pow256(8) == 0x1_0000_0000_0000_0000,
        decreases from + 8 - i,
    {
        let ghost k = (i - from) as nat;
        assert(pow256(k + 1) <= pow256(8)) by {
            lemma_pow256_mono(k + 1, 8);
        }
        assert(pow256(k + 1) == 256 * pow256(k));
        assert(v * 256 + 255 < pow256(k + 1));
        let b = d[i];
        assert(d@.subrange(from as int, i + 1).drop_last() =~= d@.subrange(from as int, i as int));
        v = v * 256 + b as u64;
        i = i + 1;
    }
    v
}

proof fn lemma_pow256_mono(a: nat, b: nat)
    requires
        a <= b,
    ensures
        pow256(a) <= pow256(b),
        pow256(a) >= 1,
    decreases b,
{
    if b > 0 && a < b {
        lemma_pow256_mono(a, (b - 1) as nat);
    } else if a > 0 {
        lemma_pow256_mono((a - 1) as nat, (a - 1) as nat);
    }
}

/// The identity derived from a seed text: the first sixteen bytes of the text's SHA-256 digest.
pub fn make_uuid_from_seed(seed: &str) -> (r: RelationId)
    ensures
        r.high as nat == be_value(sha256_of_text(seed@).subrange(0, 8)),
        r.low as nat == be_value(sha256_of_text(seed@).subrange(8, 16)),
{
    let digest = sha256_text(seed);
    RelationId { high: be_u64(&digest, 0), low: be_u64(&digest, 8) }
}

/// How the attributes of the two spans of a relation must compare.
#[derive(Debug, Clone, Copy, PartialEq, Eq, Structural)]
pub enum AttributeRelationOp {
    /// Both values read the same as text.
    Equal,
    /// Both values read as integers, the second one greater by one.
    OneGreater,
}

/// On which nodes the two spans of a relation may be.
#[derive(Debug, Clone, Copy, PartialEq, Eq, Structural)]
pub enum RelationNodesConfig {
    SameNode,
    DifferentNode,
    AllNodes,
}

/// Whether a span is linked to every later span it relates to, or only to the first one.
#[derive(Debug, Clone, Copy, PartialEq, Eq, Structural)]
pub enum MatchType {
    MatchAll,
    MatchClosest,
}

/// An attribute of the first span of a relation compared with one of the second span.
#[derive(Debug)]
pub struct AttributeRelation {
    pub from_attribute: String,
    pub to_attribute: String,
    pub relation: AttributeRelationOp,
}

/// A relation between spans.
#[derive(Debug)]
pub struct Relation {
    pub id: RelationId,
    pub name: String,
    pub description: String,
    /// Selects the spans a link starts from.
    pub from_span_selector: SpanSelector,
    /// Selects the spans a link goes to.
    pub to_span_selector: SpanSelector,
    pub attribute_relations: Vec<AttributeRelation>,
    /// Nanoseconds: a span that starts later than this after the first span starts is not linked.
    pub max_time_diff: Option<i64>,
    /// Nanoseconds: a linked span starts no earlier than this after the first span ends.
    pub min_time_diff: i64,
    pub nodes_config: RelationNodesConfig,
    pub match_type: MatchType,
    pub is_builtin: bool,
}

/// The attributes named by `ar` are on both spans and compare as `ar` asks.
pub open spec fn attribute_relation_holds(ar: AttributeRelation, from: Span, to: Span) -> bool {
    match (attr_get(from.attributes@, ar.from_attribute@), attr_get(to.attributes@, ar.to_attribute@)) {
        (Some(a), Some(b)) => match ar.relation {
            AttributeRelationOp::Equal => value_text(a) == value_text(b),
            AttributeRelationOp::OneGreater => match (parse_int(value_text(a)), parse_int(value_text(b))) {
                (Some(x), Some(y)) => x + 1 == y,
                _ => false,
            },
        },
        _ => false,
    }
}

/// The nodes of the two spans are as the configuration asks.
pub open spec fn nodes_agree(cfg: RelationNodesConfig, from: Span, to: Span) -> bool {
    match cfg {
        RelationNodesConfig::SameNode => from.node.name@ == to.node.name@,
        RelationNodesConfig::DifferentNode => from.node.name@ != to.node.name@,
        RelationNodesConfig::AllNodes => true,
    }
}

/// The relation holds from `from` to `to`: both are selected, their attributes compare as asked
/// and their nodes agree.
pub open spec fn relation_holds(rel: Relation, from: Span, to: Span) -> bool {
    &&& selector_selects_recorded(rel.from_span_selector, from)
    &&& selector_selects_recorded(rel.to_span_selector, to)
    &&& forall|i: int| 0 <= i < rel.attribute_relations@.len()
        ==> #[trigger] attribute_relation_holds(rel.attribute_relations@[i], from, to)
    &&& nodes_agree(rel.nodes_config, from, to)
}

impl AttributeRelation {
    fn matches(&self, from_span: &Span, to_span: &Span) -> (r: bool)
        ensures
            r == attribute_relation_holds(*self, *from_span, *to_span),
    {
        let from_value = match get_attribute(&from_span.attributes, self.from_attribute.as_str()) {
            Some(v) => v,
            None => {
                return false;
            },
        };
        let to_value = match get_attribute(&to_span.attributes, self.to_attribute.as_str()) {
            Some(v) => v,
            None => {
                return false;
            },
        };
        let from_text = value_to_text(from_value);
        let to_text = value_to_text(to_value);
        match self.relation {
            AttributeRelationOp::Equal => str_eq(from_text.as_str(), to_text.as_str()),
            AttributeRelationOp::OneGreater => {
                let a = chars_of(from_text.as_str());
                let b = chars_of(to_text.as_str());
                match (parse_i64(a.as_slice()), parse_i64(b.as_slice())) {
                    (Some(x), Some(y)) => {
                        match x.checked_add(1) {
                            Some(z) => z == y,
                            None => false,
                        }
                    },
                    _ => false,
                }
            },
        }
    }
}

impl Relation {
    /// Whether the relation holds from `from_span` to `to_span`.
    pub fn matches(&self, from_span: &Span, to_span: &Span) -> (r: bool)
        ensures
            r == relation_holds(*self, *from_span, *to_span),
    {
        if !self.from_span_selector.matches_recorded(from_span) {
            return false;
        }
        if !self.to_span_selector.matches_recorded(to_span) {
            return false;
        }
        for i in 0..self.attribute_relations.len()
            invariant
                forall|j: int| 0 <= j < i ==> #[trigger] attribute_relation_holds(self.attribute_relations@[j], *from_span, *to_span),
        {
            if !self.attribute_relations[i].matches(from_span, to_span) {
                return false;
            }
        }
        match self.nodes_config {
            RelationNodesConfig::SameNode => str_eq(from_span.node.name.as_str(), to_span.node.name.as_str()),
            RelationNodesConfig::DifferentNode => !str_eq(from_span.node.name.as_str(), to_span.node.name.as_str()),
            RelationNodesConfig::AllNodes => true,
        }
    }
}

/// The spans of a tree, in preorder.
pub open spec fn tree_spans(span: Span) -> Seq<Rc<Span>>
    decreases span,
{
    seq![Rc::new(span)] + forest_spans(span.children@)
}

/// The spans of the trees under the given roots, tree after tree.
pub open spec fn forest_spans(spans: Seq<Rc<Span>>) -> Seq<Rc<Span>>
    decreases spans,
{
    if spans.len() == 0 {
        Seq::empty()
    } else {
        forest_spans(spans.drop_last()) + tree_spans(*spans.last())
    }
}

/// The spans that the selector selects by their recorded names, in order.
pub open spec fn selected(sel: SpanSelector, spans: Seq<Rc<Span>>) -> Seq<Rc<Span>>
    decreases spans.len(),
{
    if spans.len() == 0 {
        Seq::empty()
    } else if selector_selects_recorded(sel, *spans.last()) {
        selected(sel, spans.drop_last()).push(spans.last())
    } else {
        selected(sel, spans.drop_last())
    }
}

/// Position of the first span, from the `j`-th on, that starts at `t` or later; the length when
/// there is none.
pub open spec fn first_from(spans: Seq<Rc<Span>>, t: int, j: int) -> int
    decreases spans.len() - j,
{
    if j < 0 || j >= spans.len() {
        spans.len() as int
    } else if spans[j].start_time >= t {
        j
    } else {
        first_from(spans, t, j + 1)
    }
}

/// The spans, from the `j`-th on, that `from` is linked to: scanning stops at a span that starts
/// more than the maximal time difference after `from` starts, and, when only the closest span is
/// linked, after the first span the relation holds for.
pub open spec fn linked_from(rel: Relation, from: Span, tos: Seq<Rc<Span>>, j: int) -> Seq<Rc<Span>>
    decreases tos.len() - j,
{
    if j < 0 || j >= tos.len() {
        Seq::empty()
    } else if rel.max_time_diff matches Some(m) && tos[j].start_time - from.start_time > m {
        Seq::empty()
    } else if !relation_holds(rel, from, *tos[j]) {
        linked_from(rel, from, tos, j + 1)
    } else if rel.match_type == MatchType::MatchClosest {
        seq![tos[j]]
    } else {
        seq![tos[j]] + linked_from(rel, from, tos, j + 1)
    }
}

/// The spans that `from` is linked to: the scan starts at the first span that starts no earlier
/// than the minimal time difference after `from` ends.
pub open spec fn links_of(rel: Relation, from: Span, tos: Seq<Rc<Span>>) -> Seq<Rc<Span>> {
    linked_from(rel, from, tos, first_from(tos, from.end_time + rel.min_time_diff, 0))
}

/// The links from each span of `froms`, in order.
pub open spec fn pairs_from(rel: Relation, froms: Seq<Rc<Span>>, tos: Seq<Rc<Span>>) -> Seq<(Rc<Span>, Rc<Span>)>
    decreases froms.len(),
{
    if froms.len() == 0 {
        Seq::empty()
    } else {
        let f = froms.last();
        pairs_from(rel, froms.drop_last(), tos) + links_of(rel, *f, tos).map_values(|t: Rc<Span>| (f, t))
    }
}

/// The links of a relation among the spans: from the spans its first selector selects, ordered
/// by start time, to those its second selector selects, ordered the same way.
pub open spec fn relation_pairs(rel: Relation, spans: Seq<Rc<Span>>) -> Seq<(Rc<Span>, Rc<Span>)> {
    pairs_from(rel, sort_by_start(selected(rel.from_span_selector, spans)), sort_by_start(selected(rel.to_span_selector, spans)))
}

/// Position of the first relation with the given id.
pub open spec fn relation_index_of(all: Seq<Relation>, id: RelationId) -> Option<int>
    decreases all.len(),
{
    if all.len() == 0 {
        None
    } else {
        match relation_index_of(all.drop_last(), id) {
            Some(k) => Some(k),
            None => if all.last().id == id { Some(all.len() - 1) } else { None },
        }
    }
}

/// The links of the enabled relations, relation after relation, each with the position of its
/// relation; an id that no relation has is passed over.
pub open spec fn relation_links(all: Seq<Relation>, ids: Seq<RelationId>, spans: Seq<Rc<Span>>) -> Seq<(Rc<Span>, Rc<Span>, int)>
    decreases ids.len(),
{
    if ids.len() == 0 {
        Seq::empty()
    } else {
        relation_links(all, ids.drop_last(), spans) + match relation_index_of(all, ids.last()) {
            Some(k) => relation_pairs(all[k], spans).map_values(|p: (Rc<Span>, Rc<Span>)| (p.0, p.1, k)),
            None => Seq::empty(),
        }
    }
}

/// A set of relations that are shown together.
#[derive(Debug)]
pub struct RelationView {
    pub enabled_relations: Vec<RelationId>,
    pub name: String,
    pub is_builtin: bool,
}

#[derive(Debug)]
pub struct RelationViews {
    pub views: Vec<RelationView>,
}

/// A link between two spans, by the relation at `relation_index` of the relations it was found
/// with.
#[derive(Debug)]
pub struct RelationInstance {
    pub from_span: Rc<Span>,
    pub to_span: Rc<Span>,
    pub relation_index: usize,
}

pub open spec fn instance_view(i: RelationInstance) -> (Rc<Span>, Rc<Span>, int) {
    (i.from_span, i.to_span, i.relation_index as int)
}

pub(crate) fn gather_tree(span: &Rc<Span>, out: &mut Vec<Rc<Span>>)
    ensures
        final(out)@ == old(out)@ + tree_spans(**span),
    decreases **span,
{
    out.push(rc_clone(span));
    let ghost start = out@;
    let children = &span.children;
    for i in 0..children.len()
        invariant
            *children == span.children,
            out@ == start + forest_spans(children@.take(i as int)),
    {
        assert(children@.take(i + 1).drop_last() =~= children@.take(i as int));
        proof {
            assert(decreases_to!(**span => span.children));
            assert(decreases_to!(span.children => span.children@));
            assert(decreases_to!(span.children@ => *span.children@[i as int]));
        }
        gather_tree(&children[i], out);
    }
    assert(children@.take(children@.len() as int) =~= children@);
}

pub(crate) fn gather_forest(spans: &[Rc<Span>]) -> (r: Vec<Rc<Span>>)
    ensures
        r@ == forest_spans(spans@),
{
    let mut out: Vec<Rc<Span>> = Vec::new();
    for i in 0..spans.len()
        invariant
            out@ == forest_spans(spans@.take(i as int)),
    {
        assert(spans@.take(i + 1).drop_last() =~= spans@.take(i as int));
        gather_tree(&spans[i], &mut out);
    }
    assert(spans@.take(spans@.len() as int) =~= spans@);
    out
}

fn select_spans(sel: &SpanSelector, spans: &Vec<Rc<Span>>) -> (r: Vec<Rc<Span>>)
    ensures
        r@ == selected(*sel, spans@),
{
    let mut out: Vec<Rc<Span>> = Vec::new();
    for i in 0..spans.len()
        invariant
            out@ == selected(*sel, spans@.take(i as int)),
    {
        assert(spans@.take(i + 1).drop_last() =~= spans@.take(i as int));
        if sel.matches_recorded(&spans[i]) {
            out.push(rc_clone(&spans[i]));
        }
    }
    assert(spans@.take(spans@.len() as int) =~= spans@);
    out
}

fn first_span_from(spans: &Vec<Rc<Span>>, t: i128) -> (r: usize)
    ensures
        r as int == first_from(spans@, t as int, 0),
        r <= spans@.len(),
{
    let mut j: usize = 0;
    while j < spans.len()
        invariant
            j <= spans@.len(),
            first_from(spans@, t as int, j as int) == first_from(spans@, t as int, 0),
        decreases spans@.len() - j,
    {
        if spans[j].start_time as i128 >= t {
            return j;
        }
        j = j + 1;
    }
    j
}

fn linked_spans(rel: &Relation, from: &Span, tos: &Vec<Rc<Span>>, j0: usize) -> (r: Vec<Rc<Span>>)
    ensures
        r@ == linked_from(*rel, *from, tos@, j0 as int),
{
    let mut out: Vec<Rc<Span>> = Vec::new();
    let mut j: usize = j0;
    while j < tos.len()
        invariant
            linked_from(*rel, *from, tos@, j0 as int) == out@ + linked_from(*rel, *from, tos@, j as int),
        decreases tos@.len() - j,
    {
        let to = &tos[j];
        if let Some(m) = rel.max_time_diff {
            if (to.start_time as i128) - (from.start_time as i128) > m as i128 {
                return out;
            }
        }
        if rel.matches(from, to) {
            out.push(rc_clone(to));
            if rel.match_type == MatchType::MatchClosest {
                return out;
            }
        }
        j = j + 1;
    }
    out
}

fn relation_pairs_of(rel: &Relation, spans: &Vec<Rc<Span>>) -> (r: Vec<(Rc<Span>, Rc<Span>)>)
    ensures
        r@ == relation_pairs(*rel, spans@),
{
    let froms = sort_spans_by_start(&select_spans(&rel.from_span_selector, spans));
    let tos = sort_spans_by_start(&select_spans(&rel.to_span_selector, spans));
    let mut out: Vec<(Rc<Span>, Rc<Span>)> = Vec::new();
    for i in 0..froms.len()
        invariant
            out@ == pairs_from(*rel, froms@.take(i as int), tos@),
    {
        assert(froms@.take(i + 1).drop_last() =~= froms@.take(i as int));
        let f = &froms[i];
        let t = (f.end_time as i128) + (rel.min_time_diff as i128);
        let j0 = first_span_from(&tos, t);
        let linked = linked_spans(rel, f, &tos, j0);
        let ghost before = out@;
        for k in 0..linked.len()
            invariant
                out@ == before + linked@.take(k as int).map_values(|x: Rc<Span>| (*f, x)),
        {
            out.push((rc_clone(f), rc_clone(&linked[k])));
            assert(linked@.take(k + 1).map_values(|x: Rc<Span>| (*f, x))
                =~= linked@.take(k as int).map_values(|x: Rc<Span>| (*f, x)).push((*f, linked@[k as int])));
        }
        assert(linked@.take(linked@.len() as int) =~= linked@);
        assert(froms@.take(i + 1).last() == *f);
    }
    assert(froms@.take(froms@.len() as int) =~= froms@);
    out
}

fn relation_position(all: &[Relation], id: RelationId) -> (r: Option<usize>)
    ensures
        match r {
            Some(k) => relation_index_of(all@, id) == Some(k as int),
            None => relation_index_of(all@, id) is None,
        },
        r matches Some(k) ==> k < all@.len(),
{
    let mut k: usize = 0;
    while k < all.len()
        invariant
            k <= all@.len(),
            relation_index_of(all@.take(k as int), id) is None,
        decreases all@.len() - k,
    {
        assert(all@.take(k + 1).drop_last() =~= all@.take(k as int));
        if all[k].id == id {
            proof {
                lemma_index_of_prefix(all@, id, k as int + 1);
            }
            return Some(k);
        }
        k = k + 1;
    }
    assert(all@.take(all@.len() as int) =~= all@);
    None
}

proof fn lemma_index_of_prefix(all: Seq<Relation>, id: RelationId, n: int)
    requires
        0 <= n <= all.len(),
        relation_index_of(all.take(n), id) is Some,
    ensures
        relation_index_of(all, id) == relation_index_of(all.take(n), id),
    decreases all.len() - n,
{
    if n < all.len() {
        assert(all.take(n + 1).drop_last() =~= all.take(n));
        lemma_index_of_prefix(all, id, n + 1);
    } else {
        assert(all.take(n) =~= all);
    }
}

/// The links that the relations enabled in `view` make among the spans of the trees under
/// `spans`: relation by relation in the order the view enables them, from span by from span in
/// order of start time.
pub fn find_relations(all_relations: &[Relation], view: &RelationView, spans: &[Rc<Span>]) -> (r: Vec<RelationInstance>)
    ensures
        r@.map_values(|i: RelationInstance| instance_view(i))
            == relation_links(all_relations@, view.enabled_relations@, forest_spans(spans@)),
{
    let all_spans = gather_forest(spans);
    let ids = &view.enabled_relations;
    let mut res: Vec<RelationInstance> = Vec::new();
    for i in 0..ids.len()
        invariant
            *ids == view.enabled_relations,
            all_spans@ == forest_spans(spans@),
            res@.map_values(|x: RelationInstance| instance_view(x))
                == relation_links(all_relations@, ids@.take(i as int), all_spans@),
    {
        assert(ids@.take(i + 1).drop_last() =~= ids@.take(i as int));
        assert(ids@.take(i + 1).last() == ids@[i as int]);
        let ghost before = res@.map_values(|x: RelationInstance| instance_view(x));
        match relation_position(all_relations, ids[i]) {
            Some(k) => {
                let pairs = relation_pairs_of(&all_relations[k], &all_spans);
                for p in 0..pairs.len()
                    invariant
                        res@.map_values(|x: RelationInstance| instance_view(x))
                            == before + pairs@.take(p as int).map_values(|q: (Rc<Span>, Rc<Span>)| (q.0, q.1, k as int)),
                {
                    let ghost old_res = res@;
                    res.push(RelationInstance {
                        from_span: rc_clone(&pairs[p].0),
                        to_span: rc_clone(&pairs[p].1),
                        relation_index: k,
                    });
                    assert(res@.map_values(|x: RelationInstance| instance_view(x))
                        =~= old_res.map_values(|x: RelationInstance| instance_view(x)).push((pairs@[p as int].0, pairs@[p as int].1, k as int)));
                    assert(pairs@.take(p + 1).map_values(|q: (Rc<Span>, Rc<Span>)| (q.0, q.1, k as int))
                        =~= pairs@.take(p as int).map_values(|q: (Rc<Span>, Rc<Span>)| (q.0, q.1, k as int)).push((pairs@[p as int].0, pairs@[p as int].1, k as int)));
                }
                assert(pairs@.take(pairs@.len() as int) =~= pairs@);
            },
            None => {
                assert(res@.map_values(|x: RelationInstance| instance_view(x)) =~= before + Seq::<(Rc<Span>, Rc<Span>, int)>::empty());
            },
        }
    }
    assert(ids@.take(ids@.len() as int) =~= ids@);
    res
}

/// The id is the one derived from the seed text.
pub open spec fn id_from_seed(id: RelationId, seed: Seq<char>) -> bool {
    &&& id.high as nat == be_value(sha256_of_text(seed).subrange(0, 8))
    &&& id.low as nat == be_value(sha256_of_text(seed).subrange(8, 16))
}

/// The selector selects the spans with the given name, on any node, whatever their attributes.
pub open spec fn name_selector(sel: SpanSelector, name: Seq<char>) -> bool {
    &&& sel.span_name_condition.operator == crate::structured_modes::MatchOperator::EqualTo
    &&& sel.span_name_condition.value@ == name
    &&& sel.node_name_condition.operator == crate::structured_modes::MatchOperator::Any
    &&& sel.attribute_conditions@.len() == 0
}

/// The attribute relations compare, in order, the attributes of the same names, as given.
pub open spec fn attribute_relations_are(ars: Seq<AttributeRelation>, expected: Seq<(Seq<char>, AttributeRelationOp)>) -> bool {
    &&& ars.len() == expected.len()
    &&& forall|i: int| 0 <= i < ars.len() ==> {
        &&& (#[trigger] ars[i]).from_attribute@ == expected[i].0
        &&& ars[i].to_attribute@ == expected[i].0
        &&& ars[i].relation == expected[i].1
    }
}

/// A built-in relation: its id derived from `seed`, its name, no description, the attribute
/// relations given, spans at most five seconds apart in their starts, and the minimal time
/// difference, node configuration and match type given.
pub open spec fn builtin_relation_is(
    r: Relation,
    seed: Seq<char>,
    name: Seq<char>,
    attrs: Seq<(Seq<char>, AttributeRelationOp)>,
    nodes: RelationNodesConfig,
    mt: MatchType,
    min_time_diff: int,
) -> bool {
    &&& id_from_seed(r.id, seed)
    &&& r.name@ == name
    &&& r.description@ == Seq::<char>::empty()
    &&& attribute_relations_are(r.attribute_relations@, attrs)
    &&& r.max_time_diff == Some(5_000_000_000i64)
    &&& r.min_time_diff == min_time_diff
    &&& r.nodes_config == nodes
    &&& r.match_type == mt
    &&& r.is_builtin
}

/// An attribute relation that compares the attributes of the given name.
pub fn same_attribute(name: &str, op: AttributeRelationOp) -> (r: AttributeRelation)
    ensures
        r.from_attribute@ == name@,
        r.to_attribute@ == name@,
        r.relation == op,
{
    AttributeRelation { from_attribute: owned(name), to_attribute: owned(name), relation: op }
}

/// A built-in relation with an id derived from `seed`, spans at most five seconds apart in
/// their starts.
pub fn builtin_relation(
    seed: &str,
    name: &str,
    from_span_selector: SpanSelector,
    to_span_selector: SpanSelector,
    attribute_relations: Vec<AttributeRelation>,
    nodes_config: RelationNodesConfig,
    match_type: MatchType,
    min_time_diff: i64,
) -> (r: Relation)
    ensures
        id_from_seed(r.id, seed@),
        r.name@ == name@,
        r.description@ == Seq::<char>::empty(),
        r.from_span_selector == from_span_selector,
        r.to_span_selector == to_span_selector,
        r.attribute_relations == attribute_relations,
        r.max_time_diff == Some(5_000_000_000i64),
        r.min_time_diff == min_time_diff,
        r.nodes_config == nodes_config,
        r.match_type == match_type,
        r.is_builtin,
{
    Relation {
        id: make_uuid_from_seed(seed),
        name: owned(name),
        description: String::new(),
        from_span_selector,
        to_span_selector,
        attribute_relations,
        max_time_diff: Some(5_000_000_000i64),
        min_time_diff,
        nodes_config,
        match_type,
        is_builtin: true,
    }
}

fn pre_post_process_block_relation() -> (r: Relation)
    ensures
        builtin_relation_is(r, "pre-post-process block"@, "pre-post-process block"@,
            seq![("height"@, AttributeRelationOp::Equal)], RelationNodesConfig::SameNode, MatchType::MatchClosest, 0),
        name_selector(r.from_span_selector, "preprocess_block"@),
        name_selector(r.to_span_selector, "postprocess_ready_block"@),
{
    builtin_relation(
        "pre-post-process block",
        "pre-post-process block",
        SpanSelector::new_equal_name("preprocess_block"),
        SpanSelector::new_equal_name("postprocess_ready_block"),
        vec![same_attribute("height", AttributeRelationOp::Equal)],
        RelationNodesConfig::SameNode,
        MatchType::MatchClosest,
        0,
    )
}

fn send_receive_witness_relation() -> (r: Relation)
    ensures
        builtin_relation_is(r, "send-validate witness"@, "send-receive witness"@,
            seq![("height"@, AttributeRelationOp::Equal), ("shard_id"@, AttributeRelationOp::Equal)],
            RelationNodesConfig::AllNodes, MatchType::MatchAll, 0),
        name_selector(r.from_span_selector, "send_chunk_state_witness"@),
        name_selector(r.to_span_selector, "validate_chunk_state_witness"@),
{
    builtin_relation(
        "send-validate witness",
        "send-receive witness",
        SpanSelector::new_equal_name("send_chunk_state_witness"),
        SpanSelector::new_equal_name("validate_chunk_state_witness"),
        vec![same_attribute("height", AttributeRelationOp::Equal), same_attribute("shard_id", AttributeRelationOp::Equal)],
        RelationNodesConfig::AllNodes,
        MatchType::MatchAll,
        0,
    )
}

fn send_validate_chunk_endorsement() -> (r: Relation)
    ensures
        builtin_relation_is(r, "send-validate chunk endorsement"@, "send-validate chunk endorsement"@,
            seq![("height"@, AttributeRelationOp::Equal), ("shard_id"@, AttributeRelationOp::Equal), ("validator"@, AttributeRelationOp::Equal)],
            RelationNodesConfig::AllNodes, MatchType::MatchAll, 0),
        name_selector(r.from_span_selector, "send_chunk_endorsement"@),
        name_selector(r.to_span_selector, "validate_chunk_endorsement"@),
{
    builtin_relation(
        "send-validate chunk endorsement",
        "send-validate chunk endorsement",
        SpanSelector::new_equal_name("send_chunk_endorsement"),
        SpanSelector::new_equal_name("validate_chunk_endorsement"),
        vec![
            same_attribute("height", AttributeRelationOp::Equal),
            same_attribute("shard_id", AttributeRelationOp::Equal),
            same_attribute("validator", AttributeRelationOp::Equal),
        ],
        RelationNodesConfig::AllNodes,
        MatchType::MatchAll,
        0,
    )
}

/// The relation between preprocessing and postprocessing of a block, between sending and
/// validating a chunk state witness, and between sending and validating a chunk endorsement.
pub fn builtin_relations() -> (r: Vec<Relation>)
    ensures
        r@.len() == 3,
        builtin_relation_is(r@[0], "pre-post-process block"@, "pre-post-process block"@,
            seq![("height"@, AttributeRelationOp::Equal)], RelationNodesConfig::SameNode, MatchType::MatchClosest, 0),
        name_selector(r@[0].from_span_selector, "preprocess_block"@),
        name_selector(r@[0].to_span_selector, "postprocess_ready_block"@),
        builtin_relation_is(r@[1], "send-validate witness"@, "send-receive witness"@,
            seq![("height"@, AttributeRelationOp::Equal), ("shard_id"@, AttributeRelationOp::Equal)],
            RelationNodesConfig::AllNodes, MatchType::MatchAll, 0),
        name_selector(r@[1].from_span_selector, "send_chunk_state_witness"@),
        name_selector(r@[1].to_span_selector, "validate_chunk_state_witness"@),
        builtin_relation_is(r@[2], "send-validate chunk endorsement"@, "send-validate chunk endorsement"@,
            seq![("height"@, AttributeRelationOp::Equal), ("shard_id"@, AttributeRelationOp::Equal), ("validator"@, AttributeRelationOp::Equal)],
            RelationNodesConfig::AllNodes, MatchType::MatchAll, 0),
        name_selector(r@[2].from_span_selector, "send_chunk_endorsement"@),
        name_selector(r@[2].to_span_selector, "validate_chunk_endorsement"@),
{
    vec![pre_post_process_block_relation(), send_receive_witness_relation(), send_validate_chunk_endorsement()]
}

/// A built-in view with the given name and enabled relations.
fn builtin_view(name: &str, enabled_relations: Vec<RelationId>) -> (r: RelationView)
    ensures
        r.name@ == name@,
        r.enabled_relations == enabled_relations,
        r.is_builtin,
{
    RelationView { enabled_relations, name: owned(name), is_builtin: true }
}

/// The built-in views: none of the relations, each built-in relation alone, and all of them.
pub fn builtin_relation_views() -> (r: Vec<RelationView>)
    ensures
        r@.len() == 5,
        forall|i: int| 0 <= i < 5 ==> (#[trigger] r@[i]).is_builtin,
        r@[0].name@ == "No relations"@,
        r@[0].enabled_relations@.len() == 0,
        r@[1].name@ == "Pre-Post Process Block"@,
        r@[1].enabled_relations@.len() == 1,
        id_from_seed(r@[1].enabled_relations@[0], "pre-post-process block"@),
        r@[2].name@ == "Send-Receive Witness"@,
        r@[2].enabled_relations@.len() == 1,
        id_from_seed(r@[2].enabled_relations@[0], "send-validate witness"@),
        r@[3].name@ == "Send-Validate Chunk Endorsement"@,
        r@[3].enabled_relations@.len() == 1,
        id_from_seed(r@[3].enabled_relations@[0], "send-validate chunk endorsement"@),
        r@[4].name@ == "All builtin Relations"@,
        r@[4].enabled_relations@.len() == 3,
        id_from_seed(r@[4].enabled_relations@[0], "pre-post-process block"@),
        id_from_seed(r@[4].enabled_relations@[1], "send-validate witness"@),
        id_from_seed(r@[4].enabled_relations@[2], "send-validate chunk endorsement"@),
{
    let all = builtin_relations();
    let mut all_ids: Vec<RelationId> = Vec::new();
    for i in 0..all.len()
        invariant
            all_ids@.len() == i,
            forall|j: int| 0 <= j < i ==> all_ids@[j] == (#[trigger] all@[j]).id,
    {
        all_ids.push(all[i].id);
    }
    vec![
        builtin_view("No relations", Vec::new()),
        builtin_view("Pre-Post Process Block", vec![pre_post_process_block_relation().id]),
        builtin_view("Send-Receive Witness", vec![send_receive_witness_relation().id]),
        builtin_view("Send-Validate Chunk Endorsement", vec![send_validate_chunk_endorsement().id]),
        builtin_view("All builtin Relations", all_ids),
    ]
}

/// A link of the relation from `from` to `to` within the time window: `to` starts no earlier
/// than the minimal difference after `from` ends, and no later than the maximal one after
/// `from` starts.
pub open spec fn link_sound(rel: Relation, from: Span, to: Span) -> bool {
    &&& relation_holds(rel, from, to)
    &&& to.start_time >= from.end_time + rel.min_time_diff
    &&& (rel.max_time_diff matches Some(m) ==> to.start_time - from.start_time <= m)
}

/// The span an `Rc` points to.
spec fn pointee(r: Rc<Span>) -> Span {
    *r
}

proof fn lemma_index_of_found(all: Seq<Relation>, id: RelationId)
    ensures
        relation_index_of(all, id) matches Some(k) ==> 0 <= k < all.len() && all[k].id == id,
    decreases all.len(),
{
    if all.len() > 0 {
        lemma_index_of_found(all.drop_last(), id);
    }
}

proof fn lemma_first_from(spans: Seq<Rc<Span>>, t: int, j: int)
    requires
        starts_sorted(spans),
        0 <= j,
    ensures
        j <= spans.len() ==> j <= first_from(spans, t, j),
        forall|q: int| first_from(spans, t, j) <= q < spans.len() ==> #[trigger] spans[q].start_time >= t,
    decreases spans.len() - j,
{
    if j < spans.len() {
        if spans[j].start_time >= t {
            assert forall|q: int| first_from(spans, t, j) <= q < spans.len() implies #[trigger] spans[q].start_time >= t by {
                assert(spans[j].start_time <= spans[q].start_time);
            }
        } else {
            lemma_first_from(spans, t, j + 1);
        }
    }
}

proof fn lemma_linked_from(rel: Relation, from: Span, tos: Seq<Rc<Span>>, j: int)
    requires
        0 <= j,
    ensures
        rel.match_type == MatchType::MatchClosest ==> linked_from(rel, from, tos, j).len() <= 1,
        forall|i: int| 0 <= i < linked_from(rel, from, tos, j).len() ==> {
            &&& relation_holds(rel, from, *#[trigger] linked_from(rel, from, tos, j)[i])
            &&& (rel.max_time_diff matches Some(m) ==> linked_from(rel, from, tos, j)[i].start_time - from.start_time <= m)
            &&& exists|q: int| j <= q < tos.len() && tos[q] == linked_from(rel, from, tos, j)[i]
        },
    decreases tos.len() - j,
{
    if j < tos.len() {
        let r = linked_from(rel, from, tos, j);
        if rel.max_time_diff matches Some(m) && tos[j].start_time - from.start_time > m {
        } else if !relation_holds(rel, from, pointee(tos[j])) {
            lemma_linked_from(rel, from, tos, j + 1);
            assert forall|i: int| 0 <= i < r.len() implies
                exists|q: int| j <= q < tos.len() && tos[q] == #[trigger] r[i] by {
                let q = choose|q: int| j + 1 <= q < tos.len() && tos[q] == r[i];
            }
        } else if rel.match_type == MatchType::MatchClosest {
            assert forall|i: int| 0 <= i < r.len() implies
                exists|q: int| j <= q < tos.len() && tos[q] == #[trigger] r[i] by {
                assert(tos[j] == r[i]);
            }
        } else {
            let rest = linked_from(rel, from, tos, j + 1);
            lemma_linked_from(rel, from, tos, j + 1);
            assert(r == seq![tos[j]] + rest);
            assert forall|i: int| 0 <= i < r.len() implies {
                &&& relation_holds(rel, from, *#[trigger] r[i])
                &&& (rel.max_time_diff matches Some(m) ==> r[i].start_time - from.start_time <= m)
                &&& exists|q: int| j <= q < tos.len() && tos[q] == r[i]
            } by {
                if i == 0 {
                    assert(tos[j] == r[i]);
                } else {
                    assert(r[i] == rest[i - 1]);
                    let q = choose|q: int| j + 1 <= q < tos.len() && tos[q] == rest[i - 1];
                    assert(tos[q] == r[i]);
                }
            }
        }
    }
}

/// In spans ordered by start time, those before the first that starts at `t` or later start
/// before `t`.
proof fn lemma_before_first_from(spans: Seq<Rc<Span>>, t: int, j: int)
    requires
        0 <= j,
    ensures
        forall|q: int| j <= q < first_from(spans, t, j) && q < spans.len() ==> #[trigger] spans[q].start_time < t,
    decreases spans.len() - j,
{
    if j < spans.len() && spans[j].start_time < t {
        lemma_before_first_from(spans, t, j + 1);
    }
}

/// The relation holds from `from` to `to`, and `to` starts within the maximal time difference.
pub open spec fn holds_within(rel: Relation, from: Span, to: Span) -> bool {
    &&& relation_holds(rel, from, to)
    &&& (rel.max_time_diff matches Some(m) ==> to.start_time - from.start_time <= m)
}

proof fn lemma_linked_from_complete(rel: Relation, from: Span, tos: Seq<Rc<Span>>, j: int)
    requires
        starts_sorted(tos),
        0 <= j,
    ensures
        rel.match_type == MatchType::MatchAll ==> forall|q: int|
            j <= q < tos.len() && holds_within(rel, from, *#[trigger] tos[q])
                ==> linked_from(rel, from, tos, j).contains(tos[q]),
        rel.match_type == MatchType::MatchClosest ==> forall|q: int|
            j <= q < tos.len() && holds_within(rel, from, *#[trigger] tos[q])
                && (forall|i: int| j <= i < q ==> !holds_within(rel, from, *tos[i]))
                ==> linked_from(rel, from, tos, j) == seq![tos[q]],
    decreases tos.len() - j,
{
    if j < tos.len() {
        let r = linked_from(rel, from, tos, j);
        if rel.max_time_diff matches Some(m) && tos[j].start_time - from.start_time > m {
            assert forall|q: int| j <= q < tos.len() implies !holds_within(rel, from, *#[trigger] tos[q]) by {
                assert(tos[j].start_time <= tos[q].start_time);
            }
        } else if !relation_holds(rel, from, pointee(tos[j])) {
            lemma_linked_from_complete(rel, from, tos, j + 1);
            assert(!holds_within(rel, from, *tos[j]));
        } else {
            assert(holds_within(rel, from, *tos[j]));
            if rel.match_type == MatchType::MatchAll {
                lemma_linked_from_complete(rel, from, tos, j + 1);
                let rest = linked_from(rel, from, tos, j + 1);
                assert(r == seq![tos[j]] + rest);
                assert forall|q: int| j <= q < tos.len() && holds_within(rel, from, *#[trigger] tos[q])
                    implies r.contains(tos[q]) by {
                    if q == j {
                        assert(r[0] == tos[j]);
                    } else {
                        assert(rest.contains(tos[q]));
                        let w = choose|w: int| 0 <= w < rest.len() && rest[w] == tos[q];
                        assert(r[w + 1] == tos[q]);
                    }
                }
            }
        }
    }
}

/// Relations find every link they can make: with "match all", `from` is linked to every span of
/// `tos` (ordered by start time) for which the relation holds within its time window; with
/// "match closest", to the first such span alone, or to none where there is none.
pub proof fn lemma_links_of_complete(rel: Relation, from: Span, tos: Seq<Rc<Span>>)
    requires
        starts_sorted(tos),
    ensures
        rel.match_type == MatchType::MatchAll ==> forall|q: int|
            0 <= q < tos.len() && link_sound(rel, from, *#[trigger] tos[q])
                ==> links_of(rel, from, tos).contains(tos[q]),
        rel.match_type == MatchType::MatchClosest ==> forall|q: int|
            0 <= q < tos.len() && link_sound(rel, from, *#[trigger] tos[q])
                && (forall|i: int| 0 <= i < q ==> !link_sound(rel, from, *tos[i]))
                ==> links_of(rel, from, tos) == seq![tos[q]],
        rel.match_type == MatchType::MatchClosest
            && (forall|q: int| 0 <= q < tos.len() ==> !link_sound(rel, from, *#[trigger] tos[q]))
            ==> links_of(rel, from, tos).len() == 0,
{
    let t = from.end_time + rel.min_time_diff;
    lemma_first_from(tos, t, 0);
    lemma_before_first_from(tos, t, 0);
    let j0 = first_from(tos, t, 0);
    lemma_linked_from_complete(rel, from, tos, j0);
    lemma_links_of(rel, from, tos);
    assert forall|q: int| 0 <= q < tos.len() && link_sound(rel, from, *#[trigger] tos[q]) implies
        j0 <= q && holds_within(rel, from, *tos[q]) by {
        if q < j0 {
            assert(tos[q].start_time < t);
        }
    }
    if rel.match_type == MatchType::MatchClosest {
        assert forall|q: int|
            0 <= q < tos.len() && link_sound(rel, from, *#[trigger] tos[q])
                && (forall|i: int| 0 <= i < q ==> !link_sound(rel, from, *tos[i]))
            implies links_of(rel, from, tos) == seq![tos[q]] by {
            assert forall|i: int| j0 <= i < q implies !holds_within(rel, from, *tos[i]) by {
                assert(tos[i].start_time >= t);
                assert(!link_sound(rel, from, *tos[i]));
            }
        }
        let l = links_of(rel, from, tos);
        if l.len() > 0 {
            assert(link_sound(rel, from, *l[0]));
            assert(tos.contains(l[0]));
        }
    }
}

/// With "match all", a relation links every span of `froms` to every span of `tos` (ordered by
/// start time) for which it holds within its time window.
pub proof fn lemma_pairs_from_complete(rel: Relation, froms: Seq<Rc<Span>>, tos: Seq<Rc<Span>>)
    requires
        starts_sorted(tos),
        rel.match_type == MatchType::MatchAll,
    ensures
        forall|i: int, q: int|
            0 <= i < froms.len() && 0 <= q < tos.len() && link_sound(rel, *#[trigger] froms[i], *#[trigger] tos[q])
                ==> pairs_from(rel, froms, tos).contains((froms[i], tos[q])),
    decreases froms.len(),
{
    if froms.len() > 0 {
        let p = froms.drop_last();
        let f = froms.last();
        lemma_pairs_from_complete(rel, p, tos);
        lemma_links_of_complete(rel, pointee(f), tos);
        let a = pairs_from(rel, p, tos);
        let l = links_of(rel, pointee(f), tos);
        let b = l.map_values(|t: Rc<Span>| (f, t));
        let r = pairs_from(rel, froms, tos);
        assert(r == a + b);
        assert forall|i: int, q: int|
            0 <= i < froms.len() && 0 <= q < tos.len() && link_sound(rel, *#[trigger] froms[i], *#[trigger] tos[q])
            implies r.contains((froms[i], tos[q])) by {
            if i < p.len() {
                assert(froms[i] == p[i]);
                assert(a.contains((p[i], tos[q])));
                let w = choose|w: int| 0 <= w < a.len() && a[w] == (p[i], tos[q]);
                assert(r[w] == a[w]);
            } else {
                assert(froms[i] == f);
                assert(l.contains(tos[q]));
                let w = choose|w: int| 0 <= w < l.len() && l[w] == tos[q];
                assert(r[a.len() + w] == b[w]);
            }
        }
    }
}

/// Where only the closest span is linked, a span is linked to at most one span.
pub proof fn lemma_closest_links_once(rel: Relation, from: Span, tos: Seq<Rc<Span>>)
    requires
        rel.match_type == MatchType::MatchClosest,
    ensures
        links_of(rel, from, tos).len() <= 1,
{
    let j0 = first_from(tos, from.end_time + rel.min_time_diff, 0);
    if j0 >= 0 {
        lemma_linked_from(rel, from, tos, j0);
    }
}

proof fn lemma_links_of(rel: Relation, from: Span, tos: Seq<Rc<Span>>)
    requires
        starts_sorted(tos),
    ensures
        forall|i: int| 0 <= i < links_of(rel, from, tos).len() ==> {
            &&& link_sound(rel, from, *#[trigger] links_of(rel, from, tos)[i])
            &&& tos.contains(links_of(rel, from, tos)[i])
        },
{
    let t = from.end_time + rel.min_time_diff;
    lemma_first_from(tos, t, 0);
    let j0 = first_from(tos, t, 0);
    lemma_linked_from(rel, from, tos, j0);
    let r = links_of(rel, from, tos);
    assert forall|i: int| 0 <= i < r.len() implies {
        &&& link_sound(rel, from, *#[trigger] r[i])
        &&& tos.contains(r[i])
    } by {
        let q = choose|q: int| j0 <= q < tos.len() && tos[q] == r[i];
        assert(tos[q].start_time >= t);
    }
}

proof fn lemma_pairs_from(rel: Relation, froms: Seq<Rc<Span>>, tos: Seq<Rc<Span>>)
    requires
        starts_sorted(tos),
    ensures
        forall|m: int| 0 <= m < pairs_from(rel, froms, tos).len() ==> {
            &&& link_sound(rel, *(#[trigger] pairs_from(rel, froms, tos)[m]).0, *pairs_from(rel, froms, tos)[m].1)
            &&& froms.contains(pairs_from(rel, froms, tos)[m].0)
            &&& tos.contains(pairs_from(rel, froms, tos)[m].1)
        },
    decreases froms.len(),
{
    if froms.len() > 0 {
        let f = froms.last();
        let a = pairs_from(rel, froms.drop_last(), tos);
        let l = links_of(rel, pointee(f), tos);
        let b = l.map_values(|t: Rc<Span>| (f, t));
        lemma_pairs_from(rel, froms.drop_last(), tos);
        lemma_links_of(rel, pointee(f), tos);
        let r = pairs_from(rel, froms, tos);
        assert(r == a + b);
        assert forall|m: int| 0 <= m < r.len() implies {
            &&& link_sound(rel, *(#[trigger] r[m]).0, *r[m].1)
            &&& froms.contains(r[m].0)
            &&& tos.contains(r[m].1)
        } by {
            if m < a.len() {
                assert(r[m] == a[m]);
                let q = choose|q: int| 0 <= q < froms.drop_last().len() && froms.drop_last()[q] == a[m].0;
                assert(froms[q] == r[m].0);
            } else {
                assert(r[m] == b[m - a.len()]);
                assert(b[m - a.len()] == (f, l[m - a.len()]));
                assert(froms[froms.len() - 1] == f);
            }
        }
    }
}

proof fn lemma_selected_within(sel: SpanSelector, spans: Seq<Rc<Span>>)
    ensures
        forall|x: Rc<Span>| #[trigger] selected(sel, spans).contains(x) ==> spans.contains(x),
    decreases spans.len(),
{
    if spans.len() > 0 {
        lemma_selected_within(sel, spans.drop_last());
        assert forall|x: Rc<Span>| selected(sel, spans).contains(x) implies spans.contains(x) by {
            let r = selected(sel, spans);
            let p = selected(sel, spans.drop_last());
            let i = choose|i: int| 0 <= i < r.len() && r[i] == x;
            if i < p.len() {
                assert(p[i] == x);
                assert(p.contains(x));
                let q = choose|q: int| 0 <= q < spans.drop_last().len() && spans.drop_last()[q] == x;
                assert(spans[q] == x);
            } else {
                assert(spans[spans.len() - 1] == x);
            }
        }
    }
}

proof fn lemma_sorted_within(sel: SpanSelector, spans: Seq<Rc<Span>>)
    ensures
        starts_sorted(sort_by_start(selected(sel, spans))),
        forall|x: Rc<Span>| sort_by_start(selected(sel, spans)).contains(x) ==> spans.contains(x),
{
    broadcast use vstd::seq_lib::to_multiset_contains;
    lemma_sort_by_start_sorted(selected(sel, spans));
    lemma_selected_within(sel, spans);
    assert forall|x: Rc<Span>| sort_by_start(selected(sel, spans)).contains(x) implies spans.contains(x) by {
        assert(sort_by_start(selected(sel, spans)).to_multiset().count(x) > 0);
        assert(selected(sel, spans).contains(x));
    }
}

/// Every link that relations make among spans joins two of the spans, by an enabled relation
/// for which it holds, within that relation's time window.
pub proof fn lemma_relation_links_sound(all: Seq<Relation>, ids: Seq<RelationId>, spans: Seq<Rc<Span>>)
    ensures
        forall|m: int| 0 <= m < relation_links(all, ids, spans).len() ==> {
            let (f, t, k) = #[trigger] relation_links(all, ids, spans)[m];
            &&& 0 <= k < all.len()
            &&& ids.contains(all[k].id)
            &&& link_sound(all[k], *f, *t)
            &&& spans.contains(f)
            &&& spans.contains(t)
        },
    decreases ids.len(),
{
    if ids.len() > 0 {
        let a = relation_links(all, ids.drop_last(), spans);
        lemma_relation_links_sound(all, ids.drop_last(), spans);
        lemma_index_of_found(all, ids.last());
        let r = relation_links(all, ids, spans);
        match relation_index_of(all, ids.last()) {
            Some(k) => {
                let rel = all[k];
                let froms = sort_by_start(selected(rel.from_span_selector, spans));
                let tos = sort_by_start(selected(rel.to_span_selector, spans));
                lemma_sorted_within(rel.from_span_selector, spans);
                lemma_sorted_within(rel.to_span_selector, spans);
                lemma_pairs_from(rel, froms, tos);
                let ps = relation_pairs(rel, spans);
                let b = ps.map_values(|p: (Rc<Span>, Rc<Span>)| (p.0, p.1, k));
                assert(r == a + b);
                assert forall|m: int| 0 <= m < r.len() implies {
                    let (f, t, k2) = #[trigger] r[m];
                    &&& 0 <= k2 < all.len()
                    &&& ids.contains(all[k2].id)
                    &&& link_sound(all[k2], *f, *t)
                    &&& spans.contains(f)
                    &&& spans.contains(t)
                } by {
                    if m < a.len() {
                        assert(r[m] == a[m]);
                        let k2 = a[m].2;
                        let q = choose|q: int| 0 <= q < ids.drop_last().len() && ids.drop_last()[q] == all[k2].id;
                        assert(ids[q] == all[k2].id);
                    } else {
                        assert(r[m] == b[m - a.len()]);
                        assert(froms.contains(ps[m - a.len()].0));
                        assert(ids[ids.len() - 1] == all[k].id);
                    }
                }
            },
            None => {
                assert(r == a + Seq::<(Rc<Span>, Rc<Span>, int)>::empty());
                assert forall|m: int| 0 <= m < r.len() implies {
                    let (f, t, k2) = #[trigger] r[m];
                    &&& 0 <= k2 < all.len()
                    &&& ids.contains(all[k2].id)
                    &&& link_sound(all[k2], *f, *t)
                    &&& spans.contains(f)
                    &&& spans.contains(t)
                } by {
                    assert(r[m] == a[m]);
                    let k2 = a[m].2;
                    let q = choose|q: int| 0 <= q < ids.drop_last().len() && ids.drop_last()[q] == all[k2].id;
                    assert(ids[q] == all[k2].id);
                }
            },
        }
    }
}

} // verus!
