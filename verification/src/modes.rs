//! Display modes: how the raw trace data becomes the spans that are displayed.
//! A structured mode keeps, for each span hierarchy, the first spans that it shows and everything
//! below them, renames spans as its rules ask, and can merge spans into groups.

use vstd::prelude::*;
use std::rc::Rc;

use crate::analyze_utils::rc_clone;
use crate::span_tree::{
    hoist, kid_lists, latest_by_id, lemma_parents_valid, lemma_roots_apart, lemma_trees_match_append, parent_positions,
    parents, pos_view, root_positions, roots, shown_tops_list, span_forest, spans_by_id, trees_match,
};
use crate::structured_modes::{decision_for, SpanDecision, StructuredMode};
use crate::text::{copy_string, owned, push_str};
use crate::relation::{forest_spans, gather_forest};
use crate::types::{
    attr_get, copy_kv_list, copy_span, fields_copy_of, kv_list_same, span_copy_of, segments_of, time_point_to_utc_string, utc_text, clamped_nanos, attr_insert, get_attribute, insert_attribute, value_text, value_to_text, AttrValue, DisplayLength,
    Event, KeyValue, Node, Scope, Span, SpanDisplayConfig,
};

verus! {

broadcast use vstd::std_specs::vec::group_vec_axioms;

/// The instrumentation scope of a group of spans, as recorded.
pub struct ScopeData {
    pub name: String,
    pub version: String,
    pub attributes: Vec<KeyValue>,
}

/// An event of a span, as recorded.
pub struct EventData {
    pub name: String,
    pub time_unix_nano: u64,
    pub attributes: Vec<KeyValue>,
}

/// A span, as recorded.
pub struct SpanData {
    pub name: String,
    pub span_id: Vec<u8>,
    pub trace_id: Vec<u8>,
    pub parent_span_id: Vec<u8>,
    pub start_time_unix_nano: u64,
    pub end_time_unix_nano: u64,
    pub attributes: Vec<KeyValue>,
    pub events: Vec<EventData>,
}

/// The spans recorded under one instrumentation scope.
pub struct ScopeSpansData {
    pub scope: Option<ScopeData>,
    pub spans: Vec<SpanData>,
}

/// The spans recorded by one service (resource), with the service's attributes.
pub struct ResourceSpansData {
    pub resource: Option<Vec<KeyValue>>,
    pub scope_spans: Vec<ScopeSpansData>,
}

/// One export of trace data.
pub struct TraceRequest {
    pub resource_spans: Vec<ResourceSpansData>,
}

/// The attribute map that the pairs give when inserted in turn: a later pair with the same key
/// replaces an earlier one.
pub open spec fn attrs_from(list: Seq<KeyValue>) -> Seq<KeyValue>
    decreases list.len(),
{
    if list.len() == 0 {
        Seq::empty()
    } else {
        attr_insert(attrs_from(list.drop_last()), list.last().key@, list.last())
    }
}

/// The attribute map of a list of pairs.
pub fn attributes_from(list: Vec<KeyValue>) -> (r: Vec<KeyValue>)
    ensures
        r@ == attrs_from(list@),
{
    let ghost g = list@;
    let mut out: Vec<KeyValue> = Vec::new();
    for kv in iter: list.into_iter()
        invariant
            iter.seq() == g,
            out@ == attrs_from(g.take(iter.index() as int)),
    {
        proof {
            assert(g.take(iter.index() + 1).drop_last() =~= g.take(iter.index() as int));
        }
        let KeyValue { key, value } = kv;
        insert_attribute(&mut out, key, value);
    }
    assert(g.take(g.len() as int) =~= g);
    out
}

/// The name of a service: its "service.name" attribute when that is a string, else "unknown".
pub open spec fn service_name(attrs: Seq<KeyValue>) -> Seq<char> {
    match attr_get(attrs, "service.name"@) {
        Some(AttrValue::Str(s)) => s@,
        _ => "unknown"@,
    }
}

/// The node is the one the resource describes: named after its service, with its attributes; or,
/// without a resource, "no resource" with no attributes.
pub open spec fn node_of(node: Node, resource: Option<Vec<KeyValue>>) -> bool {
    match resource {
        Some(list) => node.name@ == service_name(attrs_from(list@)) && node.attributes@ == attrs_from(list@),
        None => node.name@ == "no resource"@ && node.attributes@.len() == 0,
    }
}

/// The node that recorded the spans of a resource.
pub fn node_from(resource: Option<Vec<KeyValue>>) -> (r: Rc<Node>)
    ensures
        node_of(*r, resource),
{
    match resource {
        Some(list) => {
            let attributes = attributes_from(list);
            let name = match get_attribute(&attributes, "service.name") {
                Some(AttrValue::Str(s)) => copy_string(s),
                _ => owned("unknown"),
            };
            Rc::new(Node { name, attributes })
        },
        None => Rc::new(Node { name: owned("no resource"), attributes: Vec::new() }),
    }
}

/// The scope is the one recorded, with its attributes as a map.
pub open spec fn scope_of(scope: Option<Rc<Scope>>, data: Option<ScopeData>) -> bool {
    match (scope, data) {
        (Some(s), Some(d)) => s.name == d.name && s.version == d.version && s.attributes@ == attrs_from(d.attributes@),
        (None, None) => true,
        _ => false,
    }
}

fn scope_from(data: Option<ScopeData>) -> (r: Option<Rc<Scope>>)
    ensures
        scope_of(r, data),
{
    match data {
        Some(d) => {
            let ScopeData { name, version, attributes } = d;
            Some(Rc::new(Scope { name, version, attributes: attributes_from(attributes) }))
        },
        None => None,
    }
}

/// The event is the one recorded, with its attributes as a map.
pub open spec fn event_of(e: Event, d: EventData) -> bool {
    e.name == d.name && e.time == d.time_unix_nano && e.attributes@ == attrs_from(d.attributes@)
}

fn events_from(list: Vec<EventData>) -> (r: Vec<Event>)
    ensures
        r@.len() == list@.len(),
        forall|k: int| 0 <= k < list@.len() ==> event_of(#[trigger] r@[k], list@[k]),
{
    let ghost g = list@;
    let mut out: Vec<Event> = Vec::new();
    for e in iter: list.into_iter()
        invariant
            iter.seq() == g,
            out@.len() == iter.index(),
            forall|k: int| 0 <= k < iter.index() ==> event_of(#[trigger] out@[k], g[k]),
    {
        let EventData { name, time_unix_nano, attributes } = e;
        out.push(Event { name, time: time_unix_nano, attributes: attributes_from(attributes) });
    }
    out
}

/// The span is the recorded one, on the given node and scope, with no children, shown by time,
/// its extent its own.
pub open spec fn record_of(s: Span, d: SpanData, node: Rc<Node>, scope: Option<Rc<Scope>>) -> bool {
    &&& s.name == d.name
    &&& s.original_name@ == d.name@
    &&& s.span_id == d.span_id
    &&& s.trace_id == d.trace_id
    &&& s.parent_span_id == d.parent_span_id
    &&& s.start_time == d.start_time_unix_nano
    &&& s.end_time == d.end_time_unix_nano
    &&& s.attributes@ == attrs_from(d.attributes@)
    &&& s.events@.len() == d.events@.len()
    &&& forall|k: int| 0 <= k < d.events@.len() ==> event_of(#[trigger] s.events@[k], d.events@[k])
    &&& s.node == node
    &&& s.scope == scope
    &&& s.children@.len() == 0
    &&& s.min_start_time == s.start_time
    &&& s.max_end_time == s.end_time
    &&& s.display_options.display_length == DisplayLength::Time
    &&& !s.collapse_children
    &&& !s.dont_collapse_this_span
    &&& s.parent_height_offset == 0
    &&& s.active_segments is None
}

fn span_from(d: SpanData, node: &Rc<Node>, scope: &Option<Rc<Scope>>) -> (r: Span)
    ensures
        record_of(r, d, *node, *scope),
{
    let SpanData { name, span_id, trace_id, parent_span_id, start_time_unix_nano, end_time_unix_nano, attributes, events } = d;
    let original_name = copy_string(&name);
    let scope_copy = match scope {
        Some(s) => Some(rc_clone(s)),
        None => None,
    };
    Span {
        name,
        original_name,
        span_id,
        trace_id,
        parent_span_id,
        start_time: start_time_unix_nano,
        end_time: end_time_unix_nano,
        attributes: attributes_from(attributes),
        events: events_from(events),
        node: rc_clone(node),
        scope: scope_copy,
        children: Vec::new(),
        min_start_time: start_time_unix_nano,
        max_end_time: end_time_unix_nano,
        display_options: SpanDisplayConfig { display_length: DisplayLength::Time },
        collapse_children: false,
        dont_collapse_this_span: false,
        parent_height_offset: 0,
        active_segments: None,
    }
}

/// A recorded span with the resource and scope it was recorded under.
pub type RecordedSpan = (SpanData, Option<Vec<KeyValue>>, Option<ScopeData>);

/// The spans of a sequence of items, item after item.
pub open spec fn concat_map<A, B>(s: Seq<A>, f: spec_fn(A) -> Seq<B>) -> Seq<B>
    decreases s.len(),
{
    if s.len() == 0 {
        Seq::empty()
    } else {
        concat_map(s.drop_last(), f) + f(s.last())
    }
}

/// The spans of a scope, each with the resource and scope.
pub open spec fn scope_spans_of(ss: ScopeSpansData, resource: Option<Vec<KeyValue>>) -> Seq<RecordedSpan> {
    ss.spans@.map_values(|d: SpanData| (d, resource, ss.scope))
}

/// The spans of a resource, scope after scope.
pub open spec fn resource_spans_of(rs: ResourceSpansData) -> Seq<RecordedSpan> {
    concat_map(rs.scope_spans@, |ss: ScopeSpansData| scope_spans_of(ss, rs.resource))
}

/// The spans of the requests, request after request, resource after resource, scope after scope.
pub open spec fn recorded_spans(requests: Seq<TraceRequest>) -> Seq<RecordedSpan> {
    concat_map(requests, |req: TraceRequest| concat_map(req.resource_spans@, |rs: ResourceSpansData| resource_spans_of(rs)))
}

/// The spans are the recorded ones, in order, each on a node of its resource and with its scope.
pub open spec fn records_of(spans: Seq<Span>, recorded: Seq<RecordedSpan>) -> bool {
    &&& spans.len() == recorded.len()
    &&& forall|k: int| 0 <= k < recorded.len() ==> {
        &&& record_of(#[trigger] spans[k], recorded[k].0, spans[k].node, spans[k].scope)
        &&& node_of(*spans[k].node, recorded[k].1)
        &&& scope_of(spans[k].scope, recorded[k].2)
    }
}

proof fn lemma_concat_map_step<A, B>(s: Seq<A>, f: spec_fn(A) -> Seq<B>, i: int)
    requires
        0 <= i < s.len(),
    ensures
        concat_map(s.take(i + 1), f) == concat_map(s.take(i), f) + f(s[i]),
{
    assert(s.take(i + 1).drop_last() =~= s.take(i));
}

fn push_scope_spans(out: &mut Vec<Span>, ss: ScopeSpansData, node: &Rc<Node>, Ghost(resource): Ghost<Option<Vec<KeyValue>>>)
    requires
        node_of(**node, resource),
    ensures
        records_of(final(out)@.skip(old(out)@.len() as int), scope_spans_of(ss, resource)),
        final(out)@.len() >= old(out)@.len(),
        final(out)@.take(old(out)@.len() as int) == old(out)@,
{
    let ghost start = out@;
    let ghost g = ss;
    let ScopeSpansData { scope, spans } = ss;
    let scope_rc = scope_from(scope);
    let ghost gs = spans@;
    for d in iter: spans.into_iter()
        invariant
            iter.seq() == gs,
            gs == g.spans@,
            node_of(**node, resource),
            scope_of(scope_rc, g.scope),
            out@.len() == start.len() + iter.index(),
            out@.take(start.len() as int) == start,
            records_of(out@.skip(start.len() as int), scope_spans_of(g, resource).take(iter.index() as int)),
    {
        let ghost before = out@;
        let ghost dd = d;
        let s = span_from(d, node, &scope_rc);
        out.push(s);
        proof {
            assert(out@.take(start.len() as int) =~= before.take(start.len() as int));
            assert(out@.skip(start.len() as int) =~= before.skip(start.len() as int).push(s));
            assert(scope_spans_of(g, resource).take(iter.index() + 1)
                =~= scope_spans_of(g, resource).take(iter.index() as int).push((dd, resource, g.scope)));
        }
    }
    proof {
        assert(scope_spans_of(g, resource).take(gs.len() as int) =~= scope_spans_of(g, resource));
    }
}

proof fn lemma_records_append(a: Seq<Span>, ra: Seq<RecordedSpan>, b: Seq<Span>, rb: Seq<RecordedSpan>)
    requires
        records_of(a, ra),
        records_of(b, rb),
    ensures
        records_of(a + b, ra + rb),
{
    assert forall|k: int| 0 <= k < (ra + rb).len() implies {
        &&& record_of(#[trigger] (a + b)[k], (ra + rb)[k].0, (a + b)[k].node, (a + b)[k].scope)
        &&& node_of(*(a + b)[k].node, (ra + rb)[k].1)
        &&& scope_of((a + b)[k].scope, (ra + rb)[k].2)
    } by {
        if k < ra.len() {
            assert((a + b)[k] == a[k]);
            assert((ra + rb)[k] == ra[k]);
        } else {
            assert((a + b)[k] == b[k - a.len()]);
            assert((ra + rb)[k] == rb[k - ra.len()]);
        }
    }
}

fn push_resource_spans(out: &mut Vec<Span>, rs: ResourceSpansData)
    ensures
        records_of(final(out)@.skip(old(out)@.len() as int), resource_spans_of(rs)),
        final(out)@.len() >= old(out)@.len(),
        final(out)@.take(old(out)@.len() as int) == old(out)@,
{
    let ghost start = out@;
    let ghost g = rs;
    let ResourceSpansData { resource, scope_spans } = rs;
    let ghost res = resource;
    let node = node_from(resource);
    let ghost gs = scope_spans@;
    for ss in iter: scope_spans.into_iter()
        invariant
            iter.seq() == gs,
            gs == g.scope_spans@,
            res == g.resource,
            node_of(*node, res),
            out@.len() >= start.len(),
            out@.take(start.len() as int) == start,
            records_of(out@.skip(start.len() as int),
                concat_map(gs.take(iter.index() as int), |x: ScopeSpansData| scope_spans_of(x, g.resource))),
    {
        let ghost before = out@;
        let ghost ssv = ss;
        proof {
            lemma_concat_map_step(gs, |x: ScopeSpansData| scope_spans_of(x, g.resource), iter.index() as int);
        }
        push_scope_spans(out, ss, &node, Ghost(res));
        proof {
            let mid = before.len() as int;
            assert(out@.take(mid) == before);
            assert forall|k: int| 0 <= k < mid implies out@[k] == before[k] by {
                assert(out@.take(mid)[k] == out@[k]);
            }
            assert(out@.take(start.len() as int) =~= before.take(start.len() as int));
            assert(out@.skip(start.len() as int) =~= before.skip(start.len() as int) + out@.skip(mid));
            lemma_records_append(before.skip(start.len() as int),
                concat_map(gs.take(iter.index() as int), |x: ScopeSpansData| scope_spans_of(x, g.resource)),
                out@.skip(mid), scope_spans_of(ssv, res));
        }
    }
    proof {
        assert(gs.take(gs.len() as int) =~= gs);
    }
}

/// The spans recorded in the requests, in order.
pub fn recorded_records(requests: Vec<TraceRequest>) -> (r: Vec<Span>)
    ensures
        records_of(r@, recorded_spans(requests@)),
{
    let ghost g = requests@;
    let mut out: Vec<Span> = Vec::new();
    for req in iter: requests.into_iter()
        invariant
            iter.seq() == g,
            records_of(out@, concat_map(g.take(iter.index() as int),
                |q: TraceRequest| concat_map(q.resource_spans@, |rs: ResourceSpansData| resource_spans_of(rs)))),
    {
        let ghost rq = req;
        proof {
            lemma_concat_map_step(g, |q: TraceRequest| concat_map(q.resource_spans@, |rs: ResourceSpansData| resource_spans_of(rs)), iter.index() as int);
        }
        let ghost before_req = out@;
        let TraceRequest { resource_spans } = req;
        let ghost gr = resource_spans@;
        for rs in iter2: resource_spans.into_iter()
            invariant
                iter2.seq() == gr,
                gr == rq.resource_spans@,
                out@.len() >= before_req.len(),
                out@.take(before_req.len() as int) == before_req,
                records_of(out@.skip(before_req.len() as int),
                    concat_map(gr.take(iter2.index() as int), |x: ResourceSpansData| resource_spans_of(x))),
        {
            let ghost before = out@;
            let ghost rsv = rs;
            proof {
                lemma_concat_map_step(gr, |x: ResourceSpansData| resource_spans_of(x), iter2.index() as int);
            }
            push_resource_spans(&mut out, rs);
            proof {
                let mid = before.len() as int;
                assert forall|k: int| 0 <= k < mid implies out@[k] == before[k] by {
                    assert(out@.take(mid)[k] == out@[k]);
                }
                assert(out@.take(before_req.len() as int) =~= before.take(before_req.len() as int));
                assert(out@.skip(before_req.len() as int) =~= before.skip(before_req.len() as int) + out@.skip(mid));
                lemma_records_append(before.skip(before_req.len() as int),
                    concat_map(gr.take(iter2.index() as int), |x: ResourceSpansData| resource_spans_of(x)),
                    out@.skip(mid), resource_spans_of(rsv));
            }
        }
        proof {
            assert(gr.take(gr.len() as int) =~= gr);
            assert(out@ =~= before_req + out@.skip(before_req.len() as int));
            lemma_records_append(before_req,
                concat_map(g.take(iter.index() as int), |q: TraceRequest| concat_map(q.resource_spans@, |rs: ResourceSpansData| resource_spans_of(rs))),
                out@.skip(before_req.len() as int),
                concat_map(gr, |x: ResourceSpansData| resource_spans_of(x)));
        }
    }
    proof {
        assert(g.take(g.len() as int) =~= g);
    }
    out
}

/// The span trees of the trace data: the recorded spans, one per span id (the last one recorded
/// under it), in order of id, each under the span whose id is its parent id.
pub fn extract_spans(requests: Vec<TraceRequest>) -> (r: Vec<Rc<Span>>)
    ensures
        exists|records: Seq<Span>| {
            &&& records_of(records, recorded_spans(requests@))
            &&& trees_match(parents(latest_by_id(records)), latest_by_id(records), r@, roots(parents(latest_by_id(records))))
        },
{
    let records = recorded_records(requests);
    let ghost rv = records@;
    let r = span_forest(records);
    assert(records_of(rv, recorded_spans(requests@)));
    r
}

/// The label and the text of the attribute's value, when the attribute is there.
pub open spec fn labelled_value(attrs: Seq<KeyValue>, key: Seq<char>, label: Seq<char>) -> Seq<char> {
    match attr_get(attrs, key) {
        Some(v) => label + value_text(v),
        None => Seq::empty(),
    }
}

/// What adding the height to a name appends: " H=" and the height, " H=" and the block height,
/// " HC=" and the creation height, " NH=" and the next height, each when it is there.
pub open spec fn height_suffix(attrs: Seq<KeyValue>) -> Seq<char> {
    labelled_value(attrs, "height"@, " H="@) + labelled_value(attrs, "block_height"@, " H="@)
        + labelled_value(attrs, "height_created"@, " HC="@) + labelled_value(attrs, "next_height"@, " NH="@)
}

/// What adding the shard id to a name appends.
pub open spec fn shard_id_suffix(attrs: Seq<KeyValue>) -> Seq<char> {
    labelled_value(attrs, "shard_id"@, " s="@)
}

/// What adding the part ordinal to a name appends.
pub open spec fn part_ord_suffix(attrs: Seq<KeyValue>) -> Seq<char> {
    labelled_value(attrs, "part_ord"@, " p="@)
}

fn append_labelled_value(name: &mut String, attrs: &Vec<KeyValue>, key: &str, label: &str)
    ensures
        final(name)@ == old(name)@ + labelled_value(attrs@, key@, label@),
{
    match get_attribute(attrs, key) {
        Some(v) => {
            push_str(name, label);
            let t = value_to_text(v);
            push_str(name, t.as_str());
        },
        None => {},
    }
}

/// Appends the heights found among the span's attributes to its name.
pub fn add_height_to_name(s: &mut Span)
    ensures
        final(s).name@ == old(s).name@ + height_suffix(old(s).attributes@),
        *final(s) == (Span { name: final(s).name, ..*old(s) }),
{
    let mut name = String::new();
    std::mem::swap(&mut name, &mut s.name);
    append_labelled_value(&mut name, &s.attributes, "height", " H=");
    append_labelled_value(&mut name, &s.attributes, "block_height", " H=");
    append_labelled_value(&mut name, &s.attributes, "height_created", " HC=");
    append_labelled_value(&mut name, &s.attributes, "next_height", " NH=");
    s.name = name;
}

/// Appends the span's shard id to its name, when it has one.
pub fn add_shard_id_to_name(s: &mut Span)
    ensures
        final(s).name@ == old(s).name@ + shard_id_suffix(old(s).attributes@),
        *final(s) == (Span { name: final(s).name, ..*old(s) }),
{
    let mut name = String::new();
    std::mem::swap(&mut name, &mut s.name);
    append_labelled_value(&mut name, &s.attributes, "shard_id", " s=");
    s.name = name;
}

/// Appends the span's part ordinal to its name, when it has one.
pub fn add_part_ord_to_name(s: &mut Span)
    ensures
        final(s).name@ == old(s).name@ + part_ord_suffix(old(s).attributes@),
        *final(s) == (Span { name: final(s).name, ..*old(s) }),
{
    let mut name = String::new();
    std::mem::swap(&mut name, &mut s.name);
    append_labelled_value(&mut name, &s.attributes, "part_ord", " p=");
    s.name = name;
}

/// The decision changes the span's name.
pub open spec fn renames(d: SpanDecision) -> bool {
    d.replace_name@.len() > 0 || d.add_height_to_name || d.add_shard_id_to_name
}

/// The attributes after recording the span's name under "original.span.name", when the
/// decision changes the name.
pub open spec fn attributes_after(new_attrs: Seq<KeyValue>, old: Span, d: SpanDecision) -> bool {
    if renames(d) {
        exists|kv: KeyValue| {
            &&& kv.key@ == "original.span.name"@
            &&& #[trigger] kv.value matches AttrValue::Str(t) && t@ == old.name@
            &&& new_attrs == attr_insert(old.attributes@, kv.key@, kv)
        }
    } else {
        new_attrs == old.attributes@
    }
}

/// The span as the decision displays it: marked to be shown with its children collapsed when
/// visible; its name replaced, then the heights, the shard id and the part ordinal appended as
/// asked (the part ordinal always); displayed by the decision's length; marked for grouping
/// when asked.
pub open spec fn decided(new: Span, old: Span, d: SpanDecision) -> bool {
    let base = if d.replace_name@.len() > 0 { d.replace_name@ } else { old.name@ };
    let a = new.attributes@;
    &&& attributes_after(a, old, d)
    &&& new.name@ == base + (if d.add_height_to_name { height_suffix(a) } else { Seq::empty() })
        + (if d.add_shard_id_to_name { shard_id_suffix(a) } else { Seq::empty() }) + part_ord_suffix(a)
    &&& new.original_name == old.original_name
    &&& new.span_id == old.span_id
    &&& new.trace_id == old.trace_id
    &&& new.parent_span_id == old.parent_span_id
    &&& new.start_time == old.start_time
    &&& new.end_time == old.end_time
    &&& new.events == old.events
    &&& new.node == old.node
    &&& new.scope == old.scope
    &&& new.children == old.children
    &&& new.min_start_time == old.min_start_time
    &&& new.max_end_time == old.max_end_time
    &&& new.display_options.display_length == d.display_length
    &&& new.collapse_children == (d.visible || old.collapse_children)
    &&& new.dont_collapse_this_span == (d.visible || old.dont_collapse_this_span)
    &&& new.parent_height_offset == old.parent_height_offset
    &&& segments_view(new.active_segments) == (if d.group {
        Some(Seq::<(u64, u64)>::empty())
    } else {
        segments_view(old.active_segments)
    })
}

/// The merged intervals of a span, if it has them.
pub open spec fn segments_view(o: Option<Vec<(u64, u64)>>) -> Option<Seq<(u64, u64)>> {
    match o {
        Some(v) => Some(v@),
        None => None,
    }
}

/// The span as the decision displays it.
pub fn apply_decision(s: Span, d: &SpanDecision) -> (r: Span)
    ensures
        decided(r, s, *d),
{
    let ghost old_s = s;
    let mut m = s;
    if d.visible {
        m.dont_collapse_this_span = true;
        m.collapse_children = true;
    }
    let will_change_name = !d.replace_name.as_str().is_empty() || d.add_height_to_name || d.add_shard_id_to_name;
    if will_change_name {
        let kv_value = AttrValue::Str(copy_string(&m.name));
        let key = owned("original.span.name");
        let ghost kv = KeyValue { key: key, value: kv_value };
        insert_attribute(&mut m.attributes, key, kv_value);
        assert(kv.value matches AttrValue::Str(t) && t@ == old_s.name@);
    }
    let ghost a = m.attributes@;
    if !d.replace_name.as_str().is_empty() {
        m.name = copy_string(&d.replace_name);
    }
    if d.add_height_to_name {
        add_height_to_name(&mut m);
    }
    let ghost after_height = m.name@;
    if d.add_shard_id_to_name {
        add_shard_id_to_name(&mut m);
    }
    add_part_ord_to_name(&mut m);
    m.display_options.display_length = d.display_length;
    if d.group {
        m.active_segments = Some(Vec::new());
    }
    proof {
        assert(m.attributes@ == a);
    }
    m
}

/// The visibility of each decision.
pub open spec fn visibility(ds: Seq<SpanDecision>) -> Seq<bool> {
    ds.map_values(|d: SpanDecision| d.visible)
}

/// The trees a mode shows of the spans `u`, before grouping: for each span hierarchy, in turn,
/// the first spans it shows at each branch, with everything below them, each span as its decision
/// displays it.
pub open spec fn mode_trees(rules: Seq<crate::structured_modes::SpanRule>, u: Seq<Span>, ds: Seq<SpanDecision>, m: Seq<Span>, r: Seq<Rc<Span>>) -> bool {
    &&& ds.len() == u.len()
    &&& m.len() == u.len()
    &&& forall|i: int| 0 <= i < u.len() ==> decision_for(rules, u[i], #[trigger] ds[i]) && decided(m[i], u[i], ds[i])
    &&& trees_match(parents(u), m, r, shown_tops_list(parents(u), visibility(ds), roots(parents(u)), u.len()))
}

/// The trees that the mode shows of the spans, one per id, before any grouping.
pub fn mode_forest(unique: Vec<Span>, mode: &StructuredMode) -> (r: Vec<Rc<Span>>)
    requires
        crate::span_tree::ids_sorted(unique@),
    ensures
        exists|ds: Seq<SpanDecision>, m: Seq<Span>| mode_trees(mode.span_rules@, unique@, ds, m, r@),
{
    let ghost u = unique@;
    let ghost n = u.len() as int;
    let par_exec = parent_positions(&unique);
    let ghost par = parents(u);
    proof {
        lemma_parents_valid(u);
        assert(par_exec@.map_values(|o: Option<usize>| pos_view(o)) =~= par);
        lemma_roots_apart(par);
    }
    let kids_of = kid_lists(&par_exec);
    let tops = root_positions(&par_exec);
    let mut vis: Vec<bool> = Vec::new();
    let mut pool: Vec<Option<Span>> = Vec::new();
    let ghost mut ds: Seq<SpanDecision> = Seq::empty();
    let ghost mut ms: Seq<Span> = Seq::empty();
    for x in iter: unique.into_iter()
        invariant
            iter.seq() == u,
            vis@.len() == iter.index(),
            pool@.len() == iter.index(),
            ds.len() == iter.index(),
            ms.len() == iter.index(),
            forall|i: int| 0 <= i < iter.index() ==> decision_for(mode.span_rules@, u[i], #[trigger] ds[i])
                && decided(ms[i], u[i], ds[i]),
            forall|i: int| 0 <= i < iter.index() ==> #[trigger] vis@[i] == ds[i].visible,
            forall|i: int| 0 <= i < iter.index() ==> #[trigger] pool@[i] == Some(ms[i]),
    {
        let d = mode.get_decision_for_span(&x);
        let ghost xv = x;
        vis.push(d.visible);
        let mx = apply_decision(x, &d);
        proof {
            ds = ds.push(d);
            ms = ms.push(mx);
        }
        pool.push(Some(mx));
    }
    assert(vis@ =~= visibility(ds));
    let mut out: Vec<Rc<Span>> = Vec::new();
    let ghost tv = tops@.map_values(|x: usize| x as int);
    for t in 0..tops.len()
        invariant
            n == u.len(),
            par == parents(u),
            crate::span_tree::parents_valid(par),
            par.len() == n,
            kids_of@.len() == n,
            forall|q: int| 0 <= q < n ==> (#[trigger] kids_of@[q])@.map_values(|x: usize| x as int) == crate::span_tree::kids(par, q),
            vis@ == visibility(ds),
            vis@.len() == n,
            ms.len() == n,
            tv == tops@.map_values(|x: usize| x as int),
            tv == roots(par),
            crate::span_tree::tops_apart(par, tv),
            forall|m: int| 0 <= m < tv.len() ==> crate::span_tree::rooted_at(par, #[trigger] tv[m], 0),
            forall|m: int| 0 <= m < tops@.len() ==> #[trigger] tops@[m] < n,
            pool@.len() == n,
            forall|j: int| 0 <= j < n && !crate::span_tree::below_tops(par, tv, j, t as int) ==> #[trigger] pool@[j] == Some(ms[j]),
            trees_match(par, ms, out@, shown_tops_list(par, vis@, tv.take(t as int), n as nat)),
    {
        let top = tops[t];
        assert(tv[t as int] == top as int);
        proof {
            assert forall|j: int| 0 <= j < n && #[trigger] crate::span_tree::in_subtree(par, j, top as int) implies pool@[j] == Some(ms[j]) by {
                assert forall|m2: int| 0 <= m2 < t implies !#[trigger] crate::span_tree::in_subtree(par, j, tv[m2]) by {
                    assert(crate::span_tree::in_subtree(par, j, tv[t as int]));
                }
            }
        }
        let ghost before = out@;
        let ghost pool_before = pool@;
        hoist(top, &mut pool, &kids_of, &vis, &mut out, Ghost(par), Ghost(ms), Ghost(0));
        proof {
            assert(out@ =~= before + out@.skip(before.len() as int)) by {
                assert forall|q: int| 0 <= q < before.len() implies out@[q] == before[q] by {
                    assert(out@.take(before.len() as int)[q] == out@[q]);
                }
            }
            assert(tv.take(t + 1).drop_last() =~= tv.take(t as int));
            lemma_trees_match_append(par, ms, before, shown_tops_list(par, vis@, tv.take(t as int), n as nat),
                out@.skip(before.len() as int), crate::span_tree::shown_tops(par, vis@, top as int, n as nat));
            assert forall|j: int| 0 <= j < n && !crate::span_tree::below_tops(par, tv, j, t + 1) implies #[trigger] pool@[j] == Some(ms[j]) by {
                assert(!crate::span_tree::in_subtree(par, j, tv[t as int]));
                if crate::span_tree::below_tops(par, tv, j, t as int) {
                    let m2 = choose|m2: int| 0 <= m2 < t && #[trigger] crate::span_tree::in_subtree(par, j, tv[m2]);
                    assert(crate::span_tree::below_tops(par, tv, j, t + 1));
                }
            }
        }
    }
    assert(tv.take(tv.len() as int) =~= tv);
    assert(mode_trees(mode.span_rules@, u, ds, ms, out@));
    out
}

/// The span is marked to be merged into a group.
pub open spec fn groupable(s: Span) -> bool {
    segments_of(s.active_segments) == Some(Seq::<(u64, u64)>::empty())
}

/// The text of a span's height, "empty" when it has none.
pub open spec fn height_text(s: Span) -> Seq<char> {
    match attr_get(s.attributes@, "height"@) {
        Some(v) => value_text(v),
        None => "empty"@,
    }
}

/// The name a span had before a mode renamed it.
pub open spec fn base_name(s: Span) -> Seq<char> {
    match attr_get(s.attributes@, "original.span.name"@) {
        Some(AttrValue::Str(t)) => t@,
        _ => s.name@,
    }
}

/// The grouping key of the `i`-th span.
pub open spec fn key_at(g: Seq<Rc<Span>>, i: int) -> (Seq<char>, Seq<char>, Seq<char>) {
    group_key(*g[i])
}

/// Spans are grouped by node, height and name before renaming.
pub open spec fn group_key(s: Span) -> (Seq<char>, Seq<char>, Seq<char>) {
    (s.node.name@, height_text(s), base_name(s))
}

/// The spans marked to be merged, in order.
pub open spec fn groupables(spans: Seq<Rc<Span>>) -> Seq<Rc<Span>>
    decreases spans.len(),
{
    if spans.len() == 0 {
        Seq::empty()
    } else if groupable(*spans.last()) {
        groupables(spans.drop_last()).push(spans.last())
    } else {
        groupables(spans.drop_last())
    }
}

/// The spans that are not marked to be merged, in order.
pub open spec fn non_groupables(spans: Seq<Rc<Span>>) -> Seq<Rc<Span>>
    decreases spans.len(),
{
    if spans.len() == 0 {
        Seq::empty()
    } else if groupable(*spans.last()) {
        non_groupables(spans.drop_last())
    } else {
        non_groupables(spans.drop_last()).push(spans.last())
    }
}

/// Some span among the first `n` has the key.
pub open spec fn key_seen(gs: Seq<Rc<Span>>, k: (Seq<char>, Seq<char>, Seq<char>), n: int) -> bool {
    exists|j: int| 0 <= j < n && group_key(*#[trigger] gs[j]) == k
}

/// The positions, among the first `n`, of the spans whose key no earlier span has.
pub open spec fn first_positions(gs: Seq<Rc<Span>>, n: int) -> Seq<int>
    decreases n,
{
    if n <= 0 {
        Seq::empty()
    } else if key_seen(gs, group_key(*gs[n - 1]), n - 1) {
        first_positions(gs, n - 1)
    } else {
        first_positions(gs, n - 1).push(n - 1)
    }
}

/// The spans, among the first `n`, with the key, in order.
pub open spec fn members_below(gs: Seq<Rc<Span>>, k: (Seq<char>, Seq<char>, Seq<char>), n: int) -> Seq<Rc<Span>>
    decreases n,
{
    if n <= 0 {
        Seq::empty()
    } else if group_key(*gs[n - 1]) == k {
        members_below(gs, k, n - 1).push(gs[n - 1])
    } else {
        members_below(gs, k, n - 1)
    }
}

/// Milliseconds, to three decimals, of a count of nanoseconds (rounded to the microsecond).
pub open spec fn ms_text(ns: nat) -> Seq<char> {
    let us = (ns + 500) / 1000;
    crate::text::nat_text(us / 1000) + "."@ + three_digits(us % 1000)
}

/// A number below a thousand with three digits.
pub open spec fn three_digits(x: nat) -> Seq<char> {
    seq![crate::text::digit_char((x / 100) as int), crate::text::digit_char(((x / 10) % 10) as int),
        crate::text::digit_char((x % 10) as int)]
}

/// The line that describes a merged span: its name, duration and times.
pub open spec fn member_line(s: Span) -> Seq<char> {
    let d = s.end_time - s.start_time;
    s.name@ + ": "@ + (if d < 0 { "-"@ + ms_text((-d) as nat) } else { ms_text(d as nat) }) + "ms ["@
        + utc_text(clamped_nanos(s.start_time)) + " - "@ + utc_text(clamped_nanos(s.end_time)) + "]"@
}

/// The lines of the merged spans, joined by line breaks.
pub open spec fn members_info(ms: Seq<Rc<Span>>) -> Seq<char>
    decreases ms.len(),
{
    if ms.len() == 0 {
        Seq::empty()
    } else if ms.len() == 1 {
        member_line(*ms[0])
    } else {
        members_info(ms.drop_last()) + "\n"@ + member_line(*ms.last())
    }
}

/// Earliest start of the spans.
pub open spec fn min_start(ms: Seq<Rc<Span>>) -> u64
    decreases ms.len(),
{
    if ms.len() <= 1 {
        ms[0].start_time
    } else if ms.last().start_time < min_start(ms.drop_last()) {
        ms.last().start_time
    } else {
        min_start(ms.drop_last())
    }
}

/// Latest end of the spans.
pub open spec fn max_end(ms: Seq<Rc<Span>>) -> u64
    decreases ms.len(),
{
    if ms.len() <= 1 {
        ms[0].end_time
    } else if ms.last().end_time > max_end(ms.drop_last()) {
        ms.last().end_time
    } else {
        max_end(ms.drop_last())
    }
}

/// The earliest start of spans is no later than the start of each and is the start of one of
/// them; the latest end is no earlier than the end of each and is the end of one of them.
pub proof fn lemma_span_extent(ms: Seq<Rc<Span>>)
    requires
        ms.len() > 0,
    ensures
        forall|i: int| 0 <= i < ms.len() ==> min_start(ms) <= ms[i].start_time && ms[i].end_time <= max_end(ms),
        exists|i: int| 0 <= i < ms.len() && min_start(ms) == ms[i].start_time,
        exists|i: int| 0 <= i < ms.len() && max_end(ms) == ms[i].end_time,
    decreases ms.len(),
{
    if ms.len() > 1 {
        let p = ms.drop_last();
        lemma_span_extent(p);
        assert forall|i: int| 0 <= i < p.len() implies ms[i] == p[i] by {}
        let a = choose|i: int| 0 <= i < p.len() && min_start(p) == p[i].start_time;
        let b = choose|i: int| 0 <= i < p.len() && max_end(p) == p[i].end_time;
        assert(ms[a] == p[a]);
        assert(ms[b] == p[b]);
        assert(ms[ms.len() - 1] == ms.last());
    } else {
        assert(ms[0].start_time == min_start(ms));
        assert(ms[0].end_time == max_end(ms));
    }
}

/// Number of intervals that start no later than `t`.
pub open spec fn starting_by(iv: Seq<(u64, u64)>, t: u64) -> nat
    decreases iv.len(),
{
    if iv.len() == 0 {
        0
    } else {
        starting_by(iv.drop_last(), t) + if iv.last().0 <= t { 1nat } else { 0nat }
    }
}

/// The intervals ordered by start; intervals that start together keep their order.
pub open spec fn sort_intervals(iv: Seq<(u64, u64)>) -> Seq<(u64, u64)>
    decreases iv.len(),
{
    if iv.len() == 0 {
        iv
    } else {
        let sorted = sort_intervals(iv.drop_last());
        sorted.insert(starting_by(sorted, iv.last().0) as int, iv.last())
    }
}

/// Intervals merged in turn: one that starts no later than the end of the last merged one
/// extends it, any other is added.
pub open spec fn merge_intervals(iv: Seq<(u64, u64)>) -> Seq<(u64, u64)>
    decreases iv.len(),
{
    if iv.len() == 0 {
        Seq::empty()
    } else {
        let acc = merge_intervals(iv.drop_last());
        let x = iv.last();
        if acc.len() > 0 && x.0 <= acc.last().1 {
            acc.update(acc.len() - 1, (acc.last().0, if acc.last().1 >= x.1 { acc.last().1 } else { x.1 }))
        } else {
            acc.push(x)
        }
    }
}

/// The intervals are in order of start.
pub open spec fn intervals_sorted(iv: Seq<(u64, u64)>) -> bool {
    forall|i: int, j: int| 0 <= i <= j < iv.len() ==> (#[trigger] iv[i]).0 <= (#[trigger] iv[j]).0
}

/// Each interval ends no earlier than it starts.
pub open spec fn intervals_valid(iv: Seq<(u64, u64)>) -> bool {
    forall|i: int| 0 <= i < iv.len() ==> (#[trigger] iv[i]).0 <= iv[i].1
}

/// Each interval ends before the next one starts.
pub open spec fn intervals_separated(iv: Seq<(u64, u64)>) -> bool {
    forall|k: int| 0 <= k < iv.len() - 1 ==> (#[trigger] iv[k]).1 < iv[k + 1].0
}

/// The interval lies within one of the intervals.
pub open spec fn within_one(x: (u64, u64), iv: Seq<(u64, u64)>) -> bool {
    exists|k: int| 0 <= k < iv.len() && (#[trigger] iv[k]).0 <= x.0 && x.1 <= iv[k].1
}

proof fn lemma_starting_by_split(s: Seq<(u64, u64)>, t: u64)
    requires
        intervals_sorted(s),
    ensures
        starting_by(s, t) <= s.len(),
        forall|i: int| 0 <= i < starting_by(s, t) ==> (#[trigger] s[i]).0 <= t,
        forall|i: int| starting_by(s, t) <= i < s.len() ==> (#[trigger] s[i]).0 > t,
    decreases s.len(),
{
    if s.len() > 0 {
        let p = s.drop_last();
        assert(intervals_sorted(p)) by {
            assert forall|i: int, j: int| 0 <= i <= j < p.len() implies (#[trigger] p[i]).0 <= (#[trigger] p[j]).0 by {
                assert(s[i].0 <= s[j].0);
            }
        }
        lemma_starting_by_split(p, t);
        let c = starting_by(p, t);
        if s.last().0 <= t {
            if c < p.len() {
                assert(s[c as int].0 <= s[s.len() - 1].0);
                assert(p[c as int].0 > t);
            }
            assert forall|i: int| 0 <= i < starting_by(s, t) implies (#[trigger] s[i]).0 <= t by {
                if i < p.len() {
                    assert(p[i].0 <= t);
                }
            }
        } else {
            assert forall|i: int| starting_by(s, t) <= i < s.len() implies (#[trigger] s[i]).0 > t by {
                if i < p.len() {
                    assert(p[i].0 > t);
                }
            }
            assert forall|i: int| 0 <= i < starting_by(s, t) implies (#[trigger] s[i]).0 <= t by {
                assert(p[i].0 <= t);
            }
        }
    }
}

proof fn lemma_sort_intervals(iv: Seq<(u64, u64)>)
    ensures
        intervals_sorted(sort_intervals(iv)),
        sort_intervals(iv).to_multiset() == iv.to_multiset(),
    decreases iv.len(),
{
    broadcast use vstd::seq_lib::to_multiset_insert, vstd::seq_lib::to_multiset_build;
    if iv.len() > 0 {
        let q = sort_intervals(iv.drop_last());
        let x = iv.last();
        lemma_sort_intervals(iv.drop_last());
        lemma_starting_by_split(q, x.0);
        let c = starting_by(q, x.0) as int;
        let r = sort_intervals(iv);
        assert(r == q.insert(c, x));
        assert forall|i: int, j: int| 0 <= i <= j < r.len() implies (#[trigger] r[i]).0 <= (#[trigger] r[j]).0 by {
            if j < c {
                assert(r[i] == q[i] && r[j] == q[j]);
            } else if j == c {
                if i < c {
                    assert(r[i] == q[i]);
                }
            } else if i < c {
                assert(r[i] == q[i] && r[j] == q[j - 1]);
            } else if i == c {
                assert(r[j] == q[j - 1]);
            } else {
                assert(r[i] == q[i - 1] && r[j] == q[j - 1]);
            }
        }
        assert(iv.drop_last().push(x) == iv);
    }
}

proof fn lemma_merge(iv: Seq<(u64, u64)>)
    requires
        intervals_sorted(iv),
        intervals_valid(iv),
    ensures
        intervals_valid(merge_intervals(iv)),
        intervals_separated(merge_intervals(iv)),
        iv.len() > 0 ==> merge_intervals(iv).len() > 0 && merge_intervals(iv).last().0 <= iv.last().0,
        forall|i: int| 0 <= i < iv.len() ==> within_one(#[trigger] iv[i], merge_intervals(iv)),
    decreases iv.len(),
{
    if iv.len() > 0 {
        let p = iv.drop_last();
        let x = iv.last();
        assert(intervals_sorted(p)) by {
            assert forall|i: int, j: int| 0 <= i <= j < p.len() implies (#[trigger] p[i]).0 <= (#[trigger] p[j]).0 by {
                assert(iv[i].0 <= iv[j].0);
            }
        }
        assert(intervals_valid(p)) by {
            assert forall|i: int| 0 <= i < p.len() implies (#[trigger] p[i]).0 <= p[i].1 by {
                assert(iv[i].0 <= iv[i].1);
            }
        }
        lemma_merge(p);
        let acc = merge_intervals(p);
        let m = merge_intervals(iv);
        assert(x == iv[iv.len() - 1]);
        if p.len() > 0 {
            assert(p.last() == iv[iv.len() - 2]);
            assert(iv[iv.len() - 2].0 <= iv[iv.len() - 1].0);
        }
        if acc.len() > 0 && x.0 <= acc.last().1 {
            let n = acc.len() - 1;
            let hi: u64 = if acc.last().1 >= x.1 { acc.last().1 } else { x.1 };
            assert(m == acc.update(n, (acc.last().0, hi)));
            assert(acc[n].0 <= acc[n].1);
            assert forall|k: int| 0 <= k < m.len() - 1 implies (#[trigger] m[k]).1 < m[k + 1].0 by {
                assert(acc[k].1 < acc[k + 1].0);
            }
            assert forall|i: int| 0 <= i < iv.len() implies within_one(#[trigger] iv[i], m) by {
                if i < p.len() {
                    assert(within_one(p[i], acc));
                    let k = choose|k: int| 0 <= k < acc.len() && (#[trigger] acc[k]).0 <= p[i].0 && p[i].1 <= acc[k].1;
                    assert(m[k].0 <= iv[i].0 && iv[i].1 <= m[k].1);
                } else {
                    assert(m[n].0 <= iv[i].0 && iv[i].1 <= m[n].1);
                }
            }
        } else {
            assert(m == acc.push(x));
            assert(iv[iv.len() - 1].0 <= iv[iv.len() - 1].1);
            assert forall|k: int| 0 <= k < m.len() - 1 implies (#[trigger] m[k]).1 < m[k + 1].0 by {
                if k < acc.len() - 1 {
                    assert(acc[k].1 < acc[k + 1].0);
                }
            }
            assert forall|i: int| 0 <= i < iv.len() implies within_one(#[trigger] iv[i], m) by {
                if i < p.len() {
                    assert(within_one(p[i], acc));
                    let k = choose|k: int| 0 <= k < acc.len() && (#[trigger] acc[k]).0 <= p[i].0 && p[i].1 <= acc[k].1;
                    assert(m[k].0 <= iv[i].0 && iv[i].1 <= m[k].1);
                } else {
                    assert(m[acc.len() as int] == iv[i]);
                }
            }
        }
    }
}

/// Merging time intervals (each ending no earlier than it starts) gives intervals in order, each
/// ending before the next starts, and every given interval lies within one of them.
pub proof fn lemma_merged_intervals(iv: Seq<(u64, u64)>)
    requires
        intervals_valid(iv),
    ensures
        intervals_valid(merge_intervals(sort_intervals(iv))),
        intervals_separated(merge_intervals(sort_intervals(iv))),
        forall|i: int| 0 <= i < iv.len() ==> within_one(#[trigger] iv[i], merge_intervals(sort_intervals(iv))),
{
    broadcast use vstd::seq_lib::to_multiset_contains;
    let s = sort_intervals(iv);
    lemma_sort_intervals(iv);
    assert(intervals_valid(s)) by {
        assert forall|i: int| 0 <= i < s.len() implies (#[trigger] s[i]).0 <= s[i].1 by {
            assert(s.to_multiset().count(s[i]) > 0);
            assert(iv.contains(s[i]));
            let j = choose|j: int| 0 <= j < iv.len() && iv[j] == s[i];
            assert(iv[j].0 <= iv[j].1);
        }
    }
    lemma_merge(s);
    assert forall|i: int| 0 <= i < iv.len() implies within_one(#[trigger] iv[i], merge_intervals(s)) by {
        assert(iv.to_multiset().count(iv[i]) > 0);
        assert(s.contains(iv[i]));
        let j = choose|j: int| 0 <= j < s.len() && s[j] == iv[i];
        assert(within_one(s[j], merge_intervals(s)));
    }
}

/// The time interval of each span.
pub open spec fn intervals_of(ms: Seq<Rc<Span>>) -> Seq<(u64, u64)> {
    ms.map_values(|s: Rc<Span>| (s.start_time, s.end_time))
}

/// `g` stands for the merged spans `ms` (two or more): a copy of the first, named after the
/// group with their count, spanning from the earliest start to the latest end, its intervals
/// the merged time intervals of the spans, a description of each span added as
/// "grouped_spans_info", and no children.
pub open spec fn grouped_span_of(g: Span, base: Seq<char>, ms: Seq<Rc<Span>>) -> bool {
    let first = *ms[0];
    &&& g.name@ == base + " (total="@ + crate::text::nat_text(ms.len()) + ")"@
    &&& g.original_name@ == first.original_name@
    &&& g.span_id@ == first.span_id@
    &&& g.trace_id@ == first.trace_id@
    &&& g.parent_span_id@ == first.parent_span_id@
    &&& g.start_time == min_start(ms)
    &&& g.end_time == max_end(ms)
    &&& g.min_start_time == min_start(ms)
    &&& g.max_end_time == max_end(ms)
    &&& crate::types::events_same(g.events@, first.events@)
    &&& g.node == first.node
    &&& g.scope == first.scope
    &&& g.display_options == first.display_options
    &&& g.collapse_children == first.collapse_children
    &&& g.dont_collapse_this_span == first.dont_collapse_this_span
    &&& g.parent_height_offset == first.parent_height_offset
    &&& segments_of(g.active_segments) == Some(merge_intervals(sort_intervals(intervals_of(ms))))
    &&& exists|attrs: Seq<KeyValue>, kv: KeyValue| {
        &&& kv_list_same(attrs, first.attributes@)
        &&& kv.key@ == "grouped_spans_info"@
        &&& kv.value matches AttrValue::Str(t) && t@ == members_info(ms)
        &&& g.attributes@ == #[trigger] attr_insert(attrs, kv.key@, kv)
    }
    &&& g.children@.len() == 0
}

/// The segments of a grouped span, where each member span ends no earlier than it starts, are in
/// order, each ending before the next one starts, and each member span lies within one of them.
pub proof fn lemma_grouped_segments(g: Span, base: Seq<char>, ms: Seq<Rc<Span>>)
    requires
        grouped_span_of(g, base, ms),
        forall|i: int| 0 <= i < ms.len() ==> (#[trigger] ms[i]).start_time <= ms[i].end_time,
    ensures
        segments_of(g.active_segments) matches Some(seg) && {
            &&& intervals_valid(seg)
            &&& intervals_separated(seg)
            &&& forall|i: int| 0 <= i < ms.len()
                ==> within_one((#[trigger] ms[i].start_time, ms[i].end_time), seg)
        },
{
    let iv = intervals_of(ms);
    assert forall|i: int| 0 <= i < iv.len() implies (#[trigger] iv[i]).0 <= iv[i].1 by {
        assert(iv[i] == (ms[i].start_time, ms[i].end_time));
    }
    lemma_merged_intervals(iv);
    assert forall|i: int| 0 <= i < ms.len()
        implies within_one((#[trigger] ms[i].start_time, ms[i].end_time), merge_intervals(sort_intervals(iv))) by {
        assert(iv[i] == (ms[i].start_time, ms[i].end_time));
    }
}

/// Appends the milliseconds, to three decimals, of a count of nanoseconds.
fn push_ms_text(s: &mut String, ns: u64)
    ensures
        final(s)@ == old(s)@ + ms_text(ns as nat),
{
    let ghost start = s@;
    let us: u128 = (ns as u128 + 500) / 1000;
    assert(us == (ns as nat + 500) / 1000);
    assert(us / 1000 <= us);
    let whole: u64 = (us / 1000) as u64;
    let frac: u64 = (us % 1000) as u64;
    assert(whole == us / 1000);
    assert(frac == us % 1000);
    crate::text::push_u64_text(s, whole);
    let ghost after_whole = s@;
    s.push('.');
    s.push(crate::text::digit(frac / 100));
    s.push(crate::text::digit((frac / 10) % 10));
    s.push(crate::text::digit(frac % 10));
    assert(after_whole == start + crate::text::nat_text(whole as nat));
    assert(s@ =~= after_whole + "."@ + three_digits(frac as nat)) by {
        reveal_strlit(".");
    }
    assert(s@ =~= start + ms_text(ns as nat));
}

fn push_member_line(out: &mut String, sp: &Span)
    ensures
        final(out)@ == old(out)@ + member_line(*sp),
{
    let ghost start = out@;
    push_str(out, sp.name.as_str());
    push_str(out, ": ");
    if sp.end_time >= sp.start_time {
        push_ms_text(out, sp.end_time - sp.start_time);
    } else {
        out.push('-');
        push_ms_text(out, sp.start_time - sp.end_time);
    }
    push_str(out, "ms [");
    let a = time_point_to_utc_string(sp.start_time);
    push_str(out, a.as_str());
    push_str(out, " - ");
    let b = time_point_to_utc_string(sp.end_time);
    push_str(out, b.as_str());
    push_str(out, "]");
    proof {
        reveal_strlit("-");
        let d = sp.end_time - sp.start_time;
        if d < 0 {
            assert(seq!['-'] =~= "-"@);
        }
        assert(out@ =~= start + member_line(*sp));
    }
}

fn members_info_text(ms: &Vec<Rc<Span>>) -> (r: String)
    ensures
        r@ == members_info(ms@),
{
    let mut out = String::new();
    for i in 0..ms.len()
        invariant
            out@ == members_info(ms@.take(i as int)),
    {
        let ghost before = out@;
        assert(ms@.take(i + 1).drop_last() =~= ms@.take(i as int));
        if i > 0 {
            push_str(&mut out, "\n");
        }
        push_member_line(&mut out, &ms[i]);
        proof {
            if i == 0 {
                assert(ms@.take(1)[0] == ms@[0]);
                assert(out@ =~= members_info(ms@.take(1)));
            } else {
                assert(out@ =~= members_info(ms@.take(i + 1)));
            }
        }
    }
    assert(ms@.take(ms.len() as int) =~= ms@);
    out
}

pub(crate) fn min_start_of(ms: &Vec<Rc<Span>>) -> (r: u64)
    requires
        ms@.len() >= 1,
    ensures
        r == min_start(ms@),
{
    let mut m = ms[0].start_time;
    for i in 1..ms.len()
        invariant
            ms@.len() >= 1,
            m == min_start(ms@.take(i as int)),
    {
        assert(ms@.take(i + 1).drop_last() =~= ms@.take(i as int));
        if ms[i].start_time < m {
            m = ms[i].start_time;
        }
    }
    assert(ms@.take(ms.len() as int) =~= ms@);
    m
}

pub(crate) fn max_end_of(ms: &Vec<Rc<Span>>) -> (r: u64)
    requires
        ms@.len() >= 1,
    ensures
        r == max_end(ms@),
{
    let mut m = ms[0].end_time;
    for i in 1..ms.len()
        invariant
            ms@.len() >= 1,
            m == max_end(ms@.take(i as int)),
    {
        assert(ms@.take(i + 1).drop_last() =~= ms@.take(i as int));
        if ms[i].end_time > m {
            m = ms[i].end_time;
        }
    }
    assert(ms@.take(ms.len() as int) =~= ms@);
    m
}

proof fn lemma_starting_by_le(iv: Seq<(u64, u64)>, t: u64)
    ensures
        starting_by(iv, t) <= iv.len(),
    decreases iv.len(),
{
    if iv.len() > 0 {
        lemma_starting_by_le(iv.drop_last(), t);
    }
}

/// The intervals merged after ordering them by start.
fn merged_intervals(ms: &Vec<Rc<Span>>) -> (r: Vec<(u64, u64)>)
    ensures
        r@ == merge_intervals(sort_intervals(intervals_of(ms@))),
{
    let ghost iv = intervals_of(ms@);
    let mut sorted: Vec<(u64, u64)> = Vec::new();
    for i in 0..ms.len()
        invariant
            iv == intervals_of(ms@),
            sorted@ == sort_intervals(iv.take(i as int)),
    {
        assert(iv.take(i + 1).drop_last() =~= iv.take(i as int));
        let x = (ms[i].start_time, ms[i].end_time);
        assert(iv.take(i + 1).last() == x);
        let mut p: usize = 0;
        for j in 0..sorted.len()
            invariant
                p == starting_by(sorted@.take(j as int), x.0),
                p <= j,
        {
            assert(sorted@.take(j + 1).drop_last() =~= sorted@.take(j as int));
            if sorted[j].0 <= x.0 {
                p = p + 1;
            }
        }
        assert(sorted@.take(sorted@.len() as int) =~= sorted@);
        sorted.insert(p, x);
    }
    assert(iv.take(iv.len() as int) =~= iv);
    let mut merged: Vec<(u64, u64)> = Vec::new();
    for i in 0..sorted.len()
        invariant
            merged@ == merge_intervals(sorted@.take(i as int)),
    {
        assert(sorted@.take(i + 1).drop_last() =~= sorted@.take(i as int));
        let (st, en) = sorted[i];
        let n = merged.len();
        if n > 0 && st <= merged[n - 1].1 {
            let last = merged[n - 1];
            let new_end = if last.1 >= en { last.1 } else { en };
            merged.set(n - 1, (last.0, new_end));
        } else {
            merged.push((st, en));
        }
    }
    assert(sorted@.take(sorted@.len() as int) =~= sorted@);
    merged
}

/// The span that stands for the merged spans (two or more), named after `base_name`.
fn create_grouped_span(base_name: &String, ms: &Vec<Rc<Span>>) -> (r: Span)
    requires
        ms@.len() >= 1,
    ensures
        grouped_span_of(r, base_name@, ms@),
{
    let min_s = min_start_of(ms);
    let max_e = max_end_of(ms);
    let segments = merged_intervals(ms);
    let mut g = copy_span(&ms[0], Vec::new());
    let ghost copied_attrs = g.attributes@;
    let mut name = base_name.clone();
    push_str(&mut name, " (total=");
    crate::text::push_u64_text(&mut name, ms.len() as u64);
    push_str(&mut name, ")");
    g.name = name;
    g.start_time = min_s;
    g.end_time = max_e;
    g.min_start_time = min_s;
    g.max_end_time = max_e;
    g.active_segments = Some(segments);
    let info = members_info_text(ms);
    let key = owned("grouped_spans_info");
    let value = AttrValue::Str(info);
    let ghost kv = KeyValue { key: key, value: value };
    insert_attribute(&mut g.attributes, key, value);
    assert(kv_list_same(copied_attrs, ms@[0].attributes@));
    assert(g.attributes@ == attr_insert(copied_attrs, kv.key@, kv));
    g
}

/// The key by which a span is grouped.
fn group_key_of(s: &Span) -> (r: (String, String, String))
    ensures
        (r.0@, r.1@, r.2@) == group_key(*s),
{
    let node_name = s.node.name.clone();
    let height = match get_attribute(&s.attributes, "height") {
        Some(v) => value_to_text(v),
        None => owned("empty"),
    };
    let base = match get_attribute(&s.attributes, "original.span.name") {
        Some(AttrValue::Str(t)) => t.clone(),
        _ => s.name.clone(),
    };
    (node_name, height, base)
}

fn keys_equal(a: &(String, String, String), b: &(String, String, String)) -> (r: bool)
    ensures
        r == ((a.0@, a.1@, a.2@) == (b.0@, b.1@, b.2@)),
{
    a.0.eq(&b.0) && a.1.eq(&b.1) && a.2.eq(&b.2)
}

fn is_groupable(s: &Span) -> (r: bool)
    ensures
        r == groupable(*s),
{
    match &s.active_segments {
        Some(v) => {
            if v.len() == 0 {
                assert(v@ =~= Seq::<(u64, u64)>::empty());
                true
            } else {
                false
            }
        },
        None => false,
    }
}

/// `a` stands for `b` alone in its group: a copy of it, no longer marked for grouping, with the
/// same children.
pub open spec fn single_of(a: Span, b: Span) -> bool {
    &&& fields_copy_of(a, b)
    &&& a.active_segments is None
    &&& a.children@ == b.children@
}

/// The spans after grouping: the top spans that are not marked, in order, each without its marked
/// children; then, for each key in the order the marked spans (anywhere in the trees, in preorder)
/// first have it, the span that stands for the marked spans with that key.
pub open spec fn grouped_forest(forest: Seq<Rc<Span>>, r: Seq<Rc<Span>>) -> bool {
    let gs = groupables(forest_spans(forest));
    let tops = non_groupables(forest);
    let firsts = first_positions(gs, gs.len() as int);
    &&& r.len() == tops.len() + firsts.len()
    &&& forall|i: int| 0 <= i < tops.len() ==> {
        &&& span_copy_of(*#[trigger] r[i], *tops[i])
        &&& r[i].children@ == non_groupables(tops[i].children@)
    }
    &&& forall|k: int| 0 <= k < firsts.len() ==> {
        let key = group_key(*gs[firsts[k]]);
        let ms = members_below(gs, key, gs.len() as int);
        if ms.len() > 1 {
            grouped_span_of(*#[trigger] r[tops.len() + k], key.2, ms)
        } else {
            single_of(*r[tops.len() + k], *ms[0])
        }
    }
}

fn unmarked(spans: &Vec<Rc<Span>>) -> (r: Vec<Rc<Span>>)
    ensures
        r@ == non_groupables(spans@),
{
    let mut out: Vec<Rc<Span>> = Vec::new();
    for i in 0..spans.len()
        invariant
            out@ == non_groupables(spans@.take(i as int)),
    {
        assert(spans@.take(i + 1).drop_last() =~= spans@.take(i as int));
        if !is_groupable(&spans[i]) {
            out.push(rc_clone(&spans[i]));
        }
    }
    assert(spans@.take(spans.len() as int) =~= spans@);
    out
}

fn marked(spans: &Vec<Rc<Span>>) -> (r: Vec<Rc<Span>>)
    ensures
        r@ == groupables(spans@),
{
    let mut out: Vec<Rc<Span>> = Vec::new();
    for i in 0..spans.len()
        invariant
            out@ == groupables(spans@.take(i as int)),
    {
        assert(spans@.take(i + 1).drop_last() =~= spans@.take(i as int));
        if is_groupable(&spans[i]) {
            out.push(rc_clone(&spans[i]));
        }
    }
    assert(spans@.take(spans.len() as int) =~= spans@);
    out
}

proof fn lemma_members_len(gs: Seq<Rc<Span>>, k: (Seq<char>, Seq<char>, Seq<char>), n: int)
    requires
        0 <= n <= gs.len(),
        key_seen(gs, k, n),
    ensures
        members_below(gs, k, n).len() >= 1,
    decreases n,
{
    if key_at(gs, n - 1) != k {
        assert(key_seen(gs, k, n - 1));
        lemma_members_len(gs, k, n - 1);
    }
}

proof fn lemma_first_positions_len(gs: Seq<Rc<Span>>, n: int)
    requires
        0 <= n,
    ensures
        first_positions(gs, n).len() <= n,
    decreases n,
{
    if n > 0 {
        lemma_first_positions_len(gs, n - 1);
    }
}

/// Merges the spans marked for grouping, as `grouped_forest` states.
pub fn apply_grouping(spans: Vec<Rc<Span>>) -> (r: Vec<Rc<Span>>)
    ensures
        grouped_forest(spans@, r@),
{
    let all = gather_forest(spans.as_slice());
    let gs = marked(&all);
    let ghost g = gs@;
    let mut keys: Vec<(String, String, String)> = Vec::new();
    for i in 0..gs.len()
        invariant
            g == gs@,
            keys@.len() == i,
            forall|j: int| 0 <= j < i ==> (keys@[j].0@, keys@[j].1@, keys@[j].2@) == group_key(*#[trigger] g[j]),
    {
        keys.push(group_key_of(&gs[i]));
    }
    let tops = unmarked(&spans);
    let mut out: Vec<Rc<Span>> = Vec::new();
    for i in 0..tops.len()
        invariant
            out@.len() == i,
            forall|q: int| 0 <= q < i ==> {
                &&& span_copy_of(*#[trigger] out@[q], *tops@[q])
                &&& out@[q].children@ == non_groupables(tops@[q].children@)
            },
    {
        let children = unmarked(&tops[i].children);
        let t = copy_span(&tops[i], children);
        out.push(Rc::new(t));
    }
    let ghost nt = tops@.len() as int;
    let ghost firsts_spec = first_positions(g, g.len() as int);
    let mut nfirst: usize = 0;
    for i in 0..gs.len()
        invariant
            g == gs@,
            keys@.len() == g.len(),
            forall|j: int| 0 <= j < g.len() ==> (keys@[j].0@, keys@[j].1@, keys@[j].2@) == group_key(*#[trigger] g[j]),
            nt == tops@.len(),
            nfirst == first_positions(g, i as int).len(),
            out@.len() == nt + nfirst,
            forall|q: int| 0 <= q < nt ==> {
                &&& span_copy_of(*#[trigger] out@[q], *tops@[q])
                &&& out@[q].children@ == non_groupables(tops@[q].children@)
            },
            forall|k: int| 0 <= k < nfirst ==> {
                let key = group_key(*g[first_positions(g, i as int)[k]]);
                let ms = members_below(g, key, g.len() as int);
                if ms.len() > 1 {
                    grouped_span_of(*#[trigger] out@[nt + k], key.2, ms)
                } else {
                    single_of(*out@[nt + k], *ms[0])
                }
            },
    {
        proof {
            lemma_first_positions_len(g, i as int);
        }
        let mut seen = false;
        for j in 0..i
            invariant
                keys@.len() == g.len(),
                i < g.len(),
                forall|q: int| 0 <= q < g.len() ==> (keys@[q].0@, keys@[q].1@, keys@[q].2@) == group_key(*#[trigger] g[q]),
                seen == key_seen(g, group_key(*g[i as int]), j as int),
        {
            if keys_equal(&keys[j], &keys[i]) {
                seen = true;
            }
            proof {
                let ki = key_at(g, i as int);
                if seen && !key_seen(g, ki, j as int) {
                    assert(key_at(g, j as int) == ki);
                }
                if key_seen(g, ki, j + 1) && !key_seen(g, ki, j as int) {
                    let q = choose|q: int| 0 <= q < j + 1 && group_key(*#[trigger] g[q]) == ki;
                    assert(q == j);
                }
            }
        }
        if !seen {
            let mut members: Vec<Rc<Span>> = Vec::new();
            for j in 0..gs.len()
                invariant
                    g == gs@,
                    keys@.len() == g.len(),
                    i < g.len(),
                    forall|q: int| 0 <= q < g.len() ==> (keys@[q].0@, keys@[q].1@, keys@[q].2@) == group_key(*#[trigger] g[q]),
                    members@ == members_below(g, group_key(*g[i as int]), j as int),
            {
                if keys_equal(&keys[j], &keys[i]) {
                    members.push(rc_clone(&gs[j]));
                }
            }
            let ghost key = key_at(g, i as int);
            proof {
                assert(key_seen(g, key, g.len() as int)) by {
                    assert(key_at(g, i as int) == key);
                }
                lemma_members_len(g, key, g.len() as int);
            }
            let ghost before = out@;
            if members.len() > 1 {
                let grouped = create_grouped_span(&keys[i].2, &members);
                out.push(Rc::new(grouped));
            } else {
                let only = &members[0];
                let mut single = copy_span(only, Vec::new());
                let mut kids: Vec<Rc<Span>> = Vec::new();
                let nkids = only.children.len();
                for q in 0..nkids
                    invariant
                        members@.len() >= 1,
                        *only == *members@[0],
                        nkids == members@[0].children@.len(),
                        kids@ == members@[0].children@.take(q as int),
                {
                    kids.push(rc_clone(&only.children[q]));
                    assert(members@[0].children@.take(q + 1) =~= members@[0].children@.take(q as int).push(members@[0].children@[q as int]));
                }
                assert(members@[0].children@.take(members@[0].children@.len() as int) =~= members@[0].children@);
                single.active_segments = None;
                single.children = kids;
                out.push(Rc::new(single));
            }
            proof {
                assert(first_positions(g, i + 1) == first_positions(g, i as int).push(i as int));
                assert forall|k: int| 0 <= k < nfirst + 1 implies {
                    let key2 = group_key(*g[first_positions(g, i + 1)[k]]);
                    let ms = members_below(g, key2, g.len() as int);
                    if ms.len() > 1 {
                        grouped_span_of(*#[trigger] out@[nt + k], key2.2, ms)
                    } else {
                        single_of(*out@[nt + k], *ms[0])
                    }
                } by {
                    if k < nfirst {
                        assert(out@[nt + k] == before[nt + k]);
                        assert(first_positions(g, i + 1)[k] == first_positions(g, i as int)[k]);
                    }
                }
            }
            nfirst = nfirst + 1;
        } else {
            proof {
                assert(first_positions(g, i + 1) == first_positions(g, i as int));
            }
        }
    }
    proof {
        assert(firsts_spec == first_positions(g, g.len() as int));
    }
    out
}

/// Whether some rule of the mode asks for grouping.
pub open spec fn groups_spans(rules: Seq<crate::structured_modes::SpanRule>) -> bool {
    exists|i: int| 0 <= i < rules.len() && (#[trigger] rules[i]).decision.group
}

/// `r` are the span trees that the mode displays of the trace data: the records of the trace,
/// one per id, arranged by the mode's rules and, when a rule asks for it, grouped.
pub open spec fn mode_displays(trace_data: Seq<TraceRequest>, mode: StructuredMode, r: Seq<Rc<Span>>) -> bool {
    exists|records: Seq<Span>, ds: Seq<SpanDecision>, m: Seq<Span>, forest: Seq<Rc<Span>>| {
        &&& records_of(records, recorded_spans(trace_data))
        &&& mode_trees(mode.span_rules@, latest_by_id(records), ds, m, forest)
        &&& if groups_spans(mode.span_rules@) { grouped_forest(forest, r) } else { r == forest }
    }
}

/// The span trees that a structured mode displays of the trace data: for each span hierarchy,
/// the first spans the mode shows, with everything below them, each span as its decision
/// displays it; then, when a rule asks for grouping, the marked spans merged by node, height
/// and name.
pub fn structured_mode_transformation(trace_data: Vec<TraceRequest>, structured_mode: &StructuredMode) -> (r: Vec<Rc<Span>>)
    ensures
        mode_displays(trace_data@, *structured_mode, r@),
{
    let records = recorded_records(trace_data);
    let ghost rv = records@;
    let unique = spans_by_id(records);
    let forest = mode_forest(unique, structured_mode);
    let ghost fv = forest@;
    let mut any_group = false;
    for i in 0..structured_mode.span_rules.len()
        invariant
            any_group == exists|j: int| 0 <= j < i && (#[trigger] structured_mode.span_rules@[j]).decision.group,
    {
        if structured_mode.span_rules[i].decision.group {
            any_group = true;
        }
    }
    if any_group {
        let r = apply_grouping(forest);
        r
    } else {
        forest
    }
}

/// A display mode: a name and the way it turns trace data into the spans to display.
pub struct DisplayMode {
    pub name: String,
    /// The structured mode whose rules arrange the spans.
    pub structured_mode: StructuredMode,
}

impl DisplayMode {
    /// The spans this mode displays of the trace data.
    pub fn transformation(&self, trace_data: Vec<TraceRequest>) -> (r: Vec<Rc<Span>>)
        ensures
            mode_displays(trace_data@, self.structured_mode, r@),
    {
        structured_mode_transformation(trace_data, &self.structured_mode)
    }
}

/// The built-in display modes: one for each built-in structured mode, under its name.
pub fn get_all_modes() -> (r: Vec<DisplayMode>)
    ensures
        r@.len() == 3,
        forall|i: int| 0 <= i < 3 ==> (#[trigger] r@[i]).structured_mode.name == r@[i].name,
        crate::structured_modes::is_chain_mode(r@[0].structured_mode),
        crate::structured_modes::is_everything_mode(r@[1].structured_mode),
        crate::structured_modes::is_block_production_mode(r@[2].structured_mode),
{
    let modes = crate::structured_modes::builtin_structured_modes();
    let ghost mv = modes@;
    let mut out: Vec<DisplayMode> = Vec::new();
    for mode in it: modes
        invariant
            it.seq() == mv,
            out@.len() == it.index(),
            forall|j: int| 0 <= j < it.index() ==> {
                &&& (#[trigger] out@[j]).structured_mode == mv[j]
                &&& out@[j].name == mv[j].name
            },
    {
        let name = copy_string(&mode.name);
        out.push(DisplayMode { name, structured_mode: mode });
    }
    out
}

} // verus!
