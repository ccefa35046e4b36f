use std::rc::Rc;

use traviz::analyze_dependency::{
    AnalysisCardinality, DependencyLink, AnalyzeDependencyModal, GroupAggregationStrategy, SourceScope,
    SourceTimingStrategy,
};
use traviz::analyze_utils::{process_spans_for_analysis, Statistics};
use traviz::display::{display_forest, highlight_time_window, selection_after_highlight, spans_to_highlight};
use traviz::edit_state::{
    commit_edit, move_down, move_up, new_filter, new_mode, new_relation, new_view, AddingOrEditing,
};
use traviz::modes::apply_grouping;
use traviz::node_filter::{builtin_filters, NodeFilter};
use traviz::persistent::{load_persistent_data, save_persistent_data, PersistentData};
use traviz::profiling::{FunctionTiming, Profiler};
use traviz::relation::{
    find_relations, make_uuid_from_seed, AttributeRelation, AttributeRelationOp, MatchType,
    Relation, RelationId, RelationNodesConfig, RelationView,
};
use traviz::span_tree::{span_forest, spans_by_id};
use traviz::structured_modes::{builtin_structured_modes, SpanSelector};
use traviz::timeline::{do_spans_collide_in_y, is_intersecting};
use traviz::modes::get_all_modes;
use traviz::types::{
    values_match,
    insert_attribute, stringify_attributes, stringify_span, time_point_to_utc_string, AttrValue,
    DisplayLength, Event, KeyValue, Node, Scope, Span, SpanDisplayConfig, TimePoint,
};

const S: u64 = 1_000_000_000;

fn node(name: &str) -> Rc<Node> {
    Rc::new(Node { name: name.to_string(), attributes: vec![] })
}

fn attrs_of(pairs: Vec<(&str, AttrValue)>) -> Vec<KeyValue> {
    let mut attrs = Vec::new();
    for (k, v) in pairs {
        insert_attribute(&mut attrs, k.to_string(), v);
    }
    attrs
}

fn record(name: &str, node: &Rc<Node>, start: TimePoint, end: TimePoint, id: u8, parent: Option<u8>, attributes: Vec<KeyValue>) -> Span {
    Span {
        name: name.to_string(),
        original_name: name.to_string(),
        span_id: vec![id],
        trace_id: vec![7],
        parent_span_id: parent.map(|p| vec![p]).unwrap_or_default(),
        start_time: start,
        end_time: end,
        attributes,
        events: vec![],
        node: node.clone(),
        scope: None,
        children: vec![],
        min_start_time: start,
        max_end_time: end,
        display_options: SpanDisplayConfig { display_length: DisplayLength::Time },
        collapse_children: false,
        dont_collapse_this_span: false,
        parent_height_offset: 0,
        active_segments: None,
    }
}

fn span(name: &str, node: &Rc<Node>, start: TimePoint, end: TimePoint, id: u8) -> Rc<Span> {
    Rc::new(record(name, node, start, end, id, None, vec![]))
}

fn relation(id: u64, from: &str, to: &str, max_time_diff: Option<i64>, match_type: MatchType, attribute_relations: Vec<AttributeRelation>) -> Relation {
    Relation {
        id: RelationId { high: 0, low: id },
        name: format!("{} to {}", from, to),
        description: String::new(),
        from_span_selector: SpanSelector::new_equal_name(from),
        to_span_selector: SpanSelector::new_equal_name(to),
        attribute_relations,
        max_time_diff,
        min_time_diff: 0,
        nodes_config: RelationNodesConfig::AllNodes,
        match_type,
        is_builtin: false,
    }
}

fn view_of(ids: Vec<RelationId>) -> RelationView {
    RelationView { enabled_relations: ids, name: "view".to_string(), is_builtin: false }
}

#[test]
fn test_relation_links_within_time_window() {
    let n = node("n");
    let spans = vec![
        span("a", &n, 0, S, 1),
        span("b", &n, 2 * S, 3 * S, 2),
        span("b", &n, 10 * S, 11 * S, 3),
    ];
    let rels = vec![relation(1, "a", "b", Some(5 * S as i64), MatchType::MatchAll, vec![])];
    let found = find_relations(&rels, &view_of(vec![rels[0].id]), &spans);
    assert_eq!(found.len(), 1);
    assert_eq!(found[0].from_span.span_id, vec![1]);
    assert_eq!(found[0].to_span.span_id, vec![2]);
    assert_eq!(found[0].relation_index, 0);
}

#[test]
fn test_relation_to_span_starting_before_end_is_not_linked() {
    let n = node("n");
    let spans = vec![span("a", &n, 0, 4 * S, 1), span("b", &n, 2 * S, 3 * S, 2)];
    let rels = vec![relation(1, "a", "b", None, MatchType::MatchAll, vec![])];
    let found = find_relations(&rels, &view_of(vec![rels[0].id]), &spans);
    assert!(found.is_empty());
}

#[test]
fn test_match_closest_links_once() {
    let n = node("n");
    let spans = vec![
        span("b", &n, 3 * S, 4 * S, 3),
        span("a", &n, 0, S, 1),
        span("b", &n, 2 * S, 3 * S, 2),
    ];
    let closest = vec![relation(1, "a", "b", None, MatchType::MatchClosest, vec![])];
    let found = find_relations(&closest, &view_of(vec![closest[0].id]), &spans);
    assert_eq!(found.len(), 1);
    assert_eq!(found[0].to_span.span_id, vec![2]);
    let all = vec![relation(1, "a", "b", None, MatchType::MatchAll, vec![])];
    let found = find_relations(&all, &view_of(vec![all[0].id]), &spans);
    assert_eq!(found.len(), 2);
    assert_eq!(found[0].to_span.span_id, vec![2]);
    assert_eq!(found[1].to_span.span_id, vec![3]);
}

#[test]
fn test_relation_attribute_one_greater() {
    let n = node("n");
    let a = Rc::new(record("a", &n, 0, S, 1, None, attrs_of(vec![("height", AttrValue::Int(41))])));
    let b1 = Rc::new(record("b", &n, 2 * S, 3 * S, 2, None, attrs_of(vec![("height", AttrValue::Int(41))])));
    let b2 = Rc::new(record("b", &n, 4 * S, 5 * S, 3, None, attrs_of(vec![("height", AttrValue::Str("42".to_string()))])));
    let ar = AttributeRelation {
        from_attribute: "height".to_string(),
        to_attribute: "height".to_string(),
        relation: AttributeRelationOp::OneGreater,
    };
    let rels = vec![relation(9, "a", "b", None, MatchType::MatchAll, vec![ar])];
    let found = find_relations(&rels, &view_of(vec![rels[0].id]), &vec![a, b1, b2]);
    assert_eq!(found.len(), 1);
    assert_eq!(found[0].to_span.span_id, vec![3]);
}

#[test]
fn test_relation_view_with_unknown_id_is_empty() {
    let n = node("n");
    let spans = vec![span("a", &n, 0, S, 1), span("b", &n, 2 * S, 3 * S, 2)];
    let rels = vec![relation(1, "a", "b", None, MatchType::MatchAll, vec![])];
    let found = find_relations(&rels, &view_of(vec![RelationId { high: 5, low: 5 }]), &spans);
    assert!(found.is_empty());
}

#[test]
fn test_make_uuid_from_seed_is_sha256_prefix() {
    // SHA-256("abc") = ba7816bf8f01cfea 414140de5dae2223 b00361a396177a9c b410ff61f20015ad
    let id = make_uuid_from_seed("abc");
    assert_eq!(id.high, 0xba7816bf8f01cfea);
    assert_eq!(id.low, 0x414140de5dae2223);
    assert_ne!(make_uuid_from_seed("abd"), id);
}

#[test]
fn test_time_point_to_utc_string() {
    assert_eq!(time_point_to_utc_string(0), "1970-01-01 00:00:00.000");
    assert_eq!(time_point_to_utc_string(1_500_000_000_123_456_789), "2017-07-14 02:40:00.123");
}

#[test]
fn test_span_names_ordered_ignoring_case() {
    let n = node("n");
    let spans = vec![span("B", &n, 0, 1, 1), span("a", &n, 0, 1, 2), span("c", &n, 0, 1, 3), span("a", &n, 2, 3, 4)];
    let (all, names) = process_spans_for_analysis(&spans);
    assert_eq!(all.len(), 4);
    assert_eq!(names, vec!["a", "B", "c"]);
}

#[test]
fn test_spans_by_id_keeps_last_record() {
    let n = node("n");
    let spans = vec![
        record("first", &n, 0, 1, 5, None, vec![]),
        record("other", &n, 0, 1, 2, None, vec![]),
        record("second", &n, 0, 1, 5, None, vec![]),
    ];
    let unique = spans_by_id(spans);
    assert_eq!(unique.len(), 2);
    assert_eq!(unique[0].span_id, vec![2]);
    assert_eq!(unique[1].span_id, vec![5]);
    assert_eq!(unique[1].name, "second");
}

#[test]
fn test_span_forest_links_children_to_parents() {
    let n = node("n");
    let spans = vec![
        record("child", &n, 1, 2, 2, Some(1), vec![]),
        record("root", &n, 0, 5, 1, None, vec![]),
        record("grandchild", &n, 1, 2, 3, Some(2), vec![]),
        record("orphan", &n, 0, 1, 4, Some(9), vec![]),
    ];
    let forest = span_forest(spans);
    assert_eq!(forest.len(), 2);
    assert_eq!(forest[0].name, "root");
    assert_eq!(forest[1].name, "orphan");
    assert_eq!(forest[0].children.len(), 1);
    assert_eq!(forest[0].children[0].name, "child");
    assert_eq!(forest[0].children[0].children[0].name, "grandchild");
}

#[test]
fn test_grouping_merges_time_intervals() {
    let n = node("n");
    let mut spans = Vec::new();
    for (start, end, id) in [(5 * S, 6 * S, 3), (0, 2 * S, 1), (S, 3 * S, 2)] {
        let mut s = record("work", &n, start, end, id, None, vec![]);
        s.active_segments = Some(vec![]);
        spans.push(Rc::new(s));
    }
    spans.push(span("alone", &n, 0, S, 4));
    let out = apply_grouping(spans);
    assert_eq!(out.len(), 2);
    assert_eq!(out[0].name, "alone");
    let g = &out[1];
    assert_eq!(g.name, "work (total=3)");
    assert_eq!(g.start_time, 0);
    assert_eq!(g.end_time, 6 * S);
    assert_eq!(g.active_segments, Some(vec![(0, 3 * S), (5 * S, 6 * S)]));
}

#[test]
fn test_description_read_back() {
    let n = node("n");
    let target = Rc::new(record("target", &n, 2 * S, 3 * S, 2, None, attrs_of(vec![("shard", AttrValue::Str("s1".to_string()))])));
    let spans = vec![span("source", &n, 0, S, 1), target];
    let mut modal = AnalyzeDependencyModal::new();
    modal.update_span_list(&spans);
    modal.set_source_span_name(Some("source".to_string()));
    modal.set_target_span_name(Some("target".to_string()));
    modal.set_threshold(2);
    modal.set_analysis_cardinality(AnalysisCardinality::OneToN);
    modal.set_linking_attribute("height".to_string());
    modal.set_group_by_attribute("shard".to_string());
    modal.set_source_scope(SourceScope::AllNodes);
    modal.set_source_timing_strategy(SourceTimingStrategy::LatestFirst);
    modal.set_group_aggregation_strategy(GroupAggregationStrategy::FirstCompletedGroup);
    modal.analyze_dependencies();
    let description = modal.analysis_result.as_ref().expect("analysis runs").description();
    assert_eq!(
        description,
        "Analysis of dependency: 'source' -> 'target' (cardinality: 1-to-N, threshold: 2, linking by: height, \
         group by: shard, scope: all nodes, timing: Latest First, group aggregation: First Completed Group)"
    );

    let mut other = AnalyzeDependencyModal::new();
    other.update_span_list(&spans);
    assert_eq!(other.parse_and_fill_from_description(&description), Ok(()));
    assert_eq!(other.get_source_span_name(), Some(&"source".to_string()));
    assert_eq!(other.get_target_span_name(), Some(&"target".to_string()));
    assert_eq!(other.get_threshold(), 2);
    assert_eq!(*other.get_analysis_cardinality(), AnalysisCardinality::OneToN);
    assert_eq!(other.get_linking_attribute(), "height");
    assert_eq!(other.get_group_by_attribute(), "shard");
    assert_eq!(*other.get_source_scope(), SourceScope::AllNodes);
    assert_eq!(*other.get_source_timing_strategy(), SourceTimingStrategy::LatestFirst);
    assert_eq!(*other.get_group_aggregation_strategy(), GroupAggregationStrategy::FirstCompletedGroup);
}

#[test]
fn test_description_attribute_holding_a_later_parameter_name() {
    // A linking attribute that holds "scope:" ends where that name starts.
    let description = "Analysis of dependency: 'a' -> 'b' (cardinality: N-to-1, threshold: 3, \
                       linking by: x scope: y, group by: none, scope: self, timing: Earliest First, \
                       group aggregation: Wait For Last Group)";
    let mut modal = AnalyzeDependencyModal::new();
    assert_eq!(modal.parse_and_fill_from_description(description), Ok(()));
    assert_eq!(modal.get_linking_attribute(), "x");
    assert_eq!(modal.get_group_by_attribute(), "");
    assert_eq!(modal.get_threshold(), 3);
    assert_eq!(*modal.get_source_scope(), SourceScope::SameNode);
}

#[test]
fn test_description_without_analysis_prefix_is_refused() {
    let mut modal = AnalyzeDependencyModal::new();
    assert_eq!(
        modal.parse_and_fill_from_description("something else"),
        Err("Description must start with 'Analysis of dependency:'".to_string())
    );
    assert_eq!(modal.try_parse_and_fill_from_description("something else").map(|r| r.is_ok()), Some(false));
    assert!(modal.get_error_message().is_none());
}

#[test]
fn test_dependency_missing_source_name_is_an_error() {
    let n = node("n");
    let spans = vec![span("target", &n, 2 * S, 3 * S, 2)];
    let mut modal = AnalyzeDependencyModal::new();
    modal.update_span_list(&spans);
    modal.set_target_span_name(Some("target".to_string()));
    modal.analyze_dependencies();
    assert!(modal.analysis_result.is_none());
    assert!(modal.get_error_message().is_some());
}

#[test]
fn test_dependency_group_attribute_missing_is_an_error() {
    let n = node("n");
    let spans = vec![span("source", &n, 0, S, 1), span("target", &n, 2 * S, 3 * S, 2)];
    let mut modal = AnalyzeDependencyModal::new();
    modal.update_span_list(&spans);
    modal.set_source_span_name(Some("source".to_string()));
    modal.set_target_span_name(Some("target".to_string()));
    modal.set_group_by_attribute("zone".to_string());
    modal.analyze_dependencies();
    assert!(modal.analysis_result.is_none());
    assert_eq!(
        modal.get_error_message().map(|m| m.as_str()),
        Some("The 'Group By Attribute' ('zone') was not found in any source spans named 'source', or no such source spans have this attribute.")
    );
}

#[test]
fn test_node_filters_show_all_and_none() {
    let filters = builtin_filters();
    assert_eq!(filters.len(), 2);
    assert!(filters[0].should_show_span("any node"));
    assert!(!filters[1].should_show_span("any node"));
    assert!(NodeFilter::show_all().should_show_span(""));
}

#[test]
fn test_save_and_load_keeps_user_modes_after_builtin_ones() {
    let mut modes = builtin_structured_modes();
    let mut mine = modes[0].clone();
    mine.name = "Mine".to_string();
    mine.is_builtin = false;
    modes.push(mine);
    let mut filters = builtin_filters();
    let mut f = NodeFilter::show_none();
    f.name = "Hide".to_string();
    f.is_editable = true;
    filters.push(f);
    let data = save_persistent_data(modes, filters);
    let PersistentData::V1(ref d) = data;
    assert_eq!(d.display_modes().len(), 1);
    assert_eq!(d.node_filters().len(), 1);
    let mut loaded_modes = Vec::new();
    let mut loaded_filters = Vec::new();
    load_persistent_data(&mut loaded_modes, &mut loaded_filters, data);
    let names: Vec<&str> = loaded_modes.iter().map(|m| m.name.as_str()).collect();
    assert_eq!(names, vec!["Chain", "Everything", "Block Production", "Mine"]);
    let filter_names: Vec<&str> = loaded_filters.iter().map(|f| f.name.as_str()).collect();
    assert_eq!(filter_names, vec!["Show all", "Show none", "Hide"]);
}

#[test]
fn test_profiler_report_orders_by_name_and_resets() {
    let mut p = Profiler::new();
    p.record_timing("f", 5);
    p.record_timing("f", 5);
    p.record_timing("a", 1);
    p.increment_frame_count();
    p.increment_frame_count();
    let (frames, report) = p.take_report();
    assert_eq!(frames, 2);
    assert_eq!(report.len(), 2);
    assert_eq!(report[0].0, "a");
    assert_eq!(report[0].1, FunctionTiming { total_duration_nanos: 1, call_count: 1 });
    assert_eq!(report[1].0, "f");
    assert_eq!(report[1].1, FunctionTiming { total_duration_nanos: 10, call_count: 2 });
    let (frames, report) = p.take_report();
    assert_eq!(frames, 0);
    assert_eq!(report[1].1, FunctionTiming { total_duration_nanos: 0, call_count: 0 });
}

#[test]
fn test_profiler_timing_guard_counts_a_call() {
    let mut p = Profiler::new();
    let guard = p.start_timing("draw");
    p.finish_timing(guard);
    let (_, report) = p.take_report();
    assert_eq!(report.len(), 1);
    assert_eq!(report[0].0, "draw");
    assert_eq!(report[0].1.call_count, 1);
}

#[test]
fn test_move_up_then_down_restores() {
    let mut items = vec![1, 2, 3];
    let s = move_up(&mut items, 2);
    assert_eq!((s, items.clone()), (1, vec![1, 3, 2]));
    let s = move_down(&mut items, s);
    assert_eq!((s, items.clone()), (2, vec![1, 2, 3]));
    assert_eq!(move_up(&mut items, 0), 0);
    assert_eq!(move_down(&mut items, 2), 2);
    assert_eq!(items, vec![1, 2, 3]);
    let s = commit_edit(&mut items, 9, AddingOrEditing::Adding, 0);
    assert_eq!((s, items.clone()), (3, vec![1, 2, 3, 9]));
    let s = commit_edit(&mut items, 7, AddingOrEditing::Editing, 1);
    assert_eq!((s, items), (1, vec![1, 7, 3, 9]));
}

#[test]
fn test_intervals_intersect_symmetrically() {
    assert!(is_intersecting(0, 5, 5, 9));
    assert!(is_intersecting(5, 9, 0, 5));
    assert!(is_intersecting(0, 10, 2, 3));
    assert!(!is_intersecting(0, 1, 2, 3));
    assert!(!is_intersecting(2, 3, 0, 1));
    assert!(do_spans_collide_in_y(0, 2, 1, 2));
    assert!(do_spans_collide_in_y(1, 2, 0, 2));
    assert!(!do_spans_collide_in_y(0, 1, 1, 1));
}

#[test]
fn test_statistics_median_values() {
    let mut st = Statistics::new();
    assert_eq!(st.median_values(), None);
    for v in [30, 10, 20, 40] {
        st.add_value(v);
    }
    assert_eq!(st.count, 4);
    assert_eq!(st.min, 10);
    assert_eq!(st.max, 40);
    assert_eq!(st.total, 100);
    assert_eq!(st.median_values(), Some((20, 30)));
    st.add_value(25);
    assert_eq!(st.median_values(), Some((25, 25)));
}

#[test]
fn test_stringify_attributes() {
    let attrs = attrs_of(vec![("b", AttrValue::Int(-3)), ("a", AttrValue::Str("x".to_string()))]);
    assert_eq!(stringify_attributes(&attrs), "{\n a = x,\n b = -3,}");
    assert_eq!(stringify_attributes(&vec![]), "{}");
}

#[test]
fn test_stringify_span() {
    let n = node("n");
    let mut child = record("c", &n, 0, 1_000_000, 0x2b, Some(0x1a), vec![]);
    child.scope = Some(Rc::new(Scope { name: "sc".to_string(), version: "1".to_string(), attributes: vec![] }));
    let mut parent = record("p", &n, 0, 2_000_000, 0x1a, None, attrs_of(vec![("k", AttrValue::Str("v".to_string()))]));
    parent.events = vec![Event { name: "e".to_string(), time: 1_000_000, attributes: vec![] }];
    parent.children = vec![Rc::new(child)];
    let parent = Rc::new(parent);
    let child_text = format!(
        "Span {{\n name: c\n, span_id: [2b]\n, trace_id: [7]\n, parent_span_id: [1a]\n, start_time: 1970-01-01 00:00:00.000\n, end_time: 1970-01-01 00:00:00.001\n, attributes: {{}}\n events: [],\n node: Node {{\n  name: n\n  attributes: {{}}\n }},\n scope: {:?},\n children: [],\n",
        Some(format!("Scope {{\n  name: {}\n  version: {}\n  attributes: {}\n }}", "sc", "1", "{}"))
    );
    let head = "Span {\n name: p\n, span_id: [1a]\n, trace_id: [7]\n, parent_span_id: []\n, start_time: 1970-01-01 00:00:00.000\n, end_time: 1970-01-01 00:00:00.002\n, attributes: {\n k = v,}\n events: [\n  event e 1970-01-01 00:00:00.001\n attributes: {}],\n node: Node {\n  name: n\n  attributes: {}\n },\n scope: None,\n";
    assert_eq!(stringify_span(&parent, false), head);
    assert_eq!(stringify_span(&parent, true), format!("{} children: [\n  {}],\n", head, child_text));
}

#[test]
fn test_display_modes_apply_their_structured_modes() {
    let modes = get_all_modes();
    let names: Vec<&str> = modes.iter().map(|m| m.name.as_str()).collect();
    assert_eq!(names, vec!["Chain", "Everything", "Block Production"]);
    assert!(modes[1].transformation(vec![]).is_empty());
}

fn tree(name: &str, n: &Rc<Node>, id: u8, collapse: bool, children: Vec<Rc<Span>>) -> Rc<Span> {
    let mut s = record(name, n, 0, S, id, None, vec![]);
    s.collapse_children = collapse;
    s.children = children;
    Rc::new(s)
}

fn names_of(spans: &[Rc<Span>]) -> Vec<String> {
    spans
        .iter()
        .map(|s| {
            if s.children.is_empty() {
                s.name.clone()
            } else {
                format!("{}({})", s.name, names_of(&s.children).join(","))
            }
        })
        .collect()
}

#[test]
fn test_display_collapses_all_but_highlighted() {
    let n = node("n");
    let deep = tree("deep", &n, 4, false, vec![tree("leaf", &n, 5, false, vec![])]);
    let mid = tree("mid", &n, 3, false, vec![deep]);
    let root = tree("root", &n, 1, true, vec![mid, tree("other", &n, 2, false, vec![])]);
    let plain = display_forest(&[root.clone()], &vec![]);
    assert_eq!(names_of(&plain), vec!["root"]);
    let shown = display_forest(&[root.clone()], &vec![vec![4]]);
    assert_eq!(names_of(&shown), vec!["root(deep(leaf))"]);
    let open = tree("open", &n, 6, false, vec![tree("a", &n, 7, false, vec![]), tree("b", &n, 8, false, vec![])]);
    assert_eq!(names_of(&display_forest(&[open], &vec![])), vec!["open(a,b)"]);
}

#[test]
fn test_spans_to_highlight_once_each() {
    let n = node("n");
    let a = span("a", &n, 0, S, 1);
    let b = span("b", &n, 2 * S, 3 * S, 2);
    let c = span("c", &n, 4 * S, 5 * S, 3);
    let links = vec![
        DependencyLink { source_spans: vec![a.clone()], target_spans: vec![b.clone()], delay_nanos: S },
        DependencyLink { source_spans: vec![b.clone(), a.clone()], target_spans: vec![c.clone()], delay_nanos: S },
    ];
    let hl = spans_to_highlight(&links);
    let ids: Vec<Vec<u8>> = hl.iter().map(|s| s.span_id.clone()).collect();
    assert_eq!(ids, vec![vec![1], vec![2], vec![3]]);
}

#[test]
fn test_highlight_time_window() {
    let n = node("n");
    assert_eq!(highlight_time_window(&vec![]), None);
    let spans = vec![span("a", &n, 10 * S, 11 * S, 1), span("b", &n, 12 * S, 20 * S, 2)];
    // capped at 3 s after the first start, then widened by a fifth of 3 s on each side
    assert_eq!(highlight_time_window(&spans), Some((10 * S - 600_000_000, 13 * S + 600_000_000)));
    assert_eq!(selection_after_highlight((0, 100 * S), (10 * S, 13 * S)), (0, 100 * S));
    assert_eq!(selection_after_highlight((11 * S, 100 * S), (10 * S, 13 * S)), (10 * S, 13 * S));
}

#[test]
fn test_new_items_for_editing() {
    let m = new_mode();
    assert_eq!(m.name, "New Mode");
    assert!(!m.is_builtin);
    assert_eq!(m.span_rules.len(), 1);
    assert_eq!(m.span_rules[0].selector.span_name_condition.value, "MySpan");
    let f = new_filter();
    assert_eq!(f.name, "New Filter");
    assert!(f.is_editable);
    assert!(f.should_show_span("something"));
    assert!(!f.should_show_span("other"));
    let r1 = new_relation();
    let r2 = new_relation();
    assert_eq!(r1.name, "New relation");
    assert_eq!(r1.max_time_diff, Some(10_000_000_000));
    assert_ne!(r1.id, r2.id);
    for r in [&r1, &r2] {
        assert_eq!(r.id.high & 0xF000, 0x4000);
        assert_eq!(r.id.low >> 62, 2);
    }
    let v = new_view();
    assert_eq!(v.name, "New Relation View");
    assert!(v.enabled_relations.is_empty());
}

#[test]
fn test_attributes_behave_as_a_map() {
    let mut attrs = Vec::new();
    insert_attribute(&mut attrs, "b".to_string(), AttrValue::Int(1));
    insert_attribute(&mut attrs, "a".to_string(), AttrValue::Int(2));
    insert_attribute(&mut attrs, "b".to_string(), AttrValue::Int(3));
    let keys: Vec<&str> = attrs.iter().map(|kv| kv.key.as_str()).collect();
    assert_eq!(keys, vec!["a", "b"]);
    assert!(matches!(traviz::types::get_attribute(&attrs, "b"), Some(AttrValue::Int(3))));
    assert!(matches!(traviz::types::get_attribute(&attrs, "a"), Some(AttrValue::Int(2))));
    assert!(traviz::types::get_attribute(&attrs, "c").is_none());
}

fn double(value: f64) -> AttrValue {
    AttrValue::Double(value.to_bits(), format!("{}", value))
}

#[test]
fn test_doubles_compare_as_f64() {
    assert!(values_match(&double(0.0), &double(-0.0)));
    assert!(values_match(&double(2.5), &double(2.5)));
    assert!(!values_match(&double(f64::NAN), &double(f64::NAN)));
    assert!(!values_match(&double(1.0), &double(2.0)));
    assert!(!values_match(&double(1.0), &AttrValue::Int(1)));
    let list_a = AttrValue::Array(vec![double(0.0), AttrValue::Str("x".to_string())]);
    let list_b = AttrValue::Array(vec![double(-0.0), AttrValue::Str("x".to_string())]);
    assert!(values_match(&list_a, &list_b));
}

fn links_with_linking_values(source_value: f64, target_value: f64) -> usize {
    let n = node("n");
    let source = Rc::new(record("source", &n, 0, S, 1, None, attrs_of(vec![("w", double(source_value))])));
    let target = Rc::new(record("target", &n, 2 * S, 3 * S, 2, None, attrs_of(vec![("w", double(target_value))])));
    let spans = vec![source, target];
    let mut modal = AnalyzeDependencyModal::new();
    modal.update_span_list(&spans);
    modal.set_source_span_name(Some("source".to_string()));
    modal.set_target_span_name(Some("target".to_string()));
    modal.set_linking_attribute("w".to_string());
    modal.analyze_dependencies();
    modal.get_links_for_node("n").map(|links| links.len()).unwrap_or(0)
}

#[test]
fn test_linking_by_double_attribute() {
    assert_eq!(links_with_linking_values(-0.0, 0.0), 1);
    assert_eq!(links_with_linking_values(1.5, 1.5), 1);
    assert_eq!(links_with_linking_values(f64::NAN, f64::NAN), 0);
}

#[test]
fn test_commit_threshold_text() {
    let mut modal = AnalyzeDependencyModal::new();
    modal.set_threshold_text("5".to_string());
    modal.commit_threshold_text();
    assert_eq!(modal.get_threshold(), 5);
    modal.set_threshold_text("0".to_string());
    modal.commit_threshold_text();
    assert_eq!(modal.get_threshold(), 1);
    modal.set_threshold_text("many".to_string());
    modal.commit_threshold_text();
    assert_eq!(modal.get_threshold(), 1);
    modal.set_threshold_text("7".to_string());
    modal.commit_threshold_text();
    assert_eq!(modal.get_threshold(), 7);
}

#[test]
fn test_spans_to_render_adds_roots_of_highlighted() {
    let n = node("n");
    let child = Rc::new(record("child", &n, S, 2 * S, 2, Some(1), vec![]));
    let mut root_a = record("a", &n, 0, 3 * S, 1, None, vec![]);
    root_a.children = vec![child.clone()];
    let root_a = Rc::new(root_a);
    let root_b = span("b", &n, 4 * S, 5 * S, 3);
    let root_c = span("c", &n, 6 * S, 7 * S, 4);
    let roots = vec![root_a.clone(), root_b.clone(), root_c.clone()];
    let displayed = vec![root_b.clone()];
    // The child brings in its root once; a displayed root is not added again; an unknown span adds nothing.
    let highlighted = vec![child.clone(), root_b.clone(), child.clone(), span("x", &n, 0, S, 9), root_c.clone()];
    let out = traviz::display::spans_to_render(&displayed, &roots, &highlighted);
    let names: Vec<&str> = out.iter().map(|s| s.name.as_str()).collect();
    assert_eq!(names, vec!["b", "a", "c"]);
    assert_eq!(traviz::display::spans_to_render(&displayed, &roots, &vec![]).len(), 1);
}

#[test]
fn test_median_values_do_not_depend_on_order() {
    let mut a = Statistics::new();
    let mut b = Statistics::new();
    for v in [5u64, 1, 4, 2, 3, 6] {
        a.add_value(v);
    }
    for v in [6u64, 3, 2, 5, 4, 1] {
        b.add_value(v);
    }
    assert_eq!(a.median_values(), Some((3, 4)));
    assert_eq!(a.median_values(), b.median_values());
}

#[test]
fn test_span_durations_keep_their_sign() {
    let n = node("n");
    let normal = span("work", &n, S, 3 * S, 1);
    let reversed = span("work", &n, 5 * S, 4 * S, 2);
    let mut modal = traviz::analyze_span::AnalyzeSpanModal::default();
    modal.open(&[normal.clone(), reversed.clone()]);
    modal.perform_span_analysis("work");
    let result = modal.span_analysis().expect("spans found");
    let stats = &result.overall_stats;
    assert_eq!(stats.duration_stats.data_points, vec![2_000_000_000i128, -1_000_000_000]);
    assert_eq!(stats.duration_stats.min, -1_000_000_000);
    assert_eq!(stats.duration_stats.max, 2_000_000_000);
    assert_eq!(stats.min_span.as_ref().map(|s| s.span_id.clone()), Some(vec![2]));
    assert_eq!(stats.max_span.as_ref().map(|s| s.span_id.clone()), Some(vec![1]));
    assert_eq!(stats.duration_stats.median_values(), Some((-1_000_000_000, 2_000_000_000)));
}

#[test]
fn test_relations_select_spans_by_recorded_name() {
    let n = node("n");
    let mut from = record("a", &n, 0, S, 1, None, vec![]);
    from.name = "a H=7".to_string();
    let mut to = record("b", &n, 2 * S, 3 * S, 2, None, vec![]);
    to.name = "b H=7".to_string();
    let spans = vec![Rc::new(from), Rc::new(to)];
    let rels = vec![relation(1, "a", "b", None, MatchType::MatchAll, vec![])];
    let found = find_relations(&rels, &view_of(vec![rels[0].id]), &spans);
    assert_eq!(found.len(), 1);
    assert_eq!(found[0].from_span.span_id, vec![1]);
    let renamed = vec![relation(2, "a H=7", "b H=7", None, MatchType::MatchAll, vec![])];
    assert!(find_relations(&renamed, &view_of(vec![renamed[0].id]), &spans).is_empty());
}
