//! Dependency analysis between two kinds of spans.
//!
//! In N-to-1 mode, each target span is linked to a number of source spans that ended before it
//! started; in 1-to-N mode, each source span is linked to a number of target spans that started
//! after it ended. A span takes part in at most one link on its side. Links can require that
//! source and target agree on some attributes, and can be formed group by group.

use vstd::prelude::*;
use std::rc::Rc;

use crate::analyze_utils::{
    analysis_spans, collect_matching_spans, named_spans, names_cover, process_spans_for_analysis, rc_clone,
    seq_max, seq_min, sort_by_start, sort_spans_by_start, sorted_by_lowercase, span_ids, lemma_span_ids, Statistics,
    lemma_sort_by_start_sorted,
};
use crate::text::{
    chars_of, copy_string, find_chars, find_seq, first_index, first_index_of, last_index, last_index_of, owned, parse_nat,
    parse_usize, push_str, split_chars, split_seq, starts_with_seq, string_of, trim, trim_chars, trim_end_char,
    trim_end_chars,
};
use crate::types::{attr_get, get_attribute, value_matches, values_match, AttrValue, Span};

verus! {

broadcast use vstd::std_specs::vec::group_vec_axioms;

#[derive(Debug, Clone, Copy, PartialEq, Eq, Structural)]
pub enum SourceScope {
    SameNode,
    AllNodes,
}

/// Defines the strategy for selecting source spans when multiple are available.
#[derive(Debug, Clone, Copy, PartialEq, Eq, Structural)]
pub enum SourceTimingStrategy {
    EarliestFirst,
    LatestFirst,
}

/// Defines how the link delay is calculated when source spans are grouped.
#[derive(Debug, Clone, Copy, PartialEq, Eq, Structural)]
pub enum GroupAggregationStrategy {
    /// Link delay is based on the latest end time among all selected source spans from all groups.
    WaitForLastGroup,
    /// Link delay is based on the earliest end time among the latest selected source spans from each respective group.
    FirstCompletedGroup,
}

/// Defines the analysis cardinality mode.
#[derive(Debug, Clone, Copy, PartialEq, Eq, Structural)]
pub enum AnalysisCardinality {
    /// N-to-1: Find N source spans for each target span.
    NToOne,
    /// 1-to-N: Find N target spans for each source span.
    OneToN,
}

impl Default for SourceScope {
    fn default() -> (r: SourceScope)
        ensures
            r == SourceScope::SameNode,
    {
        SourceScope::SameNode
    }
}

impl Default for SourceTimingStrategy {
    fn default() -> (r: SourceTimingStrategy)
        ensures
            r == SourceTimingStrategy::EarliestFirst,
    {
        SourceTimingStrategy::EarliestFirst
    }
}

impl Default for GroupAggregationStrategy {
    fn default() -> (r: GroupAggregationStrategy)
        ensures
            r == GroupAggregationStrategy::FirstCompletedGroup,
    {
        GroupAggregationStrategy::FirstCompletedGroup
    }
}

impl Default for AnalysisCardinality {
    fn default() -> (r: AnalysisCardinality)
        ensures
            r == AnalysisCardinality::NToOne,
    {
        AnalysisCardinality::NToOne
    }
}

/// How a scope is written.
pub open spec fn scope_text(s: SourceScope) -> Seq<char> {
    match s {
        SourceScope::SameNode => "self"@,
        SourceScope::AllNodes => "all nodes"@,
    }
}

/// How a timing strategy is written.
pub open spec fn timing_text(t: SourceTimingStrategy) -> Seq<char> {
    match t {
        SourceTimingStrategy::EarliestFirst => "Earliest First"@,
        SourceTimingStrategy::LatestFirst => "Latest First"@,
    }
}

/// How a group aggregation strategy is written.
pub open spec fn aggregation_text(g: GroupAggregationStrategy) -> Seq<char> {
    match g {
        GroupAggregationStrategy::WaitForLastGroup => "Wait For Last Group"@,
        GroupAggregationStrategy::FirstCompletedGroup => "First Completed Group"@,
    }
}

/// How a cardinality is written.
pub open spec fn cardinality_text(c: AnalysisCardinality) -> Seq<char> {
    match c {
        AnalysisCardinality::NToOne => "N-to-1"@,
        AnalysisCardinality::OneToN => "1-to-N"@,
    }
}

impl SourceScope {
    /// The scope as it is written: "self" or "all nodes".
    pub fn to_text(&self) -> (r: String)
        ensures
            r@ == scope_text(*self),
    {
        match self {
            SourceScope::SameNode => owned("self"),
            SourceScope::AllNodes => owned("all nodes"),
        }
    }
}

impl SourceTimingStrategy {
    /// The strategy as it is written: "Earliest First" or "Latest First".
    pub fn to_text(&self) -> (r: String)
        ensures
            r@ == timing_text(*self),
    {
        match self {
            SourceTimingStrategy::EarliestFirst => owned("Earliest First"),
            SourceTimingStrategy::LatestFirst => owned("Latest First"),
        }
    }
}

impl GroupAggregationStrategy {
    /// The strategy as it is written: "Wait For Last Group" or "First Completed Group".
    pub fn to_text(&self) -> (r: String)
        ensures
            r@ == aggregation_text(*self),
    {
        match self {
            GroupAggregationStrategy::WaitForLastGroup => owned("Wait For Last Group"),
            GroupAggregationStrategy::FirstCompletedGroup => owned("First Completed Group"),
        }
    }
}

impl AnalysisCardinality {
    /// The cardinality as it is written: "N-to-1" or "1-to-N".
    pub fn to_text(&self) -> (r: String)
        ensures
            r@ == cardinality_text(*self),
    {
        match self {
            AnalysisCardinality::NToOne => owned("N-to-1"),
            AnalysisCardinality::OneToN => owned("1-to-N"),
        }
    }
}

/// The attribute names listed, comma separated, in a linking attribute, each trimmed.
pub open spec fn linking_names(linking: Seq<char>) -> Seq<Seq<char>> {
    split_seq(linking, ',').map_values(|p: Seq<char>| trim(p))
}

/// Both spans have the named attribute, with equal values (doubles compared as `f64`s); an
/// empty name asks nothing.
pub open spec fn attribute_links(s: Span, t: Span, name: Seq<char>) -> bool {
    name.len() == 0 || match (attr_get(s.attributes@, name), attr_get(t.attributes@, name)) {
        (Some(a), Some(b)) => value_matches(a, b),
        _ => false,
    }
}

/// The two spans agree on every attribute named in the linking attribute.
pub open spec fn spans_linked(linking: Seq<char>, s: Span, t: Span) -> bool {
    forall|i: int| 0 <= i < linking_names(linking).len() ==> attribute_links(s, t, #[trigger] linking_names(linking)[i])
}

/// The trimmed attribute names of a linking attribute.
fn linking_name_list(linking: &str) -> (r: Vec<String>)
    ensures
        r@.len() == linking_names(linking@).len(),
        forall|i: int| 0 <= i < r@.len() ==> #[trigger] r@[i]@ == linking_names(linking@)[i],
{
    let cs = chars_of(linking);
    let pieces = split_chars(cs.as_slice(), ',');
    let mut names: Vec<String> = Vec::new();
    for i in 0..pieces.len()
        invariant
            pieces@.len() == split_seq(cs@, ',').len(),
            cs@ == linking@,
            forall|j: int| 0 <= j < pieces@.len() ==> #[trigger] pieces@[j]@ == split_seq(cs@, ',')[j],
            names@.len() == i,
            forall|j: int| 0 <= j < i ==> #[trigger] names@[j]@ == trim(split_seq(cs@, ',')[j]),
    {
        let t = trim_chars(pieces[i].as_slice());
        names.push(string_of(t.as_slice()));
    }
    names
}

/// Whether the two spans agree on the named attributes.
fn spans_match_linking_attributes(names: &Vec<String>, source_span: &Span, target_span: &Span) -> (r: bool)
    ensures
        r == forall|i: int| 0 <= i < names@.len() ==> attribute_links(*source_span, *target_span, #[trigger] names@[i]@),
{
    for i in 0..names.len()
        invariant
            forall|j: int| 0 <= j < i ==> attribute_links(*source_span, *target_span, #[trigger] names@[j]@),
    {
        let name = &names[i];
        if !name.as_str().is_empty() {
            let a = get_attribute(&source_span.attributes, name.as_str());
            let b = get_attribute(&target_span.attributes, name.as_str());
            match (a, b) {
                (Some(x), Some(y)) => {
                    if !values_match(x, y) {
                        return false;
                    }
                },
                _ => {
                    return false;
                },
            }
        } else {
            assert(name@.len() == 0);
        }
    }
    true
}

/// The ids held in a list of ids.
pub open spec fn id_view(v: Seq<Vec<u8>>) -> Seq<Seq<u8>> {
    v.map_values(|x: Vec<u8>| x@)
}

/// A source can serve the target: it is not used yet, it ended by the time the target started,
/// and it agrees with the target on the linking attributes.
pub open spec fn source_eligible(linking: Seq<char>, s: Span, used: Seq<Seq<u8>>, t: Span) -> bool {
    &&& !used.contains(s.span_id@)
    &&& s.end_time <= t.start_time
    &&& spans_linked(linking, s, t)
}

/// A target can follow the source: it is not used yet, it started once the source had ended,
/// and it agrees with the source on the linking attributes.
pub open spec fn target_eligible(linking: Seq<char>, t: Span, used: Seq<Seq<u8>>, s: Span) -> bool {
    &&& !used.contains(t.span_id@)
    &&& t.start_time >= s.end_time
    &&& spans_linked(linking, s, t)
}

/// The candidate sources that can serve the target, in order.
pub open spec fn eligible_sources(linking: Seq<char>, cands: Seq<Rc<Span>>, used: Seq<Seq<u8>>, t: Span) -> Seq<Rc<Span>>
    decreases cands.len(),
{
    if cands.len() == 0 {
        Seq::empty()
    } else {
        let r = eligible_sources(linking, cands.drop_last(), used, t);
        if source_eligible(linking, *cands.last(), used, t) {
            r.push(cands.last())
        } else {
            r
        }
    }
}

/// The candidate targets that can follow the source, in order.
pub open spec fn eligible_targets(linking: Seq<char>, cands: Seq<Rc<Span>>, used: Seq<Seq<u8>>, s: Span) -> Seq<Rc<Span>>
    decreases cands.len(),
{
    if cands.len() == 0 {
        Seq::empty()
    } else {
        let r = eligible_targets(linking, cands.drop_last(), used, s);
        if target_eligible(linking, *cands.last(), used, s) {
            r.push(cands.last())
        } else {
            r
        }
    }
}

/// The linking attribute, its names and the used ids that an eligibility search works from.
spec fn search_ready(linking: Seq<char>, names: Seq<String>, used: Seq<Vec<u8>>) -> bool {
    &&& names.len() == linking_names(linking).len()
    &&& forall|i: int| 0 <= i < names.len() ==> #[trigger] names[i]@ == linking_names(linking)[i]
}

proof fn lemma_names_link(linking: Seq<char>, names: Seq<String>, s: &Span, t: &Span)
    requires
        names.len() == linking_names(linking).len(),
        forall|i: int| 0 <= i < names.len() ==> #[trigger] names[i]@ == linking_names(linking)[i],
    ensures
        spans_linked(linking, *s, *t) == forall|i: int| 0 <= i < names.len() ==> attribute_links(*s, *t, #[trigger] names[i]@),
{
    if spans_linked(linking, *s, *t) {
        assert forall|i: int| 0 <= i < names.len() implies attribute_links(*s, *t, #[trigger] names[i]@) by {
            assert(attribute_links(*s, *t, linking_names(linking)[i]));
        }
    }
    if forall|i: int| 0 <= i < names.len() ==> attribute_links(*s, *t, #[trigger] names[i]@) {
        assert forall|i: int| 0 <= i < linking_names(linking).len() implies attribute_links(*s, *t, #[trigger] linking_names(linking)[i]) by {
            assert(attribute_links(*s, *t, names[i]@));
        }
    }
}

/// The candidate sources that can serve `target`.
fn collect_eligible_sources(
    linking: Ghost<Seq<char>>,
    names: &Vec<String>,
    cands: &Vec<Rc<Span>>,
    used: &Vec<Vec<u8>>,
    target: &Span,
) -> (r: Vec<Rc<Span>>)
    requires
        search_ready(linking@, names@, used@),
    ensures
        r@ == eligible_sources(linking@, cands@, id_view(used@), *target),
{
    let mut r: Vec<Rc<Span>> = Vec::new();
    for i in 0..cands.len()
        invariant
            search_ready(linking@, names@, used@),
            r@ == eligible_sources(linking@, cands@.take(i as int), id_view(used@), *target),
    {
        assert(cands@.take(i + 1).drop_last() =~= cands@.take(i as int));
        let s = &cands[i];
        proof {
            lemma_names_link(linking@, names@, &**s, target);
        }
        if !crate::analyze_utils::contains_id(used, &s.span_id) && s.end_time <= target.start_time
            && spans_match_linking_attributes(names, s, target) {
            r.push(rc_clone(s));
        }
    }
    assert(cands@.take(cands@.len() as int) =~= cands@);
    r
}

/// The candidate targets that can follow `source`.
fn collect_eligible_targets(
    linking: Ghost<Seq<char>>,
    names: &Vec<String>,
    cands: &Vec<Rc<Span>>,
    used: &Vec<Vec<u8>>,
    source: &Span,
) -> (r: Vec<Rc<Span>>)
    requires
        search_ready(linking@, names@, used@),
    ensures
        r@ == eligible_targets(linking@, cands@, id_view(used@), *source),
{
    let mut r: Vec<Rc<Span>> = Vec::new();
    for i in 0..cands.len()
        invariant
            search_ready(linking@, names@, used@),
            r@ == eligible_targets(linking@, cands@.take(i as int), id_view(used@), *source),
    {
        assert(cands@.take(i + 1).drop_last() =~= cands@.take(i as int));
        let t = &cands[i];
        proof {
            lemma_names_link(linking@, names@, source, &**t);
        }
        if !crate::analyze_utils::contains_id(used, &t.span_id) && t.start_time >= source.end_time
            && spans_match_linking_attributes(names, source, t) {
            r.push(rc_clone(t));
        }
    }
    assert(cands@.take(cands@.len() as int) =~= cands@);
    r
}

/// At most `k` spans: the first ones, or the last ones, as the strategy says.
pub open spec fn select_spans(strategy: SourceTimingStrategy, spans: Seq<Rc<Span>>, k: nat) -> Seq<Rc<Span>> {
    let n = if k < spans.len() { k } else { spans.len() };
    match strategy {
        SourceTimingStrategy::EarliestFirst => spans.take(n as int),
        SourceTimingStrategy::LatestFirst => spans.skip(spans.len() - n),
    }
}

/// Selects at most `num_to_take` spans, the earliest or the latest as the strategy says.
fn select_spans_for_link_formation(strategy: SourceTimingStrategy, available_spans: &Vec<Rc<Span>>, num_to_take: usize) -> (r: Vec<Rc<Span>>)
    ensures
        r@ == select_spans(strategy, available_spans@, num_to_take as nat),
{
    let len = available_spans.len();
    let n = if num_to_take < len { num_to_take } else { len };
    let from: usize = match strategy {
        SourceTimingStrategy::EarliestFirst => 0,
        SourceTimingStrategy::LatestFirst => len - n,
    };
    let to: usize = match strategy {
        SourceTimingStrategy::EarliestFirst => n,
        SourceTimingStrategy::LatestFirst => len,
    };
    let mut r: Vec<Rc<Span>> = Vec::new();
    for i in from..to
        invariant
            from <= to <= available_spans@.len(),
            r@ == available_spans@.subrange(from as int, i as int),
    {
        r.push(rc_clone(&available_spans[i]));
        assert(available_spans@.subrange(from as int, i + 1) =~= available_spans@.subrange(from as int, i as int).push(available_spans@[i as int]));
    }
    assert(available_spans@.take(n as int) =~= available_spans@.subrange(0, n as int));
    assert(available_spans@.skip(len - n) =~= available_spans@.subrange(len - n, len as int));
    r
}

/// The group of a span: the text of its group attribute when that is a string.
pub open spec fn group_key(s: Span, attr: Seq<char>) -> Option<Seq<char>> {
    match attr_get(s.attributes@, attr) {
        Some(AttrValue::Str(v)) => Some(v@),
        _ => None,
    }
}

/// The distinct groups of the spans, in the order they first appear.
pub open spec fn group_keys(spans: Seq<Rc<Span>>, attr: Seq<char>) -> Seq<Seq<char>>
    decreases spans.len(),
{
    if spans.len() == 0 {
        Seq::empty()
    } else {
        let r = group_keys(spans.drop_last(), attr);
        match group_key(*spans.last(), attr) {
            Some(k) => if r.contains(k) { r } else { r.push(k) },
            None => r,
        }
    }
}

/// The spans of one group, in order.
pub open spec fn group_members(spans: Seq<Rc<Span>>, attr: Seq<char>, key: Seq<char>) -> Seq<Rc<Span>>
    decreases spans.len(),
{
    if spans.len() == 0 {
        Seq::empty()
    } else {
        let r = group_members(spans.drop_last(), attr, key);
        if group_key(*spans.last(), attr) == Some(key) {
            r.push(spans.last())
        } else {
            r
        }
    }
}

/// Every group of the spans has at least `k` members.
pub open spec fn groups_meet_threshold(spans: Seq<Rc<Span>>, attr: Seq<char>, k: nat) -> bool {
    forall|i: int| 0 <= i < group_keys(spans, attr).len()
        ==> #[trigger] group_members(spans, attr, group_keys(spans, attr)[i]).len() >= k
}

/// The selections from each of the listed groups, one after the other.
pub open spec fn grouped_selection(
    strategy: SourceTimingStrategy,
    spans: Seq<Rc<Span>>,
    attr: Seq<char>,
    keys: Seq<Seq<char>>,
    k: nat,
) -> Seq<Rc<Span>>
    decreases keys.len(),
{
    if keys.len() == 0 {
        Seq::empty()
    } else {
        grouped_selection(strategy, spans, attr, keys.drop_last(), k)
            + select_spans(strategy, group_members(spans, attr, keys.last()), k)
    }
}

/// The spans that form a link out of the eligible ones, if a link is formed.
/// Without grouping, `k` of them are taken when there are that many; with grouping, `k` are
/// taken from each group, when every group has that many.
pub open spec fn form_selection(
    strategy: SourceTimingStrategy,
    eligible: Seq<Rc<Span>>,
    group_by: Seq<char>,
    k: nat,
) -> Option<Seq<Rc<Span>>> {
    if k == 0 {
        None
    } else if group_by.len() == 0 {
        if eligible.len() >= k {
            Some(select_spans(strategy, eligible, k))
        } else {
            None
        }
    } else {
        let keys = group_keys(eligible, group_by);
        if keys.len() > 0 && groups_meet_threshold(eligible, group_by, k) {
            Some(grouped_selection(strategy, eligible, group_by, keys, k))
        } else {
            None
        }
    }
}

/// The group of a span, when its group attribute is a string.
fn group_key_of<'a>(s: &'a Span, attr: &str) -> (r: Option<&'a String>)
    ensures
        match r {
            Some(v) => group_key(*s, attr@) == Some(v@),
            None => group_key(*s, attr@) is None,
        },
{
    match get_attribute(&s.attributes, attr) {
        Some(AttrValue::Str(v)) => Some(v),
        _ => None,
    }
}

fn contains_key(keys: &Vec<String>, key: &String) -> (r: bool)
    ensures
        r == keys@.map_values(|x: String| x@).contains(key@),
{
    let ghost view = keys@.map_values(|x: String| x@);
    for i in 0..keys.len()
        invariant
            view == keys@.map_values(|x: String| x@),
            forall|j: int| 0 <= j < i ==> keys@[j]@ != key@,
    {
        if keys[i].eq(key) {
            assert(view[i as int] == key@);
            return true;
        }
    }
    assert(!view.contains(key@)) by {
        if view.contains(key@) {
            let k = choose|k: int| 0 <= k < view.len() && view[k] == key@;
            assert(keys@[k]@ == key@);
        }
    }
    false
}

/// The distinct groups of the spans, in order of first appearance.
fn collect_group_keys(spans: &Vec<Rc<Span>>, attr: &str) -> (r: Vec<String>)
    ensures
        r@.map_values(|x: String| x@) == group_keys(spans@, attr@),
{
    let mut keys: Vec<String> = Vec::new();
    for i in 0..spans.len()
        invariant
            keys@.map_values(|x: String| x@) == group_keys(spans@.take(i as int), attr@),
    {
        assert(spans@.take(i + 1).drop_last() =~= spans@.take(i as int));
        match group_key_of(&spans[i], attr) {
            Some(k) => {
                if !contains_key(&keys, k) {
                    keys.push(k.clone());
                    assert(keys@.map_values(|x: String| x@) =~= group_keys(spans@.take(i as int), attr@).push(k@));
                }
            },
            None => {},
        }
    }
    assert(spans@.take(spans@.len() as int) =~= spans@);
    keys
}

/// The members of one group.
fn collect_group_members(spans: &Vec<Rc<Span>>, attr: &str, key: &String) -> (r: Vec<Rc<Span>>)
    ensures
        r@ == group_members(spans@, attr@, key@),
{
    let mut r: Vec<Rc<Span>> = Vec::new();
    for i in 0..spans.len()
        invariant
            r@ == group_members(spans@.take(i as int), attr@, key@),
    {
        assert(spans@.take(i + 1).drop_last() =~= spans@.take(i as int));
        match group_key_of(&spans[i], attr) {
            Some(k) => {
                if k.eq(key) {
                    r.push(rc_clone(&spans[i]));
                }
            },
            None => {},
        }
    }
    assert(spans@.take(spans@.len() as int) =~= spans@);
    r
}

/// The spans that form a link out of the eligible ones, if a link is formed.
fn form_link_selection(
    strategy: SourceTimingStrategy,
    eligible: &Vec<Rc<Span>>,
    group_by: &String,
    k: usize,
) -> (r: Option<Vec<Rc<Span>>>)
    ensures
        match r {
            Some(v) => form_selection(strategy, eligible@, group_by@, k as nat) == Some(v@),
            None => form_selection(strategy, eligible@, group_by@, k as nat) is None,
        },
{
    if k == 0 {
        return None;
    }
    if group_by.as_str().is_empty() {
        if eligible.len() >= k {
            return Some(select_spans_for_link_formation(strategy, eligible, k));
        } else {
            return None;
        }
    }
    let keys = collect_group_keys(eligible, group_by.as_str());
    let ghost kv = group_keys(eligible@, group_by@);
    assert(keys@.len() == kv.len());
    if keys.len() == 0 {
        assert(kv.len() == 0);
        assert(group_by@.len() != 0);
        return None;
    }
    let mut selected: Vec<Rc<Span>> = Vec::new();
    for i in 0..keys.len()
        invariant
            k > 0,
            group_by@.len() != 0,
            kv.len() > 0,
            kv == group_keys(eligible@, group_by@),
            keys@.map_values(|x: String| x@) == kv,
            forall|j: int| 0 <= j < i ==> #[trigger] group_members(eligible@, group_by@, kv[j]).len() >= k,
            selected@ == grouped_selection(strategy, eligible@, group_by@, kv.take(i as int), k as nat),
    {
        assert(keys@[i as int]@ == kv[i as int]);
        let members = collect_group_members(eligible, group_by.as_str(), &keys[i]);
        if members.len() < k {
            assert(!groups_meet_threshold(eligible@, group_by@, k as nat));
            return None;
        }
        let mut part = select_spans_for_link_formation(strategy, &members, k);
        assert(kv.take(i + 1).drop_last() =~= kv.take(i as int));
        selected.append(&mut part);
    }
    assert(kv.take(kv.len() as int) =~= kv);
    assert(groups_meet_threshold(eligible@, group_by@, k as nat)) by {
        assert forall|j: int| 0 <= j < group_keys(eligible@, group_by@).len()
            implies #[trigger] group_members(eligible@, group_by@, group_keys(eligible@, group_by@)[j]).len() >= k by {
            assert(group_members(eligible@, group_by@, kv[j]).len() >= k);
        }
    }
    Some(selected)
}

/// The latest end among the spans, or zero for none.
pub open spec fn latest_end(spans: Seq<Rc<Span>>) -> int
    decreases spans.len(),
{
    if spans.len() == 0 {
        0
    } else {
        let m = latest_end(spans.drop_last());
        if spans.last().end_time > m { spans.last().end_time as int } else { m }
    }
}

/// The latest start among the spans, or zero for none.
pub open spec fn latest_start(spans: Seq<Rc<Span>>) -> int
    decreases spans.len(),
{
    if spans.len() == 0 {
        0
    } else {
        let m = latest_start(spans.drop_last());
        if spans.last().start_time > m { spans.last().start_time as int } else { m }
    }
}

/// The earliest of the latest ends of the selections from the listed groups.
pub open spec fn first_completed_end(
    strategy: SourceTimingStrategy,
    spans: Seq<Rc<Span>>,
    attr: Seq<char>,
    keys: Seq<Seq<char>>,
    k: nat,
) -> int
    decreases keys.len(),
{
    if keys.len() == 0 {
        u64::MAX as int
    } else {
        let m = first_completed_end(strategy, spans, attr, keys.drop_last(), k);
        let e = latest_end(select_spans(strategy, group_members(spans, attr, keys.last()), k));
        if e < m { e } else { m }
    }
}

fn latest_end_of(spans: &Vec<Rc<Span>>) -> (r: u64)
    ensures
        r == latest_end(spans@),
{
    let mut m: u64 = 0;
    for i in 0..spans.len()
        invariant
            m == latest_end(spans@.take(i as int)),
    {
        assert(spans@.take(i + 1).drop_last() =~= spans@.take(i as int));
        if spans[i].end_time > m {
            m = spans[i].end_time;
        }
    }
    assert(spans@.take(spans@.len() as int) =~= spans@);
    m
}

fn latest_start_of(spans: &Vec<Rc<Span>>) -> (r: u64)
    ensures
        r == latest_start(spans@),
{
    let mut m: u64 = 0;
    for i in 0..spans.len()
        invariant
            m == latest_start(spans@.take(i as int)),
    {
        assert(spans@.take(i + 1).drop_last() =~= spans@.take(i as int));
        if spans[i].start_time > m {
            m = spans[i].start_time;
        }
    }
    assert(spans@.take(spans@.len() as int) =~= spans@);
    m
}

/// The earliest of the latest ends of each group's selection.
fn first_completed_end_of(
    strategy: SourceTimingStrategy,
    eligible: &Vec<Rc<Span>>,
    group_by: &String,
    k: usize,
) -> (r: u64)
    ensures
        r == first_completed_end(strategy, eligible@, group_by@, group_keys(eligible@, group_by@), k as nat),
{
    let keys = collect_group_keys(eligible, group_by.as_str());
    let ghost kv = group_keys(eligible@, group_by@);
    let mut m: u64 = u64::MAX;
    for i in 0..keys.len()
        invariant
            kv == group_keys(eligible@, group_by@),
            keys@.map_values(|x: String| x@) == kv,
            m == first_completed_end(strategy, eligible@, group_by@, kv.take(i as int), k as nat),
    {
        assert(keys@[i as int]@ == kv[i as int]);
        assert(kv.take(i + 1).drop_last() =~= kv.take(i as int));
        let members = collect_group_members(eligible, group_by.as_str(), &keys[i]);
        let part = select_spans_for_link_formation(strategy, &members, k);
        let e = latest_end_of(&part);
        if e < m {
            m = e;
        }
    }
    assert(kv.take(kv.len() as int) =~= kv);
    m
}

/// How links are formed: the attributes that must agree, the attribute that groups the spans on
/// the "many" side, which spans are taken, how a grouped delay is measured, and how many are needed.
pub struct LinkRules {
    pub linking_attribute: String,
    pub group_by_attribute: String,
    pub timing: SourceTimingStrategy,
    pub aggregation: GroupAggregationStrategy,
    pub threshold: usize,
}

/// Structure to represent a dependency link between spans.
pub struct DependencyLink {
    pub source_spans: Vec<Rc<Span>>,
    pub target_spans: Vec<Rc<Span>>,
    /// Nanoseconds between the end of the sources and the start of the targets.
    pub delay_nanos: u64,
}

/// Holds statistics and a list of identified dependency links where the target span resides on a specific node.
pub struct NodeDependencyMetrics {
    pub link_delay_statistics: Statistics,
    pub links: Vec<DependencyLink>,
    pub min_delay_link: Option<DependencyLink>,
    pub max_delay_link: Option<DependencyLink>,
}

/// A link as sources, targets and delay.
pub type LinkV = (Seq<Rc<Span>>, Seq<Rc<Span>>, int);

pub open spec fn link_view(l: DependencyLink) -> LinkV {
    (l.source_spans@, l.target_spans@, l.delay_nanos as int)
}

pub open spec fn links_view(ls: Seq<DependencyLink>) -> Seq<LinkV> {
    ls.map_values(|l: DependencyLink| link_view(l))
}

/// The delays of the links.
pub open spec fn delays_of(links: Seq<LinkV>) -> Seq<u64> {
    links.map_values(|l: LinkV| l.2 as u64)
}

/// The link that the minimum tracking ends on: the last one whose delay was at most all earlier delays.
pub open spec fn min_link_index(d: Seq<u64>) -> int
    decreases d.len(),
{
    if d.len() <= 1 {
        0
    } else if d.last() <= seq_min(d.drop_last()) {
        d.len() - 1
    } else {
        min_link_index(d.drop_last())
    }
}

/// The link that the maximum tracking ends on: the last one whose delay was at least all earlier delays.
pub open spec fn max_link_index(d: Seq<u64>) -> int
    decreases d.len(),
{
    if d.len() <= 1 {
        0
    } else if d.last() >= seq_max(d.drop_last()) {
        d.len() - 1
    } else {
        max_link_index(d.drop_last())
    }
}

/// The links kept as the shortest and the longest: the last link whose delay is the smallest,
/// and the last whose delay is the largest, of all the delays.
pub proof fn lemma_link_extremes(d: Seq<u64>)
    requires
        d.len() > 0,
    ensures
        0 <= min_link_index(d) < d.len(),
        d[min_link_index(d)] == seq_min(d),
        forall|j: int| min_link_index(d) < j < d.len() ==> d[j] > seq_min(d),
        0 <= max_link_index(d) < d.len(),
        d[max_link_index(d)] == seq_max(d),
        forall|j: int| max_link_index(d) < j < d.len() ==> d[j] < seq_max(d),
    decreases d.len(),
{
    crate::analyze_utils::lemma_seq_extremes(d);
    if d.len() > 1 {
        let p = d.drop_last();
        lemma_link_extremes(p);
        crate::analyze_utils::lemma_seq_extremes(p);
        assert forall|i: int| 0 <= i < p.len() implies d[i] == p[i] by {}
        assert(d[d.len() - 1] == d.last());
    } else {
        assert(d[0] == d.last());
        assert(seq_min(d.drop_last()) == u64::MAX);
        assert(seq_max(d.drop_last()) == 0);
    }
}

/// With "first completed group", the time counted is when the first group completes: the
/// latest end of the spans selected from some group, and no later than that of any group.
pub proof fn lemma_first_completed_end(
    strategy: SourceTimingStrategy,
    spans: Seq<Rc<Span>>,
    attr: Seq<char>,
    keys: Seq<Seq<char>>,
    k: nat,
)
    requires
        keys.len() > 0,
    ensures
        forall|g: int| 0 <= g < keys.len() ==> first_completed_end(strategy, spans, attr, keys, k)
            <= latest_end(select_spans(strategy, group_members(spans, attr, #[trigger] keys[g]), k)),
        exists|g: int| 0 <= g < keys.len() && first_completed_end(strategy, spans, attr, keys, k)
            == latest_end(select_spans(strategy, group_members(spans, attr, #[trigger] keys[g]), k)),
    decreases keys.len(),
{
    let p = keys.drop_last();
    let last = keys.len() - 1;
    assert(keys[last] == keys.last());
    if p.len() > 0 {
        lemma_first_completed_end(strategy, spans, attr, p, k);
        assert forall|g: int| 0 <= g < p.len() implies keys[g] == p[g] by {}
        let w = choose|g: int| 0 <= g < p.len() && first_completed_end(strategy, spans, attr, p, k)
            == latest_end(select_spans(strategy, group_members(spans, attr, #[trigger] p[g]), k));
        assert(keys[w] == p[w]);
        let e = latest_end(select_spans(strategy, group_members(spans, attr, keys[last]), k));
        if e < first_completed_end(strategy, spans, attr, p, k) {
            assert(first_completed_end(strategy, spans, attr, keys, k)
                == latest_end(select_spans(strategy, group_members(spans, attr, keys[last]), k)));
        } else {
            assert(first_completed_end(strategy, spans, attr, keys, k)
                == latest_end(select_spans(strategy, group_members(spans, attr, keys[w]), k)));
        }
    } else {
        lemma_latest_times(select_spans(strategy, group_members(spans, attr, keys.last()), k));
        assert(first_completed_end(strategy, spans, attr, keys, k)
            == latest_end(select_spans(strategy, group_members(spans, attr, keys[last]), k)));
    }
}

/// The latest start of spans is at least the start of each, and is the start of one of them when
/// there are any; the latest end likewise for ends.
pub proof fn lemma_latest_times(spans: Seq<Rc<Span>>)
    ensures
        forall|i: int| 0 <= i < spans.len() ==> spans[i].start_time <= latest_start(spans)
            && spans[i].end_time <= latest_end(spans),
        spans.len() > 0 ==> exists|i: int| 0 <= i < spans.len() && latest_start(spans) == spans[i].start_time,
        spans.len() > 0 ==> exists|i: int| 0 <= i < spans.len() && latest_end(spans) == spans[i].end_time,
    decreases spans.len(),
{
    if spans.len() > 0 {
        let p = spans.drop_last();
        lemma_latest_times(p);
        assert forall|i: int| 0 <= i < p.len() implies spans[i] == p[i] by {}
        if p.len() > 0 {
            let a = choose|i: int| 0 <= i < p.len() && latest_start(p) == p[i].start_time;
            let b = choose|i: int| 0 <= i < p.len() && latest_end(p) == p[i].end_time;
            assert(spans[a] == p[a]);
            assert(spans[b] == p[b]);
        }
        assert(spans[spans.len() - 1] == spans.last());
    }
}

proof fn lemma_link_index_bounds(d: Seq<u64>)
    requires
        d.len() > 0,
    ensures
        0 <= min_link_index(d) < d.len(),
        0 <= max_link_index(d) < d.len(),
    decreases d.len(),
{
    if d.len() > 1 {
        lemma_link_index_bounds(d.drop_last());
    }
}

/// The metrics describe the given links: their delays, the links themselves, and the links
/// with the smallest and largest delay.
pub open spec fn metrics_of(m: NodeDependencyMetrics, links: Seq<LinkV>) -> bool {
    &&& links.len() > 0
    &&& links_view(m.links@) == links
    &&& m.link_delay_statistics.wf()
    &&& m.link_delay_statistics.data_points@ == delays_of(links)
    &&& m.min_delay_link matches Some(l) && link_view(l) == links[min_link_index(delays_of(links))]
    &&& m.max_delay_link matches Some(l) && link_view(l) == links[max_link_index(delays_of(links))]
}

/// The distance between two points in time.
pub open spec fn abs_diff(a: int, b: int) -> int {
    if a >= b { a - b } else { b - a }
}

/// Delay of an N-to-1 link: from the end of the sources to the start of the target. With
/// "first completed group", the sources of the group that completed first count.
pub open spec fn n_to_one_delay(r: LinkRules, eligible: Seq<Rc<Span>>, sel: Seq<Rc<Span>>, t: Span) -> int {
    if r.group_by_attribute@.len() > 0 && r.aggregation == GroupAggregationStrategy::FirstCompletedGroup {
        abs_diff(t.start_time as int, first_completed_end(r.timing, eligible, r.group_by_attribute@,
            group_keys(eligible, r.group_by_attribute@), r.threshold as nat))
    } else {
        abs_diff(t.start_time as int, latest_end(sel))
    }
}

/// Used source ids, used target ids, and links formed so far.
pub type RunState = (Seq<Seq<u8>>, Seq<Seq<u8>>, Seq<LinkV>);

/// One target in N-to-1 mode: unless already linked, it is linked to the sources selected from
/// those that can serve it, which are then used.
pub open spec fn n_to_one_step(r: LinkRules, cands: Seq<Rc<Span>>, st: RunState, t: Rc<Span>) -> RunState {
    if st.1.contains(t.span_id@) {
        st
    } else {
        let el = sources_for(r, cands, st.0, t);
        match form_selection(r.timing, el, r.group_by_attribute@, r.threshold as nat) {
            None => st,
            Some(sel) => (
                st.0 + span_ids(sel),
                st.1.push(t.span_id@),
                st.2.push((sel, seq![t], n_to_one_delay(r, el, sel, *t))),
            ),
        }
    }
}

/// The candidate sources that can serve the target under the rules.
pub open spec fn sources_for(r: LinkRules, cands: Seq<Rc<Span>>, used: Seq<Seq<u8>>, t: Rc<Span>) -> Seq<Rc<Span>> {
    eligible_sources(r.linking_attribute@, cands, used, *t)
}

/// The candidate targets that can follow the source under the rules.
pub open spec fn targets_for(r: LinkRules, cands: Seq<Rc<Span>>, used: Seq<Seq<u8>>, s: Rc<Span>) -> Seq<Rc<Span>> {
    eligible_targets(r.linking_attribute@, cands, used, *s)
}

/// The targets taken in order, in N-to-1 mode.
pub open spec fn n_to_one_run(r: LinkRules, cands: Seq<Rc<Span>>, st: RunState, targets: Seq<Rc<Span>>) -> RunState
    decreases targets.len(),
{
    if targets.len() == 0 {
        st
    } else {
        n_to_one_step(r, cands, n_to_one_run(r, cands, st, targets.drop_last()), targets.last())
    }
}

/// One source in 1-to-N mode: unless already linked, it is linked to the targets selected from
/// those that can follow it, which are then used.
pub open spec fn one_to_n_step(r: LinkRules, cands: Seq<Rc<Span>>, st: RunState, s: Rc<Span>) -> RunState {
    if st.0.contains(s.span_id@) {
        st
    } else {
        let el = targets_for(r, cands, st.1, s);
        match form_selection(r.timing, el, r.group_by_attribute@, r.threshold as nat) {
            None => st,
            Some(sel) => (
                st.0.push(s.span_id@),
                st.1 + span_ids(sel),
                st.2.push((seq![s], sel, abs_diff(latest_start(sel), s.end_time as int))),
            ),
        }
    }
}

/// The sources taken in order, in 1-to-N mode.
pub open spec fn one_to_n_run(r: LinkRules, cands: Seq<Rc<Span>>, st: RunState, sources: Seq<Rc<Span>>) -> RunState
    decreases sources.len(),
{
    if sources.len() == 0 {
        st
    } else {
        one_to_n_step(r, cands, one_to_n_run(r, cands, st, sources.drop_last()), sources.last())
    }
}

fn abs_diff_u64(a: u64, b: u64) -> (r: u64)
    ensures
        r == abs_diff(a as int, b as int),
{
    if a >= b { a - b } else { b - a }
}

fn copy_spans(v: &Vec<Rc<Span>>) -> (r: Vec<Rc<Span>>)
    ensures
        r@ == v@,
{
    let mut r: Vec<Rc<Span>> = Vec::new();
    for i in 0..v.len()
        invariant
            r@ == v@.take(i as int),
    {
        r.push(rc_clone(&v[i]));
        assert(v@.take(i + 1) =~= v@.take(i as int).push(v@[i as int]));
    }
    assert(v@.take(v@.len() as int) =~= v@);
    r
}

/// A copy of a link.
pub fn copy_link(l: &DependencyLink) -> (r: DependencyLink)
    ensures
        link_view(r) == link_view(*l),
{
    DependencyLink {
        source_spans: copy_spans(&l.source_spans),
        target_spans: copy_spans(&l.target_spans),
        delay_nanos: l.delay_nanos,
    }
}

/// Links of one node being gathered.
struct LinkTally {
    stats: Statistics,
    links: Vec<DependencyLink>,
    min_link: Option<DependencyLink>,
    max_link: Option<DependencyLink>,
}

impl LinkTally {
    spec fn describes(&self, links: Seq<LinkV>) -> bool {
        &&& links_view(self.links@) == links
        &&& self.stats.wf()
        &&& self.stats.data_points@ == delays_of(links)
        &&& links.len() > 0 ==> (self.min_link matches Some(l) && link_view(l) == links[min_link_index(delays_of(links))])
        &&& links.len() > 0 ==> (self.max_link matches Some(l) && link_view(l) == links[max_link_index(delays_of(links))])
    }

    fn new() -> (r: LinkTally)
        ensures
            r.describes(Seq::empty()),
    {
        let r = LinkTally { stats: Statistics::new(), links: Vec::new(), min_link: None, max_link: None };
        assert(links_view(r.links@) =~= Seq::<LinkV>::empty());
        assert(delays_of(Seq::<LinkV>::empty()) =~= Seq::<u64>::empty());
        r
    }

    /// Records a formed link: its delay joins the statistics, and it becomes the min or max
    /// delay link when its delay is at most, or at least, all earlier ones.
    fn record_formed_link(&mut self, link: DependencyLink, Ghost(links): Ghost<Seq<LinkV>>)
        requires
            old(self).describes(links),
            links.len() < usize::MAX,
        ensures
            final(self).describes(links.push(link_view(link))),
    {
        let ghost nl = links.push(link_view(link));
        assert(delays_of(nl) =~= delays_of(links).push(link.delay_nanos));
        assert(delays_of(nl).drop_last() =~= delays_of(links));
        let prev_min = self.stats.min;
        let prev_max = self.stats.max;
        self.stats.add_value(link.delay_nanos);
        if self.stats.count == 1 {
            self.min_link = Some(copy_link(&link));
            self.max_link = Some(copy_link(&link));
        } else {
            if link.delay_nanos <= prev_min {
                self.min_link = Some(copy_link(&link));
            }
            if link.delay_nanos >= prev_max {
                self.max_link = Some(copy_link(&link));
            }
        }
        proof {
            let d = delays_of(nl);
            if links.len() > 0 {
                lemma_link_index_bounds(delays_of(links));
                assert(prev_min == seq_min(d.drop_last()));
                assert(prev_max == seq_max(d.drop_last()));
                assert(d.last() == link.delay_nanos);
                let mi = min_link_index(delays_of(links));
                let ma = max_link_index(delays_of(links));
                assert(nl[mi] == links[mi]);
                assert(nl[ma] == links[ma]);
            } else {
                assert(nl[0] == link_view(link));
            }
        }
        self.links.push(link);
        assert(links_view(self.links@) =~= nl);
    }

    fn finish(self, Ghost(links): Ghost<Seq<LinkV>>) -> (r: Option<NodeDependencyMetrics>)
        requires
            self.describes(links),
        ensures
            match r {
                Some(m) => metrics_of(m, links),
                None => links.len() == 0,
            },
    {
        if self.links.len() == 0 {
            None
        } else {
            Some(NodeDependencyMetrics {
                link_delay_statistics: self.stats,
                links: self.links,
                min_delay_link: self.min_link,
                max_delay_link: self.max_link,
            })
        }
    }
}

/// A copy of a span id.
pub fn copy_bytes(v: &Vec<u8>) -> (r: Vec<u8>)
    ensures
        r@ == v@,
{
    let mut r: Vec<u8> = Vec::new();
    for i in 0..v.len()
        invariant
            r@ == v@.take(i as int),
    {
        r.push(v[i]);
        assert(v@.take(i + 1) =~= v@.take(i as int).push(v@[i as int]));
    }
    assert(v@.take(v@.len() as int) =~= v@);
    r
}

/// Adds the ids of the spans to the used ids.
fn push_ids(used: &mut Vec<Vec<u8>>, spans: &Vec<Rc<Span>>)
    ensures
        id_view(final(used)@) == id_view(old(used)@) + span_ids(spans@),
{
    let ghost start = id_view(used@);
    for i in 0..spans.len()
        invariant
            id_view(used@) == start + span_ids(spans@.take(i as int)),
    {
        assert(spans@.take(i + 1).drop_last() =~= spans@.take(i as int));
        let id = copy_bytes(&spans[i].span_id);
        let ghost before = used@;
        used.push(id);
        assert(id_view(used@) =~= id_view(before).push(id@));
        assert(span_ids(spans@.take(i + 1)) == span_ids(spans@.take(i as int)).push(spans@[i as int].span_id@));
        assert(id_view(used@) =~= start + span_ids(spans@.take(i + 1)));
    }
    assert(spans@.take(spans@.len() as int) =~= spans@);
}

/// Adds one id to the used ids.
fn push_id(used: &mut Vec<Vec<u8>>, id: &Vec<u8>)
    ensures
        id_view(final(used)@) == id_view(old(used)@).push(id@),
{
    let c = copy_bytes(id);
    used.push(c);
    assert(id_view(used@) =~= id_view(old(used)@).push(id@));
}

/// Finds the links of one node in N-to-1 mode: each target, in order, is linked to sources
/// selected among the candidates that can serve it; used sources are recorded in `used_sources`.
fn analyze_dependencies_for_single_node_n_to_one(
    rules: &LinkRules,
    names: &Vec<String>,
    current_source_node_spans: &Vec<Rc<Span>>,
    current_target_node_spans: &Vec<Rc<Span>>,
    used_sources: &mut Vec<Vec<u8>>,
) -> (r: Option<NodeDependencyMetrics>)
    requires
        search_ready(rules.linking_attribute@, names@, old(used_sources)@),
    ensures
        ({
            let run = n_to_one_run(*rules, current_source_node_spans@,
                (id_view(old(used_sources)@), Seq::empty(), Seq::empty()), current_target_node_spans@);
            &&& id_view(final(used_sources)@) == run.0
            &&& match r {
                Some(m) => metrics_of(m, run.2),
                None => run.2.len() == 0,
            }
        }),
{
    let ghost cands = current_source_node_spans@;
    let ghost targets = current_target_node_spans@;
    let ghost st0: RunState = (id_view(used_sources@), Seq::empty(), Seq::empty());
    let mut used_targets: Vec<Vec<u8>> = Vec::new();
    let mut tally = LinkTally::new();
    let ghost mut links: Seq<LinkV> = Seq::empty();
    for i in 0..current_target_node_spans.len()
        invariant
            cands == current_source_node_spans@,
            targets == current_target_node_spans@,
            search_ready(rules.linking_attribute@, names@, used_sources@),
            n_to_one_run(*rules, cands, st0, targets.take(i as int)) == (id_view(used_sources@), id_view(used_targets@), links),
            tally.describes(links),
            links.len() <= i,
    {
        let ghost prev: RunState = (id_view(used_sources@), id_view(used_targets@), links);
        assert(targets.take(i + 1).drop_last() =~= targets.take(i as int));
        assert(targets.take(i + 1).last() == targets[i as int]);
        let target = &current_target_node_spans[i];
        if crate::analyze_utils::contains_id(&used_targets, &target.span_id) {
        } else {
            let eligible = collect_eligible_sources(Ghost(rules.linking_attribute@), names, current_source_node_spans, &used_sources, target);
            match form_link_selection(rules.timing, &eligible, &rules.group_by_attribute, rules.threshold) {
                None => {},
                Some(sel) => {
                    let delay = if !rules.group_by_attribute.as_str().is_empty()
                        && rules.aggregation == GroupAggregationStrategy::FirstCompletedGroup {
                        abs_diff_u64(target.start_time, first_completed_end_of(rules.timing, &eligible, &rules.group_by_attribute, rules.threshold))
                    } else {
                        abs_diff_u64(target.start_time, latest_end_of(&sel))
                    };
                    push_ids(used_sources, &sel);
                    push_id(&mut used_targets, &target.span_id);
                    let mut tv: Vec<Rc<Span>> = Vec::new();
                    tv.push(rc_clone(target));
                    assert(tv@ =~= seq![targets[i as int]]);
                    let link = DependencyLink { source_spans: sel, target_spans: tv, delay_nanos: delay };
                    tally.record_formed_link(link, Ghost(links));
                    proof {
                        links = links.push(link_view(link));
                    }
                },
            }
        }
    }
    assert(targets.take(targets.len() as int) =~= targets);
    tally.finish(Ghost(links))
}

/// Finds the links of one node in 1-to-N mode: each source, in order, is linked to targets
/// selected among the candidates that can follow it; used targets are recorded in `used_targets`.
fn analyze_dependencies_for_single_node_one_to_n(
    rules: &LinkRules,
    names: &Vec<String>,
    current_source_node_spans: &Vec<Rc<Span>>,
    current_target_spans: &Vec<Rc<Span>>,
    used_targets: &mut Vec<Vec<u8>>,
) -> (r: Option<NodeDependencyMetrics>)
    requires
        search_ready(rules.linking_attribute@, names@, old(used_targets)@),
    ensures
        ({
            let run = one_to_n_run(*rules, current_target_spans@,
                (Seq::empty(), id_view(old(used_targets)@), Seq::empty()), current_source_node_spans@);
            &&& id_view(final(used_targets)@) == run.1
            &&& match r {
                Some(m) => metrics_of(m, run.2),
                None => run.2.len() == 0,
            }
        }),
{
    let ghost cands = current_target_spans@;
    let ghost sources = current_source_node_spans@;
    let ghost st0: RunState = (Seq::empty(), id_view(used_targets@), Seq::empty());
    let mut used_sources: Vec<Vec<u8>> = Vec::new();
    let mut tally = LinkTally::new();
    let ghost mut links: Seq<LinkV> = Seq::empty();
    for i in 0..current_source_node_spans.len()
        invariant
            cands == current_target_spans@,
            sources == current_source_node_spans@,
            search_ready(rules.linking_attribute@, names@, used_targets@),
            one_to_n_run(*rules, cands, st0, sources.take(i as int)) == (id_view(used_sources@), id_view(used_targets@), links),
            tally.describes(links),
            links.len() <= i,
    {
        assert(sources.take(i + 1).drop_last() =~= sources.take(i as int));
        assert(sources.take(i + 1).last() == sources[i as int]);
        let source = &current_source_node_spans[i];
        if crate::analyze_utils::contains_id(&used_sources, &source.span_id) {
        } else {
            let eligible = collect_eligible_targets(Ghost(rules.linking_attribute@), names, current_target_spans, used_targets, source);
            match form_link_selection(rules.timing, &eligible, &rules.group_by_attribute, rules.threshold) {
                None => {},
                Some(sel) => {
                    let delay = abs_diff_u64(latest_start_of(&sel), source.end_time);
                    push_ids(used_targets, &sel);
                    push_id(&mut used_sources, &source.span_id);
                    let mut sv: Vec<Rc<Span>> = Vec::new();
                    sv.push(rc_clone(source));
                    assert(sv@ =~= seq![sources[i as int]]);
                    let link = DependencyLink { source_spans: sv, target_spans: sel, delay_nanos: delay };
                    tally.record_formed_link(link, Ghost(links));
                    proof {
                        links = links.push(link_view(link));
                    }
                },
            }
        }
    }
    assert(sources.take(sources.len() as int) =~= sources);
    tally.finish(Ghost(links))
}

/// The distinct names of the nodes of the spans, in order of first appearance.
pub open spec fn node_names(spans: Seq<Rc<Span>>) -> Seq<Seq<char>>
    decreases spans.len(),
{
    if spans.len() == 0 {
        Seq::empty()
    } else {
        let r = node_names(spans.drop_last());
        if r.contains(spans.last().node.name@) { r } else { r.push(spans.last().node.name@) }
    }
}

/// The spans recorded by the named node, in order.
pub open spec fn spans_on_node(spans: Seq<Rc<Span>>, node: Seq<char>) -> Seq<Rc<Span>>
    decreases spans.len(),
{
    if spans.len() == 0 {
        Seq::empty()
    } else {
        let r = spans_on_node(spans.drop_last(), node);
        if spans.last().node.name@ == node { r.push(spans.last()) } else { r }
    }
}

/// The names of `b` that `a` does not list, in order.
pub open spec fn names_not_in(a: Seq<Seq<char>>, b: Seq<Seq<char>>) -> Seq<Seq<char>>
    decreases b.len(),
{
    if b.len() == 0 {
        Seq::empty()
    } else {
        let r = names_not_in(a, b.drop_last());
        if a.contains(b.last()) { r } else { r.push(b.last()) }
    }
}

/// The names of `a` that some span of `spans` is recorded by, in order.
pub open spec fn names_with_spans(a: Seq<Seq<char>>, spans: Seq<Rc<Span>>) -> Seq<Seq<char>>
    decreases a.len(),
{
    if a.len() == 0 {
        Seq::empty()
    } else {
        let r = names_with_spans(a.drop_last(), spans);
        if spans_on_node(spans, a.last()).len() > 0 { r.push(a.last()) } else { r }
    }
}

/// The nodes analysed in N-to-1 mode: with the same-node scope, the source nodes that have
/// targets; with all nodes, the source nodes and then the other target nodes.
pub open spec fn n_to_one_nodes(scope: SourceScope, sources: Seq<Rc<Span>>, targets: Seq<Rc<Span>>) -> Seq<Seq<char>> {
    if scope == SourceScope::SameNode {
        names_with_spans(node_names(sources), targets)
    } else {
        node_names(sources) + names_not_in(node_names(sources), node_names(targets))
    }
}

/// The nodes analysed in 1-to-N mode: with the same-node scope, the source nodes that have
/// targets; with all nodes, all source nodes.
pub open spec fn one_to_n_nodes(scope: SourceScope, sources: Seq<Rc<Span>>, targets: Seq<Rc<Span>>) -> Seq<Seq<char>> {
    if scope == SourceScope::SameNode {
        names_with_spans(node_names(sources), targets)
    } else {
        node_names(sources)
    }
}

/// Used ids carried from node to node, and the links found per node.
pub type NodeFold = (Seq<Seq<u8>>, Seq<(Seq<char>, Seq<LinkV>)>);

/// N-to-1 over the listed nodes: each node's targets are linked to the sources of that node
/// (same-node scope) or of all nodes. Sources used on one node stay used for the next ones with
/// the same-node scope; with all nodes, each node starts afresh. Nodes without links are left out.
pub open spec fn n_to_one_fold(r: LinkRules, scope: SourceScope, sources: Seq<Rc<Span>>, targets: Seq<Rc<Span>>, nodes: Seq<Seq<char>>) -> NodeFold
    decreases nodes.len(),
{
    if nodes.len() == 0 {
        (Seq::empty(), Seq::empty())
    } else {
        let prev = n_to_one_fold(r, scope, sources, targets, nodes.drop_last());
        let n = nodes.last();
        let ts = spans_on_node(targets, n);
        if ts.len() == 0 {
            prev
        } else {
            let same = scope == SourceScope::SameNode;
            let cands = if same { spans_on_node(sources, n) } else { sources };
            let used0 = if same { prev.0 } else { Seq::empty() };
            let run = n_to_one_run(r, cands, (used0, Seq::empty(), Seq::empty()), ts);
            (if same { run.0 } else { prev.0 }, if run.2.len() > 0 { prev.1.push((n, run.2)) } else { prev.1 })
        }
    }
}

/// 1-to-N over the listed nodes: each node's sources are linked to the targets of that node
/// (same-node scope) or of all nodes. Targets used on one node stay used for the next ones with
/// the same-node scope; with all nodes, each node starts afresh. Nodes without links are left out.
pub open spec fn one_to_n_fold(r: LinkRules, scope: SourceScope, sources: Seq<Rc<Span>>, targets: Seq<Rc<Span>>, nodes: Seq<Seq<char>>) -> NodeFold
    decreases nodes.len(),
{
    if nodes.len() == 0 {
        (Seq::empty(), Seq::empty())
    } else {
        let prev = one_to_n_fold(r, scope, sources, targets, nodes.drop_last());
        let n = nodes.last();
        let ss = spans_on_node(sources, n);
        let same = scope == SourceScope::SameNode;
        let cands = if same { spans_on_node(targets, n) } else { targets };
        let used0 = if same { prev.0 } else { Seq::empty() };
        let run = one_to_n_run(r, cands, (Seq::empty(), used0, Seq::empty()), ss);
        (if same { run.1 } else { prev.0 }, if run.2.len() > 0 { prev.1.push((n, run.2)) } else { prev.1 })
    }
}

/// The links of all nodes, node after node.
pub open spec fn all_links(per_node: Seq<(Seq<char>, Seq<LinkV>)>) -> Seq<LinkV>
    decreases per_node.len(),
{
    if per_node.len() == 0 {
        Seq::empty()
    } else {
        all_links(per_node.drop_last()) + per_node.last().1
    }
}

/// The per-node results hold the given nodes and links, in order.
pub open spec fn results_match(res: Seq<(String, NodeDependencyMetrics)>, per_node: Seq<(Seq<char>, Seq<LinkV>)>) -> bool {
    &&& res.len() == per_node.len()
    &&& forall|i: int| 0 <= i < res.len() ==> (#[trigger] res[i]).0@ == per_node[i].0 && metrics_of(res[i].1, per_node[i].1)
}

fn collect_node_names(spans: &Vec<Rc<Span>>) -> (r: Vec<String>)
    ensures
        r@.map_values(|x: String| x@) == node_names(spans@),
{
    let mut names: Vec<String> = Vec::new();
    for i in 0..spans.len()
        invariant
            names@.map_values(|x: String| x@) == node_names(spans@.take(i as int)),
    {
        assert(spans@.take(i + 1).drop_last() =~= spans@.take(i as int));
        if !contains_key(&names, &spans[i].node.name) {
            names.push(spans[i].node.name.clone());
            assert(names@.map_values(|x: String| x@) =~= node_names(spans@.take(i as int)).push(spans@[i as int].node.name@));
        }
    }
    assert(spans@.take(spans@.len() as int) =~= spans@);
    names
}

fn collect_spans_on_node(spans: &Vec<Rc<Span>>, node: &String) -> (r: Vec<Rc<Span>>)
    ensures
        r@ == spans_on_node(spans@, node@),
{
    let mut r: Vec<Rc<Span>> = Vec::new();
    for i in 0..spans.len()
        invariant
            r@ == spans_on_node(spans@.take(i as int), node@),
    {
        assert(spans@.take(i + 1).drop_last() =~= spans@.take(i as int));
        if spans[i].node.name.eq(node) {
            r.push(rc_clone(&spans[i]));
        }
    }
    assert(spans@.take(spans@.len() as int) =~= spans@);
    r
}

fn analyzed_nodes(cardinality: AnalysisCardinality, scope: SourceScope, sources: &Vec<Rc<Span>>, targets: &Vec<Rc<Span>>) -> (r: Vec<String>)
    ensures
        r@.map_values(|x: String| x@) == (if cardinality == AnalysisCardinality::NToOne {
            n_to_one_nodes(scope, sources@, targets@)
        } else {
            one_to_n_nodes(scope, sources@, targets@)
        }),
{
    let source_nodes = collect_node_names(sources);
    let ghost sn = node_names(sources@);
    let mut r: Vec<String> = Vec::new();
    if scope == SourceScope::SameNode {
        for i in 0..source_nodes.len()
            invariant
                source_nodes@.map_values(|x: String| x@) == sn,
                r@.map_values(|x: String| x@) == names_with_spans(sn.take(i as int), targets@),
        {
            assert(sn.take(i + 1).drop_last() =~= sn.take(i as int));
            assert(source_nodes@[i as int]@ == sn[i as int]);
            let on = collect_spans_on_node(targets, &source_nodes[i]);
            if on.len() > 0 {
                r.push(source_nodes[i].clone());
                assert(r@.map_values(|x: String| x@) =~= names_with_spans(sn.take(i as int), targets@).push(sn[i as int]));
            }
        }
        assert(sn.take(sn.len() as int) =~= sn);
        return r;
    }
    for i in 0..source_nodes.len()
        invariant
            source_nodes@.map_values(|x: String| x@) == sn,
            r@.map_values(|x: String| x@) == sn.take(i as int),
    {
        assert(source_nodes@[i as int]@ == sn[i as int]);
        let ghost before = r@;
        r.push(source_nodes[i].clone());
        assert(r@.map_values(|x: String| x@) =~= before.map_values(|x: String| x@).push(sn[i as int]));
        assert(r@.map_values(|x: String| x@) =~= sn.take(i + 1));
    }
    assert(sn.take(sn.len() as int) =~= sn);
    if cardinality == AnalysisCardinality::OneToN {
        return r;
    }
    let target_nodes = collect_node_names(targets);
    let ghost tn = node_names(targets@);
    for i in 0..target_nodes.len()
        invariant
            source_nodes@.map_values(|x: String| x@) == sn,
            target_nodes@.map_values(|x: String| x@) == tn,
            r@.map_values(|x: String| x@) == sn + names_not_in(sn, tn.take(i as int)),
    {
        assert(tn.take(i + 1).drop_last() =~= tn.take(i as int));
        assert(target_nodes@[i as int]@ == tn[i as int]);
        if !contains_key(&source_nodes, &target_nodes[i]) {
            let ghost before = r@;
            r.push(target_nodes[i].clone());
            assert(r@.map_values(|x: String| x@) =~= before.map_values(|x: String| x@).push(tn[i as int]));
            assert(r@.map_values(|x: String| x@) =~= sn + names_not_in(sn, tn.take(i as int)).push(tn[i as int]));
        }
    }
    assert(tn.take(tn.len() as int) =~= tn);
    r
}

fn run_n_to_one(
    rules: &LinkRules,
    names: &Vec<String>,
    scope: SourceScope,
    sources: &Vec<Rc<Span>>,
    targets: &Vec<Rc<Span>>,
    nodes: &Vec<String>,
) -> (r: Vec<(String, NodeDependencyMetrics)>)
    requires
        search_ready(rules.linking_attribute@, names@, Seq::empty()),
    ensures
        results_match(r@, n_to_one_fold(*rules, scope, sources@, targets@, nodes@.map_values(|x: String| x@)).1),
{
    let ghost nv = nodes@.map_values(|x: String| x@);
    let mut global_used: Vec<Vec<u8>> = Vec::new();
    let mut res: Vec<(String, NodeDependencyMetrics)> = Vec::new();
    for i in 0..nodes.len()
        invariant
            nv == nodes@.map_values(|x: String| x@),
            search_ready(rules.linking_attribute@, names@, Seq::empty()),
            id_view(global_used@) == n_to_one_fold(*rules, scope, sources@, targets@, nv.take(i as int)).0,
            results_match(res@, n_to_one_fold(*rules, scope, sources@, targets@, nv.take(i as int)).1),
    {
        assert(nv.take(i + 1).drop_last() =~= nv.take(i as int));
        assert(nodes@[i as int]@ == nv[i as int]);
        let node = &nodes[i];
        let ts = collect_spans_on_node(targets, node);
        if ts.len() > 0 {
            let outcome = if scope == SourceScope::SameNode {
                let cands = collect_spans_on_node(sources, node);
                analyze_dependencies_for_single_node_n_to_one(rules, names, &cands, &ts, &mut global_used)
            } else {
                let mut fresh: Vec<Vec<u8>> = Vec::new();
                assert(id_view(fresh@) =~= Seq::<Seq<u8>>::empty());
                analyze_dependencies_for_single_node_n_to_one(rules, names, sources, &ts, &mut fresh)
            };
            match outcome {
                Some(m) => {
                    res.push((node.clone(), m));
                },
                None => {},
            }
        }
    }
    assert(nv.take(nv.len() as int) =~= nv);
    res
}

fn run_one_to_n(
    rules: &LinkRules,
    names: &Vec<String>,
    scope: SourceScope,
    sources: &Vec<Rc<Span>>,
    targets: &Vec<Rc<Span>>,
    nodes: &Vec<String>,
) -> (r: Vec<(String, NodeDependencyMetrics)>)
    requires
        search_ready(rules.linking_attribute@, names@, Seq::empty()),
    ensures
        results_match(r@, one_to_n_fold(*rules, scope, sources@, targets@, nodes@.map_values(|x: String| x@)).1),
{
    let ghost nv = nodes@.map_values(|x: String| x@);
    let mut global_used: Vec<Vec<u8>> = Vec::new();
    let mut res: Vec<(String, NodeDependencyMetrics)> = Vec::new();
    for i in 0..nodes.len()
        invariant
            nv == nodes@.map_values(|x: String| x@),
            search_ready(rules.linking_attribute@, names@, Seq::empty()),
            id_view(global_used@) == one_to_n_fold(*rules, scope, sources@, targets@, nv.take(i as int)).0,
            results_match(res@, one_to_n_fold(*rules, scope, sources@, targets@, nv.take(i as int)).1),
    {
        assert(nv.take(i + 1).drop_last() =~= nv.take(i as int));
        assert(nodes@[i as int]@ == nv[i as int]);
        let node = &nodes[i];
        let ss = collect_spans_on_node(sources, node);
        let outcome = if scope == SourceScope::SameNode {
            let cands = collect_spans_on_node(targets, node);
            analyze_dependencies_for_single_node_one_to_n(rules, names, &ss, &cands, &mut global_used)
        } else {
            let mut fresh: Vec<Vec<u8>> = Vec::new();
            assert(id_view(fresh@) =~= Seq::<Seq<u8>>::empty());
            analyze_dependencies_for_single_node_one_to_n(rules, names, &ss, targets, &mut fresh)
        };
        match outcome {
            Some(m) => {
                res.push((node.clone(), m));
            },
            None => {},
        }
    }
    assert(nv.take(nv.len() as int) =~= nv);
    res
}

/// The links of all nodes gathered into one tally, node after node.
fn overall_tally(per_node: &Vec<(String, NodeDependencyMetrics)>, Ghost(pn): Ghost<Seq<(Seq<char>, Seq<LinkV>)>>) -> (r: LinkTally)
    requires
        results_match(per_node@, pn),
        all_links(pn).len() < usize::MAX,
    ensures
        r.describes(all_links(pn)),
{
    let mut tally = LinkTally::new();
    let ghost mut links: Seq<LinkV> = Seq::empty();
    for i in 0..per_node.len()
        invariant
            results_match(per_node@, pn),
            all_links(pn).len() < usize::MAX,
            links == all_links(pn.take(i as int)),
            tally.describes(links),
    {
        assert(pn.take(i + 1).drop_last() =~= pn.take(i as int));
        let node_links = &per_node[i].1.links;
        let ghost nl = pn[i as int].1;
        assert(links_view(node_links@) == nl);
        proof {
            lemma_all_links_prefix(pn, i as int);
        }
        for j in 0..node_links.len()
            invariant
                links_view(node_links@) == nl,
                links == all_links(pn.take(i as int)) + nl.take(j as int),
                tally.describes(links),
                all_links(pn.take(i as int)).len() + nl.len() <= all_links(pn).len(),
                all_links(pn).len() < usize::MAX,
        {
            assert(nl[j as int] == link_view(node_links@[j as int]));
            let l = copy_link(&node_links[j]);
            tally.record_formed_link(l, Ghost(links));
            proof {
                links = links.push(link_view(l));
                assert(links =~= all_links(pn.take(i as int)) + nl.take(j + 1));
            }
        }
        assert(nl.take(nl.len() as int) =~= nl);
        assert(all_links(pn.take(i + 1)) == all_links(pn.take(i as int)) + pn[i as int].1);
    }
    assert(pn.take(pn.len() as int) =~= pn);
    tally
}

proof fn lemma_all_links_prefix(pn: Seq<(Seq<char>, Seq<LinkV>)>, i: int)
    requires
        0 <= i < pn.len(),
    ensures
        all_links(pn.take(i)).len() + pn[i].1.len() <= all_links(pn).len(),
    decreases pn.len(),
{
    if i < pn.len() - 1 {
        assert(pn.drop_last().take(i) =~= pn.take(i));
        lemma_all_links_prefix(pn.drop_last(), i);
    } else {
        assert(pn.drop_last() =~= pn.take(i));
    }
}

/// The outcome of an analysis and the settings it was made with.
pub struct DependencyAnalysisResult {
    pub source_span_name: String,
    pub target_span_name: String,
    pub threshold: usize,
    pub linking_attribute: String,
    pub source_scope: SourceScope,
    pub source_timing_strategy: SourceTimingStrategy,
    pub group_by_attribute: String,
    pub group_aggregation_strategy: GroupAggregationStrategy,
    pub analysis_cardinality: AnalysisCardinality,
    /// The nodes with links, with their metrics, in the order they were analysed.
    pub per_node_results: Vec<(String, NodeDependencyMetrics)>,
    pub analysis_duration_ms: u128,
    pub overall_stats: Statistics,
    pub overall_min_delay_link: Option<DependencyLink>,
    pub overall_max_delay_link: Option<DependencyLink>,
}

/// The dependency analysis: its settings, the spans it works on, and its last outcome.
pub struct AnalyzeDependencyModal {
    /// Whether the modal window is currently visible.
    pub show: bool,
    /// Text entered by the user in the source span name search box.
    source_search_text: String,
    /// Text entered by the user in the target span name search box.
    target_search_text: String,
    /// The name of the source span currently selected by the user.
    source_span_name: Option<String>,
    /// The name of the target span currently selected by the user.
    target_span_name: Option<String>,
    /// The minimum number of preceding source spans required to form a valid dependency link.
    threshold: usize,
    /// String representation of the threshold for editing in the UI.
    threshold_edit_str: String,
    /// Optional attribute names used to match source and target spans for linking.
    linking_attribute: String,
    /// Scope for selecting source spans: "self" (same node as target) or "all nodes".
    source_scope: SourceScope,
    /// Strategy for selecting source spans (earliest or latest).
    source_timing_strategy: SourceTimingStrategy,
    /// Attribute to group source spans by.
    group_by_attribute: String,
    /// How to aggregate timings from multiple groups for link delay calculation.
    group_aggregation_strategy: GroupAggregationStrategy,
    /// Analysis cardinality mode: N-to-1 or 1-to-N.
    analysis_cardinality: AnalysisCardinality,
    /// A sorted list of unique span names found in the current trace data.
    unique_span_names: Vec<String>,
    /// Flag indicating if the span list for the modal has been processed from the current trace data.
    pub spans_processed: bool,
    /// Stores the detailed results of the last dependency analysis performed.
    pub analysis_result: Option<DependencyAnalysisResult>,
    /// An optional message describing an error encountered during analysis.
    error_message: Option<String>,
    /// All unique spans (including children) collected from the current trace, used for analysis.
    all_spans_for_analysis: Vec<Rc<Span>>,
    /// If set, indicates a specific node to focus on in the trace view after closing the modal.
    pub focus_node: Option<String>,
    /// Input for parsing analysis descriptions.
    description_input: String,
}

/// "No spans found with name '<name>'"
pub open spec fn no_spans_message(name: Seq<char>) -> Seq<char> {
    "No spans found with name '"@ + name + "'"@
}

/// The message given when no span on the grouped side has the group attribute.
pub open spec fn group_missing_message(card: AnalysisCardinality, group_by: Seq<char>, name: Seq<char>) -> Seq<char> {
    let side = if card == AnalysisCardinality::NToOne { "source"@ } else { "target"@ };
    "The 'Group By Attribute' ('"@ + group_by + "') was not found in any "@ + side + " spans named '"@ + name
        + "', or no such "@ + side + " spans have this attribute."@
}

/// What an analysis yields for the given selection, spans and settings: a message saying why
/// none is made, or the links found per node.
pub open spec fn analysis_outcome(
    source_name: Option<String>,
    target_name: Option<String>,
    all: Seq<Rc<Span>>,
    r: LinkRules,
    scope: SourceScope,
    card: AnalysisCardinality,
) -> Result<Seq<(Seq<char>, Seq<LinkV>)>, Seq<char>> {
    match source_name {
        None => Err("Source span not selected"@),
        Some(s) => match target_name {
            None => Err("Target span not selected"@),
            Some(t) => {
                let sources = named_spans(all, s@);
                let targets = named_spans(all, t@);
                let n_to_one = card == AnalysisCardinality::NToOne;
                if sources.len() == 0 {
                    Err(no_spans_message(s@))
                } else if targets.len() == 0 {
                    Err(no_spans_message(t@))
                } else if r.group_by_attribute@.len() > 0
                    && group_keys(if n_to_one { sources } else { targets }, r.group_by_attribute@).len() == 0 {
                    Err(group_missing_message(card, r.group_by_attribute@, if n_to_one { s@ } else { t@ }))
                } else {
                    let ss = sort_by_start(sources);
                    let ts = sort_by_start(targets);
                    if n_to_one {
                        Ok(n_to_one_fold(r, scope, ss, ts, n_to_one_nodes(scope, ss, ts)).1)
                    } else {
                        Ok(one_to_n_fold(r, scope, ss, ts, one_to_n_nodes(scope, ss, ts)).1)
                    }
                }
            },
        },
    }
}

fn no_spans_found(name: &String) -> (r: String)
    ensures
        r@ == no_spans_message(name@),
{
    let mut m = owned("No spans found with name '");
    push_str(&mut m, name.as_str());
    push_str(&mut m, "'");
    m
}

fn group_missing(card: AnalysisCardinality, group_by: &String, name: &String) -> (r: String)
    ensures
        r@ == group_missing_message(card, group_by@, name@),
{
    let side = if card == AnalysisCardinality::NToOne { "source" } else { "target" };
    let mut m = owned("The 'Group By Attribute' ('");
    push_str(&mut m, group_by.as_str());
    push_str(&mut m, "') was not found in any ");
    push_str(&mut m, side);
    push_str(&mut m, " spans named '");
    push_str(&mut m, name.as_str());
    push_str(&mut m, "', or no such ");
    push_str(&mut m, side);
    push_str(&mut m, " spans have this attribute.");
    m
}

impl AnalyzeDependencyModal {
    pub closed spec fn result(&self) -> Option<DependencyAnalysisResult> {
        self.analysis_result
    }

    pub closed spec fn shown(&self) -> bool {
        self.show
    }

    pub closed spec fn processed(&self) -> bool {
        self.spans_processed
    }

    pub closed spec fn focus(&self) -> Option<String> {
        self.focus_node
    }

    pub closed spec fn spans(&self) -> Seq<Rc<Span>> {
        self.all_spans_for_analysis@
    }

    pub closed spec fn span_names(&self) -> Seq<String> {
        self.unique_span_names@
    }

    pub closed spec fn source_name(&self) -> Option<String> {
        self.source_span_name
    }

    pub closed spec fn target_name(&self) -> Option<String> {
        self.target_span_name
    }

    pub closed spec fn rules(&self) -> LinkRules {
        LinkRules {
            linking_attribute: self.linking_attribute,
            group_by_attribute: self.group_by_attribute,
            timing: self.source_timing_strategy,
            aggregation: self.group_aggregation_strategy,
            threshold: self.threshold,
        }
    }

    pub closed spec fn scope(&self) -> SourceScope {
        self.source_scope
    }

    pub closed spec fn cardinality(&self) -> AnalysisCardinality {
        self.analysis_cardinality
    }

    pub closed spec fn error(&self) -> Option<String> {
        self.error_message
    }

    pub closed spec fn search_texts(&self) -> (Seq<char>, Seq<char>) {
        (self.source_search_text@, self.target_search_text@)
    }

    pub closed spec fn threshold_text(&self) -> Seq<char> {
        self.threshold_edit_str@
    }

    /// An analysis of no spans, with a threshold of one and the default settings.
    pub fn new() -> (r: Self)
        ensures
            r.rules().threshold == 1,
            r.rules().linking_attribute@ == Seq::<char>::empty(),
            r.rules().group_by_attribute@ == Seq::<char>::empty(),
            r.rules().timing == SourceTimingStrategy::EarliestFirst,
            r.rules().aggregation == GroupAggregationStrategy::FirstCompletedGroup,
            r.scope() == SourceScope::SameNode,
            r.cardinality() == AnalysisCardinality::NToOne,
            r.threshold_text() == seq!['1'],
            r.source_name() is None,
            r.target_name() is None,
            r.spans().len() == 0,
            r.span_names().len() == 0,
            r.error() is None,
            r.result() is None,
            !r.shown(),
            !r.processed(),
            r.focus() is None,
    {
        let mut t = String::new();
        t.push('1');
        AnalyzeDependencyModal {
            show: false,
            source_search_text: String::new(),
            target_search_text: String::new(),
            source_span_name: None,
            target_span_name: None,
            threshold: 1,
            threshold_edit_str: t,
            linking_attribute: String::new(),
            source_scope: SourceScope::SameNode,
            source_timing_strategy: SourceTimingStrategy::EarliestFirst,
            group_by_attribute: String::new(),
            group_aggregation_strategy: GroupAggregationStrategy::FirstCompletedGroup,
            analysis_cardinality: AnalysisCardinality::NToOne,
            unique_span_names: Vec::new(),
            spans_processed: false,
            analysis_result: None,
            error_message: None,
            all_spans_for_analysis: Vec::new(),
            focus_node: None,
            description_input: String::new(),
        }
    }

    /// Collects the spans to analyse: every span of the given trees, each id once per tree,
    /// and their distinct trace names, ordered by lowercase form.
    pub fn update_span_list(&mut self, spans: &[Rc<Span>])
        ensures
            final(self).spans() == analysis_spans(spans@),
            names_cover(final(self).spans(), final(self).span_names()),
            forall|i: int, j: int| 0 <= i < j < final(self).span_names().len() ==> final(self).span_names()[i]@ != final(self).span_names()[j]@,
            sorted_by_lowercase(final(self).span_names()),
            final(self).source_name() == old(self).source_name(),
            final(self).target_name() == old(self).target_name(),
            final(self).rules() == old(self).rules(),
            final(self).scope() == old(self).scope(),
            final(self).cardinality() == old(self).cardinality(),
    {
        let (all_spans, unique_names) = process_spans_for_analysis(spans);
        self.all_spans_for_analysis = all_spans;
        self.unique_span_names = unique_names;
    }

    /// Shows the modal with empty search texts, over the given spans.
    pub fn open(&mut self, spans_for_analysis: &[Rc<Span>])
        ensures
            final(self).shown(),
            final(self).processed(),
            final(self).search_texts() == (Seq::<char>::empty(), Seq::<char>::empty()),
            final(self).spans() == analysis_spans(spans_for_analysis@),
            names_cover(final(self).spans(), final(self).span_names()),
            sorted_by_lowercase(final(self).span_names()),
            final(self).rules() == old(self).rules(),
    {
        self.update_span_list(spans_for_analysis);
        self.show = true;
        self.source_search_text = String::new();
        self.target_search_text = String::new();
        self.spans_processed = true;
    }

    pub fn clear_focus(&mut self)
        ensures
            final(self).focus() is None,
            final(self).result() == old(self).result(),
    {
        self.focus_node = None;
    }

    /// The links found for the named node by the last analysis, if it found any there.
    pub fn get_links_for_node(&self, node_name: &str) -> (r: Option<&Vec<DependencyLink>>)
        ensures
            match self.result() {
                None => r is None,
                Some(res) => match r {
                    Some(links) => exists|i: int| 0 <= i < res.per_node_results@.len()
                        && (#[trigger] res.per_node_results@[i]).0@ == node_name@
                        && res.per_node_results@[i].1.links == *links
                        && forall|j: int| 0 <= j < i ==> res.per_node_results@[j].0@ != node_name@,
                    None => forall|i: int| 0 <= i < res.per_node_results@.len() ==> (#[trigger] res.per_node_results@[i]).0@ != node_name@,
                },
            },
    {
        match &self.analysis_result {
            None => None,
            Some(result) => {
                let n = owned(node_name);
                for i in 0..result.per_node_results.len()
                    invariant
                        n@ == node_name@,
                        self.result() == Some(*result),
                        forall|j: int| 0 <= j < i ==> result.per_node_results@[j].0@ != node_name@,
                {
                    if result.per_node_results[i].0.eq(&n) {
                        assert(result.per_node_results@[i as int].0@ == node_name@);
                        return Some(&result.per_node_results[i].1.links);
                    }
                }
                None
            },
        }
    }

    pub fn set_source_span_name(&mut self, name: Option<String>)
        ensures
            final(self).source_name() == name,
            final(self).target_name() == old(self).target_name(),
            final(self).rules() == old(self).rules(),
            final(self).scope() == old(self).scope(),
            final(self).cardinality() == old(self).cardinality(),
            final(self).spans() == old(self).spans(),
    {
        self.source_span_name = name;
    }

    pub fn set_target_span_name(&mut self, name: Option<String>)
        ensures
            final(self).target_name() == name,
            final(self).source_name() == old(self).source_name(),
            final(self).rules() == old(self).rules(),
            final(self).scope() == old(self).scope(),
            final(self).cardinality() == old(self).cardinality(),
            final(self).spans() == old(self).spans(),
    {
        self.target_span_name = name;
    }

    pub fn set_threshold(&mut self, threshold: usize)
        ensures
            final(self).rules() == (LinkRules { threshold, ..old(self).rules() }),
            final(self).threshold_text() == crate::text::nat_text(threshold as nat),
            final(self).source_name() == old(self).source_name(),
            final(self).target_name() == old(self).target_name(),
            final(self).scope() == old(self).scope(),
            final(self).cardinality() == old(self).cardinality(),
            final(self).spans() == old(self).spans(),
    {
        self.threshold = threshold;
        self.threshold_edit_str = crate::text::u64_text(threshold as u64);
    }

    /// Replaces the threshold text being edited; the threshold itself changes only when the text
    /// is committed.
    pub fn set_threshold_text(&mut self, text: String)
        ensures
            final(self).threshold_text() == text@,
            final(self).rules() == old(self).rules(),
            final(self).source_name() == old(self).source_name(),
            final(self).target_name() == old(self).target_name(),
            final(self).scope() == old(self).scope(),
            final(self).cardinality() == old(self).cardinality(),
            final(self).spans() == old(self).spans(),
            final(self).result() == old(self).result(),
            final(self).error() == old(self).error(),
    {
        self.threshold_edit_str = text;
    }

    /// Commits the edited threshold text: a count that reads as a `usize` becomes the threshold,
    /// raised to at least one; other text leaves the threshold as it was. Either way the text is
    /// rewritten as the threshold.
    pub fn commit_threshold_text(&mut self)
        ensures
            final(self).rules() == (LinkRules {
                threshold: match parse_nat(old(self).threshold_text()) {
                    Some(v) => if v < 1 { 1usize } else { v as usize },
                    None => old(self).rules().threshold,
                },
                ..old(self).rules()
            }),
            final(self).threshold_text() == crate::text::nat_text(final(self).rules().threshold as nat),
            final(self).source_name() == old(self).source_name(),
            final(self).target_name() == old(self).target_name(),
            final(self).scope() == old(self).scope(),
            final(self).cardinality() == old(self).cardinality(),
            final(self).spans() == old(self).spans(),
            final(self).result() == old(self).result(),
            final(self).error() == old(self).error(),
    {
        let cs = chars_of(self.threshold_edit_str.as_str());
        match parse_usize(cs.as_slice()) {
            Some(v) => {
                self.threshold = if v < 1 { 1 } else { v };
            },
            None => {},
        }
        self.threshold_edit_str = crate::text::u64_text(self.threshold as u64);
    }

    pub fn set_source_scope(&mut self, scope: SourceScope)
        ensures
            final(self).scope() == scope,
            final(self).rules() == old(self).rules(),
            final(self).source_name() == old(self).source_name(),
            final(self).target_name() == old(self).target_name(),
            final(self).cardinality() == old(self).cardinality(),
            final(self).spans() == old(self).spans(),
    {
        self.source_scope = scope;
    }

    pub fn set_analysis_cardinality(&mut self, cardinality: AnalysisCardinality)
        ensures
            final(self).cardinality() == cardinality,
            final(self).rules() == old(self).rules(),
            final(self).source_name() == old(self).source_name(),
            final(self).target_name() == old(self).target_name(),
            final(self).scope() == old(self).scope(),
            final(self).spans() == old(self).spans(),
    {
        self.analysis_cardinality = cardinality;
    }

    pub fn set_linking_attribute(&mut self, attribute: String)
        ensures
            final(self).rules() == (LinkRules { linking_attribute: attribute, ..old(self).rules() }),
            final(self).source_name() == old(self).source_name(),
            final(self).target_name() == old(self).target_name(),
            final(self).scope() == old(self).scope(),
            final(self).cardinality() == old(self).cardinality(),
            final(self).spans() == old(self).spans(),
    {
        self.linking_attribute = attribute;
    }

    pub fn set_group_by_attribute(&mut self, attribute: String)
        ensures
            final(self).rules() == (LinkRules { group_by_attribute: attribute, ..old(self).rules() }),
            final(self).source_name() == old(self).source_name(),
            final(self).target_name() == old(self).target_name(),
            final(self).scope() == old(self).scope(),
            final(self).cardinality() == old(self).cardinality(),
            final(self).spans() == old(self).spans(),
    {
        self.group_by_attribute = attribute;
    }

    pub fn set_source_timing_strategy(&mut self, strategy: SourceTimingStrategy)
        ensures
            final(self).rules() == (LinkRules { timing: strategy, ..old(self).rules() }),
            final(self).source_name() == old(self).source_name(),
            final(self).target_name() == old(self).target_name(),
            final(self).scope() == old(self).scope(),
            final(self).cardinality() == old(self).cardinality(),
            final(self).spans() == old(self).spans(),
    {
        self.source_timing_strategy = strategy;
    }

    pub fn set_group_aggregation_strategy(&mut self, strategy: GroupAggregationStrategy)
        ensures
            final(self).rules() == (LinkRules { aggregation: strategy, ..old(self).rules() }),
            final(self).source_name() == old(self).source_name(),
            final(self).target_name() == old(self).target_name(),
            final(self).scope() == old(self).scope(),
            final(self).cardinality() == old(self).cardinality(),
            final(self).spans() == old(self).spans(),
    {
        self.group_aggregation_strategy = strategy;
    }

    pub fn get_error_message(&self) -> (r: Option<&String>)
        ensures
            match self.error() {
                Some(m) => r == Some(&m),
                None => r is None,
            },
    {
        self.error_message.as_ref()
    }

    pub fn get_source_span_name(&self) -> (r: Option<&String>)
        ensures
            match self.source_name() {
                Some(m) => r == Some(&m),
                None => r is None,
            },
    {
        self.source_span_name.as_ref()
    }

    pub fn get_target_span_name(&self) -> (r: Option<&String>)
        ensures
            match self.target_name() {
                Some(m) => r == Some(&m),
                None => r is None,
            },
    {
        self.target_span_name.as_ref()
    }

    pub fn get_analysis_cardinality(&self) -> (r: &AnalysisCardinality)
        ensures
            *r == self.cardinality(),
    {
        &self.analysis_cardinality
    }

    pub fn get_threshold(&self) -> (r: usize)
        ensures
            r == self.rules().threshold,
    {
        self.threshold
    }

    pub fn get_linking_attribute(&self) -> (r: &String)
        ensures
            *r == self.rules().linking_attribute,
    {
        &self.linking_attribute
    }

    pub fn get_group_by_attribute(&self) -> (r: &String)
        ensures
            *r == self.rules().group_by_attribute,
    {
        &self.group_by_attribute
    }

    pub fn get_source_scope(&self) -> (r: &SourceScope)
        ensures
            *r == self.scope(),
    {
        &self.source_scope
    }

    pub fn get_source_timing_strategy(&self) -> (r: &SourceTimingStrategy)
        ensures
            *r == self.rules().timing,
    {
        &self.source_timing_strategy
    }

    pub fn get_group_aggregation_strategy(&self) -> (r: &GroupAggregationStrategy)
        ensures
            *r == self.rules().aggregation,
    {
        &self.group_aggregation_strategy
    }

    pub fn get_source_search_text(&self) -> (r: &String)
        ensures
            r@ == self.search_texts().0,
    {
        &self.source_search_text
    }

    pub fn get_target_search_text(&self) -> (r: &String)
        ensures
            r@ == self.search_texts().1,
    {
        &self.target_search_text
    }

    /// The span at a position of the analysed list.
    pub fn span(&self, i: usize) -> (r: &Rc<Span>)
        requires
            i < self.spans().len(),
        ensures
            *r == self.spans()[i as int],
    {
        &self.all_spans_for_analysis[i]
    }

    /// Runs the analysis with the current selection and settings. On success the result holds,
    /// per node in the order analysed, the links found and their delay statistics, and overall
    /// statistics of all links; otherwise there is no result and the error message says why.
    #[verifier::spinoff_prover]
    pub fn analyze_dependencies(&mut self)
        ensures
            final(self).spans() == old(self).spans(),
            final(self).source_name() == old(self).source_name(),
            final(self).target_name() == old(self).target_name(),
            final(self).rules() == old(self).rules(),
            final(self).scope() == old(self).scope(),
            final(self).cardinality() == old(self).cardinality(),
            match analysis_outcome(old(self).source_name(), old(self).target_name(), old(self).spans(),
                old(self).rules(), old(self).scope(), old(self).cardinality()) {
                Err(m) => final(self).result() is None && (final(self).error() matches Some(e) && e@ == m),
                Ok(per_node) => final(self).error() is None && (final(self).result() matches Some(res) && {
                    &&& results_match(res.per_node_results@, per_node)
                    &&& res.source_span_name == old(self).source_name()->0
                    &&& res.target_span_name == old(self).target_name()->0
                    &&& res.threshold == old(self).rules().threshold
                    &&& res.linking_attribute == old(self).rules().linking_attribute
                    &&& res.group_by_attribute == old(self).rules().group_by_attribute
                    &&& res.source_timing_strategy == old(self).rules().timing
                    &&& res.group_aggregation_strategy == old(self).rules().aggregation
                    &&& res.source_scope == old(self).scope()
                    &&& res.analysis_cardinality == old(self).cardinality()
                    &&& res.overall_stats.wf()
                    &&& (all_links(per_node).len() < usize::MAX ==> {
                        &&& res.overall_stats.data_points@ == delays_of(all_links(per_node))
                        &&& per_node.len() == 0 ==> res.overall_min_delay_link is None && res.overall_max_delay_link is None
                        &&& per_node.len() > 0 ==> (res.overall_min_delay_link matches Some(l)
                            && link_view(l) == all_links(per_node)[min_link_index(delays_of(all_links(per_node)))])
                        &&& per_node.len() > 0 ==> (res.overall_max_delay_link matches Some(l)
                            && link_view(l) == all_links(per_node)[max_link_index(delays_of(all_links(per_node)))])
                    })
                }),
            },
    {
        self.analysis_result = None;
        let analysis_start = crate::clock::instant_now();
        let source_name = match &self.source_span_name {
            Some(name) => name.clone(),
            None => {
                self.error_message = Some(owned("Source span not selected"));
                return;
            },
        };
        let target_name = match &self.target_span_name {
            Some(name) => name.clone(),
            None => {
                self.error_message = Some(owned("Target span not selected"));
                return;
            },
        };
        let mut source_spans: Vec<Rc<Span>> = Vec::new();
        let mut target_spans: Vec<Rc<Span>> = Vec::new();
        collect_matching_spans(self.all_spans_for_analysis.as_slice(), source_name.as_str(), &mut source_spans);
        collect_matching_spans(self.all_spans_for_analysis.as_slice(), target_name.as_str(), &mut target_spans);
        assert(source_spans@ =~= named_spans(self.all_spans_for_analysis@, source_name@));
        assert(target_spans@ =~= named_spans(self.all_spans_for_analysis@, target_name@));
        if source_spans.len() == 0 {
            self.error_message = Some(no_spans_found(&source_name));
            return;
        }
        if target_spans.len() == 0 {
            self.error_message = Some(no_spans_found(&target_name));
            return;
        }
        let n_to_one = self.analysis_cardinality == AnalysisCardinality::NToOne;
        if !self.group_by_attribute.as_str().is_empty() {
            let keys = if n_to_one {
                collect_group_keys(&source_spans, self.group_by_attribute.as_str())
            } else {
                collect_group_keys(&target_spans, self.group_by_attribute.as_str())
            };
            if keys.len() == 0 {
                let name = if n_to_one { &source_name } else { &target_name };
                self.error_message = Some(group_missing(self.analysis_cardinality, &self.group_by_attribute, name));
                return;
            }
        }
        let sources = sort_spans_by_start(&source_spans);
        let targets = sort_spans_by_start(&target_spans);
        let rules = LinkRules {
            linking_attribute: self.linking_attribute.clone(),
            group_by_attribute: self.group_by_attribute.clone(),
            timing: self.source_timing_strategy,
            aggregation: self.group_aggregation_strategy,
            threshold: self.threshold,
        };
        let names = linking_name_list(self.linking_attribute.as_str());
        let nodes = analyzed_nodes(self.analysis_cardinality, self.source_scope, &sources, &targets);
        let per_node_results = if n_to_one {
            run_n_to_one(&rules, &names, self.source_scope, &sources, &targets, &nodes)
        } else {
            run_one_to_n(&rules, &names, self.source_scope, &sources, &targets, &nodes)
        };
        let ghost pn = if n_to_one {
            n_to_one_fold(rules, self.source_scope, sources@, targets@, nodes@.map_values(|x: String| x@)).1
        } else {
            one_to_n_fold(rules, self.source_scope, sources@, targets@, nodes@.map_values(|x: String| x@)).1
        };
        // Count all links; the overall tally is kept when the count fits the statistics.
        let mut total: u128 = 0;
        for i in 0..per_node_results.len()
            invariant
                results_match(per_node_results@, pn),
                total == all_links(pn.take(i as int)).len(),
                total <= i * 0xFFFF_FFFF_FFFF_FFFFu128,
        {
            assert(pn.take(i + 1).drop_last() =~= pn.take(i as int));
            assert(links_view(per_node_results@[i as int].1.links@) == pn[i as int].1);
            total = total + per_node_results[i].1.links.len() as u128;
        }
        assert(pn.take(pn.len() as int) =~= pn);
        let mut overall_stats = Statistics::new();
        let mut overall_min: Option<DependencyLink> = None;
        let mut overall_max: Option<DependencyLink> = None;
        if per_node_results.len() > 0 && total < usize::MAX as u128 {
            let tally = overall_tally(&per_node_results, Ghost(pn));
            assert(metrics_of(per_node_results@[pn.len() - 1].1, pn[pn.len() - 1].1));
            assert(all_links(pn).len() > 0);
            overall_stats = tally.stats;
            overall_min = tally.min_link;
            overall_max = tally.max_link;
        }
        let duration = crate::clock::elapsed_nanos(&analysis_start) / 1_000_000;
        self.analysis_result = Some(DependencyAnalysisResult {
            source_span_name: source_name,
            target_span_name: target_name,
            threshold: self.threshold,
            linking_attribute: self.linking_attribute.clone(),
            source_scope: self.source_scope,
            source_timing_strategy: self.source_timing_strategy,
            group_by_attribute: self.group_by_attribute.clone(),
            group_aggregation_strategy: self.group_aggregation_strategy,
            analysis_cardinality: self.analysis_cardinality,
            per_node_results,
            analysis_duration_ms: duration,
            overall_stats,
            overall_min_delay_link: overall_min,
            overall_max_delay_link: overall_max,
        });
        self.error_message = None;
    }
}

/// What the first match of a regular expression captures in its first two groups, as the
/// `regex` crate finds it; nothing when the pattern does not compile, does not match, or a
/// group takes no part in the match.
pub uninterp spec fn regex_capture_pair(pattern: Seq<char>, text: Seq<char>) -> Option<(Seq<char>, Seq<char>)>;

/// The first two capture groups of the first match of `pattern` in `text`
/// (`Regex::new`, then `Regex::captures` and `Captures::get`).
#[verifier::external_body]
fn capture_pair(pattern: &str, text: &str) -> (r: Option<(String, String)>)
    ensures
        match r {
            Some(p) => regex_capture_pair(pattern@, text@) == Some((p.0@, p.1@)),
            None => regex_capture_pair(pattern@, text@) is None,
        },
{
    let re = regex::Regex::new(pattern).ok()?;
    let caps = re.captures(text)?;
    Some((caps.get(1)?.as_str().to_string(), caps.get(2)?.as_str().to_string()))
}

/// The text a description starts with.
pub open spec fn description_prefix() -> Seq<char> {
    "Analysis of dependency:"@
}

/// The expression that finds `'source' -> 'target'` in a description.
pub open spec fn arrow_pattern() -> Seq<char> {
    "'([^']+)'\\s*->\\s*'([^']+)'"@
}

/// The parameter names of a description, in the order they are read.
pub open spec fn param_names() -> Seq<Seq<char>> {
    seq!["cardinality:"@, "threshold:"@, "linking by:"@, "group by:"@, "scope:"@, "timing:"@, "group aggregation:"@]
}

/// What follows the prefix of a description, trimmed; nothing when the trimmed description does
/// not start with the prefix.
pub open spec fn after_prefix(description: Seq<char>) -> Option<Seq<char>> {
    let t = trim(description);
    if starts_with_seq(t, description_prefix()) {
        Some(trim(t.skip(description_prefix().len() as int)))
    } else {
        None
    }
}

/// Where the value of parameter `i` ends in `part`: at the earliest of the later parameter names
/// (from the `j`-th on) that occur in it, or at its end.
pub open spec fn value_end(part: Seq<char>, j: int) -> int
    decreases 7 - j,
{
    if j >= 7 {
        part.len() as int
    } else {
        let rest = value_end(part, j + 1);
        match find_seq(part, param_names()[j]) {
            Some(p) => if p < rest { p } else { rest },
            None => rest,
        }
    }
}

/// A value with white space and trailing commas removed.
pub open spec fn clean_value(v: Seq<char>) -> Seq<char> {
    trim(trim_end_char(trim(v), ','))
}

/// The values of the parameters from the `i`-th on, read from `remaining`: a parameter's value
/// starts after its name and ends where a later name starts; reading goes on after the value.
#[verifier::opaque]
pub open spec fn param_values_from(remaining: Seq<char>, i: int) -> Seq<Option<Seq<char>>>
    decreases 7 - i,
{
    if i >= 7 || i < 0 {
        Seq::empty()
    } else {
        match find_seq(remaining, param_names()[i]) {
            Some(start) => {
                let part = remaining.skip(start + param_names()[i].len());
                let e = value_end(part, i + 1);
                seq![Some(clean_value(part.take(e)))] + param_values_from(part.skip(e), i + 1)
            },
            None => seq![None] + param_values_from(remaining, i + 1),
        }
    }
}

/// The settings that a description gives.
pub struct DescriptionSettings {
    pub source_span_name: String,
    pub target_span_name: String,
    pub cardinality: Option<AnalysisCardinality>,
    pub threshold: Option<usize>,
    pub linking_by: Option<String>,
    pub group_by: Option<String>,
    pub scope: Option<SourceScope>,
    pub timing: Option<SourceTimingStrategy>,
    pub group_aggregation: Option<GroupAggregationStrategy>,
}

pub open spec fn cardinality_named(v: Seq<char>) -> Option<AnalysisCardinality> {
    if v == "N-to-1"@ { Some(AnalysisCardinality::NToOne) }
    else if v == "1-to-N"@ { Some(AnalysisCardinality::OneToN) }
    else { None }
}

pub open spec fn scope_named(v: Seq<char>) -> Option<SourceScope> {
    if v == "self"@ { Some(SourceScope::SameNode) }
    else if v == "all nodes"@ { Some(SourceScope::AllNodes) }
    else { None }
}

pub open spec fn timing_named(v: Seq<char>) -> Option<SourceTimingStrategy> {
    if v == "Earliest First"@ { Some(SourceTimingStrategy::EarliestFirst) }
    else if v == "Latest First"@ { Some(SourceTimingStrategy::LatestFirst) }
    else { None }
}

pub open spec fn aggregation_named(v: Seq<char>) -> Option<GroupAggregationStrategy> {
    if v == "Wait For Last Group"@ { Some(GroupAggregationStrategy::WaitForLastGroup) }
    else if v == "First Completed Group"@ { Some(GroupAggregationStrategy::FirstCompletedGroup) }
    else { None }
}

/// An attribute value of a description: "none" stands for no attribute.
pub open spec fn attribute_named(v: Seq<char>) -> Seq<char> {
    if v == "none"@ { Seq::empty() } else { v }
}

/// Whether the value of parameter `k` can be read; names and attributes always can.
pub open spec fn value_readable(k: int, v: Seq<char>) -> bool {
    if k == 0 {
        cardinality_named(v) is Some
    } else if k == 1 {
        parse_nat(v) is Some
    } else if k == 4 {
        scope_named(v) is Some
    } else if k == 5 {
        timing_named(v) is Some
    } else if k == 6 {
        aggregation_named(v) is Some
    } else {
        true
    }
}

/// The message for a value of parameter `k` that cannot be read.
pub open spec fn value_message(k: int, v: Seq<char>) -> Seq<char> {
    if k == 0 {
        "Unknown cardinality: "@ + v
    } else if k == 1 {
        "Invalid threshold: "@ + v
    } else if k == 4 {
        "Unknown scope: "@ + v
    } else if k == 5 {
        "Unknown timing strategy: "@ + v
    } else {
        "Unknown group aggregation strategy: "@ + v
    }
}

/// Whether a value given to parameter `k` cannot be read.
pub open spec fn rejected_value(k: int, v: Option<Seq<char>>) -> bool {
    match v {
        Some(x) => !value_readable(k, x),
        None => false,
    }
}

/// The message for the first parameter value, in order, that cannot be read; none when all can.
pub open spec fn param_error(vals: Seq<Option<Seq<char>>>) -> Option<Seq<char>> {
    if rejected_value(0, vals[0]) {
        Some(value_message(0, vals[0]->0))
    } else if rejected_value(1, vals[1]) {
        Some(value_message(1, vals[1]->0))
    } else if rejected_value(4, vals[4]) {
        Some(value_message(4, vals[4]->0))
    } else if rejected_value(5, vals[5]) {
        Some(value_message(5, vals[5]->0))
    } else if rejected_value(6, vals[6]) {
        Some(value_message(6, vals[6]->0))
    } else {
        None
    }
}

/// The settings hold the names and the values read from `vals`.
pub open spec fn settings_from(d: DescriptionSettings, names: (Seq<char>, Seq<char>), vals: Seq<Option<Seq<char>>>) -> bool {
    &&& d.source_span_name@ == names.0
    &&& d.target_span_name@ == names.1
    &&& d.cardinality == (match vals[0] { Some(v) => cardinality_named(v), None => None })
    &&& d.threshold == (match vals[1] { Some(v) => Some(parse_nat(v)->0 as usize), None => None::<usize> })
    &&& (match vals[2] { Some(v) => d.linking_by matches Some(x) && x@ == attribute_named(v), None => d.linking_by is None })
    &&& (match vals[3] { Some(v) => d.group_by matches Some(x) && x@ == attribute_named(v), None => d.group_by is None })
    &&& d.scope == (match vals[4] { Some(v) => scope_named(v), None => None })
    &&& d.timing == (match vals[5] { Some(v) => timing_named(v), None => None })
    &&& d.group_aggregation == (match vals[6] { Some(v) => aggregation_named(v), None => None })
}

/// The parameters of a description can be cut out: when both parentheses are there, the first
/// opening one comes before the last closing one.
pub open spec fn parentheses_in_order(after: Seq<char>) -> bool {
    match (first_index_of(after, '('), last_index_of(after, ')')) {
        (Some(p), Some(q)) => p < q,
        _ => true,
    }
}

/// The text between the first opening and the last closing parenthesis.
pub open spec fn params_text(after: Seq<char>) -> Seq<char> {
    after.subrange(first_index_of(after, '(')->0 + 1, last_index_of(after, ')')->0)
}

/// What reading a description gives, from the text after its prefix and the names that the
/// arrow expression captured there.
pub open spec fn description_error(after: Seq<char>, names: Option<(Seq<char>, Seq<char>)>) -> Option<Seq<char>> {
    if names is None {
        Some("Could not find 'source' -> 'target' pattern in quotes"@)
    } else if first_index_of(after, '(') is None {
        Some("Could not find opening parenthesis for parameters"@)
    } else if last_index_of(after, ')') is None {
        Some("Could not find closing parenthesis for parameters"@)
    } else {
        param_error(param_values_from(params_text(after), 0))
    }
}

fn param_name(i: usize) -> (r: &'static str)
    requires
        i < 7,
    ensures
        r@ == param_names()[i as int],
{
    if i == 0 { "cardinality:" }
    else if i == 1 { "threshold:" }
    else if i == 2 { "linking by:" }
    else if i == 3 { "group by:" }
    else if i == 4 { "scope:" }
    else if i == 5 { "timing:" }
    else { "group aggregation:" }
}

fn find_value_end(part: &[char], from: usize) -> (r: usize)
    requires
        from <= 7,
    ensures
        r as int == value_end(part@, from as int),
        r <= part@.len(),
    decreases 7 - from,
{
    if from >= 7 {
        return part.len();
    }
    let rest = find_value_end(part, from + 1);
    let name = chars_of(param_name(from));
    match find_chars(part, name.as_slice()) {
        Some(p) => if p < rest { p } else { rest },
        None => rest,
    }
}

fn clean_chars(v: &[char]) -> (r: Vec<char>)
    ensures
        r@ == clean_value(v@),
{
    let a = trim_chars(v);
    let b = trim_end_chars(a.as_slice(), ',');
    trim_chars(b.as_slice())
}

fn literal_is(v: &[char], lit: &str) -> (r: bool)
    ensures
        r == (v@ == lit@),
{
    let l = chars_of(lit);
    crate::text::chars_eq(v, l.as_slice())
}

fn error_with(prefix: &str, v: &[char]) -> (r: String)
    ensures
        r@ == prefix@ + v@,
{
    let mut m = owned(prefix);
    crate::text::push_chars(&mut m, v);
    m
}

/// The text of an optional value.
pub open spec fn opt_view(v: Option<Vec<char>>) -> Option<Seq<char>> {
    match v {
        Some(x) => Some(x@),
        None => None,
    }
}

/// Copies `s[from..to]`.
fn copy_range(s: &[char], from: usize, to: usize) -> (r: Vec<char>)
    requires
        from <= to <= s@.len(),
    ensures
        r@ == s@.subrange(from as int, to as int),
{
    let mut out: Vec<char> = Vec::new();
    for k in from..to
        invariant
            from <= to <= s@.len(),
            out@ == s@.subrange(from as int, k as int),
    {
        out.push(s[k]);
        assert(s@.subrange(from as int, k + 1) =~= s@.subrange(from as int, k as int).push(s@[k as int]));
    }
    out
}

/// What reading parameter `i` from `remaining` gives: its value, if its name occurs, and the
/// text that is left to read.
pub open spec fn read_step(remaining: Seq<char>, i: int) -> (Option<Seq<char>>, Seq<char>) {
    match find_seq(remaining, param_names()[i]) {
        Some(start) => {
            let part = remaining.skip(start + param_names()[i].len());
            let e = value_end(part, i + 1);
            (Some(clean_value(part.take(e))), part.skip(e))
        },
        None => (None, remaining),
    }
}

/// One step of reading the parameter values.
pub(crate) proof fn lemma_param_values_step(remaining: Seq<char>, i: int)
    requires
        0 <= i < 7,
    ensures
        param_values_from(remaining, i) == seq![read_step(remaining, i).0] + param_values_from(read_step(remaining, i).1, i + 1),
{
    reveal(param_values_from);
}

/// The value that follows the name of parameter `i` at `start`, and what is left after it.
fn read_found(remaining: &Vec<char>, i: usize, name_len: usize, start: usize) -> (r: (Vec<char>, Vec<char>))
    requires
        i < 7,
        name_len == param_names()[i as int].len(),
        start + name_len <= remaining@.len(),
    ensures
        ({
            let part = remaining@.skip(start + name_len);
            let e = value_end(part, i + 1);
            r.0@ == clean_value(part.take(e)) && r.1@ == part.skip(e)
        }),
{
    assert(remaining@.len() == remaining.len());
    let value_start = start + name_len;
    let part = copy_range(remaining.as_slice(), value_start, remaining.len());
    assert(part@ =~= remaining@.skip(value_start as int));
    let e = find_value_end(part.as_slice(), i + 1);
    let raw = copy_range(part.as_slice(), 0, e);
    assert(raw@ =~= part@.take(e as int));
    let value = clean_chars(raw.as_slice());
    let next = copy_range(part.as_slice(), e, part.len());
    assert(next@ =~= part@.skip(e as int));
    (value, next)
}

/// Reads the value of parameter `i` from `remaining`, and what is left to read after it.
fn read_param(remaining: &Vec<char>, i: usize) -> (r: (Option<Vec<char>>, Vec<char>))
    requires
        i < 7,
    ensures
        (opt_view(r.0), r.1@) == read_step(remaining@, i as int),
{
    let name = chars_of(param_name(i));
    match find_chars(remaining.as_slice(), name.as_slice()) {
        Some(start) => {
            let (value, next) = read_found(remaining, i, name.len(), start);
            (Some(value), next)
        },
        None => {
            let next = copy_range(remaining.as_slice(), 0, remaining.len());
            assert(next@ =~= remaining@);
            (None, next)
        },
    }
}

/// Reads the values of all parameters from the text between the parentheses.
fn read_param_values(params: &Vec<char>) -> (r: Vec<Option<Vec<char>>>)
    ensures
        r@.len() == 7,
        r@.map_values(|v: Option<Vec<char>>| opt_view(v)) == param_values_from(params@, 0),
{
    let mut values: Vec<Option<Vec<char>>> = Vec::new();
    let mut remaining: Vec<char> = copy_range(params.as_slice(), 0, params.len());
    assert(remaining@ =~= params@);
    let ghost full = param_values_from(params@, 0);
    for i in 0..7
        invariant
            values@.len() == i,
            full == values@.map_values(|v: Option<Vec<char>>| opt_view(v)) + param_values_from(remaining@, i as int),
    {
        let ghost old_values = values@;
        proof {
            lemma_param_values_step(remaining@, i as int);
        }
        let (value, next) = read_param(&remaining, i);
        let ghost ov = opt_view(value);
        values.push(value);
        remaining = next;
        assert(values@.map_values(|v: Option<Vec<char>>| opt_view(v))
            =~= old_values.map_values(|v: Option<Vec<char>>| opt_view(v)).push(ov));
    }
    assert(param_values_from(remaining@, 7) =~= Seq::<Option<Seq<char>>>::empty()) by {
        reveal(param_values_from);
    }
    values
}

/// Reads a cardinality value.
fn read_cardinality(v: &Option<Vec<char>>) -> (r: Result<Option<AnalysisCardinality>, String>)
    ensures
        match r {
            Ok(c) => !rejected_value(0, opt_view(*v))
                && c == (match opt_view(*v) { Some(x) => cardinality_named(x), None => None }),
            Err(m) => rejected_value(0, opt_view(*v)) && m@ == value_message(0, opt_view(*v)->0),
        },
{
    match v {
        Some(x) => {
            if literal_is(x.as_slice(), "N-to-1") {
                Ok(Some(AnalysisCardinality::NToOne))
            } else if literal_is(x.as_slice(), "1-to-N") {
                Ok(Some(AnalysisCardinality::OneToN))
            } else {
                Err(error_with("Unknown cardinality: ", x.as_slice()))
            }
        },
        None => Ok(None),
    }
}

/// Reads a threshold value.
fn read_threshold(v: &Option<Vec<char>>) -> (r: Result<Option<usize>, String>)
    ensures
        match r {
            Ok(t) => !rejected_value(1, opt_view(*v))
                && t == (match opt_view(*v) { Some(x) => Some(parse_nat(x)->0 as usize), None => None::<usize> }),
            Err(m) => rejected_value(1, opt_view(*v)) && m@ == value_message(1, opt_view(*v)->0),
        },
{
    match v {
        Some(x) => match parse_usize(x.as_slice()) {
            Some(t) => Ok(Some(t)),
            None => Err(error_with("Invalid threshold: ", x.as_slice())),
        },
        None => Ok(None),
    }
}

/// Reads a scope value.
fn read_scope(v: &Option<Vec<char>>) -> (r: Result<Option<SourceScope>, String>)
    ensures
        match r {
            Ok(c) => !rejected_value(4, opt_view(*v))
                && c == (match opt_view(*v) { Some(x) => scope_named(x), None => None }),
            Err(m) => rejected_value(4, opt_view(*v)) && m@ == value_message(4, opt_view(*v)->0),
        },
{
    match v {
        Some(x) => {
            if literal_is(x.as_slice(), "self") {
                Ok(Some(SourceScope::SameNode))
            } else if literal_is(x.as_slice(), "all nodes") {
                Ok(Some(SourceScope::AllNodes))
            } else {
                Err(error_with("Unknown scope: ", x.as_slice()))
            }
        },
        None => Ok(None),
    }
}

/// Reads a timing value.
fn read_timing(v: &Option<Vec<char>>) -> (r: Result<Option<SourceTimingStrategy>, String>)
    ensures
        match r {
            Ok(c) => !rejected_value(5, opt_view(*v))
                && c == (match opt_view(*v) { Some(x) => timing_named(x), None => None }),
            Err(m) => rejected_value(5, opt_view(*v)) && m@ == value_message(5, opt_view(*v)->0),
        },
{
    match v {
        Some(x) => {
            if literal_is(x.as_slice(), "Earliest First") {
                Ok(Some(SourceTimingStrategy::EarliestFirst))
            } else if literal_is(x.as_slice(), "Latest First") {
                Ok(Some(SourceTimingStrategy::LatestFirst))
            } else {
                Err(error_with("Unknown timing strategy: ", x.as_slice()))
            }
        },
        None => Ok(None),
    }
}

/// Reads a group aggregation value.
fn read_aggregation(v: &Option<Vec<char>>) -> (r: Result<Option<GroupAggregationStrategy>, String>)
    ensures
        match r {
            Ok(c) => !rejected_value(6, opt_view(*v))
                && c == (match opt_view(*v) { Some(x) => aggregation_named(x), None => None }),
            Err(m) => rejected_value(6, opt_view(*v)) && m@ == value_message(6, opt_view(*v)->0),
        },
{
    match v {
        Some(x) => {
            if literal_is(x.as_slice(), "Wait For Last Group") {
                Ok(Some(GroupAggregationStrategy::WaitForLastGroup))
            } else if literal_is(x.as_slice(), "First Completed Group") {
                Ok(Some(GroupAggregationStrategy::FirstCompletedGroup))
            } else {
                Err(error_with("Unknown group aggregation strategy: ", x.as_slice()))
            }
        },
        None => Ok(None),
    }
}

/// Reads an attribute value: "none" stands for no attribute.
fn read_attribute(v: &Option<Vec<char>>) -> (r: Option<String>)
    ensures
        match opt_view(*v) {
            Some(x) => r matches Some(a) && a@ == attribute_named(x),
            None => r is None,
        },
{
    match v {
        Some(x) => {
            if literal_is(x.as_slice(), "none") {
                Some(String::new())
            } else {
                Some(string_of(x.as_slice()))
            }
        },
        None => None,
    }
}

/// The settings from the names and the values read, or the message for the first value that
/// cannot be read.
fn settings_of(source: String, target: String, values: &Vec<Option<Vec<char>>>) -> (r: Result<DescriptionSettings, String>)
    requires
        values@.len() == 7,
    ensures
        ({
            let vals = values@.map_values(|v: Option<Vec<char>>| opt_view(v));
            match r {
                Err(m) => param_error(vals) == Some(m@),
                Ok(d) => param_error(vals) is None && settings_from(d, (source@, target@), vals),
            }
        }),
{
    let ghost vals = values@.map_values(|v: Option<Vec<char>>| opt_view(v));
    assert(forall|k: int| 0 <= k < 7 ==> vals[k] == opt_view(#[trigger] values@[k]));
    let cardinality = match read_cardinality(&values[0]) {
        Ok(c) => c,
        Err(m) => {
            return Err(m);
        },
    };
    let threshold = match read_threshold(&values[1]) {
        Ok(t) => t,
        Err(m) => {
            return Err(m);
        },
    };
    let scope = match read_scope(&values[4]) {
        Ok(c) => c,
        Err(m) => {
            return Err(m);
        },
    };
    let timing = match read_timing(&values[5]) {
        Ok(c) => c,
        Err(m) => {
            return Err(m);
        },
    };
    let group_aggregation = match read_aggregation(&values[6]) {
        Ok(c) => c,
        Err(m) => {
            return Err(m);
        },
    };
    let linking_by = read_attribute(&values[2]);
    let group_by = read_attribute(&values[3]);
    Ok(DescriptionSettings {
        source_span_name: source,
        target_span_name: target,
        cardinality,
        threshold,
        linking_by,
        group_by,
        scope,
        timing,
        group_aggregation,
    })
}

/// Reads the parameters of a description, given the text after its prefix and the source and
/// target names that the arrow expression captured there (`None` when it found none).
#[verifier::rlimit(40)]
pub fn parse_description_parameters(after: &str, names: Option<(String, String)>) -> (r: Result<DescriptionSettings, String>)
    requires
        names is Some ==> parentheses_in_order(after@),
    ensures
        ({
            let nv = match names { Some(p) => Some((p.0@, p.1@)), None => None };
            match r {
                Err(m) => description_error(after@, nv) == Some(m@),
                Ok(d) => description_error(after@, nv) is None
                    && settings_from(d, nv->0, param_values_from(params_text(after@), 0)),
            }
        }),
{
    let (source_name, target_name) = match names {
        Some(p) => p,
        None => {
            return Err(owned("Could not find 'source' -> 'target' pattern in quotes"));
        },
    };
    let a = chars_of(after);
    let params_start = match first_index(a.as_slice(), '(') {
        Some(p) => p,
        None => {
            return Err(owned("Could not find opening parenthesis for parameters"));
        },
    };
    let params_end = match last_index(a.as_slice(), ')') {
        Some(q) => q,
        None => {
            return Err(owned("Could not find closing parenthesis for parameters"));
        },
    };
    assert(first_index_of(after@, '(') == Some(params_start as int));
    assert(last_index_of(after@, ')') == Some(params_end as int));
    assert(params_start < params_end);
    let params = copy_range(a.as_slice(), params_start + 1, params_end);
    assert(params@ == params_text(after@));
    let values = read_param_values(&params);
    settings_of(source_name, target_name, &values)
}

/// The text after the prefix of a description, as `after_prefix` gives it.
fn description_after_prefix(description: &str) -> (r: Option<String>)
    ensures
        match r {
            Some(a) => after_prefix(description@) == Some(a@),
            None => after_prefix(description@) is None,
        },
{
    let d = chars_of(description);
    let t = trim_chars(d.as_slice());
    let prefix = chars_of("Analysis of dependency:");
    if !crate::text::starts_with_chars(t.as_slice(), prefix.as_slice()) {
        return None;
    }
    let rest = copy_range(t.as_slice(), prefix.len(), t.len());
    assert(rest@ =~= t@.skip(description_prefix().len() as int));
    let a = trim_chars(rest.as_slice());
    Some(string_of(a.as_slice()))
}

/// Whether the first opening parenthesis comes before the last closing one, when both are there.
fn parentheses_ordered(a: &str) -> (r: bool)
    ensures
        r == parentheses_in_order(a@),
{
    let cs = chars_of(a);
    match (first_index(cs.as_slice(), '('), last_index(cs.as_slice(), ')')) {
        (Some(p), Some(q)) => p < q,
        _ => true,
    }
}

impl AnalyzeDependencyModal {
    /// Everything but the error message, the result and the spans is as in `other`.
    pub open spec fn same_settings(&self, other: &Self) -> bool {
        &&& self.source_name() == other.source_name()
        &&& self.target_name() == other.target_name()
        &&& self.rules() == other.rules()
        &&& self.scope() == other.scope()
        &&& self.cardinality() == other.cardinality()
        &&& self.search_texts() == other.search_texts()
        &&& self.threshold_text() == other.threshold_text()
    }

    /// What stays as it was when a description is read.
    pub open spec fn same_data(&self, other: &Self) -> bool {
        &&& self.spans() == other.spans()
        &&& self.span_names() == other.span_names()
        &&& self.result() == other.result()
        &&& self.shown() == other.shown()
        &&& self.processed() == other.processed()
        &&& self.focus() == other.focus()
    }

    /// The settings are those of `old` with the names and parameter values of a description
    /// applied: a parameter that the description leaves out keeps its setting, a threshold is at
    /// least one, and the search texts become the names.
    pub open spec fn described(&self, old: &Self, names: (Seq<char>, Seq<char>), vals: Seq<Option<Seq<char>>>) -> bool {
        &&& self.source_name() matches Some(s) && s@ == names.0
        &&& self.target_name() matches Some(t) && t@ == names.1
        &&& self.search_texts() == names
        &&& self.cardinality() == (match vals[0] { Some(v) => cardinality_named(v)->0, None => old.cardinality() })
        &&& self.rules().threshold == (match vals[1] {
            Some(v) => if (parse_nat(v)->0 as usize) < 1 { 1 } else { parse_nat(v)->0 as usize },
            None => old.rules().threshold,
        })
        &&& self.threshold_text() == (match vals[1] {
            Some(v) => crate::text::nat_text(self.rules().threshold as nat),
            None => old.threshold_text(),
        })
        &&& self.rules().linking_attribute@ == (match vals[2] { Some(v) => attribute_named(v), None => old.rules().linking_attribute@ })
        &&& self.rules().group_by_attribute@ == (match vals[3] { Some(v) => attribute_named(v), None => old.rules().group_by_attribute@ })
        &&& self.scope() == (match vals[4] { Some(v) => scope_named(v)->0, None => old.scope() })
        &&& self.rules().timing == (match vals[5] { Some(v) => timing_named(v)->0, None => old.rules().timing })
        &&& self.rules().aggregation == (match vals[6] { Some(v) => aggregation_named(v)->0, None => old.rules().aggregation })
    }

    /// Takes over the settings that `d` gives; a threshold is raised to one.
    fn apply_settings(&mut self, d: DescriptionSettings)
        ensures
            final(self).error() == old(self).error(),
            final(self).same_data(&*old(self)),
            final(self).source_name() matches Some(s) && s@ == d.source_span_name@,
            final(self).target_name() matches Some(t) && t@ == d.target_span_name@,
            final(self).search_texts() == (d.source_span_name@, d.target_span_name@),
            final(self).cardinality() == (match d.cardinality { Some(c) => c, None => old(self).cardinality() }),
            final(self).rules().threshold == (match d.threshold {
                Some(t) => if t < 1 { 1 } else { t },
                None => old(self).rules().threshold,
            }),
            final(self).threshold_text() == (match d.threshold {
                Some(t) => crate::text::nat_text(final(self).rules().threshold as nat),
                None => old(self).threshold_text(),
            }),
            final(self).rules().linking_attribute@ == (match d.linking_by { Some(l) => l@, None => old(self).rules().linking_attribute@ }),
            final(self).rules().group_by_attribute@ == (match d.group_by { Some(g) => g@, None => old(self).rules().group_by_attribute@ }),
            final(self).scope() == (match d.scope { Some(c) => c, None => old(self).scope() }),
            final(self).rules().timing == (match d.timing { Some(c) => c, None => old(self).rules().timing }),
            final(self).rules().aggregation == (match d.group_aggregation { Some(c) => c, None => old(self).rules().aggregation }),
    {
        let DescriptionSettings {
            source_span_name,
            target_span_name,
            cardinality,
            threshold,
            linking_by,
            group_by,
            scope,
            timing,
            group_aggregation,
        } = d;
        let source_text = copy_string(&source_span_name);
        let target_text = copy_string(&target_span_name);
        let new_cardinality = match cardinality {
            Some(c) => c,
            None => self.analysis_cardinality,
        };
        let new_scope = match scope {
            Some(c) => c,
            None => self.source_scope,
        };
        let new_timing = match timing {
            Some(c) => c,
            None => self.source_timing_strategy,
        };
        let new_aggregation = match group_aggregation {
            Some(c) => c,
            None => self.group_aggregation_strategy,
        };
        self.source_search_text = source_text;
        self.target_search_text = target_text;
        self.source_span_name = Some(source_span_name);
        self.target_span_name = Some(target_span_name);
        self.analysis_cardinality = new_cardinality;
        self.source_scope = new_scope;
        self.source_timing_strategy = new_timing;
        self.group_aggregation_strategy = new_aggregation;
        match threshold {
            Some(t) => {
                let th: usize = if t < 1 { 1 } else { t };
                self.threshold = th;
                self.threshold_edit_str = crate::text::u64_text(th as u64);
            },
            None => {},
        }
        match linking_by {
            Some(l) => {
                self.linking_attribute = l;
            },
            None => {},
        }
        match group_by {
            Some(g) => {
                self.group_by_attribute = g;
            },
            None => {},
        }
    }

    /// Fills the settings from an analysis description such as
    /// `Analysis of dependency: 'a' -> 'b' (cardinality: 1-to-N, threshold: 2, ...)`.
    /// The error message is cleared; on an error the settings are left as they were.
    #[verifier::rlimit(50)]
    pub fn parse_and_fill_from_description(&mut self, description: &str) -> (r: Result<(), String>)
        requires
            match after_prefix(description@) {
                Some(a) => regex_capture_pair(arrow_pattern(), a) is Some ==> parentheses_in_order(a),
                None => true,
            },
        ensures
            final(self).error() is None,
            final(self).same_data(&*old(self)),
            match after_prefix(description@) {
                None => r matches Err(m) && m@ == "Description must start with 'Analysis of dependency:'"@
                    && final(self).same_settings(&*old(self)),
                Some(a) => {
                    let names = regex_capture_pair(arrow_pattern(), a);
                    match description_error(a, names) {
                        Some(m) => r matches Err(e) && e@ == m && final(self).same_settings(&*old(self)),
                        None => r is Ok && final(self).described(&*old(self), names->0, param_values_from(params_text(a), 0)),
                    }
                },
            },
    {
        self.error_message = None;
        let after = match description_after_prefix(description) {
            Some(a) => a,
            None => {
                return Err(owned("Description must start with 'Analysis of dependency:'"));
            },
        };
        let names = capture_pair("'([^']+)'\\s*->\\s*'([^']+)'", after.as_str());
        let settings = match parse_description_parameters(after.as_str(), names) {
            Ok(d) => d,
            Err(m) => {
                return Err(m);
            },
        };
        self.apply_settings(settings);
        Ok(())
    }

    /// Reads a description as `parse_and_fill_from_description` does, where its parameters can be
    /// cut out; `None`, with nothing changed, where the first opening parenthesis after the
    /// `'source' -> 'target'` pattern comes after the last closing one.
    pub fn try_parse_and_fill_from_description(&mut self, description: &str) -> (r: Option<Result<(), String>>)
        ensures
            match after_prefix(description@) {
                Some(a) => (regex_capture_pair(arrow_pattern(), a) is Some && !parentheses_in_order(a))
                    <==> r is None,
                None => r is Some,
            },
            r is None ==> *final(self) == *old(self),
            r matches Some(res) ==> {
                &&& final(self).error() is None
                &&& final(self).same_data(&*old(self))
                &&& match after_prefix(description@) {
                    None => res matches Err(m) && m@ == "Description must start with 'Analysis of dependency:'"@
                        && final(self).same_settings(&*old(self)),
                    Some(a) => {
                        let names = regex_capture_pair(arrow_pattern(), a);
                        match description_error(a, names) {
                            Some(m) => res matches Err(e) && e@ == m && final(self).same_settings(&*old(self)),
                            None => res is Ok && final(self).described(&*old(self), names->0, param_values_from(params_text(a), 0)),
                        }
                    },
                }
            },
    {
        if let Some(after) = description_after_prefix(description) {
            let names = capture_pair("'([^']+)'\\s*->\\s*'([^']+)'", after.as_str());
            if names.is_some() && !parentheses_ordered(after.as_str()) {
                return None;
            }
        }
        Some(self.parse_and_fill_from_description(description))
    }
}

/// How an attribute setting is written: "none" for no attribute.
pub open spec fn attribute_text(a: Seq<char>) -> Seq<char> {
    if a.len() == 0 { "none"@ } else { a }
}

/// The one-line description of an analysis, which `parse_and_fill_from_description` reads.
pub open spec fn result_description(r: DependencyAnalysisResult) -> Seq<char> {
    "Analysis of dependency: '"@ + r.source_span_name@ + "' -> '"@ + r.target_span_name@
        + "' (cardinality: "@ + cardinality_text(r.analysis_cardinality)
        + ", threshold: "@ + crate::text::nat_text(r.threshold as nat)
        + ", linking by: "@ + attribute_text(r.linking_attribute@)
        + ", group by: "@ + attribute_text(r.group_by_attribute@)
        + ", scope: "@ + scope_text(r.source_scope)
        + ", timing: "@ + timing_text(r.source_timing_strategy)
        + ", group aggregation: "@ + aggregation_text(r.group_aggregation_strategy) + ")"@
}

fn push_attribute_text(s: &mut String, a: &String)
    ensures
        final(s)@ == old(s)@ + attribute_text(a@),
{
    if a.as_str().is_empty() {
        push_str(s, "none");
    } else {
        push_str(s, a.as_str());
    }
}

impl DependencyAnalysisResult {
    /// The one-line description of the analysis: its span names and settings.
    pub fn description(&self) -> (t: String)
        ensures
            t@ == result_description(*self),
    {
        let mut t = owned("Analysis of dependency: '");
        push_str(&mut t, self.source_span_name.as_str());
        push_str(&mut t, "' -> '");
        push_str(&mut t, self.target_span_name.as_str());
        push_str(&mut t, "' (cardinality: ");
        let c = self.analysis_cardinality.to_text();
        push_str(&mut t, c.as_str());
        push_str(&mut t, ", threshold: ");
        crate::text::push_u64_text(&mut t, self.threshold as u64);
        push_str(&mut t, ", linking by: ");
        push_attribute_text(&mut t, &self.linking_attribute);
        push_str(&mut t, ", group by: ");
        push_attribute_text(&mut t, &self.group_by_attribute);
        push_str(&mut t, ", scope: ");
        let sc = self.source_scope.to_text();
        push_str(&mut t, sc.as_str());
        push_str(&mut t, ", timing: ");
        let tm = self.source_timing_strategy.to_text();
        push_str(&mut t, tm.as_str());
        push_str(&mut t, ", group aggregation: ");
        let ag = self.group_aggregation_strategy.to_text();
        push_str(&mut t, ag.as_str());
        push_str(&mut t, ")");
        t
    }
}

/// Each setting, as a description writes it, is read back as the same setting; an attribute
/// is, unless it is itself named "none".
pub proof fn lemma_setting_texts_read_back(
    c: AnalysisCardinality,
    s: SourceScope,
    t: SourceTimingStrategy,
    g: GroupAggregationStrategy,
    a: Seq<char>,
)
    ensures
        cardinality_named(cardinality_text(c)) == Some(c),
        scope_named(scope_text(s)) == Some(s),
        timing_named(timing_text(t)) == Some(t),
        aggregation_named(aggregation_text(g)) == Some(g),
        a != "none"@ ==> attribute_named(attribute_text(a)) == a,
{
    reveal_strlit("N-to-1");
    reveal_strlit("1-to-N");
    reveal_strlit("self");
    reveal_strlit("all nodes");
    reveal_strlit("Earliest First");
    reveal_strlit("Latest First");
    reveal_strlit("Wait For Last Group");
    reveal_strlit("First Completed Group");
    reveal_strlit("none");
    assert("1-to-N"@[0] != "N-to-1"@[0]);
    assert("all nodes"@[0] != "self"@[0]);
    assert("Latest First"@[0] != "Earliest First"@[0]);
    assert("First Completed Group"@[0] != "Wait For Last Group"@[0]);
}

proof fn lemma_select_within(strategy: SourceTimingStrategy, spans: Seq<Rc<Span>>, k: nat)
    ensures
        forall|j: int| 0 <= j < select_spans(strategy, spans, k).len()
            ==> spans.contains(#[trigger] select_spans(strategy, spans, k)[j]),
{
    let n = if k < spans.len() { k } else { spans.len() };
    assert forall|j: int| 0 <= j < select_spans(strategy, spans, k).len()
        implies spans.contains(#[trigger] select_spans(strategy, spans, k)[j]) by {
        match strategy {
            SourceTimingStrategy::EarliestFirst => {
                assert(select_spans(strategy, spans, k)[j] == spans[j]);
            },
            SourceTimingStrategy::LatestFirst => {
                assert(select_spans(strategy, spans, k)[j] == spans[spans.len() - n + j]);
            },
        }
    }
}

proof fn lemma_members_within(spans: Seq<Rc<Span>>, attr: Seq<char>, key: Seq<char>)
    ensures
        forall|j: int| 0 <= j < group_members(spans, attr, key).len()
            ==> spans.contains(#[trigger] group_members(spans, attr, key)[j]),
    decreases spans.len(),
{
    if spans.len() > 0 {
        let p = spans.drop_last();
        lemma_members_within(p, attr, key);
        assert forall|j: int| 0 <= j < group_members(spans, attr, key).len()
            implies spans.contains(#[trigger] group_members(spans, attr, key)[j]) by {
            if j < group_members(p, attr, key).len() {
                let x = group_members(p, attr, key)[j];
                assert(p.contains(x));
                let q = choose|q: int| 0 <= q < p.len() && p[q] == x;
                assert(spans[q] == x);
            } else {
                assert(spans[spans.len() - 1] == spans.last());
            }
        }
    }
}

proof fn lemma_grouped_within(strategy: SourceTimingStrategy, spans: Seq<Rc<Span>>, attr: Seq<char>, keys: Seq<Seq<char>>, k: nat)
    ensures
        forall|j: int| 0 <= j < grouped_selection(strategy, spans, attr, keys, k).len()
            ==> spans.contains(#[trigger] grouped_selection(strategy, spans, attr, keys, k)[j]),
    decreases keys.len(),
{
    if keys.len() > 0 {
        lemma_grouped_within(strategy, spans, attr, keys.drop_last(), k);
        let members = group_members(spans, attr, keys.last());
        lemma_members_within(spans, attr, keys.last());
        lemma_select_within(strategy, members, k);
        let a = grouped_selection(strategy, spans, attr, keys.drop_last(), k);
        let b = select_spans(strategy, members, k);
        assert forall|j: int| 0 <= j < grouped_selection(strategy, spans, attr, keys, k).len()
            implies spans.contains(#[trigger] grouped_selection(strategy, spans, attr, keys, k)[j]) by {
            if j < a.len() {
                assert(grouped_selection(strategy, spans, attr, keys, k)[j] == a[j]);
            } else {
                let x = b[j - a.len()];
                assert(grouped_selection(strategy, spans, attr, keys, k)[j] == x);
                assert(members.contains(x));
            }
        }
    }
}

/// The spans that form a link are among the eligible ones.
proof fn lemma_selection_within(strategy: SourceTimingStrategy, eligible: Seq<Rc<Span>>, group_by: Seq<char>, k: nat)
    ensures
        form_selection(strategy, eligible, group_by, k) matches Some(sel)
            ==> forall|j: int| 0 <= j < sel.len() ==> eligible.contains(#[trigger] sel[j]),
{
    lemma_select_within(strategy, eligible, k);
    lemma_grouped_within(strategy, eligible, group_by, group_keys(eligible, group_by), k);
}

/// The sources that can serve a target are exactly the candidates that are unused, ended by the
/// time the target started, and agree with it on the linking attributes, in candidate order.
pub proof fn lemma_eligible_sources_exact(linking: Seq<char>, cands: Seq<Rc<Span>>, used: Seq<Seq<u8>>, t: Span)
    ensures
        forall|i: int| 0 <= i < cands.len() && source_eligible(linking, *#[trigger] cands[i], used, t)
            ==> eligible_sources(linking, cands, used, t).contains(cands[i]),
        forall|j: int| 0 <= j < eligible_sources(linking, cands, used, t).len()
            ==> source_eligible(linking, *#[trigger] eligible_sources(linking, cands, used, t)[j], used, t)
                && cands.contains(eligible_sources(linking, cands, used, t)[j]),
        eligible_sources(linking, cands, used, t).len() <= cands.len(),
    decreases cands.len(),
{
    if cands.len() > 0 {
        let p = cands.drop_last();
        lemma_eligible_sources_exact(linking, p, used, t);
        let e = eligible_sources(linking, cands, used, t);
        let pe = eligible_sources(linking, p, used, t);
        assert forall|i: int| 0 <= i < cands.len() && source_eligible(linking, *#[trigger] cands[i], used, t)
            implies e.contains(cands[i]) by {
            if i < p.len() {
                assert(cands[i] == p[i]);
                assert(pe.contains(p[i]));
                let w = choose|w: int| 0 <= w < pe.len() && pe[w] == p[i];
                assert(e[w] == pe[w]);
            } else {
                assert(cands[i] == cands.last());
                assert(e[e.len() - 1] == cands.last());
            }
        }
        assert forall|j: int| 0 <= j < e.len()
            implies source_eligible(linking, *#[trigger] e[j], used, t) && cands.contains(e[j]) by {
            if j < pe.len() {
                assert(e[j] == pe[j]);
                assert(p.contains(pe[j]));
                let q = choose|q: int| 0 <= q < p.len() && p[q] == pe[j];
                assert(cands[q] == e[j]);
            } else {
                assert(e[j] == cands.last());
                assert(cands[cands.len() - 1] == e[j]);
            }
        }
    }
}

/// The targets that can follow a source are exactly the candidates that are unused, started once
/// the source had ended, and agree with it on the linking attributes, in candidate order.
pub proof fn lemma_eligible_targets_exact(linking: Seq<char>, cands: Seq<Rc<Span>>, used: Seq<Seq<u8>>, s: Span)
    ensures
        forall|i: int| 0 <= i < cands.len() && target_eligible(linking, *#[trigger] cands[i], used, s)
            ==> eligible_targets(linking, cands, used, s).contains(cands[i]),
        forall|j: int| 0 <= j < eligible_targets(linking, cands, used, s).len()
            ==> target_eligible(linking, *#[trigger] eligible_targets(linking, cands, used, s)[j], used, s)
                && cands.contains(eligible_targets(linking, cands, used, s)[j]),
        eligible_targets(linking, cands, used, s).len() <= cands.len(),
    decreases cands.len(),
{
    if cands.len() > 0 {
        let p = cands.drop_last();
        lemma_eligible_targets_exact(linking, p, used, s);
        let e = eligible_targets(linking, cands, used, s);
        let pe = eligible_targets(linking, p, used, s);
        assert forall|i: int| 0 <= i < cands.len() && target_eligible(linking, *#[trigger] cands[i], used, s)
            implies e.contains(cands[i]) by {
            if i < p.len() {
                assert(cands[i] == p[i]);
                assert(pe.contains(p[i]));
                let w = choose|w: int| 0 <= w < pe.len() && pe[w] == p[i];
                assert(e[w] == pe[w]);
            } else {
                assert(cands[i] == cands.last());
                assert(e[e.len() - 1] == cands.last());
            }
        }
        assert forall|j: int| 0 <= j < e.len()
            implies target_eligible(linking, *#[trigger] e[j], used, s) && cands.contains(e[j]) by {
            if j < pe.len() {
                assert(e[j] == pe[j]);
                assert(p.contains(pe[j]));
                let q = choose|q: int| 0 <= q < p.len() && p[q] == pe[j];
                assert(cands[q] == e[j]);
            } else {
                assert(e[j] == cands.last());
                assert(cands[cands.len() - 1] == e[j]);
            }
        }
    }
}

/// Selecting `k` spans ordered by start time takes `k` of them (all, if fewer): with "earliest
/// first" none starts later than a span left out, with "latest first" none starts earlier.
pub proof fn lemma_select_spans_sorted(strategy: SourceTimingStrategy, spans: Seq<Rc<Span>>, k: nat)
    requires
        crate::analyze_utils::starts_sorted(spans),
    ensures
        select_spans(strategy, spans, k).len() == if k < spans.len() { k as int } else { spans.len() as int },
        forall|x: Rc<Span>| select_spans(strategy, spans, k).contains(x) ==> spans.contains(x),
        forall|a: int, b: int| 0 <= a < select_spans(strategy, spans, k).len() && 0 <= b < spans.len()
            && !select_spans(strategy, spans, k).contains(spans[b]) ==> (match strategy {
                SourceTimingStrategy::EarliestFirst => (#[trigger] select_spans(strategy, spans, k)[a]).start_time <= (#[trigger] spans[b]).start_time,
                SourceTimingStrategy::LatestFirst => select_spans(strategy, spans, k)[a].start_time >= spans[b].start_time,
            }),
{
    let n = if k < spans.len() { k as int } else { spans.len() as int };
    let sel = select_spans(strategy, spans, k);
    match strategy {
        SourceTimingStrategy::EarliestFirst => {
            assert forall|x: Rc<Span>| sel.contains(x) implies spans.contains(x) by {
                let w = choose|w: int| 0 <= w < sel.len() && sel[w] == x;
                assert(spans[w] == sel[w]);
            }
            assert forall|a: int, b: int| 0 <= a < sel.len() && 0 <= b < spans.len() && !sel.contains(spans[b])
                implies (#[trigger] sel[a]).start_time <= (#[trigger] spans[b]).start_time by {
                if b < n {
                    assert(sel[b] == spans[b]);
                } else {
                    assert(sel[a] == spans[a]);
                }
            }
        },
        SourceTimingStrategy::LatestFirst => {
            let off = spans.len() - n;
            assert forall|x: Rc<Span>| sel.contains(x) implies spans.contains(x) by {
                let w = choose|w: int| 0 <= w < sel.len() && sel[w] == x;
                assert(spans[off + w] == sel[w]);
            }
            assert forall|a: int, b: int| 0 <= a < sel.len() && 0 <= b < spans.len() && !sel.contains(spans[b])
                implies (#[trigger] sel[a]).start_time >= (#[trigger] spans[b]).start_time by {
                if b >= off {
                    assert(sel[b - off] == spans[b]);
                } else {
                    assert(sel[a] == spans[off + a]);
                }
            }
        },
    }
}

proof fn lemma_eligible_sources(r: LinkRules, cands: Seq<Rc<Span>>, used: Seq<Seq<u8>>, t: Rc<Span>)
    ensures
        forall|j: int| 0 <= j < sources_for(r, cands, used, t).len() ==> {
            &&& source_eligible(r.linking_attribute@, *#[trigger] sources_for(r, cands, used, t)[j], used, *t)
            &&& cands.contains(sources_for(r, cands, used, t)[j])
        },
    decreases cands.len(),
{
    if cands.len() > 0 {
        let p = cands.drop_last();
        lemma_eligible_sources(r, p, used, t);
        let e = sources_for(r, cands, used, t);
        let pe = sources_for(r, p, used, t);
        assert forall|j: int| 0 <= j < e.len() implies {
            &&& source_eligible(r.linking_attribute@, *#[trigger] e[j], used, *t)
            &&& cands.contains(e[j])
        } by {
            if j < pe.len() {
                assert(e[j] == pe[j]);
                let q2 = choose|q2: int| 0 <= q2 < p.len() && p[q2] == pe[j];
                assert(cands[q2] == e[j]);
            } else {
                assert(e[j] == cands.last());
                assert(cands[cands.len() - 1] == e[j]);
            }
        }
    }
}

proof fn lemma_eligible_targets(r: LinkRules, cands: Seq<Rc<Span>>, used: Seq<Seq<u8>>, s: Rc<Span>)
    ensures
        forall|j: int| 0 <= j < targets_for(r, cands, used, s).len() ==> {
            &&& target_eligible(r.linking_attribute@, *#[trigger] targets_for(r, cands, used, s)[j], used, *s)
            &&& cands.contains(targets_for(r, cands, used, s)[j])
        },
    decreases cands.len(),
{
    if cands.len() > 0 {
        let p = cands.drop_last();
        lemma_eligible_targets(r, p, used, s);
        let e = targets_for(r, cands, used, s);
        let pe = targets_for(r, p, used, s);
        assert forall|j: int| 0 <= j < e.len() implies {
            &&& target_eligible(r.linking_attribute@, *#[trigger] e[j], used, *s)
            &&& cands.contains(e[j])
        } by {
            if j < pe.len() {
                assert(e[j] == pe[j]);
                let q2 = choose|q2: int| 0 <= q2 < p.len() && p[q2] == pe[j];
                assert(cands[q2] == e[j]);
            } else {
                assert(e[j] == cands.last());
                assert(cands[cands.len() - 1] == e[j]);
            }
        }
    }
}

/// An N-to-1 link is sound: it has one target; each of its sources is a candidate that ended by
/// the time the target started and agrees with it on the linking attributes.
pub open spec fn n_to_one_link_sound(linking: Seq<char>, cands: Seq<Rc<Span>>, l: LinkV) -> bool {
    &&& l.1.len() == 1
    &&& forall|j: int| 0 <= j < l.0.len() ==> {
        &&& cands.contains(#[trigger] l.0[j])
        &&& l.0[j].end_time <= l.1[0].start_time
        &&& spans_linked(linking, *l.0[j], *l.1[0])
    }
}

/// A 1-to-N link is sound: it has one source; each of its targets is a candidate that started
/// once the source had ended and agrees with it on the linking attributes.
pub open spec fn one_to_n_link_sound(linking: Seq<char>, cands: Seq<Rc<Span>>, l: LinkV) -> bool {
    &&& l.0.len() == 1
    &&& forall|j: int| 0 <= j < l.1.len() ==> {
        &&& cands.contains(#[trigger] l.1[j])
        &&& l.1[j].start_time >= l.0[0].end_time
        &&& spans_linked(linking, *l.0[0], *l.1[j])
    }
}

/// No span of the first list has the id of a span of the second.
pub open spec fn ids_apart(a: Seq<Rc<Span>>, b: Seq<Rc<Span>>) -> bool {
    forall|i: int, j: int| 0 <= i < a.len() && 0 <= j < b.len() ==> (#[trigger] a[i]).span_id@ != (#[trigger] b[j]).span_id@
}

/// No span of the list has one of the ids.
pub open spec fn ids_unused(a: Seq<Rc<Span>>, used: Seq<Seq<u8>>) -> bool {
    forall|i: int| 0 <= i < a.len() ==> !used.contains(#[trigger] a[i].span_id@)
}

/// N-to-1 links are sound, and no span is used twice: the links found after `st` use no source
/// and no target that was used before, and no two of them share a source or a target.
pub proof fn lemma_n_to_one_no_reuse(r: LinkRules, cands: Seq<Rc<Span>>, st: RunState, targets: Seq<Rc<Span>>)
    ensures
        ({
            let out = n_to_one_run(r, cands, st, targets);
            &&& out.2.len() >= st.2.len()
            &&& forall|m: int| 0 <= m < st.2.len() ==> out.2[m] == st.2[m]
            &&& forall|m: int| st.2.len() <= m < out.2.len() ==> {
                &&& n_to_one_link_sound(r.linking_attribute@, cands, #[trigger] out.2[m])
                &&& ids_unused(out.2[m].0, st.0)
                &&& ids_unused(out.2[m].1, st.1)
            }
            &&& forall|m1: int, m2: int| st.2.len() <= m1 < m2 < out.2.len() ==> {
                &&& ids_apart(#[trigger] out.2[m1].0, #[trigger] out.2[m2].0)
                &&& ids_apart(out.2[m1].1, out.2[m2].1)
            }
            &&& forall|x: Seq<u8>| st.0.contains(x) ==> out.0.contains(x)
            &&& forall|x: Seq<u8>| st.1.contains(x) ==> out.1.contains(x)
            &&& forall|m: int, j: int| st.2.len() <= m < out.2.len() && 0 <= j < out.2[m].0.len()
                ==> out.0.contains((#[trigger] out.2[m].0[j]).span_id@)
            &&& forall|m: int, j: int| st.2.len() <= m < out.2.len() && 0 <= j < out.2[m].1.len()
                ==> out.1.contains((#[trigger] out.2[m].1[j]).span_id@)
        }),
    decreases targets.len(),
{
    if targets.len() > 0 {
        let mid = n_to_one_run(r, cands, st, targets.drop_last());
        lemma_n_to_one_no_reuse(r, cands, st, targets.drop_last());
        let t = targets.last();
        let out = n_to_one_run(r, cands, st, targets);
        assert(out == n_to_one_step(r, cands, mid, t));
        if !mid.1.contains(t.span_id@) {
            let el = sources_for(r, cands, mid.0, t);
            lemma_selection_within(r.timing, el, r.group_by_attribute@, r.threshold as nat);
            lemma_eligible_sources(r, cands, mid.0, t);
            match form_selection(r.timing, el, r.group_by_attribute@, r.threshold as nat) {
                None => {},
                Some(sel) => {
                    let l = out.2.last();
                    assert(l == (sel, seq![t], n_to_one_delay(r, el, sel, *t)));
                    assert forall|j: int| 0 <= j < sel.len() implies out.0.contains((#[trigger] sel[j]).span_id@) by {
                        lemma_span_ids(sel);
                        assert(out.0[mid.0.len() + j] == sel[j].span_id@);
                    }
                    assert forall|x: Seq<u8>| mid.0.contains(x) implies out.0.contains(x) by {
                        let q = choose|q: int| 0 <= q < mid.0.len() && mid.0[q] == x;
                        assert(out.0[q] == x);
                    }
                    assert forall|x: Seq<u8>| mid.1.contains(x) implies out.1.contains(x) by {
                        let q = choose|q: int| 0 <= q < mid.1.len() && mid.1[q] == x;
                        assert(out.1[q] == x);
                    }
                    assert(out.1[mid.1.len() as int] == t.span_id@);
                    assert forall|j: int| 0 <= j < sel.len() implies {
                        &&& !mid.0.contains((#[trigger] sel[j]).span_id@)
                        &&& cands.contains(sel[j])
                        &&& sel[j].end_time <= t.start_time
                        &&& spans_linked(r.linking_attribute@, *sel[j], *t)
                    } by {
                        assert(el.contains(sel[j]));
                        let q = choose|q: int| 0 <= q < el.len() && el[q] == sel[j];
                        assert(el[q] == sel[j]);
                    }
                    assert forall|m: int, j: int| st.2.len() <= m < mid.2.len() && 0 <= j < mid.2[m].0.len()
                        implies out.0.contains((#[trigger] mid.2[m].0[j]).span_id@) by {
                        assert(mid.2[m] == out.2[m]);
                    }
                }
            }
        }
    }
}

/// 1-to-N links are sound, and no span is used twice: the links found after `st` use no source
/// and no target that was used before, and no two of them share a source or a target.
pub proof fn lemma_one_to_n_no_reuse(r: LinkRules, cands: Seq<Rc<Span>>, st: RunState, sources: Seq<Rc<Span>>)
    ensures
        ({
            let out = one_to_n_run(r, cands, st, sources);
            &&& out.2.len() >= st.2.len()
            &&& forall|m: int| 0 <= m < st.2.len() ==> out.2[m] == st.2[m]
            &&& forall|m: int| st.2.len() <= m < out.2.len() ==> {
                &&& one_to_n_link_sound(r.linking_attribute@, cands, #[trigger] out.2[m])
                &&& ids_unused(out.2[m].0, st.0)
                &&& ids_unused(out.2[m].1, st.1)
            }
            &&& forall|m1: int, m2: int| st.2.len() <= m1 < m2 < out.2.len() ==> {
                &&& ids_apart(#[trigger] out.2[m1].0, #[trigger] out.2[m2].0)
                &&& ids_apart(out.2[m1].1, out.2[m2].1)
            }
            &&& forall|x: Seq<u8>| st.0.contains(x) ==> out.0.contains(x)
            &&& forall|x: Seq<u8>| st.1.contains(x) ==> out.1.contains(x)
            &&& forall|m: int, j: int| st.2.len() <= m < out.2.len() && 0 <= j < out.2[m].0.len()
                ==> out.0.contains((#[trigger] out.2[m].0[j]).span_id@)
            &&& forall|m: int, j: int| st.2.len() <= m < out.2.len() && 0 <= j < out.2[m].1.len()
                ==> out.1.contains((#[trigger] out.2[m].1[j]).span_id@)
        }),
    decreases sources.len(),
{
    if sources.len() > 0 {
        let mid = one_to_n_run(r, cands, st, sources.drop_last());
        lemma_one_to_n_no_reuse(r, cands, st, sources.drop_last());
        let s = sources.last();
        let out = one_to_n_run(r, cands, st, sources);
        assert(out == one_to_n_step(r, cands, mid, s));
        if !mid.0.contains(s.span_id@) {
            let el = targets_for(r, cands, mid.1, s);
            lemma_selection_within(r.timing, el, r.group_by_attribute@, r.threshold as nat);
            lemma_eligible_targets(r, cands, mid.1, s);
            match form_selection(r.timing, el, r.group_by_attribute@, r.threshold as nat) {
                None => {},
                Some(sel) => {
                    let l = out.2.last();
                    assert(l == (seq![s], sel, abs_diff(latest_start(sel), s.end_time as int)));
                    assert forall|j: int| 0 <= j < sel.len() implies out.1.contains((#[trigger] sel[j]).span_id@) by {
                        lemma_span_ids(sel);
                        assert(out.1[mid.1.len() + j] == sel[j].span_id@);
                    }
                    assert forall|x: Seq<u8>| mid.0.contains(x) implies out.0.contains(x) by {
                        let q = choose|q: int| 0 <= q < mid.0.len() && mid.0[q] == x;
                        assert(out.0[q] == x);
                    }
                    assert forall|x: Seq<u8>| mid.1.contains(x) implies out.1.contains(x) by {
                        let q = choose|q: int| 0 <= q < mid.1.len() && mid.1[q] == x;
                        assert(out.1[q] == x);
                    }
                    assert(out.0[mid.0.len() as int] == s.span_id@);
                    assert forall|j: int| 0 <= j < sel.len() implies {
                        &&& !mid.1.contains((#[trigger] sel[j]).span_id@)
                        &&& cands.contains(sel[j])
                        &&& sel[j].start_time >= s.end_time
                        &&& spans_linked(r.linking_attribute@, *s, *sel[j])
                    } by {
                        assert(el.contains(sel[j]));
                        let q = choose|q: int| 0 <= q < el.len() && el[q] == sel[j];
                        assert(el[q] == sel[j]);
                    }
                    assert forall|m: int, j: int| st.2.len() <= m < mid.2.len() && 0 <= j < mid.2[m].1.len()
                        implies out.1.contains((#[trigger] mid.2[m].1[j]).span_id@) by {
                        assert(mid.2[m] == out.2[m]);
                    }
                }
            }
        }
    }
}

/// All spans are recorded by the named node.
pub open spec fn all_on_node(spans: Seq<Rc<Span>>, n: Seq<char>) -> bool {
    forall|i: int| 0 <= i < spans.len() ==> (#[trigger] spans[i]).node.name@ == n
}

proof fn lemma_one_node(spans: Seq<Rc<Span>>, n: Seq<char>)
    requires
        all_on_node(spans, n),
    ensures
        spans_on_node(spans, n) == spans,
        spans.len() > 0 ==> node_names(spans) == seq![n],
    decreases spans.len(),
{
    if spans.len() > 0 {
        let p = spans.drop_last();
        assert(all_on_node(p, n)) by {
            assert forall|i: int| 0 <= i < p.len() implies (#[trigger] p[i]).node.name@ == n by {
                assert(p[i] == spans[i]);
            }
        }
        lemma_one_node(p, n);
        assert(spans[spans.len() - 1].node.name@ == n);
        assert(spans.last() == spans[spans.len() - 1]);
        assert(p.push(spans.last()) =~= spans);
        let r = node_names(p);
        let x = spans.last().node.name@;
        assert(x == n);
        if p.len() > 0 {
            assert(r == seq![n]);
            assert(r[0] == n);
            assert(r.contains(x));
            assert(node_names(spans) == r);
        } else {
            assert(r == Seq::<Seq<char>>::empty());
            assert(!r.contains(x));
            assert(node_names(spans) == r.push(x));
            assert(r.push(x) =~= seq![n]);
        }
    }
}

proof fn lemma_named_on_node(all: Seq<Rc<Span>>, name: Seq<char>, n: Seq<char>)
    requires
        all_on_node(all, n),
    ensures
        all_on_node(named_spans(all, name), n),
    decreases all.len(),
{
    if all.len() > 0 {
        let p = all.drop_last();
        assert(all_on_node(p, n)) by {
            assert forall|i: int| 0 <= i < p.len() implies (#[trigger] p[i]).node.name@ == n by {
                assert(p[i] == all[i]);
            }
        }
        lemma_named_on_node(p, name, n);
        assert(all[all.len() - 1].node.name@ == n);
    }
}

proof fn lemma_sorted_on_node(spans: Seq<Rc<Span>>, n: Seq<char>)
    requires
        all_on_node(spans, n),
    ensures
        all_on_node(sort_by_start(spans), n),
        sort_by_start(spans).len() == spans.len(),
{
    broadcast use vstd::seq_lib::to_multiset_contains, vstd::seq_lib::to_multiset_len;
    lemma_sort_by_start_sorted(spans);
    let q = sort_by_start(spans);
    assert forall|i: int| 0 <= i < q.len() implies (#[trigger] q[i]).node.name@ == n by {
        assert(q.to_multiset().count(q[i]) > 0);
        assert(spans.contains(q[i]));
        let j = choose|j: int| 0 <= j < spans.len() && spans[j] == q[i];
        assert(spans[j].node.name@ == n);
    }
    assert(q.to_multiset().len() == spans.to_multiset().len());
}

/// When every span is recorded by one node, limiting the sources (or targets) to the node of the
/// spans they are linked with changes nothing: both scopes give the same analysis.
pub proof fn lemma_single_node_scopes_agree(
    source_name: Option<String>,
    target_name: Option<String>,
    all: Seq<Rc<Span>>,
    r: LinkRules,
    card: AnalysisCardinality,
    n: Seq<char>,
)
    requires
        all_on_node(all, n),
    ensures
        analysis_outcome(source_name, target_name, all, r, SourceScope::SameNode, card)
            == analysis_outcome(source_name, target_name, all, r, SourceScope::AllNodes, card),
{
    if source_name is Some && target_name is Some {
        let s = source_name->0;
        let t = target_name->0;
        let sources = named_spans(all, s@);
        let targets = named_spans(all, t@);
        if sources.len() > 0 && targets.len() > 0 {
            lemma_named_on_node(all, s@, n);
            lemma_named_on_node(all, t@, n);
            let ss = sort_by_start(sources);
            let ts = sort_by_start(targets);
            lemma_sorted_on_node(sources, n);
            lemma_sorted_on_node(targets, n);
            lemma_one_node(ss, n);
            lemma_one_node(ts, n);
            assert(seq![n].contains(n)) by {
                assert(seq![n][0] == n);
            }
            assert(seq![n].last() == n);
            assert(seq![n].drop_last() =~= Seq::<Seq<char>>::empty());
            assert(spans_on_node(ts, n).len() > 0);
            assert(names_with_spans(Seq::<Seq<char>>::empty(), ts) == Seq::<Seq<char>>::empty());
            assert(names_with_spans(seq![n], ts) =~= seq![n]) by {
                assert(Seq::<Seq<char>>::empty().push(n) =~= seq![n]);
            }
            assert(names_not_in(seq![n], Seq::<Seq<char>>::empty()) == Seq::<Seq<char>>::empty());
            assert(names_not_in(seq![n], seq![n]) =~= Seq::<Seq<char>>::empty());
            assert(seq![n] + Seq::<Seq<char>>::empty() =~= seq![n]);
            let nodes = seq![n];
            assert(n_to_one_nodes(SourceScope::SameNode, ss, ts) == nodes);
            assert(n_to_one_nodes(SourceScope::AllNodes, ss, ts) == nodes);
            assert(one_to_n_nodes(SourceScope::SameNode, ss, ts) == nodes);
            assert(one_to_n_nodes(SourceScope::AllNodes, ss, ts) == nodes);
            assert(nodes.drop_last() =~= Seq::<Seq<char>>::empty());
            assert(nodes.last() == n);
            assert(spans_on_node(ss, n) == ss);
            assert(spans_on_node(ts, n) == ts);
            let e: Seq<Seq<char>> = Seq::empty();
            let base: NodeFold = (Seq::empty(), Seq::empty());
            assert(n_to_one_fold(r, SourceScope::SameNode, ss, ts, e) == base);
            assert(n_to_one_fold(r, SourceScope::AllNodes, ss, ts, e) == base);
            assert(one_to_n_fold(r, SourceScope::SameNode, ss, ts, e) == base);
            assert(one_to_n_fold(r, SourceScope::AllNodes, ss, ts, e) == base);
            let start: RunState = (Seq::empty(), Seq::empty(), Seq::empty());
            let run1 = n_to_one_run(r, ss, start, ts);
            let links1 = if run1.2.len() > 0 { base.1.push((n, run1.2)) } else { base.1 };
            assert(n_to_one_fold(r, SourceScope::SameNode, ss, ts, nodes).1 == links1);
            assert(n_to_one_fold(r, SourceScope::AllNodes, ss, ts, nodes).1 == links1);
            let run2 = one_to_n_run(r, ts, start, ss);
            let links2 = if run2.2.len() > 0 { base.1.push((n, run2.2)) } else { base.1 };
            assert(one_to_n_fold(r, SourceScope::SameNode, ss, ts, nodes).1 == links2);
            assert(one_to_n_fold(r, SourceScope::AllNodes, ss, ts, nodes).1 == links2);
        }
    }
}

/// Number of the spans in the given group.
pub open spec fn count_in_group(spans: Seq<Rc<Span>>, attr: Seq<char>, key: Seq<char>) -> nat
    decreases spans.len(),
{
    if spans.len() == 0 {
        0
    } else {
        count_in_group(spans.drop_last(), attr, key) + if group_key(*spans.last(), attr) == Some(key) { 1nat } else { 0nat }
    }
}

proof fn lemma_count_concat(a: Seq<Rc<Span>>, b: Seq<Rc<Span>>, attr: Seq<char>, key: Seq<char>)
    ensures
        count_in_group(a + b, attr, key) == count_in_group(a, attr, key) + count_in_group(b, attr, key),
    decreases b.len(),
{
    if b.len() > 0 {
        lemma_count_concat(a, b.drop_last(), attr, key);
        assert((a + b).drop_last() =~= a + b.drop_last());
        assert((a + b).last() == b.last());
    } else {
        assert(a + b =~= a);
    }
}

proof fn lemma_count_one_group(spans: Seq<Rc<Span>>, attr: Seq<char>, y: Seq<char>, key: Seq<char>)
    requires
        forall|i: int| 0 <= i < spans.len() ==> group_key(*#[trigger] spans[i], attr) == Some(y),
    ensures
        count_in_group(spans, attr, key) == if key == y { spans.len() } else { 0 },
    decreases spans.len(),
{
    if spans.len() > 0 {
        let p = spans.drop_last();
        assert forall|i: int| 0 <= i < p.len() implies group_key(*#[trigger] p[i], attr) == Some(y) by {
            assert(p[i] == spans[i]);
        }
        lemma_count_one_group(p, attr, y, key);
        assert(group_key(*spans[spans.len() - 1], attr) == Some(y));
    }
}

proof fn lemma_members_in_group(spans: Seq<Rc<Span>>, attr: Seq<char>, key: Seq<char>)
    ensures
        forall|i: int| 0 <= i < group_members(spans, attr, key).len()
            ==> group_key(*#[trigger] group_members(spans, attr, key)[i], attr) == Some(key),
    decreases spans.len(),
{
    if spans.len() > 0 {
        lemma_members_in_group(spans.drop_last(), attr, key);
    }
}

proof fn lemma_group_keys_distinct(spans: Seq<Rc<Span>>, attr: Seq<char>)
    ensures
        forall|i: int, j: int| 0 <= i < j < group_keys(spans, attr).len()
            ==> #[trigger] group_keys(spans, attr)[i] != #[trigger] group_keys(spans, attr)[j],
    decreases spans.len(),
{
    if spans.len() > 0 {
        lemma_group_keys_distinct(spans.drop_last(), attr);
        let r = group_keys(spans.drop_last(), attr);
        let g = group_keys(spans, attr);
        assert forall|i: int, j: int| 0 <= i < j < g.len() implies #[trigger] g[i] != #[trigger] g[j] by {
            if j < r.len() {
                assert(g[i] == r[i] && g[j] == r[j]);
            } else {
                assert(g[i] == r[i]);
                assert(!r.contains(g[j]));
            }
        }
    }
}

proof fn lemma_select_len(strategy: SourceTimingStrategy, spans: Seq<Rc<Span>>, k: nat)
    requires
        spans.len() >= k,
    ensures
        select_spans(strategy, spans, k).len() == k,
{
}

proof fn lemma_grouped_counts(
    strategy: SourceTimingStrategy,
    spans: Seq<Rc<Span>>,
    attr: Seq<char>,
    keys: Seq<Seq<char>>,
    k: nat,
    key: Seq<char>,
)
    requires
        forall|i: int, j: int| 0 <= i < j < keys.len() ==> #[trigger] keys[i] != #[trigger] keys[j],
        forall|i: int| 0 <= i < keys.len() ==> #[trigger] group_members(spans, attr, keys[i]).len() >= k,
    ensures
        grouped_selection(strategy, spans, attr, keys, k).len() == k * keys.len(),
        count_in_group(grouped_selection(strategy, spans, attr, keys, k), attr, key)
            == if keys.contains(key) { k } else { 0 },
    decreases keys.len(),
{
    if keys.len() > 0 {
        let dl = keys.drop_last();
        let last = keys.last();
        assert forall|i: int, j: int| 0 <= i < j < dl.len() implies #[trigger] dl[i] != #[trigger] dl[j] by {
            assert(keys[i] != keys[j]);
        }
        assert forall|i: int| 0 <= i < dl.len() implies #[trigger] group_members(spans, attr, dl[i]).len() >= k by {
            assert(dl[i] == keys[i]);
        }
        lemma_grouped_counts(strategy, spans, attr, dl, k, key);
        let members = group_members(spans, attr, last);
        assert(members.len() >= k) by {
            assert(keys[keys.len() - 1] == last);
        }
        let sel = select_spans(strategy, members, k);
        lemma_select_len(strategy, members, k);
        lemma_members_in_group(spans, attr, last);
        lemma_select_within(strategy, members, k);
        assert forall|i: int| 0 <= i < sel.len() implies group_key(*#[trigger] sel[i], attr) == Some(last) by {
            assert(members.contains(sel[i]));
            let q = choose|q: int| 0 <= q < members.len() && members[q] == sel[i];
            assert(group_key(*members[q], attr) == Some(last));
        }
        lemma_count_one_group(sel, attr, last, key);
        let before = grouped_selection(strategy, spans, attr, dl, k);
        lemma_count_concat(before, sel, attr, key);
        assert(k * dl.len() + k == k * keys.len()) by (nonlinear_arith)
            requires
                dl.len() + 1 == keys.len(),
        ;
        if key == last {
            assert(!dl.contains(key)) by {
                if dl.contains(key) {
                    let q = choose|q: int| 0 <= q < dl.len() && dl[q] == key;
                    assert(keys[q] != keys[keys.len() - 1]);
                }
            }
            assert(keys.contains(key)) by {
                assert(keys[keys.len() - 1] == key);
            }
        } else {
            assert(keys.contains(key) == dl.contains(key)) by {
                if keys.contains(key) {
                    let q = choose|q: int| 0 <= q < keys.len() && keys[q] == key;
                    assert(q < dl.len());
                    assert(dl[q] == key);
                }
                if dl.contains(key) {
                    let q = choose|q: int| 0 <= q < dl.len() && dl[q] == key;
                    assert(keys[q] == key);
                }
            }
        }
    }
}

/// A link takes exactly the threshold number of spans from the eligible ones: without grouping,
/// that many in all; with grouping, that many from each group and none from elsewhere.
pub proof fn lemma_selection_takes_threshold(
    strategy: SourceTimingStrategy,
    eligible: Seq<Rc<Span>>,
    group_by: Seq<char>,
    k: nat,
    key: Seq<char>,
)
    ensures
        form_selection(strategy, eligible, group_by, k) matches Some(sel) ==> {
            &&& group_by.len() == 0 ==> sel.len() == k
            &&& group_by.len() > 0 ==> {
                &&& sel.len() == k * group_keys(eligible, group_by).len()
                &&& count_in_group(sel, group_by, key)
                    == if group_keys(eligible, group_by).contains(key) { k } else { 0 }
            }
        },
{
    if k > 0 {
        if group_by.len() == 0 {
            if eligible.len() >= k {
                lemma_select_len(strategy, eligible, k);
            }
        } else {
            let keys = group_keys(eligible, group_by);
            if keys.len() > 0 && groups_meet_threshold(eligible, group_by, k) {
                lemma_group_keys_distinct(eligible, group_by);
                lemma_grouped_counts(strategy, eligible, group_by, keys, k, key);
            }
        }
    }
}

} // verus!
