//! Duration statistics of the spans with a given name, overall and per node, optionally
//! restricted by an attribute filter such as "attr1,attr2=value".

use vstd::prelude::*;
use std::rc::Rc;

use crate::analyze_utils::{
    analysis_spans, collect_matching_spans, named_spans, names_cover, process_spans_for_analysis, rc_clone,
    sorted_by_lowercase,
};
use crate::text::{chars_of, first_index, first_index_of, owned, push_str, split_chars, split_seq, string_of, trim, trim_chars};
use crate::types::{attr_get, attr_has, copy_span, fields_copy_of, get_attribute, has_attribute, segments_of, value_text, value_to_text, Span};

verus! {

broadcast use vstd::std_specs::vec::group_vec_axioms;

/// Which statistics a request is about: those of all nodes or those of one node.
pub enum NodeIdentifier {
    AllNodes,
    Node(String),
}

/// The duration of a span in nanoseconds: negative when it ends before it starts.
pub open spec fn duration_of(s: Span) -> i128 {
    (s.end_time - s.start_time) as i128
}

/// The durations of the spans.
pub open spec fn durations(spans: Seq<Rc<Span>>) -> Seq<i128> {
    spans.map_values(|s: Rc<Span>| duration_of(*s))
}

/// Smallest value, or `i128::MAX` for none.
pub open spec fn min_of(s: Seq<i128>) -> i128
    decreases s.len(),
{
    if s.len() == 0 {
        i128::MAX
    } else {
        let m = min_of(s.drop_last());
        if s.last() < m { s.last() } else { m }
    }
}

/// Largest value, or `i128::MIN` for none.
pub open spec fn max_of(s: Seq<i128>) -> i128
    decreases s.len(),
{
    if s.len() == 0 {
        i128::MIN
    } else {
        let m = max_of(s.drop_last());
        if s.last() > m { s.last() } else { m }
    }
}

/// Position of the first of the smallest values.
pub open spec fn first_min_index(d: Seq<i128>) -> int
    decreases d.len(),
{
    if d.len() <= 1 {
        0
    } else if d.last() < min_of(d.drop_last()) {
        d.len() - 1
    } else {
        first_min_index(d.drop_last())
    }
}

/// Position of the first of the largest values.
pub open spec fn first_max_index(d: Seq<i128>) -> int
    decreases d.len(),
{
    if d.len() <= 1 {
        0
    } else if d.last() > max_of(d.drop_last()) {
        d.len() - 1
    } else {
        first_max_index(d.drop_last())
    }
}

/// Number of values no greater than `v`.
pub open spec fn count_no_greater(s: Seq<i128>, v: i128) -> nat
    decreases s.len(),
{
    if s.len() == 0 {
        0
    } else {
        count_no_greater(s.drop_last(), v) + if s.last() <= v { 1nat } else { 0nat }
    }
}

/// The values in increasing order, each inserted after the values no greater than it.
pub open spec fn sorted_durations(s: Seq<i128>) -> Seq<i128>
    decreases s.len(),
{
    if s.len() == 0 {
        s
    } else {
        let t = sorted_durations(s.drop_last());
        t.insert(count_no_greater(t, s.last()) as int, s.last())
    }
}

proof fn lemma_count_no_greater_bound(s: Seq<i128>, v: i128)
    ensures
        count_no_greater(s, v) <= s.len(),
    decreases s.len(),
{
    if s.len() > 0 {
        lemma_count_no_greater_bound(s.drop_last(), v);
    }
}

proof fn lemma_sorted_durations_len(s: Seq<i128>)
    ensures
        sorted_durations(s).len() == s.len(),
    decreases s.len(),
{
    if s.len() > 0 {
        lemma_sorted_durations_len(s.drop_last());
        lemma_count_no_greater_bound(sorted_durations(s.drop_last()), s.last());
    }
}

/// The durations are in increasing order.
pub open spec fn durations_ascending(s: Seq<i128>) -> bool {
    forall|i: int, j: int| 0 <= i < j < s.len() ==> s[i] <= s[j]
}

/// In increasing durations, those no greater than `v` come first, `count_no_greater` of them.
proof fn lemma_count_no_greater_split(t: Seq<i128>, v: i128)
    requires
        durations_ascending(t),
    ensures
        count_no_greater(t, v) <= t.len(),
        forall|i: int| 0 <= i < count_no_greater(t, v) ==> t[i] <= v,
        forall|i: int| count_no_greater(t, v) <= i < t.len() ==> t[i] > v,
    decreases t.len(),
{
    if t.len() > 0 {
        let p = t.drop_last();
        assert(durations_ascending(p));
        lemma_count_no_greater_split(p, v);
        let c = count_no_greater(t, v);
        if t.last() <= v {
            assert(count_no_greater(p, v) == p.len()) by {
                if count_no_greater(p, v) < p.len() {
                    assert(p[p.len() - 1] > v);
                    assert(t[t.len() - 2] <= t[t.len() - 1]);
                }
            }
            assert(c == t.len());
            assert forall|i: int| 0 <= i < c implies t[i] <= v by {
                assert(t[i] <= t[t.len() - 1]);
            }
        } else {
            assert(c == count_no_greater(p, v));
            assert forall|i: int| 0 <= i < c implies t[i] <= v by {
                assert(t[i] == p[i]);
            }
            assert forall|i: int| c <= i < t.len() implies t[i] > v by {
                if i < p.len() {
                    assert(t[i] == p[i]);
                } else {
                    assert(t[i] == t.last());
                }
            }
        }
    }
}

/// The sorted durations are the durations themselves, in increasing order: an ascending
/// permutation of them.
pub proof fn lemma_sorted_durations(s: Seq<i128>)
    ensures
        durations_ascending(sorted_durations(s)),
        sorted_durations(s).to_multiset() == s.to_multiset(),
    decreases s.len(),
{
    broadcast use vstd::seq_lib::to_multiset_build, vstd::seq_lib::to_multiset_insert;
    if s.len() == 0 {
        assert(sorted_durations(s) =~= Seq::<i128>::empty());
    } else {
        let p = s.drop_last();
        let x = s.last();
        lemma_sorted_durations(p);
        let t = sorted_durations(p);
        lemma_count_no_greater_split(t, x);
        let c = count_no_greater(t, x) as int;
        let u = t.insert(c, x);
        assert(sorted_durations(s) == u);
        assert forall|i: int, j: int| 0 <= i < j < u.len() implies u[i] <= u[j] by {
            if j < c {
                assert(u[i] == t[i] && u[j] == t[j]);
            } else if j == c {
                assert(u[i] == t[i]);
            } else if i < c {
                assert(u[i] == t[i] && u[j] == t[j - 1]);
            } else if i == c {
                assert(u[j] == t[j - 1]);
            } else {
                assert(u[i] == t[i - 1] && u[j] == t[j - 1]);
            }
        }
        assert(p.push(x) =~= s);
        assert(u.to_multiset() == t.to_multiset().insert(x));
        assert(s.to_multiset() == p.to_multiset().insert(x));
    }
}

/// Two ascending sequences of the same durations are the same.
proof fn lemma_durations_ascending_unique(a: Seq<i128>, b: Seq<i128>)
    requires
        durations_ascending(a),
        durations_ascending(b),
        a.to_multiset() == b.to_multiset(),
    ensures
        a == b,
    decreases a.len(),
{
    broadcast use vstd::seq_lib::to_multiset_build, vstd::seq_lib::to_multiset_len,
        vstd::seq_lib::to_multiset_contains;
    if a.len() == 0 {
        assert(b.to_multiset().len() == 0);
        assert(b =~= a);
    } else {
        assert(a.to_multiset().len() == a.len());
        assert(b.to_multiset().len() == b.len());
        assert(b.len() == a.len());
        let x = a.last();
        let y = b.last();
        assert(a.to_multiset().count(x) > 0) by { assert(a.contains(x)) by { assert(a[a.len() - 1] == x); } }
        assert(b.to_multiset().count(y) > 0) by { assert(b.contains(y)) by { assert(b[b.len() - 1] == y); } }
        assert(b.contains(x));
        assert(a.contains(y));
        let ib = choose|i: int| 0 <= i < b.len() && b[i] == x;
        let ia = choose|i: int| 0 <= i < a.len() && a[i] == y;
        assert(x <= y) by { if ib < b.len() - 1 { assert(b[ib] <= b[b.len() - 1]); } }
        assert(y <= x) by { if ia < a.len() - 1 { assert(a[ia] <= a[a.len() - 1]); } }
        let pa = a.drop_last();
        let pb = b.drop_last();
        assert(pa.push(x) =~= a);
        assert(pb.push(y) =~= b);
        assert(pa.to_multiset().insert(x) == pb.to_multiset().insert(x));
        assert(pa.to_multiset() =~= pb.to_multiset()) by {
            assert forall|v: i128| pa.to_multiset().count(v) == pb.to_multiset().count(v) by {
                assert(pa.to_multiset().insert(x).count(v) == pb.to_multiset().insert(x).count(v));
            }
        }
        lemma_durations_ascending_unique(pa, pb);
    }
}

/// The median values of durations do not depend on the order the durations were added in: the
/// same durations, in any order, sort the same.
pub proof fn lemma_sorted_durations_order_free(a: Seq<i128>, b: Seq<i128>)
    requires
        a.to_multiset() == b.to_multiset(),
    ensures
        sorted_durations(a) == sorted_durations(b),
{
    lemma_sorted_durations(a);
    lemma_sorted_durations(b);
    lemma_durations_ascending_unique(sorted_durations(a), sorted_durations(b));
}

/// The smallest and the largest duration, and the first span of each: `min_of` is no greater
/// than any duration and is one of them, `first_min_index` is the first position where it
/// occurs; the same holds of `max_of` and `first_max_index`.
pub proof fn lemma_duration_extremes(d: Seq<i128>)
    requires
        d.len() > 0,
    ensures
        forall|i: int| 0 <= i < d.len() ==> min_of(d) <= d[i] && d[i] <= max_of(d),
        0 <= first_min_index(d) < d.len(),
        d[first_min_index(d)] == min_of(d),
        forall|i: int| 0 <= i < first_min_index(d) ==> d[i] > min_of(d),
        0 <= first_max_index(d) < d.len(),
        d[first_max_index(d)] == max_of(d),
        forall|i: int| 0 <= i < first_max_index(d) ==> d[i] < max_of(d),
    decreases d.len(),
{
    lemma_first_extremes(d);
    if d.len() > 1 {
        let p = d.drop_last();
        lemma_duration_extremes(p);
        assert forall|i: int| 0 <= i < p.len() implies d[i] == p[i] by {}
    } else {
        assert(min_of(d.drop_last()) == i128::MAX);
        assert(max_of(d.drop_last()) == i128::MIN);
    }
}

/// Statistics of span durations in nanoseconds, which are negative for a span that ends before
/// it starts.
pub struct DurationStatistics {
    pub count: usize,
    pub min: i128,
    pub max: i128,
    pub data_points: Vec<i128>,
}

impl DurationStatistics {
    /// The count, minimum and maximum agree with the values in `data_points`.
    pub open spec fn wf(&self) -> bool {
        &&& self.count == self.data_points@.len()
        &&& self.min == min_of(self.data_points@)
        &&& self.max == max_of(self.data_points@)
    }

    /// Statistics of no values.
    pub fn new() -> (r: DurationStatistics)
        ensures
            r.wf(),
            r.data_points@ == Seq::<i128>::empty(),
    {
        DurationStatistics { count: 0, min: i128::MAX, max: i128::MIN, data_points: Vec::new() }
    }

    /// Adds a value.
    pub fn add_value(&mut self, value: i128)
        requires
            old(self).wf(),
            old(self).count < usize::MAX,
        ensures
            final(self).wf(),
            final(self).data_points@ == old(self).data_points@.push(value),
    {
        assert(self.data_points@.push(value).drop_last() =~= self.data_points@);
        self.count += 1;
        if value < self.min {
            self.min = value;
        }
        if value > self.max {
            self.max = value;
        }
        self.data_points.push(value);
    }

    /// The middle values of the sorted durations: the middle one twice for an odd count, the
    /// two middle ones for an even count; none without durations. Their mean is the median.
    pub fn median_values(&self) -> (r: Option<(i128, i128)>)
        ensures
            self.data_points@.len() == 0 ==> r is None,
            self.data_points@.len() > 0 ==> r == Some({
                let t = sorted_durations(self.data_points@);
                let mid = (t.len() / 2) as int;
                if t.len() % 2 == 0 { (t[mid - 1], t[mid]) } else { (t[mid], t[mid]) }
            }),
    {
        let d = &self.data_points;
        if d.len() == 0 {
            return None;
        }
        let mut sorted: Vec<i128> = Vec::new();
        for i in 0..d.len()
            invariant
                sorted@ == sorted_durations(d@.take(i as int)),
        {
            assert(d@.take(i + 1).drop_last() =~= d@.take(i as int));
            let x = d[i];
            let mut p: usize = 0;
            for j in 0..sorted.len()
                invariant
                    p == count_no_greater(sorted@.take(j as int), x),
                    p <= j,
            {
                assert(sorted@.take(j + 1).drop_last() =~= sorted@.take(j as int));
                if sorted[j] <= x {
                    p = p + 1;
                }
            }
            assert(sorted@.take(sorted@.len() as int) =~= sorted@);
            sorted.insert(p, x);
        }
        assert(d@.take(d@.len() as int) =~= d@);
        proof {
            lemma_sorted_durations_len(d@);
        }
        let mid = sorted.len() / 2;
        if sorted.len() % 2 == 0 {
            Some((sorted[mid - 1], sorted[mid]))
        } else {
            Some((sorted[mid], sorted[mid]))
        }
    }
}

/// Duration statistics of spans, with the first spans of minimal and of maximal duration.
pub struct SpanStatistics {
    pub duration_stats: DurationStatistics,
    pub min_span: Option<Rc<Span>>,
    pub max_span: Option<Rc<Span>>,
}

impl SpanStatistics {
    /// The statistics describe the spans: their durations in order, the first span of minimal
    /// and the first of maximal duration.
    pub open spec fn describes(&self, spans: Seq<Rc<Span>>) -> bool {
        &&& self.duration_stats.wf()
        &&& self.duration_stats.data_points@ == durations(spans)
        &&& spans.len() == 0 ==> self.min_span is None && self.max_span is None
        &&& spans.len() > 0 ==> self.min_span == Some(spans[first_min_index(durations(spans))])
        &&& spans.len() > 0 ==> self.max_span == Some(spans[first_max_index(durations(spans))])
    }

    /// Statistics of no spans.
    pub fn new() -> (r: SpanStatistics)
        ensures
            r.describes(Seq::empty()),
    {
        assert(durations(Seq::empty()) =~= Seq::<i128>::empty());
        SpanStatistics { duration_stats: DurationStatistics::new(), min_span: None, max_span: None }
    }

    /// Adds a span.
    pub fn add_span(&mut self, span: &Rc<Span>, Ghost(spans): Ghost<Seq<Rc<Span>>>)
        requires
            old(self).describes(spans),
            spans.len() < usize::MAX,
        ensures
            final(self).describes(spans.push(*span)),
    {
        let duration: i128 = span.end_time as i128 - span.start_time as i128;
        let ghost d = durations(spans);
        let ghost d2 = durations(spans.push(*span));
        assert(d2 =~= d.push(duration));
        assert(d2.drop_last() =~= d);
        self.duration_stats.add_value(duration);
        let replace_max = match &self.max_span {
            None => true,
            Some(s) => {
                let sd: i128 = s.end_time as i128 - s.start_time as i128;
                duration > sd
            },
        };
        let replace_min = match &self.min_span {
            None => true,
            Some(s) => {
                let sd: i128 = s.end_time as i128 - s.start_time as i128;
                duration < sd
            },
        };
        proof {
            if spans.len() > 0 {
                lemma_first_extremes(d);
            }
        }
        if replace_max {
            self.max_span = Some(rc_clone(span));
        }
        if replace_min {
            self.min_span = Some(rc_clone(span));
        }
        proof {
            assert(spans.push(*span)[spans.len() as int] == *span);
            if spans.len() > 0 {
                assert forall|k: int| 0 <= k < spans.len() implies spans.push(*span)[k] == spans[k] by {}
            }
        }
    }
}

proof fn lemma_first_extremes(d: Seq<i128>)
    requires
        d.len() > 0,
    ensures
        0 <= first_min_index(d) < d.len(),
        d[first_min_index(d)] == min_of(d),
        0 <= first_max_index(d) < d.len(),
        d[first_max_index(d)] == max_of(d),
    decreases d.len(),
{
    if d.len() > 1 {
        let p = d.drop_last();
        lemma_first_extremes(p);
        assert(d[first_min_index(p)] == p[first_min_index(p)]);
        assert(d[first_max_index(p)] == p[first_max_index(p)]);
        assert(d.last() == d[d.len() - 1]);
        if d.last() < min_of(p) {
            assert(first_min_index(d) == d.len() - 1);
        } else {
            assert(first_min_index(d) == first_min_index(p));
        }
        if d.last() > max_of(p) {
            assert(first_max_index(d) == d.len() - 1);
        } else {
            assert(first_max_index(d) == first_max_index(p));
        }
    } else {
        assert(d.drop_last().len() == 0);
        assert(d.last() == d[0]);
        assert(min_of(d.drop_last()) == i128::MAX);
        assert(max_of(d.drop_last()) == i128::MIN);
    }
}

/// The analysis of the spans with one name.
pub struct SpanAnalysisResult {
    pub span_name: String,
    pub attribute_filter: String,
    /// The statistics of each node that has such spans, in the order the nodes first come.
    pub per_node_stats: Vec<(String, SpanStatistics)>,
    pub overall_stats: SpanStatistics,
}

/// The spans, in order, that are on the named node.
pub open spec fn on_node(spans: Seq<Rc<Span>>, node: Seq<char>) -> Seq<Rc<Span>>
    decreases spans.len(),
{
    if spans.len() == 0 {
        Seq::empty()
    } else if spans.last().node.name@ == node {
        on_node(spans.drop_last(), node).push(spans.last())
    } else {
        on_node(spans.drop_last(), node)
    }
}

/// The names of the nodes of the spans, each once, in the order they first come.
pub open spec fn span_nodes(spans: Seq<Rc<Span>>) -> Seq<Seq<char>>
    decreases spans.len(),
{
    if spans.len() == 0 {
        Seq::empty()
    } else {
        let prev = span_nodes(spans.drop_last());
        if prev.contains(spans.last().node.name@) { prev } else { prev.push(spans.last().node.name@) }
    }
}

/// The text before and the text after the first `c`, if there is one.
pub open spec fn split_once(s: Seq<char>, c: char) -> Option<(Seq<char>, Seq<char>)> {
    match first_index_of(s, c) {
        Some(p) => Some((s.take(p), s.skip(p + 1))),
        None => None,
    }
}

/// The span satisfies one part of a filter: "name=value" asks for an attribute with that text,
/// "name" for an attribute of that name; an empty part asks nothing.
pub open spec fn filter_part_holds(part: Seq<char>, span: Span) -> bool {
    if part.len() == 0 {
        true
    } else {
        match split_once(part, '=') {
            Some((name, value)) => match attr_get(span.attributes@, trim(name)) {
                Some(v) => value_text(v) == trim(value),
                None => false,
            },
            None => attr_has(span.attributes@, trim(part)),
        }
    }
}

/// The span satisfies every comma-separated part of the filter (each trimmed).
pub open spec fn filter_holds(filter: Seq<char>, span: Span) -> bool {
    filter.len() == 0 || forall|i: int| 0 <= i < split_seq(filter, ',').len()
        ==> #[trigger] filter_part_holds(trim(split_seq(filter, ',')[i]), span)
}

/// The spans, in order, that satisfy the filter.
pub open spec fn filtered(spans: Seq<Rc<Span>>, filter: Seq<char>) -> Seq<Rc<Span>>
    decreases spans.len(),
{
    if spans.len() == 0 {
        Seq::empty()
    } else if filter_holds(filter, *spans.last()) {
        filtered(spans.drop_last(), filter).push(spans.last())
    } else {
        filtered(spans.drop_last(), filter)
    }
}

/// The values of the named attributes, in order, when the span has them all.
pub open spec fn grouping_values(names: Seq<Seq<char>>, span: Span) -> Option<Seq<Seq<char>>>
    decreases names.len(),
{
    if names.len() == 0 {
        Some(Seq::empty())
    } else {
        match (grouping_values(names.drop_last(), span), attr_get(span.attributes@, names.last())) {
            (Some(vs), Some(v)) => Some(vs.push(value_text(v))),
            _ => None,
        }
    }
}

/// The attribute names listed, comma separated, each trimmed; no names for an empty list.
pub open spec fn grouping_names(list: Seq<char>) -> Seq<Seq<char>> {
    if list.len() == 0 {
        Seq::empty()
    } else {
        split_seq(list, ',').map_values(|p: Seq<char>| trim(p))
    }
}

/// A group of one span spans the same time as the span.
pub proof fn lemma_single_span_group(s: Rc<Span>)
    ensures
        crate::modes::min_start(seq![s]) == s.start_time,
        crate::modes::max_end(seq![s]) == s.end_time,
{
}

/// Statistics of the spans with one name, with the spans it was made from.
pub struct AnalyzeSpanModal {
    pub show: bool,
    search_text: String,
    selected_span_name: Option<String>,
    unique_span_names: Vec<String>,
    spans_processed: bool,
    all_spans_for_analysis: Vec<Rc<Span>>,
    span_details: Option<Rc<Span>>,
    analysis_summary_message: Option<String>,
    detailed_span_analysis: Option<SpanAnalysisResult>,
    attribute_filter: String,
    group_by_attributes: String,
}

impl AnalyzeSpanModal {
    pub closed spec fn spans(&self) -> Seq<Rc<Span>> {
        self.all_spans_for_analysis@
    }

    pub closed spec fn span_names(&self) -> Seq<String> {
        self.unique_span_names@
    }

    pub closed spec fn filter(&self) -> Seq<char> {
        self.attribute_filter@
    }

    pub closed spec fn grouping(&self) -> Seq<char> {
        self.group_by_attributes@
    }

    pub closed spec fn shown(&self) -> bool {
        self.show
    }

    pub closed spec fn search(&self) -> Seq<char> {
        self.search_text@
    }

    pub closed spec fn summary(&self) -> Option<String> {
        self.analysis_summary_message
    }

    pub closed spec fn result(&self) -> Option<SpanAnalysisResult> {
        self.detailed_span_analysis
    }

    /// The span name chosen for analysis.
    pub closed spec fn selected(&self) -> Option<String> {
        self.selected_span_name
    }

    /// Whether the spans of the trace have been collected since the modal was opened.
    pub closed spec fn processed(&self) -> bool {
        self.spans_processed
    }

    /// The span whose details are shown.
    pub closed spec fn details(&self) -> Option<Rc<Span>> {
        self.span_details
    }

    /// A closed modal over no spans, with no filter, no grouping, no search text, no span
    /// chosen or shown in detail, and no analysis.
    pub fn default() -> (r: Self)
        ensures
            !r.shown(),
            r.search().len() == 0,
            r.selected() is None,
            !r.processed(),
            r.details() is None,
            r.spans().len() == 0,
            r.span_names().len() == 0,
            r.filter().len() == 0,
            r.grouping().len() == 0,
            r.summary() is None,
            r.result() is None,
    {
        AnalyzeSpanModal {
            show: false,
            search_text: String::new(),
            selected_span_name: None,
            unique_span_names: Vec::new(),
            spans_processed: false,
            all_spans_for_analysis: Vec::new(),
            span_details: None,
            analysis_summary_message: None,
            detailed_span_analysis: None,
            attribute_filter: String::new(),
            group_by_attributes: String::new(),
        }
    }

    /// The message of the last analysis that found no spans.
    pub fn summary_message(&self) -> (r: Option<&String>)
        ensures
            r == match self.summary() {
                Some(m) => Some(&m),
                None => None::<&String>,
            },
    {
        match &self.analysis_summary_message {
            Some(m) => Some(m),
            None => None,
        }
    }

    /// The statistics of the last analysis that found spans.
    pub fn span_analysis(&self) -> (r: Option<&SpanAnalysisResult>)
        ensures
            r == match self.result() {
                Some(a) => Some(&a),
                None => None::<&SpanAnalysisResult>,
            },
    {
        match &self.detailed_span_analysis {
            Some(a) => Some(a),
            None => None,
        }
    }

    /// Shows the modal over the given spans, with an empty search and no filter.
    pub fn open(&mut self, spans_for_analysis: &[Rc<Span>])
        ensures
            final(self).shown(),
            final(self).search().len() == 0,
            final(self).filter().len() == 0,
            final(self).spans() == analysis_spans(spans_for_analysis@),
            names_cover(final(self).spans(), final(self).span_names()),
            sorted_by_lowercase(final(self).span_names()),
            final(self).grouping() == old(self).grouping(),
    {
        self.show = true;
        self.search_text = String::new();
        self.attribute_filter = String::new();
        self.update_span_list(spans_for_analysis);
        self.spans_processed = true;
    }

    /// Collects the spans to analyse: every span of the given trees, each id once per tree, and
    /// their distinct names, ordered by lowercase form.
    pub fn update_span_list(&mut self, spans: &[Rc<Span>])
        ensures
            final(self).spans() == analysis_spans(spans@),
            names_cover(final(self).spans(), final(self).span_names()),
            sorted_by_lowercase(final(self).span_names()),
            final(self).shown() == old(self).shown(),
            final(self).search() == old(self).search(),
            final(self).filter() == old(self).filter(),
            final(self).grouping() == old(self).grouping(),
    {
        let (all_spans, unique_names) = process_spans_for_analysis(spans);
        self.all_spans_for_analysis = all_spans;
        self.unique_span_names = unique_names;
    }

    pub fn set_attribute_filter(&mut self, filter: String)
        ensures
            final(self).filter() == filter@,
            final(self).spans() == old(self).spans(),
            final(self).grouping() == old(self).grouping(),
    {
        self.attribute_filter = filter;
    }

    pub fn set_group_by_attributes(&mut self, attributes: String)
        ensures
            final(self).grouping() == attributes@,
            final(self).spans() == old(self).spans(),
            final(self).filter() == old(self).filter(),
    {
        self.group_by_attributes = attributes;
    }

    /// Whether the span satisfies the attribute filter.
    pub fn span_matches_attribute_filter(&self, span: &Rc<Span>) -> (r: bool)
        ensures
            r == filter_holds(self.filter(), **span),
    {
        if self.attribute_filter.as_str().is_empty() {
            return true;
        }
        let f = chars_of(self.attribute_filter.as_str());
        let parts = split_chars(f.as_slice(), ',');
        let ghost sp = split_seq(self.attribute_filter@, ',');
        for i in 0..parts.len()
            invariant
                f@ == self.attribute_filter@,
                sp == split_seq(self.attribute_filter@, ','),
                parts@.len() == sp.len(),
                forall|j: int| 0 <= j < parts@.len() ==> #[trigger] parts@[j]@ == sp[j],
                forall|j: int| 0 <= j < i ==> #[trigger] filter_part_holds(trim(sp[j]), **span),
        {
            let part = trim_chars(parts[i].as_slice());
            if !part_holds(part.as_slice(), span) {
                return false;
            }
        }
        true
    }

    /// The values of the grouping attributes of the span, when it has them all.
    pub fn get_grouping_key(&self, span: &Rc<Span>) -> (r: Option<Vec<String>>)
        ensures
            match r {
                Some(vs) => grouping_values(grouping_names(self.grouping()), **span) matches Some(w)
                    && vs@.map_values(|x: String| x@) == w,
                None => grouping_values(grouping_names(self.grouping()), **span) is None,
            },
    {
        let ghost names = grouping_names(self.grouping());
        let mut names_exec: Vec<Vec<char>> = Vec::new();
        if !self.group_by_attributes.as_str().is_empty() {
            let g = chars_of(self.group_by_attributes.as_str());
            let parts = split_chars(g.as_slice(), ',');
            for i in 0..parts.len()
                invariant
                    g@ == self.group_by_attributes@,
                    g@.len() > 0,
                    parts@.len() == split_seq(g@, ',').len(),
                    forall|j: int| 0 <= j < parts@.len() ==> #[trigger] parts@[j]@ == split_seq(g@, ',')[j],
                    names_exec@.len() == i,
                    forall|j: int| 0 <= j < i ==> #[trigger] names_exec@[j]@ == trim(split_seq(g@, ',')[j]),
            {
                names_exec.push(trim_chars(parts[i].as_slice()));
            }
        }
        assert(names_exec@.len() == names.len());
        let mut values: Vec<String> = Vec::new();
        for i in 0..names_exec.len()
            invariant
                names_exec@.len() == names.len(),
                names == grouping_names(self.grouping()),
                forall|j: int| 0 <= j < names.len() ==> #[trigger] names_exec@[j]@ == names[j],
                grouping_values(names.take(i as int), **span) matches Some(w) && values@.map_values(|x: String| x@) == w,
        {
            assert(names.take(i + 1).drop_last() =~= names.take(i as int));
            let key = string_of(names_exec[i].as_slice());
            match get_attribute(&span.attributes, key.as_str()) {
                Some(v) => {
                    let ghost before = values@;
                    values.push(value_to_text(v));
                    assert(values@.map_values(|x: String| x@) =~= before.map_values(|x: String| x@).push(value_text(*v)));
                },
                None => {
                    proof {
                        lemma_grouping_values_missing(names, &**span, i as int + 1);
                    }
                    assert(names.take(names.len() as int) =~= names);
                    return None;
                },
            }
        }
        assert(names.take(names.len() as int) =~= names);
        Some(values)
    }

    /// A span standing for the spans together: a copy of the first, from the earliest start to
    /// the latest end.
    pub fn create_grouped_span(spans: &Vec<Rc<Span>>) -> (r: Span)
        requires
            spans@.len() >= 1,
        ensures
            fields_copy_of(r, Span { start_time: r.start_time, end_time: r.end_time, ..*spans@[0] }),
            segments_of(r.active_segments) == segments_of(spans@[0].active_segments),
            r.start_time == crate::modes::min_start(spans@),
            r.end_time == crate::modes::max_end(spans@),
            r.children@.len() == 0,
    {
        let mut start = spans[0].start_time;
        let mut end = spans[0].end_time;
        for i in 1..spans.len()
            invariant
                spans@.len() >= 1,
                start == crate::modes::min_start(spans@.take(i as int)),
                end == crate::modes::max_end(spans@.take(i as int)),
        {
            assert(spans@.take(i + 1).drop_last() =~= spans@.take(i as int));
            if spans[i].start_time < start {
                start = spans[i].start_time;
            }
            if spans[i].end_time > end {
                end = spans[i].end_time;
            }
        }
        assert(spans@.take(spans.len() as int) =~= spans@);
        let mut g = copy_span(&spans[0], Vec::new());
        g.start_time = start;
        g.end_time = end;
        g
    }

    /// Analyses the spans with the given name that satisfy the filter: without any, a message
    /// says so; otherwise the statistics, overall and per node.
    pub fn perform_span_analysis(&mut self, target_span_name: &str)
        ensures
            ({
                let matching = filtered(named_spans(old(self).spans(), target_span_name@), old(self).filter());
                if matching.len() == 0 {
                    &&& final(self).result() is None
                    &&& final(self).summary() matches Some(m)
                        && m@ == "No spans found with name '"@ + target_span_name@ + "'"@
                } else {
                    &&& final(self).summary() is None
                    &&& final(self).result() matches Some(res) && {
                        &&& res.span_name@ == target_span_name@
                        &&& res.attribute_filter@ == old(self).filter()
                        &&& res.overall_stats.describes(matching)
                        &&& res.per_node_stats@.len() == span_nodes(matching).len()
                        &&& forall|k: int| 0 <= k < res.per_node_stats@.len() ==> {
                            &&& (#[trigger] res.per_node_stats@[k]).0@ == span_nodes(matching)[k]
                            &&& res.per_node_stats@[k].1.describes(on_node(matching, span_nodes(matching)[k]))
                        }
                    }
                }
            }),
            final(self).spans() == old(self).spans(),
            final(self).filter() == old(self).filter(),
            final(self).grouping() == old(self).grouping(),
    {
        let mut named: Vec<Rc<Span>> = Vec::new();
        collect_matching_spans(self.all_spans_for_analysis.as_slice(), target_span_name, &mut named);
        assert(named@ =~= named_spans(self.all_spans_for_analysis@, target_span_name@));
        let mut matching: Vec<Rc<Span>> = Vec::new();
        for i in 0..named.len()
            invariant
                matching@ == filtered(named@.take(i as int), self.attribute_filter@),
        {
            assert(named@.take(i + 1).drop_last() =~= named@.take(i as int));
            if self.span_matches_attribute_filter(&named[i]) {
                matching.push(rc_clone(&named[i]));
            }
        }
        assert(named@.take(named.len() as int) =~= named@);
        if matching.len() == 0 {
            let mut m = owned("No spans found with name '");
            push_str(&mut m, target_span_name);
            push_str(&mut m, "'");
            self.analysis_summary_message = Some(m);
            self.detailed_span_analysis = None;
            return;
        }
        let ghost ms = matching@;
        assert(ms.take(0) =~= Seq::<Rc<Span>>::empty());
        let mut overall = SpanStatistics::new();
        let mut per_node: Vec<(String, SpanStatistics)> = Vec::new();
        for i in 0..matching.len()
            invariant
                ms == matching@,
                overall.describes(ms.take(i as int)),
                per_node@.len() == span_nodes(ms.take(i as int)).len(),
                forall|k: int| 0 <= k < per_node@.len() ==> {
                    &&& (#[trigger] per_node@[k]).0@ == span_nodes(ms.take(i as int))[k]
                    &&& per_node@[k].1.describes(on_node(ms.take(i as int), span_nodes(ms.take(i as int))[k]))
                },
        {
            let ghost prefix = ms.take(i as int);
            assert(ms.take(i + 1) =~= prefix.push(ms[i as int]));
            assert(ms.take(i + 1).drop_last() =~= prefix);
            let span = &matching[i];
            overall.add_span(span, Ghost(prefix));
            let node_name = &span.node.name;
            let mut found: Option<usize> = None;
            for k in 0..per_node.len()
                invariant
                    found is None ==> forall|q: int| 0 <= q < k ==> (#[trigger] per_node@[q]).0@ != node_name@,
                    found matches Some(q) ==> q < per_node@.len() && per_node@[q as int].0@ == node_name@
                        && forall|q2: int| 0 <= q2 < q ==> (#[trigger] per_node@[q2]).0@ != node_name@,
            {
                if found.is_none() && per_node[k].0.eq(node_name) {
                    found = Some(k);
                }
            }
            proof {
                lemma_span_nodes_distinct(prefix);
                lemma_on_node_len(prefix, node_name@);
            }
            match found {
                Some(q) => {
                    let ghost old_pn = per_node@;
                    let ghost grp = on_node(prefix, node_name@);
                    assert(span_nodes(prefix).contains(node_name@)) by {
                        assert(span_nodes(prefix)[q as int] == node_name@);
                    }
                    assert(span_nodes(prefix.push(ms[i as int])) == span_nodes(prefix));
                    let (name_q, mut stats_q) = per_node.remove(q);
                    stats_q.add_span(span, Ghost(grp));
                    per_node.insert(q, (name_q, stats_q));
                    proof {
                        assert forall|k: int| 0 <= k < per_node@.len() implies {
                            &&& (#[trigger] per_node@[k]).0@ == span_nodes(ms.take(i + 1))[k]
                            &&& per_node@[k].1.describes(on_node(ms.take(i + 1), span_nodes(ms.take(i + 1))[k]))
                        } by {
                            if k != q {
                                assert(per_node@[k] == old_pn[k]);
                                assert(span_nodes(prefix)[k] != node_name@);
                            }
                        }
                    }
                },
                None => {
                    proof {
                        if span_nodes(prefix).contains(node_name@) {
                            let q = choose|q: int| 0 <= q < span_nodes(prefix).len() && span_nodes(prefix)[q] == node_name@;
                            assert(per_node@[q].0@ == node_name@);
                        }
                        lemma_on_node_absent(prefix, node_name@);
                    }
                    let mut stats = SpanStatistics::new();
                    stats.add_span(span, Ghost(Seq::empty()));
                    let ghost old_pn = per_node@;
                    per_node.push((node_name.clone(), stats));
                    proof {
                        assert(on_node(ms.take(i + 1), node_name@) =~= seq![ms[i as int]]);
                        assert forall|k: int| 0 <= k < per_node@.len() implies {
                            &&& (#[trigger] per_node@[k]).0@ == span_nodes(ms.take(i + 1))[k]
                            &&& per_node@[k].1.describes(on_node(ms.take(i + 1), span_nodes(ms.take(i + 1))[k]))
                        } by {
                            if k < old_pn.len() {
                                assert(per_node@[k] == old_pn[k]);
                                assert(span_nodes(prefix)[k] != node_name@);
                            }
                        }
                    }
                },
            }
        }
        assert(ms.take(ms.len() as int) =~= ms);
        self.detailed_span_analysis = Some(SpanAnalysisResult {
            span_name: owned(target_span_name),
            attribute_filter: self.attribute_filter.clone(),
            per_node_stats: per_node,
            overall_stats: overall,
        });
        self.analysis_summary_message = None;
    }

    /// The span of minimal duration among the analysed spans of all nodes or of one node.
    pub fn find_min_span_for_node(&self, node_identifier: &NodeIdentifier) -> (r: Option<Rc<Span>>)
        ensures
            match self.result() {
                None => r is None,
                Some(res) => match node_identifier {
                    NodeIdentifier::AllNodes => r == res.overall_stats.min_span,
                    NodeIdentifier::Node(n) => match node_stats_index(res.per_node_stats@, n@) {
                        Some(k) => r == res.per_node_stats@[k].1.min_span,
                        None => r is None,
                    },
                },
            },
    {
        match &self.detailed_span_analysis {
            None => None,
            Some(result) => match node_identifier {
                NodeIdentifier::AllNodes => clone_handle(&result.overall_stats.min_span),
                NodeIdentifier::Node(node_name) => match find_node_stats(&result.per_node_stats, node_name) {
                    Some(k) => clone_handle(&result.per_node_stats[k].1.min_span),
                    None => None,
                },
            },
        }
    }

    /// The span of maximal duration among the analysed spans of all nodes or of one node.
    pub fn find_max_span_for_node(&self, node_identifier: &NodeIdentifier) -> (r: Option<Rc<Span>>)
        ensures
            match self.result() {
                None => r is None,
                Some(res) => match node_identifier {
                    NodeIdentifier::AllNodes => r == res.overall_stats.max_span,
                    NodeIdentifier::Node(n) => match node_stats_index(res.per_node_stats@, n@) {
                        Some(k) => r == res.per_node_stats@[k].1.max_span,
                        None => r is None,
                    },
                },
            },
    {
        match &self.detailed_span_analysis {
            None => None,
            Some(result) => match node_identifier {
                NodeIdentifier::AllNodes => clone_handle(&result.overall_stats.max_span),
                NodeIdentifier::Node(node_name) => match find_node_stats(&result.per_node_stats, node_name) {
                    Some(k) => clone_handle(&result.per_node_stats[k].1.max_span),
                    None => None,
                },
            },
        }
    }
}

/// Position of the first statistics of the named node.
pub open spec fn node_stats_index(stats: Seq<(String, SpanStatistics)>, node: Seq<char>) -> Option<int>
    decreases stats.len(),
{
    if stats.len() == 0 {
        None
    } else {
        match node_stats_index(stats.drop_last(), node) {
            Some(k) => Some(k),
            None => if stats.last().0@ == node { Some(stats.len() - 1) } else { None },
        }
    }
}

fn find_node_stats(stats: &Vec<(String, SpanStatistics)>, node: &String) -> (r: Option<usize>)
    ensures
        match r {
            Some(k) => node_stats_index(stats@, node@) == Some(k as int) && k < stats@.len(),
            None => node_stats_index(stats@, node@) is None,
        },
{
    for k in 0..stats.len()
        invariant
            node_stats_index(stats@.take(k as int), node@) is None,
    {
        assert(stats@.take(k + 1).drop_last() =~= stats@.take(k as int));
        if stats[k].0.eq(node) {
            proof {
                lemma_node_stats_prefix(stats@, node@, k + 1);
            }
            return Some(k);
        }
    }
    assert(stats@.take(stats.len() as int) =~= stats@);
    None
}

proof fn lemma_node_stats_prefix(stats: Seq<(String, SpanStatistics)>, node: Seq<char>, n: int)
    requires
        0 <= n <= stats.len(),
        node_stats_index(stats.take(n), node) is Some,
    ensures
        node_stats_index(stats, node) == node_stats_index(stats.take(n), node),
    decreases stats.len() - n,
{
    if n < stats.len() {
        assert(stats.take(n + 1).drop_last() =~= stats.take(n));
        lemma_node_stats_prefix(stats, node, n + 1);
    } else {
        assert(stats.take(n) =~= stats);
    }
}

fn clone_handle(h: &Option<Rc<Span>>) -> (r: Option<Rc<Span>>)
    ensures
        r == *h,
{
    match h {
        Some(s) => Some(rc_clone(s)),
        None => None,
    }
}

fn part_holds(part: &[char], span: &Span) -> (r: bool)
    ensures
        r == filter_part_holds(part@, *span),
{
    if part.len() == 0 {
        return true;
    }
    match first_index(part, '=') {
        Some(p) => {
            let mut name: Vec<char> = Vec::new();
            for k in 0..p
                invariant
                    p < part@.len(),
                    name@ == part@.take(k as int),
            {
                name.push(part[k]);
                assert(part@.take(k + 1) =~= part@.take(k as int).push(part@[k as int]));
            }
            let mut value: Vec<char> = Vec::new();
            for k in p + 1..part.len()
                invariant
                    p < part@.len(),
                    value@ == part@.subrange(p + 1, k as int),
            {
                value.push(part[k]);
                assert(part@.subrange(p + 1, k + 1) =~= part@.subrange(p + 1, k as int).push(part@[k as int]));
            }
            assert(value@ =~= part@.skip(p + 1));
            let name_t = string_of(trim_chars(name.as_slice()).as_slice());
            let value_t = trim_chars(value.as_slice());
            match get_attribute(&span.attributes, name_t.as_str()) {
                Some(v) => {
                    let text = value_to_text(v);
                    let tc = chars_of(text.as_str());
                    crate::text::chars_eq(tc.as_slice(), value_t.as_slice())
                },
                None => false,
            }
        },
        None => {
            let name_t = string_of(trim_chars(part).as_slice());
            has_attribute(&span.attributes, name_t.as_str())
        },
    }
}

proof fn lemma_grouping_values_missing(names: Seq<Seq<char>>, span: &Span, n: int)
    requires
        1 <= n <= names.len(),
        grouping_values(names.take(n), *span) is None,
    ensures
        grouping_values(names, *span) is None,
    decreases names.len() - n,
{
    if n < names.len() {
        assert(names.take(n + 1).drop_last() =~= names.take(n));
        lemma_grouping_values_missing(names, span, n + 1);
    } else {
        assert(names.take(n) =~= names);
    }
}

proof fn lemma_span_nodes_distinct(spans: Seq<Rc<Span>>)
    ensures
        forall|a: int, b: int| 0 <= a < b < span_nodes(spans).len() ==> span_nodes(spans)[a] != span_nodes(spans)[b],
        forall|k: int| 0 <= k < span_nodes(spans).len() ==> on_node(spans, #[trigger] span_nodes(spans)[k]).len() > 0,
    decreases spans.len(),
{
    if spans.len() > 0 {
        let p = spans.drop_last();
        lemma_span_nodes_distinct(p);
        let prev = span_nodes(p);
        let x = spans.last().node.name@;
        assert forall|k: int| 0 <= k < span_nodes(spans).len() implies on_node(spans, #[trigger] span_nodes(spans)[k]).len() > 0 by {
            if k < prev.len() {
                assert(span_nodes(spans)[k] == prev[k]);
                assert(on_node(p, prev[k]).len() > 0);
            } else {
                assert(span_nodes(spans)[k] == x);
            }
        }
        if !prev.contains(x) {
            assert forall|a: int, b: int| 0 <= a < b < span_nodes(spans).len() implies span_nodes(spans)[a] != span_nodes(spans)[b] by {
                if b == prev.len() {
                    assert(span_nodes(spans)[a] == prev[a]);
                }
            }
        }
    }
}

proof fn lemma_on_node_len(spans: Seq<Rc<Span>>, node: Seq<char>)
    ensures
        on_node(spans, node).len() <= spans.len(),
    decreases spans.len(),
{
    if spans.len() > 0 {
        lemma_on_node_len(spans.drop_last(), node);
    }
}

proof fn lemma_on_node_absent(spans: Seq<Rc<Span>>, node: Seq<char>)
    requires
        !span_nodes(spans).contains(node),
    ensures
        on_node(spans, node).len() == 0,
    decreases spans.len(),
{
    if spans.len() > 0 {
        let prev = span_nodes(spans.drop_last());
        if !prev.contains(spans.last().node.name@) {
            assert(span_nodes(spans)[prev.len() as int] == spans.last().node.name@);
        }
        assert forall|x: Seq<char>| prev.contains(x) implies span_nodes(spans).contains(x) by {
            let q = choose|q: int| 0 <= q < prev.len() && prev[q] == x;
            assert(span_nodes(spans)[q] == x);
        }
        lemma_on_node_absent(spans.drop_last(), node);
    }
}

} // verus!
