//! The trace data model: spans, their attributes and the nodes that recorded them.
//!
//! Times are whole nanoseconds since the Unix epoch, as OpenTelemetry records them.

use vstd::prelude::*;
use std::rc::Rc;

use crate::text::{nat_text, int_text, push_i64_text, push_u64_text, push_chars, push_str, chars_of};

verus! {

broadcast use vstd::std_specs::vec::group_vec_axioms;

/// Nanoseconds since the Unix epoch.
pub type TimePoint = u64;

/// Vertical offset, in rows, of a displayed span.
pub type HeightLevel = u64;

/// Nanoseconds in one second.
pub const NANOSECONDS_PER_SECOND: u64 = 1_000_000_000;

/// Nanoseconds in one millisecond.
pub const NANOSECONDS_PER_MILLISECOND: u64 = 1_000_000;

/// A point in time given in Unix nanoseconds, as a `TimePoint`.
pub fn time_point_from_unix_nano(unix_nano: u64) -> (t: TimePoint)
    ensures
        t == unix_nano,
{
    unix_nano
}

/// The value of an attribute, as OpenTelemetry carries it.
#[derive(Debug)]
pub enum AttrValue {
    /// The attribute is present but carries no value.
    Empty,
    Str(String),
    Bool(bool),
    Int(i64),
    /// A floating point value: its IEEE-754 bit pattern, and the text that Rust's `Display`
    /// gives for it.
    Double(u64, String),
    Array(Vec<AttrValue>),
    Kvlist(Vec<KeyValue>),
    Bytes(Vec<u8>),
}

/// A named attribute value.
#[derive(Debug)]
pub struct KeyValue {
    pub key: String,
    pub value: AttrValue,
}

/// The service that recorded spans.
#[derive(Debug)]
pub struct Node {
    pub name: String,
    pub attributes: Vec<KeyValue>,
}

/// The instrumentation scope of a span.
#[derive(Debug)]
pub struct Scope {
    pub name: String,
    pub version: String,
    pub attributes: Vec<KeyValue>,
}

/// An event recorded during a span.
#[derive(Debug)]
pub struct Event {
    pub name: String,
    pub time: TimePoint,
    pub attributes: Vec<KeyValue>,
}

/// How the length of a displayed span is chosen.
#[derive(Debug, Clone, Copy, PartialEq, Eq, Structural)]
pub enum DisplayLength {
    /// Span is displayed from start time to end time, length is equal to length of the interval
    Time,
    /// Displayed span is always long enough to fully display span name. Span starts at `start_time` and is long enough to display the name.
    Text,
}

#[derive(Debug, Clone, Copy, PartialEq, Eq, Structural)]
pub struct SpanDisplayConfig {
    pub display_length: DisplayLength,
}

/// A span of a trace, with the spans below it.
#[derive(Debug)]
pub struct Span {
    /// The name under which the span is displayed.
    pub name: String,
    /// The name that the trace gave the span.
    pub original_name: String,
    pub span_id: Vec<u8>,
    pub trace_id: Vec<u8>,
    pub parent_span_id: Vec<u8>,
    pub start_time: TimePoint,
    pub end_time: TimePoint,
    pub attributes: Vec<KeyValue>,
    pub events: Vec<Event>,
    pub node: Rc<Node>,
    pub scope: Option<Rc<Scope>>,
    pub children: Vec<Rc<Span>>,
    /// Earliest start among the span and all spans below it.
    pub min_start_time: TimePoint,
    /// Latest end among the span and all spans below it.
    pub max_end_time: TimePoint,
    pub display_options: SpanDisplayConfig,
    pub collapse_children: bool,
    pub dont_collapse_this_span: bool,
    /// How much to offset from the parent when displaying the span
    pub parent_height_offset: HeightLevel,
    /// For a span that stands for a group of spans: the merged intervals in which one of them ran.
    /// `Some` of an empty list marks a span that is still to be grouped.
    pub active_segments: Option<Vec<(TimePoint, TimePoint)>>,
}

/// Decimal text of the bytes of a sequence, separated by ", ".
pub open spec fn bytes_text(b: Seq<u8>) -> Seq<char>
    decreases b.len(),
{
    if b.len() == 0 {
        Seq::empty()
    } else if b.len() == 1 {
        nat_text(b[0] as nat)
    } else {
        bytes_text(b.drop_last()) + seq![',', ' '] + nat_text(b.last() as nat)
    }
}

/// The text of an attribute value, as shown to users and compared by conditions.
pub open spec fn value_text(v: AttrValue) -> Seq<char>
    decreases v,
{
    match v {
        AttrValue::Empty => seq!['e', 'm', 'p', 't', 'y'],
        AttrValue::Str(s) => s@,
        AttrValue::Bool(b) => if b {
            seq!['t', 'r', 'u', 'e']
        } else {
            seq!['f', 'a', 'l', 's', 'e']
        },
        AttrValue::Int(i) => int_text(i as int),
        AttrValue::Double(_, t) => t@,
        AttrValue::Array(items) => seq!['['] + list_text(items@) + seq![']'],
        AttrValue::Kvlist(kvs) => seq!['{'] + kv_list_text(kvs@) + seq!['}'],
        AttrValue::Bytes(b) => seq!['['] + bytes_text(b@) + seq![']'],
    }
}

/// The texts of the values, separated by ", ".
pub open spec fn list_text(items: Seq<AttrValue>) -> Seq<char>
    decreases items,
{
    if items.len() == 0 {
        Seq::empty()
    } else if items.len() == 1 {
        value_text(items[0])
    } else {
        list_text(items.drop_last()) + seq![',', ' '] + value_text(items.last())
    }
}

/// `key: text` of each pair, separated by ", ".
pub open spec fn kv_list_text(kvs: Seq<KeyValue>) -> Seq<char>
    decreases kvs,
{
    if kvs.len() == 0 {
        Seq::empty()
    } else if kvs.len() == 1 {
        kvs[0].key@ + seq![':', ' '] + value_text(kvs[0].value)
    } else {
        kv_list_text(kvs.drop_last()) + seq![',', ' '] + kvs.last().key@ + seq![':', ' ']
            + value_text(kvs.last().value)
    }
}

fn push_bytes_text(s: &mut String, b: &Vec<u8>)
    ensures
        final(s)@ == old(s)@ + bytes_text(b@),
{
    let ghost start = s@;
    for i in 0..b.len()
        invariant
            s@ == start + bytes_text(b@.take(i as int)),
    {
        assert(b@.take(i + 1).drop_last() =~= b@.take(i as int));
        if i > 0 {
            s.push(',');
            s.push(' ');
        }
        push_u64_text(s, b[i] as u64);
        if i == 0 {
            assert(bytes_text(b@.take(1)) == nat_text(b@[0] as nat));
        }
        assert(s@ =~= start + bytes_text(b@.take(i + 1)));
    }
    assert(b@.take(b.len() as int) =~= b@);
}

fn push_list_text(s: &mut String, items: &Vec<AttrValue>)
    ensures
        final(s)@ == old(s)@ + list_text(items@),
    decreases items,
{
    let ghost start = s@;
    for i in 0..items.len()
        invariant
            s@ == start + list_text(items@.take(i as int)),
    {
        assert(items@.take(i + 1).drop_last() =~= items@.take(i as int));
        if i > 0 {
            s.push(',');
            s.push(' ');
        }
        proof {
            assert(decreases_to!(*items => items@[i as int]));
        }
        push_value_text(s, &items[i]);
        assert(s@ =~= start + list_text(items@.take(i + 1)));
    }
    assert(items@.take(items.len() as int) =~= items@);
}

fn push_kv_list_text(s: &mut String, kvs: &Vec<KeyValue>)
    ensures
        final(s)@ == old(s)@ + kv_list_text(kvs@),
    decreases kvs,
{
    let ghost start = s@;
    for i in 0..kvs.len()
        invariant
            s@ == start + kv_list_text(kvs@.take(i as int)),
    {
        assert(kvs@.take(i + 1).drop_last() =~= kvs@.take(i as int));
        if i > 0 {
            s.push(',');
            s.push(' ');
        }
        let kc = chars_of(kvs[i].key.as_str());
        push_chars(s, kc.as_slice());
        s.push(':');
        s.push(' ');
        proof {
            assert(decreases_to!(*kvs => kvs@[i as int]));
            assert(decreases_to!(kvs@[i as int] => kvs@[i as int].value));
        }
        push_value_text(s, &kvs[i].value);
        assert(s@ =~= start + kv_list_text(kvs@.take(i + 1)));
    }
    assert(kvs@.take(kvs.len() as int) =~= kvs@);
}

/// Appends the text of an attribute value.
pub fn push_value_text(s: &mut String, v: &AttrValue)
    ensures
        final(s)@ == old(s)@ + value_text(*v),
    decreases v,
{
    let ghost start = s@;
    match v {
        AttrValue::Empty => {
            s.push('e');
            s.push('m');
            s.push('p');
            s.push('t');
            s.push('y');
            assert(s@ =~= start + value_text(*v));
        },
        AttrValue::Str(t) => {
            let cs = chars_of(t.as_str());
            push_chars(s, cs.as_slice());
        },
        AttrValue::Bool(b) => {
            if *b {
                s.push('t');
                s.push('r');
                s.push('u');
                s.push('e');
            } else {
                s.push('f');
                s.push('a');
                s.push('l');
                s.push('s');
                s.push('e');
            }
            assert(s@ =~= start + value_text(*v));
        },
        AttrValue::Int(i) => {
            push_i64_text(s, *i);
        },
        AttrValue::Double(_, t) => {
            let cs = chars_of(t.as_str());
            push_chars(s, cs.as_slice());
        },
        AttrValue::Array(items) => {
            s.push('[');
            push_list_text(s, items);
            s.push(']');
            assert(s@ =~= start + value_text(*v));
        },
        AttrValue::Kvlist(kvs) => {
            s.push('{');
            push_kv_list_text(s, kvs);
            s.push('}');
            assert(s@ =~= start + value_text(*v));
        },
        AttrValue::Bytes(b) => {
            s.push('[');
            push_bytes_text(s, b);
            s.push(']');
            assert(s@ =~= start + value_text(*v));
        },
    }
}

/// The text of an attribute value, as shown to users and compared by conditions.
pub fn value_to_text(v: &AttrValue) -> (r: String)
    ensures
        r@ == value_text(*v),
{
    let mut s = String::new();
    push_value_text(&mut s, v);
    assert(s@ =~= value_text(*v));
    s
}

/// The value stored under `key`: that of the first entry with this key.
pub open spec fn attr_get(attrs: Seq<KeyValue>, key: Seq<char>) -> Option<AttrValue>
    decreases attrs.len(),
{
    if attrs.len() == 0 {
        None
    } else if attrs[0].key@ == key {
        Some(attrs[0].value)
    } else {
        attr_get(attrs.drop_first(), key)
    }
}

/// Position of the first entry with `key`.
pub open spec fn attr_index(attrs: Seq<KeyValue>, key: Seq<char>) -> Option<int>
    decreases attrs.len(),
{
    if attrs.len() == 0 {
        None
    } else if attrs[0].key@ == key {
        Some(0)
    } else {
        match attr_index(attrs.drop_first(), key) {
            Some(i) => Some(i + 1),
            None => None,
        }
    }
}

/// `key` is the key of some entry.
pub open spec fn attr_has(attrs: Seq<KeyValue>, key: Seq<char>) -> bool {
    attr_get(attrs, key) is Some
}

proof fn lemma_attr_index(attrs: Seq<KeyValue>, key: Seq<char>)
    ensures
        match attr_index(attrs, key) {
            Some(i) => 0 <= i < attrs.len() && attrs[i].key@ == key
                && attr_get(attrs, key) == Some(attrs[i].value)
                && forall|j: int| 0 <= j < i ==> attrs[j].key@ != key,
            None => attr_get(attrs, key) is None
                && forall|j: int| 0 <= j < attrs.len() ==> attrs[j].key@ != key,
        },
    decreases attrs.len(),
{
    if attrs.len() > 0 {
        lemma_attr_index(attrs.drop_first(), key);
        if attrs[0].key@ != key {
            assert forall|j: int| 1 <= j < attrs.len() implies attrs[j] == attrs.drop_first()[j - 1] by {}
        }
    }
}

/// Position of the first entry with `key`.
pub fn find_attribute(attrs: &Vec<KeyValue>, key: &str) -> (r: Option<usize>)
    ensures
        match r {
            Some(i) => attr_index(attrs@, key@) == Some(i as int),
            None => attr_index(attrs@, key@) is None,
        },
        r is Some <==> attr_has(attrs@, key@),
        r matches Some(i) ==> i < attrs@.len() && attr_get(attrs@, key@) == Some(attrs@[i as int].value),
{
    proof {
        lemma_attr_index(attrs@, key@);
    }
    let kc = chars_of(key);
    for i in 0..attrs.len()
        invariant
            kc@ == key@,
            forall|j: int| 0 <= j < i ==> attrs@[j].key@ != key@,
            match attr_index(attrs@, key@) {
                Some(k) => 0 <= k < attrs@.len() && attrs@[k].key@ == key@
                    && attr_get(attrs@, key@) == Some(attrs@[k].value)
                    && forall|j: int| 0 <= j < k ==> attrs@[j].key@ != key@,
                None => attr_get(attrs@, key@) is None
                    && forall|j: int| 0 <= j < attrs@.len() ==> attrs@[j].key@ != key@,
            },
    {
        let c = chars_of(attrs[i].key.as_str());
        if crate::text::chars_eq(c.as_slice(), kc.as_slice()) {
            return Some(i);
        }
    }
    None
}

/// The value stored under `key`, if any.
pub fn get_attribute<'a>(attrs: &'a Vec<KeyValue>, key: &str) -> (r: Option<&'a AttrValue>)
    ensures
        match r {
            Some(v) => attr_get(attrs@, key@) == Some(*v),
            None => attr_get(attrs@, key@) is None,
        },
{
    match find_attribute(attrs, key) {
        Some(i) => Some(&attrs[i].value),
        None => None,
    }
}

/// Whether some entry has `key`.
pub fn has_attribute(attrs: &Vec<KeyValue>, key: &str) -> (r: bool)
    ensures
        r == attr_has(attrs@, key@),
{
    find_attribute(attrs, key).is_some()
}

/// Keys compare as strings do: character by character, a prefix first.
pub open spec fn key_lt(a: Seq<char>, b: Seq<char>) -> bool
    decreases a.len(),
{
    if a.len() == 0 {
        b.len() > 0
    } else if b.len() == 0 {
        false
    } else if a[0] != b[0] {
        a[0] < b[0]
    } else {
        key_lt(a.drop_first(), b.drop_first())
    }
}

/// Whether `a` comes before `b` as strings compare.
pub fn key_less(a: &str, b: &str) -> (r: bool)
    ensures
        r == key_lt(a@, b@),
{
    let x = chars_of(a);
    let y = chars_of(b);
    let mut i: usize = 0;
    assert(x@.skip(0) =~= x@);
    assert(y@.skip(0) =~= y@);
    while i < x.len() && i < y.len()
        invariant
            i <= x@.len(),
            i <= y@.len(),
            x@ == a@,
            y@ == b@,
            key_lt(a@, b@) == key_lt(x@.skip(i as int), y@.skip(i as int)),
            forall|j: int| 0 <= j < i ==> x@[j] == y@[j],
        decreases x@.len() - i,
    {
        assert(x@.skip(i as int)[0] == x@[i as int]);
        assert(y@.skip(i as int)[0] == y@[i as int]);
        if x[i] != y[i] {
            return x[i] < y[i];
        }
        assert(x@.skip(i as int).drop_first() =~= x@.skip(i + 1));
        assert(y@.skip(i as int).drop_first() =~= y@.skip(i + 1));
        i += 1;
    }
    i == x.len() && i < y.len()
}

/// The keys are in increasing order, so no key is there twice: a map kept as a list.
pub open spec fn keys_sorted(attrs: Seq<KeyValue>) -> bool {
    forall|i: int, j: int| 0 <= i < j < attrs.len() ==> key_lt(attrs[i].key@, attrs[j].key@)
}

/// Number of entries whose key comes before `key`.
pub open spec fn keys_below(attrs: Seq<KeyValue>, key: Seq<char>) -> nat
    decreases attrs.len(),
{
    if attrs.len() == 0 {
        0
    } else {
        keys_below(attrs.drop_last(), key) + if key_lt(attrs.last().key@, key) { 1nat } else { 0nat }
    }
}

proof fn lemma_keys_below_le(attrs: Seq<KeyValue>, key: Seq<char>)
    ensures
        keys_below(attrs, key) <= attrs.len(),
    decreases attrs.len(),
{
    if attrs.len() > 0 {
        lemma_keys_below_le(attrs.drop_last(), key);
    }
}

/// `attrs` with `value` stored under `key`, as inserting into a map ordered by key does: the
/// entry with this key gets the new value, or, where there is none, the pair goes after the
/// entries whose keys come before it.
pub open spec fn attr_insert(attrs: Seq<KeyValue>, key: Seq<char>, value: KeyValue) -> Seq<KeyValue> {
    match attr_index(attrs, key) {
        Some(i) => attrs.update(i, value),
        None => attrs.insert(keys_below(attrs, key) as int, value),
    }
}

proof fn lemma_key_lt_irreflexive(a: Seq<char>)
    ensures
        !key_lt(a, a),
    decreases a.len(),
{
    if a.len() > 0 {
        lemma_key_lt_irreflexive(a.drop_first());
    }
}

proof fn lemma_key_lt_transitive(a: Seq<char>, b: Seq<char>, c: Seq<char>)
    requires
        key_lt(a, b),
        key_lt(b, c),
    ensures
        key_lt(a, c),
    decreases a.len(),
{
    if a.len() > 0 && b.len() > 0 && c.len() > 0 && a[0] == b[0] && b[0] == c[0] {
        lemma_key_lt_transitive(a.drop_first(), b.drop_first(), c.drop_first());
    }
}

proof fn lemma_key_lt_total(a: Seq<char>, b: Seq<char>)
    requires
        a != b,
    ensures
        key_lt(a, b) || key_lt(b, a),
    decreases a.len(),
{
    if a.len() == 0 && b.len() == 0 {
        assert(a =~= b);
    }
    if a.len() > 0 && b.len() > 0 && a[0] == b[0] {
        if a.drop_first() == b.drop_first() {
            assert(a =~= seq![a[0]] + a.drop_first());
            assert(b =~= seq![b[0]] + b.drop_first());
        }
        lemma_key_lt_total(a.drop_first(), b.drop_first());
    }
}

proof fn lemma_keys_below_split(attrs: Seq<KeyValue>, key: Seq<char>)
    requires
        keys_sorted(attrs),
    ensures
        keys_below(attrs, key) <= attrs.len(),
        forall|j: int| 0 <= j < keys_below(attrs, key) ==> key_lt(#[trigger] attrs[j].key@, key),
        forall|j: int| keys_below(attrs, key) <= j < attrs.len() ==> !key_lt(#[trigger] attrs[j].key@, key),
    decreases attrs.len(),
{
    if attrs.len() > 0 {
        let p = attrs.drop_last();
        assert(keys_sorted(p)) by {
            assert forall|i: int, j: int| 0 <= i < j < p.len() implies key_lt(p[i].key@, p[j].key@) by {
                assert(attrs[i] == p[i] && attrs[j] == p[j]);
            }
        }
        lemma_keys_below_split(p, key);
        let c = keys_below(p, key);
        let n = attrs.len() - 1;
        if key_lt(attrs[n].key@, key) {
            if c < p.len() {
                assert(key_lt(attrs[c as int].key@, attrs[n].key@));
                lemma_key_lt_transitive(attrs[c as int].key@, attrs[n].key@, key);
                assert(p[c as int] == attrs[c as int]);
            }
            assert forall|j: int| 0 <= j < keys_below(attrs, key) implies key_lt(#[trigger] attrs[j].key@, key) by {
                if j < n {
                    assert(p[j] == attrs[j]);
                }
            }
        } else {
            assert forall|j: int| keys_below(attrs, key) <= j < attrs.len() implies !key_lt(#[trigger] attrs[j].key@, key) by {
                if j < n {
                    assert(p[j] == attrs[j]);
                }
            }
            assert forall|j: int| 0 <= j < keys_below(attrs, key) implies key_lt(#[trigger] attrs[j].key@, key) by {
                assert(p[j] == attrs[j]);
            }
        }
    }
}

/// The entry `i` is the first one with `key`.
proof fn lemma_first_with_key(attrs: Seq<KeyValue>, key: Seq<char>, i: int)
    requires
        0 <= i < attrs.len(),
        attrs[i].key@ == key,
        forall|j: int| 0 <= j < i ==> attrs[j].key@ != key,
    ensures
        attr_index(attrs, key) == Some(i),
        attr_get(attrs, key) == Some(attrs[i].value),
{
    lemma_attr_index(attrs, key);
}

/// Attributes behave as a map: after `value` is stored under its key, reading that key gives
/// `value`, and reading any other key gives what it gave before; entries kept in order of key,
/// with no key twice, stay so.
pub proof fn lemma_attr_insert_map(attrs: Seq<KeyValue>, key: Seq<char>, value: KeyValue, other: Seq<char>)
    requires
        value.key@ == key,
    ensures
        attr_get(attr_insert(attrs, key, value), key) == Some(value.value),
        other != key ==> attr_get(attr_insert(attrs, key, value), other) == attr_get(attrs, other),
        keys_sorted(attrs) ==> keys_sorted(attr_insert(attrs, key, value)),
{
    lemma_attr_index(attrs, key);
    lemma_attr_index(attrs, other);
    let r = attr_insert(attrs, key, value);
    match attr_index(attrs, key) {
        Some(i) => {
            assert(r == attrs.update(i, value));
            lemma_first_with_key(r, key, i);
            if other != key {
                match attr_index(attrs, other) {
                    Some(k) => {
                        lemma_first_with_key(r, other, k);
                    },
                    None => {
                        lemma_attr_index(r, other);
                        if attr_index(r, other) is Some {
                            let k = attr_index(r, other)->0;
                            if k != i {
                                assert(r[k] == attrs[k]);
                            }
                        }
                    },
                }
            }
            if keys_sorted(attrs) {
                assert forall|a: int, b: int| 0 <= a < b < r.len() implies key_lt(r[a].key@, r[b].key@) by {
                    assert(key_lt(attrs[a].key@, attrs[b].key@));
                }
            }
        },
        None => {
            let p = keys_below(attrs, key) as int;
            lemma_keys_below_le(attrs, key);
            assert(r == attrs.insert(p, value));
            lemma_first_with_key(r, key, p);
            if other != key {
                match attr_index(attrs, other) {
                    Some(k) => {
                        if k < p {
                            lemma_first_with_key(r, other, k);
                        } else {
                            assert(r[k + 1] == attrs[k]);
                            lemma_first_with_key(r, other, k + 1);
                        }
                    },
                    None => {
                        lemma_attr_index(r, other);
                        if attr_index(r, other) is Some {
                            let k = attr_index(r, other)->0;
                            if k < p {
                                assert(r[k] == attrs[k]);
                            } else if k > p {
                                assert(r[k] == attrs[k - 1]);
                            }
                        }
                    },
                }
            }
            if keys_sorted(attrs) {
                lemma_keys_below_split(attrs, key);
                assert forall|j: int| p <= j < attrs.len() implies key_lt(key, #[trigger] attrs[j].key@) by {
                    lemma_key_lt_total(attrs[j].key@, key);
                }
                assert forall|a: int, b: int| 0 <= a < b < r.len() implies key_lt(r[a].key@, r[b].key@) by {
                    if b < p {
                        assert(r[a] == attrs[a] && r[b] == attrs[b]);
                    } else if b == p {
                        assert(r[a] == attrs[a]);
                    } else if a < p {
                        assert(r[a] == attrs[a] && r[b] == attrs[b - 1]);
                        lemma_key_lt_transitive(attrs[a].key@, key, attrs[b - 1].key@);
                    } else if a == p {
                        assert(r[b] == attrs[b - 1]);
                    } else {
                        assert(r[a] == attrs[a - 1] && r[b] == attrs[b - 1]);
                    }
                }
            }
        },
    }
}

/// Stores `value` under `key`, as inserting into a map ordered by key does.
pub fn insert_attribute(attrs: &mut Vec<KeyValue>, key: String, value: AttrValue)
    ensures
        final(attrs)@ == attr_insert(old(attrs)@, key@, KeyValue { key, value }),
{
    let kv = KeyValue { key, value };
    match find_attribute(attrs, kv.key.as_str()) {
        Some(i) => {
            attrs.set(i, kv);
        },
        None => {
            let mut p: usize = 0;
            for j in 0..attrs.len()
                invariant
                    p == keys_below(attrs@.take(j as int), kv.key@),
                    p <= j,
            {
                assert(attrs@.take(j + 1).drop_last() =~= attrs@.take(j as int));
                if key_less(attrs[j].key.as_str(), kv.key.as_str()) {
                    p += 1;
                }
            }
            assert(attrs@.take(attrs@.len() as int) =~= attrs@);
            attrs.insert(p, kv);
        },
    }
}

/// Two attribute values are alike: of the same kind, with alike contents.
pub open spec fn value_same(a: AttrValue, b: AttrValue) -> bool
    decreases a,
{
    match (a, b) {
        (AttrValue::Empty, AttrValue::Empty) => true,
        (AttrValue::Str(x), AttrValue::Str(y)) => x@ == y@,
        (AttrValue::Bool(x), AttrValue::Bool(y)) => x == y,
        (AttrValue::Int(x), AttrValue::Int(y)) => x == y,
        (AttrValue::Double(xb, xt), AttrValue::Double(yb, yt)) => xb == yb && xt@ == yt@,
        (AttrValue::Array(x), AttrValue::Array(y)) => list_same(x@, y@),
        (AttrValue::Kvlist(x), AttrValue::Kvlist(y)) => kv_list_same(x@, y@),
        (AttrValue::Bytes(x), AttrValue::Bytes(y)) => x@ == y@,
        _ => false,
    }
}

/// The lists have the same length and alike values at each position.
pub open spec fn list_same(a: Seq<AttrValue>, b: Seq<AttrValue>) -> bool
    decreases a,
{
    if a.len() != b.len() {
        false
    } else if a.len() == 0 {
        true
    } else {
        list_same(a.drop_last(), b.drop_last()) && value_same(a.last(), b.last())
    }
}

/// The lists have the same length, the same keys and alike values at each position.
pub open spec fn kv_list_same(a: Seq<KeyValue>, b: Seq<KeyValue>) -> bool
    decreases a,
{
    if a.len() != b.len() {
        false
    } else if a.len() == 0 {
        true
    } else {
        kv_list_same(a.drop_last(), b.drop_last()) && a.last().key@ == b.last().key@
            && value_same(a.last().value, b.last().value)
    }
}

fn list_equal(a: &Vec<AttrValue>, b: &Vec<AttrValue>) -> (r: bool)
    ensures
        r == list_same(a@, b@),
    decreases a,
{
    if a.len() != b.len() {
        return false;
    }
    for i in 0..a.len()
        invariant
            a@.len() == b@.len(),
            list_same(a@.take(i as int), b@.take(i as int)),
    {
        assert(a@.take(i + 1).drop_last() =~= a@.take(i as int));
        assert(b@.take(i + 1).drop_last() =~= b@.take(i as int));
        proof {
            assert(decreases_to!(*a => a@[i as int]));
        }
        if !values_equal(&a[i], &b[i]) {
            proof {
                if list_same(a@, b@) {
                    lemma_list_same_prefix(a@, b@, i + 1);
                }
            }
            return false;
        }
    }
    assert(a@.take(a.len() as int) =~= a@);
    assert(b@.take(b.len() as int) =~= b@);
    true
}

proof fn lemma_list_same_prefix(a: Seq<AttrValue>, b: Seq<AttrValue>, k: int)
    requires
        list_same(a, b),
        0 <= k <= a.len(),
    ensures
        list_same(a.take(k), b.take(k)),
        k > 0 ==> value_same(a[k - 1], b[k - 1]),
    decreases a.len() - k,
{
    if k < a.len() {
        assert(a.drop_last().take(k) =~= a.take(k));
        assert(b.drop_last().take(k) =~= b.take(k));
        lemma_list_same_prefix(a.drop_last(), b.drop_last(), k);
    } else {
        assert(a.take(k) =~= a);
        assert(b.take(k) =~= b);
    }
}

proof fn lemma_kv_list_same_prefix(a: Seq<KeyValue>, b: Seq<KeyValue>, k: int)
    requires
        kv_list_same(a, b),
        0 <= k <= a.len(),
    ensures
        kv_list_same(a.take(k), b.take(k)),
        k > 0 ==> a[k - 1].key@ == b[k - 1].key@ && value_same(a[k - 1].value, b[k - 1].value),
    decreases a.len() - k,
{
    if k < a.len() {
        assert(a.drop_last().take(k) =~= a.take(k));
        assert(b.drop_last().take(k) =~= b.take(k));
        lemma_kv_list_same_prefix(a.drop_last(), b.drop_last(), k);
    } else {
        assert(a.take(k) =~= a);
        assert(b.take(k) =~= b);
    }
}

fn kv_list_equal(a: &Vec<KeyValue>, b: &Vec<KeyValue>) -> (r: bool)
    ensures
        r == kv_list_same(a@, b@),
    decreases a,
{
    if a.len() != b.len() {
        return false;
    }
    for i in 0..a.len()
        invariant
            a@.len() == b@.len(),
            kv_list_same(a@.take(i as int), b@.take(i as int)),
    {
        assert(a@.take(i + 1).drop_last() =~= a@.take(i as int));
        assert(b@.take(i + 1).drop_last() =~= b@.take(i as int));
        proof {
            assert(decreases_to!(*a => a@[i as int]));
            assert(decreases_to!(a@[i as int] => a@[i as int].value));
        }
        let ka = chars_of(a[i].key.as_str());
        let kb = chars_of(b[i].key.as_str());
        if !crate::text::chars_eq(ka.as_slice(), kb.as_slice())
            || !values_equal(&a[i].value, &b[i].value) {
            proof {
                if kv_list_same(a@, b@) {
                    lemma_kv_list_same_prefix(a@, b@, i + 1);
                }
            }
            return false;
        }
    }
    assert(a@.take(a.len() as int) =~= a@);
    assert(b@.take(b.len() as int) =~= b@);
    true
}

pub fn bytes_equal(a: &Vec<u8>, b: &Vec<u8>) -> (r: bool)
    ensures
        r == (a@ == b@),
{
    if a.len() != b.len() {
        return false;
    }
    for i in 0..a.len()
        invariant
            a@.len() == b@.len(),
            forall|j: int| 0 <= j < i ==> a@[j] == b@[j],
    {
        if a[i] != b[i] {
            return false;
        }
    }
    assert(a@ =~= b@);
    true
}

/// Whether two attribute values are alike.
pub fn values_equal(a: &AttrValue, b: &AttrValue) -> (r: bool)
    ensures
        r == value_same(*a, *b),
    decreases a,
{
    match (a, b) {
        (AttrValue::Empty, AttrValue::Empty) => true,
        (AttrValue::Str(x), AttrValue::Str(y)) => x.eq(y),
        (AttrValue::Bool(x), AttrValue::Bool(y)) => *x == *y,
        (AttrValue::Int(x), AttrValue::Int(y)) => *x == *y,
        (AttrValue::Double(xb, xt), AttrValue::Double(yb, yt)) => *xb == *yb && xt.eq(yt),
        (AttrValue::Array(x), AttrValue::Array(y)) => list_equal(x, y),
        (AttrValue::Kvlist(x), AttrValue::Kvlist(y)) => kv_list_equal(x, y),
        (AttrValue::Bytes(x), AttrValue::Bytes(y)) => bytes_equal(x, y),
        _ => false,
    }
}

/// The bit pattern is that of a NaN: all exponent bits set and a mantissa that is not zero.
pub open spec fn double_is_nan(b: u64) -> bool {
    b & 0x7FF0_0000_0000_0000u64 == 0x7FF0_0000_0000_0000u64 && b & 0x000F_FFFF_FFFF_FFFFu64 != 0
}

/// The bit pattern is that of a zero of either sign.
pub open spec fn double_is_zero(b: u64) -> bool {
    b & 0x7FFF_FFFF_FFFF_FFFFu64 == 0
}

/// Two doubles, given by their bit patterns, are equal as `f64`'s `==` has it: no NaN equals
/// anything, the two zeros are equal, and other values are equal when their bits are.
pub open spec fn doubles_equal(a: u64, b: u64) -> bool {
    !double_is_nan(a) && !double_is_nan(b) && (a == b || (double_is_zero(a) && double_is_zero(b)))
}

/// Two attribute values are equal as OpenTelemetry's `Value` compares them with `==`: of the
/// same kind, doubles by `f64` equality, lists and key-value lists element by element.
pub open spec fn value_matches(a: AttrValue, b: AttrValue) -> bool
    decreases a,
{
    match (a, b) {
        (AttrValue::Empty, AttrValue::Empty) => true,
        (AttrValue::Str(x), AttrValue::Str(y)) => x@ == y@,
        (AttrValue::Bool(x), AttrValue::Bool(y)) => x == y,
        (AttrValue::Int(x), AttrValue::Int(y)) => x == y,
        (AttrValue::Double(x, _), AttrValue::Double(y, _)) => doubles_equal(x, y),
        (AttrValue::Array(x), AttrValue::Array(y)) => list_matches(x@, y@),
        (AttrValue::Kvlist(x), AttrValue::Kvlist(y)) => kv_list_matches(x@, y@),
        (AttrValue::Bytes(x), AttrValue::Bytes(y)) => x@ == y@,
        _ => false,
    }
}

/// The lists have the same length and equal values at each position.
pub open spec fn list_matches(a: Seq<AttrValue>, b: Seq<AttrValue>) -> bool
    decreases a,
{
    if a.len() != b.len() {
        false
    } else if a.len() == 0 {
        true
    } else {
        list_matches(a.drop_last(), b.drop_last()) && value_matches(a.last(), b.last())
    }
}

/// The lists have the same length, the same keys and equal values at each position.
pub open spec fn kv_list_matches(a: Seq<KeyValue>, b: Seq<KeyValue>) -> bool
    decreases a,
{
    if a.len() != b.len() {
        false
    } else if a.len() == 0 {
        true
    } else {
        kv_list_matches(a.drop_last(), b.drop_last()) && a.last().key@ == b.last().key@
            && value_matches(a.last().value, b.last().value)
    }
}

/// Doubles compare as `f64` does: no NaN equals anything, not even itself, the two zeros are
/// equal, and other values are equal exactly when their bit patterns are.
pub proof fn lemma_doubles_equal(a: u64, b: u64)
    ensures
        double_is_nan(a) ==> !doubles_equal(a, b) && !doubles_equal(b, a),
        doubles_equal(a, b) == doubles_equal(b, a),
        !double_is_nan(a) ==> doubles_equal(a, a),
        double_is_zero(a) && double_is_zero(b) ==> doubles_equal(a, b),
        !double_is_zero(a) && a != b ==> !doubles_equal(a, b),
{
    if double_is_zero(a) {
        assert(a & 0x7FF0_0000_0000_0000u64 == 0u64) by (bit_vector)
            requires a & 0x7FFF_FFFF_FFFF_FFFFu64 == 0u64;
    }
    if double_is_zero(b) {
        assert(b & 0x7FF0_0000_0000_0000u64 == 0u64) by (bit_vector)
            requires b & 0x7FFF_FFFF_FFFF_FFFFu64 == 0u64;
    }
}

/// Whether two doubles, given by their bit patterns, are equal as `f64`'s `==` has it.
pub fn doubles_eq(a: u64, b: u64) -> (r: bool)
    ensures
        r == doubles_equal(a, b),
{
    let a_nan = a & 0x7FF0_0000_0000_0000u64 == 0x7FF0_0000_0000_0000u64 && a & 0x000F_FFFF_FFFF_FFFFu64 != 0;
    let b_nan = b & 0x7FF0_0000_0000_0000u64 == 0x7FF0_0000_0000_0000u64 && b & 0x000F_FFFF_FFFF_FFFFu64 != 0;
    !a_nan && !b_nan && (a == b || (a & 0x7FFF_FFFF_FFFF_FFFFu64 == 0 && b & 0x7FFF_FFFF_FFFF_FFFFu64 == 0))
}

/// Whether two attribute values are equal as OpenTelemetry's `Value` compares them.
pub fn values_match(a: &AttrValue, b: &AttrValue) -> (r: bool)
    ensures
        r == value_matches(*a, *b),
    decreases a,
{
    match (a, b) {
        (AttrValue::Empty, AttrValue::Empty) => true,
        (AttrValue::Str(x), AttrValue::Str(y)) => x.eq(y),
        (AttrValue::Bool(x), AttrValue::Bool(y)) => *x == *y,
        (AttrValue::Int(x), AttrValue::Int(y)) => *x == *y,
        (AttrValue::Double(x, _), AttrValue::Double(y, _)) => doubles_eq(*x, *y),
        (AttrValue::Array(x), AttrValue::Array(y)) => lists_match(x, y),
        (AttrValue::Kvlist(x), AttrValue::Kvlist(y)) => kv_lists_match(x, y),
        (AttrValue::Bytes(x), AttrValue::Bytes(y)) => bytes_equal(x, y),
        _ => false,
    }
}

proof fn lemma_list_matches_prefix(a: Seq<AttrValue>, b: Seq<AttrValue>, k: int)
    requires
        list_matches(a, b),
        0 <= k <= a.len(),
    ensures
        list_matches(a.take(k), b.take(k)),
        k > 0 ==> value_matches(a[k - 1], b[k - 1]),
    decreases a.len() - k,
{
    if k < a.len() {
        assert(a.drop_last().take(k) =~= a.take(k));
        assert(b.drop_last().take(k) =~= b.take(k));
        lemma_list_matches_prefix(a.drop_last(), b.drop_last(), k);
    } else {
        assert(a.take(k) =~= a);
        assert(b.take(k) =~= b);
    }
}

proof fn lemma_kv_list_matches_prefix(a: Seq<KeyValue>, b: Seq<KeyValue>, k: int)
    requires
        kv_list_matches(a, b),
        0 <= k <= a.len(),
    ensures
        kv_list_matches(a.take(k), b.take(k)),
        k > 0 ==> a[k - 1].key@ == b[k - 1].key@ && value_matches(a[k - 1].value, b[k - 1].value),
    decreases a.len() - k,
{
    if k < a.len() {
        assert(a.drop_last().take(k) =~= a.take(k));
        assert(b.drop_last().take(k) =~= b.take(k));
        lemma_kv_list_matches_prefix(a.drop_last(), b.drop_last(), k);
    } else {
        assert(a.take(k) =~= a);
        assert(b.take(k) =~= b);
    }
}

fn lists_match(a: &Vec<AttrValue>, b: &Vec<AttrValue>) -> (r: bool)
    ensures
        r == list_matches(a@, b@),
    decreases a,
{
    if a.len() != b.len() {
        return false;
    }
    for i in 0..a.len()
        invariant
            a@.len() == b@.len(),
            list_matches(a@.take(i as int), b@.take(i as int)),
    {
        assert(a@.take(i + 1).drop_last() =~= a@.take(i as int));
        assert(b@.take(i + 1).drop_last() =~= b@.take(i as int));
        proof {
            assert(decreases_to!(*a => a@[i as int]));
        }
        if !values_match(&a[i], &b[i]) {
            proof {
                if list_matches(a@, b@) {
                    lemma_list_matches_prefix(a@, b@, i + 1);
                }
            }
            return false;
        }
    }
    assert(a@.take(a.len() as int) =~= a@);
    assert(b@.take(b.len() as int) =~= b@);
    true
}

fn kv_lists_match(a: &Vec<KeyValue>, b: &Vec<KeyValue>) -> (r: bool)
    ensures
        r == kv_list_matches(a@, b@),
    decreases a,
{
    if a.len() != b.len() {
        return false;
    }
    for i in 0..a.len()
        invariant
            a@.len() == b@.len(),
            kv_list_matches(a@.take(i as int), b@.take(i as int)),
    {
        assert(a@.take(i + 1).drop_last() =~= a@.take(i as int));
        assert(b@.take(i + 1).drop_last() =~= b@.take(i as int));
        proof {
            assert(decreases_to!(*a => a@[i as int]));
            assert(decreases_to!(a@[i as int] => a@[i as int].value));
        }
        let ka = chars_of(a[i].key.as_str());
        let kb = chars_of(b[i].key.as_str());
        if !crate::text::chars_eq(ka.as_slice(), kb.as_slice())
            || !values_match(&a[i].value, &b[i].value) {
            proof {
                if kv_list_matches(a@, b@) {
                    lemma_kv_list_matches_prefix(a@, b@, i + 1);
                }
            }
            return false;
        }
    }
    assert(a@.take(a.len() as int) =~= a@);
    assert(b@.take(b.len() as int) =~= b@);
    true
}

/// A copy of an attribute value.
pub fn copy_value(v: &AttrValue) -> (r: AttrValue)
    ensures
        value_same(r, *v),
    decreases v,
{
    match v {
        AttrValue::Empty => AttrValue::Empty,
        AttrValue::Str(t) => AttrValue::Str(t.clone()),
        AttrValue::Bool(b) => AttrValue::Bool(*b),
        AttrValue::Int(i) => AttrValue::Int(*i),
        AttrValue::Double(b, t) => AttrValue::Double(*b, t.clone()),
        AttrValue::Array(items) => AttrValue::Array(copy_value_list(items)),
        AttrValue::Kvlist(kvs) => AttrValue::Kvlist(copy_kv_list(kvs)),
        AttrValue::Bytes(b) => {
            let mut out: Vec<u8> = Vec::new();
            for i in 0..b.len()
                invariant
                    out@ == b@.take(i as int),
            {
                out.push(b[i]);
                assert(b@.take(i + 1) =~= b@.take(i as int).push(b@[i as int]));
            }
            assert(b@.take(b.len() as int) =~= b@);
            AttrValue::Bytes(out)
        },
    }
}

fn copy_value_list(a: &Vec<AttrValue>) -> (r: Vec<AttrValue>)
    ensures
        list_same(r@, a@),
    decreases a,
{
    let mut out: Vec<AttrValue> = Vec::new();
    for i in 0..a.len()
        invariant
            out@.len() == i,
            list_same(out@, a@.take(i as int)),
    {
        proof {
            assert(decreases_to!(*a => a@[i as int]));
        }
        let c = copy_value(&a[i]);
        let ghost before = out@;
        out.push(c);
        assert(out@.drop_last() =~= before);
        assert(a@.take(i + 1).drop_last() =~= a@.take(i as int));
    }
    assert(a@.take(a.len() as int) =~= a@);
    out
}

/// A copy of a list of attributes.
pub fn copy_kv_list(a: &Vec<KeyValue>) -> (r: Vec<KeyValue>)
    ensures
        kv_list_same(r@, a@),
    decreases a,
{
    let mut out: Vec<KeyValue> = Vec::new();
    for i in 0..a.len()
        invariant
            out@.len() == i,
            kv_list_same(out@, a@.take(i as int)),
    {
        proof {
            assert(decreases_to!(*a => a@[i as int]));
            assert(decreases_to!(a@[i as int] => a@[i as int].value));
        }
        let kv = KeyValue { key: a[i].key.clone(), value: copy_value(&a[i].value) };
        let ghost before = out@;
        out.push(kv);
        assert(out@.drop_last() =~= before);
        assert(a@.take(i + 1).drop_last() =~= a@.take(i as int));
    }
    assert(a@.take(a.len() as int) =~= a@);
    out
}

/// The events have the same names, times and alike attributes.
pub open spec fn events_same(a: Seq<Event>, b: Seq<Event>) -> bool {
    &&& a.len() == b.len()
    &&& forall|i: int| 0 <= i < a.len() ==> {
        &&& (#[trigger] a[i]).name@ == b[i].name@
        &&& a[i].time == b[i].time
        &&& kv_list_same(a[i].attributes@, b[i].attributes@)
    }
}

/// A copy of a list of events.
pub fn copy_events(a: &Vec<Event>) -> (r: Vec<Event>)
    ensures
        events_same(r@, a@),
{
    let mut out: Vec<Event> = Vec::new();
    for i in 0..a.len()
        invariant
            out@.len() == i,
            events_same(out@, a@.take(i as int)),
    {
        let e = Event { name: a[i].name.clone(), time: a[i].time, attributes: copy_kv_list(&a[i].attributes) };
        out.push(e);
    }
    assert(a@.take(a.len() as int) =~= a@);
    out
}

/// The merged intervals, if any.
pub open spec fn segments_of(o: Option<Vec<(TimePoint, TimePoint)>>) -> Option<Seq<(TimePoint, TimePoint)>> {
    match o {
        Some(v) => Some(v@),
        None => None,
    }
}

/// A copy of a list of intervals.
pub fn copy_segments(a: &Option<Vec<(TimePoint, TimePoint)>>) -> (r: Option<Vec<(TimePoint, TimePoint)>>)
    ensures
        segments_of(r) == segments_of(*a),
{
    match a {
        Some(v) => {
            let mut out: Vec<(TimePoint, TimePoint)> = Vec::new();
            for i in 0..v.len()
                invariant
                    out@ == v@.take(i as int),
            {
                out.push(v[i]);
                assert(v@.take(i + 1) =~= v@.take(i as int).push(v@[i as int]));
            }
            assert(v@.take(v.len() as int) =~= v@);
            Some(out)
        },
        None => None,
    }
}

/// `a` is a copy of `b`: the same texts, ids, times, node, scope and display settings, alike
/// attributes and events; the children are not compared.
pub open spec fn span_copy_of(a: Span, b: Span) -> bool {
    &&& fields_copy_of(a, b)
    &&& segments_of(a.active_segments) == segments_of(b.active_segments)
}

/// `a` is a copy of `b` but for its merged intervals and children.
pub open spec fn fields_copy_of(a: Span, b: Span) -> bool {
    &&& a.name@ == b.name@
    &&& a.original_name@ == b.original_name@
    &&& a.span_id@ == b.span_id@
    &&& a.trace_id@ == b.trace_id@
    &&& a.parent_span_id@ == b.parent_span_id@
    &&& a.start_time == b.start_time
    &&& a.end_time == b.end_time
    &&& kv_list_same(a.attributes@, b.attributes@)
    &&& events_same(a.events@, b.events@)
    &&& a.node == b.node
    &&& a.scope == b.scope
    &&& a.min_start_time == b.min_start_time
    &&& a.max_end_time == b.max_end_time
    &&& a.display_options == b.display_options
    &&& a.collapse_children == b.collapse_children
    &&& a.dont_collapse_this_span == b.dont_collapse_this_span
    &&& a.parent_height_offset == b.parent_height_offset
}

/// A copy of a span, with the given children.
pub fn copy_span(s: &Span, children: Vec<Rc<Span>>) -> (r: Span)
    ensures
        span_copy_of(r, *s),
        r.children == children,
{
    Span {
        name: s.name.clone(),
        original_name: s.original_name.clone(),
        span_id: copy_bytes(&s.span_id),
        trace_id: copy_bytes(&s.trace_id),
        parent_span_id: copy_bytes(&s.parent_span_id),
        start_time: s.start_time,
        end_time: s.end_time,
        attributes: copy_kv_list(&s.attributes),
        events: copy_events(&s.events),
        node: crate::analyze_utils::rc_clone(&s.node),
        scope: match &s.scope {
            Some(sc) => Some(crate::analyze_utils::rc_clone(sc)),
            None => None,
        },
        children,
        min_start_time: s.min_start_time,
        max_end_time: s.max_end_time,
        display_options: SpanDisplayConfig { display_length: s.display_options.display_length },
        collapse_children: s.collapse_children,
        dont_collapse_this_span: s.dont_collapse_this_span,
        parent_height_offset: s.parent_height_offset,
        active_segments: copy_segments(&s.active_segments),
    }
}

/// A copy of a byte string.
pub fn copy_bytes(b: &Vec<u8>) -> (r: Vec<u8>)
    ensures
        r@ == b@,
{
    let mut out: Vec<u8> = Vec::new();
    for i in 0..b.len()
        invariant
            out@ == b@.take(i as int),
    {
        out.push(b[i]);
        assert(b@.take(i + 1) =~= b@.take(i as int).push(b@[i as int]));
    }
    assert(b@.take(b.len() as int) =~= b@);
    out
}

/// The UTC date and time, to the millisecond, of a point given in nanoseconds since the Unix
/// epoch, as `chrono` writes it with the format "%Y-%m-%d %H:%M:%S%.3f".
pub uninterp spec fn utc_text(nanos: i64) -> Seq<char>;

/// `chrono::DateTime::from_timestamp_nanos(nanos)` formatted with "%Y-%m-%d %H:%M:%S%.3f": the
/// text that `utc_text` names.
#[verifier::external_body]
fn format_utc(nanos: i64) -> (r: String)
    ensures
        r@ == utc_text(nanos),
{
    chrono::DateTime::from_timestamp_nanos(nanos).format("%Y-%m-%d %H:%M:%S%.3f").to_string()
}

/// The nanoseconds of a time point as a signed count, the largest one for later points.
pub open spec fn clamped_nanos(time: TimePoint) -> i64 {
    if time > i64::MAX as u64 { i64::MAX } else { time as i64 }
}

/// The UTC date and time of a time point, to the millisecond.
pub fn time_point_to_utc_string(time: TimePoint) -> (r: String)
    ensures
        r@ == utc_text(clamped_nanos(time)),
{
    let nanos: i64 = if time > i64::MAX as u64 { i64::MAX } else { time as i64 };
    format_utc(nanos)
}

/// Lowercase hexadecimal digit.
pub open spec fn hex_digit_char(d: int) -> char {
    if d < 10 { digit_of(d) } else if d == 10 { 'a' } else if d == 11 { 'b' } else if d == 12 { 'c' }
    else if d == 13 { 'd' } else if d == 14 { 'e' } else { 'f' }
}

/// Decimal digit.
pub open spec fn digit_of(d: int) -> char {
    crate::text::digit_char(d)
}

/// Lowercase hexadecimal text of a number, without leading zeros.
pub open spec fn hex_text(n: nat) -> Seq<char>
    decreases n,
{
    if n < 16 {
        seq![hex_digit_char(n as int)]
    } else {
        hex_text(n / 16).push(hex_digit_char((n % 16) as int))
    }
}

/// Hexadecimal texts of the bytes, separated by ", ".
pub open spec fn hex_list_text(b: Seq<u8>) -> Seq<char>
    decreases b.len(),
{
    if b.len() == 0 {
        Seq::empty()
    } else if b.len() == 1 {
        hex_text(b[0] as nat)
    } else {
        hex_list_text(b.drop_last()) + seq![',', ' '] + hex_text(b.last() as nat)
    }
}

/// Bytes as a list debug-formatted in hexadecimal, as `{:x?}` writes them.
pub open spec fn bytes_hex_text(b: Seq<u8>) -> Seq<char> {
    seq!['['] + hex_list_text(b) + seq![']']
}

/// A line for each attribute: its key and the text of its value.
pub open spec fn attribute_lines(attrs: Seq<KeyValue>) -> Seq<char>
    decreases attrs.len(),
{
    if attrs.len() == 0 {
        Seq::empty()
    } else {
        attribute_lines(attrs.drop_last()) + "\n "@ + attrs.last().key@ + " = "@ + value_text(attrs.last().value) + ","@
    }
}

/// The attributes as text, a line for each, in braces.
pub open spec fn attributes_text(attrs: Seq<KeyValue>) -> Seq<char> {
    "{"@ + attribute_lines(attrs) + "}"@
}

/// The UTC date and time of a time point.
pub open spec fn time_text(t: TimePoint) -> Seq<char> {
    utc_text(clamped_nanos(t))
}

/// The events as text, each with its name, time and attributes.
pub open spec fn events_text(events: Seq<Event>) -> Seq<char>
    decreases events.len(),
{
    if events.len() == 0 {
        Seq::empty()
    } else {
        let e = events.last();
        events_text(events.drop_last()) + "\n  event "@ + e.name@ + " "@ + time_text(e.time) + "\n attributes: "@
            + attributes_text(e.attributes@)
    }
}

/// What `format!("{:?}", s)` gives for a string: the string quoted, with its special characters
/// escaped.
pub uninterp spec fn debug_quoted(s: Seq<char>) -> Seq<char>;

/// `format!("{:?}", s)`: the quoted and escaped string that `debug_quoted` names.
#[verifier::external_body]
fn debug_text(s: &str) -> (r: String)
    ensures
        r@ == debug_quoted(s@),
{
    format!("{:?}", s)
}

/// The scope as text, its description debug-formatted as an optional string.
pub open spec fn scope_text(scope: Option<Rc<Scope>>) -> Seq<char> {
    match scope {
        None => "None"@,
        Some(sc) => "Some("@ + debug_quoted("Scope {\n  name: "@ + sc.name@ + "\n  version: "@ + sc.version@
            + "\n  attributes: "@ + attributes_text(sc.attributes@) + "\n }"@) + ")"@,
    }
}

/// The fields of a span as text: name, ids, times and attributes.
pub open spec fn span_fields_text(span: Span) -> Seq<char> {
    "Span {\n name: "@ + span.name@ + "\n, span_id: "@ + bytes_hex_text(span.span_id@)
        + "\n, trace_id: "@ + bytes_hex_text(span.trace_id@) + "\n, parent_span_id: "@
        + bytes_hex_text(span.parent_span_id@) + "\n, start_time: "@ + time_text(span.start_time)
        + "\n, end_time: "@ + time_text(span.end_time) + "\n, attributes: "@ + attributes_text(span.attributes@)
        + "\n"@
}

/// The events, node and scope of a span as text.
pub open spec fn span_context_text(span: Span) -> Seq<char> {
    " events: ["@ + events_text(span.events@) + "],\n"@
        + " node: Node {\n  name: "@ + span.node.name@ + "\n  attributes: "@ + attributes_text(span.node.attributes@)
        + "\n },\n"@ + " scope: "@ + scope_text(span.scope) + ",\n"@
}

/// A span as text, for searching: its fields, events, node and scope, and, when asked, the text
/// of each child.
pub open spec fn span_text(span: Span, include_children: bool) -> Seq<char>
    decreases span,
{
    span_fields_text(span) + span_context_text(span)
        + if include_children { " children: ["@ + children_text(span.children@) + "],\n"@ } else { Seq::empty() }
}

/// The texts of the spans, each on a new line.
pub open spec fn children_text(children: Seq<Rc<Span>>) -> Seq<char>
    decreases children,
{
    if children.len() == 0 {
        Seq::empty()
    } else {
        children_text(children.drop_last()) + "\n  "@ + span_text(*children.last(), true)
    }
}

fn hex_digit(d: u64) -> (c: char)
    requires
        d < 16,
    ensures
        c == hex_digit_char(d as int),
{
    if d < 10 {
        crate::text::digit(d)
    } else if d == 10 { 'a' } else if d == 11 { 'b' } else if d == 12 { 'c' }
    else if d == 13 { 'd' } else if d == 14 { 'e' } else { 'f' }
}

fn push_hex(s: &mut String, n: u64)
    ensures
        final(s)@ == old(s)@ + hex_text(n as nat),
    decreases n,
{
    if n >= 16 {
        push_hex(s, n / 16);
    }
    s.push(hex_digit(n % 16));
    assert(old(s)@ + hex_text(n as nat) =~= if n >= 16 {
        (old(s)@ + hex_text((n / 16) as nat)).push(hex_digit_char((n % 16) as int))
    } else {
        old(s)@.push(hex_digit_char(n as int))
    });
}

fn push_bytes_hex(s: &mut String, b: &Vec<u8>)
    ensures
        final(s)@ == old(s)@ + bytes_hex_text(b@),
{
    let ghost start = s@;
    s.push('[');
    for i in 0..b.len()
        invariant
            s@ == start + seq!['['] + hex_list_text(b@.take(i as int)),
    {
        assert(b@.take(i + 1).drop_last() =~= b@.take(i as int));
        if i > 0 {
            s.push(',');
            s.push(' ');
        }
        push_hex(s, b[i] as u64);
        if i == 0 {
            assert(hex_list_text(b@.take(1)) == hex_text(b@[0] as nat));
        }
        assert(s@ =~= start + seq!['['] + hex_list_text(b@.take(i + 1)));
    }
    assert(b@.take(b.len() as int) =~= b@);
    s.push(']');
    assert(s@ =~= start + bytes_hex_text(b@));
}

fn push_attributes_text(s: &mut String, attrs: &Vec<KeyValue>)
    ensures
        final(s)@ == old(s)@ + attributes_text(attrs@),
{
    let ghost start = s@;
    push_str(s, "{");
    for i in 0..attrs.len()
        invariant
            s@ == start + "{"@ + attribute_lines(attrs@.take(i as int)),
    {
        assert(attrs@.take(i + 1).drop_last() =~= attrs@.take(i as int));
        push_str(s, "\n ");
        push_str(s, attrs[i].key.as_str());
        push_str(s, " = ");
        push_value_text(s, &attrs[i].value);
        push_str(s, ",");
        assert(s@ =~= start + "{"@ + attribute_lines(attrs@.take(i + 1)));
    }
    assert(attrs@.take(attrs.len() as int) =~= attrs@);
    push_str(s, "}");
    assert(s@ =~= start + attributes_text(attrs@));
}

/// The attributes as text, a line for each key and value text, in braces.
pub fn stringify_attributes(attributes: &Vec<KeyValue>) -> (r: String)
    ensures
        r@ == attributes_text(attributes@),
{
    let mut s = String::new();
    push_attributes_text(&mut s, attributes);
    assert(s@ =~= attributes_text(attributes@));
    s
}

fn push_events_text(s: &mut String, events: &Vec<Event>)
    ensures
        final(s)@ == old(s)@ + events_text(events@),
{
    let ghost start = s@;
    for i in 0..events.len()
        invariant
            s@ == start + events_text(events@.take(i as int)),
    {
        assert(events@.take(i + 1).drop_last() =~= events@.take(i as int));
        let e = &events[i];
        push_str(s, "\n  event ");
        push_str(s, e.name.as_str());
        push_str(s, " ");
        let t = time_point_to_utc_string(e.time);
        push_str(s, t.as_str());
        push_str(s, "\n attributes: ");
        push_attributes_text(s, &e.attributes);
        assert(s@ =~= start + events_text(events@.take(i + 1)));
    }
    assert(events@.take(events.len() as int) =~= events@);
}

fn push_scope_text(s: &mut String, scope: &Option<Rc<Scope>>)
    ensures
        final(s)@ == old(s)@ + scope_text(*scope),
{
    match scope {
        None => push_str(s, "None"),
        Some(sc) => {
            let mut d = String::new();
            push_str(&mut d, "Scope {\n  name: ");
            push_str(&mut d, sc.name.as_str());
            push_str(&mut d, "\n  version: ");
            push_str(&mut d, sc.version.as_str());
            push_str(&mut d, "\n  attributes: ");
            push_attributes_text(&mut d, &sc.attributes);
            push_str(&mut d, "\n }");
            let q = debug_text(d.as_str());
            push_str(s, "Some(");
            push_str(s, q.as_str());
            push_str(s, ")");
            assert(d@ =~= "Scope {\n  name: "@ + sc.name@ + "\n  version: "@ + sc.version@
                + "\n  attributes: "@ + attributes_text(sc.attributes@) + "\n }"@);
        },
    }
}

fn push_span_fields(s: &mut String, span: &Span)
    ensures
        final(s)@ == old(s)@ + span_fields_text(*span),
{
    let ghost start = s@;
    push_str(s, "Span {\n name: ");
    push_str(s, span.name.as_str());
    push_str(s, "\n, span_id: ");
    push_bytes_hex(s, &span.span_id);
    push_str(s, "\n, trace_id: ");
    push_bytes_hex(s, &span.trace_id);
    push_str(s, "\n, parent_span_id: ");
    push_bytes_hex(s, &span.parent_span_id);
    push_str(s, "\n, start_time: ");
    let st = time_point_to_utc_string(span.start_time);
    push_str(s, st.as_str());
    push_str(s, "\n, end_time: ");
    let et = time_point_to_utc_string(span.end_time);
    push_str(s, et.as_str());
    push_str(s, "\n, attributes: ");
    push_attributes_text(s, &span.attributes);
    push_str(s, "\n");
    assert(s@ =~= start + span_fields_text(*span));
}

fn push_span_context(s: &mut String, span: &Span)
    ensures
        final(s)@ == old(s)@ + span_context_text(*span),
{
    let ghost start = s@;
    push_str(s, " events: [");
    push_events_text(s, &span.events);
    push_str(s, "],\n");
    push_str(s, " node: Node {\n  name: ");
    push_str(s, span.node.name.as_str());
    push_str(s, "\n  attributes: ");
    push_attributes_text(s, &span.node.attributes);
    push_str(s, "\n },\n");
    push_str(s, " scope: ");
    push_scope_text(s, &span.scope);
    push_str(s, ",\n");
    assert(s@ =~= start + span_context_text(*span));
}

#[verifier::spinoff_prover]
#[verifier::rlimit(40)]
fn push_span_text(s: &mut String, span: &Span, include_children: bool)
    ensures
        final(s)@ == old(s)@ + span_text(*span, include_children),
    decreases *span,
{
    let ghost start = s@;
    push_span_fields(s, span);
    push_span_context(s, span);
    let ghost head = s@;
    if include_children {
        push_str(s, " children: [");
        let ghost mid = s@;
        let children = &span.children;
        for i in 0..children.len()
            invariant
                *children == span.children,
                s@ == mid + children_text(children@.take(i as int)),
        {
            assert(children@.take(i + 1).drop_last() =~= children@.take(i as int));
            proof {
                assert(decreases_to!(*span => span.children));
                assert(decreases_to!(span.children => span.children@));
                assert(decreases_to!(span.children@ => *span.children@[i as int]));
            }
            push_str(s, "\n  ");
            push_span_text(s, &children[i], true);
            assert(s@ =~= mid + children_text(children@.take(i + 1)));
        }
        assert(children@.take(children@.len() as int) =~= children@);
        push_str(s, "],\n");
        assert(s@ =~= head + " children: ["@ + children_text(span.children@) + "],\n"@);
    } else {
        assert(s@ =~= head + Seq::<char>::empty());
    }
    assert(s@ =~= start + span_text(*span, include_children));
}

/// The span as text, for searching: its fields, events, node and scope, and, when asked, the
/// text of each of its children.
pub fn stringify_span(span: &Rc<Span>, include_children: bool) -> (r: String)
    ensures
        r@ == span_text(**span, include_children),
{
    let mut s = String::new();
    push_span_text(&mut s, span, include_children);
    assert(s@ =~= span_text(**span, include_children));
    s
}

} // verus!
