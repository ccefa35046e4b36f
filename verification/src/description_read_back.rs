//! Reading back the description of a dependency analysis: the parameter text that
//! `DependencyAnalysisResult::description` writes is read by `parse_and_fill_from_description`
//! as the settings it was written from.

use vstd::prelude::*;

use crate::analyze_dependency::{
    after_prefix, aggregation_named, aggregation_text, arrow_pattern, attribute_named,
    attribute_text, cardinality_named, cardinality_text, clean_value, description_error,
    description_prefix, lemma_param_values_step, lemma_setting_texts_read_back, param_names,
    param_values_from, params_text, parentheses_in_order, read_step, regex_capture_pair,
    result_description, scope_named, scope_text, timing_named, timing_text, value_end,
    AnalyzeDependencyModal, DependencyAnalysisResult,
};
use crate::text::{
    all_digits, contains_seq, digit_char, digits_value, find_seq, first_index_of, is_digit, is_ws,
    last_index_of, lemma_trim_end_take, lemma_trim_start_skip, nat_text, occurs_at, parse_nat,
    starts_with_seq, trim, trim_end, trim_end_char, trim_start,
};

verus! {

/// What is written after the value of parameter `i`: a comma and a space after all but the
/// last.
pub open spec fn param_sep(i: int) -> Seq<char> {
    if i == 6 { Seq::empty() } else { seq![',', ' '] }
}

/// The parameter text from parameter `i` on, where parameter `k` has the value `vals[k]`:
/// `name value`, separated by `", "`.
pub open spec fn params_from(vals: Seq<Seq<char>>, i: int) -> Seq<char>
    decreases 7 - i,
{
    if i < 0 || i >= 7 {
        Seq::empty()
    } else {
        param_names()[i] + seq![' '] + vals[i] + param_sep(i) + params_from(vals, i + 1)
    }
}

/// A value of parameter `i` that reading gives back unchanged: it is not empty, neither starts
/// nor ends with white space, does not end with a comma, and holds none of the names of the
/// parameters that follow it.
pub open spec fn value_read_back(v: Seq<char>, i: int) -> bool {
    &&& v.len() > 0
    &&& !is_ws(v[0])
    &&& !is_ws(v.last())
    &&& v.last() != ','
    &&& forall|k: int| i < k < 7 ==> !contains_seq(v, #[trigger] param_names()[k])
}

/// Every parameter name ends with a colon, holds no comma, and starts with neither a comma nor
/// a space.
proof fn lemma_param_name_shape(k: int)
    requires
        0 <= k < 7,
    ensures
        param_names()[k].len() >= 6,
        param_names()[k][0] != ' ',
        param_names()[k][0] != ',',
        param_names()[k].last() == ':',
        forall|t: int| 0 <= t < param_names()[k].len() ==> param_names()[k][t] != ',',
{
    reveal_strlit("cardinality:");
    reveal_strlit("threshold:");
    reveal_strlit("linking by:");
    reveal_strlit("group by:");
    reveal_strlit("scope:");
    reveal_strlit("timing:");
    reveal_strlit("group aggregation:");
}

/// Every occurrence has a first one at or before it.
proof fn lemma_least_occurrence(h: Seq<char>, n: Seq<char>, p: int)
    requires
        occurs_at(h, n, p),
    ensures
        exists|i: int| occurs_at(h, n, i) && forall|j: int| 0 <= j < i ==> !occurs_at(h, n, j),
    decreases p,
{
    if exists|j: int| 0 <= j < p && occurs_at(h, n, j) {
        let j = choose|j: int| 0 <= j < p && occurs_at(h, n, j);
        lemma_least_occurrence(h, n, j);
    } else {
        assert(occurs_at(h, n, p) && forall|j: int| 0 <= j < p ==> !occurs_at(h, n, j));
    }
}

/// `find_seq` gives the first occurrence, and nothing only where there is none.
proof fn lemma_find_seq_first(h: Seq<char>, n: Seq<char>)
    ensures
        match find_seq(h, n) {
            Some(p) => occurs_at(h, n, p) && forall|j: int| 0 <= j < p ==> !occurs_at(h, n, j),
            None => !contains_seq(h, n),
        },
{
    reveal(find_seq);
    if contains_seq(h, n) {
        let w = choose|i: int| occurs_at(h, n, i);
        lemma_least_occurrence(h, n, w);
    }
}

/// An occurrence with none before it is what `find_seq` gives.
proof fn lemma_find_first(h: Seq<char>, n: Seq<char>, p: int)
    requires
        occurs_at(h, n, p),
        forall|j: int| 0 <= j < p ==> !occurs_at(h, n, j),
    ensures
        find_seq(h, n) == Some(p),
{
    lemma_find_seq_first(h, n);
    assert(contains_seq(h, n));
    let c = find_seq(h, n)->0;
    if c < p {
        assert(!occurs_at(h, n, c));
    } else if c > p {
        assert(!occurs_at(h, n, p));
    }
}

/// Where none of the names from the `j`-th on occurs before `q`, a value ends no earlier.
proof fn lemma_value_end_ge(part: Seq<char>, j: int, q: int)
    requires
        0 <= j,
        0 <= q <= part.len(),
        forall|k: int, p: int|
            #![trigger occurs_at(part, param_names()[k], p)]
            j <= k < 7 && 0 <= p < q ==> !occurs_at(part, param_names()[k], p),
    ensures
        value_end(part, j) >= q,
    decreases 7 - j,
{
    if j < 7 {
        lemma_value_end_ge(part, j + 1, q);
        lemma_find_seq_first(part, param_names()[j]);
    }
}

/// A value ends where the name of parameter `first` occurs, when no name from the `j`-th on
/// occurs before it.
proof fn lemma_value_end_at(part: Seq<char>, j: int, q: int, first: int)
    requires
        0 <= j <= first < 7,
        0 <= q <= part.len(),
        occurs_at(part, param_names()[first], q),
        forall|k: int, p: int|
            #![trigger occurs_at(part, param_names()[k], p)]
            j <= k < 7 && 0 <= p < q ==> !occurs_at(part, param_names()[k], p),
    ensures
        value_end(part, j) == q,
    decreases 7 - j,
{
    lemma_find_seq_first(part, param_names()[j]);
    if j == first {
        lemma_value_end_ge(part, j + 1, q);
        lemma_find_first(part, param_names()[j], q);
    } else {
        lemma_value_end_at(part, j + 1, q, first);
    }
}

/// In a value followed by `", "` and the next parameter, none of the later names occurs before
/// that parameter's name.
proof fn lemma_none_before_next(part: Seq<char>, v: Seq<char>, rest: Seq<char>, i: int, k: int, p: int)
    requires
        part == seq![' '] + v + seq![',', ' '] + rest,
        value_read_back(v, i),
        0 <= i < k < 7,
        0 <= p < v.len() + 3,
    ensures
        !occurs_at(part, param_names()[k], p),
{
    lemma_param_name_shape(k);
    let name = param_names()[k];
    if occurs_at(part, name, p) {
        let w = part.subrange(p, p + name.len());
        assert(w[0] == part[p]);
        if p == 0 {
            assert(part[0] == ' ');
        } else if p == v.len() + 1 {
            assert(part[p] == ',');
        } else if p == v.len() + 2 {
            assert(part[p] == ' ');
        } else if p - 1 + name.len() <= v.len() {
            assert(v.subrange(p - 1, p - 1 + name.len()) =~= w);
            assert(occurs_at(v, name, p - 1));
        } else {
            let d = v.len() + 1 - p;
            assert(w[d] == part[v.len() + 1int]);
            assert(part[v.len() + 1int] == ',');
        }
    }
}

/// A value written between a space and `", "` is read back unchanged.
proof fn lemma_clean_between(v: Seq<char>, i: int)
    requires
        value_read_back(v, i),
    ensures
        clean_value(seq![' '] + v + seq![',', ' ']) == v,
{
    let s = seq![' '] + v + seq![',', ' '];
    lemma_trim_start_skip(s, 1);
    let s1 = s.skip(1);
    assert(s1 =~= v + seq![',', ' ']);
    assert(trim_start(s1) == s1);
    lemma_trim_end_take(s1, v.len() + 1int);
    let s2 = s1.take(v.len() + 1int);
    assert(s2 =~= v.push(','));
    assert(trim_end(s2) == s2);
    assert(trim(s) == s2);
    assert(s2.drop_last() =~= v);
    assert(trim_end_char(s2, ',') == trim_end_char(v, ','));
    assert(trim_end_char(v, ',') == v);
    assert(trim_start(v) == v);
    assert(trim_end(v) == v);
}

/// The last value, written after a space, is read back unchanged.
proof fn lemma_clean_last(v: Seq<char>, i: int)
    requires
        value_read_back(v, i),
    ensures
        clean_value(seq![' '] + v) == v,
{
    let s = seq![' '] + v;
    lemma_trim_start_skip(s, 1);
    assert(s.skip(1) =~= v);
    assert(trim_start(v) == v);
    assert(trim_end(v) == v);
    assert(trim(s) == v);
    assert(trim_end_char(v, ',') == v);
}

/// The name of parameter `i`, at the start of the text, is found there.
proof fn lemma_find_name(r: Seq<char>, i: int, after: Seq<char>)
    requires
        0 <= i < 7,
        r == param_names()[i] + after,
    ensures
        find_seq(r, param_names()[i]) == Some(0int),
{
    let name = param_names()[i];
    assert(r.subrange(0, name.len() as int) =~= name);
    lemma_find_first(r, name, 0);
}

/// A value followed by `", "` and the name of parameter `i + 1` ends right before that `", "`
/// and is read back unchanged.
proof fn lemma_read_middle(part: Seq<char>, v: Seq<char>, rest: Seq<char>, i: int)
    requires
        0 <= i < 6,
        value_read_back(v, i),
        part == seq![' '] + v + seq![',', ' '] + rest,
        starts_with_name(rest, i + 1),
    ensures
        value_end(part, i + 1) == v.len() + 3,
        clean_value(part.take(v.len() + 3int)) == v,
        part.skip(v.len() + 3int) == rest,
{
    let next = param_names()[i + 1];
    let q: int = v.len() + 3int;
    assert(part.subrange(q, q + next.len()) =~= rest.subrange(0, next.len() as int));
    assert forall|k: int, p: int|
        #![trigger occurs_at(part, param_names()[k], p)]
        i + 1 <= k < 7 && 0 <= p < q implies !occurs_at(part, param_names()[k], p) by {
        lemma_none_before_next(part, v, rest, i, k, p);
    }
    lemma_value_end_at(part, i + 1, q, i + 1);
    assert(part.take(q) =~= seq![' '] + v + seq![',', ' ']);
    lemma_clean_between(v, i);
    assert(part.skip(q) =~= rest);
}

/// `s` starts with the name of parameter `i`.
pub open spec fn starts_with_name(s: Seq<char>, i: int) -> bool {
    param_names()[i].len() <= s.len() && s.subrange(0, param_names()[i].len() as int) == param_names()[i]
}

/// Reading parameter `i` from the parameter text gives its value and leaves the text of the
/// parameters after it.
proof fn lemma_read_one(vals: Seq<Seq<char>>, i: int)
    requires
        0 <= i < 7,
        vals.len() == 7,
        value_read_back(vals[i], i),
    ensures
        read_step(params_from(vals, i), i) == (Some(vals[i]), params_from(vals, i + 1)),
{
    let r = params_from(vals, i);
    let name = param_names()[i];
    let v = vals[i];
    let tail = params_from(vals, i + 1);
    let after = seq![' '] + v + param_sep(i) + tail;
    assert(r =~= name + after);
    lemma_find_name(r, i, after);
    let part = r.skip(name.len() as int);
    assert(part =~= after);
    if i == 6 {
        assert(tail =~= Seq::<char>::empty());
        assert(part =~= seq![' '] + v);
        assert(part.take(part.len() as int) =~= part);
        assert(part.skip(part.len() as int) =~= tail);
        lemma_clean_last(v, i);
        assert(value_end(part, 7) == part.len());
    } else {
        let next = param_names()[i + 1];
        assert(tail =~= next + (seq![' '] + vals[i + 1] + param_sep(i + 1) + params_from(vals, i + 2)));
        assert(tail.subrange(0, next.len() as int) =~= next);
        assert(part =~= seq![' '] + v + seq![',', ' '] + tail);
        lemma_read_middle(part, v, tail, i);
    }
}

/// Reading the parameter text from parameter `i` on gives every value back.
proof fn lemma_read_all(vals: Seq<Seq<char>>, i: int)
    requires
        0 <= i <= 7,
        vals.len() == 7,
        forall|k: int| i <= k < 7 ==> value_read_back(#[trigger] vals[k], k),
    ensures
        param_values_from(params_from(vals, i), i)
            == Seq::new((7 - i) as nat, |k: int| Some(vals[i + k])),
    decreases 7 - i,
{
    if i == 7 {
        reveal(param_values_from);
        assert(Seq::new(0nat, |k: int| Some(vals[i + k])) =~= Seq::<Option<Seq<char>>>::empty());
    } else {
        lemma_param_values_step(params_from(vals, i), i);
        lemma_read_one(vals, i);
        lemma_read_all(vals, i + 1);
        assert(Seq::new((7 - i) as nat, |k: int| Some(vals[i + k]))
            =~= seq![Some(vals[i])] + Seq::new((7 - (i + 1)) as nat, |k: int| Some(vals[i + 1 + k])));
    }
}

/// A value without a colon holds no parameter name, and reads back when it is not empty and
/// neither starts nor ends with white space nor ends with a comma.
proof fn lemma_plain_value_reads_back(v: Seq<char>, i: int)
    requires
        0 <= i,
        v.len() > 0,
        !is_ws(v[0]),
        !is_ws(v.last()),
        v.last() != ',',
        forall|t: int| 0 <= t < v.len() ==> v[t] != ':',
    ensures
        value_read_back(v, i),
{
    assert forall|k: int| i < k < 7 implies !contains_seq(v, #[trigger] param_names()[k]) by {
        if 0 <= k {
            lemma_param_name_shape(k);
            let name = param_names()[k];
            if contains_seq(v, name) {
                let p = choose|p: int| occurs_at(v, name, p);
                assert(v.subrange(p, p + name.len())[name.len() - 1] == v[p + name.len() - 1]);
            }
        }
    }
}

/// The digit for a value below ten is a decimal digit worth that value.
proof fn lemma_digit_char(d: int)
    requires
        0 <= d < 10,
    ensures
        is_digit(digit_char(d)),
        digit_char(d) as int - '0' as int == d,
{
}

/// The decimal text of a number is all digits, with that number as their value.
pub proof fn lemma_nat_text_digits(n: nat)
    ensures
        all_digits(nat_text(n)),
        digits_value(nat_text(n)) == n,
    decreases n,
{
    let s = nat_text(n);
    if n < 10 {
        lemma_digit_char(n as int);
        assert(s =~= seq![digit_char(n as int)]);
        assert(s.drop_last() =~= Seq::<char>::empty());
        assert(digits_value(s.drop_last()) == 0);
        assert(s.last() == digit_char(n as int));
    } else {
        let d = (n % 10) as int;
        lemma_digit_char(d);
        lemma_nat_text_digits(n / 10);
        let p = nat_text(n / 10);
        assert(s == p.push(digit_char(d)));
        assert(s.drop_last() =~= p);
        assert(s.last() == digit_char(d));
        assert(n == 10 * (n / 10) + n % 10);
        assert forall|j: int| 0 <= j < s.len() implies is_digit(#[trigger] s[j]) by {
            if j < p.len() {
                assert(s[j] == p[j]);
            }
        }
    }
}

/// A number's decimal text reads back as that number.
proof fn lemma_nat_text_reads_back(n: nat, i: int)
    requires
        0 <= i,
        n <= usize::MAX,
    ensures
        value_read_back(nat_text(n), i),
        parse_nat(nat_text(n)) == Some(n as int),
{
    let s = nat_text(n);
    lemma_nat_text_digits(n);
    assert(is_digit(s[0]));
    assert(is_digit(s[s.len() - 1]));
    assert forall|t: int| 0 <= t < s.len() implies s[t] != ':' by {
        assert(is_digit(s[t]));
    }
    lemma_plain_value_reads_back(s, i);
}

/// The fixed texts of a description read back.
proof fn lemma_fixed_texts_read_back(r: DependencyAnalysisResult)
    ensures
        value_read_back(cardinality_text(r.analysis_cardinality), 0),
        value_read_back(scope_text(r.source_scope), 4),
        value_read_back(timing_text(r.source_timing_strategy), 5),
        value_read_back(aggregation_text(r.group_aggregation_strategy), 6),
        value_read_back("none"@, 2),
        value_read_back("none"@, 3),
{
    reveal_strlit("N-to-1");
    reveal_strlit("1-to-N");
    reveal_strlit("self");
    reveal_strlit("all nodes");
    reveal_strlit("Earliest First");
    reveal_strlit("Latest First");
    reveal_strlit("Wait For Last Group");
    reveal_strlit("First Completed Group");
    reveal_strlit("none");
    lemma_plain_value_reads_back(cardinality_text(r.analysis_cardinality), 0);
    lemma_plain_value_reads_back(scope_text(r.source_scope), 4);
    lemma_plain_value_reads_back(timing_text(r.source_timing_strategy), 5);
    lemma_plain_value_reads_back(aggregation_text(r.group_aggregation_strategy), 6);
    lemma_plain_value_reads_back("none"@, 2);
    lemma_plain_value_reads_back("none"@, 3);
}

/// The values that the description of `r` gives its parameters, in order.
pub open spec fn description_values(r: DependencyAnalysisResult) -> Seq<Seq<char>> {
    seq![
        cardinality_text(r.analysis_cardinality),
        nat_text(r.threshold as nat),
        attribute_text(r.linking_attribute@),
        attribute_text(r.group_by_attribute@),
        scope_text(r.source_scope),
        timing_text(r.source_timing_strategy),
        aggregation_text(r.group_aggregation_strategy),
    ]
}

/// What follows the prefix of the description of `r`: the quoted span names, an arrow between
/// them, then the parameters in parentheses.
pub open spec fn described_after(r: DependencyAnalysisResult) -> Seq<char> {
    seq!['\''] + r.source_span_name@ + seq!['\'', ' ', '-', '>', ' ', '\''] + r.target_span_name@
        + seq!['\'', ' ', '('] + params_from(description_values(r), 0) + seq![')']
}

/// The fixed pieces of a description, split into separators and parameter names.
proof fn lemma_description_pieces()
    ensures
        "Analysis of dependency: '"@ == description_prefix() + seq![' ', '\''],
        "' -> '"@ == seq!['\'', ' ', '-', '>', ' ', '\''],
        "' (cardinality: "@ == seq!['\'', ' ', '('] + param_names()[0] + seq![' '],
        ", threshold: "@ == seq![',', ' '] + param_names()[1] + seq![' '],
        ", linking by: "@ == seq![',', ' '] + param_names()[2] + seq![' '],
        ", group by: "@ == seq![',', ' '] + param_names()[3] + seq![' '],
        ", scope: "@ == seq![',', ' '] + param_names()[4] + seq![' '],
        ", timing: "@ == seq![',', ' '] + param_names()[5] + seq![' '],
        ", group aggregation: "@ == seq![',', ' '] + param_names()[6] + seq![' '],
        ")"@ == seq![')'],
{
    reveal_strlit("Analysis of dependency: '");
    reveal_strlit("Analysis of dependency:");
    reveal_strlit("' -> '");
    reveal_strlit("' (cardinality: ");
    reveal_strlit(", threshold: ");
    reveal_strlit(", linking by: ");
    reveal_strlit(", group by: ");
    reveal_strlit(", scope: ");
    reveal_strlit(", timing: ");
    reveal_strlit(", group aggregation: ");
    reveal_strlit(")");
    reveal_strlit("cardinality:");
    reveal_strlit("threshold:");
    reveal_strlit("linking by:");
    reveal_strlit("group by:");
    reveal_strlit("scope:");
    reveal_strlit("timing:");
    reveal_strlit("group aggregation:");
    assert("Analysis of dependency: '"@ =~= description_prefix() + seq![' ', '\'']);
    assert("' -> '"@ =~= seq!['\'', ' ', '-', '>', ' ', '\'']);
    assert("' (cardinality: "@ =~= seq!['\'', ' ', '('] + param_names()[0] + seq![' ']);
    assert(", threshold: "@ =~= seq![',', ' '] + param_names()[1] + seq![' ']);
    assert(", linking by: "@ =~= seq![',', ' '] + param_names()[2] + seq![' ']);
    assert(", group by: "@ =~= seq![',', ' '] + param_names()[3] + seq![' ']);
    assert(", scope: "@ =~= seq![',', ' '] + param_names()[4] + seq![' ']);
    assert(", timing: "@ =~= seq![',', ' '] + param_names()[5] + seq![' ']);
    assert(", group aggregation: "@ =~= seq![',', ' '] + param_names()[6] + seq![' ']);
    assert(")"@ =~= seq![')']);
}

/// Writing `", "`, the name and the value of parameter `i` after `k`, then the parameters after
/// it, writes the parameter text from `i` on after `k` and `", "`.
proof fn lemma_param_written(k: Seq<char>, v: Seq<Seq<char>>, i: int)
    requires
        1 <= i < 7,
    ensures
        k + seq![',', ' '] + params_from(v, i)
            == (k + (seq![',', ' '] + param_names()[i] + seq![' ']) + v[i]) + param_sep(i) + params_from(v, i + 1),
{
    assert(k + seq![',', ' '] + params_from(v, i)
        =~= (k + (seq![',', ' '] + param_names()[i] + seq![' ']) + v[i]) + param_sep(i) + params_from(v, i + 1));
}

/// The description of `r` is its prefix, a space, and what follows it.
proof fn lemma_description_shape(r: DependencyAnalysisResult)
    ensures
        result_description(r) == description_prefix() + seq![' '] + described_after(r),
{
    lemma_description_pieces();
    let v = description_values(r);
    let src = r.source_span_name@;
    let tgt = r.target_span_name@;
    let sep = seq![',', ' '];
    let k0 = "Analysis of dependency: '"@ + src + "' -> '"@ + tgt + "' (cardinality: "@ + v[0];
    let k1 = k0 + ", threshold: "@ + v[1];
    let k2 = k1 + ", linking by: "@ + v[2];
    let k3 = k2 + ", group by: "@ + v[3];
    let k4 = k3 + ", scope: "@ + v[4];
    let k5 = k4 + ", timing: "@ + v[5];
    let k6 = k5 + ", group aggregation: "@ + v[6];
    assert(result_description(r) == k6 + ")"@);
    assert(params_from(v, 7) =~= Seq::<char>::empty());
    assert(k6 + param_sep(6) + params_from(v, 7) =~= k6);
    lemma_param_written(k5, v, 6);
    lemma_param_written(k4, v, 5);
    lemma_param_written(k3, v, 4);
    lemma_param_written(k2, v, 3);
    lemma_param_written(k1, v, 2);
    lemma_param_written(k0, v, 1);
    assert(k0 + sep + params_from(v, 1) == k6);
    assert(params_from(v, 0) == param_names()[0] + seq![' '] + v[0] + sep + params_from(v, 1));
    assert(k0 + sep + params_from(v, 1) + seq![')']
        =~= description_prefix() + seq![' '] + described_after(r));
}

/// A character with none of its kind before it is the first of its kind.
proof fn lemma_first_index_at(s: Seq<char>, c: char, p: int)
    requires
        0 <= p < s.len(),
        s[p] == c,
        forall|j: int| 0 <= j < p ==> s[j] != c,
    ensures
        first_index_of(s, c) == Some(p),
{
    reveal(first_index_of);
    let k = choose|k: int| 0 <= k < s.len() && s[k] == c && forall|j: int| 0 <= j < k ==> s[j] != c;
    assert(0 <= p < s.len() && s[p] == c && forall|j: int| 0 <= j < p ==> s[j] != c);
    if k < p {
        assert(s[k] != c);
    } else if k > p {
        assert(s[p] != c);
    }
}

/// A character with none of its kind after it is the last of its kind.
proof fn lemma_last_index_at(s: Seq<char>, c: char, p: int)
    requires
        0 <= p < s.len(),
        s[p] == c,
        forall|j: int| p < j < s.len() ==> s[j] != c,
    ensures
        last_index_of(s, c) == Some(p),
{
    reveal(last_index_of);
    let k = choose|k: int| 0 <= k < s.len() && s[k] == c && forall|j: int| k < j < s.len() ==> s[j] != c;
    assert(0 <= p < s.len() && s[p] == c && forall|j: int| p < j < s.len() ==> s[j] != c);
    if k < p {
        assert(s[p] != c);
    } else if k > p {
        assert(s[k] != c);
    }
}

/// An attribute that a description gives back: none, or one that is not itself named "none"
/// and whose text reads back as the value of parameter `i`.
pub open spec fn attribute_reads_back(a: Seq<char>, i: int) -> bool {
    a.len() == 0 || (a != "none"@ && value_read_back(a, i))
}

/// Every value of the description of `r` reads back.
proof fn lemma_values_read_back(r: DependencyAnalysisResult)
    requires
        attribute_reads_back(r.linking_attribute@, 2),
        attribute_reads_back(r.group_by_attribute@, 3),
    ensures
        forall|k: int| 0 <= k < 7 ==> value_read_back(#[trigger] description_values(r)[k], k),
        parse_nat(description_values(r)[1]) == Some(r.threshold as int),
{
    let v = description_values(r);
    lemma_fixed_texts_read_back(r);
    lemma_nat_text_reads_back(r.threshold as nat, 1);
    assert forall|k: int| 0 <= k < 7 implies value_read_back(#[trigger] v[k], k) by {
        if k == 2 || k == 3 {
            reveal_strlit("none");
        }
    }
}

/// The text after the prefix of the description of `r`, its parameter text, and where its
/// parentheses are.
proof fn lemma_after_shape(r: DependencyAnalysisResult)
    requires
        forall|t: int| 0 <= t < r.source_span_name@.len() ==> r.source_span_name@[t] != '(',
        forall|t: int| 0 <= t < r.target_span_name@.len() ==> r.target_span_name@[t] != '(',
    ensures
        after_prefix(result_description(r)) == Some(described_after(r)),
        parentheses_in_order(described_after(r)),
        first_index_of(described_after(r), '(') is Some,
        last_index_of(described_after(r), ')') is Some,
        params_text(described_after(r)) == params_from(description_values(r), 0),
{
    let d = result_description(r);
    let a = described_after(r);
    let pre = description_prefix();
    let src = r.source_span_name@;
    let tgt = r.target_span_name@;
    let params = params_from(description_values(r), 0);
    lemma_description_shape(r);
    reveal_strlit("Analysis of dependency:");
    assert(!is_ws(d[0]));
    assert(d.last() == ')');
    assert(trim_start(d) == d);
    assert(trim_end(d) == d);
    assert(trim(d) == d);
    assert(d.take(pre.len() as int) =~= pre);
    assert(starts_with_seq(d, pre));
    let x = d.skip(pre.len() as int);
    assert(x =~= seq![' '] + a);
    lemma_trim_start_skip(x, 1);
    assert(x.skip(1) =~= a);
    assert(a[0] == '\'');
    assert(trim_start(a) == a);
    assert(a.last() == ')');
    assert(trim_end(a) == a);
    let p0: int = 9int + src.len() + tgt.len();
    assert(a[p0] == '(');
    assert forall|j: int| 0 <= j < p0 implies a[j] != '(' by {
        if 1 <= j < 1 + src.len() {
            assert(a[j] == src[j - 1]);
        } else if 7 + src.len() <= j < 7 + src.len() + tgt.len() {
            assert(a[j] == tgt[j - 7 - src.len()]);
        }
    }
    lemma_first_index_at(a, '(', p0);
    lemma_last_index_at(a, ')', a.len() - 1);
    assert(a.subrange(p0 + 1, a.len() - 1) =~= params);
}

/// Reading the description of a dependency analysis gives back the settings it was made with:
/// where the expression for `'source' -> 'target'` captures the span names of the analysis, the
/// description is read without error, and the settings it fills hold the analysis's span names,
/// cardinality, threshold (raised to one), attributes, scope, timing and group aggregation.
/// The span names hold no opening parenthesis, and each attribute is either empty or reads
/// back as itself.
pub proof fn lemma_description_read_back(r: DependencyAnalysisResult)
    requires
        forall|t: int| 0 <= t < r.source_span_name@.len() ==> r.source_span_name@[t] != '(',
        forall|t: int| 0 <= t < r.target_span_name@.len() ==> r.target_span_name@[t] != '(',
        attribute_reads_back(r.linking_attribute@, 2),
        attribute_reads_back(r.group_by_attribute@, 3),
        regex_capture_pair(arrow_pattern(), after_prefix(result_description(r))->0)
            == Some((r.source_span_name@, r.target_span_name@)),
    ensures
        after_prefix(result_description(r)) == Some(described_after(r)),
        parentheses_in_order(described_after(r)),
        description_error(described_after(r), Some((r.source_span_name@, r.target_span_name@))) is None,
        param_values_from(params_text(described_after(r)), 0)
            == Seq::new(7, |k: int| Some(description_values(r)[k])),
        forall|m: AnalyzeDependencyModal, o: AnalyzeDependencyModal|
            #[trigger] m.described(
                &o,
                (r.source_span_name@, r.target_span_name@),
                param_values_from(params_text(described_after(r)), 0),
            ) ==> {
                &&& m.search_texts() == (r.source_span_name@, r.target_span_name@)
                &&& m.cardinality() == r.analysis_cardinality
                &&& m.rules().threshold == (if r.threshold < 1 { 1 } else { r.threshold })
                &&& m.rules().linking_attribute@ == r.linking_attribute@
                &&& m.rules().group_by_attribute@ == r.group_by_attribute@
                &&& m.scope() == r.source_scope
                &&& m.rules().timing == r.source_timing_strategy
                &&& m.rules().aggregation == r.group_aggregation_strategy
            },
{
    let v = description_values(r);
    lemma_after_shape(r);
    lemma_values_read_back(r);
    lemma_read_all(v, 0);
    let vals = param_values_from(params_text(described_after(r)), 0);
    assert(vals =~= Seq::new(7, |k: int| Some(v[k])));
    lemma_setting_texts_read_back(
        r.analysis_cardinality,
        r.source_scope,
        r.source_timing_strategy,
        r.group_aggregation_strategy,
        r.linking_attribute@,
    );
    lemma_setting_texts_read_back(
        r.analysis_cardinality,
        r.source_scope,
        r.source_timing_strategy,
        r.group_aggregation_strategy,
        r.group_by_attribute@,
    );
    reveal_strlit("none");
    assert(vals[0] == Some(v[0]));
    assert(vals[1] == Some(v[1]));
    assert(vals[2] == Some(v[2]));
    assert(vals[3] == Some(v[3]));
    assert(vals[4] == Some(v[4]));
    assert(vals[5] == Some(v[5]));
    assert(vals[6] == Some(v[6]));
    assert(attribute_named(v[2]) == r.linking_attribute@);
    assert(attribute_named(v[3]) == r.group_by_attribute@);
}

} // verus!
