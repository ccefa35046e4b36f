//! Structured display modes.
//! "Structured" means that the mode is declared using a list of standardized rules, without having to write custom code.
//! Each mode has a list of rules, each rule has a selector and a decision. The selector decides
//! whether a rule matches a particular span, and if it does then the decision specifies how to
//! display the span in this mode.

use vstd::prelude::*;

use crate::text::{contains_str, owned, push_str, str_eq};
use crate::types::{attr_get, get_attribute, value_text, value_to_text, DisplayLength, Span};

verus! {

#[derive(Debug, Clone, Copy, PartialEq, Eq, Structural)]
pub enum MatchOperator {
    /// Always matches
    Any,
    /// Never matches
    Never,
    /// Matches if the value is equal to the given string
    EqualTo,
    /// Matches if the value is not equal to the given string
    NotEqualTo,
    /// Matches if the value contains the given substring
    Contains,
}

#[derive(Debug, Clone)]
pub struct MatchCondition {
    pub operator: MatchOperator,
    pub value: String,
}

/// A selector used to determine whether a span matches a rule.
#[derive(Debug, Clone)]
pub struct SpanSelector {
    /// Span's name must match this condition
    pub span_name_condition: MatchCondition,
    /// Node's name must match this condition
    pub node_name_condition: MatchCondition,
    /// Span's attributes must match these conditions.
    /// If the attribute is not present, the span doesn't match the selector.
    pub attribute_conditions: Vec<(String, MatchCondition)>,
}

/// Defines how to display a span that matches some rule.
#[derive(Debug, Clone)]
pub struct SpanDecision {
    /// Whether the span should be visible or not.
    pub visible: bool,
    /// Should the span's length be defined by time or length of the name text?
    pub display_length: DisplayLength,
    /// If a replacement name is provided, the span's name will be replaced with this name.
    pub replace_name: String,
    /// Add height (e.g H=123) to the span's name, the height is read from the attributes.
    pub add_height_to_name: bool,
    /// Add shard id (e.g s=123) to the span's name, the shard id is read from the attributes.
    pub add_shard_id_to_name: bool,
    /// Merge the matching spans of a node and height into one displayed span.
    pub group: bool,
}

/// A rule that defines how to display a span that matches the selector.
#[derive(Debug, Clone)]
pub struct SpanRule {
    pub name: String,
    /// A span that matches this selector
    pub selector: SpanSelector,
    /// Will be displayed like this
    pub decision: SpanDecision,
}

#[derive(Debug, Clone)]
pub struct StructuredMode {
    pub name: String,
    /// A list of rules that define how to display spans.
    /// For each span, the first rule that matches the span will be used to determine how to display it.
    /// If no rule matches, the span will not be visible.
    pub span_rules: Vec<SpanRule>,
    /// Built-in modes (chain, everything, etc.) are not editable and are not saved in persistent data.
    pub is_builtin: bool,
}

/// Whether `value` satisfies the condition.
pub open spec fn condition_holds(c: MatchCondition, value: Seq<char>) -> bool {
    match c.operator {
        MatchOperator::Any => true,
        MatchOperator::Never => false,
        MatchOperator::EqualTo => value == c.value@,
        MatchOperator::NotEqualTo => value != c.value@,
        MatchOperator::Contains => crate::text::contains_seq(value, c.value@),
    }
}

/// The attribute named by the `i`-th attribute condition is present and satisfies it.
pub open spec fn attribute_condition_holds(sel: SpanSelector, span: Span, i: int) -> bool {
    match attr_get(span.attributes@, sel.attribute_conditions@[i].0@) {
        Some(v) => condition_holds(sel.attribute_conditions@[i].1, value_text(v)),
        None => false,
    }
}

/// The span's name, its node's name and the named attributes satisfy the selector's conditions.
pub open spec fn selector_selects(sel: SpanSelector, span: Span) -> bool {
    &&& condition_holds(sel.span_name_condition, span.name@)
    &&& condition_holds(sel.node_name_condition, span.node.name@)
    &&& forall|i: int| 0 <= i < sel.attribute_conditions@.len() ==> #[trigger] attribute_condition_holds(sel, span, i)
}

/// The selector selects the span by its name in the trace (`original_name`), whatever name a
/// display mode gave it: relations link spans by the names they were recorded with.
pub open spec fn selector_selects_recorded(sel: SpanSelector, span: Span) -> bool {
    &&& condition_holds(sel.span_name_condition, span.original_name@)
    &&& condition_holds(sel.node_name_condition, span.node.name@)
    &&& forall|i: int| 0 <= i < sel.attribute_conditions@.len() ==> #[trigger] attribute_condition_holds(sel, span, i)
}

/// The decision given to spans that no rule selects.
pub open spec fn hidden_decision(d: SpanDecision) -> bool {
    &&& !d.visible
    &&& d.display_length == DisplayLength::Time
    &&& d.replace_name@ == Seq::<char>::empty()
    &&& !d.add_height_to_name
    &&& !d.add_shard_id_to_name
    &&& !d.group
}

/// Position of the first rule whose selector selects the span.
pub open spec fn first_selecting_rule(rules: Seq<SpanRule>, span: Span) -> Option<int>
    decreases rules.len(),
{
    if rules.len() == 0 {
        None
    } else if selector_selects(rules[0].selector, span) {
        Some(0)
    } else {
        match first_selecting_rule(rules.drop_first(), span) {
            Some(i) => Some(i + 1),
            None => None,
        }
    }
}

proof fn lemma_first_selecting_rule(rules: Seq<SpanRule>, span: Span)
    ensures
        match first_selecting_rule(rules, span) {
            Some(i) => 0 <= i < rules.len() && selector_selects(rules[i].selector, span)
                && forall|j: int| 0 <= j < i ==> !selector_selects(#[trigger] rules[j].selector, span),
            None => forall|j: int| 0 <= j < rules.len() ==> !selector_selects(#[trigger] rules[j].selector, span),
        },
    decreases rules.len(),
{
    if rules.len() > 0 {
        lemma_first_selecting_rule(rules.drop_first(), span);
        if !selector_selects(rules[0].selector, span) {
            assert forall|j: int| 1 <= j < rules.len() implies rules[j] == rules.drop_first()[j - 1] by {}
        }
    }
}

/// Copies a condition.
pub fn copy_condition(c: &MatchCondition) -> (r: MatchCondition)
    ensures
        r == *c,
{
    MatchCondition { operator: c.operator, value: c.value.clone() }
}

/// Copies a decision.
pub fn copy_decision(d: &SpanDecision) -> (r: SpanDecision)
    ensures
        r == *d,
{
    SpanDecision {
        visible: d.visible,
        display_length: d.display_length,
        replace_name: d.replace_name.clone(),
        add_height_to_name: d.add_height_to_name,
        add_shard_id_to_name: d.add_shard_id_to_name,
        group: d.group,
    }
}

/// Copies a selector.
pub fn copy_selector(s: &SpanSelector) -> (r: SpanSelector)
    ensures
        r.span_name_condition == s.span_name_condition,
        r.node_name_condition == s.node_name_condition,
        r.attribute_conditions@ == s.attribute_conditions@,
{
    let mut conds: Vec<(String, MatchCondition)> = Vec::new();
    for i in 0..s.attribute_conditions.len()
        invariant
            conds@ == s.attribute_conditions@.take(i as int),
    {
        let pair = (s.attribute_conditions[i].0.clone(), copy_condition(&s.attribute_conditions[i].1));
        conds.push(pair);
        assert(s.attribute_conditions@.take(i + 1) =~= s.attribute_conditions@.take(i as int).push(s.attribute_conditions@[i as int]));
    }
    assert(s.attribute_conditions@.take(s.attribute_conditions@.len() as int) =~= s.attribute_conditions@);
    SpanSelector {
        span_name_condition: copy_condition(&s.span_name_condition),
        node_name_condition: copy_condition(&s.node_name_condition),
        attribute_conditions: conds,
    }
}

impl MatchCondition {
    /// A condition that every value satisfies.
    pub fn any() -> (r: MatchCondition)
        ensures
            r.operator == MatchOperator::Any,
            r.value@ == Seq::<char>::empty(),
    {
        MatchCondition { operator: MatchOperator::Any, value: String::new() }
    }

    /// A condition satisfied by the given value alone.
    pub fn equal_to(value: &str) -> (r: MatchCondition)
        ensures
            r.operator == MatchOperator::EqualTo,
            r.value@ == value@,
    {
        MatchCondition { operator: MatchOperator::EqualTo, value: owned(value) }
    }

    /// Whether `value` satisfies the condition.
    pub fn matches(&self, value: &str) -> (r: bool)
        ensures
            r == condition_holds(*self, value@),
    {
        match self.operator {
            MatchOperator::Any => true,
            MatchOperator::Never => false,
            MatchOperator::EqualTo => str_eq(value, self.value.as_str()),
            MatchOperator::NotEqualTo => !str_eq(value, self.value.as_str()),
            MatchOperator::Contains => contains_str(value, self.value.as_str()),
        }
    }
}

impl SpanSelector {
    /// The selector picks the spans with exactly this name, on any node, whatever their
    /// attributes.
    pub open spec fn selects_name(self, name: Seq<char>) -> bool {
        &&& self.span_name_condition.operator == MatchOperator::EqualTo
        &&& self.span_name_condition.value@ == name
        &&& self.node_name_condition.operator == MatchOperator::Any
        &&& self.node_name_condition.value@ == Seq::<char>::empty()
        &&& self.attribute_conditions@.len() == 0
    }

    /// A selector of the spans with the given name, on any node, whatever their attributes.
    pub fn new_equal_name(name: &str) -> (r: SpanSelector)
        ensures
            r.selects_name(name@),
    {
        SpanSelector {
            span_name_condition: MatchCondition::equal_to(name),
            node_name_condition: MatchCondition::any(),
            attribute_conditions: Vec::new(),
        }
    }

    /// Whether the span's name in the trace, its node's name and its attributes satisfy the
    /// conditions.
    pub fn matches_recorded(&self, span: &Span) -> (r: bool)
        ensures
            r == selector_selects_recorded(*self, *span),
    {
        if !self.span_name_condition.matches(span.original_name.as_str()) {
            return false;
        }
        if !self.node_name_condition.matches(span.node.name.as_str()) {
            return false;
        }
        self.attributes_match(span)
    }

    /// Whether the span's attributes satisfy the attribute conditions.
    fn attributes_match(&self, span: &Span) -> (r: bool)
        ensures
            r == forall|i: int| 0 <= i < self.attribute_conditions@.len() ==> #[trigger] attribute_condition_holds(*self, *span, i),
    {
        for i in 0..self.attribute_conditions.len()
            invariant
                forall|j: int| 0 <= j < i ==> #[trigger] attribute_condition_holds(*self, *span, j),
        {
            let (attr_name, attr_condition) = &self.attribute_conditions[i];
            match get_attribute(&span.attributes, attr_name.as_str()) {
                Some(attr_value) => {
                    let text = value_to_text(attr_value);
                    if !attr_condition.matches(text.as_str()) {
                        assert(!attribute_condition_holds(*self, *span, i as int));
                        return false;
                    }
                },
                None => {
                    assert(!attribute_condition_holds(*self, *span, i as int));
                    return false;
                },
            }
        }
        true
    }

    /// Whether the span's name, its node's name and its attributes satisfy the conditions.
    pub fn matches(&self, span: &Span) -> (r: bool)
        ensures
            r == selector_selects(*self, *span),
    {
        if !self.span_name_condition.matches(span.name.as_str()) {
            return false;
        }
        if !self.node_name_condition.matches(span.node.name.as_str()) {
            return false;
        }
        for i in 0..self.attribute_conditions.len()
            invariant
                forall|j: int| 0 <= j < i ==> #[trigger] attribute_condition_holds(*self, *span, j),
        {
            let (attr_name, attr_condition) = &self.attribute_conditions[i];
            match get_attribute(&span.attributes, attr_name.as_str()) {
                Some(attr_value) => {
                    let text = value_to_text(attr_value);
                    if !attr_condition.matches(text.as_str()) {
                        assert(!attribute_condition_holds(*self, *span, i as int));
                        return false;
                    }
                },
                None => {
                    assert(!attribute_condition_holds(*self, *span, i as int));
                    return false;
                },
            }
        }
        true
    }
}

/// The decision of the first rule that selects the span, or a hidden decision if none does.
pub open spec fn decision_for(rules: Seq<SpanRule>, span: Span, d: SpanDecision) -> bool {
    match first_selecting_rule(rules, span) {
        Some(i) => d == rules[i].decision,
        None => hidden_decision(d),
    }
}

impl StructuredMode {
    /// How a span is displayed in this mode: the decision of the first rule that selects it,
    /// or, when none does, a decision that hides it.
    pub fn get_decision_for_span(&self, span: &Span) -> (r: SpanDecision)
        ensures
            decision_for(self.span_rules@, *span, r),
    {
        proof {
            lemma_first_selecting_rule(self.span_rules@, *span);
        }
        for i in 0..self.span_rules.len()
            invariant
                forall|j: int| 0 <= j < i ==> !selector_selects(#[trigger] self.span_rules@[j].selector, *span),
                match first_selecting_rule(self.span_rules@, *span) {
                    Some(k) => 0 <= k < self.span_rules@.len() && selector_selects(self.span_rules@[k].selector, *span)
                        && forall|j: int| 0 <= j < k ==> !selector_selects(#[trigger] self.span_rules@[j].selector, *span),
                    None => forall|j: int| 0 <= j < self.span_rules@.len() ==> !selector_selects(#[trigger] self.span_rules@[j].selector, *span),
                },
        {
            let rule = &self.span_rules[i];
            if rule.selector.matches(span) {
                return copy_decision(&rule.decision);
            }
        }
        SpanDecision {
            visible: false,
            display_length: DisplayLength::Time,
            replace_name: String::new(),
            add_height_to_name: false,
            add_shard_id_to_name: false,
            group: false,
        }
    }
}

/// A rule that shows the spans with the given name, with their length from their name,
/// with height and shard id added to the name.
pub open spec fn shows_by_name(rule: SpanRule, name: Seq<char>) -> bool {
    &&& rule.name@ == seq!['S', 'h', 'o', 'w', ' '] + name
    &&& rule.selector.selects_name(name)
    &&& rule.decision.visible
    &&& rule.decision.display_length == DisplayLength::Text
    &&& rule.decision.replace_name@ == Seq::<char>::empty()
    &&& rule.decision.add_height_to_name
    &&& rule.decision.add_shard_id_to_name
    &&& !rule.decision.group
}

/// A rule that shows the spans with the given name.
pub fn show_span(name: &str) -> (r: SpanRule)
    ensures
        shows_by_name(r, name@),
{
    let mut rule_name = String::new();
    rule_name.push('S');
    rule_name.push('h');
    rule_name.push('o');
    rule_name.push('w');
    rule_name.push(' ');
    push_str(&mut rule_name, name);
    assert(rule_name@ =~= seq!['S', 'h', 'o', 'w', ' '] + name@);
    SpanRule {
        name: rule_name,
        selector: SpanSelector {
            span_name_condition: MatchCondition::equal_to(name),
            node_name_condition: MatchCondition::any(),
            attribute_conditions: Vec::new(),
        },
        decision: SpanDecision {
            visible: true,
            display_length: DisplayLength::Text,
            replace_name: String::new(),
            add_height_to_name: true,
            add_shard_id_to_name: true,
            group: false,
        },
    }
}

/// The span names that the chain mode shows, in the order of its rules.
pub open spec fn chain_span_names() -> Seq<Seq<char>> {
    seq![
        "validate_chunk_state_witness"@,
        "apply_new_chunk"@,
        "preprocess_optimistic_block"@,
        "process_optimistic_block"@,
        "postprocess_ready_block"@,
        "postprocess_optimistic_block"@,
        "preprocess_block"@,
        "apply_new_chunk"@,
        "apply_old_chunk"@,
        "produce_chunk_internal"@,
        "produce_block_on"@,
        "receive_optimistic_block"@,
        "validate_chunk_state_witness"@,
        "send_chunk_state_witness"@,
        "produce_optimistic_block_on_head"@,
        "validate_chunk_endorsement"@,
        "on_approval_message"@,
        "send_chunk_endorsement"@
    ]
}

/// The chain mode: named "Chain", built in, a rule showing each of its span names in turn.
pub open spec fn is_chain_mode(r: StructuredMode) -> bool {
    &&& r.name@ == "Chain"@
    &&& r.is_builtin
    &&& r.span_rules@.len() == chain_span_names().len()
    &&& forall|i: int| 0 <= i < r.span_rules@.len() ==> shows_by_name(#[trigger] r.span_rules@[i], chain_span_names()[i])
}

/// Chain mode: shows the spans of block and chunk processing, each by its name.
pub fn chain_structured_mode() -> (r: StructuredMode)
    ensures
        is_chain_mode(r),
{
    let mut rules: Vec<SpanRule> = Vec::new();
    rules.push(show_span("validate_chunk_state_witness"));
    rules.push(show_span("apply_new_chunk"));
    rules.push(show_span("preprocess_optimistic_block"));
    rules.push(show_span("process_optimistic_block"));
    rules.push(show_span("postprocess_ready_block"));
    rules.push(show_span("postprocess_optimistic_block"));
    rules.push(show_span("preprocess_block"));
    rules.push(show_span("apply_new_chunk"));
    rules.push(show_span("apply_old_chunk"));
    rules.push(show_span("produce_chunk_internal"));
    rules.push(show_span("produce_block_on"));
    rules.push(show_span("receive_optimistic_block"));
    rules.push(show_span("validate_chunk_state_witness"));
    rules.push(show_span("send_chunk_state_witness"));
    rules.push(show_span("produce_optimistic_block_on_head"));
    rules.push(show_span("validate_chunk_endorsement"));
    rules.push(show_span("on_approval_message"));
    rules.push(show_span("send_chunk_endorsement"));
    assert(rules@.len() == chain_span_names().len());
    StructuredMode { name: owned("Chain"), span_rules: rules, is_builtin: true }
}

/// A rule for the spans whose name equals `span_name`, on any node.
fn rule_for_name(rule_name: &str, span_name: &str, length: DisplayLength, replace_name: &str) -> (r: SpanRule)
    ensures
        r.name@ == rule_name@,
        r.selector.selects_name(span_name@),
        r.decision.visible,
        r.decision.display_length == length,
        r.decision.replace_name@ == replace_name@,
        r.decision.add_height_to_name,
        r.decision.add_shard_id_to_name,
        !r.decision.group,
{
    SpanRule {
        name: owned(rule_name),
        selector: SpanSelector::new_equal_name(span_name),
        decision: SpanDecision {
            visible: true,
            display_length: length,
            replace_name: owned(replace_name),
            add_height_to_name: true,
            add_shard_id_to_name: true,
            group: false,
        },
    }
}

/// A rule that selects every span.
pub open spec fn selects_all(sel: SpanSelector) -> bool {
    &&& matches_anything(sel.span_name_condition)
    &&& matches_anything(sel.node_name_condition)
    &&& sel.attribute_conditions@.len() == 0
}

/// The condition is the one that every value satisfies: operator `Any`, with an empty value.
pub open spec fn matches_anything(c: MatchCondition) -> bool {
    c.operator == MatchOperator::Any && c.value@ == Seq::<char>::empty()
}

/// The everything mode: named "Everything", built in, shortening "verify_chunk_endorsement" to
/// "VCE" and showing every other span.
pub open spec fn is_everything_mode(r: StructuredMode) -> bool {
    &&& r.name@ == "Everything"@
    &&& r.is_builtin
    &&& r.span_rules@.len() == 2
    &&& r.span_rules@[0].name@ == "Shorter verify_chunk_endorsement"@
    &&& r.span_rules@[0].selector.selects_name("verify_chunk_endorsement"@)
    &&& r.span_rules@[0].decision.replace_name@ == "VCE"@
    &&& r.span_rules@[1].name@ == "Show all"@
    &&& selects_all(r.span_rules@[1].selector)
    &&& r.span_rules@[1].decision.replace_name@ == Seq::<char>::empty()
    &&& forall|i: int| 0 <= i < 2 ==> {
            let d = #[trigger] r.span_rules@[i].decision;
            d.visible && d.display_length == DisplayLength::Time && d.add_height_to_name
                && d.add_shard_id_to_name && !d.group
        }
}

/// Everything mode: all spans are shown by time, and "verify_chunk_endorsement" is shortened to "VCE".
pub fn everything_structured_mode() -> (r: StructuredMode)
    ensures
        is_everything_mode(r),
{
    let mut rules: Vec<SpanRule> = Vec::new();
    rules.push(rule_for_name("Shorter verify_chunk_endorsement", "verify_chunk_endorsement", DisplayLength::Time, "VCE"));
    rules.push(SpanRule {
        name: owned("Show all"),
        selector: SpanSelector {
            span_name_condition: MatchCondition::any(),
            node_name_condition: MatchCondition::any(),
            attribute_conditions: Vec::new(),
        },
        decision: SpanDecision {
            visible: true,
            display_length: DisplayLength::Time,
            replace_name: String::new(),
            add_height_to_name: true,
            add_shard_id_to_name: true,
            group: false,
        },
    });
    StructuredMode { name: owned("Everything"), span_rules: rules, is_builtin: true }
}

/// The block production mode: named "Block Production", built in, shortening two span names and
/// showing the spans tagged `tag_block_production`.
pub open spec fn is_block_production_mode(r: StructuredMode) -> bool {
    &&& r.name@ == "Block Production"@
    &&& r.is_builtin
    &&& r.span_rules@.len() == 3
    &&& r.span_rules@[0].name@ == "Shorter validate_chunk_state_witness"@
    &&& r.span_rules@[0].selector.selects_name("validate_chunk_state_witness"@)
    &&& r.span_rules@[0].decision.replace_name@ == "VCSW"@
    &&& r.span_rules@[1].name@ == "Shorter validate_chunk_endorsement"@
    &&& r.span_rules@[1].selector.selects_name("validate_chunk_endorsement"@)
    &&& r.span_rules@[1].decision.replace_name@ == "VCE"@
    &&& r.span_rules@[2].name@ == "Show block_production spans"@
    &&& matches_anything(r.span_rules@[2].selector.span_name_condition)
    &&& matches_anything(r.span_rules@[2].selector.node_name_condition)
    &&& r.span_rules@[2].selector.attribute_conditions@.len() == 1
    &&& r.span_rules@[2].selector.attribute_conditions@[0].0@ == "tag_block_production"@
    &&& r.span_rules@[2].selector.attribute_conditions@[0].1.operator == MatchOperator::EqualTo
    &&& r.span_rules@[2].selector.attribute_conditions@[0].1.value@ == "true"@
    &&& r.span_rules@[2].decision.replace_name@ == Seq::<char>::empty()
    &&& forall|i: int| 0 <= i < 3 ==> {
            let d = #[trigger] r.span_rules@[i].decision;
            d.visible && d.display_length == DisplayLength::Text && d.add_height_to_name
                && d.add_shard_id_to_name && !d.group
        }
}

/// Block Production mode: shows the spans tagged `tag_block_production`, and shortens
/// "validate_chunk_state_witness" to "VCSW" and "validate_chunk_endorsement" to "VCE".
pub fn block_production_structured_mode() -> (r: StructuredMode)
    ensures
        is_block_production_mode(r),
{
    let mut rules: Vec<SpanRule> = Vec::new();
    rules.push(rule_for_name("Shorter validate_chunk_state_witness", "validate_chunk_state_witness", DisplayLength::Text, "VCSW"));
    rules.push(rule_for_name("Shorter validate_chunk_endorsement", "validate_chunk_endorsement", DisplayLength::Text, "VCE"));
    let mut conds: Vec<(String, MatchCondition)> = Vec::new();
    conds.push((owned("tag_block_production"), MatchCondition::equal_to("true")));
    rules.push(SpanRule {
        name: owned("Show block_production spans"),
        selector: SpanSelector {
            span_name_condition: MatchCondition::any(),
            node_name_condition: MatchCondition::any(),
            attribute_conditions: conds,
        },
        decision: SpanDecision {
            visible: true,
            display_length: DisplayLength::Text,
            replace_name: String::new(),
            add_height_to_name: true,
            add_shard_id_to_name: true,
            group: false,
        },
    });
    StructuredMode { name: owned("Block Production"), span_rules: rules, is_builtin: true }
}

/// List of all modes: Chain, Everything and Block Production, in this order.
pub fn builtin_structured_modes() -> (r: Vec<StructuredMode>)
    ensures
        r@.len() == 3,
        is_chain_mode(r@[0]),
        is_everything_mode(r@[1]),
        is_block_production_mode(r@[2]),
{
    let mut modes: Vec<StructuredMode> = Vec::new();
    modes.push(chain_structured_mode());
    modes.push(everything_structured_mode());
    modes.push(block_production_structured_mode());
    modes
}

} // verus!
