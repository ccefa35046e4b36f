//! Node filters: which nodes' spans are shown.

use vstd::prelude::*;

use crate::structured_modes::{condition_holds, MatchCondition, MatchOperator};
use crate::text::owned;

verus! {

#[derive(Debug, Clone)]
pub struct NodeFilter {
    pub name: String,
    pub rules: Vec<NodeRule>,
    /// Built-in filters (everything, etc.) are not editable.
    pub is_editable: bool,
}

#[derive(Debug, Clone)]
pub struct NodeRule {
    pub name: String,
    pub condition: MatchCondition,
    pub visible: bool,
}

/// The states of the node filter editor.
#[derive(Debug, Clone, Copy, PartialEq, Eq, Structural)]
pub enum EditNodeFiltersState {
    Closed,
    Open,
    DeleteFilterConfirmation,
    NotEditableError,
    EditingFilter,
    EditingFilterRule,
}

/// Whether the first rule whose condition the node name satisfies shows it; no such rule hides it.
pub open spec fn filter_shows(rules: Seq<NodeRule>, node_name: Seq<char>) -> bool
    decreases rules.len(),
{
    if rules.len() == 0 {
        false
    } else if condition_holds(rules[0].condition, node_name) {
        rules[0].visible
    } else {
        filter_shows(rules.drop_first(), node_name)
    }
}

/// The first rule whose condition the node name satisfies decides: the node is shown exactly as
/// that rule says, whatever the later rules say; where no rule's condition holds, it is hidden.
pub proof fn lemma_first_matching_rule_decides(rules: Seq<NodeRule>, node_name: Seq<char>)
    ensures
        forall|i: int|
            0 <= i < rules.len() && condition_holds(#[trigger] rules[i].condition, node_name)
                && (forall|j: int| 0 <= j < i ==> !condition_holds(rules[j].condition, node_name))
                ==> filter_shows(rules, node_name) == rules[i].visible,
        (forall|j: int| 0 <= j < rules.len() ==> !condition_holds(#[trigger] rules[j].condition, node_name))
            ==> !filter_shows(rules, node_name),
    decreases rules.len(),
{
    if rules.len() > 0 {
        let rest = rules.drop_first();
        lemma_first_matching_rule_decides(rest, node_name);
        assert forall|i: int|
            0 <= i < rules.len() && condition_holds(#[trigger] rules[i].condition, node_name)
                && (forall|j: int| 0 <= j < i ==> !condition_holds(rules[j].condition, node_name))
            implies filter_shows(rules, node_name) == rules[i].visible by {
            if i > 0 {
                assert(!condition_holds(rules[0].condition, node_name));
                assert(rest[i - 1] == rules[i]);
                assert forall|j: int| 0 <= j < i - 1 implies !condition_holds(rest[j].condition, node_name) by {
                    assert(rest[j] == rules[j + 1]);
                }
            }
        }
        if forall|j: int| 0 <= j < rules.len() ==> !condition_holds(#[trigger] rules[j].condition, node_name) {
            assert(!condition_holds(rules[0].condition, node_name));
            assert forall|j: int| 0 <= j < rest.len() implies !condition_holds(#[trigger] rest[j].condition, node_name) by {
                assert(rest[j] == rules[j + 1]);
            }
        }
    }
}

/// A filter whose single rule gives every node the same visibility.
pub open spec fn uniform_filter(f: NodeFilter, visible: bool) -> bool {
    &&& f.rules@.len() == 1
    &&& f.rules@[0].condition.operator == MatchOperator::Any
    &&& f.rules@[0].condition.value@ == Seq::<char>::empty()
    &&& f.rules@[0].visible == visible
    &&& !f.is_editable
}

/// A built-in filter: named `name`, with one rule of the same name, matching any node name, that
/// shows every node or none, as `visible` says; not editable.
pub open spec fn builtin_filter(f: NodeFilter, name: Seq<char>, visible: bool) -> bool {
    &&& f.name@ == name
    &&& f.rules@.len() == 1
    &&& f.rules@[0].name@ == name
    &&& uniform_filter(f, visible)
}

/// The built-in filters: "Show all", then "Show none".
pub fn builtin_filters() -> (r: Vec<NodeFilter>)
    ensures
        r@.len() == 2,
        builtin_filter(r@[0], "Show all"@, true),
        builtin_filter(r@[1], "Show none"@, false),
{
    let mut filters: Vec<NodeFilter> = Vec::new();
    filters.push(NodeFilter::show_all());
    filters.push(NodeFilter::show_none());
    filters
}

impl NodeFilter {
    /// The filter that shows every node.
    pub fn show_all() -> (r: NodeFilter)
        ensures
            builtin_filter(r, "Show all"@, true),
    {
        let mut rules: Vec<NodeRule> = Vec::new();
        rules.push(NodeRule { name: owned("Show all"), condition: MatchCondition::any(), visible: true });
        NodeFilter { name: owned("Show all"), rules, is_editable: false }
    }

    /// The filter that hides every node.
    pub fn show_none() -> (r: NodeFilter)
        ensures
            builtin_filter(r, "Show none"@, false),
    {
        let mut rules: Vec<NodeRule> = Vec::new();
        rules.push(NodeRule { name: owned("Show none"), condition: MatchCondition::any(), visible: false });
        NodeFilter { name: owned("Show none"), rules, is_editable: false }
    }

    /// Whether the spans of the named node are shown: the visibility of the first rule whose
    /// condition the name satisfies, or hidden when no rule's condition holds.
    pub fn should_show_span(&self, node_name: &str) -> (r: bool)
        ensures
            r == filter_shows(self.rules@, node_name@),
    {
        let ghost rules = self.rules@;
        assert(rules.skip(0) =~= rules);
        for i in 0..self.rules.len()
            invariant
                rules == self.rules@,
                filter_shows(rules, node_name@) == filter_shows(rules.skip(i as int), node_name@),
        {
            let rule = &self.rules[i];
            assert(rules.skip(i as int).drop_first() =~= rules.skip(i + 1));
            assert(rules.skip(i as int)[0] == rules[i as int]);
            if rule.condition.matches(node_name) {
                return rule.visible;
            }
        }
        assert(rules.skip(rules.len() as int) =~= Seq::<NodeRule>::empty());
        false
    }
}

/// A filter whose single rule matches any name shows every node, or none, as that rule says.
pub proof fn lemma_uniform_filter_shows(f: NodeFilter, visible: bool, node_name: Seq<char>)
    requires
        uniform_filter(f, visible),
    ensures
        filter_shows(f.rules@, node_name) == visible,
{
    assert(f.rules@.drop_first().len() == 0);
}

} // verus!
