//! Editing lists of modes, filters, relations and views: the items a new entry starts from,
//! committing the item being edited (a new item is added at the end, an edited one replaces the
//! selected item) and moving items up and down.

use vstd::prelude::*;

use crate::node_filter::{NodeFilter, NodeRule};
use crate::relation::{MatchType, Relation, RelationId, RelationNodesConfig, RelationView};
use crate::structured_modes::{MatchCondition, MatchOperator, SpanDecision, SpanRule, SpanSelector, StructuredMode};
use crate::text::owned;
use crate::types::DisplayLength;

verus! {

broadcast use vstd::std_specs::vec::group_vec_axioms;

/// Whether the item being edited is a new one or replaces the selected one.
#[derive(Clone, Copy, Debug, PartialEq, Eq, Structural)]
pub enum AddingOrEditing {
    Adding,
    Editing,
}

/// Puts the edited item into the list and gives the position to select: a new item goes at the
/// end and is selected; an edited item replaces the selected one, which stays selected.
pub fn commit_edit<T>(items: &mut Vec<T>, item: T, mode: AddingOrEditing, selected: usize) -> (r: usize)
    requires
        mode == AddingOrEditing::Editing ==> selected < old(items)@.len(),
    ensures
        mode == AddingOrEditing::Adding ==> final(items)@ == old(items)@.push(item) && r == old(items)@.len(),
        mode == AddingOrEditing::Editing ==> final(items)@ == old(items)@.update(selected as int, item) && r == selected,
{
    match mode {
        AddingOrEditing::Adding => {
            items.push(item);
            items.len() - 1
        },
        AddingOrEditing::Editing => {
            items.set(selected, item);
            selected
        },
    }
}

/// Moves the selected item one place up, when it is not the first; gives the new selection.
pub fn move_up<T>(items: &mut Vec<T>, selected: usize) -> (r: usize)
    requires
        selected < old(items)@.len(),
    ensures
        selected > 0 ==> r == selected - 1 && final(items)@ == moved_up(old(items)@, selected as int),
        selected == 0 ==> r == 0 && final(items)@ == old(items)@,
{
    if selected > 0 {
        let ghost o = items@;
        let x = items.remove(selected);
        assert(x == o[selected as int]);
        assert(items@ =~= o.remove(selected as int));
        items.insert(selected - 1, x);
        assert(items@ =~= o.remove(selected as int).insert(selected - 1, x));
        assert forall|k: int| 0 <= k < o.len() implies items@[k] == moved_up(o, selected as int)[k] by {
            if k < selected - 1 {
                assert(items@[k] == o[k]);
            } else if k == selected - 1 {
                assert(items@[k] == x);
            } else if k == selected {
                assert(items@[k] == o[selected - 1]);
            } else {
                assert(items@[k] == o[k]);
            }
        }
        assert(items@ =~= moved_up(o, selected as int));
        selected - 1
    } else {
        0
    }
}

/// Moves the selected item one place down, when it is not the last; gives the new selection.
pub fn move_down<T>(items: &mut Vec<T>, selected: usize) -> (r: usize)
    requires
        selected < old(items)@.len(),
    ensures
        selected + 1 < old(items)@.len() ==> r == selected + 1 && final(items)@ == moved_down(old(items)@, selected as int),
        selected + 1 >= old(items)@.len() ==> r == selected && final(items)@ == old(items)@,
{
    let n = items.len();
    if n - selected > 1 {
        let ghost o = items@;
        let x = items.remove(selected);
        assert(x == o[selected as int]);
        assert(items@ =~= o.remove(selected as int));
        items.insert(selected + 1, x);
        assert(items@ =~= o.remove(selected as int).insert(selected + 1, x));
        assert forall|k: int| 0 <= k < o.len() implies items@[k] == moved_down(o, selected as int)[k] by {
            if k < selected {
                assert(items@[k] == o[k]);
            } else if k == selected {
                assert(items@[k] == o[selected + 1]);
            } else if k == selected + 1 {
                assert(items@[k] == x);
            } else {
                assert(items@[k] == o[k]);
            }
        }
        assert(items@ =~= moved_down(o, selected as int));
        selected + 1
    } else {
        selected
    }
}

/// The list after `move_up` of the `s`-th item.
pub open spec fn moved_up<T>(items: Seq<T>, s: int) -> Seq<T> {
    items.update(s - 1, items[s]).update(s, items[s - 1])
}

/// The list after `move_down` of the `s`-th item.
pub open spec fn moved_down<T>(items: Seq<T>, s: int) -> Seq<T> {
    items.update(s, items[s + 1]).update(s + 1, items[s])
}

/// Moving an item up and then moving it down again gives back the list, and the other way round.
pub proof fn lemma_move_up_down_restores<T>(items: Seq<T>, s: int)
    requires
        0 < s < items.len(),
    ensures
        moved_down(moved_up(items, s), s - 1) == items,
        moved_up(moved_down(items, s - 1), s) == items,
{
    assert(moved_down(moved_up(items, s), s - 1) =~= items);
    assert(moved_up(moved_down(items, s - 1), s) =~= items);
}

/// The rule that a new mode starts with: named "Rule 1", it shows the spans named "MySpan" on
/// any node, whatever their attributes, by the length of their names, under their own name with
/// their height and shard id added, ungrouped.
pub open spec fn fresh_span_rule(r: SpanRule) -> bool {
    &&& r.name@ == "Rule 1"@
    &&& r.selector.selects_name("MySpan"@)
    &&& r.decision.visible
    &&& r.decision.display_length == DisplayLength::Text
    &&& r.decision.replace_name@.len() == 0
    &&& r.decision.add_height_to_name
    &&& r.decision.add_shard_id_to_name
    &&& !r.decision.group
}

/// The rule that a new node filter starts with: named "Rule 1", it shows the node named
/// "something".
pub open spec fn fresh_node_rule(r: NodeRule) -> bool {
    &&& r.name@ == "Rule 1"@
    &&& r.condition.operator == MatchOperator::EqualTo
    &&& r.condition.value@ == "something"@
    &&& r.visible
}

/// The rule a new mode starts with: it shows, by the length of their names, the spans named
/// "MySpan" on any node, with their height and shard id added to the name.
pub fn new_span_rule() -> (r: SpanRule)
    ensures
        fresh_span_rule(r),
{
    SpanRule {
        name: owned("Rule 1"),
        selector: SpanSelector::new_equal_name("MySpan"),
        decision: SpanDecision {
            visible: true,
            display_length: DisplayLength::Text,
            replace_name: String::new(),
            add_height_to_name: true,
            add_shard_id_to_name: true,
            group: false,
        },
    }
}

/// A new mode: named "New Mode", with the new rule, not built in.
pub fn new_mode() -> (r: StructuredMode)
    ensures
        r.name@ == "New Mode"@,
        r.span_rules@.len() == 1,
        fresh_span_rule(r.span_rules@[0]),
        !r.is_builtin,
{
    let mut rules: Vec<SpanRule> = Vec::new();
    rules.push(new_span_rule());
    StructuredMode { name: owned("New Mode"), span_rules: rules, is_builtin: false }
}

/// The rule a new node filter starts with: it shows the node named "something".
pub fn new_node_rule() -> (r: NodeRule)
    ensures
        fresh_node_rule(r),
{
    NodeRule {
        name: owned("Rule 1"),
        condition: MatchCondition { operator: MatchOperator::EqualTo, value: owned("something") },
        visible: true,
    }
}

/// A new node filter: named "New Filter", with the new rule, editable.
pub fn new_filter() -> (r: NodeFilter)
    ensures
        r.name@ == "New Filter"@,
        r.rules@.len() == 1,
        fresh_node_rule(r.rules@[0]),
        r.is_editable,
{
    let mut rules: Vec<NodeRule> = Vec::new();
    rules.push(new_node_rule());
    NodeFilter { name: owned("New Filter"), rules, is_editable: true }
}

/// An identity in the form of a random (version 4) UUID, its higher and lower 64 bits: the
/// version nibble is 4 and the two variant bits are `10`. The other bits are random.
pub open spec fn random_uuid_form(id: RelationId) -> bool {
    &&& id.high & 0xF000u64 == 0x4000u64
    &&& id.low >> 62u64 == 2u64
}

/// A new random identity (`uuid::Uuid::new_v4`, split into its two halves by
/// `Uuid::as_u64_pair`). `new_v4` masks its random value so that the version nibble is 4 and the
/// variant bits are `10`; nothing else is claimed of the value, which rests on chance.
#[verifier::external_body]
fn random_relation_id() -> (r: RelationId)
    ensures
        random_uuid_form(r),
{
    let (high, low) = uuid::Uuid::new_v4().as_u64_pair();
    RelationId { high, low }
}

/// A new relation under a new random identity (a version 4 UUID): from the spans named
/// "from span" to those named "to span" on any node, all matches, starting no earlier than the
/// first ends and at most ten seconds after it starts.
pub fn new_relation() -> (r: Relation)
    ensures
        r.name@ == "New relation"@,
        r.description@.len() == 0,
        r.from_span_selector.selects_name("from span"@),
        r.to_span_selector.selects_name("to span"@),
        r.attribute_relations@.len() == 0,
        r.max_time_diff == Some(10_000_000_000i64),
        r.min_time_diff == 0,
        r.nodes_config == RelationNodesConfig::AllNodes,
        r.match_type == MatchType::MatchAll,
        !r.is_builtin,
        random_uuid_form(r.id),
{
    Relation {
        id: random_relation_id(),
        name: owned("New relation"),
        description: String::new(),
        from_span_selector: SpanSelector::new_equal_name("from span"),
        to_span_selector: SpanSelector::new_equal_name("to span"),
        attribute_relations: Vec::new(),
        max_time_diff: Some(10_000_000_000),
        min_time_diff: 0,
        nodes_config: RelationNodesConfig::AllNodes,
        match_type: MatchType::MatchAll,
        is_builtin: false,
    }
}

/// A new relation view: named "New Relation View", with no relation enabled.
pub fn new_view() -> (r: RelationView)
    ensures
        r.name@ == "New Relation View"@,
        r.enabled_relations@.len() == 0,
        !r.is_builtin,
{
    RelationView { enabled_relations: Vec::new(), name: owned("New Relation View"), is_builtin: false }
}

} // verus!
