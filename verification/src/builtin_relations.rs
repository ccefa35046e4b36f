//! The relations that come with the application: the steps of producing and applying blocks
//! and chunks, each linked to the step that follows it.

use vstd::prelude::*;

use crate::relation::{
    builtin_relation, builtin_relation_is, name_selector, same_attribute, AttributeRelationOp, MatchType, Relation,
    RelationNodesConfig,
};
use crate::structured_modes::{MatchCondition, MatchOperator, SpanSelector};
use crate::text::owned;

verus! {

broadcast use vstd::std_specs::vec::group_vec_axioms;

/// The selector selects the applications of a chunk to a tracked shard for the given block type.
pub open spec fn chunk_application_selector(sel: SpanSelector, block_type: Seq<char>) -> bool {
    &&& sel.span_name_condition.operator == MatchOperator::EqualTo
    &&& sel.span_name_condition.value@ == "apply_new_chunk"@
    &&& sel.node_name_condition.operator == MatchOperator::Any
    &&& sel.attribute_conditions@.len() == 2
    &&& sel.attribute_conditions@[0].0@ == "apply_reason"@
    &&& sel.attribute_conditions@[0].1.operator == MatchOperator::EqualTo
    &&& sel.attribute_conditions@[0].1.value@ == "UpdateTrackedShard"@
    &&& sel.attribute_conditions@[1].0@ == "block_type"@
    &&& sel.attribute_conditions@[1].1.operator == MatchOperator::EqualTo
    &&& sel.attribute_conditions@[1].1.value@ == block_type
}

fn chunk_selector(block_type: &str) -> (r: SpanSelector)
    ensures
        chunk_application_selector(r, block_type@),
{
    SpanSelector {
        span_name_condition: MatchCondition::equal_to("apply_new_chunk"),
        node_name_condition: MatchCondition::any(),
        attribute_conditions: vec![
            (owned("apply_reason"), MatchCondition::equal_to("UpdateTrackedShard")),
            (owned("block_type"), MatchCondition::equal_to(block_type)),
        ],
    }
}

/// What the `k`-th built-in relation is.
pub open spec fn builtin_relation_spec(k: int, r: Relation) -> bool {
    if k == 0 {
        &&& builtin_relation_is(r, "produce_block_on_head -> preprocess_block"@, "produce_block_on_head -> preprocess_block"@, seq![("height"@, AttributeRelationOp::Equal)],
            RelationNodesConfig::AllNodes, MatchType::MatchAll, 0)
        &&& name_selector(r.from_span_selector, "produce_block_on_head"@)
        &&& name_selector(r.to_span_selector, "preprocess_block"@)
    } else if k == 1 {
        &&& builtin_relation_is(r, "pre-post-process block"@, "preprocess_block -> postprocess_ready_block"@, seq![("height"@, AttributeRelationOp::Equal)],
            RelationNodesConfig::SameNode, MatchType::MatchAll, 0)
        &&& name_selector(r.from_span_selector, "preprocess_block"@)
        &&& name_selector(r.to_span_selector, "postprocess_ready_block"@)
    } else if k == 2 {
        &&& builtin_relation_is(r, "postprocess_ready_block -> produce_block_on_head"@, "postprocess_ready_block -> produce_block_on_head"@, seq![("height"@, AttributeRelationOp::OneGreater)],
            RelationNodesConfig::SameNode, MatchType::MatchAll, 0)
        &&& name_selector(r.from_span_selector, "postprocess_ready_block"@)
        &&& name_selector(r.to_span_selector, "produce_block_on_head"@)
    } else if k == 3 {
        &&& builtin_relation_is(r, "post-pre-process block"@, "postprocess_ready_block to next preprocess_block"@, seq![("height"@, AttributeRelationOp::OneGreater)],
            RelationNodesConfig::SameNode, MatchType::MatchAll, 0)
        &&& name_selector(r.from_span_selector, "postprocess_ready_block"@)
        &&& name_selector(r.to_span_selector, "preprocess_block"@)
    } else if k == 4 {
        &&& builtin_relation_is(r, "preprocess_block -> apply_new_chunk"@, "preprocess_block -> apply_new_chunk"@, seq![("height"@, AttributeRelationOp::Equal)],
            RelationNodesConfig::SameNode, MatchType::MatchAll, 0)
        &&& name_selector(r.from_span_selector, "preprocess_block"@)
        &&& chunk_application_selector(r.to_span_selector, "Normal"@)
    } else if k == 5 {
        &&& builtin_relation_is(r, "apply_new_chunk(normal) -> postprocess_ready_block"@, "apply_new_chunk(normal) -> postprocess_ready_block"@, seq![("height"@, AttributeRelationOp::Equal)],
            RelationNodesConfig::SameNode, MatchType::MatchAll, 0)
        &&& chunk_application_selector(r.from_span_selector, "Normal"@)
        &&& name_selector(r.to_span_selector, "postprocess_ready_block"@)
    } else if k == 6 {
        &&& builtin_relation_is(r, "apply_new_chunk(optimistic) -> postprocess_ready_block"@, "apply_new_chunk(optimistic) -> postprocess_ready_block"@, seq![("height"@, AttributeRelationOp::Equal)],
            RelationNodesConfig::SameNode, MatchType::MatchAll, 0)
        &&& chunk_application_selector(r.from_span_selector, "Optimistic"@)
        &&& name_selector(r.to_span_selector, "postprocess_ready_block"@)
    } else if k == 7 {
        &&& builtin_relation_is(r, "postprocess_ready_block -> produce_chunk"@, "postprocess_ready_block -> produce_chunk"@, seq![("height"@, AttributeRelationOp::OneGreater)],
            RelationNodesConfig::SameNode, MatchType::MatchAll, 0)
        &&& name_selector(r.from_span_selector, "postprocess_ready_block"@)
        &&& name_selector(r.to_span_selector, "produce_chunk"@)
    } else if k == 8 {
        &&& builtin_relation_is(r, "produce_chunk -> send_chunk_state_witness"@, "produce_chunk -> send_chunk_state_witness"@, seq![("height"@, AttributeRelationOp::Equal), ("shard_id"@, AttributeRelationOp::Equal)],
            RelationNodesConfig::SameNode, MatchType::MatchAll, 0)
        &&& name_selector(r.from_span_selector, "produce_chunk"@)
        &&& name_selector(r.to_span_selector, "send_chunk_state_witness"@)
    } else if k == 9 {
        &&& builtin_relation_is(r, "send-validate witness"@, "send_chunk_state_witness -> validate_chunk_state_witness"@, seq![("height"@, AttributeRelationOp::Equal), ("shard_id"@, AttributeRelationOp::Equal)],
            RelationNodesConfig::AllNodes, MatchType::MatchAll, 0)
        &&& name_selector(r.from_span_selector, "send_chunk_state_witness"@)
        &&& name_selector(r.to_span_selector, "validate_chunk_state_witness"@)
    } else if k == 10 {
        &&& builtin_relation_is(r, "validate_chunk_state_witness -> send_chunk_endorsement"@, "validate_chunk_state_witness -> send_chunk_endorsement"@, seq![("height"@, AttributeRelationOp::Equal), ("shard_id"@, AttributeRelationOp::Equal)],
            RelationNodesConfig::SameNode, MatchType::MatchAll, 0)
        &&& name_selector(r.from_span_selector, "validate_chunk_state_witness"@)
        &&& name_selector(r.to_span_selector, "send_chunk_endorsement"@)
    } else if k == 11 {
        &&& builtin_relation_is(r, "send-validate chunk endorsement"@, "send_chunk_endorsement -> validate_chunk_endorsement"@, seq![("height"@, AttributeRelationOp::Equal), ("shard_id"@, AttributeRelationOp::Equal), ("validator"@, AttributeRelationOp::Equal)],
            RelationNodesConfig::AllNodes, MatchType::MatchAll, 0)
        &&& name_selector(r.from_span_selector, "send_chunk_endorsement"@)
        &&& name_selector(r.to_span_selector, "validate_chunk_endorsement"@)
    } else if k == 12 {
        &&& builtin_relation_is(r, "validate_chunk_endorsement -> produce_block_on_head"@, "validate_chunk_endorsement -> produce_block_on_head"@, seq![("height"@, AttributeRelationOp::Equal)],
            RelationNodesConfig::SameNode, MatchType::MatchAll, 0)
        &&& name_selector(r.from_span_selector, "validate_chunk_endorsement"@)
        &&& name_selector(r.to_span_selector, "produce_block_on_head"@)
    } else if k == 13 {
        &&& builtin_relation_is(r, "postprocess_ready_block -> produce_optimistic_block_on_head"@, "postprocess_ready_block -> produce_optimistic_block_on_head"@, seq![("height"@, AttributeRelationOp::OneGreater)],
            RelationNodesConfig::SameNode, MatchType::MatchAll, 0)
        &&& name_selector(r.from_span_selector, "postprocess_ready_block"@)
        &&& name_selector(r.to_span_selector, "produce_optimistic_block_on_head"@)
    } else if k == 14 {
        &&& builtin_relation_is(r, "produce optimistic -> preprocess optimistic"@, "produce_optimistic_block_on_head -> process_optimistic_block"@, seq![("height"@, AttributeRelationOp::Equal)],
            RelationNodesConfig::AllNodes, MatchType::MatchAll, 0)
        &&& name_selector(r.from_span_selector, "produce_optimistic_block_on_head"@)
        &&& name_selector(r.to_span_selector, "process_optimistic_block"@)
    } else if k == 15 {
        &&& builtin_relation_is(r, "process_optimistic_block -> apply_new_chunk(optimistic)"@, "process_optimistic_block -> apply_new_chunk(optimistic)"@, seq![("height"@, AttributeRelationOp::Equal)],
            RelationNodesConfig::SameNode, MatchType::MatchAll, -10000000)
        &&& name_selector(r.from_span_selector, "process_optimistic_block"@)
        &&& chunk_application_selector(r.to_span_selector, "Optimistic"@)
    } else {
        false
    }
}

pub fn produce_block_on_head_to_preprocess_block_relation() -> (r: Relation)
    ensures
        builtin_relation_spec(0, r),
{
    builtin_relation(
        "produce_block_on_head -> preprocess_block",
        "produce_block_on_head -> preprocess_block",
        SpanSelector::new_equal_name("produce_block_on_head"),
        SpanSelector::new_equal_name("preprocess_block"),
        vec![same_attribute("height", AttributeRelationOp::Equal)],
        RelationNodesConfig::AllNodes,
        MatchType::MatchAll,
        0,
    )
}

pub fn preprocess_block_to_postprocess_ready_block_relation() -> (r: Relation)
    ensures
        builtin_relation_spec(1, r),
{
    builtin_relation(
        "pre-post-process block",
        "preprocess_block -> postprocess_ready_block",
        SpanSelector::new_equal_name("preprocess_block"),
        SpanSelector::new_equal_name("postprocess_ready_block"),
        vec![same_attribute("height", AttributeRelationOp::Equal)],
        RelationNodesConfig::SameNode,
        MatchType::MatchAll,
        0,
    )
}

pub fn postprocess_ready_block_to_produce_block_on_head_relation() -> (r: Relation)
    ensures
        builtin_relation_spec(2, r),
{
    builtin_relation(
        "postprocess_ready_block -> produce_block_on_head",
        "postprocess_ready_block -> produce_block_on_head",
        SpanSelector::new_equal_name("postprocess_ready_block"),
        SpanSelector::new_equal_name("produce_block_on_head"),
        vec![same_attribute("height", AttributeRelationOp::OneGreater)],
        RelationNodesConfig::SameNode,
        MatchType::MatchAll,
        0,
    )
}

pub fn postprocess_ready_block_to_next_preprocess_block_relation() -> (r: Relation)
    ensures
        builtin_relation_spec(3, r),
{
    builtin_relation(
        "post-pre-process block",
        "postprocess_ready_block to next preprocess_block",
        SpanSelector::new_equal_name("postprocess_ready_block"),
        SpanSelector::new_equal_name("preprocess_block"),
        vec![same_attribute("height", AttributeRelationOp::OneGreater)],
        RelationNodesConfig::SameNode,
        MatchType::MatchAll,
        0,
    )
}

pub fn preprocess_block_to_apply_new_chunk_relation() -> (r: Relation)
    ensures
        builtin_relation_spec(4, r),
{
    builtin_relation(
        "preprocess_block -> apply_new_chunk",
        "preprocess_block -> apply_new_chunk",
        SpanSelector::new_equal_name("preprocess_block"),
        chunk_selector("Normal"),
        vec![same_attribute("height", AttributeRelationOp::Equal)],
        RelationNodesConfig::SameNode,
        MatchType::MatchAll,
        0,
    )
}

pub fn apply_new_chunk_normal_to_postprocess_ready_block_relation() -> (r: Relation)
    ensures
        builtin_relation_spec(5, r),
{
    builtin_relation(
        "apply_new_chunk(normal) -> postprocess_ready_block",
        "apply_new_chunk(normal) -> postprocess_ready_block",
        chunk_selector("Normal"),
        SpanSelector::new_equal_name("postprocess_ready_block"),
        vec![same_attribute("height", AttributeRelationOp::Equal)],
        RelationNodesConfig::SameNode,
        MatchType::MatchAll,
        0,
    )
}

pub fn apply_new_chunk_optimistic_to_postprocess_ready_block_relation() -> (r: Relation)
    ensures
        builtin_relation_spec(6, r),
{
    builtin_relation(
        "apply_new_chunk(optimistic) -> postprocess_ready_block",
        "apply_new_chunk(optimistic) -> postprocess_ready_block",
        chunk_selector("Optimistic"),
        SpanSelector::new_equal_name("postprocess_ready_block"),
        vec![same_attribute("height", AttributeRelationOp::Equal)],
        RelationNodesConfig::SameNode,
        MatchType::MatchAll,
        0,
    )
}

pub fn postprocess_ready_block_to_produce_chunk_relation() -> (r: Relation)
    ensures
        builtin_relation_spec(7, r),
{
    builtin_relation(
        "postprocess_ready_block -> produce_chunk",
        "postprocess_ready_block -> produce_chunk",
        SpanSelector::new_equal_name("postprocess_ready_block"),
        SpanSelector::new_equal_name("produce_chunk"),
        vec![same_attribute("height", AttributeRelationOp::OneGreater)],
        RelationNodesConfig::SameNode,
        MatchType::MatchAll,
        0,
    )
}

pub fn produce_chunk_to_send_chunk_state_witness_relation() -> (r: Relation)
    ensures
        builtin_relation_spec(8, r),
{
    builtin_relation(
        "produce_chunk -> send_chunk_state_witness",
        "produce_chunk -> send_chunk_state_witness",
        SpanSelector::new_equal_name("produce_chunk"),
        SpanSelector::new_equal_name("send_chunk_state_witness"),
        vec![same_attribute("height", AttributeRelationOp::Equal), same_attribute("shard_id", AttributeRelationOp::Equal)],
        RelationNodesConfig::SameNode,
        MatchType::MatchAll,
        0,
    )
}

pub fn send_chunk_state_witness_to_validate_chunk_state_witness_relation() -> (r: Relation)
    ensures
        builtin_relation_spec(9, r),
{
    builtin_relation(
        "send-validate witness",
        "send_chunk_state_witness -> validate_chunk_state_witness",
        SpanSelector::new_equal_name("send_chunk_state_witness"),
        SpanSelector::new_equal_name("validate_chunk_state_witness"),
        vec![same_attribute("height", AttributeRelationOp::Equal), same_attribute("shard_id", AttributeRelationOp::Equal)],
        RelationNodesConfig::AllNodes,
        MatchType::MatchAll,
        0,
    )
}

pub fn validate_chunk_state_witness_to_send_chunk_endorsement_relation() -> (r: Relation)
    ensures
        builtin_relation_spec(10, r),
{
    builtin_relation(
        "validate_chunk_state_witness -> send_chunk_endorsement",
        "validate_chunk_state_witness -> send_chunk_endorsement",
        SpanSelector::new_equal_name("validate_chunk_state_witness"),
        SpanSelector::new_equal_name("send_chunk_endorsement"),
        vec![same_attribute("height", AttributeRelationOp::Equal), same_attribute("shard_id", AttributeRelationOp::Equal)],
        RelationNodesConfig::SameNode,
        MatchType::MatchAll,
        0,
    )
}

pub fn send_chunk_endorsement_to_validate_chunk_endorsement_relation() -> (r: Relation)
    ensures
        builtin_relation_spec(11, r),
{
    builtin_relation(
        "send-validate chunk endorsement",
        "send_chunk_endorsement -> validate_chunk_endorsement",
        SpanSelector::new_equal_name("send_chunk_endorsement"),
        SpanSelector::new_equal_name("validate_chunk_endorsement"),
        vec![same_attribute("height", AttributeRelationOp::Equal), same_attribute("shard_id", AttributeRelationOp::Equal), same_attribute("validator", AttributeRelationOp::Equal)],
        RelationNodesConfig::AllNodes,
        MatchType::MatchAll,
        0,
    )
}

pub fn validate_chunk_endorsement_to_produce_block_on_head_relation() -> (r: Relation)
    ensures
        builtin_relation_spec(12, r),
{
    builtin_relation(
        "validate_chunk_endorsement -> produce_block_on_head",
        "validate_chunk_endorsement -> produce_block_on_head",
        SpanSelector::new_equal_name("validate_chunk_endorsement"),
        SpanSelector::new_equal_name("produce_block_on_head"),
        vec![same_attribute("height", AttributeRelationOp::Equal)],
        RelationNodesConfig::SameNode,
        MatchType::MatchAll,
        0,
    )
}

pub fn postprocess_ready_block_to_produce_optimistic_block_on_head_relation() -> (r: Relation)
    ensures
        builtin_relation_spec(13, r),
{
    builtin_relation(
        "postprocess_ready_block -> produce_optimistic_block_on_head",
        "postprocess_ready_block -> produce_optimistic_block_on_head",
        SpanSelector::new_equal_name("postprocess_ready_block"),
        SpanSelector::new_equal_name("produce_optimistic_block_on_head"),
        vec![same_attribute("height", AttributeRelationOp::OneGreater)],
        RelationNodesConfig::SameNode,
        MatchType::MatchAll,
        0,
    )
}

pub fn produce_optimistic_block_on_head_to_process_optimistic_block_relation() -> (r: Relation)
    ensures
        builtin_relation_spec(14, r),
{
    builtin_relation(
        "produce optimistic -> preprocess optimistic",
        "produce_optimistic_block_on_head -> process_optimistic_block",
        SpanSelector::new_equal_name("produce_optimistic_block_on_head"),
        SpanSelector::new_equal_name("process_optimistic_block"),
        vec![same_attribute("height", AttributeRelationOp::Equal)],
        RelationNodesConfig::AllNodes,
        MatchType::MatchAll,
        0,
    )
}

pub fn process_optimistic_block_to_apply_new_chunk_optimistic_relation() -> (r: Relation)
    ensures
        builtin_relation_spec(15, r),
{
    builtin_relation(
        "process_optimistic_block -> apply_new_chunk(optimistic)",
        "process_optimistic_block -> apply_new_chunk(optimistic)",
        SpanSelector::new_equal_name("process_optimistic_block"),
        chunk_selector("Optimistic"),
        vec![same_attribute("height", AttributeRelationOp::Equal)],
        RelationNodesConfig::SameNode,
        MatchType::MatchAll,
        -10000000,
    )
}

/// The built-in relations, in the order of the steps they link.
pub fn builtin_relations() -> (r: Vec<Relation>)
    ensures
        r@.len() == 16,
        forall|k: int| 0 <= k < 16 ==> builtin_relation_spec(k, #[trigger] r@[k]),
{
    let r = vec![
        produce_block_on_head_to_preprocess_block_relation(),
        preprocess_block_to_postprocess_ready_block_relation(),
        postprocess_ready_block_to_produce_block_on_head_relation(),
        postprocess_ready_block_to_next_preprocess_block_relation(),
        preprocess_block_to_apply_new_chunk_relation(),
        apply_new_chunk_normal_to_postprocess_ready_block_relation(),
        apply_new_chunk_optimistic_to_postprocess_ready_block_relation(),
        postprocess_ready_block_to_produce_chunk_relation(),
        produce_chunk_to_send_chunk_state_witness_relation(),
        send_chunk_state_witness_to_validate_chunk_state_witness_relation(),
        validate_chunk_state_witness_to_send_chunk_endorsement_relation(),
        send_chunk_endorsement_to_validate_chunk_endorsement_relation(),
        validate_chunk_endorsement_to_produce_block_on_head_relation(),
        postprocess_ready_block_to_produce_optimistic_block_on_head_relation(),
        produce_optimistic_block_on_head_to_process_optimistic_block_relation(),
        process_optimistic_block_to_apply_new_chunk_optimistic_relation(),
    ];
    assert(forall|k: int| 0 <= k < 16 ==> builtin_relation_spec(k, #[trigger] r@[k]));
    r
}

} // verus!
