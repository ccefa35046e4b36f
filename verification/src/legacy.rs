//! Relations in the form they were first saved in, and their reading into the current form.

use vstd::prelude::*;

use crate::relation::{name_selector, AttributeRelation, MatchType, Relation, RelationId, RelationNodesConfig};
use crate::structured_modes::SpanSelector;

verus! {

/// A relation between the spans of two names.
#[derive(Debug)]
pub struct RelationV0 {
    pub id: RelationId,
    pub name: String,
    pub from_span_name: String,
    pub to_span_name: String,
    pub attribute_relations: Vec<AttributeRelation>,
    /// Nanoseconds.
    pub max_time_diff: Option<i64>,
    pub nodes_config: RelationNodesConfig,
    pub match_type: MatchType,
    pub is_builtin: bool,
}

impl RelationV0 {
    /// The same relation in the current form: the span names become selectors of the spans with
    /// those names, the description is empty and there is no minimal time difference.
    pub fn into_relation(self) -> (r: Relation)
        ensures
            r.id == self.id,
            r.name == self.name,
            r.description@ == Seq::<char>::empty(),
            name_selector(r.from_span_selector, self.from_span_name@),
            name_selector(r.to_span_selector, self.to_span_name@),
            r.attribute_relations == self.attribute_relations,
            r.max_time_diff == self.max_time_diff,
            r.min_time_diff == 0,
            r.nodes_config == self.nodes_config,
            r.match_type == self.match_type,
            r.is_builtin == self.is_builtin,
    {
        Relation {
            id: self.id,
            name: self.name,
            description: String::new(),
            from_span_selector: SpanSelector::new_equal_name(self.from_span_name.as_str()),
            to_span_selector: SpanSelector::new_equal_name(self.to_span_name.as_str()),
            attribute_relations: self.attribute_relations,
            max_time_diff: self.max_time_diff,
            min_time_diff: 0,
            nodes_config: self.nodes_config,
            match_type: self.match_type,
            is_builtin: self.is_builtin,
        }
    }
}

} // verus!
