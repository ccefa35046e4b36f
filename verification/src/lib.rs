//! Reading and analysing OpenTelemetry traces: span trees, display modes, node filters,
//! relations between spans, span statistics and dependency analysis.

pub mod clock;
pub mod text;
pub mod types;
pub mod structured_modes;
pub mod node_filter;
pub mod persistent;
pub mod analyze_utils;
pub mod analyze_dependency;
pub mod relation;
pub mod builtin_relations;
pub mod legacy;
pub mod span_tree;
pub mod modes;
pub mod analyze_span;
pub mod timeline;
pub mod display;
pub mod profiling;
pub mod task_timer;
pub mod edit_state;
pub mod description_read_back;
pub mod dependency_laws;
