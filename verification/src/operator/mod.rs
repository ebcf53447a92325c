//! Stream operators and the indexes behind them.

pub mod acyclicity;
pub mod aggregate;
pub mod aggregate_laws;
pub mod bind;
pub mod filter;
pub mod folding_laws;
pub mod graph_pattern;
pub mod graph_search;
pub mod hypergraph;
pub mod join;
pub mod join_forest;
pub mod join_sums;
pub mod link_index;
pub mod min_fill;
pub mod minus;
pub mod multiway_spec;
pub mod order_laws;
pub mod parallel;
pub mod parallel_aggregate;
pub mod parallel_hash_join;
pub mod payload_counts;
pub mod range_laws;
pub mod ranking;
pub mod rspql;
pub mod swag;
pub mod swag_ctrie;
pub mod swag_join;
pub mod swag_join_graph;
pub mod swag_join_laws;
pub mod swag_join_runs;
pub mod swag_join_specs;
pub mod swag_join_state;
pub mod swag_multiway;
pub mod swag_multiway_cache;
pub mod swag_parallel;
pub mod swag_triangle;
pub mod swag_windowed_join;
pub mod time_index;
pub mod variable_orders;
pub mod view_plan;
pub mod window_join_laws;

pub use aggregate::{
    AggregateFunction, AggregateResult, CountAggregate, GroupKey, RetractableAggregateFunction,
    WindowedAggregateOperator,
};
pub use bind::BindOperator;
pub use filter::FilterOperator;
pub use join::{
    EdgeInfo, GraphPatternJoinState, IntervalJoinState, JoinFunction, JoinResult, TaggedUnion,
    VariableLengthPathOperator, WindowedJoinState,
};
pub use minus::{compatible, MinusOperator};
pub use parallel::{
    AggregationBackend, ParallelExecutionConfig, ParallelExecutionConfigBuilder, SwagConfig,
};
pub use parallel_aggregate::ParallelWindowedAggregateOperator;
pub use parallel_hash_join::ParallelHashJoinOperator;
pub use ranking::{RankedElement, SortDirection, SortKey, TopKOperator};
pub use rspql::{DStreamOperator, IStreamOperator, RStreamOperator, WindowSnapshot, WindowUpdate};
pub use swag::{SwagCountOp, SwagOp, TwoStacksLiteWindow};
pub use swag_ctrie::CTrieIndex;
pub use swag_join::{IndexStats, JoinRecord, KeyIndexedTimeIndex, VariableOrder, VariableOrderMethod};
pub use swag_join_state::{IntervalBounds, JoinAggregateSpec, WindowJoinState};
pub use time_index::{RangeResult, TimeIndex, TimeIndexEntry};
