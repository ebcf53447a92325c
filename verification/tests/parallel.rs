use cqels_core::operator::parallel::{
    AggregationBackend, FifoAlgorithm, ParallelExecutionConfig, ParallelMode, StreamOrdering, SwagConfig,
};

#[test]
fn test_default_config() {
    let config = ParallelExecutionConfig::default();
    assert!(config.parallelism > 0);
    assert_eq!(config.prefetch, 256);
    assert!(config.auto_parallelize);
    assert_eq!(config.min_stream_size, 1000);
    assert_eq!(config.aggregation_backend, AggregationBackend::Legacy);
}

#[test]
fn test_builder() {
    let config = ParallelExecutionConfig::builder()
        .parallelism(8)
        .prefetch(512)
        .auto_parallelize(false)
        .aggregation_backend(AggregationBackend::Swag)
        .build();

    assert_eq!(config.parallelism, 8);
    assert_eq!(config.prefetch, 512);
    assert!(!config.auto_parallelize);
    assert_eq!(config.aggregation_backend, AggregationBackend::Swag);
}

#[test]
fn test_should_parallelize() {
    let config = ParallelExecutionConfig::builder()
        .auto_parallelize(true)
        .min_stream_size(100)
        .build();

    assert!(!config.should_parallelize(50));
    assert!(config.should_parallelize(100));
    assert!(config.should_parallelize(200));
}

#[test]
fn test_swag_config_default() {
    let config = SwagConfig::default();
    assert_eq!(config.ordering, StreamOrdering::InOrder);
    assert_eq!(config.fifo_algorithm, FifoAlgorithm::TwoStacksLite);
    assert_eq!(config.parallel_mode, ParallelMode::KeyPartitionedOnly);
    assert!(config.use_ctrie_snapshots);
    assert!(config.fallback_to_legacy);
}
