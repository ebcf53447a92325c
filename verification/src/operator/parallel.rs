//! Settings for parallel execution.
use vstd::prelude::*;

verus! {

/// Which aggregation backend to use.
#[derive(Clone, Copy, Debug, PartialEq, Eq, Structural)]
#[non_exhaustive]
pub enum AggregationBackend {
    /// All aggregates.
    Legacy,
    /// Sliding-window aggregation: SUM, AVG, MAX, MIN and COUNT only.
    Swag,
}

/// What is known of the order of a stream.
#[derive(Clone, Copy, Debug, PartialEq, Eq, Structural)]
#[non_exhaustive]
pub enum StreamOrdering {
    InOrder,
    OutOfOrder,
}

/// Algorithms for in-order windows.
#[derive(Clone, Copy, Debug, PartialEq, Eq, Structural)]
#[non_exhaustive]
pub enum FifoAlgorithm {
    TwoStacks,
    TwoStacksLite,
}

/// Algorithms for out-of-order windows.
#[derive(Clone, Copy, Debug, PartialEq, Eq, Structural)]
#[non_exhaustive]
pub enum OooAlgorithm {
    Reactive,
}

/// How work is spread.
#[derive(Clone, Copy, Debug, PartialEq, Eq, Structural)]
#[non_exhaustive]
pub enum ParallelMode {
    KeyPartitionedOnly,
    BatchOnClose,
    Mixed,
}

/// Settings for sliding-window aggregation.
#[derive(Clone, Debug)]
pub struct SwagConfig {
    pub ordering: StreamOrdering,
    pub fifo_algorithm: FifoAlgorithm,
    pub ooo_algorithm: OooAlgorithm,
    pub parallel_mode: ParallelMode,
    /// Elements before work is split.
    pub split_threshold: usize,
    /// Most tasks at a time.
    pub max_tasks: usize,
    /// Do split thresholds grow exponentially?
    pub exponential_split: bool,
    /// Are reads served from trie snapshots?
    pub use_ctrie_snapshots: bool,
    /// Are unsupported operations left to the legacy backend?
    pub fallback_to_legacy: bool,
}

/// Most tasks at a time, where the number of processors is not known.
pub const FALLBACK_MAX_TASKS: usize = 8;

/// Workers, where the number of processors is not known.
pub const FALLBACK_PARALLELISM: usize = 4;

impl SwagConfig {
    pub open spec fn preset(max_tasks: usize) -> SwagConfig {
        SwagConfig {
            ordering: StreamOrdering::InOrder,
            fifo_algorithm: FifoAlgorithm::TwoStacksLite,
            ooo_algorithm: OooAlgorithm::Reactive,
            parallel_mode: ParallelMode::KeyPartitionedOnly,
            split_threshold: 1000,
            max_tasks,
            exponential_split: true,
            use_ctrie_snapshots: true,
            fallback_to_legacy: true,
        }
    }

    /// The default settings on a machine with this many processors: two tasks
    /// for each of them.
    pub fn for_processors(processors: Option<usize>) -> (r: Self)
        requires
            processors matches Some(n) ==> n * 2 <= usize::MAX,
        ensures
            r == SwagConfig::preset(
                match processors {
                    Some(n) => (n * 2) as usize,
                    None => FALLBACK_MAX_TASKS,
                },
            ),
    {
        let max_tasks: usize = match processors {
            Some(n) => n * 2,
            None => FALLBACK_MAX_TASKS,
        };
        SwagConfig {
            ordering: StreamOrdering::InOrder,
            fifo_algorithm: FifoAlgorithm::TwoStacksLite,
            ooo_algorithm: OooAlgorithm::Reactive,
            parallel_mode: ParallelMode::KeyPartitionedOnly,
            split_threshold: 1000,
            max_tasks,
            exponential_split: true,
            use_ctrie_snapshots: true,
            fallback_to_legacy: true,
        }
    }
}

impl Default for SwagConfig {
    fn default() -> (r: Self)
        ensures
            r == SwagConfig::preset(FALLBACK_MAX_TASKS),
    {
        Self::for_processors(None)
    }
}

/// Settings for parallel execution.
#[derive(Clone, Debug)]
pub struct ParallelExecutionConfig {
    /// Number of workers.
    pub parallelism: usize,
    /// Elements that each worker prefetches.
    pub prefetch: usize,
    /// Are large streams spread over the workers?
    pub auto_parallelize: bool,
    /// Size from which a stream is large.
    pub min_stream_size: usize,
    pub aggregation_backend: AggregationBackend,
    pub swag_config: SwagConfig,
}

impl ParallelExecutionConfig {
    pub open spec fn preset(parallelism: usize, max_tasks: usize) -> ParallelExecutionConfig {
        ParallelExecutionConfig {
            parallelism,
            prefetch: 256,
            auto_parallelize: true,
            min_stream_size: 1000,
            aggregation_backend: AggregationBackend::Legacy,
            swag_config: SwagConfig::preset(max_tasks),
        }
    }

    /// The default settings on a machine with this many processors: one worker
    /// for each of them.
    pub fn for_processors(processors: Option<usize>) -> (r: Self)
        requires
            processors matches Some(n) ==> n * 2 <= usize::MAX,
        ensures
            r == match processors {
                Some(n) => ParallelExecutionConfig::preset(n, (n * 2) as usize),
                None => ParallelExecutionConfig::preset(FALLBACK_PARALLELISM, FALLBACK_MAX_TASKS),
            },
    {
        let parallelism: usize = match processors {
            Some(n) => n,
            None => FALLBACK_PARALLELISM,
        };
        ParallelExecutionConfig {
            parallelism,
            prefetch: 256,
            auto_parallelize: true,
            min_stream_size: 1000,
            aggregation_backend: AggregationBackend::Legacy,
            swag_config: SwagConfig::for_processors(processors),
        }
    }

    /// A builder that starts from the defaults.
    pub fn builder() -> (r: ParallelExecutionConfigBuilder)
        ensures
            r.config == ParallelExecutionConfig::preset(FALLBACK_PARALLELISM, FALLBACK_MAX_TASKS),
    {
        ParallelExecutionConfigBuilder::default()
    }

    /// Is a stream of this size spread over the workers?
    pub fn should_parallelize(&self, stream_size: usize) -> (r: bool)
        ensures
            r == (self.auto_parallelize && stream_size >= self.min_stream_size),
    {
        self.auto_parallelize && stream_size >= self.min_stream_size
    }
}

impl Default for ParallelExecutionConfig {
    fn default() -> (r: Self)
        ensures
            r == ParallelExecutionConfig::preset(FALLBACK_PARALLELISM, FALLBACK_MAX_TASKS),
    {
        Self::for_processors(None)
    }
}

/// Builds settings step by step.
pub struct ParallelExecutionConfigBuilder {
    pub config: ParallelExecutionConfig,
}

impl Default for ParallelExecutionConfigBuilder {
    fn default() -> (r: Self)
        ensures
            r.config == ParallelExecutionConfig::preset(FALLBACK_PARALLELISM, FALLBACK_MAX_TASKS),
    {
        ParallelExecutionConfigBuilder { config: ParallelExecutionConfig::default() }
    }
}

impl ParallelExecutionConfigBuilder {
    pub fn parallelism(self, parallelism: usize) -> (r: Self)
        ensures
            r.config == (ParallelExecutionConfig { parallelism, ..self.config }),
    {
        let mut config = self.config;
        config.parallelism = parallelism;
        ParallelExecutionConfigBuilder { config }
    }

    pub fn prefetch(self, prefetch: usize) -> (r: Self)
        ensures
            r.config == (ParallelExecutionConfig { prefetch, ..self.config }),
    {
        let mut config = self.config;
        config.prefetch = prefetch;
        ParallelExecutionConfigBuilder { config }
    }

    pub fn auto_parallelize(self, auto: bool) -> (r: Self)
        ensures
            r.config == (ParallelExecutionConfig { auto_parallelize: auto, ..self.config }),
    {
        let mut config = self.config;
        config.auto_parallelize = auto;
        ParallelExecutionConfigBuilder { config }
    }

    pub fn min_stream_size(self, min: usize) -> (r: Self)
        ensures
            r.config == (ParallelExecutionConfig { min_stream_size: min, ..self.config }),
    {
        let mut config = self.config;
        config.min_stream_size = min;
        ParallelExecutionConfigBuilder { config }
    }

    pub fn aggregation_backend(self, backend: AggregationBackend) -> (r: Self)
        ensures
            r.config == (ParallelExecutionConfig { aggregation_backend: backend, ..self.config }),
    {
        let mut config = self.config;
        config.aggregation_backend = backend;
        ParallelExecutionConfigBuilder { config }
    }

    pub fn swag_config(self, config: SwagConfig) -> (r: Self)
        ensures
            r.config == (ParallelExecutionConfig { swag_config: config, ..self.config }),
    {
        let mut all = self.config;
        all.swag_config = config;
        ParallelExecutionConfigBuilder { config: all }
    }

    pub fn build(self) -> (r: ParallelExecutionConfig)
        ensures
            r == self.config,
    {
        self.config
    }
}

} // verus!
