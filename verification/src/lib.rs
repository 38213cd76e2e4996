use vstd::prelude::*;

pub mod budgets;
pub mod cleanup;
pub mod codec;
pub mod contentcodec;
pub mod contentarchive;
pub mod contentcompact;
pub mod contentsegment;
pub mod contentmerge;
pub mod contentrecover;
pub mod contentset;
pub mod diagnostics;
pub mod dictionary;
pub mod duration;
pub mod durable;
pub mod error;
pub mod ids;
pub mod escape;
pub mod fuzzyarchive;
pub mod manifest;
pub mod metadata;
pub mod order;
pub mod paths;
pub mod postings;
pub mod probes;
pub mod promotion;
pub mod rebuild;
pub mod records;
pub mod schema;
pub mod sidecar;
pub mod telemetry;
pub mod termarchive;
pub mod termindex;
pub mod terms;
pub mod text;
pub mod types;

pub use budgets::{
    BudgetEvaluation, BudgetViolation, LatencyBudget, Percentile, PerformanceBudgets,
    ScenarioBudget, ScenarioMetric,
};
pub use duration::Duration;
pub use telemetry::{
    time, Bucket, FrameStall, FrameTiming, FrameTimingSummary, Histogram, HistogramSummary,
    LatencyMetric, Metrics, Telemetry, Timer,
};

verus! {

} // verus!
