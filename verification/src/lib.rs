//! Timing and benchmarking.
//!
//! Measurements are taken with [`Timings`], travel over a channel, and end in
//! [`MetricSummaries`]: statistics by metric and label. A [`Benchmark`] says which implementations
//! are measured, with which configurations and on how many threads, and a [`ThreadSync`] lets those
//! threads start together.
//!
//! Clocks and threads are not to be found here. Functions that need an instant take it as
//! nanoseconds, and where threads have to be started or waited for, the library says what to do and
//! is told what came of it.
pub mod benchmark;
pub mod channel;
pub mod collect;
pub mod collect_laws;
pub mod cores;
pub mod ends;
pub mod formatting;
pub mod label;
pub mod label_laws;
pub mod machine;
pub mod order;
pub mod received_laws;
pub mod shared;
pub mod sorted;
pub mod stats;
pub mod sync;
pub mod sync_laws;
pub mod timing;
pub mod timing_laws;
pub mod wide;

pub use crate::benchmark::{Action, Benchmark, Schedule};
pub use crate::collect::{
    collect, stats_thread, CollectError, Measurement, MetricSummaries, MetricSummary,
};
pub use crate::ends::{Inlet, Received, Refused, Sent};
pub use crate::label::Label;
pub use crate::machine::Listed;
pub use crate::shared::{Claimed, Missed};
pub use crate::sorted::SortedMap;
pub use crate::stats::MetricStats;
pub use crate::sync::{StartTimeout, ThreadSignal, ThreadSync};
pub use crate::timing::{FinishError, LabeledTimings, Timing, Timings, WaitError};
