//! In-memory ingestion and aggregation engine for mining-worker telemetry.
//!
//! Workers submit periodic [`report::WorkerReport`] samples; each sample is
//! validated before it enters the append-only [`store::ReportStore`]. On
//! demand, [`stats::aggregate`] computes per-pool statistics over the trailing
//! time window: the number of distinct workers and the averaged hashrate and
//! temperature, each rounded to one decimal place.
//!
//! Hashrates are carried as fixed-point integers in thousandths of a unit
//! (milli-units), and the rounded averages as integers in tenths of a unit, so
//! that every quantity the engine computes has exact arithmetic meaning.

pub mod report;
pub mod stats;
pub mod store;
