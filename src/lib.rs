//! Batch video compression: a pool of workers drains a queue of input files
//! and runs the external transcoder on each, recording every outcome.
//!
//! - [`scale`]: the resize factor as an exact decimal, and the even-dimension rule.
//! - [`path`]: where each output goes, and the label shown for an item.
//! - [`invoke`]: the transcoder's command line, and how its exit is read.
//! - [`dispatch`]: the shared work queue and outcome records, and the run's summary.
//! - [`job`]: the job's configuration, its validation, and the start of a run.
pub mod dispatch;
pub mod invoke;
pub mod job;
pub mod path;
pub mod scale;
