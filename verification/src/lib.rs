//! Batching and dispatch core of a self-play pipeline: many game-search
//! generators submit evaluation requests, a few accelerator-bound executors
//! answer them in batches.
//!
//! The crate holds what the pipeline decides, proved against what it is
//! meant to do. It never waits: where a generator or an executor has to
//! wait, its step says so, and the caller parks the task or the thread.
//!
//! - `protocol`: the sizing of a device and the values shared by all parts.
//! - `job_channel`: the bounded channel that pairs each request with one
//!   response.
//! - `executor`: forming batches, swapping graphs, answering a batch.
//! - `generator`: adopting settings, submitting a request, resuming.
//! - `update_slot`: the single-slot channels for live updates.
//! - `thread_names`: the names of a device's workers and threads.
//! - `server_alphazero`: laying out the pipeline of one device.
//! - `pipeline`: the pipeline as a whole, and what holds throughout its run.
//! - `laws`: what holds of the channel, the executors and the generators
//!   over whole runs.

pub mod executor;
pub mod generator;
pub mod job_channel;
pub mod laws;
pub mod pipeline;
pub mod protocol;
pub mod server_alphazero;
pub mod thread_names;
pub mod update_slot;
