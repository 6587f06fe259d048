//! Chrome Trace Event output for a sampling profiler.
//!
//! A sampler periodically captures, per thread, the thread's current call
//! stack.  This crate turns that stream of snapshots into compact nested
//! Begin/End interval events in the Trace Event Format understood by
//! Chrome/Perfetto-style timeline viewers: consecutive samples that share a
//! stack segment are merged into one long interval instead of one event per
//! sample.
//!
//! The core is [`Chrometrace`]: it remembers the last sample per thread,
//! computes where two consecutive stacks diverge, and emits exactly the End
//! and Begin events needed to keep the open intervals properly nested.

mod engine;
mod event;
mod ext;
mod laws;
mod trace;

pub use engine::Chrometrace;
pub use event::{Args, ArgsModel, Event, EventModel, Phase};
pub use trace::{Frame, FrameModel, StackTrace, TraceModel};
