//! An intrusive, low-overhead call-tree profiler.
//!
//! Instrumented code appends paired enter/leave events into a per-context
//! [`log::EventLog`]; after a run, the log is replayed to reconstruct the
//! call tree and produce weighted path lines for a flame-graph renderer.

use vstd::prelude::*;

pub mod laws;
pub mod log;
pub mod replay;
pub mod tag;
pub mod text;
pub mod time;

pub use log::{clear, end, start, start_guard, Event, EventData, EventLog, SpanGuard, Start};
pub use replay::{format_start, inferno_valid_chars, lines, replay_lines, Line, Mode, ReplayError};
pub use tag::FmtStr;
pub use time::TimeSample;

verus! {

/// Whether profiling support is compiled in. This build always records.
pub fn enabled() -> (r: bool)
    ensures
        r == true,
{
    true
}

} // verus!
