//! Debounces a stream of resource changes into periodic configuration flushes.
//!
//! `dispatcher` turns watch notifications into commands and closes the
//! command stream exactly once; `batcher` accumulates enqueued resources and
//! decides when the pending batch is flushed, draining it on shutdown.
use vstd::prelude::*;

pub mod batcher;
pub mod dispatcher;

verus! {

} // verus!
