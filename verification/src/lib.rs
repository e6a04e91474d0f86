//! An in-process call-tree profiler.
//!
//! Instrumented code records "enter" and "exit" events into a [`profiler::Profiler`];
//! the finished capture is replayed by [`analysis::global::GlobalAnalyzer`] into
//! per-function call counts and duration statistics, which can be sorted and
//! rendered as a table. The crate is verified with Verus; the few items that are
//! taken on trust, all of them calls into the standard library, postcard or
//! serde, say so where they are declared.

pub mod analysis;
pub mod label;
pub mod pre_hashed;
pub mod profiler;
pub mod serialization;
pub mod text;
pub mod wire;
