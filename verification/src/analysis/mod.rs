pub mod global;
pub mod laws;
pub mod replay;
pub mod report;

use vstd::prelude::*;

use crate::profiler::{EventView, Frames};
use crate::serialization::StaticStr;

verus! {

/// The key by which a report orders its rows. The name keys order by the
/// text of the name; every numeric key puts the largest value first.
#[derive(Clone, Copy, Debug, PartialEq, Eq)]
pub enum Sort {
    NameAscending,
    NameDescending,
    TotalTime,
    MinTime,
    MaxTime,
    AverageTime,
    Calls,
}

/// The unit in which a report shows durations. Durations are stored in
/// nanoseconds.
#[derive(Clone, Copy, Debug, PartialEq, Eq)]
pub enum Unit {
    Second,
    Millisecond,
    Microsecond,
    Nanosecond,
}

/// The aggregate of all completed calls of one function.
#[derive(Clone, Copy, Debug)]
pub struct FuncAnalysis {
    pub name: StaticStr,
    pub calls: u32,
    pub total_time: u128,
    pub average_time: u128,
    pub min_time: u128,
    pub max_time: u128,
}

/// The mathematical value of a [`FuncAnalysis`].
pub struct FunctionStats {
    pub name: Seq<char>,
    pub calls: nat,
    pub total_time: nat,
    pub average_time: nat,
    pub min_time: nat,
    pub max_time: nat,
}

impl View for FuncAnalysis {
    type V = FunctionStats;

    open spec fn view(&self) -> FunctionStats {
        FunctionStats {
            name: self.name@,
            calls: self.calls as nat,
            total_time: self.total_time as nat,
            average_time: self.average_time as nat,
            min_time: self.min_time as nat,
            max_time: self.max_time as nat,
        }
    }
}

/// The views of a sequence of aggregates, in order.
pub open spec fn stats_view(entries: Seq<FuncAnalysis>) -> Seq<FunctionStats> {
    entries.map_values(|e: FuncAnalysis| e@)
}

/// Why a capture cannot be analysed.
#[derive(Clone, Copy, Debug, PartialEq, Eq)]
pub enum AnalysisError {
    /// Some frame holds a `Return` with no call left open before it.
    IntegrityFault,
    /// Some function has more completed calls than a `u32` counts, or a
    /// total duration beyond `u128`.
    Overflow,
}

/// An analysis of a finished capture that renders itself as a report.
pub trait FrameAnalyzer: Sized {
    /// Whether `new` accepts the capture.
    spec fn accepts(frames: Seq<Seq<EventView>>) -> bool;

    /// Analyses the capture.
    fn new(frames: Frames) -> (analyzer: Self)
        requires
            Self::accepts(frames@),
    ;

    /// The report, one line per function under a header line.
    fn analyze(self) -> (report: String);
}

} // verus!
