use vstd::prelude::*;

use crate::analysis::replay::{
    all_well_nested, analyzable, calls_of, capture_spans, completed, duration_between,
    first_seen, fits, lemma_capture_grows, lemma_completed_grows, lemma_first_seen,
    lemma_tally_concat, max_of, min_of, open_calls, summarize, summary_table, total_of,
    unmatched_at, well_nested, OpenCall, Span,
};
use crate::analysis::laws::lemma_one_row_per_function;
use crate::analysis::report::{render, report_text};
use crate::analysis::{
    stats_view, AnalysisError, FrameAnalyzer, FuncAnalysis, FunctionStats, Sort, Unit,
};
use crate::profiler::{EventView, Frame, Frames, Operation};
use crate::serialization::StaticStr;
use crate::text::same_text;

verus! {

/// The position of the aggregate of `name` among `entries`, if there is one.
fn find_entry(entries: &Vec<FuncAnalysis>, name: &str) -> (found: Option<usize>)
    ensures
        match found {
            Some(k) => k < entries@.len() && entries@[k as int].name@ == name@,
            None => forall|k: int| 0 <= k < entries@.len() ==> entries@[k].name@ != name@,
        },
{
    let mut k: usize = 0;
    while k < entries.len()
        invariant
            k <= entries@.len(),
            forall|m: int| 0 <= m < k ==> entries@[m].name@ != name@,
        decreases entries@.len() - k,
    {
        if same_text(entries[k].name.as_str(), name) {
            return Some(k);
        }
        k += 1;
    }
    None
}

/// `entry` is the running aggregate of `name` over `spans`: everything but
/// the average, which is computed once at the end.
spec fn tallies_name(entry: FuncAnalysis, spans: Seq<Span>, name: Seq<char>) -> bool {
    &&& entry.name@ == name
    &&& entry.calls == calls_of(spans, name)
    &&& entry.total_time == total_of(spans, name)
    &&& entry.min_time == min_of(spans, name)
    &&& entry.max_time == max_of(spans, name)
    &&& entry.average_time == 0
}

/// `entries` holds the running aggregate of each function of `spans`, in the
/// order of first completion.
spec fn tallies(entries: Seq<FuncAnalysis>, spans: Seq<Span>) -> bool {
    &&& entries.len() == first_seen(spans).len()
    &&& forall|k: int|
        0 <= k < entries.len() ==> tallies_name(#[trigger] entries[k], spans, first_seen(spans)[k])
}

/// The open calls that a stack of names and start times stands for.
spec fn stack_view(stack: Seq<(StaticStr, u128)>) -> Seq<OpenCall> {
    stack.map_values(|c: (StaticStr, u128)| OpenCall { name: c.0@, started: c.1 })
}

/// Adds one completed call to the running aggregates.
fn record(
    entries: &mut Vec<FuncAnalysis>,
    name: StaticStr,
    duration: u128,
    Ghost(spans): Ghost<Seq<Span>>,
) -> (result: Result<(), AnalysisError>)
    requires
        tallies(old(entries)@, spans),
    ensures
        match result {
            Ok(()) => tallies(final(entries)@, spans.push(Span { name: name@, duration })),
            Err(e) => {
                let next = spans.push(Span { name: name@, duration });
                &&& e == AnalysisError::Overflow
                &&& calls_of(next, name@) > u32::MAX || total_of(next, name@) > u128::MAX
            },
        },
{
    let ghost next = spans.push(Span { name: name@, duration });
    let ghost names = first_seen(spans);
    proof {
        lemma_first_seen(spans);
        assert(next.drop_last() =~= spans);
        assert(forall|k: int| 0 <= k < names.len() ==> old(entries)@[k].name@ == names[k]);
    }
    match find_entry(entries, name.as_str()) {
        Some(k) => {
            let entry = entries[k];
            proof {
                assert(names[k as int] == name@);
                assert(names.contains(name@));
                assert(first_seen(next) == names);
            }
            let calls = match entry.calls.checked_add(1) {
                Some(calls) => calls,
                None => {
                    return Err(AnalysisError::Overflow);
                },
            };
            let total_time = match entry.total_time.checked_add(duration) {
                Some(total_time) => total_time,
                None => {
                    return Err(AnalysisError::Overflow);
                },
            };
            let max_time = if duration > entry.max_time {
                duration
            } else {
                entry.max_time
            };
            let min_time = if duration < entry.min_time {
                duration
            } else {
                entry.min_time
            };
            entries.set(
                k,
                FuncAnalysis {
                    name: entry.name,
                    calls,
                    total_time,
                    average_time: 0,
                    min_time,
                    max_time,
                },
            );
            proof {
                assert forall|m: int| 0 <= m < entries@.len() implies tallies_name(
                    #[trigger] entries@[m],
                    next,
                    first_seen(next)[m],
                ) by {
                    if m != k {
                        assert(names[m] != names[k as int]);
                        assert(entries@[m] == old(entries)@[m]);
                    }
                }
            }
            Ok(())
        },
        None => {
            proof {
                if names.contains(name@) {
                    let k = choose|k: int| 0 <= k < names.len() && names[k] == name@;
                    assert(old(entries)@[k].name@ == name@);
                }
                assert(first_seen(next) == names.push(name@));
            }
            entries.push(
                FuncAnalysis {
                    name,
                    calls: 1,
                    total_time: duration,
                    average_time: 0,
                    min_time: duration,
                    max_time: duration,
                },
            );
            proof {
                assert forall|m: int| 0 <= m < entries@.len() implies tallies_name(
                    #[trigger] entries@[m],
                    next,
                    first_seen(next)[m],
                ) by {
                    assert(first_seen(next)[m] == names.push(name@)[m]);
                    if m < names.len() {
                        assert(entries@[m] == old(entries)@[m]);
                        assert(names.contains(names[m]));
                        assert(names[m] != name@);
                    } else {
                        assert(calls_of(spans, name@) == 0);
                        assert(total_of(spans, name@) == 0);
                        assert(min_of(spans, name@) == u128::MAX);
                        assert(max_of(spans, name@) == 0);
                    }
                }
            }
            Ok(())
        },
    }
}

/// The first `Return` of the frame that finds no call open, if there is one.
fn first_unmatched(frame: &Frame) -> (found: Option<usize>)
    ensures
        match found {
            Some(at) => unmatched_at(frame@, at as int),
            None => well_nested(frame@),
        },
{
    let mut depth: usize = 0;
    let mut j: usize = 0;
    while j < frame.calls.len()
        invariant
            j <= frame@.len(),
            frame@.len() == frame.calls@.len(),
            depth <= j,
            depth == open_calls(frame@.take(j as int)).len(),
            forall|at: int| 0 <= at < j ==> !unmatched_at(frame@, at),
        decreases frame@.len() - j,
    {
        proof {
            assert(frame@.take(j + 1).drop_last() =~= frame@.take(j as int));
            assert(frame@[j as int] == frame.calls@[j as int]@);
        }
        match frame.calls[j].op {
            Operation::Call(_) => {
                depth += 1;
            },
            Operation::Return => {
                if depth == 0 {
                    return Some(j);
                }
                depth -= 1;
            },
        }
        j += 1;
    }
    None
}

/// Whether every frame of the capture is well nested.
fn check_nesting(frames: &Frames) -> (nested: bool)
    ensures
        nested == all_well_nested(frames@),
{
    let mut i: usize = 0;
    while i < frames.0.len()
        invariant
            i <= frames@.len(),
            frames@.len() == frames.0@.len(),
            forall|m: int| 0 <= m < i ==> well_nested(#[trigger] frames@[m]),
        decreases frames@.len() - i,
    {
        assert(frames@[i as int] == frames.0@[i as int]@);
        if first_unmatched(&frames.0[i]).is_some() {
            return false;
        }
        i += 1;
    }
    true
}

/// Replays every frame with an explicit stack and aggregates the completed
/// calls by function.
fn accumulate(frames: &Frames) -> (result: Result<Vec<FuncAnalysis>, AnalysisError>)
    requires
        all_well_nested(frames@),
    ensures
        match result {
            Ok(entries) => fits(capture_spans(frames@)) && tallies(
                entries@,
                capture_spans(frames@),
            ),
            Err(e) => e == AnalysisError::Overflow && !fits(capture_spans(frames@)),
        },
{
    let mut entries: Vec<FuncAnalysis> = Vec::new();
    let mut i: usize = 0;
    while i < frames.0.len()
        invariant
            i <= frames@.len(),
            frames@.len() == frames.0@.len(),
            all_well_nested(frames@),
            tallies(entries@, capture_spans(frames@.take(i as int))),
        decreases frames@.len() - i,
    {
        let frame = &frames.0[i];
        let ghost before = capture_spans(frames@.take(i as int));
        let mut stack: Vec<(StaticStr, u128)> = Vec::new();
        let mut j: usize = 0;
        proof {
            assert(frames@[i as int] == frame@);
            assert(before + completed(frame@.take(0)) =~= before);
        }
        while j < frame.calls.len()
            invariant
                j <= frame@.len(),
                frame@.len() == frame.calls@.len(),
                0 <= i < frames@.len(),
                frames@[i as int] == frame@,
                before == capture_spans(frames@.take(i as int)),
                well_nested(frame@),
                stack_view(stack@) == open_calls(frame@.take(j as int)),
                tallies(entries@, before + completed(frame@.take(j as int))),
            decreases frame@.len() - j,
        {
            let event = frame.calls[j];
            let ghost so_far = before + completed(frame@.take(j as int));
            proof {
                assert(frame@.take(j + 1).drop_last() =~= frame@.take(j as int));
                assert(frame@[j as int] == event@);
            }
            match event.op {
                Operation::Call(name) => {
                    stack.push((name, event.timestamp));
                    assert(stack_view(stack@) =~= open_calls(frame@.take(j + 1)));
                },
                Operation::Return => {
                    proof {
                        assert(!unmatched_at(frame@, j as int));
                        assert(stack_view(stack@).len() == stack@.len());
                    }
                    let ghost top = stack_view(stack@).last();
                    let (name, started) = stack.pop().unwrap();
                    let duration = event.timestamp.saturating_sub(started);
                    proof {
                        assert(top == OpenCall { name: name@, started });
                        assert(stack_view(stack@) =~= open_calls(frame@.take(j + 1)));
                        assert(duration == duration_between(started, event.timestamp));
                        assert(before + completed(frame@.take(j + 1)) =~= so_far.push(
                            Span { name: name@, duration },
                        ));
                    }
                    match record(&mut entries, name, duration, Ghost(so_far)) {
                        Ok(()) => {},
                        Err(e) => {
                            proof {
                                let next = so_far.push(Span { name: name@, duration });
                                let whole = capture_spans(frames@);
                                let frame_spans = completed(frame@);
                                assert(frame@.take(frame@.len() as int) =~= frame@);
                                assert(frames@.take(frames@.len() as int) =~= frames@);
                                assert(frames@.take(i + 1).drop_last() =~= frames@.take(i as int));
                                lemma_completed_grows(frame@, j + 1, frame@.len() as int, name@);
                                lemma_tally_concat(before, completed(frame@.take(j + 1)), name@);
                                lemma_tally_concat(before, frame_spans, name@);
                                lemma_capture_grows(
                                    frames@,
                                    i + 1,
                                    frames@.len() as int,
                                    name@,
                                );
                                assert(calls_of(whole, name@) > u32::MAX || total_of(whole, name@)
                                    > u128::MAX);
                            }
                            return Err(e);
                        },
                    }
                },
            }
            j += 1;
        }
        proof {
            assert(frame@.take(j as int) =~= frame@);
            assert(frames@.take(i + 1).drop_last() =~= frames@.take(i as int));
        }
        i += 1;
    }
    proof {
        let whole = capture_spans(frames@);
        assert(frames@.take(i as int) =~= frames@);
        lemma_first_seen(whole);
        assert forall|name: Seq<char>|
            #![trigger calls_of(whole, name)]
            #![trigger total_of(whole, name)]
            calls_of(whole, name) <= u32::MAX && total_of(whole, name) <= u128::MAX by {
            if first_seen(whole).contains(name) {
                let k = choose|k: int| 0 <= k < first_seen(whole).len() && first_seen(whole)[k]
                    == name;
                assert(tallies_name(entries@[k], whole, name));
            } else {
                assert(!(calls_of(whole, name) > 0));
            }
        }
    }
    Ok(entries)
}

/// Computes each average, once, from the final total and count.
fn average(entries: Vec<FuncAnalysis>, Ghost(spans): Ghost<Seq<Span>>) -> (rows: Vec<FuncAnalysis>)
    requires
        tallies(entries@, spans),
    ensures
        stats_view(rows@) == summary_table(spans),
{
    let mut rows = entries;
    let mut k: usize = 0;
    proof {
        lemma_first_seen(spans);
    }
    while k < rows.len()
        invariant
            k <= rows@.len(),
            rows@.len() == first_seen(spans).len(),
            forall|name: Seq<char>|
                first_seen(spans).contains(name) <==> #[trigger] calls_of(spans, name) > 0,
            forall|m: int|
                0 <= m < k ==> (#[trigger] rows@[m])@ == summarize(spans, first_seen(spans)[m]),
            forall|m: int|
                k <= m < rows@.len() ==> tallies_name(
                    #[trigger] rows@[m],
                    spans,
                    first_seen(spans)[m],
                ),
        decreases rows@.len() - k,
    {
        let entry = rows[k];
        proof {
            assert(tallies_name(entry, spans, first_seen(spans)[k as int]));
            assert(first_seen(spans).contains(first_seen(spans)[k as int]));
            assert(calls_of(spans, entry.name@) > 0);
        }
        rows.set(
            k,
            FuncAnalysis {
                name: entry.name,
                calls: entry.calls,
                total_time: entry.total_time,
                average_time: entry.total_time / (entry.calls as u128),
                min_time: entry.min_time,
                max_time: entry.max_time,
            },
        );
        k += 1;
    }
    assert(stats_view(rows@) =~= summary_table(spans));
    rows
}

/// The statistics of every function of a capture, with the key and the
/// unit of the report to come.
pub struct GlobalAnalyzer {
    entries: Vec<FuncAnalysis>,
    sort_by: Sort,
    unit: Unit,
}

/// The mathematical value of a [`GlobalAnalyzer`].
pub struct GlobalAnalyzerView {
    /// One aggregate per function, in the order of first completion.
    pub rows: Seq<FunctionStats>,
    pub sort_by: Sort,
    pub unit: Unit,
}

impl View for GlobalAnalyzer {
    type V = GlobalAnalyzerView;

    closed spec fn view(&self) -> GlobalAnalyzerView {
        GlobalAnalyzerView {
            rows: stats_view(self.entries@),
            sort_by: self.sort_by,
            unit: self.unit,
        }
    }
}

/// No two rows are rows of one function.
pub open spec fn one_row_per_name(rows: Seq<FunctionStats>) -> bool {
    forall|a: int, b: int| 0 <= a < b < rows.len() ==> rows[a].name != rows[b].name
}

/// What the analysis of a capture is before any setter is called: the
/// summary table, to be sorted by total time and shown in milliseconds.
pub open spec fn analysis_of(frames: Seq<Seq<EventView>>) -> GlobalAnalyzerView {
    GlobalAnalyzerView {
        rows: summary_table(capture_spans(frames)),
        sort_by: Sort::TotalTime,
        unit: Unit::Millisecond,
    }
}

impl GlobalAnalyzer {
    /// Analyses a capture that may be damaged: fails where a `Return` has no
    /// call to close, or where an aggregate does not fit its integer type.
    pub fn try_new(frames: Frames) -> (result: Result<GlobalAnalyzer, AnalysisError>)
        ensures
            match result {
                Ok(analyzer) => {
                    &&& analyzable(frames@)
                    &&& analyzer@ == analysis_of(frames@)
                    &&& one_row_per_name(analyzer@.rows)
                },
                Err(AnalysisError::IntegrityFault) => !all_well_nested(frames@),
                Err(AnalysisError::Overflow) => all_well_nested(frames@) && !fits(
                    capture_spans(frames@),
                ),
            },
    {
        if !check_nesting(&frames) {
            return Err(AnalysisError::IntegrityFault);
        }
        match accumulate(&frames) {
            Ok(entries) => {
                let entries = average(entries, Ghost(capture_spans(frames@)));
                proof {
                    lemma_one_row_per_function(capture_spans(frames@));
                }
                Ok(GlobalAnalyzer { entries, sort_by: Sort::TotalTime, unit: Unit::Millisecond })
            },
            Err(e) => Err(e),
        }
    }

    /// The aggregates, one per function, in the order of first completion.
    pub fn entries(&self) -> (entries: &Vec<FuncAnalysis>)
        ensures
            stats_view(entries@) == self@.rows,
    {
        &self.entries
    }

    /// The aggregate of the function `name`, if it completed a call.
    pub fn get(&self, name: &str) -> (found: Option<FuncAnalysis>)
        ensures
            match found {
                Some(entry) => entry@.name == name@ && self@.rows.contains(entry@),
                None => forall|k: int| 0 <= k < self@.rows.len() ==> self@.rows[k].name != name@,
            },
    {
        match find_entry(&self.entries, name) {
            Some(k) => {
                assert(stats_view(self.entries@)[k as int] == self.entries@[k as int]@);
                Some(self.entries[k])
            },
            None => {
                assert forall|k: int| 0 <= k < self@.rows.len() implies self@.rows[k].name
                    != name@ by {
                    assert(self@.rows[k] == self.entries@[k]@);
                }
                None
            },
        }
    }

    /// Chooses the key by which the report orders its rows.
    pub fn set_sort(&mut self, sort_by: Sort)
        ensures
            final(self)@ == (GlobalAnalyzerView { sort_by, ..old(self)@ }),
    {
        self.sort_by = sort_by;
    }

    /// Chooses the unit in which the report shows durations.
    pub fn set_unit(&mut self, unit: Unit)
        ensures
            final(self)@ == (GlobalAnalyzerView { unit, ..old(self)@ }),
    {
        self.unit = unit;
    }
}

impl FrameAnalyzer for GlobalAnalyzer {
    open spec fn accepts(frames: Seq<Seq<EventView>>) -> bool {
        analyzable(frames)
    }

    /// Analyses a capture whose frames are well nested: one row for each
    /// function that completed a call.
    fn new(frames: Frames) -> (analyzer: GlobalAnalyzer)
        ensures
            analyzer@ == analysis_of(frames@),
            one_row_per_name(analyzer@.rows),
    {
        match accumulate(&frames) {
            Ok(entries) => {
                let entries = average(entries, Ghost(capture_spans(frames@)));
                proof {
                    lemma_one_row_per_function(capture_spans(frames@));
                }
                GlobalAnalyzer { entries, sort_by: Sort::TotalTime, unit: Unit::Millisecond }
            },
            Err(_) => vstd::pervasive::unreached(),
        }
    }

    /// The report: the header line, then one line per function, sorted by
    /// the chosen key, durations shown in the chosen unit.
    fn analyze(self) -> (report: String)
        ensures
            report@ == report_text(self@.rows, self@.sort_by, self@.unit),
    {
        render(&self.entries, self.sort_by, self.unit)
    }
}

} // verus!
