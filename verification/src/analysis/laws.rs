use vstd::prelude::*;

use crate::analysis::replay::{
    all_well_nested, analyzable, calls_of, capture_spans, completed, duration_between,
    first_seen, fits, lemma_first_seen, max_of, min_of, open_calls, summarize, summary_table,
    total_of, well_nested, Span,
};
use crate::analysis::FunctionStats;
use crate::profiler::{EventView, OperationView};

verus! {

/// The number of `Call` events among the events.
pub open spec fn call_events(events: Seq<EventView>) -> nat
    decreases events.len(),
{
    if events.len() == 0 {
        0
    } else if events.last().op is Call {
        call_events(events.drop_last()) + 1
    } else {
        call_events(events.drop_last())
    }
}

/// The number of `Call` events in a capture.
pub open spec fn capture_call_events(frames: Seq<Seq<EventView>>) -> nat
    decreases frames.len(),
{
    if frames.len() == 0 {
        0
    } else {
        capture_call_events(frames.drop_last()) + call_events(frames.last())
    }
}

/// The frame is well nested and leaves no call open: every call is left
/// again within the frame, the innermost first.
pub open spec fn balanced(events: Seq<EventView>) -> bool {
    well_nested(events) && open_calls(events).len() == 0
}

/// The sum of the call counts of the rows.
pub open spec fn total_calls(rows: Seq<FunctionStats>) -> nat
    decreases rows.len(),
{
    if rows.len() == 0 {
        0
    } else {
        total_calls(rows.drop_last()) + rows.last().calls
    }
}

/// The sum over `names` of the completed calls of each name.
spec fn calls_of_names(spans: Seq<Span>, names: Seq<Seq<char>>) -> nat
    decreases names.len(),
{
    if names.len() == 0 {
        0
    } else {
        calls_of_names(spans, names.drop_last()) + calls_of(spans, names.last())
    }
}

/// Every call of a frame is either still open or completed.
proof fn lemma_calls_open_or_completed(events: Seq<EventView>)
    ensures
        open_calls(events).len() + completed(events).len() == call_events(events),
    decreases events.len(),
{
    if events.len() > 0 {
        lemma_calls_open_or_completed(events.drop_last());
    }
}

/// One more completed call adds one to the sum over distinct names that
/// hold its name, and nothing to the sum over names that do not.
proof fn lemma_calls_of_names_push(spans: Seq<Span>, span: Span, names: Seq<Seq<char>>)
    requires
        forall|a: int, b: int| 0 <= a < b < names.len() ==> names[a] != names[b],
    ensures
        calls_of_names(spans.push(span), names) == calls_of_names(spans, names) + if names.contains(
            span.name,
        ) {
            1nat
        } else {
            0nat
        },
    decreases names.len(),
{
    assert(spans.push(span).drop_last() =~= spans);
    if names.len() > 0 {
        let shorter = names.drop_last();
        lemma_calls_of_names_push(spans, span, shorter);
        if shorter.contains(span.name) {
            let k = choose|k: int| 0 <= k < shorter.len() && shorter[k] == span.name;
            assert(names[k] == span.name);
            assert(names.last() != span.name);
        } else if names.last() != span.name {
            if names.contains(span.name) {
                let k = choose|k: int| 0 <= k < names.len() && names[k] == span.name;
                assert(shorter[k] == span.name);
            }
        } else {
            assert(names[names.len() - 1] == span.name);
        }
    }
}

/// Every completed call is counted for exactly one of the names that
/// completed a call.
proof fn lemma_calls_partition(spans: Seq<Span>)
    ensures
        calls_of_names(spans, first_seen(spans)) == spans.len(),
    decreases spans.len(),
{
    if spans.len() > 0 {
        let before = spans.drop_last();
        let span = spans.last();
        let names = first_seen(before);
        lemma_calls_partition(before);
        lemma_first_seen(before);
        assert(before.push(span) =~= spans);
        lemma_calls_of_names_push(before, span, names);
        if !names.contains(span.name) {
            assert(names.push(span.name).drop_last() =~= names);
            assert(calls_of(before, span.name) == 0);
        }
    }
}

/// The call counts of the summary rows of `names` add up to the sum over
/// `names`.
proof fn lemma_total_calls_of_rows(spans: Seq<Span>, names: Seq<Seq<char>>)
    ensures
        total_calls(names.map_values(|name: Seq<char>| summarize(spans, name))) == calls_of_names(
            spans,
            names,
        ),
    decreases names.len(),
{
    let rows = names.map_values(|name: Seq<char>| summarize(spans, name));
    if names.len() > 0 {
        assert(rows.drop_last() =~= names.drop_last().map_values(
            |name: Seq<char>| summarize(spans, name),
        ));
        lemma_total_calls_of_rows(spans, names.drop_last());
    }
}

/// The call counts of the summary table add up to the number of completed
/// calls.
pub proof fn lemma_total_calls(spans: Seq<Span>)
    ensures
        total_calls(summary_table(spans)) == spans.len(),
{
    lemma_total_calls_of_rows(spans, first_seen(spans));
    lemma_calls_partition(spans);
}

/// Balanced pairing: a capture whose every frame is balanced is well nested,
/// so its analysis meets no unmatched `Return`, and the call counts of its
/// functions add up to the number of its `Call` events.
pub proof fn lemma_balanced_capture(frames: Seq<Seq<EventView>>)
    requires
        forall|i: int| 0 <= i < frames.len() ==> balanced(#[trigger] frames[i]),
    ensures
        all_well_nested(frames),
        total_calls(summary_table(capture_spans(frames))) == capture_call_events(frames),
    decreases frames.len(),
{
    lemma_total_calls(capture_spans(frames));
    if frames.len() > 0 {
        let shorter = frames.drop_last();
        assert forall|i: int| 0 <= i < shorter.len() implies balanced(#[trigger] shorter[i]) by {
            assert(shorter[i] == frames[i]);
        }
        lemma_balanced_capture(shorter);
        lemma_total_calls(capture_spans(shorter));
        assert(balanced(frames[frames.len() - 1]));
        lemma_calls_open_or_completed(frames.last());
    }
}

/// No timestamp of the frame is beyond `bound`.
pub open spec fn timestamps_within(events: Seq<EventView>, bound: nat) -> bool {
    forall|j: int| 0 <= j < events.len() ==> (#[trigger] events[j]).timestamp <= bound
}

/// No completed call took longer than `bound`.
spec fn durations_within(spans: Seq<Span>, bound: nat) -> bool {
    forall|k: int| 0 <= k < spans.len() ==> (#[trigger] spans[k]).duration <= bound
}

/// No call of a frame takes longer than the latest timestamp of the frame.
proof fn lemma_durations_within(events: Seq<EventView>, bound: nat)
    requires
        timestamps_within(events, bound),
    ensures
        durations_within(completed(events), bound),
    decreases events.len(),
{
    if events.len() > 0 {
        let shorter = events.drop_last();
        assert forall|j: int| 0 <= j < shorter.len() implies (#[trigger] shorter[j]).timestamp
            <= bound by {
            assert(shorter[j] == events[j]);
        }
        lemma_durations_within(shorter, bound);
        assert(events[events.len() - 1].timestamp <= bound);
    }
}

/// A function has no more calls than there are completed calls, and its
/// total is no more than their number times the longest of them.
proof fn lemma_tally_bounds(spans: Seq<Span>, bound: nat, name: Seq<char>)
    requires
        durations_within(spans, bound),
    ensures
        calls_of(spans, name) <= spans.len(),
        total_of(spans, name) <= spans.len() * bound,
    decreases spans.len(),
{
    if spans.len() > 0 {
        let shorter = spans.drop_last();
        assert forall|k: int| 0 <= k < shorter.len() implies (#[trigger] shorter[k]).duration
            <= bound by {
            assert(shorter[k] == spans[k]);
        }
        lemma_tally_bounds(shorter, bound, name);
        assert(spans[spans.len() - 1].duration <= bound);
        assert(spans.len() * bound == shorter.len() * bound + bound) by (nonlinear_arith)
            requires
                spans.len() == shorter.len() + 1,
        ;
    } else {
        assert(spans.len() * bound == 0) by (nonlinear_arith)
            requires
                spans.len() == 0,
        ;
    }
}

/// A capture completes no more calls than it has `Call` events, and none of
/// them takes longer than the latest timestamp.
proof fn lemma_capture_spans_bounds(frames: Seq<Seq<EventView>>, bound: nat)
    requires
        forall|i: int| 0 <= i < frames.len() ==> timestamps_within(#[trigger] frames[i], bound),
    ensures
        capture_spans(frames).len() <= capture_call_events(frames),
        durations_within(capture_spans(frames), bound),
    decreases frames.len(),
{
    if frames.len() > 0 {
        let shorter = frames.drop_last();
        assert forall|i: int| 0 <= i < shorter.len() implies timestamps_within(
            #[trigger] shorter[i],
            bound,
        ) by {
            assert(shorter[i] == frames[i]);
        }
        lemma_capture_spans_bounds(shorter, bound);
        assert(timestamps_within(frames[frames.len() - 1], bound));
        lemma_durations_within(frames.last(), bound);
        lemma_calls_open_or_completed(frames.last());
    }
}

/// The aggregates of a capture fit their integer types where it has no more
/// `Call` events than a `u32` counts and where that many durations of its
/// latest timestamp add up to no more than a `u128` holds. So it is with
/// every capture of fewer than 2^32 calls whose timestamps are below 2^96
/// nanoseconds.
pub proof fn lemma_bounded_capture_fits(frames: Seq<Seq<EventView>>, bound: nat)
    requires
        forall|i: int| 0 <= i < frames.len() ==> timestamps_within(#[trigger] frames[i], bound),
        capture_call_events(frames) <= u32::MAX,
        capture_call_events(frames) * bound <= u128::MAX,
    ensures
        fits(capture_spans(frames)),
{
    let spans = capture_spans(frames);
    let calls = capture_call_events(frames);
    lemma_capture_spans_bounds(frames, bound);
    assert forall|name: Seq<char>|
        #![trigger calls_of(spans, name)]
        #![trigger total_of(spans, name)]
        calls_of(spans, name) <= u32::MAX && total_of(spans, name) <= u128::MAX by {
        lemma_tally_bounds(spans, bound, name);
        assert(spans.len() * bound <= calls * bound) by (nonlinear_arith)
            requires
                spans.len() <= calls,
        ;
    }
}

/// A balanced capture within those sizes can be analysed: the analysis
/// meets no unmatched `Return` and no aggregate that does not fit.
pub proof fn lemma_balanced_capture_is_analyzable(frames: Seq<Seq<EventView>>, bound: nat)
    requires
        forall|i: int| 0 <= i < frames.len() ==> balanced(#[trigger] frames[i]),
        forall|i: int| 0 <= i < frames.len() ==> timestamps_within(#[trigger] frames[i], bound),
        capture_call_events(frames) <= u32::MAX,
        capture_call_events(frames) * bound <= u128::MAX,
    ensures
        analyzable(frames),
{
    lemma_balanced_capture(frames);
    lemma_bounded_capture_fits(frames, bound);
}

/// The summary table is a mapping: it has one row for each function that
/// completed a call and no other row, and no two rows for one function.
pub proof fn lemma_one_row_per_function(spans: Seq<Span>)
    ensures
        forall|a: int, b: int|
            0 <= a < b < summary_table(spans).len() ==> summary_table(spans)[a].name
                != summary_table(spans)[b].name,
        forall|k: int|
            0 <= k < summary_table(spans).len() ==> (#[trigger] summary_table(spans)[k]).calls > 0,
        forall|name: Seq<char>| #[trigger]
            calls_of(spans, name) > 0 ==> summary_table(spans).contains(summarize(spans, name)),
{
    lemma_first_seen(spans);
    let names = first_seen(spans);
    let rows = summary_table(spans);
    assert forall|k: int| 0 <= k < rows.len() implies (#[trigger] rows[k]).calls > 0 by {
        assert(names.contains(names[k]));
        assert(calls_of(spans, names[k]) > 0);
    }
    assert forall|name: Seq<char>| #[trigger] calls_of(spans, name) > 0 implies rows.contains(
        summarize(spans, name),
    ) by {
        assert(names.contains(name));
        let k = choose|k: int| 0 <= k < names.len() && names[k] == name;
        assert(rows[k] == summarize(spans, name));
    }
}

/// The total of a function lies between its call count times its shortest
/// and times its longest duration.
proof fn lemma_total_bounds(spans: Seq<Span>, name: Seq<char>)
    ensures
        calls_of(spans, name) * min_of(spans, name) <= total_of(spans, name),
        total_of(spans, name) <= calls_of(spans, name) * max_of(spans, name),
        calls_of(spans, name) > 0 ==> min_of(spans, name) <= max_of(spans, name),
    decreases spans.len(),
{
    if spans.len() > 0 {
        let before = spans.drop_last();
        lemma_total_bounds(before, name);
        let count = calls_of(before, name) as int;
        let low = min_of(before, name) as int;
        let high = max_of(before, name) as int;
        let new_low = min_of(spans, name) as int;
        let new_high = max_of(spans, name) as int;
        let total = total_of(before, name) as int;
        assert(new_low <= low && high <= new_high);
        assert(count * new_low <= count * low) by (nonlinear_arith)
            requires
                count >= 0,
                new_low <= low,
        ;
        assert(count * high <= count * new_high) by (nonlinear_arith)
            requires
                count >= 0,
                high <= new_high,
        ;
        if spans.last().name == name {
            let d = spans.last().duration as int;
            assert((count + 1) * new_low == count * new_low + new_low) by (nonlinear_arith);
            assert((count + 1) * new_high == count * new_high + new_high) by (nonlinear_arith);
            assert(new_low <= d <= new_high);
            if count == 0 {
                lemma_first_seen(before);
                assert(!first_seen(before).contains(name));
                assert(low == u128::MAX && high == 0);
            }
        }
    } else {
        assert(0 * (u128::MAX as int) == 0) by (nonlinear_arith);
    }
}

/// The longest duration of a function is no more than its total.
proof fn lemma_max_within_total(spans: Seq<Span>, name: Seq<char>)
    ensures
        max_of(spans, name) <= total_of(spans, name),
    decreases spans.len(),
{
    if spans.len() > 0 {
        lemma_max_within_total(spans.drop_last(), name);
    }
}

/// In every row the average lies between the shortest and the longest
/// duration, and the longest is no more than the total.
pub proof fn lemma_average_between(spans: Seq<Span>, name: Seq<char>)
    requires
        calls_of(spans, name) > 0,
    ensures
        summarize(spans, name).min_time <= summarize(spans, name).average_time <= summarize(
            spans,
            name,
        ).max_time,
        summarize(spans, name).max_time <= summarize(spans, name).total_time,
{
    lemma_total_bounds(spans, name);
    lemma_max_within_total(spans, name);
    let count = calls_of(spans, name) as int;
    let total = total_of(spans, name) as int;
    let low = min_of(spans, name) as int;
    let high = max_of(spans, name) as int;
    assert(low <= total / count <= high) by (nonlinear_arith)
        requires
            count > 0,
            count * low <= total,
            total <= count * high,
    ;
}

/// The timestamps of the frame never decrease.
pub open spec fn monotonic(events: Seq<EventView>) -> bool {
    forall|i: int, j: int|
        0 <= i <= j < events.len() ==> (#[trigger] events[i]).timestamp <= (
        #[trigger] events[j]).timestamp
}

/// Event `call` enters `name` and event `ret` is a return behind it.
pub open spec fn pairs(events: Seq<EventView>, call: int, ret: int, name: Seq<char>) -> bool {
    &&& 0 <= call < ret < events.len()
    &&& events[call].op == OperationView::Call(name)
    &&& events[ret].op is Return
}

/// Every open call was entered by an event of the frame, at its timestamp.
proof fn lemma_open_calls_entered(events: Seq<EventView>, at: int) -> (call: int)
    requires
        0 <= at < open_calls(events).len(),
    ensures
        0 <= call < events.len(),
        events[call].op == OperationView::Call(open_calls(events)[at].name),
        events[call].timestamp == open_calls(events)[at].started,
    decreases events.len(),
{
    let before = open_calls(events.drop_last());
    match events.last().op {
        OperationView::Call(name) => {
            if at == before.len() {
                events.len() - 1
            } else {
                lemma_open_calls_entered(events.drop_last(), at)
            }
        },
        OperationView::Return => { lemma_open_calls_entered(events.drop_last(), at) },
    }
}

/// Every completed call is a `Call` event of its function and a `Return`
/// event behind it, and its duration is the time between the two.
pub proof fn lemma_completed_pairs(events: Seq<EventView>, k: int) -> (ends: (int, int))
    requires
        0 <= k < completed(events).len(),
    ensures
        pairs(events, ends.0, ends.1, completed(events)[k].name),
        completed(events)[k].duration == duration_between(
            events[ends.0].timestamp,
            events[ends.1].timestamp,
        ),
    decreases events.len(),
{
    let shorter = events.drop_last();
    if k < completed(shorter).len() {
        let ends = lemma_completed_pairs(shorter, k);
        assert(completed(events)[k] == completed(shorter)[k]);
        ends
    } else {
        let stack = open_calls(shorter);
        let call = lemma_open_calls_entered(shorter, stack.len() - 1);
        (call, events.len() - 1)
    }
}

/// Duration non-negativity: where the timestamps of a frame never decrease,
/// the duration of every completed call is the exact time from its `Call`
/// event to its `Return` event, which is not negative; nothing was cut off
/// at zero.
pub proof fn lemma_monotonic_durations(events: Seq<EventView>, k: int) -> (ends: (int, int))
    requires
        monotonic(events),
        0 <= k < completed(events).len(),
    ensures
        pairs(events, ends.0, ends.1, completed(events)[k].name),
        completed(events)[k].duration == events[ends.1].timestamp - events[ends.0].timestamp,
        events[ends.1].timestamp - events[ends.0].timestamp >= 0,
{
    let ends = lemma_completed_pairs(events, k);
    assert(events[ends.0].timestamp <= events[ends.1].timestamp);
    ends
}

} // verus!
