use vstd::prelude::*;

use crate::analysis::FunctionStats;
use crate::profiler::{EventView, OperationView};

verus! {

/// A call that has been entered and not yet left.
pub struct OpenCall {
    pub name: Seq<char>,
    pub started: u128,
}

/// A call that has been entered and left: its function and how long it ran.
pub struct Span {
    pub name: Seq<char>,
    pub duration: u128,
}

/// The time from `started` to `ended`, zero where the clock ran backwards.
pub open spec fn duration_between(started: u128, ended: u128) -> u128 {
    if ended >= started {
        (ended - started) as u128
    } else {
        0
    }
}

/// The stack of open calls after one more event. A `Return` closes the call
/// opened last; on an empty stack it changes nothing.
pub open spec fn stack_after(stack: Seq<OpenCall>, event: EventView) -> Seq<OpenCall> {
    match event.op {
        OperationView::Call(name) => stack.push(OpenCall { name, started: event.timestamp }),
        OperationView::Return => if stack.len() > 0 {
            stack.drop_last()
        } else {
            stack
        },
    }
}

/// The completed calls after one more event: a `Return` completes the call
/// on top of `stack`.
pub open spec fn spans_after(spans: Seq<Span>, stack: Seq<OpenCall>, event: EventView) -> Seq<
    Span,
> {
    match event.op {
        OperationView::Call(_) => spans,
        OperationView::Return => if stack.len() > 0 {
            spans.push(
                Span {
                    name: stack.last().name,
                    duration: duration_between(stack.last().started, event.timestamp),
                },
            )
        } else {
            spans
        },
    }
}

/// The calls still open after the events of a frame, innermost last.
pub open spec fn open_calls(events: Seq<EventView>) -> Seq<OpenCall>
    decreases events.len(),
{
    if events.len() == 0 {
        Seq::empty()
    } else {
        stack_after(open_calls(events.drop_last()), events.last())
    }
}

/// The calls completed by the events of a frame, in the order of their
/// `Return` events.
pub open spec fn completed(events: Seq<EventView>) -> Seq<Span>
    decreases events.len(),
{
    if events.len() == 0 {
        Seq::empty()
    } else {
        spans_after(
            completed(events.drop_last()),
            open_calls(events.drop_last()),
            events.last(),
        )
    }
}

/// Event `at` is a `Return` that finds no call open.
pub open spec fn unmatched_at(events: Seq<EventView>, at: int) -> bool {
    &&& 0 <= at < events.len()
    &&& events[at].op is Return
    &&& open_calls(events.take(at)).len() == 0
}

/// Every `Return` of the frame closes a call opened earlier in the frame.
pub open spec fn well_nested(events: Seq<EventView>) -> bool {
    forall|at: int| !unmatched_at(events, at)
}

/// Every frame of the capture is well nested.
pub open spec fn all_well_nested(frames: Seq<Seq<EventView>>) -> bool {
    forall|i: int| 0 <= i < frames.len() ==> well_nested(#[trigger] frames[i])
}

/// The calls completed in a capture: those of its frames, one frame after
/// the other. A call left open at the end of a frame is never completed.
pub open spec fn capture_spans(frames: Seq<Seq<EventView>>) -> Seq<Span>
    decreases frames.len(),
{
    if frames.len() == 0 {
        Seq::empty()
    } else {
        capture_spans(frames.drop_last()) + completed(frames.last())
    }
}

/// How many of the completed calls are calls of `name`.
pub open spec fn calls_of(spans: Seq<Span>, name: Seq<char>) -> nat
    decreases spans.len(),
{
    if spans.len() == 0 {
        0
    } else if spans.last().name == name {
        calls_of(spans.drop_last(), name) + 1
    } else {
        calls_of(spans.drop_last(), name)
    }
}

/// The sum of the durations of the completed calls of `name`.
pub open spec fn total_of(spans: Seq<Span>, name: Seq<char>) -> nat
    decreases spans.len(),
{
    if spans.len() == 0 {
        0
    } else if spans.last().name == name {
        total_of(spans.drop_last(), name) + spans.last().duration as nat
    } else {
        total_of(spans.drop_last(), name)
    }
}

/// The shortest duration among the completed calls of `name`; the largest
/// `u128` where there is none.
pub open spec fn min_of(spans: Seq<Span>, name: Seq<char>) -> u128
    decreases spans.len(),
{
    if spans.len() == 0 {
        u128::MAX
    } else if spans.last().name == name && spans.last().duration < min_of(
        spans.drop_last(),
        name,
    ) {
        spans.last().duration
    } else {
        min_of(spans.drop_last(), name)
    }
}

/// The longest duration among the completed calls of `name`; zero where
/// there is none.
pub open spec fn max_of(spans: Seq<Span>, name: Seq<char>) -> u128
    decreases spans.len(),
{
    if spans.len() == 0 {
        0
    } else if spans.last().name == name && spans.last().duration > max_of(
        spans.drop_last(),
        name,
    ) {
        spans.last().duration
    } else {
        max_of(spans.drop_last(), name)
    }
}

/// The distinct function names among the completed calls, in the order in
/// which each first completed a call.
pub open spec fn first_seen(spans: Seq<Span>) -> Seq<Seq<char>>
    decreases spans.len(),
{
    if spans.len() == 0 {
        Seq::empty()
    } else if first_seen(spans.drop_last()).contains(spans.last().name) {
        first_seen(spans.drop_last())
    } else {
        first_seen(spans.drop_last()).push(spans.last().name)
    }
}

/// The aggregate of the completed calls of `name`. The average is the total
/// divided by the count, rounded down.
pub open spec fn summarize(spans: Seq<Span>, name: Seq<char>) -> FunctionStats {
    FunctionStats {
        name,
        calls: calls_of(spans, name),
        total_time: total_of(spans, name),
        average_time: if calls_of(spans, name) > 0 {
            (total_of(spans, name) / calls_of(spans, name)) as nat
        } else {
            0
        },
        min_time: min_of(spans, name) as nat,
        max_time: max_of(spans, name) as nat,
    }
}

/// One aggregate for each function that completed a call, in the order of
/// [`first_seen`].
pub open spec fn summary_table(spans: Seq<Span>) -> Seq<FunctionStats> {
    first_seen(spans).map_values(|name: Seq<char>| summarize(spans, name))
}

/// Every function's call count fits a `u32` and its total duration a `u128`.
pub open spec fn fits(spans: Seq<Span>) -> bool {
    forall|name: Seq<char>|
        #![trigger calls_of(spans, name)]
        #![trigger total_of(spans, name)]
        calls_of(spans, name) <= u32::MAX && total_of(spans, name) <= u128::MAX
}

/// The capture can be analysed: its frames are well nested and its
/// aggregates fit their integer types.
pub open spec fn analyzable(frames: Seq<Seq<EventView>>) -> bool {
    all_well_nested(frames) && fits(capture_spans(frames))
}

/// The names of [`first_seen`] are distinct and are exactly the names that
/// completed a call; every other name has the empty aggregate.
pub proof fn lemma_first_seen(spans: Seq<Span>)
    ensures
        forall|a: int, b: int|
            0 <= a < b < first_seen(spans).len() ==> first_seen(spans)[a] != first_seen(spans)[b],
        forall|name: Seq<char>|
            first_seen(spans).contains(name) <==> #[trigger] calls_of(spans, name) > 0,
        forall|name: Seq<char>|
            !first_seen(spans).contains(name) ==> #[trigger] total_of(spans, name) == 0,
        forall|name: Seq<char>|
            !first_seen(spans).contains(name) ==> #[trigger] min_of(spans, name) == u128::MAX,
        forall|name: Seq<char>|
            !first_seen(spans).contains(name) ==> #[trigger] max_of(spans, name) == 0,
    decreases spans.len(),
{
    let seen = first_seen(spans);
    if spans.len() == 0 {
        assert forall|name: Seq<char>| !seen.contains(name) by {}
    } else {
        let before = spans.drop_last();
        let last = spans.last().name;
        lemma_first_seen(before);
        let names = first_seen(before);
        if names.contains(last) {
            assert(seen == names);
        } else {
            assert(seen == names.push(last));
            assert(seen[names.len() as int] == last);
        }
        assert forall|name: Seq<char>| seen.contains(name) <==> (name == last || names.contains(
            name,
        )) by {
            if names.contains(name) {
                let k = choose|k: int| 0 <= k < names.len() && names[k] == name;
                assert(seen[k] == name);
            }
            if seen.contains(name) {
                let k = choose|k: int| 0 <= k < seen.len() && seen[k] == name;
                if k < names.len() {
                    assert(names[k] == name);
                }
            }
        }
        assert forall|name: Seq<char>| seen.contains(name) <==> #[trigger] calls_of(spans, name)
            > 0 by {
            assert(calls_of(before, name) > 0 <==> names.contains(name));
        }
        assert forall|name: Seq<char>| !seen.contains(name) implies #[trigger] total_of(
            spans,
            name,
        ) == 0 by {
            assert(total_of(before, name) == 0);
        }
        assert forall|name: Seq<char>| !seen.contains(name) implies #[trigger] min_of(spans, name)
            == u128::MAX by {
            assert(min_of(before, name) == u128::MAX);
        }
        assert forall|name: Seq<char>| !seen.contains(name) implies #[trigger] max_of(spans, name)
            == 0 by {
            assert(max_of(before, name) == 0);
        }
    }
}

/// Counts and totals of a concatenation are the sums of those of its parts.
pub proof fn lemma_tally_concat(a: Seq<Span>, b: Seq<Span>, name: Seq<char>)
    ensures
        calls_of(a + b, name) == calls_of(a, name) + calls_of(b, name),
        total_of(a + b, name) == total_of(a, name) + total_of(b, name),
    decreases b.len(),
{
    if b.len() == 0 {
        assert(a + b =~= a);
    } else {
        assert((a + b).drop_last() =~= a + b.drop_last());
        assert((a + b).last() == b.last());
        lemma_tally_concat(a, b.drop_last(), name);
    }
}

/// A longer prefix of a frame completes no fewer calls of any function and
/// no less of its time.
pub proof fn lemma_completed_grows(events: Seq<EventView>, from: int, to: int, name: Seq<char>)
    requires
        0 <= from <= to <= events.len(),
    ensures
        calls_of(completed(events.take(from)), name) <= calls_of(completed(events.take(to)), name),
        total_of(completed(events.take(from)), name) <= total_of(completed(events.take(to)), name),
    decreases to - from,
{
    if from < to {
        lemma_completed_grows(events, from, to - 1, name);
        assert(events.take(to).drop_last() =~= events.take(to - 1));
        let shorter = completed(events.take(to - 1));
        let longer = completed(events.take(to));
        if longer != shorter {
            assert(longer.drop_last() =~= shorter);
        }
    }
}

/// A longer prefix of a capture completes no fewer calls of any function
/// and no less of its time.
pub proof fn lemma_capture_grows(frames: Seq<Seq<EventView>>, from: int, to: int, name: Seq<char>)
    requires
        0 <= from <= to <= frames.len(),
    ensures
        calls_of(capture_spans(frames.take(from)), name) <= calls_of(
            capture_spans(frames.take(to)),
            name,
        ),
        total_of(capture_spans(frames.take(from)), name) <= total_of(
            capture_spans(frames.take(to)),
            name,
        ),
    decreases to - from,
{
    if from < to {
        lemma_capture_grows(frames, from, to - 1, name);
        assert(frames.take(to).drop_last() =~= frames.take(to - 1));
        lemma_tally_concat(capture_spans(frames.take(to - 1)), completed(frames[to - 1]), name);
    }
}

} // verus!
