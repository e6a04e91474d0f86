use simple_profiler::analysis::global::GlobalAnalyzer;
use simple_profiler::analysis::report::{convert_time, render, sort_entries};
use simple_profiler::analysis::{AnalysisError, FrameAnalyzer, FuncAnalysis, Sort, Unit};
use simple_profiler::profiler::{Event, Frame, Frames, Operation, Profiler};
use simple_profiler::serialization::StaticStr;

fn call(name: &'static str, timestamp: u128) -> Event {
    Event { op: Operation::Call(StaticStr(name)), timestamp }
}

fn ret(timestamp: u128) -> Event {
    Event { op: Operation::Return, timestamp }
}

fn capture(frames: Vec<Vec<Event>>) -> Frames {
    Frames(frames.into_iter().map(|calls| Frame { calls }).collect())
}

fn stats(name: &'static str, calls: u32, total: u128, average: u128, min: u128, max: u128) -> FuncAnalysis {
    FuncAnalysis {
        name: StaticStr(name),
        calls,
        total_time: total,
        average_time: average,
        min_time: min,
        max_time: max,
    }
}

fn names(entries: &[FuncAnalysis]) -> Vec<&'static str> {
    entries.iter().map(|e| e.name.as_str()).collect()
}

fn row(name: &str, total: u128, min: u128, max: u128, average: u128, calls: u32) -> String {
    format!("{:20} {:10} {:10} {:10} {:10} {:20}\n", name, total, min, max, average, calls)
}

const HEADER: &str =
    "Function Name        Total Time   Min Time   Max Time   Avg Time                Calls\n";

#[test]
fn three_calls_are_aggregated() {
    let frames = capture(vec![vec![
        call("f", 0),
        ret(10),
        call("f", 100),
        ret(120),
        call("f", 200),
        ret(230),
    ]]);
    let analysis = GlobalAnalyzer::new(frames);
    let entries = analysis.entries();
    assert_eq!(entries.len(), 1);
    assert_eq!(entries[0].name.as_str(), "f");
    assert_eq!(entries[0].calls, 3);
    assert_eq!(entries[0].total_time, 60);
    assert_eq!(entries[0].min_time, 10);
    assert_eq!(entries[0].max_time, 30);
    assert_eq!(entries[0].average_time, 20);
}

#[test]
fn average_is_rounded_down() {
    let frames = capture(vec![vec![call("f", 0), ret(10), call("f", 10), ret(21)]]);
    let analysis = GlobalAnalyzer::new(frames);
    assert_eq!(analysis.entries()[0].total_time, 21);
    assert_eq!(analysis.entries()[0].average_time, 10);
}

#[test]
fn nested_calls_pair_innermost_first() {
    let frames = capture(vec![vec![
        call("outer", 0),
        call("inner", 5),
        ret(8),
        call("inner", 10),
        ret(17),
        ret(30),
    ]]);
    let analysis = GlobalAnalyzer::new(frames);
    let entries = analysis.entries();
    assert_eq!(names(entries), vec!["inner", "outer"]);
    assert_eq!(entries[0].calls, 2);
    assert_eq!(entries[0].total_time, 10);
    assert_eq!(entries[0].min_time, 3);
    assert_eq!(entries[0].max_time, 7);
    assert_eq!(entries[0].average_time, 5);
    assert_eq!(entries[1].calls, 1);
    assert_eq!(entries[1].total_time, 30);
    assert_eq!(entries[1].min_time, 30);
    assert_eq!(entries[1].max_time, 30);
    assert_eq!(entries[1].average_time, 30);
}

#[test]
fn frames_share_the_aggregates_but_not_the_stack() {
    let frames = capture(vec![
        vec![call("f", 0), ret(4), call("g", 5)],
        vec![call("f", 10), ret(16)],
    ]);
    let analysis = GlobalAnalyzer::new(frames);
    let entries = analysis.entries();
    // `g` is left open at the end of its frame and is never completed
    assert_eq!(names(entries), vec!["f"]);
    assert_eq!(entries[0].calls, 2);
    assert_eq!(entries[0].total_time, 10);
    assert_eq!(entries[0].min_time, 4);
    assert_eq!(entries[0].max_time, 6);
}

#[test]
fn empty_capture_has_no_rows() {
    let analysis = GlobalAnalyzer::new(capture(vec![]));
    assert!(analysis.entries().is_empty());
    let analysis = GlobalAnalyzer::new(capture(vec![vec![], vec![]]));
    assert!(analysis.entries().is_empty());
    assert_eq!(analysis.analyze(), HEADER);
}

#[test]
fn unmatched_return_is_an_integrity_fault() {
    let frames = capture(vec![vec![call("f", 0), ret(1), ret(2)]]);
    assert_eq!(GlobalAnalyzer::try_new(frames).err(), Some(AnalysisError::IntegrityFault));
    let frames = capture(vec![vec![ret(0)]]);
    assert_eq!(GlobalAnalyzer::try_new(frames).err(), Some(AnalysisError::IntegrityFault));
}

#[test]
fn return_in_the_next_frame_is_an_integrity_fault() {
    let frames = capture(vec![vec![call("f", 0)], vec![ret(1)]]);
    assert_eq!(GlobalAnalyzer::try_new(frames).err(), Some(AnalysisError::IntegrityFault));
}

#[test]
fn total_beyond_u128_is_an_overflow() {
    let frames = capture(vec![vec![call("f", 0), ret(u128::MAX), call("f", 0), ret(1)]]);
    assert_eq!(GlobalAnalyzer::try_new(frames).err(), Some(AnalysisError::Overflow));
    // an unmatched return behind the overflow is still the fault that is reported
    let frames = capture(vec![vec![call("f", 0), ret(u128::MAX), call("f", 0), ret(1), ret(2)]]);
    assert_eq!(GlobalAnalyzer::try_new(frames).err(), Some(AnalysisError::IntegrityFault));
}

#[test]
fn try_new_agrees_with_new() {
    let events = vec![call("a", 1), call("b", 2), ret(5), ret(9)];
    let checked = GlobalAnalyzer::try_new(capture(vec![events.clone()])).unwrap();
    let plain = GlobalAnalyzer::new(capture(vec![events]));
    assert_eq!(names(checked.entries()), names(plain.entries()));
    assert_eq!(checked.entries()[0].total_time, 3);
    assert_eq!(checked.entries()[1].total_time, 8);
    assert_eq!(checked.analyze(), plain.analyze());
}

#[test]
fn clock_running_backwards_gives_zero() {
    let frames = capture(vec![vec![call("f", 10), ret(4)]]);
    let analysis = GlobalAnalyzer::new(frames);
    assert_eq!(analysis.entries()[0].calls, 1);
    assert_eq!(analysis.entries()[0].total_time, 0);
    assert_eq!(analysis.entries()[0].min_time, 0);
    assert_eq!(analysis.entries()[0].max_time, 0);
}

#[test]
fn longest_possible_call_keeps_its_minimum() {
    let frames = capture(vec![vec![call("f", 0), ret(u128::MAX)]]);
    let analysis = GlobalAnalyzer::new(frames);
    assert_eq!(analysis.entries()[0].min_time, u128::MAX);
    assert_eq!(analysis.entries()[0].max_time, u128::MAX);
    assert_eq!(analysis.entries()[0].average_time, u128::MAX);
}

#[test]
fn balanced_capture_counts_every_call() {
    let frames = capture(vec![
        vec![call("a", 0), call("b", 1), ret(2), call("c", 3), call("b", 4), ret(5), ret(6), ret(7)],
        vec![call("c", 8), ret(9), call("a", 10), ret(11)],
    ]);
    let call_events = 6;
    let analysis = GlobalAnalyzer::try_new(frames).unwrap();
    let counted: u32 = analysis.entries().iter().map(|e| e.calls).sum();
    assert_eq!(counted, call_events);
    assert_eq!(names(analysis.entries()), vec!["b", "c", "a"]);
}

#[test]
fn durations_of_monotonic_timestamps_are_exact() {
    let frames = capture(vec![vec![call("a", 3), call("b", 3), ret(3), ret(1_000_000_007)]]);
    let analysis = GlobalAnalyzer::new(frames);
    assert_eq!(analysis.entries()[0].total_time, 0);
    assert_eq!(analysis.entries()[1].total_time, 1_000_000_004);
}

#[test]
fn units_divide_and_round_down() {
    assert_eq!(convert_time(1_500_000, Unit::Millisecond), 1);
    assert_eq!(convert_time(1_500_000, Unit::Microsecond), 1500);
    assert_eq!(convert_time(1_500_000, Unit::Nanosecond), 1_500_000);
    assert_eq!(convert_time(1_500_000, Unit::Second), 0);
    assert_eq!(convert_time(2_999_999_999, Unit::Second), 2);
    assert_eq!(convert_time(999, Unit::Microsecond), 0);
    assert_eq!(convert_time(u128::MAX, Unit::Nanosecond), u128::MAX);
}

#[test]
fn sorting_by_total_time_puts_the_slowest_first() {
    let entries = vec![stats("B", 1, 50, 50, 50, 50), stats("A", 1, 100, 100, 100, 100)];
    assert_eq!(names(&sort_entries(&entries, Sort::TotalTime)), vec!["A", "B"]);
    let entries = vec![stats("A", 1, 100, 100, 100, 100), stats("B", 1, 50, 50, 50, 50)];
    assert_eq!(names(&sort_entries(&entries, Sort::TotalTime)), vec!["A", "B"]);
}

#[test]
fn sorting_by_name() {
    let entries = vec![stats("b", 1, 1, 1, 1, 1), stats("a", 1, 1, 1, 1, 1)];
    assert_eq!(names(&sort_entries(&entries, Sort::NameAscending)), vec!["a", "b"]);
    assert_eq!(names(&sort_entries(&entries, Sort::NameDescending)), vec!["b", "a"]);
    let entries = vec![
        stats("delta", 1, 1, 1, 1, 1),
        stats("", 1, 1, 1, 1, 1),
        stats("del", 1, 1, 1, 1, 1),
        stats("Zeta", 1, 1, 1, 1, 1),
        stats("\u{e9}t\u{e9}", 1, 1, 1, 1, 1),
        stats("alpha", 1, 1, 1, 1, 1),
    ];
    let mut expected = names(&entries);
    expected.sort();
    assert_eq!(names(&sort_entries(&entries, Sort::NameAscending)), expected);
    expected.reverse();
    assert_eq!(names(&sort_entries(&entries, Sort::NameDescending)), expected);
}

#[test]
fn sorting_by_each_numeric_key() {
    let entries = vec![
        stats("a", 3, 40, 5, 2, 30),
        stats("b", 1, 90, 1, 9, 10),
        stats("c", 2, 10, 9, 1, 20),
    ];
    assert_eq!(names(&sort_entries(&entries, Sort::TotalTime)), vec!["b", "a", "c"]);
    assert_eq!(names(&sort_entries(&entries, Sort::AverageTime)), vec!["c", "a", "b"]);
    assert_eq!(names(&sort_entries(&entries, Sort::MinTime)), vec!["b", "a", "c"]);
    assert_eq!(names(&sort_entries(&entries, Sort::MaxTime)), vec!["a", "c", "b"]);
    assert_eq!(names(&sort_entries(&entries, Sort::Calls)), vec!["a", "c", "b"]);
}

#[test]
fn rows_that_tie_keep_their_order() {
    let entries = vec![
        stats("x", 1, 7, 7, 7, 7),
        stats("y", 1, 9, 9, 9, 9),
        stats("z", 1, 7, 7, 7, 7),
        stats("w", 1, 9, 9, 9, 9),
    ];
    assert_eq!(names(&sort_entries(&entries, Sort::TotalTime)), vec!["y", "w", "x", "z"]);
    assert_eq!(names(&sort_entries(&entries, Sort::Calls)), vec!["x", "y", "z", "w"]);
}

#[test]
fn sorting_keeps_every_row() {
    let entries = vec![
        stats("a", 3, 40, 5, 2, 30),
        stats("b", 1, 90, 1, 9, 10),
        stats("c", 2, 10, 9, 1, 20),
        stats("d", 2, 10, 9, 1, 20),
    ];
    let sorted = sort_entries(&entries, Sort::MinTime);
    let mut found = names(&sorted);
    found.sort();
    assert_eq!(found, vec!["a", "b", "c", "d"]);
    for pair in sorted.windows(2) {
        assert!(pair[0].min_time >= pair[1].min_time);
    }
}

#[test]
fn report_is_the_fixed_width_table() {
    let entries = vec![
        stats("short", 2, 3_000_000, 1_500_000, 1_000_000, 2_000_000),
        stats("a_name_longer_than_twenty_characters", 4_000_000_000, 12_345_678_901_234, 3086, 0, 99_999_999_999),
    ];
    let report = render(&entries, Sort::TotalTime, Unit::Microsecond);
    let expected = String::from(HEADER)
        + &row("a_name_longer_than_twenty_characters", 12_345_678_901, 0, 99_999_999, 3, 4_000_000_000)
        + &row("short", 3000, 1000, 2000, 1500, 2);
    assert_eq!(report, expected);
}

#[test]
fn report_columns_widen_for_long_numbers() {
    let entries = vec![stats("n\u{e4}me", u32::MAX, u128::MAX, u128::MAX, u128::MAX, u128::MAX)];
    let report = render(&entries, Sort::Calls, Unit::Nanosecond);
    let expected = String::from(HEADER) + &row("n\u{e4}me", u128::MAX, u128::MAX, u128::MAX, u128::MAX, u32::MAX);
    assert_eq!(report, expected);
    let report = render(&entries, Sort::Calls, Unit::Second);
    let shown = u128::MAX / 1_000_000_000;
    let expected = String::from(HEADER) + &row("n\u{e4}me", shown, shown, shown, shown, u32::MAX);
    assert_eq!(report, expected);
}

#[test]
fn report_shows_zero_and_exact_line() {
    let entries = vec![stats("f", 1, 0, 0, 0, 0)];
    let report = render(&entries, Sort::NameAscending, Unit::Millisecond);
    let line = "f                             0          0          0          0                    1\n";
    assert_eq!(report, String::from(HEADER) + line);
}

#[test]
fn analyzer_defaults_to_total_time_in_milliseconds() {
    let frames = capture(vec![vec![
        call("quick", 0),
        ret(2_000_000),
        call("slow", 2_000_000),
        ret(9_500_000),
    ]]);
    let report = GlobalAnalyzer::new(frames).analyze();
    let expected = String::from(HEADER) + &row("slow", 7, 7, 7, 7, 1) + &row("quick", 2, 2, 2, 2, 1);
    assert_eq!(report, expected);
}

#[test]
fn setters_choose_key_and_unit() {
    let frames = capture(vec![vec![
        call("quick", 0),
        ret(2_000_000),
        call("slow", 2_000_000),
        ret(9_500_000),
    ]]);
    let mut analysis = GlobalAnalyzer::new(frames);
    analysis.set_sort(Sort::NameAscending);
    analysis.set_unit(Unit::Microsecond);
    let expected =
        String::from(HEADER) + &row("quick", 2000, 2000, 2000, 2000, 1) + &row("slow", 7500, 7500, 7500, 7500, 1);
    assert_eq!(analysis.analyze(), expected);
}

#[test]
fn produce_report_takes_the_capture() {
    let mut profiler = Profiler::default();
    profiler.call_at("f", 0);
    profiler.ret_at(3_000);
    profiler.end_frame();
    profiler.call_at("g", 5_000);
    profiler.ret_at(6_000);
    let report = simple_profiler::profiler::produce_report(profiler, Sort::MaxTime, Unit::Nanosecond).unwrap();
    let expected = String::from(HEADER) + &row("f", 3000, 3000, 3000, 3000, 1) + &row("g", 1000, 1000, 1000, 1000, 1);
    assert_eq!(report, expected);

    let mut profiler = Profiler::default();
    profiler.ret_at(1);
    assert_eq!(
        simple_profiler::profiler::produce_report(profiler, Sort::MaxTime, Unit::Nanosecond),
        Err(AnalysisError::IntegrityFault)
    );
}

#[test]
fn aggregate_is_found_by_name() {
    let frames = capture(vec![vec![call("a", 0), call("b", 1), ret(4), ret(9)]]);
    let analysis = GlobalAnalyzer::new(frames);
    let a = analysis.get("a").unwrap();
    assert_eq!((a.name.as_str(), a.calls, a.total_time), ("a", 1, 9));
    let b = analysis.get("b").unwrap();
    assert_eq!((b.name.as_str(), b.calls, b.total_time), ("b", 1, 3));
    assert!(analysis.get("c").is_none());
    assert!(analysis.get("").is_none());
}

#[test]
fn average_lies_between_shortest_and_longest() {
    let frames = capture(vec![vec![
        call("f", 0),
        ret(1),
        call("f", 1),
        ret(3),
        call("f", 3),
        ret(103),
        call("g", 200),
        ret(200),
    ]]);
    let analysis = GlobalAnalyzer::new(frames);
    for entry in analysis.entries() {
        assert!(entry.min_time <= entry.average_time);
        assert!(entry.average_time <= entry.max_time);
    }
    assert_eq!(analysis.get("f").unwrap().average_time, 34);
    assert_eq!(analysis.get("g").unwrap().average_time, 0);
}
