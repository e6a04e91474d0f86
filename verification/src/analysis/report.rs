use vstd::prelude::*;
use vstd::string::StringExecFns;

use crate::analysis::{stats_view, FuncAnalysis, FunctionStats, Sort, Unit};
use crate::text::{
    lemma_text_precedes_irreflexive, lemma_text_precedes_transitive, text_before, text_precedes,
};

verus! {

/// A duration of `time` nanoseconds in `unit`, rounded down.
pub open spec fn convert(time: nat, unit: Unit) -> nat {
    match unit {
        Unit::Second => time / 1_000_000_000,
        Unit::Millisecond => time / 1_000_000,
        Unit::Microsecond => time / 1_000,
        Unit::Nanosecond => time,
    }
}

/// Converts a duration in nanoseconds to `unit`, rounding down.
pub fn convert_time(time: u128, unit: Unit) -> (shown: u128)
    ensures
        shown == convert(time as nat, unit),
{
    match unit {
        Unit::Second => time / 1_000_000_000,
        Unit::Millisecond => time / 1_000_000,
        Unit::Microsecond => time / 1_000,
        Unit::Nanosecond => time,
    }
}

/// Whether row `a` must stand before row `b` in a report sorted by `sort`.
/// Rows that tie on the key precede each other in neither direction.
pub open spec fn precedes(a: FunctionStats, b: FunctionStats, sort: Sort) -> bool {
    match sort {
        Sort::NameAscending => text_precedes(a.name, b.name),
        Sort::NameDescending => text_precedes(b.name, a.name),
        Sort::TotalTime => a.total_time > b.total_time,
        Sort::MinTime => a.min_time > b.min_time,
        Sort::MaxTime => a.max_time > b.max_time,
        Sort::AverageTime => a.average_time > b.average_time,
        Sort::Calls => a.calls > b.calls,
    }
}

/// No row stands behind a row that it must precede.
pub open spec fn ordered(rows: Seq<FunctionStats>, sort: Sort) -> bool {
    forall|i: int, j: int| 0 <= i < j < rows.len() ==> !precedes(rows[j], rows[i], sort)
}

/// `rows`, which is ordered, with `row` put in front of the first row that
/// it must precede; at the end where there is none.
pub open spec fn insert_row(rows: Seq<FunctionStats>, row: FunctionStats, sort: Sort) -> Seq<
    FunctionStats,
>
    decreases rows.len(),
{
    if rows.len() == 0 {
        seq![row]
    } else if precedes(row, rows.first(), sort) {
        seq![row] + rows
    } else {
        seq![rows.first()] + insert_row(rows.drop_first(), row, sort)
    }
}

/// The rows in the order of the report: sorted by `sort`, rows that tie
/// keeping the order they had.
pub open spec fn sort_rows(rows: Seq<FunctionStats>, sort: Sort) -> Seq<FunctionStats>
    decreases rows.len(),
{
    if rows.len() == 0 {
        Seq::empty()
    } else {
        insert_row(sort_rows(rows.drop_last(), sort), rows.last(), sort)
    }
}

/// Putting a row in at the position that a scan from the front finds is
/// [`insert_row`].
proof fn lemma_insert_row_at(rows: Seq<FunctionStats>, row: FunctionStats, sort: Sort, at: int)
    requires
        0 <= at <= rows.len(),
        forall|m: int| 0 <= m < at ==> !precedes(row, rows[m], sort),
        at < rows.len() ==> precedes(row, rows[at], sort),
    ensures
        insert_row(rows, row, sort) == rows.insert(at, row),
    decreases rows.len(),
{
    if rows.len() == 0 {
        assert(rows.insert(at, row) =~= seq![row]);
    } else if at == 0 {
        assert(rows.insert(at, row) =~= seq![row] + rows);
    } else {
        assert(!precedes(row, rows[0], sort));
        lemma_insert_row_at(rows.drop_first(), row, sort, at - 1);
        assert(rows.insert(at, row) =~= seq![rows.first()] + rows.drop_first().insert(
            at - 1,
            row,
        ));
    }
}

/// Where one row must precede a second and the second a third, the first
/// must precede the third; and no row must precede itself.
pub proof fn lemma_precedes_strict(a: FunctionStats, b: FunctionStats, c: FunctionStats, sort: Sort)
    ensures
        !precedes(a, a, sort),
        precedes(a, b, sort) && precedes(b, c, sort) ==> precedes(a, c, sort),
{
    lemma_text_precedes_irreflexive(a.name);
    if precedes(a, b, sort) && precedes(b, c, sort) {
        match sort {
            Sort::NameAscending => lemma_text_precedes_transitive(a.name, b.name, c.name),
            Sort::NameDescending => lemma_text_precedes_transitive(c.name, b.name, a.name),
            _ => {},
        }
    }
}

/// Where [`insert_row`] puts the row: behind every row that it need not
/// precede up to there, and in front of a row that it must precede.
proof fn lemma_insert_row_position(rows: Seq<FunctionStats>, row: FunctionStats, sort: Sort) -> (at:
    int)
    ensures
        0 <= at <= rows.len(),
        insert_row(rows, row, sort) == rows.insert(at, row),
        forall|m: int| 0 <= m < at ==> !precedes(row, rows[m], sort),
        at < rows.len() ==> precedes(row, rows[at], sort),
    decreases rows.len(),
{
    if rows.len() == 0 {
        assert(rows.insert(0, row) =~= seq![row]);
        0
    } else if precedes(row, rows.first(), sort) {
        assert(rows.insert(0, row) =~= seq![row] + rows);
        0
    } else {
        let rest = rows.drop_first();
        let at = lemma_insert_row_position(rest, row, sort);
        assert(rows.insert(at + 1, row) =~= seq![rows.first()] + rest.insert(at, row));
        assert forall|m: int| 0 <= m < at + 1 implies !precedes(row, rows[m], sort) by {
            if m > 0 {
                assert(rows[m] == rest[m - 1]);
            }
        }
        at + 1
    }
}

/// Sorting rearranges the rows: it neither drops nor adds nor changes one.
pub proof fn lemma_sort_rows_permutes(rows: Seq<FunctionStats>, sort: Sort)
    ensures
        sort_rows(rows, sort).to_multiset() == rows.to_multiset(),
        sort_rows(rows, sort).len() == rows.len(),
    decreases rows.len(),
{
    broadcast use vstd::seq_lib::to_multiset_insert, vstd::seq_lib::to_multiset_build;

    if rows.len() == 0 {
        assert(sort_rows(rows, sort) =~= rows);
    } else {
        let sorted = sort_rows(rows.drop_last(), sort);
        lemma_sort_rows_permutes(rows.drop_last(), sort);
        let at = lemma_insert_row_position(sorted, rows.last(), sort);
        assert(rows.drop_last().push(rows.last()) =~= rows);
        assert(sorted.insert(at, rows.last()).to_multiset() == sorted.to_multiset().insert(
            rows.last(),
        ));
        assert(rows.drop_last().push(rows.last()).to_multiset()
            == rows.drop_last().to_multiset().insert(rows.last()));
    }
}

/// The sorted rows are in the order of the key: no row stands behind a row
/// that it must precede.
pub proof fn lemma_sort_rows_ordered(rows: Seq<FunctionStats>, sort: Sort)
    ensures
        ordered(sort_rows(rows, sort), sort),
    decreases rows.len(),
{
    if rows.len() > 0 {
        let sorted = sort_rows(rows.drop_last(), sort);
        let row = rows.last();
        lemma_sort_rows_ordered(rows.drop_last(), sort);
        let at = lemma_insert_row_position(sorted, row, sort);
        let next = sorted.insert(at, row);
        assert forall|i: int, j: int| 0 <= i < j < next.len() implies !precedes(
            next[j],
            next[i],
            sort,
        ) by {
            if i == at {
                // next[j] is a row behind the place of `row`
                lemma_precedes_strict(next[j], row, sorted[at], sort);
                lemma_precedes_strict(sorted[at], sorted[at], sorted[at], sort);
                assert(next[j] == sorted[j - 1]);
                if j - 1 > at {
                    assert(!precedes(sorted[j - 1], sorted[at], sort));
                }
            } else if j == at {
                assert(next[i] == sorted[i]);
            } else {
                let from_i = if i < at {
                    i
                } else {
                    i - 1
                };
                let from_j = if j < at {
                    j
                } else {
                    j - 1
                };
                assert(next[i] == sorted[from_i]);
                assert(next[j] == sorted[from_j]);
            }
        }
    }
}

/// Whether `a` must stand before `b` in a report sorted by `sort`.
fn row_precedes(a: &FuncAnalysis, b: &FuncAnalysis, sort: Sort) -> (before: bool)
    ensures
        before == precedes(a@, b@, sort),
{
    match sort {
        Sort::NameAscending => text_before(a.name.as_str(), b.name.as_str()),
        Sort::NameDescending => text_before(b.name.as_str(), a.name.as_str()),
        Sort::TotalTime => a.total_time > b.total_time,
        Sort::MinTime => a.min_time > b.min_time,
        Sort::MaxTime => a.max_time > b.max_time,
        Sort::AverageTime => a.average_time > b.average_time,
        Sort::Calls => a.calls > b.calls,
    }
}

/// Sorts the aggregates for a report, by insertion.
pub fn sort_entries(entries: &Vec<FuncAnalysis>, sort: Sort) -> (rows: Vec<FuncAnalysis>)
    ensures
        stats_view(rows@) == sort_rows(stats_view(entries@), sort),
{
    let mut rows: Vec<FuncAnalysis> = Vec::new();
    let mut i: usize = 0;
    while i < entries.len()
        invariant
            i <= entries@.len(),
            stats_view(rows@) == sort_rows(stats_view(entries@).take(i as int), sort),
        decreases entries@.len() - i,
    {
        let entry = entries[i];
        let mut at: usize = 0;
        while at < rows.len() && !row_precedes(&entry, &rows[at], sort)
            invariant
                at <= rows@.len(),
                forall|m: int| 0 <= m < at ==> !precedes(entry@, rows@[m]@, sort),
            decreases rows@.len() - at,
        {
            at += 1;
        }
        let ghost before = stats_view(rows@);
        rows.insert(at, entry);
        proof {
            lemma_insert_row_at(before, entry@, sort, at as int);
            assert(stats_view(rows@) =~= before.insert(at as int, entry@));
            assert(stats_view(entries@).take(i + 1).drop_last() =~= stats_view(entries@).take(
                i as int,
            ));
        }
        i += 1;
    }
    assert(stats_view(entries@).take(i as int) =~= stats_view(entries@));
    rows
}

/// The character of a decimal digit.
pub open spec fn digit_char(digit: nat) -> char {
    if digit == 0 {
        '0'
    } else if digit == 1 {
        '1'
    } else if digit == 2 {
        '2'
    } else if digit == 3 {
        '3'
    } else if digit == 4 {
        '4'
    } else if digit == 5 {
        '5'
    } else if digit == 6 {
        '6'
    } else if digit == 7 {
        '7'
    } else if digit == 8 {
        '8'
    } else {
        '9'
    }
}

/// The decimal numeral of `n`, without leading zeros.
pub open spec fn decimal(n: nat) -> Seq<char>
    decreases n,
{
    if n < 10 {
        seq![digit_char(n)]
    } else {
        decimal(n / 10).push(digit_char(n % 10))
    }
}

/// `count` spaces.
pub open spec fn spaces(count: nat) -> Seq<char> {
    Seq::new(count, |i: int| ' ')
}

/// How many spaces fill `text` up to `width` characters.
pub open spec fn padding(text: Seq<char>, width: nat) -> nat {
    if text.len() < width {
        (width - text.len()) as nat
    } else {
        0
    }
}

/// `text` at the left of a column of `width` characters. A longer text is
/// kept whole.
pub open spec fn left_aligned(text: Seq<char>, width: nat) -> Seq<char> {
    text + spaces(padding(text, width))
}

/// `text` at the right of a column of `width` characters. A longer text is
/// kept whole.
pub open spec fn right_aligned(text: Seq<char>, width: nat) -> Seq<char> {
    spaces(padding(text, width)) + text
}

/// The first line of every report.
pub open spec fn header_line() -> Seq<char> {
    "Function Name        Total Time   Min Time   Max Time   Avg Time                Calls\n"@
}

/// The line of one function: its name in a column of 20, its four durations
/// in `unit` in columns of 10, and its call count in a column of 20, with one
/// space between columns and a line feed at the end.
pub open spec fn row_line(row: FunctionStats, unit: Unit) -> Seq<char> {
    left_aligned(row.name, 20) + seq![' '] + right_aligned(
        decimal(convert(row.total_time, unit)),
        10,
    ) + seq![' '] + right_aligned(decimal(convert(row.min_time, unit)), 10) + seq![' ']
        + right_aligned(decimal(convert(row.max_time, unit)), 10) + seq![' '] + right_aligned(
        decimal(convert(row.average_time, unit)),
        10,
    ) + seq![' '] + right_aligned(decimal(row.calls), 20) + seq!['\n']
}

/// The lines of the rows, in their order.
pub open spec fn row_lines(rows: Seq<FunctionStats>, unit: Unit) -> Seq<char>
    decreases rows.len(),
{
    if rows.len() == 0 {
        Seq::empty()
    } else {
        row_lines(rows.drop_last(), unit) + row_line(rows.last(), unit)
    }
}

/// The report on `rows`: the header line, then one line per row in the
/// order of `sort`, durations shown in `unit`.
pub open spec fn report_text(rows: Seq<FunctionStats>, sort: Sort, unit: Unit) -> Seq<char> {
    header_line() + row_lines(sort_rows(rows, sort), unit)
}

/// The numeral of one decimal digit.
fn digit_text(digit: u8) -> (text: &'static str)
    requires
        digit < 10,
    ensures
        text@ == seq![digit_char(digit as nat)],
{
    proof {
        reveal_strlit("0");
        reveal_strlit("1");
        reveal_strlit("2");
        reveal_strlit("3");
        reveal_strlit("4");
        reveal_strlit("5");
        reveal_strlit("6");
        reveal_strlit("7");
        reveal_strlit("8");
        reveal_strlit("9");
    }
    let text = match digit {
        0 => "0",
        1 => "1",
        2 => "2",
        3 => "3",
        4 => "4",
        5 => "5",
        6 => "6",
        7 => "7",
        8 => "8",
        _ => "9",
    };
    assert(text@ =~= seq![digit_char(digit as nat)]);
    text
}

/// Appends the decimal numeral of `n`.
fn push_decimal(out: &mut String, n: u128)
    ensures
        final(out)@ == old(out)@ + decimal(n as nat),
    decreases n,
{
    if n >= 10 {
        push_decimal(out, n / 10);
    }
    out.append(digit_text((n % 10) as u8));
    assert(out@ =~= old(out)@ + decimal(n as nat));
}

/// Appends `count` spaces.
fn push_spaces(out: &mut String, count: usize)
    ensures
        final(out)@ == old(out)@ + spaces(count as nat),
{
    let mut done: usize = 0;
    assert(out@ =~= old(out)@ + spaces(0));
    while done < count
        invariant
            done <= count,
            out@ == old(out)@ + spaces(done as nat),
        decreases count - done,
    {
        proof {
            reveal_strlit(" ");
        }
        out.append(" ");
        done += 1;
        assert(out@ =~= old(out)@ + spaces(done as nat));
    }
}

/// How many spaces fill a text of `len` characters up to `width`.
fn padding_for(len: usize, width: usize) -> (count: usize)
    ensures
        count == if len < width {
            width - len
        } else {
            0
        },
{
    if len < width {
        width - len
    } else {
        0
    }
}

/// Appends `text` at the left of a column of `width` characters.
fn push_left_aligned(out: &mut String, text: &str, width: usize)
    ensures
        final(out)@ == old(out)@ + left_aligned(text@, width as nat),
{
    out.append(text);
    push_spaces(out, padding_for(text.unicode_len(), width));
    assert(out@ =~= old(out)@ + left_aligned(text@, width as nat));
}

/// Appends the decimal numeral of `n` at the right of a column of `width`
/// characters.
fn push_number(out: &mut String, n: u128, width: usize)
    ensures
        final(out)@ == old(out)@ + right_aligned(decimal(n as nat), width as nat),
{
    let mut numeral = String::new();
    push_decimal(&mut numeral, n);
    assert(numeral@ =~= decimal(n as nat));
    push_spaces(out, padding_for(numeral.as_str().unicode_len(), width));
    out.append(numeral.as_str());
    assert(out@ =~= old(out)@ + right_aligned(decimal(n as nat), width as nat));
}

/// Appends the line of one function.
fn push_row(out: &mut String, entry: &FuncAnalysis, unit: Unit)
    ensures
        final(out)@ == old(out)@ + row_line(entry@, unit),
{
    proof {
        reveal_strlit(" ");
        reveal_strlit("\n");
    }
    push_left_aligned(out, entry.name.as_str(), 20);
    out.append(" ");
    push_number(out, convert_time(entry.total_time, unit), 10);
    out.append(" ");
    push_number(out, convert_time(entry.min_time, unit), 10);
    out.append(" ");
    push_number(out, convert_time(entry.max_time, unit), 10);
    out.append(" ");
    push_number(out, convert_time(entry.average_time, unit), 10);
    out.append(" ");
    push_number(out, entry.calls as u128, 20);
    out.append("\n");
    assert(out@ =~= old(out)@ + row_line(entry@, unit));
}

/// Renders the report on `entries`: the header line, then the line of each
/// function in the order of `sort`.
pub fn render(entries: &Vec<FuncAnalysis>, sort: Sort, unit: Unit) -> (report: String)
    ensures
        report@ == report_text(stats_view(entries@), sort, unit),
{
    let rows = sort_entries(entries, sort);
    let mut report = String::new();
    report.append(
        "Function Name        Total Time   Min Time   Max Time   Avg Time                Calls\n",
    );
    assert(report@ =~= header_line());
    let mut i: usize = 0;
    assert(row_lines(stats_view(rows@).take(0), unit) =~= Seq::<char>::empty());
    assert(report@ =~= header_line() + row_lines(stats_view(rows@).take(0), unit));
    while i < rows.len()
        invariant
            i <= rows@.len(),
            report@ == header_line() + row_lines(stats_view(rows@).take(i as int), unit),
        decreases rows@.len() - i,
    {
        push_row(&mut report, &rows[i], unit);
        proof {
            let shown = stats_view(rows@);
            assert(shown.take(i + 1).drop_last() =~= shown.take(i as int));
            assert(shown.take(i + 1).last() == rows@[i as int]@);
            assert(report@ =~= header_line() + row_lines(shown.take(i + 1), unit));
        }
        i += 1;
    }
    assert(stats_view(rows@).take(i as int) =~= stats_view(rows@));
    report
}

} // verus!
