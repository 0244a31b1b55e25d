//! The two line grammars: a line of a channel map and a line of a matrix.
//!
//! A channel-map line is optional spaces, a number, one or more spaces or
//! commas, a second number, and nothing after it. A matrix line is
//! `( row , col ): value`, with single spaces exactly as written, and the
//! value is whatever follows the space behind the colon.

use vstd::prelude::*;

use vstd::string::StringExecFns;

use crate::decimal::{
    all_digits, decimal_digits, decimal_i32, is_digit, lemma_decimal_digits, parse_decimal,
    push_decimal,
};
use crate::records::Record;
use crate::text::{no_newline, string_of, text_lines};

verus! {

/// The classes of characters that the grammars repeat.
#[derive(Clone, Copy, Debug, PartialEq, Eq)]
pub enum CharClass {
    /// The space character.
    Space,
    /// An ASCII decimal digit.
    Digit,
    /// A space or a comma.
    Separator,
}

/// `c` belongs to `class`.
pub open spec fn in_class(class: CharClass, c: char) -> bool {
    match class {
        CharClass::Space => c == ' ',
        CharClass::Digit => is_digit(c),
        CharClass::Separator => c == ' ' || c == ',',
    }
}

/// Where the longest run of characters of `class` that starts at `from`
/// ends. It is `from` itself if no such character stands there.
pub open spec fn run_end(s: Seq<char>, from: int, class: CharClass) -> int
    decreases s.len() - from,
{
    if 0 <= from < s.len() && in_class(class, s[from]) {
        run_end(s, from + 1, class)
    } else {
        from
    }
}

/// `lit` stands in `s` at position `at`.
pub open spec fn has_at(s: Seq<char>, at: int, lit: Seq<char>) -> bool {
    0 <= at && at + lit.len() <= s.len() && s.subrange(at, at + lit.len()) == lit
}

/// What opens a matrix line.
pub open spec fn matrix_open() -> Seq<char> {
    seq!['(', ' ']
}

/// What stands between the row and the column of a matrix line.
pub open spec fn matrix_comma() -> Seq<char> {
    seq![' ', ',', ' ']
}

/// What stands between the column and the value of a matrix line.
pub open spec fn matrix_close() -> Seq<char> {
    seq![' ', ')', ':', ' ']
}

/// A non-empty run of digits.
pub open spec fn is_numeral(s: Seq<char>) -> bool {
    s.len() > 0 && all_digits(s)
}

/// The two numerals of a channel-map line, or `None` for a line that is
/// not one.
pub open spec fn channel_line(line: Seq<char>) -> Option<(Seq<char>, Seq<char>)> {
    let a = run_end(line, 0, CharClass::Space);
    let b = run_end(line, a, CharClass::Digit);
    let c = run_end(line, b, CharClass::Separator);
    let d = run_end(line, c, CharClass::Digit);
    if a < b && b < c && c < d && d == line.len() {
        Some((line.subrange(a, b), line.subrange(c, d)))
    } else {
        None
    }
}

/// The row numeral, the column numeral and the value of a matrix line, or
/// `None` for a line that is not one.
pub open spec fn matrix_line(line: Seq<char>) -> Option<(Seq<char>, Seq<char>, Seq<char>)> {
    let b = run_end(line, 2, CharClass::Digit);
    let d = run_end(line, b + 3, CharClass::Digit);
    if has_at(line, 0, matrix_open()) && 2 < b && has_at(line, b, matrix_comma()) && b + 3 < d
        && has_at(line, d, matrix_close()) {
        Some((line.subrange(2, b), line.subrange(b + 3, d), line.skip(d + 4)))
    } else {
        None
    }
}

/// The record of a channel-map line: the original and the new channel.
/// A channel map has no malformed lines: a line with a numeral that does
/// not fit in 32 bits is passed over like one that does not match.
pub open spec fn channel_record(line: Seq<char>) -> Record<(i32, i32)> {
    match channel_line(line) {
        None => Record::Skipped,
        Some((first, second)) => match (decimal_i32(first), decimal_i32(second)) {
            (Some(original), Some(renumbered)) => Record::Entry((original, renumbered)),
            _ => Record::Skipped,
        },
    }
}

/// The record of a matrix line: the cell, as row and column, and the
/// value. A line that matches but has a numeral that does not fit in 32
/// bits is malformed.
pub open spec fn matrix_record(line: Seq<char>) -> Record<((i32, i32), Seq<char>)> {
    match matrix_line(line) {
        None => Record::Skipped,
        Some((first, second, value)) => match (decimal_i32(first), decimal_i32(second)) {
            (Some(row), Some(col)) => Record::Entry(((row, col), value)),
            _ => Record::Malformed,
        },
    }
}

/// The records of the lines of a channel-map text, line by line.
pub open spec fn channel_records(text: Seq<char>) -> Seq<Record<(i32, i32)>> {
    text_lines(text).map_values(|line: Seq<char>| channel_record(line))
}

/// The records of the lines of a matrix text, line by line.
pub open spec fn matrix_records(text: Seq<char>) -> Seq<Record<((i32, i32), Seq<char>)>> {
    text_lines(text).map_values(|line: Seq<char>| matrix_record(line))
}

/// The end of a run is at or behind its start and inside the text, the
/// run holds only characters of its class, and the character behind it,
/// if there is one, is of another class.
pub proof fn lemma_run_end(s: Seq<char>, from: int, class: CharClass)
    requires
        0 <= from <= s.len(),
    ensures
        from <= run_end(s, from, class) <= s.len(),
        forall|i: int| from <= i < run_end(s, from, class) ==> in_class(class, #[trigger] s[i]),
        run_end(s, from, class) < s.len() ==> !in_class(class, s[run_end(s, from, class)]),
    decreases s.len() - from,
{
    if from < s.len() && in_class(class, s[from]) {
        lemma_run_end(s, from + 1, class);
    }
}

/// A run that is known to hold only characters of its class, and to be
/// followed by none, ends where `run_end` says.
pub proof fn lemma_run_end_unique(s: Seq<char>, from: int, end: int, class: CharClass)
    requires
        0 <= from <= end <= s.len(),
        forall|i: int| from <= i < end ==> in_class(class, #[trigger] s[i]),
        end < s.len() ==> !in_class(class, s[end]),
    ensures
        run_end(s, from, class) == end,
    decreases end - from,
{
    if from < end {
        lemma_run_end_unique(s, from + 1, end, class);
    }
}

/// Tells whether a character belongs to a class.
pub fn class_holds(class: CharClass, c: char) -> (r: bool)
    ensures
        r == in_class(class, c),
{
    match class {
        CharClass::Space => c == ' ',
        CharClass::Digit => '0' <= c && c <= '9',
        CharClass::Separator => c == ' ' || c == ',',
    }
}

/// Finds the end of the run of characters of `class` that starts at `from`.
pub fn scan_run(line: &[char], from: usize, class: CharClass) -> (end: usize)
    ensures
        end == run_end(line@, from as int, class),
{
    let mut i: usize = from;
    while i < line.len() && class_holds(class, line[i])
        invariant
            from <= i,
            run_end(line@, from as int, class) == run_end(line@, i as int, class),
        decreases line.len() - i,
    {
        i = i + 1;
    }
    i
}

/// Tells whether `lit` stands in `line` at position `at`.
pub fn literal_at(line: &[char], at: usize, lit: &[char]) -> (r: bool)
    ensures
        r == has_at(line@, at as int, lit@),
{
    if at > line.len() || lit.len() > line.len() - at {
        return false;
    }
    let mut k: usize = 0;
    while k < lit.len()
        invariant
            k <= lit.len(),
            at + lit.len() <= line.len(),
            forall|i: int| 0 <= i < k ==> line@[at + i] == lit@[i],
        decreases lit.len() - k,
    {
        if line[at + k] != lit[k] {
            assert(line@.subrange(at as int, at + lit.len())[k as int] != lit@[k as int]);
            return false;
        }
        k = k + 1;
    }
    assert(line@.subrange(at as int, at + lit.len()) =~= lit@);
    true
}

/// Reads one line of a channel map.
pub fn read_channel_line(line: &[char]) -> (r: Record<(i32, i32)>)
    ensures
        r == channel_record(line@),
{
    let a: usize = scan_run(line, 0, CharClass::Space);
    let b: usize = scan_run(line, a, CharClass::Digit);
    let c: usize = scan_run(line, b, CharClass::Separator);
    let d: usize = scan_run(line, c, CharClass::Digit);
    if a < b && b < c && c < d && d == line.len() {
        let original = parse_decimal(&line[a..b]);
        let renumbered = parse_decimal(&line[c..d]);
        match (original, renumbered) {
            (Some(original), Some(renumbered)) => Record::Entry((original, renumbered)),
            _ => Record::Skipped,
        }
    } else {
        Record::Skipped
    }
}

/// The record that `read_matrix_line` returns, with the value as a
/// sequence of characters.
pub open spec fn record_view(r: Record<((i32, i32), String)>) -> Record<
    ((i32, i32), Seq<char>),
> {
    match r {
        Record::Skipped => Record::Skipped,
        Record::Malformed => Record::Malformed,
        Record::Entry((cell, value)) => Record::Entry((cell, value@)),
    }
}

/// Reads one line of a matrix.
pub fn read_matrix_line(line: &[char]) -> (r: Record<((i32, i32), String)>)
    ensures
        record_view(r) == matrix_record(line@),
{
    let len: usize = line.len();
    let open: [char; 2] = ['(', ' '];
    let comma: [char; 3] = [' ', ',', ' '];
    let close: [char; 4] = [' ', ')', ':', ' '];
    assert(open@ =~= matrix_open());
    assert(comma@ =~= matrix_comma());
    assert(close@ =~= matrix_close());
    assert(matrix_comma().len() == 3 && matrix_close().len() == 4);
    if !literal_at(line, 0, open.as_slice()) {
        return Record::Skipped;
    }
    let b: usize = scan_run(line, 2, CharClass::Digit);
    proof {
        lemma_run_end(line@, 2, CharClass::Digit);
    }
    let has_comma: bool = literal_at(line, b, comma.as_slice());
    if !(2 < b && has_comma) {
        return Record::Skipped;
    }

    let d: usize = scan_run(line, b + 3, CharClass::Digit);
    proof {
        lemma_run_end(line@, b + 3, CharClass::Digit);
    }
    let has_close: bool = literal_at(line, d, close.as_slice());
    if !(b + 3 < d && has_close) {
        return Record::Skipped;
    }

    let row = parse_decimal(&line[2..b]);
    let col = parse_decimal(&line[b + 3..d]);
    match (row, col) {
        (Some(row), Some(col)) => {
            let value = string_of(&line[d + 4..len]);
            Record::Entry(((row, col), value))
        },
        _ => Record::Malformed,
    }
}

/// The matrix line with the given row numeral, column numeral and value.
pub open spec fn matrix_line_text(row: Seq<char>, col: Seq<char>, value: Seq<char>) -> Seq<char> {
    matrix_open() + row + matrix_comma() + col + matrix_close() + value
}

/// Appends to `out` the matrix line for the cell `(row, col)` with the
/// given value, without a newline behind it.
pub fn push_matrix_line(out: &mut String, row: usize, col: usize, value: &str)
    ensures
        final(out)@ == old(out)@ + matrix_line_text(
            decimal_digits(row as nat),
            decimal_digits(col as nat),
            value@,
        ),
{
    out.push('(');
    out.push(' ');
    push_decimal(out, row);
    out.push(' ');
    out.push(',');
    out.push(' ');
    push_decimal(out, col);
    out.push(' ');
    out.push(')');
    out.push(':');
    out.push(' ');
    out.append(value);
    assert(final(out)@ =~= old(out)@ + matrix_line_text(
        decimal_digits(row as nat),
        decimal_digits(col as nat),
        value@,
    ));
}

/// A non-empty run of spaces and commas.
pub open spec fn is_separator_run(s: Seq<char>) -> bool {
    s.len() > 0 && forall|i: int| 0 <= i < s.len() ==> in_class(CharClass::Separator, #[trigger] s[i])
}

/// The channel-map line with `pad` spaces in front, the two numerals, and
/// `sep` between them.
pub open spec fn channel_line_text(
    pad: nat,
    first: Seq<char>,
    sep: Seq<char>,
    second: Seq<char>,
) -> Seq<char> {
    Seq::new(pad, |i: int| ' ') + first + sep + second
}

/// A line put together as the channel-map grammar says is read as a
/// channel-map line, and its two numerals are those it was made of.
pub proof fn lemma_channel_line_of_text(
    pad: nat,
    first: Seq<char>,
    sep: Seq<char>,
    second: Seq<char>,
)
    requires
        is_numeral(first),
        is_separator_run(sep),
        is_numeral(second),
    ensures
        channel_line(channel_line_text(pad, first, sep, second)) == Some((first, second)),
{
    let line = channel_line_text(pad, first, sep, second);
    let a: int = pad as int;
    let b: int = a + first.len();
    let c: int = b + sep.len();
    let d: int = c + second.len();
    assert(line.len() == d);
    assert forall|i: int| 0 <= i < a implies in_class(CharClass::Space, #[trigger] line[i]) by {}
    assert forall|i: int| a <= i < b implies in_class(CharClass::Digit, #[trigger] line[i]) by {
        assert(line[i] == first[i - a]);
    }
    assert forall|i: int| b <= i < c implies in_class(CharClass::Separator, #[trigger] line[i]) by {
        assert(line[i] == sep[i - b]);
    }
    assert forall|i: int| c <= i < d implies in_class(CharClass::Digit, #[trigger] line[i]) by {
        assert(line[i] == second[i - c]);
    }
    assert(line[a] == first[0]);
    assert(line[b] == sep[0]);
    assert(line[c] == second[0]);
    lemma_run_end_unique(line, 0, a, CharClass::Space);
    lemma_run_end_unique(line, a, b, CharClass::Digit);
    lemma_run_end_unique(line, b, c, CharClass::Separator);
    lemma_run_end_unique(line, c, d, CharClass::Digit);
    assert(line.subrange(a, b) =~= first);
    assert(line.subrange(c, d) =~= second);
}

/// A channel-map line written with the digits of two numbers that fit in
/// 32 bits is read as the entry of the first for the second.
pub proof fn lemma_channel_record_of_numbers(
    pad: nat,
    original: nat,
    sep: Seq<char>,
    renumbered: nat,
)
    requires
        original <= i32::MAX,
        renumbered <= i32::MAX,
        is_separator_run(sep),
    ensures
        channel_record(
            channel_line_text(pad, decimal_digits(original), sep, decimal_digits(renumbered)),
        ) == Record::Entry((original as i32, renumbered as i32)),
{
    lemma_decimal_digits(original);
    lemma_decimal_digits(renumbered);
    lemma_channel_line_of_text(pad, decimal_digits(original), sep, decimal_digits(renumbered));
}

/// A line that is read as a channel-map line is put together as the
/// grammar says: spaces, the first numeral, spaces and commas, the second
/// numeral.
pub proof fn lemma_channel_line_shape(line: Seq<char>)
    requires
        channel_line(line) is Some,
    ensures
        ({
            let (first, second) = channel_line(line)->Some_0;
            let pad = run_end(line, 0, CharClass::Space);
            let sep = line.subrange(pad + first.len(), line.len() - second.len());
            &&& pad >= 0
            &&& is_numeral(first)
            &&& is_separator_run(sep)
            &&& is_numeral(second)
            &&& line == channel_line_text(pad as nat, first, sep, second)
        }),
{
    let a = run_end(line, 0, CharClass::Space);
    lemma_run_end(line, 0, CharClass::Space);
    let b = run_end(line, a, CharClass::Digit);
    lemma_run_end(line, a, CharClass::Digit);
    let c = run_end(line, b, CharClass::Separator);
    lemma_run_end(line, b, CharClass::Separator);
    let d = run_end(line, c, CharClass::Digit);
    lemma_run_end(line, c, CharClass::Digit);
    let first = line.subrange(a, b);
    let second = line.subrange(c, d);
    let sep = line.subrange(b, c);
    assert forall|i: int| 0 <= i < first.len() implies is_digit(#[trigger] first[i]) by {
        assert(in_class(CharClass::Digit, line[a + i]));
    }
    assert forall|i: int| 0 <= i < second.len() implies is_digit(#[trigger] second[i]) by {
        assert(in_class(CharClass::Digit, line[c + i]));
    }
    assert forall|i: int| 0 <= i < sep.len() implies in_class(
        CharClass::Separator,
        #[trigger] sep[i],
    ) by {
        assert(in_class(CharClass::Separator, line[b + i]));
    }
    let made = channel_line_text(a as nat, first, sep, second);
    assert(made.len() == line.len());
    assert forall|i: int| 0 <= i < line.len() implies made[i] == line[i] by {
        if i < a {
            assert(in_class(CharClass::Space, line[i]));
        }
    }
    assert(made =~= line);
}

/// A line put together as the matrix grammar says is read as a matrix
/// line, and its fields are those it was made of. The value may be any
/// text.
pub proof fn lemma_matrix_line_of_text(row: Seq<char>, col: Seq<char>, value: Seq<char>)
    requires
        is_numeral(row),
        is_numeral(col),
    ensures
        matrix_line(matrix_line_text(row, col, value)) == Some((row, col, value)),
{
    let line = matrix_line_text(row, col, value);
    let b: int = 2 + row.len() as int;
    let d: int = b + 3 + col.len();
    assert(line.len() == d + 4 + value.len());
    assert(line.subrange(0, 2) =~= matrix_open());
    assert(line.subrange(b, b + 3) =~= matrix_comma());
    assert(line.subrange(d, d + 4) =~= matrix_close());
    assert forall|i: int| 2 <= i < b implies in_class(CharClass::Digit, #[trigger] line[i]) by {
        assert(line[i] == row[i - 2]);
    }
    assert forall|i: int| b + 3 <= i < d implies in_class(CharClass::Digit, #[trigger] line[i]) by {
        assert(line[i] == col[i - b - 3]);
    }
    assert(line[b] == ' ');
    assert(line[d] == ' ');
    lemma_run_end_unique(line, 2, b, CharClass::Digit);
    lemma_run_end_unique(line, b + 3, d, CharClass::Digit);
    assert(line.subrange(2, b) =~= row);
    assert(line.subrange(b + 3, d) =~= col);
    assert(line.skip(d + 4) =~= value);
}

/// A line that is read as a matrix line is put together as the grammar
/// says, of two numerals and the value.
pub proof fn lemma_matrix_line_shape(line: Seq<char>)
    requires
        matrix_line(line) is Some,
    ensures
        ({
            let (row, col, value) = matrix_line(line)->Some_0;
            &&& is_numeral(row)
            &&& is_numeral(col)
            &&& line == matrix_line_text(row, col, value)
        }),
{
    let b = run_end(line, 2, CharClass::Digit);
    lemma_run_end(line, 2, CharClass::Digit);
    let d = run_end(line, b + 3, CharClass::Digit);
    lemma_run_end(line, b + 3, CharClass::Digit);
    let row = line.subrange(2, b);
    let col = line.subrange(b + 3, d);
    let value = line.skip(d + 4);
    assert forall|i: int| 0 <= i < row.len() implies is_digit(#[trigger] row[i]) by {
        assert(in_class(CharClass::Digit, line[2 + i]));
    }
    assert forall|i: int| 0 <= i < col.len() implies is_digit(#[trigger] col[i]) by {
        assert(in_class(CharClass::Digit, line[b + 3 + i]));
    }
    let made = matrix_line_text(row, col, value);
    assert(made.len() == line.len());
    assert forall|i: int| 0 <= i < line.len() implies made[i] == line[i] by {
        if i < 2 {
            assert(line.subrange(0, 2)[i] == line[i]);
        } else if b <= i < b + 3 {
            assert(line.subrange(b, b + 3)[i - b] == line[i]);
        } else if d <= i < d + 4 {
            assert(line.subrange(d, d + 4)[i - d] == line[i]);
        }
    }
    assert(made =~= line);
}

/// `line` is put together as the channel-map grammar says, with `first`
/// and `second` as its numerals.
pub open spec fn is_channel_line(line: Seq<char>, first: Seq<char>, second: Seq<char>) -> bool {
    &&& is_numeral(first)
    &&& is_numeral(second)
    &&& exists|pad: nat, sep: Seq<char>|
        is_separator_run(sep) && line == #[trigger] channel_line_text(pad, first, sep, second)
}

/// `line` is put together as the matrix grammar says, with `row` and
/// `col` as its numerals and `value` as its value.
pub open spec fn is_matrix_line(
    line: Seq<char>,
    row: Seq<char>,
    col: Seq<char>,
    value: Seq<char>,
) -> bool {
    is_numeral(row) && is_numeral(col) && line == matrix_line_text(row, col, value)
}

/// A line is read as a channel-map line with two given numerals exactly
/// if it is put together of them as the grammar says.
pub proof fn lemma_channel_line_iff(line: Seq<char>, first: Seq<char>, second: Seq<char>)
    ensures
        channel_line(line) == Some((first, second)) <==> is_channel_line(line, first, second),
{
    if channel_line(line) == Some((first, second)) {
        lemma_channel_line_shape(line);
        let pad = run_end(line, 0, CharClass::Space);
        let sep = line.subrange(pad + first.len(), line.len() - second.len());
        assert(line == channel_line_text(pad as nat, first, sep, second));
    }
    if is_channel_line(line, first, second) {
        let (pad, sep) = choose|pad: nat, sep: Seq<char>|
            is_separator_run(sep) && line == #[trigger] channel_line_text(pad, first, sep, second);
        lemma_channel_line_of_text(pad, first, sep, second);
    }
}

/// A line is read as a matrix line with given numerals and value exactly
/// if it is put together of them as the grammar says.
pub proof fn lemma_matrix_line_iff(
    line: Seq<char>,
    row: Seq<char>,
    col: Seq<char>,
    value: Seq<char>,
)
    ensures
        matrix_line(line) == Some((row, col, value)) <==> is_matrix_line(line, row, col, value),
{
    if matrix_line(line) == Some((row, col, value)) {
        lemma_matrix_line_shape(line);
    }
    if is_matrix_line(line, row, col, value) {
        lemma_matrix_line_of_text(row, col, value);
    }
}

/// A matrix line made of numerals and a value without a newline holds no
/// newline.
pub proof fn lemma_matrix_line_text_one_line(row: Seq<char>, col: Seq<char>, value: Seq<char>)
    requires
        all_digits(row),
        all_digits(col),
        no_newline(value),
    ensures
        no_newline(matrix_line_text(row, col, value)),
{
    let head = matrix_open() + row + matrix_comma() + col + matrix_close();
    let b: int = 2 + row.len() as int;
    let d: int = b + 3 + col.len() as int;
    assert forall|k: int| 0 <= k < head.len() implies #[trigger] head[k] != '\n' by {
        if 2 <= k < b {
            assert(head[k] == row[k - 2]);
        } else if b + 3 <= k < d {
            assert(head[k] == col[k - b - 3]);
        }
    }
    let line = matrix_line_text(row, col, value);
    assert(line == head + value);
    assert forall|k: int| 0 <= k < line.len() implies #[trigger] line[k] != '\n' by {
        if k < head.len() {
            assert(line[k] == head[k]);
        } else {
            assert(line[k] == value[k - head.len()]);
        }
    }
}

/// The empty line is neither a channel-map line nor a matrix line.
pub proof fn lemma_empty_line_skipped()
    ensures
        channel_record(Seq::empty()) is Skipped,
        matrix_record(Seq::empty()) is Skipped,
{
    let empty = Seq::<char>::empty();
    lemma_run_end(empty, 0, CharClass::Space);
    lemma_run_end(empty, 0, CharClass::Digit);
    assert(matrix_open().len() == 2);
}

} // verus!
