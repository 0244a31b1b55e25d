//! The text of a square matrix: one line for each cell, row by row.

use vstd::prelude::*;

use crate::decimal::{decimal_digits, lemma_decimal_digits};
use crate::grammar::{
    lemma_empty_line_skipped, lemma_matrix_line_of_text, lemma_matrix_line_text_one_line,
    matrix_line_text, matrix_record, matrix_records,
};
use crate::records::{entries_of, lemma_entries_of_push, none_malformed, record_into, Record};
use crate::text::{ends_lines, lemma_text_lines_append, no_newline, text_lines};

verus! {

/// `(i, j)` is a cell of the grid with side `n`.
pub open spec fn in_grid(n: int, i: int, j: int) -> bool {
    1 <= i <= n && 1 <= j <= n
}

/// The line for the cell `(i, j)` with the given value, newline included.
pub open spec fn cell_line(i: int, j: int, value: Seq<char>) -> Seq<char> {
    matrix_line_text(decimal_digits(i as nat), decimal_digits(j as nat), value) + seq!['\n']
}

/// The lines for the first `upto` columns of row `i`.
pub open spec fn row_text(value_at: spec_fn(int, int) -> Seq<char>, i: int, upto: int) -> Seq<
    char,
>
    decreases upto,
{
    if upto <= 0 {
        Seq::empty()
    } else {
        row_text(value_at, i, upto - 1) + cell_line(i, upto, value_at(i, upto))
    }
}

/// The lines for the first `upto` rows of a grid with `n` columns.
pub open spec fn grid_text(value_at: spec_fn(int, int) -> Seq<char>, n: int, upto: int) -> Seq<
    char,
>
    decreases upto,
{
    if upto <= 0 {
        Seq::empty()
    } else {
        grid_text(value_at, n, upto - 1) + row_text(value_at, upto, n)
    }
}

/// The text of the square grid with side `n`: the line for `(1, 1)`, then
/// `(1, 2)`, and so on through row 1, then row 2, up to `(n, n)`.
pub open spec fn square_text(value_at: spec_fn(int, int) -> Seq<char>, n: int) -> Seq<char> {
    grid_text(value_at, n, n)
}

/// The values of all cells of the grid with side `n` are free of
/// newlines.
pub open spec fn one_line_values(value_at: spec_fn(int, int) -> Seq<char>, n: int) -> bool {
    forall|i: int, j: int| in_grid(n, i, j) ==> no_newline(#[trigger] value_at(i, j))
}

/// The matrix that has, at each cell of the grid with side `n`, the value
/// given for it, and no other cell.
pub open spec fn grid_cells(value_at: spec_fn(int, int) -> Seq<char>, n: int) -> Map<
    (i32, i32),
    Seq<char>,
> {
    Map::new(
        |p: (i32, i32)| in_grid(n, p.0 as int, p.1 as int),
        |p: (i32, i32)| value_at(p.0 as int, p.1 as int),
    )
}

/// Two grids whose values agree on every cell have the same text.
pub proof fn lemma_square_text_agrees(
    first: spec_fn(int, int) -> Seq<char>,
    second: spec_fn(int, int) -> Seq<char>,
    n: int,
)
    requires
        forall|i: int, j: int| in_grid(n, i, j) ==> #[trigger] first(i, j) == second(i, j),
    ensures
        square_text(first, n) == square_text(second, n),
{
    lemma_grid_text_agrees(first, second, n, n);
}

proof fn lemma_row_text_agrees(
    first: spec_fn(int, int) -> Seq<char>,
    second: spec_fn(int, int) -> Seq<char>,
    n: int,
    i: int,
    upto: int,
)
    requires
        forall|i: int, j: int| in_grid(n, i, j) ==> #[trigger] first(i, j) == second(i, j),
        1 <= i <= n,
        upto <= n,
    ensures
        row_text(first, i, upto) == row_text(second, i, upto),
    decreases upto,
{
    if upto > 0 {
        lemma_row_text_agrees(first, second, n, i, upto - 1);
        assert(in_grid(n, i, upto));
    }
}

proof fn lemma_grid_text_agrees(
    first: spec_fn(int, int) -> Seq<char>,
    second: spec_fn(int, int) -> Seq<char>,
    n: int,
    upto: int,
)
    requires
        forall|i: int, j: int| in_grid(n, i, j) ==> #[trigger] first(i, j) == second(i, j),
        upto <= n,
    ensures
        grid_text(first, n, upto) == grid_text(second, n, upto),
    decreases upto,
{
    if upto > 0 {
        lemma_grid_text_agrees(first, second, n, upto - 1);
        lemma_row_text_agrees(first, second, n, upto, n);
    }
}

/// The line written for a cell is read as the entry for that cell with
/// that value, and holds a newline only if the value does.
pub proof fn lemma_cell_line_record(i: int, j: int, value: Seq<char>)
    requires
        0 <= i <= i32::MAX,
        0 <= j <= i32::MAX,
    ensures
        matrix_record(
            matrix_line_text(decimal_digits(i as nat), decimal_digits(j as nat), value),
        ) == Record::Entry(((i as i32, j as i32), value)),
        no_newline(value) ==> no_newline(
            matrix_line_text(decimal_digits(i as nat), decimal_digits(j as nat), value),
        ),
{
    let row = decimal_digits(i as nat);
    let col = decimal_digits(j as nat);
    lemma_decimal_digits(i as nat);
    lemma_decimal_digits(j as nat);
    lemma_matrix_line_of_text(row, col, value);
    if no_newline(value) {
        lemma_matrix_line_text_one_line(row, col, value);
    }
}

/// A line and its newline, added to a matrix text whose last line is
/// empty, add the record of that line to what the text is read as.
pub proof fn lemma_matrix_records_append(text: Seq<char>, line: Seq<char>)
    requires
        ends_lines(text),
        no_newline(line),
    ensures
        ends_lines(text + line + seq!['\n']),
        none_malformed(matrix_records(text + line + seq!['\n'])) <==> none_malformed(
            matrix_records(text),
        ) && !(matrix_record(line) is Malformed),
        entries_of(matrix_records(text + line + seq!['\n'])) == record_into(
            entries_of(matrix_records(text)),
            matrix_record(line),
        ),
{
    let empty = Seq::<char>::empty();
    let longer = text + line + seq!['\n'];
    lemma_text_lines_append(text, line);
    lemma_empty_line_skipped();
    let old_lines = text_lines(text);
    let old_records = matrix_records(text);
    let new_records = matrix_records(longer);
    let kept = old_records.drop_last();
    assert(old_records.last() == matrix_record(old_lines.last()));
    assert(new_records =~= kept.push(matrix_record(line)).push(matrix_record(empty)));
    assert(old_records =~= kept.push(matrix_record(empty)));
    lemma_entries_of_push(kept, matrix_record(empty));
    lemma_entries_of_push(kept, matrix_record(line));
    lemma_entries_of_push(kept.push(matrix_record(line)), matrix_record(empty));
    if none_malformed(old_records) && !(matrix_record(line) is Malformed) {
        assert forall|k: int| 0 <= k < new_records.len() implies !(
        #[trigger] new_records[k] is Malformed) by {
            if k < kept.len() {
                assert(new_records[k] == old_records[k]);
            }
        }
    }
    if none_malformed(new_records) {
        assert(new_records[kept.len() as int] == matrix_record(line));
        assert forall|k: int| 0 <= k < old_records.len() implies !(
        #[trigger] old_records[k] is Malformed) by {
            if k < kept.len() {
                assert(new_records[k] == old_records[k]);
            }
        }
    }
}

/// The cells of the first `a` rows and of the first `b` columns of the
/// row behind them.
spec fn written_cells(value_at: spec_fn(int, int) -> Seq<char>, n: int, a: int, b: int) -> Map<
    (i32, i32),
    Seq<char>,
> {
    Map::new(
        |p: (i32, i32)| 1 <= p.1 <= n && (1 <= p.0 <= a || (p.0 == a + 1 && p.1 <= b)),
        |p: (i32, i32)| value_at(p.0 as int, p.1 as int),
    )
}

proof fn lemma_partial_grid_parses(
    value_at: spec_fn(int, int) -> Seq<char>,
    n: int,
    a: int,
    b: int,
)
    requires
        0 <= n <= i32::MAX,
        0 <= a <= n,
        0 <= b <= n,
        a < n || b == 0,
        one_line_values(value_at, n),
    ensures
        ends_lines(grid_text(value_at, n, a) + row_text(value_at, a + 1, b)),
        none_malformed(matrix_records(grid_text(value_at, n, a) + row_text(value_at, a + 1, b))),
        entries_of(matrix_records(grid_text(value_at, n, a) + row_text(value_at, a + 1, b)))
            == written_cells(value_at, n, a, b),
    decreases a, b,
{
    let text = grid_text(value_at, n, a) + row_text(value_at, a + 1, b);
    if b > 0 {
        let i = a + 1;
        let shorter = grid_text(value_at, n, a) + row_text(value_at, i, b - 1);
        let value = value_at(i, b);
        let line = matrix_line_text(decimal_digits(i as nat), decimal_digits(b as nat), value);
        lemma_partial_grid_parses(value_at, n, a, b - 1);
        assert(in_grid(n, i, b));
        lemma_cell_line_record(i, b, value);
        lemma_matrix_records_append(shorter, line);
        assert(text =~= shorter + line + seq!['\n']);
        assert(written_cells(value_at, n, a, b) =~= written_cells(value_at, n, a, b - 1).insert(
            (i as i32, b as i32),
            value,
        ));
    } else if a > 0 {
        lemma_partial_grid_parses(value_at, n, a - 1, n);
        assert(text =~= grid_text(value_at, n, a - 1) + row_text(value_at, a, n));
        assert(written_cells(value_at, n, a, 0) =~= written_cells(value_at, n, a - 1, n));
    } else {
        lemma_empty_line_skipped();
        assert(text =~= Seq::<char>::empty());
        assert(matrix_records(text) =~= seq![matrix_record(Seq::<char>::empty())]);
        assert(entries_of(matrix_records(text).drop_last()) =~= Map::<
            (i32, i32),
            Seq<char>,
        >::empty());
        assert(written_cells(value_at, n, 0, 0) =~= Map::<(i32, i32), Seq<char>>::empty());
    }
}

/// The text of a square grid is read back as the matrix that holds the
/// value of each cell of the grid, provided that no value holds a
/// newline and the side fits the numbers that a matrix can hold.
pub proof fn lemma_square_text_parses(value_at: spec_fn(int, int) -> Seq<char>, n: int)
    requires
        0 <= n <= i32::MAX,
        one_line_values(value_at, n),
    ensures
        none_malformed(matrix_records(square_text(value_at, n))),
        entries_of(matrix_records(square_text(value_at, n))) == grid_cells(value_at, n),
{
    lemma_partial_grid_parses(value_at, n, n, 0);
    assert(grid_text(value_at, n, n) + row_text(value_at, n + 1, 0) =~= square_text(value_at, n));
    assert(written_cells(value_at, n, n, 0) =~= grid_cells(value_at, n));
}

} // verus!
