//! Reading a channel map and a matrix from text, and writing the matrix
//! out again under the new channel numbers.

use std::collections::HashMap;
use vstd::prelude::*;

use crate::error::{ParseError, RemapError};
use crate::grammar::{
    channel_records, matrix_records, push_matrix_line, read_channel_line, read_matrix_line,
};
use crate::grid::{cell_line, grid_text, in_grid, row_text, square_text};
use crate::matrix::SMatrix;
use crate::records::{entries_of, first_malformed, none_malformed, Record};
use crate::text::{line_views, split_lines, text_lines};

verus! {

broadcast use vstd::std_specs::hash::group_hash_axioms;

/// Parses the text of a channel map.
///
/// Every line that matches the grammar, with numerals that fit in 32
/// bits, is recorded as an entry from the original channel to the new
/// one, a later entry for the same original channel in place of an
/// earlier one. Every other line is passed over, so a parse cannot fail.
pub fn channel_map(text: &str) -> (map: HashMap<i32, i32>)
    ensures
        map@ == entries_of(channel_records(text@)),
{
    let lines = split_lines(text);
    let ghost records = channel_records(text@);
    let mut map: HashMap<i32, i32> = HashMap::new();
    let mut k: usize = 0;
    assert(records.take(0) =~= Seq::empty());
    while k < lines.len()
        invariant
            k <= lines.len(),
            line_views(lines@) == text_lines(text@),
            records == channel_records(text@),
            map@ == entries_of(records.take(k as int)),
        decreases lines.len() - k,
    {
        proof {
            assert(line_views(lines@)[k as int] == lines@[k as int]@);
            assert(records.take(k + 1).drop_last() =~= records.take(k as int));
        }
        match read_channel_line(lines[k].as_slice()) {
            Record::Entry((original, renumbered)) => {
                map.insert(original, renumbered);
            },
            _ => {},
        }
        k = k + 1;
    }
    assert(records.take(k as int) =~= records);
    map
}

/// Parses the text of a matrix.
///
/// Lines that do not match the grammar are passed over. The parse fails
/// exactly when some matching line holds a numeral that does not fit in
/// 32 bits, and the error names the first such line.
pub fn get_smat_at_f(text: &str) -> (r: Result<SMatrix, ParseError>)
    ensures
        match r {
            Ok(matrix) => {
                &&& none_malformed(matrix_records(text@))
                &&& matrix@ == entries_of(matrix_records(text@))
            },
            Err(ParseError::MalformedNumericLiteral { line }) => first_malformed(
                matrix_records(text@),
                line as int,
            ),
        },
{
    let lines = split_lines(text);
    let ghost records = matrix_records(text@);
    let mut matrix = SMatrix::new();
    let mut k: usize = 0;
    assert(records.take(0) =~= Seq::empty());
    while k < lines.len()
        invariant
            k <= lines.len(),
            line_views(lines@) == text_lines(text@),
            records == matrix_records(text@),
            none_malformed(records.take(k as int)),
            matrix@ == entries_of(records.take(k as int)),
        decreases lines.len() - k,
    {
        proof {
            assert(line_views(lines@)[k as int] == lines@[k as int]@);
            assert(records.take(k + 1).drop_last() =~= records.take(k as int));
        }
        match read_matrix_line(lines[k].as_slice()) {
            Record::Skipped => {},
            Record::Malformed => {
                return Err(ParseError::MalformedNumericLiteral { line: k });
            },
            Record::Entry(((row, col), value)) => {
                matrix.insert(row, col, value);
            },
        }
        k = k + 1;
    }
    assert(records.take(k as int) =~= records);
    Ok(matrix)
}

/// The channel map has an entry for the channel number `i`.
pub open spec fn has_channel(channels: Map<i32, i32>, i: int) -> bool {
    i32::MIN <= i <= i32::MAX && channels.contains_key(i as i32)
}

/// What the remapped matrix holds at row `i` and column `j` of the new
/// numbering: the value that the matrix has at the pair of channels that
/// the map gives for `i` and for `j`. The lookups are made in this order:
/// the map at `i`, the map at `j`, the matrix; the first that finds
/// nothing is the error.
pub open spec fn remap_cell(
    channels: Map<i32, i32>,
    cells: Map<(i32, i32), Seq<char>>,
    i: int,
    j: int,
) -> Result<Seq<char>, RemapError> {
    if !has_channel(channels, i) {
        Err(RemapError::MissingMapping { channel: i as usize })
    } else if !has_channel(channels, j) {
        Err(RemapError::MissingMapping { channel: j as usize })
    } else {
        let row = channels[i as i32];
        let col = channels[j as i32];
        if cells.contains_key((row, col)) {
            Ok(cells[(row, col)])
        } else {
            Err(RemapError::MissingMatrixEntry { row, col })
        }
    }
}

/// The value that the remapped matrix holds at `(i, j)`, for every cell
/// that finds one.
pub open spec fn remapped_values(
    channels: Map<i32, i32>,
    cells: Map<(i32, i32), Seq<char>>,
) -> spec_fn(int, int) -> Seq<char> {
    |i: int, j: int| remap_cell(channels, cells, i, j)->Ok_0
}

/// The whole output: one line for each cell of the square grid whose side
/// is the number of entries of the channel map, row by row.
pub open spec fn remapped_text(
    channels: Map<i32, i32>,
    cells: Map<(i32, i32), Seq<char>>,
) -> Seq<char> {
    square_text(remapped_values(channels, cells), channels.len() as int)
}

/// The cell `(i1, j1)` is written before the cell `(i2, j2)`.
pub open spec fn cell_precedes(i1: int, j1: int, i2: int, j2: int) -> bool {
    i1 < i2 || (i1 == i2 && j1 < j2)
}

/// Every cell of the grid finds its value.
pub open spec fn all_cells_found(
    channels: Map<i32, i32>,
    cells: Map<(i32, i32), Seq<char>>,
) -> bool {
    forall|i: int, j: int|
        in_grid(channels.len() as int, i, j) ==> #[trigger] remap_cell(
            channels,
            cells,
            i,
            j,
        ) is Ok
}

/// The cell `(i, j)` of the grid does not find its value, and every cell
/// written before it does.
pub open spec fn first_missing(
    channels: Map<i32, i32>,
    cells: Map<(i32, i32), Seq<char>>,
    i: int,
    j: int,
) -> bool {
    &&& in_grid(channels.len() as int, i, j)
    &&& remap_cell(channels, cells, i, j) is Err
    &&& forall|i2: int, j2: int|
        in_grid(channels.len() as int, i2, j2) && cell_precedes(i2, j2, i, j)
            ==> #[trigger] remap_cell(channels, cells, i2, j2) is Ok
}

/// At most one cell is the first that does not find its value, so the
/// error of a remap is determined by the map and the matrix.
pub proof fn lemma_first_missing_unique(
    channels: Map<i32, i32>,
    cells: Map<(i32, i32), Seq<char>>,
    i1: int,
    j1: int,
    i2: int,
    j2: int,
)
    requires
        first_missing(channels, cells, i1, j1),
        first_missing(channels, cells, i2, j2),
    ensures
        i1 == i2,
        j1 == j2,
{
    if cell_precedes(i1, j1, i2, j2) {
        assert(remap_cell(channels, cells, i1, j1) is Ok);
    }
    if cell_precedes(i2, j2, i1, j1) {
        assert(remap_cell(channels, cells, i2, j2) is Ok);
    }
}

/// Some cell does not find its value exactly if not every cell finds it:
/// a remap fails on the inputs on which it does not succeed, and on no
/// others.
pub proof fn lemma_first_missing_exists(
    channels: Map<i32, i32>,
    cells: Map<(i32, i32), Seq<char>>,
)
    ensures
        all_cells_found(channels, cells) <==> !exists|i: int, j: int|
            first_missing(channels, cells, i, j),
{
    let n = channels.len() as int;
    if !all_cells_found(channels, cells) {
        let (i, j) = choose|i: int, j: int|
            in_grid(n, i, j) && !(#[trigger] remap_cell(channels, cells, i, j) is Ok);
        lemma_first_missing_before(channels, cells, i, j, (i - 1) * n + j);
    }
    if exists|i: int, j: int| first_missing(channels, cells, i, j) {
        let (i, j) = choose|i: int, j: int| first_missing(channels, cells, i, j);
        assert(!(remap_cell(channels, cells, i, j) is Ok));
    }
}

/// A cell that does not find its value has a first such cell at or
/// before it.
proof fn lemma_first_missing_before(
    channels: Map<i32, i32>,
    cells: Map<(i32, i32), Seq<char>>,
    i: int,
    j: int,
    rank: int,
)
    requires
        in_grid(channels.len() as int, i, j),
        remap_cell(channels, cells, i, j) is Err,
        rank == (i - 1) * channels.len() + j,
    ensures
        exists|i0: int, j0: int| first_missing(channels, cells, i0, j0),
    decreases rank,
{
    let n = channels.len() as int;
    if exists|i2: int, j2: int|
        in_grid(n, i2, j2) && cell_precedes(i2, j2, i, j) && !(#[trigger] remap_cell(
            channels,
            cells,
            i2,
            j2,
        ) is Ok) {
        let (i2, j2) = choose|i2: int, j2: int|
            in_grid(n, i2, j2) && cell_precedes(i2, j2, i, j) && !(#[trigger] remap_cell(
                channels,
                cells,
                i2,
                j2,
            ) is Ok);
        assert((i2 - 1) * n + j2 < (i - 1) * n + j) by (nonlinear_arith)
            requires
                1 <= j2 <= n,
                1 <= j <= n,
                i2 < i || (i2 == i && j2 < j),
        ;
        assert((i2 - 1) * n + j2 >= 0) by (nonlinear_arith)
            requires
                1 <= i2,
                1 <= j2,
                n >= 0,
        ;
        lemma_first_missing_before(channels, cells, i2, j2, (i2 - 1) * n + j2);
    } else {
        assert(first_missing(channels, cells, i, j));
    }
}

/// Writes the matrix out under the new channel numbers.
///
/// With `n` the number of entries of the channel map, the output has one
/// line for each `(i, j)` with `i` and `j` from 1 to `n`, row by row,
/// and the line for `(i, j)` holds the value that `smat` has at
/// `(coil_map[i], coil_map[j])`. If one of these lookups finds nothing,
/// there is no output, and the error is that of the first cell, in the
/// order of writing, for which this happens.
pub fn remap_smat_at_f(coil_map: HashMap<i32, i32>, smat: SMatrix) -> (r: Result<
    String,
    RemapError,
>)
    ensures
        match r {
            Ok(text) => {
                &&& all_cells_found(coil_map@, smat@)
                &&& text@ == remapped_text(coil_map@, smat@)
            },
            Err(e) => exists|i: int, j: int|
                first_missing(coil_map@, smat@, i, j) && remap_cell(coil_map@, smat@, i, j)
                    == Err::<Seq<char>, RemapError>(e),
        },
{
    let n: usize = coil_map.len();
    let ghost cm = coil_map@;
    let ghost sm = smat@;
    let ghost values = remapped_values(cm, sm);
    let mut out = String::new();
    let mut a: usize = 0;
    while a < n
        invariant
            a <= n,
            n == cm.len(),
            cm == coil_map@,
            sm == smat@,
            values == remapped_values(cm, sm),
            out@ == grid_text(values, n as int, a as int),
            forall|i: int, j: int|
                1 <= i <= a && 1 <= j <= n ==> #[trigger] remap_cell(cm, sm, i, j) is Ok,
        decreases n - a,
    {
        let i: usize = a + 1;
        if i > i32::MAX as usize {
            assert(first_missing(cm, sm, i as int, 1));
            return Err(RemapError::MissingMapping { channel: i });
        }
        let row: i32 = match coil_map.get(&(i as i32)) {
            Some(found) => *found,
            None => {
                assert(first_missing(cm, sm, i as int, 1));
                return Err(RemapError::MissingMapping { channel: i });
            },
        };
        let mut b: usize = 0;
        while b < n
            invariant
                b <= n,
                i == a + 1,
                a < n,
                n == cm.len(),
                cm == coil_map@,
                sm == smat@,
                has_channel(cm, i as int),
                row == cm[i as i32],
                values == remapped_values(cm, sm),
                out@ == grid_text(values, n as int, a as int) + row_text(
                    values,
                    i as int,
                    b as int,
                ),
                forall|i2: int, j2: int|
                    1 <= i2 <= a && 1 <= j2 <= n ==> #[trigger] remap_cell(cm, sm, i2, j2) is Ok,
                forall|j2: int| 1 <= j2 <= b ==> #[trigger] remap_cell(cm, sm, i as int, j2) is Ok,
            decreases n - b,
        {
            let j: usize = b + 1;
            if j > i32::MAX as usize {
                assert(first_missing(cm, sm, i as int, j as int));
                return Err(RemapError::MissingMapping { channel: j });
            }
            let col: i32 = match coil_map.get(&(j as i32)) {
                Some(found) => *found,
                None => {
                    assert(first_missing(cm, sm, i as int, j as int));
                    return Err(RemapError::MissingMapping { channel: j });
                },
            };
            let value: &String = match smat.get(row, col) {
                Some(found) => found,
                None => {
                    assert(first_missing(cm, sm, i as int, j as int));
                    return Err(RemapError::MissingMatrixEntry { row, col });
                },
            };
            let ghost before = out@;
            push_matrix_line(&mut out, i, j, value.as_str());
            out.push('\n');
            proof {
                assert(remap_cell(cm, sm, i as int, j as int) == Ok::<Seq<char>, RemapError>(
                    value@,
                ));
                assert(values(i as int, j as int) == value@);
                assert(out@ =~= before + cell_line(i as int, j as int, value@));
                assert(out@ =~= grid_text(values, n as int, a as int) + row_text(
                    values,
                    i as int,
                    j as int,
                ));
            }
            b = b + 1;
        }
        a = a + 1;
    }
    Ok(out)
}

} // verus!
