//! What remapping does to a matrix that is read back from its output: the
//! identity map changes nothing, and a map followed by its inverse
//! restores every value.

use vstd::prelude::*;

use crate::error::RemapError;
use crate::grammar::matrix_records;
use crate::grid::{
    grid_cells, in_grid, lemma_square_text_agrees, lemma_square_text_parses, square_text,
};
use crate::records::{entries_of, none_malformed};
use crate::smatrix_utils::{
    all_cells_found, has_channel, remap_cell, remapped_text, remapped_values,
};
use crate::text::no_newline;

verus! {

/// No value of the matrix holds a newline.
pub open spec fn values_on_one_line(cells: Map<(i32, i32), Seq<char>>) -> bool {
    forall|p: (i32, i32)| cells.contains_key(p) ==> no_newline(#[trigger] cells[p])
}

/// The matrix has a value at every cell of the grid with side `n`.
pub open spec fn fills_grid(cells: Map<(i32, i32), Seq<char>>, n: int) -> bool {
    forall|i: i32, j: i32| in_grid(n, i as int, j as int) ==> #[trigger] cells.contains_key((i, j))
}

/// The values of a matrix, cell by cell.
pub open spec fn matrix_values(cells: Map<(i32, i32), Seq<char>>) -> spec_fn(int, int) -> Seq<
    char,
> {
    |i: int, j: int| cells[(i as i32, j as i32)]
}

/// The text of the matrix over the channels from 1 to `n`: the line of
/// each cell with the value that the matrix has there, row by row.
pub open spec fn matrix_text(cells: Map<(i32, i32), Seq<char>>, n: int) -> Seq<char> {
    square_text(matrix_values(cells), n)
}

/// The map has every channel from 1 to its size as a key, and gives each
/// a channel in that range.
pub open spec fn maps_into_grid(channels: Map<i32, i32>) -> bool {
    forall|i: int|
        1 <= i <= channels.len() ==> (#[trigger] has_channel(channels, i)) && 1
            <= channels[i as i32] <= channels.len()
}

/// The map gives every channel from 1 to its size that channel itself.
pub open spec fn is_identity(channels: Map<i32, i32>) -> bool {
    forall|i: int|
        1 <= i <= channels.len() ==> (#[trigger] has_channel(channels, i)) && channels[i as i32]
            == i
}

/// `forward` after `backward` gives every channel from 1 to the size of
/// the maps that channel itself.
pub open spec fn undoes(forward: Map<i32, i32>, backward: Map<i32, i32>) -> bool {
    &&& forward.len() == backward.len()
    &&& maps_into_grid(forward)
    &&& maps_into_grid(backward)
    &&& forall|i: int|
        1 <= i <= backward.len() ==> #[trigger] forward[backward[i as i32]] == i
}

/// A map whose channels from 1 to its size are all keys has a size that
/// fits in 32 bits.
proof fn lemma_size_fits(channels: Map<i32, i32>)
    requires
        forall|i: int| 1 <= i <= channels.len() ==> #[trigger] has_channel(channels, i),
    ensures
        channels.len() <= i32::MAX,
{
    if channels.len() >= 1 {
        assert(has_channel(channels, channels.len() as int));
    }
}

/// The text of a matrix that fills the grid with side `n`, and whose
/// values hold no newline, is read back as that matrix on the grid: the
/// cells of the grid with their values, and no other cell.
pub proof fn lemma_matrix_text_parses(cells: Map<(i32, i32), Seq<char>>, n: int)
    requires
        0 <= n <= i32::MAX,
        fills_grid(cells, n),
        values_on_one_line(cells),
    ensures
        none_malformed(matrix_records(matrix_text(cells, n))),
        entries_of(matrix_records(matrix_text(cells, n))) == grid_cells(matrix_values(cells), n),
        (forall|p: (i32, i32)| cells.contains_key(p) ==> in_grid(n, p.0 as int, p.1 as int))
            ==> entries_of(matrix_records(matrix_text(cells, n))) == cells,
{
    let values = matrix_values(cells);
    assert forall|i: int, j: int| in_grid(n, i, j) implies no_newline(#[trigger] values(i, j)) by {
        assert(cells.contains_key((i as i32, j as i32)));
    }
    lemma_square_text_parses(values, n);
    if forall|p: (i32, i32)| cells.contains_key(p) ==> in_grid(n, p.0 as int, p.1 as int) {
        assert(grid_cells(values, n) =~= cells);
    }
}

/// Remapping by the identity map changes nothing: for a matrix that fills
/// the grid, every cell finds its value, the value written for `(i, j)`
/// is the one that the matrix has at `(i, j)`, and so the output is the
/// text of the matrix itself.
pub proof fn lemma_identity_remap(channels: Map<i32, i32>, cells: Map<(i32, i32), Seq<char>>)
    requires
        is_identity(channels),
        fills_grid(cells, channels.len() as int),
    ensures
        all_cells_found(channels, cells),
        forall|i: int, j: int|
            in_grid(channels.len() as int, i, j) ==> #[trigger] remap_cell(channels, cells, i, j)
                == Ok::<Seq<char>, RemapError>(cells[(i as i32, j as i32)]),
        remapped_text(channels, cells) == matrix_text(cells, channels.len() as int),
{
    let n = channels.len() as int;
    assert forall|i: int, j: int| in_grid(n, i, j) implies #[trigger] remap_cell(
        channels,
        cells,
        i,
        j,
    ) == Ok::<Seq<char>, RemapError>(cells[(i as i32, j as i32)]) by {
        assert(has_channel(channels, i));
        assert(has_channel(channels, j));
        assert(cells.contains_key((i as i32, j as i32)));
    }
    let written = remapped_values(channels, cells);
    let held = matrix_values(cells);
    assert forall|i: int, j: int| in_grid(n, i, j) implies #[trigger] written(i, j) == held(
        i,
        j,
    ) by {
        assert(remap_cell(channels, cells, i, j) is Ok);
    }
    lemma_square_text_agrees(written, held, n);
}

/// Remapping by the identity map and reading the output back gives the
/// matrix again, if the matrix has exactly the cells of the grid and no
/// value holds a newline.
pub proof fn lemma_identity_round_trip(channels: Map<i32, i32>, cells: Map<(i32, i32), Seq<char>>)
    requires
        is_identity(channels),
        fills_grid(cells, channels.len() as int),
        forall|p: (i32, i32)|
            cells.contains_key(p) ==> in_grid(channels.len() as int, p.0 as int, p.1 as int),
        values_on_one_line(cells),
    ensures
        all_cells_found(channels, cells),
        none_malformed(matrix_records(remapped_text(channels, cells))),
        entries_of(matrix_records(remapped_text(channels, cells))) == cells,
{
    lemma_size_fits(channels);
    lemma_identity_remap(channels, cells);
    lemma_matrix_text_parses(cells, channels.len() as int);
}

/// The output of a remap in which every cell finds its value is read back
/// as a matrix on the grid, which holds at `(i, j)` the value that the
/// matrix remapped has at the pair that the map gives for `i` and `j`.
pub proof fn lemma_remapped_text_parses(
    channels: Map<i32, i32>,
    cells: Map<(i32, i32), Seq<char>>,
)
    requires
        all_cells_found(channels, cells),
        values_on_one_line(cells),
    ensures
        none_malformed(matrix_records(remapped_text(channels, cells))),
        entries_of(matrix_records(remapped_text(channels, cells))) == grid_cells(
            remapped_values(channels, cells),
            channels.len() as int,
        ),
{
    let n = channels.len() as int;
    let values = remapped_values(channels, cells);
    if n >= 1 {
        assert(remap_cell(channels, cells, n, n) is Ok);
    }
    assert forall|i: int, j: int| in_grid(n, i, j) implies no_newline(#[trigger] values(i, j)) by {
        assert(remap_cell(channels, cells, i, j) is Ok);
    }
    lemma_square_text_parses(values, n);
}

/// Remapping by a map and then, on the matrix read back from the output,
/// by a map that undoes it restores the matrix: the second remap finds
/// every cell, writes for `(i, j)` the value that the first matrix has at
/// `(i, j)`, and so its output is the text of the first matrix, which is
/// read back as the first matrix on the grid.
pub proof fn lemma_inverse_remap(
    forward: Map<i32, i32>,
    backward: Map<i32, i32>,
    cells: Map<(i32, i32), Seq<char>>,
)
    requires
        undoes(forward, backward),
        fills_grid(cells, forward.len() as int),
        values_on_one_line(cells),
    ensures
        all_cells_found(forward, cells),
        none_malformed(matrix_records(remapped_text(forward, cells))),
        ({
            let once = entries_of(matrix_records(remapped_text(forward, cells)));
            &&& all_cells_found(backward, once)
            &&& forall|i: int, j: int|
                in_grid(forward.len() as int, i, j) ==> #[trigger] remap_cell(backward, once, i, j)
                    == Ok::<Seq<char>, RemapError>(cells[(i as i32, j as i32)])
            &&& remapped_text(backward, once) == matrix_text(cells, forward.len() as int)
            &&& none_malformed(matrix_records(remapped_text(backward, once)))
            &&& entries_of(matrix_records(remapped_text(backward, once))) == grid_cells(
                matrix_values(cells),
                forward.len() as int,
            )
        }),
{
    let n = forward.len() as int;
    lemma_size_fits(forward);
    lemma_matrix_text_parses(cells, n);
    assert forall|i: int, j: int| in_grid(n, i, j) implies #[trigger] remap_cell(
        forward,
        cells,
        i,
        j,
    ) is Ok by {
        assert(has_channel(forward, i));
        assert(has_channel(forward, j));
        assert(cells.contains_key((forward[i as i32], forward[j as i32])));
    }
    lemma_remapped_text_parses(forward, cells);
    let once = entries_of(matrix_records(remapped_text(forward, cells)));
    assert forall|i: int, j: int| in_grid(n, i, j) implies #[trigger] remap_cell(
        backward,
        once,
        i,
        j,
    ) == Ok::<Seq<char>, RemapError>(cells[(i as i32, j as i32)]) by {
        assert(has_channel(backward, i));
        assert(has_channel(backward, j));
        let row = backward[i as i32];
        let col = backward[j as i32];
        assert(in_grid(n, row as int, col as int));
        assert(once.contains_key((row, col)));
        assert(has_channel(forward, row as int));
        assert(has_channel(forward, col as int));
        assert(forward[backward[i as i32]] == i);
        assert(forward[backward[j as i32]] == j);
        assert(remap_cell(forward, cells, row as int, col as int) is Ok);
    }
    let written = remapped_values(backward, once);
    let held = matrix_values(cells);
    assert forall|i: int, j: int| in_grid(n, i, j) implies #[trigger] written(i, j) == held(
        i,
        j,
    ) by {
        assert(remap_cell(backward, once, i, j) is Ok);
    }
    lemma_square_text_agrees(written, held, n);
}

} // verus!
