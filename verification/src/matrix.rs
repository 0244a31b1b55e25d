//! The scattering-parameter matrix: values found by a pair of channels.

use std::collections::HashMap;
use vstd::prelude::*;

verus! {

broadcast use vstd::std_specs::hash::group_hash_axioms;

/// A sparse matrix of opaque values. Rows and columns are channel numbers;
/// a cell either holds a value or is absent.
#[derive(Debug)]
pub struct SMatrix {
    cells: HashMap<u64, String>,
}

/// The key under which the cell `(row, col)` is stored: the two numbers,
/// each shifted to be non-negative, side by side in 64 bits.
pub closed spec fn cell_key(row: i32, col: i32) -> u64 {
    ((row as int + 0x8000_0000) * 0x1_0000_0000 + (col as int + 0x8000_0000)) as u64
}

proof fn lemma_cell_key_injective(r1: i32, c1: i32, r2: i32, c2: i32)
    ensures
        cell_key(r1, c1) == cell_key(r2, c2) ==> r1 == r2 && c1 == c2,
{
}

/// The cell that is stored under a key.
spec fn key_cell(k: u64) -> (i32, i32) {
    ((k / 0x1_0000_0000 - 0x8000_0000) as i32, (k % 0x1_0000_0000 - 0x8000_0000) as i32)
}

proof fn lemma_key_cell(k: u64)
    ensures
        cell_key(key_cell(k).0, key_cell(k).1) == k,
{
}

proof fn lemma_cell_key(row: i32, col: i32)
    ensures
        key_cell(cell_key(row, col)) == (row, col),
{
}

fn key_of(row: i32, col: i32) -> (k: u64)
    ensures
        k == cell_key(row, col),
{
    let hi: u64 = (row as i64 + 0x8000_0000) as u64;
    let lo: u64 = (col as i64 + 0x8000_0000) as u64;
    hi * 0x1_0000_0000 + lo
}

impl View for SMatrix {
    type V = Map<(i32, i32), Seq<char>>;

    /// The matrix as a map from `(row, col)` to the characters of the value.
    closed spec fn view(&self) -> Map<(i32, i32), Seq<char>> {
        Map::new(
            |p: (i32, i32)| self.cells@.contains_key(cell_key(p.0, p.1)),
            |p: (i32, i32)| self.cells@[cell_key(p.0, p.1)]@,
        )
    }
}

impl Clone for SMatrix {
    /// A matrix with the same cells and values.
    fn clone(&self) -> (copy: SMatrix)
        ensures
            copy@ == self@,
    {
        SMatrix { cells: self.cells.clone() }
    }
}

impl SMatrix {
    /// The cells of the matrix are as many as the keys it stores.
    proof fn lemma_cells_counted(&self)
        ensures
            self@.dom().finite(),
            self@.len() == self.cells@.len(),
    {
        let keys = self.cells@.dom();
        let cells = self@.dom();
        let cell_of = |k: u64| key_cell(k);
        assert forall|k1: u64, k2: u64|
            keys.contains(k1) && keys.contains(k2) && #[trigger] cell_of(k1) == #[trigger] cell_of(
                k2,
            ) implies k1 == k2 by {
            lemma_key_cell(k1);
            lemma_key_cell(k2);
        }
        assert forall|p: (i32, i32)| cells.contains(p) <==> keys.map(cell_of).contains(p) by {
            if cells.contains(p) {
                lemma_cell_key(p.0, p.1);
                assert(keys.contains(cell_key(p.0, p.1)));
                assert(cell_of(cell_key(p.0, p.1)) == p);
            }
            if keys.map(cell_of).contains(p) {
                let k = choose|k: u64| keys.contains(k) && cell_of(k) == p;
                lemma_key_cell(k);
            }
        }
        assert(keys.map(cell_of) =~= cells);
        vstd::set_lib::lemma_map_size(keys, cells, cell_of);
    }

    /// A matrix without cells.
    pub fn new() -> (m: SMatrix)
        ensures
            m@ == Map::<(i32, i32), Seq<char>>::empty(),
    {
        let m = SMatrix { cells: HashMap::new() };
        assert(m@ =~= Map::<(i32, i32), Seq<char>>::empty());
        m
    }

    /// Stores `value` at `(row, col)`, in place of what was there.
    pub fn insert(&mut self, row: i32, col: i32, value: String)
        ensures
            final(self)@ == old(self)@.insert((row, col), value@),
    {
        let k: u64 = key_of(row, col);
        self.cells.insert(k, value);
        proof {
            assert forall|p: (i32, i32)| #[trigger]
                cell_key(p.0, p.1) == k implies p == (row, col) by {
                lemma_cell_key_injective(p.0, p.1, row, col);
            }
            assert(final(self)@ =~= old(self)@.insert((row, col), value@));
        }
    }

    /// The value at `(row, col)`, if the matrix has one.
    pub fn get(&self, row: i32, col: i32) -> (r: Option<&String>)
        ensures
            match r {
                Some(value) => self@.contains_key((row, col)) && value@ == self@[(row, col)],
                None => !self@.contains_key((row, col)),
            },
    {
        let k: u64 = key_of(row, col);
        self.cells.get(&k)
    }

    /// The number of cells that hold a value.
    pub fn len(&self) -> (n: usize)
        ensures
            n == self@.len(),
            self@.dom().finite(),
    {
        proof {
            self.lemma_cells_counted();
        }
        self.cells.len()
    }

    /// Tells whether no cell holds a value.
    pub fn is_empty(&self) -> (r: bool)
        ensures
            r == (self@.len() == 0),
            r == (self@ == Map::<(i32, i32), Seq<char>>::empty()),
    {
        proof {
            self.lemma_cells_counted();
            if self@.len() == 0 {
                assert(self@.dom() =~= Set::<(i32, i32)>::empty());
                assert(self@ =~= Map::<(i32, i32), Seq<char>>::empty());
            }
        }
        self.cells.len() == 0
    }

    /// Tells whether the matrix has a value at `(row, col)`.
    pub fn contains(&self, row: i32, col: i32) -> (r: bool)
        ensures
            r == self@.contains_key((row, col)),
    {
        let k: u64 = key_of(row, col);
        self.cells.contains_key(&k)
    }
}

} // verus!
