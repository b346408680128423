use vstd::prelude::*;

verus! {

/// The state of one lattice cell: an agent of group A, an agent of group B, or vacant.
#[derive(Clone, Copy, PartialEq, Eq, Debug, Structural)]
pub enum Cell {
    /// Group A (the stars of the paper).
    GroupA,
    /// Group B (the circles of the paper).
    GroupB,
    /// A vacant cell.
    Empty,
}

/// The integer code of a cell used in snapshot files: 0 = vacant, 1 = A, 2 = B.
pub open spec fn cell_code(c: Cell) -> u8 {
    match c {
        Cell::Empty => 0,
        Cell::GroupA => 1,
        Cell::GroupB => 2,
    }
}

impl Cell {
    /// Converts the cell to its snapshot code (0 = vacant, 1 = A, 2 = B).
    pub fn to_int(self) -> (code: u8)
        ensures
            code == cell_code(self),
    {
        match self {
            Cell::Empty => 0,
            Cell::GroupA => 1,
            Cell::GroupB => 2,
        }
    }
}

/// Distinct cells have distinct snapshot codes, and every code is below 3.
pub proof fn lemma_cell_code_injective(a: Cell, b: Cell)
    ensures
        cell_code(a) < 3,
        cell_code(a) == cell_code(b) <==> a == b,
{
}

} // verus!
