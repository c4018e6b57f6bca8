//! A square grid of darkness values in one row-major buffer.

use vstd::prelude::*;

verus! {

/// The longest side a grid may have. It keeps every product that the
/// rasteriser and the scorer form inside the machine's integers.
pub const MAX_SIDE: usize = 4096;

/// A square array of darkness values. Zero is white; larger is darker.
#[derive(Debug)]
pub struct Grid {
    side: usize,
    cells: Vec<u64>,
}

/// Position of pixel `(x, y)` in a row-major buffer of the given side.
pub open spec fn cell_index(side: int, x: int, y: int) -> int {
    y * side + x
}

/// A pixel inside the square has its position inside the buffer.
pub proof fn lemma_cell_index_in_range(side: int, x: int, y: int)
    requires
        0 <= x < side,
        0 <= y < side,
    ensures
        0 <= cell_index(side, x, y) < side * side,
        cell_index(side, x, y) / side == y,
        cell_index(side, x, y) % side == x,
{
    assert(y * side + x < side * side) by (nonlinear_arith)
        requires
            0 <= x < side,
            0 <= y < side,
    ;
    assert(0 <= y * side) by (nonlinear_arith)
        requires
            0 <= y,
            0 < side,
    ;
    vstd::arithmetic::div_mod::lemma_fundamental_div_mod_converse(y * side + x, side, y, x);
}

impl View for Grid {
    type V = Seq<u64>;

    /// The values, row after row.
    closed spec fn view(&self) -> Seq<u64> {
        self.cells@
    }
}

impl Grid {
    /// The side length.
    pub closed spec fn extent(&self) -> int {
        self.side as int
    }

    /// The buffer holds exactly one value for each pixel of the square.
    pub open spec fn wf(&self) -> bool {
        &&& 0 <= self.extent() <= MAX_SIDE
        &&& self@.len() == self.extent() * self.extent()
    }

    /// The value at pixel `(x, y)`.
    pub open spec fn at(&self, x: int, y: int) -> u64 {
        self@[cell_index(self.extent(), x, y)]
    }

    /// An all-white grid.
    pub fn blank(side: usize) -> (grid: Grid)
        requires
            side <= MAX_SIDE,
        ensures
            grid.wf(),
            grid.extent() == side,
            forall|i: int| 0 <= i < grid@.len() ==> grid@[i] == 0,
    {
        assert(side * side <= 4096 * 4096) by (nonlinear_arith)
            requires
                side <= 4096,
        ;
        let cells: Vec<u64> = vec![0u64; side * side];
        Grid { side, cells }
    }

    /// Wraps a row-major buffer, if it holds one value for each pixel of a
    /// square of the given side and the side is not above `MAX_SIDE`.
    pub fn from_cells(side: usize, cells: Vec<u64>) -> (grid: Option<Grid>)
        ensures
            grid.is_some() <==> side <= MAX_SIDE && cells@.len() == side * side,
            grid.is_some() ==> grid.unwrap().wf() && grid.unwrap().extent() == side
                && grid.unwrap()@ == cells@,
    {
        if side > MAX_SIDE {
            return None;
        }
        assert(side * side <= 4096 * 4096) by (nonlinear_arith)
            requires
                side <= 4096,
        ;
        if cells.len() != side * side {
            return None;
        }
        Some(Grid { side, cells })
    }

    /// The side length.
    pub fn side(&self) -> (side: usize)
        ensures
            side == self.extent(),
    {
        self.side
    }

    /// The values, row after row.
    pub fn cells(&self) -> (cells: &Vec<u64>)
        ensures
            cells@ == self@,
    {
        &self.cells
    }

    /// The value at pixel `(x, y)`.
    pub fn get(&self, x: usize, y: usize) -> (value: u64)
        requires
            self.wf(),
            x < self.extent(),
            y < self.extent(),
        ensures
            value == self.at(x as int, y as int),
    {
        proof {
            lemma_cell_index_in_range(self.side as int, x as int, y as int);
            assert(self.side * self.side <= 4096 * 4096) by (nonlinear_arith)
                requires
                    self.side <= 4096,
            ;
            assert(0 <= y * self.side <= y * self.side + x) by (nonlinear_arith)
                requires
                    0 <= y,
                    0 <= x,
                    0 <= self.side,
            ;
        }
        self.cells[y * self.side + x]
    }

    /// Adds another grid of the same side to this one, pixel by pixel.
    pub fn deposit(&mut self, layer: &Grid)
        requires
            old(self).wf(),
            layer.wf(),
            layer.extent() == old(self).extent(),
            forall|i: int|
                0 <= i < old(self)@.len() ==> old(self)@[i] + #[trigger] layer@[i] <= u64::MAX,
        ensures
            final(self).wf(),
            final(self).extent() == old(self).extent(),
            forall|i: int|
                0 <= i < old(self)@.len() ==> #[trigger] final(self)@[i] == old(self)@[i]
                    + layer@[i],
    {
        let count: usize = self.cells.len();
        let mut i: usize = 0;
        while i < count
            invariant
                i <= count,
                count == old(self)@.len(),
                self.side == old(self).side,
                self.cells@.len() == count,
                layer.cells@.len() == count,
                forall|k: int|
                    0 <= k < i ==> #[trigger] self.cells@[k] == old(self)@[k] + layer@[k],
                forall|k: int| i <= k < count ==> #[trigger] self.cells@[k] == old(self)@[k],
                forall|k: int|
                    0 <= k < count ==> old(self)@[k] + #[trigger] layer@[k] <= u64::MAX,
            decreases count - i,
        {
            assert(layer@[i as int] == layer.cells@[i as int]);
            let sum: u64 = self.cells[i] + layer.cells[i];
            self.cells[i] = sum;
            i += 1;
        }
    }
}

} // verus!
