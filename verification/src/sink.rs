//! From the working grid to what is shown and saved.

use vstd::prelude::*;
use crate::grid::{cell_index, Grid, MAX_SIDE};
use crate::units::{level_from_darkness, level_of_darkness};

verus! {

/// The widest margin that a preview frame may have on each side.
pub const MAX_PADDING: usize = 4096;

/// The margin on each side of the picture in a preview frame: three tenths
/// of the side, rounded down.
pub open spec fn padding_of(side: int) -> int {
    side * 3 / 10
}

/// The number of pixels in a row of a preview frame.
pub open spec fn frame_width(side: int, padding: int) -> int {
    side + 2 * padding
}

/// The number of rows of a preview frame: one above and one below the picture.
pub open spec fn frame_height(side: int) -> int {
    side + 2
}

/// Where pixel `(x, y)` of the picture lies in the buffer of a preview frame.
pub open spec fn frame_index(side: int, padding: int, x: int, y: int) -> int {
    (y + 1) * frame_width(side, padding) + x + padding
}

/// A gray of the given level as one word: the level in the red, the green
/// and the blue byte.
pub open spec fn gray(level: int) -> int {
    level * 0x1_0000 + level * 0x100 + level
}

/// Whether position `at` of a frame buffer shows a pixel of the picture.
pub open spec fn in_picture(side: int, padding: int, at: int) -> bool {
    let row = at / frame_width(side, padding);
    let column = at % frame_width(side, padding);
    1 <= row <= side && padding <= column < padding + side
}

/// The margin on each side of the picture in a preview frame.
pub fn side_padding(side: usize) -> (padding: usize)
    requires
        side <= MAX_SIDE,
    ensures
        padding == padding_of(side as int),
        padding <= MAX_PADDING,
{
    side * 3 / 10
}

/// A black preview frame for a picture of the given side.
pub fn new_frame(side: usize, padding: usize) -> (frame: Vec<u32>)
    requires
        side <= MAX_SIDE,
        padding <= MAX_PADDING,
    ensures
        frame@.len() == frame_height(side as int) * frame_width(side as int, padding as int),
        forall|at: int| 0 <= at < frame@.len() ==> #[trigger] frame@[at] == 0,
{
    let width: usize = side + 2 * padding;
    let height: usize = side + 2;
    assert(height * width <= 4098 * 12288) by (nonlinear_arith)
        requires
            height <= 4098,
            width <= 12288,
    ;
    vec![0u32; height * width]
}

/// The 8-bit levels that show a grid, row after row.
pub fn render_levels(grid: &Grid) -> (levels: Vec<u8>)
    requires
        grid.wf(),
    ensures
        levels@.len() == grid@.len(),
        forall|c: int|
            0 <= c < grid@.len() ==> (#[trigger] levels@[c]) as int == level_of_darkness(
                grid@[c] as int,
            ),
{
    let cells: &Vec<u64> = grid.cells();
    let count: usize = cells.len();
    let mut levels: Vec<u8> = Vec::new();
    let mut c: usize = 0;
    while c < count
        invariant
            c <= count,
            count == cells@.len(),
            cells@ == grid@,
            levels@.len() == c,
            forall|k: int|
                0 <= k < c ==> (#[trigger] levels@[k]) as int == level_of_darkness(
                    grid@[k] as int,
                ),
        decreases count - c,
    {
        levels.push(level_from_darkness(cells[c]));
        c += 1;
    }
    levels
}

/// What position `at` of a preview frame holds once a grid is painted: the
/// gray of the grid's pixel where the position shows the picture, and what it
/// held before where it does not.
pub open spec fn painted_word(
    cells: Seq<u64>,
    side: int,
    padding: int,
    held: u32,
    at: int,
) -> int {
    let row = at / frame_width(side, padding);
    let column = at % frame_width(side, padding);
    if in_picture(side, padding, at) {
        gray(level_of_darkness(cells[cell_index(side, column - padding, row - 1)] as int))
    } else {
        held as int
    }
}

/// Paints a grid into a preview frame. The picture is drawn one row below
/// the top and `padding` pixels from the left; the rest of the frame stays
/// as it was.
pub fn paint_preview(frame: &mut Vec<u32>, grid: &Grid, padding: usize)
    requires
        grid.wf(),
        padding <= MAX_PADDING,
        old(frame)@.len() == frame_height(grid.extent()) * frame_width(
            grid.extent(),
            padding as int,
        ),
    ensures
        final(frame)@.len() == old(frame)@.len(),
        forall|at: int|
            0 <= at < old(frame)@.len() ==> (#[trigger] final(frame)@[at]) as int == painted_word(
                grid@,
                grid.extent(),
                padding as int,
                old(frame)@[at],
                at,
            ),
{
    let side: usize = grid.side();
    let width: usize = side + 2 * padding;
    let total: usize = frame.len();
    let mut row: usize = 0;
    let mut column: usize = 0;
    let mut at: usize = 0;
    while at < total
        invariant
            grid.wf(),
            side == grid.extent(),
            width == frame_width(side as int, padding as int),
            padding <= MAX_PADDING,
            total == frame@.len(),
            total == old(frame)@.len(),
            total == (side + 2) * width,
            at <= total,
            at == row * width + column,
            at < total ==> column < width,
            forall|k: int|
                0 <= k < at ==> (#[trigger] frame@[k]) as int == painted_word(
                    grid@,
                    side as int,
                    padding as int,
                    old(frame)@[k],
                    k,
                ),
            forall|k: int| at <= k < total ==> #[trigger] frame@[k] == old(frame)@[k],
        decreases total - at,
    {
        proof {
            assert(0 <= row * width) by (nonlinear_arith)
                requires
                    0 <= row,
                    0 <= width,
            ;
            vstd::arithmetic::div_mod::lemma_fundamental_div_mod_converse(
                at as int,
                width as int,
                row as int,
                column as int,
            );
        }
        if 1 <= row && row <= side && padding <= column && column < padding + side {
            let level: u32 = level_from_darkness(grid.get(column - padding, row - 1)) as u32;
            frame[at] = level * 0x1_0000 + level * 0x100 + level;
        }
        at += 1;
        column += 1;
        if column == width {
            assert((row + 1) * width == row * width + width) by (nonlinear_arith);
            column = 0;
            row += 1;
        }
    }
}

/// Pixel `(x, y)` of the picture is shown at `frame_index` of the frame.
pub proof fn lemma_frame_shows_pixel(
    cells: Seq<u64>,
    side: int,
    padding: int,
    held: u32,
    x: int,
    y: int,
)
    requires
        0 <= x < side,
        0 <= y < side,
        0 <= padding,
    ensures
        0 <= frame_index(side, padding, x, y) < frame_height(side) * frame_width(side, padding),
        painted_word(cells, side, padding, held, frame_index(side, padding, x, y)) == gray(
            level_of_darkness(cells[cell_index(side, x, y)] as int),
        ),
{
    let width = frame_width(side, padding);
    assert((y + 2) * width == (y + 1) * width + width) by (nonlinear_arith);
    assert((y + 2) * width <= (side + 2) * width) by (nonlinear_arith)
        requires
            y + 2 <= side + 2,
            0 <= width,
    ;
    assert(0 <= (y + 1) * width) by (nonlinear_arith)
        requires
            0 <= y,
            0 <= width,
    ;
    vstd::arithmetic::div_mod::lemma_fundamental_div_mod_converse(
        (y + 1) * width + (x + padding),
        width,
        y + 1,
        x + padding,
    );
}

} // verus!
