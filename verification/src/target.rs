//! From a grayscale picture to the target grid.

use vstd::prelude::*;
use crate::error::ConfigError;
use crate::grid::{cell_index, lemma_cell_index_in_range, Grid, MAX_SIDE};
use crate::config::Shape;
use crate::units::{darkness_from_level, darkness_of_level, UNIT};

verus! {

/// What nearest-neighbour resampling makes of a grayscale picture: the
/// values of the new picture, row after row, given those of the old one and
/// both pairs of dimensions.
pub uninterp spec fn resampled(
    pixels: Seq<u8>,
    width: int,
    height: int,
    new_width: int,
    new_height: int,
) -> Seq<u8>;

/// Resamples a grayscale picture to new dimensions with the nearest-neighbour
/// filter, by `image::imageops::resize`.
///
/// Taken on trust: the result is a function of the arguments; it holds one
/// value for each pixel of the new dimensions; and where the new dimensions
/// are the old ones, it is a copy of the picture.
#[verifier::external_body]
fn resize_nearest(pixels: &Vec<u8>, width: u32, height: u32, new_width: u32, new_height: u32) -> (out:
    Vec<u8>)
    requires
        1 <= width,
        1 <= height,
        pixels@.len() == width * height,
        1 <= new_width <= MAX_SIDE,
        1 <= new_height <= MAX_SIDE,
    ensures
        out@ == resampled(
            pixels@,
            width as int,
            height as int,
            new_width as int,
            new_height as int,
        ),
        out@.len() == new_width * new_height,
        width == new_width && height == new_height ==> out@ == pixels@,
{
    let source = image::GrayImage::from_raw(width, height, pixels.clone()).unwrap();
    let filter = image::imageops::FilterType::Nearest;
    image::imageops::resize(&source, new_width, new_height, filter).into_raw()
}

/// The side of the largest even square that fits a picture: twice the
/// radius of the circle that `crop_to_circle` keeps.
pub open spec fn cropped_side(width: int, height: int) -> int {
    2 * ((if width <= height { width } else { height }) / 2)
}

/// Whether pixel `(x, y)` lies on or in the circle of the given radius about
/// `(radius, radius)`.
pub open spec fn in_circle(radius: int, x: int, y: int) -> bool {
    (x - radius) * (x - radius) + (y - radius) * (y - radius) <= radius * radius
}

/// A picture cropped to a circle: the top left square of side
/// `cropped_side`, with every pixel outside the circle inscribed in it at zero.
pub open spec fn cropped_cells(pixels: Seq<u8>, width: int, height: int) -> Seq<u8> {
    let side = cropped_side(width, height);
    Seq::new((side * side) as nat, |c: int| cropped_value(pixels, width, side, c % side, c / side))
}

/// The value of a cropped picture at pixel `(x, y)`.
pub open spec fn cropped_value(pixels: Seq<u8>, width: int, side: int, x: int, y: int) -> u8 {
    if in_circle(side / 2, x, y) {
        pixels[cell_index(width, x, y)]
    } else {
        0u8
    }
}

/// A target grid of the given side with a square picture of side `inner`
/// in its top left corner: each level of the picture as darkness, and zero
/// beyond the picture.
pub open spec fn placed_cells(pixels: Seq<u8>, inner: int, side: int) -> Seq<u64> {
    Seq::new((side * side) as nat, |c: int| placed_value(pixels, inner, c % side, c / side) as u64)
}

/// The darkness of such a grid at pixel `(x, y)`.
pub open spec fn placed_value(pixels: Seq<u8>, inner: int, x: int, y: int) -> int {
    if x < inner && y < inner {
        darkness_of_level(pixels[cell_index(inner, x, y)] as int)
    } else {
        0
    }
}

/// The target that `prepare_target` makes of a resampled picture.
pub open spec fn target_cells(resized: Seq<u8>, side: int, shape: Shape) -> Seq<u64> {
    match shape {
        Shape::Circle => placed_cells(
            cropped_cells(resized, side, side),
            cropped_side(side, side),
            side,
        ),
        Shape::Square => placed_cells(resized, side, side),
    }
}

/// Crops a grayscale picture to a circle. The circle has the diameter
/// `cropped_side` and lies in the top left corner of the picture.
pub fn crop_to_circle(pixels: &Vec<u8>, width: u32, height: u32) -> (cropped: Vec<u8>)
    requires
        pixels@.len() == width * height,
    ensures
        cropped@ == cropped_cells(pixels@, width as int, height as int),
{
    let radius: u64 = (if width <= height { width } else { height }) as u64 / 2;
    let side: u64 = 2 * radius;
    let stride: u64 = width as u64;
    let total: usize = pixels.len();
    assert(radius * radius <= 0x7FFF_FFFF * 0x7FFF_FFFF) by (nonlinear_arith)
        requires
            radius <= 0x7FFF_FFFF,
    ;
    assert(side * side <= width * height) by (nonlinear_arith)
        requires
            0 <= side <= width,
            side <= height,
    ;
    let mut cropped: Vec<u8> = Vec::new();
    let mut y: u64 = 0;
    while y < side
        invariant
            y <= side,
            side == cropped_side(width as int, height as int),
            side == 2 * radius,
            side <= width,
            side <= height,
            stride == width,
            radius * radius <= 0x7FFF_FFFF * 0x7FFF_FFFF,
            radius <= 0x7FFF_FFFF,
            pixels@.len() == width * height,
            total == pixels@.len(),
            cropped@.len() == y * side,
            forall|c: int|
                0 <= c < cropped@.len() ==> #[trigger] cropped@[c] == cropped_value(
                    pixels@,
                    width as int,
                    side as int,
                    c % (side as int),
                    c / (side as int),
                ),
        decreases side - y,
    {
        let mut x: u64 = 0;
        while x < side
            invariant
                x <= side,
                y < side,
                side == cropped_side(width as int, height as int),
                side == 2 * radius,
                side <= width,
                side <= height,
                stride == width,
                radius * radius <= 0x7FFF_FFFF * 0x7FFF_FFFF,
                radius <= 0x7FFF_FFFF,
                pixels@.len() == width * height,
                total == pixels@.len(),
                cropped@.len() == y * side + x,
                forall|c: int|
                    0 <= c < cropped@.len() ==> #[trigger] cropped@[c] == cropped_value(
                        pixels@,
                        width as int,
                        side as int,
                        c % (side as int),
                        c / (side as int),
                    ),
            decreases side - x,
        {
            let across: u64 = if x >= radius { x - radius } else { radius - x };
            let down: u64 = if y >= radius { y - radius } else { radius - y };
            proof {
                lemma_cell_index_in_range(side as int, x as int, y as int);
                assert(across * across <= radius * radius) by (nonlinear_arith)
                    requires
                        0 <= across <= radius,
                ;
                assert(down * down <= radius * radius) by (nonlinear_arith)
                    requires
                        0 <= down <= radius,
                ;
                assert(across * across == (x - radius) * (x - radius)) by (nonlinear_arith)
                    requires
                        across == x - radius || across == radius - x,
                ;
                assert(down * down == (y - radius) * (y - radius)) by (nonlinear_arith)
                    requires
                        down == y - radius || down == radius - y,
                ;
                assert(0 <= y * stride && y * stride + x < width * height) by (nonlinear_arith)
                    requires
                        0 <= x < side,
                        0 <= y < side,
                        side <= width,
                        side <= height,
                        stride == width,
                ;
                assert(y * stride + x < pixels@.len());
                assert(y * stride + x == cell_index(width as int, x as int, y as int));
            }
            let value: u8 = if across * across + down * down <= radius * radius {
                pixels[(y * stride + x) as usize]
            } else {
                0
            };
            cropped.push(value);
            x += 1;
        }
        assert((y + 1) * side == y * side + side) by (nonlinear_arith);
        y += 1;
    }
    proof {
        assert(cropped@ =~= cropped_cells(pixels@, width as int, height as int));
    }
    cropped
}

/// Makes a target grid of the given side from a square grayscale picture of
/// side `inner`, which comes to lie in the top left corner.
pub fn target_from_luma(pixels: &Vec<u8>, inner: usize, side: usize) -> (grid: Grid)
    requires
        inner <= side <= MAX_SIDE,
        pixels@.len() == inner * inner,
    ensures
        grid.wf(),
        grid.extent() == side,
        grid@ == placed_cells(pixels@, inner as int, side as int),
        forall|c: int| 0 <= c < grid@.len() ==> #[trigger] grid@[c] <= UNIT,
{
    assert(side * side <= 4096 * 4096) by (nonlinear_arith)
        requires
            side <= 4096,
    ;
    let total: usize = pixels.len();
    let mut cells: Vec<u64> = Vec::new();
    let mut y: usize = 0;
    while y < side
        invariant
            y <= side,
            inner <= side <= MAX_SIDE,
            pixels@.len() == inner * inner,
            total == pixels@.len(),
            cells@.len() == y * side,
            forall|c: int|
                0 <= c < cells@.len() ==> (#[trigger] cells@[c]) as int == placed_value(
                    pixels@,
                    inner as int,
                    c % (side as int),
                    c / (side as int),
                ) && cells@[c] <= UNIT,
        decreases side - y,
    {
        let mut x: usize = 0;
        while x < side
            invariant
                x <= side,
                y < side,
                inner <= side <= MAX_SIDE,
                pixels@.len() == inner * inner,
                total == pixels@.len(),
                cells@.len() == y * side + x,
                forall|c: int|
                    0 <= c < cells@.len() ==> (#[trigger] cells@[c]) as int == placed_value(
                        pixels@,
                        inner as int,
                        c % (side as int),
                        c / (side as int),
                    ) && cells@[c] <= UNIT,
            decreases side - x,
        {
            proof {
                lemma_cell_index_in_range(side as int, x as int, y as int);
                assert(y * side + x < 4096 * 4096) by (nonlinear_arith)
                    requires
                        0 <= x < side,
                        0 <= y < side,
                        side <= 4096,
                ;
            }
            let value: u64 = if x < inner && y < inner {
                proof {
                    lemma_cell_index_in_range(inner as int, x as int, y as int);
                    assert(0 <= y * inner <= y * inner + x) by (nonlinear_arith)
                        requires
                            0 <= x,
                            0 <= y,
                            0 <= inner,
                    ;
                    assert(y * inner + x < pixels@.len());
                }
                darkness_from_level(pixels[y * inner + x])
            } else {
                0
            };
            cells.push(value);
            x += 1;
        }
        assert((y + 1) * side == y * side + side) by (nonlinear_arith);
        y += 1;
    }
    proof {
        assert(cells@ =~= placed_cells(pixels@, inner as int, side as int));
    }
    let made: Option<Grid> = Grid::from_cells(side, cells);
    made.unwrap()
}

/// Why a picture cannot be made a target, if it cannot.
pub open spec fn refusal_of_source(pixels: Seq<u8>, width: int, height: int, side: int) -> Option<
    ConfigError,
> {
    if side < 2 || side > MAX_SIDE {
        Some(ConfigError::Side)
    } else if width < 1 || height < 1 || pixels.len() != width * height {
        Some(ConfigError::Source)
    } else {
        None
    }
}

/// Makes the target grid from a grayscale picture of any size: the picture
/// is resampled to the side, cropped to the circle where the region is a
/// disk, and each level becomes a darkness.
pub fn prepare_target(pixels: &Vec<u8>, width: u32, height: u32, side: usize, shape: Shape) -> (made:
    Result<Grid, ConfigError>)
    ensures
        made matches Err(refusal) ==> refusal_of_source(
            pixels@,
            width as int,
            height as int,
            side as int,
        ) == Some(refusal),
        made matches Ok(grid) ==> {
            &&& refusal_of_source(pixels@, width as int, height as int, side as int) is None
            &&& grid.wf()
            &&& grid.extent() == side
            &&& grid@ == target_cells(
                resampled(pixels@, width as int, height as int, side as int, side as int),
                side as int,
                shape,
            )
            &&& forall|c: int| 0 <= c < grid@.len() ==> #[trigger] grid@[c] <= UNIT
        },
{
    if side < 2 || side > MAX_SIDE {
        return Err(ConfigError::Side);
    }
    assert(width * height <= 0xFFFF_FFFF * 0xFFFF_FFFF) by (nonlinear_arith)
        requires
            width <= 0xFFFF_FFFF,
            height <= 0xFFFF_FFFF,
    ;
    if width < 1 || height < 1 || pixels.len() as u64 != width as u64 * height as u64 {
        return Err(ConfigError::Source);
    }
    let resized: Vec<u8> = resize_nearest(pixels, width, height, side as u32, side as u32);
    match shape {
        Shape::Circle => {
            let cropped: Vec<u8> = crop_to_circle(&resized, side as u32, side as u32);
            let inner: usize = 2 * (side / 2);
            assert(inner * inner == cropped@.len()) by (nonlinear_arith)
                requires
                    cropped@.len() == (cropped_side(side as int, side as int) * cropped_side(
                        side as int,
                        side as int,
                    )) as nat,
                    inner == cropped_side(side as int, side as int),
                    0 <= inner,
            ;
            Ok(target_from_luma(&cropped, inner, side))
        },
        Shape::Square => Ok(target_from_luma(&resized, side, side)),
    }
}

} // verus!
