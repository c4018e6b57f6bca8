//! The darkness that one chord adds to each pixel.

use vstd::prelude::*;
use crate::anchors::{AnchorTable, Point};
use crate::grid::{lemma_cell_index_in_range, Grid, MAX_SIDE};
use crate::units::{CEILING, REACH};

verus! {

/// The largest numerator of a distance that `profile_of` takes.
pub const MAX_OFFSET: u128 = 0x4000_0000_0000;

/// The largest squared denominator of a distance that `profile_of` takes.
pub const MAX_SPAN: u128 = 0x4_0000_0000_0000_0000;

/// Whether a point at distance `offset / sqrt(span)` pixels from a line lies
/// within `reach / UNIT` pixels of it.
pub open spec fn reaches(offset: int, span: int, reach: int) -> bool {
    offset * offset * 100_000_000 <= reach * reach * span
}

/// The largest `k` from one to `limit` for which the distance
/// `offset / sqrt(span)` is at most `(REACH - k) / UNIT` pixels; zero if there is none.
pub open spec fn strongest(offset: int, span: int, limit: int) -> int
    decreases limit,
{
    if limit <= 0 {
        0
    } else if reaches(offset, span, 6_000 - limit) {
        limit
    } else {
        strongest(offset, span, limit - 1)
    }
}

/// The darkness that a line adds at distance `d = offset / sqrt(span)` pixels:
/// six tenths less `d`, not below zero and not above a twentieth, in units of
/// `1 / UNIT` and rounded down. That is `CEILING` where `d` is at most
/// `REACH - CEILING`, nothing where `d` is above `REACH - 1`, and between the
/// two the largest `k` with `d` at most `REACH - k`.
pub open spec fn profile(offset: int, span: int) -> int {
    if reaches(offset, span, 5_500) {
        500
    } else if !reaches(offset, span, 5_999) {
        0
    } else {
        strongest(offset, span, 499)
    }
}

/// The numerator of the distance of `(x, y)` from the line through `p` and
/// `q`, by the two-point formula. All coordinates are in the same steps.
pub open spec fn cross(p: Point, q: Point, x: int, y: int) -> int {
    (q.y - p.y) * x - (q.x - p.x) * y + q.x * p.y - q.y * p.x
}

/// The squared distance between `p` and `q`.
pub open spec fn span_squared(p: Point, q: Point) -> int {
    (q.y - p.y) * (q.y - p.y) + (q.x - p.x) * (q.x - p.x)
}

/// Whether pixel `(x, y)` lies in the disk inscribed in the square of the given side.
pub open spec fn in_disk(side: int, x: int, y: int) -> bool {
    (2 * x - side) * (2 * x - side) + (2 * y - side) * (2 * y - side) <= side * side
}

/// The magnitude of an integer.
pub open spec fn magnitude(v: int) -> int {
    if v < 0 { -v } else { v }
}

/// What the chord between `p` and `q` adds at pixel `(x, y)`: nothing outside
/// the inscribed disk where the region is a disk, nothing where the two points
/// coincide and so name no line, and else the profile of the pixel's distance
/// from the line through them.
pub open spec fn chord_value(
    p: Point,
    q: Point,
    scale: int,
    side: int,
    disk: bool,
    x: int,
    y: int,
) -> int {
    if disk && !in_disk(side, x, y) {
        0
    } else if p == q {
        0
    } else {
        profile(magnitude(cross(p, q, x * scale, y * scale)), span_squared(p, q) * (scale * scale))
    }
}

/// The whole contribution of the chord between `p` and `q`, row after row.
pub open spec fn chord_cells(p: Point, q: Point, scale: int, side: int, disk: bool) -> Seq<u64> {
    Seq::new(
        (side * side) as nat,
        |c: int| chord_value(p, q, scale, side, disk, c % side, c / side) as u64,
    )
}

/// A wider reach reaches whatever a narrower one does.
pub proof fn lemma_reaches_monotone(offset: int, span: int, near: int, far: int)
    requires
        0 <= near <= far,
        0 <= span,
        reaches(offset, span, near),
    ensures
        reaches(offset, span, far),
{
    assert(near * near * span <= far * far * span) by (nonlinear_arith)
        requires
            0 <= near <= far,
            0 <= span,
    ;
}

/// The largest such `k` is within its limit.
pub proof fn lemma_strongest_bounds(offset: int, span: int, limit: int)
    requires
        0 <= limit,
    ensures
        0 <= strongest(offset, span, limit) <= limit,
    decreases limit,
{
    if limit > 0 && !reaches(offset, span, 6_000 - limit) {
        lemma_strongest_bounds(offset, span, limit - 1);
    }
}

/// The largest such `k` is `level` where the distance is within
/// `REACH - level` but not within `REACH - level - 1`.
pub proof fn lemma_strongest_found(offset: int, span: int, level: int, limit: int)
    requires
        0 <= level <= limit <= 6_000,
        0 <= span,
        level == 0 || reaches(offset, span, 6_000 - level),
        level == limit || !reaches(offset, span, 6_000 - level - 1),
    ensures
        strongest(offset, span, limit) == level,
    decreases limit,
{
    if limit > level {
        if reaches(offset, span, 6_000 - limit) {
            lemma_reaches_monotone(offset, span, 6_000 - limit, 6_000 - level - 1);
        }
        lemma_strongest_found(offset, span, level, limit - 1);
    }
}

/// No chord adds a negative darkness to a pixel, or more than the ceiling.
pub proof fn lemma_chord_value_bounds(
    p: Point,
    q: Point,
    scale: int,
    side: int,
    disk: bool,
    x: int,
    y: int,
)
    ensures
        0 <= chord_value(p, q, scale, side, disk, x, y) <= CEILING,
{
    lemma_strongest_bounds(
        magnitude(cross(p, q, x * scale, y * scale)),
        span_squared(p, q) * (scale * scale),
        499,
    );
}

/// A chord adds the same whichever of its ends is named first.
pub proof fn lemma_chord_value_symmetric(
    p: Point,
    q: Point,
    scale: int,
    side: int,
    disk: bool,
    x: int,
    y: int,
)
    ensures
        chord_value(p, q, scale, side, disk, x, y) == chord_value(q, p, scale, side, disk, x, y),
{
    let sx = x * scale;
    let sy = y * scale;
    assert(cross(q, p, sx, sy) == -cross(p, q, sx, sy)) by (nonlinear_arith)
        requires
            cross(p, q, sx, sy) == (q.y - p.y) * sx - (q.x - p.x) * sy + q.x * p.y - q.y * p.x,
            cross(q, p, sx, sy) == (p.y - q.y) * sx - (p.x - q.x) * sy + p.x * q.y - p.y * q.x,
    ;
    assert(span_squared(q, p) == span_squared(p, q)) by (nonlinear_arith)
        requires
            span_squared(p, q) == (q.y - p.y) * (q.y - p.y) + (q.x - p.x) * (q.x - p.x),
            span_squared(q, p) == (p.y - q.y) * (p.y - q.y) + (p.x - q.x) * (p.x - q.x),
    ;
}

/// Whether `offset * offset * UNIT * UNIT`, given as `scaled`, is at most `reach * reach * span`.
fn within(scaled: u128, span: u128, reach: u64, Ghost(offset): Ghost<int>) -> (yes: bool)
    requires
        0 <= offset,
        scaled == offset * offset * 100_000_000,
        span <= MAX_SPAN,
        reach <= REACH,
    ensures
        yes == reaches(offset, span as int, reach as int),
{
    let wide: u128 = reach as u128;
    assert(wide * wide <= 6_000 * 6_000) by (nonlinear_arith)
        requires
            wide <= 6_000,
    ;
    assert(wide * wide * span <= 6_000 * 6_000 * 0x4_0000_0000_0000_0000) by (nonlinear_arith)
        requires
            wide * wide <= 6_000 * 6_000,
            span <= 0x4_0000_0000_0000_0000,
    ;
    scaled <= wide * wide * span
}

/// The darkness that a line adds at distance `offset / sqrt(span)` pixels.
pub fn profile_of(offset: u128, span: u128) -> (level: u64)
    requires
        offset <= MAX_OFFSET,
        span <= MAX_SPAN,
    ensures
        level == profile(offset as int, span as int),
        level <= CEILING,
{
    assert(offset * offset <= 0x4000_0000_0000 * 0x4000_0000_0000) by (nonlinear_arith)
        requires
            offset <= 0x4000_0000_0000,
    ;
    let squared: u128 = offset * offset;
    let unit_squared: u128 = 100_000_000;
    assert(squared * unit_squared <= 0x1000_0000_0000_0000_0000_0000 * 100_000_000)
        by (nonlinear_arith)
        requires
            squared <= 0x1000_0000_0000_0000_0000_0000,
            unit_squared == 100_000_000,
    ;
    let scaled: u128 = squared * unit_squared;
    let ghost a = offset as int;
    let ghost m = span as int;
    if !within(scaled, span, REACH - 1, Ghost(a)) {
        proof {
            if reaches(a, m, 5_500) {
                lemma_reaches_monotone(a, m, 5_500, 5_999);
            }
        }
        return 0;
    }
    if within(scaled, span, REACH - CEILING, Ghost(a)) {
        return CEILING;
    }
    let mut low: u64 = 1;
    let mut high: u64 = CEILING;
    while high - low > 1
        invariant
            1 <= low < high <= CEILING,
            a == offset,
            m == span,
            span <= MAX_SPAN,
            scaled == a * a * 100_000_000,
            reaches(a, m, 6_000 - low),
            !reaches(a, m, 6_000 - high),
        decreases high - low,
    {
        let middle: u64 = low + (high - low) / 2;
        if within(scaled, span, REACH - middle, Ghost(a)) {
            low = middle;
        } else {
            high = middle;
        }
    }
    proof {
        lemma_strongest_found(a, m, low as int, 499);
    }
    low
}

/// A product is as far from zero as the product of its factors' bounds, at most.
proof fn lemma_product_bound(a: int, b: int, bound_a: int, bound_b: int)
    requires
        -bound_a <= a <= bound_a,
        -bound_b <= b <= bound_b,
    ensures
        -(bound_a * bound_b) <= a * b <= bound_a * bound_b,
{
    assert(-(bound_a * bound_b) <= a * b <= bound_a * bound_b) by (nonlinear_arith)
        requires
            -bound_a <= a <= bound_a,
            -bound_b <= b <= bound_b,
    ;
}

/// Whether pixel `(x, y)` lies in the disk inscribed in the square.
pub fn is_in_disk(side: usize, x: usize, y: usize) -> (yes: bool)
    requires
        side <= MAX_SIDE,
        x < side,
        y < side,
    ensures
        yes == in_disk(side as int, x as int, y as int),
{
    let across: i64 = 2 * (x as i64) - side as i64;
    let down: i64 = 2 * (y as i64) - side as i64;
    let whole: i64 = side as i64;
    proof {
        lemma_product_bound(across as int, across as int, 4096, 4096);
        lemma_product_bound(down as int, down as int, 4096, 4096);
        lemma_product_bound(whole as int, whole as int, 4096, 4096);
    }
    across * across + down * down <= whole * whole
}

/// The darkness that the chord between anchors `i` and `j` adds to each pixel.
pub fn chord_mask(table: &AnchorTable, disk: bool, i: usize, j: usize) -> (mask: Grid)
    requires
        table.wf(),
        i < table@.len(),
        j < table@.len(),
    ensures
        mask.wf(),
        mask.extent() == table.extent(),
        mask@ == chord_cells(table@[i as int], table@[j as int], table.steps(), table.extent(), disk),
        forall|x: int, y: int|
            0 <= x < table.extent() && 0 <= y < table.extent() ==> #[trigger] mask.at(x, y)
                == chord_value(
                table@[i as int],
                table@[j as int],
                table.steps(),
                table.extent(),
                disk,
                x,
                y,
            ),
        forall|c: int| 0 <= c < mask@.len() ==> #[trigger] mask@[c] <= CEILING,
{
    let side: usize = table.side();
    let p: Point = table.point(i);
    let q: Point = table.point(j);
    let same: bool = p.x == q.x && p.y == q.y;
    let scale: i128 = table.scale() as i128;
    let ghost reachable: int = 4_194_304int;
    proof {
        assert(table@[i as int].x <= table.extent() * table.steps());
        assert(table@[j as int].x <= table.extent() * table.steps());
        lemma_product_bound(table.extent(), table.steps(), 4096, 1024);
    }
    let run: i128 = q.x as i128 - p.x as i128;
    let rise: i128 = q.y as i128 - p.y as i128;
    proof {
        lemma_product_bound(q.x as int, p.y as int, reachable, reachable);
        lemma_product_bound(q.y as int, p.x as int, reachable, reachable);
        lemma_product_bound(run as int, run as int, reachable, reachable);
        lemma_product_bound(rise as int, rise as int, reachable, reachable);
        lemma_product_bound(scale as int, scale as int, 1024, 1024);
    }
    let tail: i128 = (q.x as i128) * (p.y as i128) - (q.y as i128) * (p.x as i128);
    let length: i128 = rise * rise + run * run;
    let fine: i128 = scale * scale;
    proof {
        assert(0 <= rise * rise && 0 <= run * run && 0 <= scale * scale) by (nonlinear_arith);
        lemma_product_bound(length as int, fine as int, 2 * reachable * reachable, 1_048_576int);
        assert(0 <= length * fine) by (nonlinear_arith)
            requires
                0 <= length,
                0 <= fine,
        ;
    }
    let span: u128 = (length * fine) as u128;
    assert(span == span_squared(p, q) * (table.steps() * table.steps()));
    assert(side * side <= 4096 * 4096) by (nonlinear_arith)
        requires
            side <= 4096,
    ;
    let mut cells: Vec<u64> = Vec::new();
    let mut y: usize = 0;
    while y < side
        invariant
            y <= side,
            side == table.extent(),
            2 <= side <= MAX_SIDE,
            scale == table.steps(),
            1 <= scale <= 1024,
            reachable == 4_194_304,
            -reachable <= run <= reachable,
            -reachable <= rise <= reachable,
            -(reachable * reachable) <= tail <= reachable * reachable,
            run == q.x - p.x,
            rise == q.y - p.y,
            tail == q.x * p.y - q.y * p.x,
            same == (p == q),
            span == span_squared(p, q) * (scale * scale),
            span <= MAX_SPAN,
            cells@.len() == y * side,
            forall|c: int|
                0 <= c < cells@.len() ==> (#[trigger] cells@[c]) as int == chord_value(
                    p,
                    q,
                    scale as int,
                    side as int,
                    disk,
                    c % (side as int),
                    c / (side as int),
                ),
        decreases side - y,
    {
        let mut x: usize = 0;
        while x < side
            invariant
                x <= side,
                y < side,
                side == table.extent(),
                2 <= side <= MAX_SIDE,
                scale == table.steps(),
                1 <= scale <= 1024,
                reachable == 4_194_304,
                -reachable <= run <= reachable,
                -reachable <= rise <= reachable,
                -(reachable * reachable) <= tail <= reachable * reachable,
                run == q.x - p.x,
                rise == q.y - p.y,
                tail == q.x * p.y - q.y * p.x,
                same == (p == q),
                span == span_squared(p, q) * (scale * scale),
                span <= MAX_SPAN,
                cells@.len() == y * side + x,
                forall|c: int|
                    0 <= c < cells@.len() ==> (#[trigger] cells@[c]) as int == chord_value(
                        p,
                        q,
                        scale as int,
                        side as int,
                        disk,
                        c % (side as int),
                        c / (side as int),
                    ),
            decreases side - x,
        {
            proof {
                lemma_cell_index_in_range(side as int, x as int, y as int);
                lemma_chord_value_bounds(p, q, scale as int, side as int, disk, x as int, y as int);
            }
            let value: u64 = if disk && !is_in_disk(side, x, y) {
                0
            } else if same {
                0
            } else {
                proof {
                    lemma_product_bound(x as int, scale as int, 4096, 1024);
                    lemma_product_bound(y as int, scale as int, 4096, 1024);
                }
                let across: i128 = x as i128 * scale;
                let down: i128 = y as i128 * scale;
                proof {
                    lemma_product_bound(rise as int, across as int, reachable, reachable);
                    lemma_product_bound(run as int, down as int, reachable, reachable);
                }
                let signed: i128 = rise * across - run * down + tail;
                let offset: u128 = if signed < 0 { (-signed) as u128 } else { signed as u128 };
                assert(offset == magnitude(cross(p, q, x * scale, y * scale)));
                profile_of(offset, span)
            };
            cells.push(value);
            x += 1;
        }
        assert((y + 1) * side == y * side + side) by (nonlinear_arith);
        y += 1;
    }
    let made: Option<Grid> = Grid::from_cells(side, cells);
    let mask: Grid = made.unwrap();
    proof {
        assert forall|c: int| 0 <= c < mask@.len() implies #[trigger] mask@[c] <= CEILING by {
            lemma_chord_value_bounds(
                p,
                q,
                scale as int,
                side as int,
                disk,
                c % (side as int),
                c / (side as int),
            );
        }
        assert(mask@ =~= chord_cells(p, q, scale as int, side as int, disk));
        assert forall|x: int, y: int| 0 <= x < side && 0 <= y < side implies #[trigger] mask.at(
            x,
            y,
        ) == chord_value(p, q, scale as int, side as int, disk, x, y) by {
            lemma_cell_index_in_range(side as int, x, y);
        }
    }
    mask
}

} // verus!
