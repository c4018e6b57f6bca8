//! The anchor table, and which pairs of anchors may be joined by a chord.

use vstd::prelude::*;
use crate::error::ConfigError;
use crate::grid::MAX_SIDE;

verus! {

/// The largest number of anchors in a table.
pub const MAX_ANCHORS: usize = 4096;

/// The finest subdivision of a pixel in which anchor coordinates are held.
pub const MAX_SCALE: u32 = 1024;

/// A point of the working region. Its coordinates count steps of `1 / scale`
/// of a pixel, where `scale` belongs to the table that holds the point.
#[derive(Debug, Clone, Copy, PartialEq, Eq, Structural)]
pub struct Point {
    pub x: u32,
    pub y: u32,
}

/// The anchors, in the order in which they go round the boundary.
#[derive(Debug)]
pub struct AnchorTable {
    side: u32,
    scale: u32,
    points: Vec<Point>,
}

/// The fewest places that must lie between the two ends of a chord:
/// a fifteenth of the number of anchors, rounded down.
pub open spec fn min_separation(count: int) -> int {
    count / 15
}

/// How many places apart two anchors are, going round the shorter way.
pub open spec fn circular_distance(count: int, i: int, j: int) -> int {
    let apart = if i <= j { j - i } else { i - j };
    if apart <= count - apart { apart } else { count - apart }
}

/// A chord may be drawn between two anchors that are more than
/// `min_separation` places apart.
pub open spec fn admissible(count: int, i: int, j: int) -> bool {
    &&& 0 <= i < count
    &&& 0 <= j < count
    &&& circular_distance(count, i, j) > min_separation(count)
}

/// The `k`-th of `count` anchors spread evenly over the boundary of a square,
/// in steps of `1 / (count / 4)` of a pixel. On each edge the anchors are
/// `side / (count / 4)` pixels apart; the first edge runs from `(0, side)` to
/// `(side, side)`, and the others follow round the square.
pub open spec fn square_point(count: int, side: int, k: int) -> (int, int) {
    let per_edge = count / 4;
    let along = (k % per_edge) * side;
    let far = per_edge * side;
    let edge = k / per_edge;
    if edge == 0 {
        (along, far)
    } else if edge == 1 {
        (far, far - along)
    } else if edge == 2 {
        (far - along, 0)
    } else {
        (0, along)
    }
}

/// Number of places between two anchors, the shorter way round.
pub fn circular_distance_of(count: usize, i: usize, j: usize) -> (distance: usize)
    requires
        i < count,
        j < count,
    ensures
        distance == circular_distance(count as int, i as int, j as int),
{
    let apart: usize = if i <= j { j - i } else { i - j };
    if apart <= count - apart {
        apart
    } else {
        count - apart
    }
}

/// Whether a chord may be drawn between anchors `i` and `j` of `count`.
pub fn is_admissible(count: usize, i: usize, j: usize) -> (yes: bool)
    ensures
        yes == admissible(count as int, i as int, j as int),
{
    if i >= count || j >= count {
        return false;
    }
    circular_distance_of(count, i, j) > count / 15
}

/// The two ends of an admissible chord differ, and the chord is admissible
/// whichever end is named first.
pub proof fn lemma_admissible_symmetric(count: int, i: int, j: int)
    requires
        admissible(count, i, j),
    ensures
        i != j,
        admissible(count, j, i),
{
}

/// Moving both ends of a chord one place round the boundary leaves their
/// distance, and so the chord's admissibility, as it was.
pub proof fn lemma_rotation_keeps_distance(count: int, i: int, j: int)
    requires
        0 <= i < count,
        0 <= j < count,
    ensures
        circular_distance(count, (i + 1) % count, (j + 1) % count) == circular_distance(
            count,
            i,
            j,
        ),
        admissible(count, (i + 1) % count, (j + 1) % count) == admissible(count, i, j),
{
    let a = (i + 1) % count;
    let b = (j + 1) % count;
    assert(a == if i + 1 == count { 0 } else { i + 1 }) by {
        if i + 1 == count {
            vstd::arithmetic::div_mod::lemma_mod_self_0(count);
        } else {
            vstd::arithmetic::div_mod::lemma_small_mod((i + 1) as nat, count as nat);
        }
    }
    assert(b == if j + 1 == count { 0 } else { j + 1 }) by {
        if j + 1 == count {
            vstd::arithmetic::div_mod::lemma_mod_self_0(count);
        } else {
            vstd::arithmetic::div_mod::lemma_small_mod((j + 1) as nat, count as nat);
        }
    }
}

/// Where the anchors of a square lie: each is a point of the boundary, on the
/// edge that its index names.
pub proof fn lemma_square_point_bounds(count: int, side: int, k: int)
    requires
        4 <= count,
        count % 4 == 0,
        1 <= side,
        0 <= k < count,
    ensures
        0 <= k / (count / 4) < 4,
        0 <= k % (count / 4) < count / 4,
        0 <= (k % (count / 4)) * side < (count / 4) * side,
        0 <= square_point(count, side, k).0 <= (count / 4) * side,
        0 <= square_point(count, side, k).1 <= (count / 4) * side,
{
    let q = count / 4;
    vstd::arithmetic::div_mod::lemma_fundamental_div_mod(k, q);
    vstd::arithmetic::div_mod::lemma_mod_bound(k, q);
    let e = k / q;
    let r = k % q;
    assert(0 <= e < 4) by (nonlinear_arith)
        requires
            k == q * e + r,
            0 <= r < q,
            0 <= k < 4 * q,
    ;
    assert(0 <= r * side < q * side) by (nonlinear_arith)
        requires
            0 <= r < q,
            1 <= side,
    ;
}

/// The anchors on a square are all different points.
pub proof fn lemma_square_points_differ(count: int, side: int, a: int, b: int)
    requires
        4 <= count,
        count % 4 == 0,
        1 <= side,
        0 <= a < count,
        0 <= b < count,
        a != b,
    ensures
        square_point(count, side, a) != square_point(count, side, b),
{
    let q = count / 4;
    lemma_square_point_bounds(count, side, a);
    lemma_square_point_bounds(count, side, b);
    vstd::arithmetic::div_mod::lemma_fundamental_div_mod(a, q);
    vstd::arithmetic::div_mod::lemma_fundamental_div_mod(b, q);
    let ra = a % q;
    let rb = b % q;
    if a / q == b / q {
        assert(ra != rb);
        assert(ra * side != rb * side) by (nonlinear_arith)
            requires
                ra != rb,
                1 <= side,
        ;
    }
}

impl View for AnchorTable {
    type V = Seq<Point>;

    /// The anchors in order.
    closed spec fn view(&self) -> Seq<Point> {
        self.points@
    }
}

impl AnchorTable {
    /// The side of the working region, in pixels.
    pub closed spec fn extent(&self) -> int {
        self.side as int
    }

    /// How many coordinate steps make one pixel.
    pub closed spec fn steps(&self) -> int {
        self.scale as int
    }

    /// The table holds between two and `MAX_ANCHORS` anchors, each inside the
    /// working region, and no two of them on the same point.
    pub open spec fn wf(&self) -> bool {
        table_ok(self@, self.extent(), self.steps())
    }

    /// Spreads `count` anchors evenly over the boundary of a square of the
    /// given side. The side must be from two to `MAX_SIDE`, and the count a
    /// multiple of four from two to `MAX_ANCHORS`.
    pub fn square(count: usize, side: usize) -> (made: Result<AnchorTable, ConfigError>)
        ensures
            made == Err::<AnchorTable, ConfigError>(ConfigError::Side) <==> side < 2 || side
                > MAX_SIDE,
            made == Err::<AnchorTable, ConfigError>(ConfigError::AnchorCount) <==> 2 <= side
                <= MAX_SIDE && (count < 2 || count > MAX_ANCHORS),
            made == Err::<AnchorTable, ConfigError>(ConfigError::NotMultipleOfFour) <==> 2 <= side
                <= MAX_SIDE && 2 <= count <= MAX_ANCHORS && count % 4 != 0,
            made matches Ok(table) ==> {
                &&& table.wf()
                &&& table.extent() == side
                &&& table.steps() == count / 4
                &&& table@.len() == count
                &&& forall|k: int|
                    0 <= k < count ==> ((#[trigger] table@[k]).x as int, table@[k].y as int)
                        == square_point(count as int, side as int, k)
            },
            made is Ok || made == Err::<AnchorTable, ConfigError>(ConfigError::Side) || made
                == Err::<AnchorTable, ConfigError>(ConfigError::AnchorCount) || made == Err::<
                AnchorTable,
                ConfigError,
            >(ConfigError::NotMultipleOfFour),
    {
        if side < 2 || side > MAX_SIDE {
            return Err(ConfigError::Side);
        }
        if count < 2 || count > MAX_ANCHORS {
            return Err(ConfigError::AnchorCount);
        }
        if count % 4 != 0 {
            return Err(ConfigError::NotMultipleOfFour);
        }
        let per_edge: usize = count / 4;
        assert(per_edge * side <= 1024 * 4096) by (nonlinear_arith)
            requires
                per_edge <= 1024,
                side <= 4096,
        ;
        let far: usize = per_edge * side;
        let mut points: Vec<Point> = Vec::new();
        let mut k: usize = 0;
        while k < count
            invariant
                k <= count,
                4 <= count <= MAX_ANCHORS,
                count % 4 == 0,
                2 <= side <= MAX_SIDE,
                per_edge == count / 4,
                far == per_edge * side,
                far <= 1024 * 4096,
                points@.len() == k,
                forall|m: int|
                    0 <= m < k ==> ((#[trigger] points@[m]).x as int, points@[m].y as int)
                        == square_point(count as int, side as int, m),
            decreases count - k,
        {
            proof {
                lemma_square_point_bounds(count as int, side as int, k as int);
            }
            let edge: usize = k / per_edge;
            let along: usize = (k % per_edge) * side;
            let point = if edge == 0 {
                Point { x: along as u32, y: far as u32 }
            } else if edge == 1 {
                Point { x: far as u32, y: (far - along) as u32 }
            } else if edge == 2 {
                Point { x: (far - along) as u32, y: 0 }
            } else {
                Point { x: 0, y: along as u32 }
            };
            points.push(point);
            k += 1;
        }
        let table = AnchorTable { side: side as u32, scale: per_edge as u32, points };
        proof {
            assert forall|m: int| 0 <= m < table@.len() implies (#[trigger] table@[m]).x
                <= table.extent() * table.steps() && table@[m].y <= table.extent()
                * table.steps() by {
                lemma_square_point_bounds(count as int, side as int, m);
                assert(per_edge * side == side * per_edge) by (nonlinear_arith);
            }
            assert forall|a: int, b: int|
                0 <= a < table@.len() && 0 <= b < table@.len() && a != b implies #[trigger] table@[a]
                != #[trigger] table@[b] by {
                lemma_square_points_differ(count as int, side as int, a, b);
            }
        }
        Ok(table)
    }

    /// Takes anchors that lie on whole pixels, in their order round the
    /// boundary. The side must be from two to `MAX_SIDE`; there must be from two
    /// to `MAX_ANCHORS` anchors, none outside the square from `(0, 0)` to
    /// `(side, side)`, and no two on the same pixel.
    pub fn from_pixels(points: Vec<Point>, side: usize) -> (made: Result<
        AnchorTable,
        ConfigError,
    >)
        ensures
            made matches Err(refusal) ==> refusal_of_pixels(points@, side as int) == Some(refusal),
            made matches Ok(table) ==> {
                &&& refusal_of_pixels(points@, side as int) is None
                &&& table.wf()
                &&& table.extent() == side
                &&& table.steps() == 1
                &&& table@ == points@
            },
    {
        if side < 2 || side > MAX_SIDE {
            return Err(ConfigError::Side);
        }
        let count: usize = points.len();
        if count < 2 || count > MAX_ANCHORS {
            return Err(ConfigError::AnchorCount);
        }
        let mut k: usize = 0;
        while k < count
            invariant
                k <= count,
                count == points@.len(),
                2 <= count <= MAX_ANCHORS,
                2 <= side <= MAX_SIDE,
                forall|m: int| 0 <= m < k ==> inside(#[trigger] points@[m], side as int),
            decreases count - k,
        {
            let p: Point = points[k];
            if p.x as usize > side || p.y as usize > side {
                assert(!inside(points@[k as int], side as int));
                return Err(ConfigError::AnchorOutside);
            }
            k += 1;
        }
        let mut a: usize = 0;
        while a < count
            invariant
                a <= count,
                count == points@.len(),
                2 <= count <= MAX_ANCHORS,
                2 <= side <= MAX_SIDE,
                forall|m: int| 0 <= m < count ==> inside(#[trigger] points@[m], side as int),
                forall|m: int, n: int|
                    0 <= m < a && m < n < count ==> #[trigger] points@[m] != #[trigger] points@[n],
            decreases count - a,
        {
            let mut b: usize = a + 1;
            while b < count
                invariant
                    a < b <= count,
                    count == points@.len(),
                2 <= count <= MAX_ANCHORS,
                2 <= side <= MAX_SIDE,
                    forall|m: int| 0 <= m < count ==> inside(#[trigger] points@[m], side as int),
                    forall|n: int| a < n < b ==> points@[a as int] != #[trigger] points@[n],
                decreases count - b,
            {
                if points[a].x == points[b].x && points[a].y == points[b].y {
                    assert(points@[a as int] == points@[b as int]);
                    return Err(ConfigError::AnchorsCoincide);
                }
                b += 1;
            }
            a += 1;
        }
        let table = AnchorTable { side: side as u32, scale: 1, points };
        proof {
            assert forall|m: int, n: int|
                0 <= m < table@.len() && 0 <= n < table@.len() && m != n implies #[trigger] table@[m]
                != #[trigger] table@[n] by {
                if m < n {
                    assert(points@[m] != points@[n]);
                } else {
                    assert(points@[n] != points@[m]);
                }
            }
        }
        Ok(table)
    }

    /// The number of anchors.
    pub fn len(&self) -> (count: usize)
        ensures
            count == self@.len(),
    {
        self.points.len()
    }

    /// The side of the working region, in pixels.
    pub fn side(&self) -> (side: usize)
        ensures
            side == self.extent(),
    {
        self.side as usize
    }

    /// How many coordinate steps make one pixel.
    pub fn scale(&self) -> (scale: u32)
        ensures
            scale == self.steps(),
    {
        self.scale
    }

    /// The `k`-th anchor.
    pub fn point(&self, k: usize) -> (point: Point)
        requires
            k < self@.len(),
        ensures
            point == self@[k as int],
    {
        self.points[k]
    }
}

/// Whether points, held in `steps` coordinate steps to the pixel, make an
/// anchor table for a region of the given side: from two to `MAX_ANCHORS`
/// points, each inside the region, and no two the same.
pub open spec fn table_ok(points: Seq<Point>, side: int, steps: int) -> bool {
    &&& 2 <= side <= MAX_SIDE
    &&& 1 <= steps <= MAX_SCALE
    &&& 2 <= points.len() <= MAX_ANCHORS
    &&& forall|k: int|
        0 <= k < points.len() ==> (#[trigger] points[k]).x <= side * steps && points[k].y <= side
            * steps
    &&& forall|a: int, b: int|
        0 <= a < points.len() && 0 <= b < points.len() && a != b ==> #[trigger] points[a]
            != #[trigger] points[b]
}

/// Whether a point on whole pixels lies in the square from `(0, 0)` to `(side, side)`.
pub open spec fn inside(point: Point, side: int) -> bool {
    point.x <= side && point.y <= side
}

/// Why a list of pixel anchors is refused, if it is: the first of the
/// conditions on side, count, position and distinctness that fails.
pub open spec fn refusal_of_pixels(points: Seq<Point>, side: int) -> Option<ConfigError> {
    if side < 2 || side > MAX_SIDE {
        Some(ConfigError::Side)
    } else if points.len() < 2 || points.len() > MAX_ANCHORS {
        Some(ConfigError::AnchorCount)
    } else if exists|k: int| 0 <= k < points.len() && !inside(#[trigger] points[k], side) {
        Some(ConfigError::AnchorOutside)
    } else if exists|a: int, b: int|
        0 <= a < b < points.len() && #[trigger] points[a] == #[trigger] points[b] {
        Some(ConfigError::AnchorsCoincide)
    } else {
        None
    }
}

} // verus!
