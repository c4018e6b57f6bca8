//! The squared distance between the target and a grid with one more chord.

use vstd::prelude::*;
use crate::grid::{Grid, MAX_SIDE};

verus! {

/// The darkest value that the scorer takes in any grid.
pub const MAX_DARKNESS: u64 = 0x200_0000_0000;

/// The outcome of scoring one candidate against a limit.
#[derive(Debug, Clone, Copy, PartialEq, Eq, Structural)]
pub struct Score {
    /// The loss of the candidate if it is accepted; else the sum at which
    /// the scorer gave up.
    pub loss: u128,
    /// Whether the loss of the candidate is within the limit.
    pub accepted: bool,
}

/// The squared difference at one pixel between the target and the working
/// value with a candidate's contribution added.
pub open spec fn squared_error(target: int, working: int, added: int) -> int {
    (target - working - added) * (target - working - added)
}

/// The sum of the squared errors over the first `count` pixels, in row-major order.
pub open spec fn loss_upto(target: Seq<u64>, working: Seq<u64>, added: Seq<u64>, count: int) -> int
    decreases count,
{
    if count <= 0 {
        0
    } else {
        loss_upto(target, working, added, count - 1) + squared_error(
            target[count - 1] as int,
            working[count - 1] as int,
            added[count - 1] as int,
        )
    }
}

/// The loss of a candidate: the sum of the squared errors over all pixels.
pub open spec fn loss(target: Seq<u64>, working: Seq<u64>, added: Seq<u64>) -> int {
    loss_upto(target, working, added, target.len() as int)
}

/// A layer that adds nothing.
pub open spec fn nothing(count: nat) -> Seq<u64> {
    Seq::new(count, |c: int| 0u64)
}

/// The loss of a working grid as it stands.
pub open spec fn residual(target: Seq<u64>, working: Seq<u64>) -> int {
    loss(target, working, nothing(target.len()))
}

/// Whether the running sum first exceeds `limit` with the `count`-th pixel.
pub open spec fn gives_up_at(
    target: Seq<u64>,
    working: Seq<u64>,
    added: Seq<u64>,
    limit: int,
    count: int,
) -> bool {
    &&& 0 < count <= target.len()
    &&& loss_upto(target, working, added, count - 1) <= limit
    &&& limit < loss_upto(target, working, added, count)
}

/// The running sum never falls.
pub proof fn lemma_loss_grows(
    target: Seq<u64>,
    working: Seq<u64>,
    added: Seq<u64>,
    fewer: int,
    more: int,
)
    requires
        fewer <= more,
    ensures
        0 <= loss_upto(target, working, added, fewer) <= loss_upto(target, working, added, more),
    decreases more - fewer, more,
{
    if fewer < more {
        lemma_loss_grows(target, working, added, fewer, more - 1);
        if more > 0 {
            let e = target[more - 1] as int - working[more - 1] as int - added[more - 1] as int;
            assert(0 <= e * e) by (nonlinear_arith);
        }
    } else if fewer > 0 {
        lemma_loss_grows(target, working, added, fewer - 1, more - 1);
        let e = target[more - 1] as int - working[more - 1] as int - added[more - 1] as int;
        assert(0 <= e * e) by (nonlinear_arith);
    }
}

/// The running sum depends only on the pixels it has passed.
pub proof fn lemma_loss_upto_agrees(
    target: Seq<u64>,
    working: Seq<u64>,
    added: Seq<u64>,
    working2: Seq<u64>,
    added2: Seq<u64>,
    count: int,
)
    requires
        forall|c: int|
            0 <= c < count ==> #[trigger] working2[c] + added2[c] == working[c] + added[c],
    ensures
        loss_upto(target, working2, added2, count) == loss_upto(target, working, added, count),
    decreases count,
{
    if count > 0 {
        lemma_loss_upto_agrees(target, working, added, working2, added2, count - 1);
        assert(working2[count - 1] + added2[count - 1] == working[count - 1] + added[count - 1]);
    }
}

/// Once a layer is added to the working grid, the loss of the grid as it
/// stands is the loss that the layer was scored with.
pub proof fn lemma_residual_after_deposit(
    target: Seq<u64>,
    working: Seq<u64>,
    added: Seq<u64>,
    summed: Seq<u64>,
)
    requires
        forall|c: int| 0 <= c < target.len() ==> #[trigger] summed[c] == working[c] + added[c],
    ensures
        residual(target, summed) == loss(target, working, added),
{
    let zero = nothing(target.len());
    assert forall|c: int| 0 <= c < target.len() implies #[trigger] summed[c] + zero[c]
        == working[c] + added[c] by {}
    lemma_loss_upto_agrees(target, working, added, summed, zero, target.len() as int);
}

/// The largest loss that grids within `MAX_DARKNESS` can have.
pub const MAX_LOSS: u128 = 0x1000_0000_0000_0000_0000_0000_0000;

/// A loss over grids within `MAX_DARKNESS` and `MAX_SIDE` is within `MAX_LOSS`.
pub proof fn lemma_loss_bounded(
    target: Seq<u64>,
    working: Seq<u64>,
    added: Seq<u64>,
    count: int,
)
    requires
        0 <= count <= MAX_SIDE * MAX_SIDE,
        forall|c: int| 0 <= c < count ==> #[trigger] target[c] <= MAX_DARKNESS,
        forall|c: int| 0 <= c < count ==> #[trigger] working[c] <= MAX_DARKNESS,
        forall|c: int| 0 <= c < count ==> #[trigger] added[c] <= MAX_DARKNESS,
    ensures
        0 <= loss_upto(target, working, added, count) <= count * 0x10_0000_0000_0000_0000_0000,
        loss_upto(target, working, added, count) <= MAX_LOSS,
    decreases count,
{
    if count > 0 {
        lemma_loss_bounded(target, working, added, count - 1);
        let e = target[count - 1] as int - working[count - 1] as int - added[count - 1] as int;
        assert(0 <= e * e <= 0x10_0000_0000_0000_0000_0000) by (nonlinear_arith)
            requires
                -0x400_0000_0000 <= e <= 0x400_0000_0000,
        ;
    }
}

/// Scores a candidate layer against a limit. The sum runs over the pixels in
/// row-major order and stops at the first pixel with which it exceeds the limit.
pub fn score(target: &Grid, working: &Grid, added: &Grid, limit: u128) -> (result: Score)
    requires
        target.wf(),
        working.wf(),
        added.wf(),
        working.extent() == target.extent(),
        added.extent() == target.extent(),
        forall|c: int| 0 <= c < target@.len() ==> #[trigger] target@[c] <= MAX_DARKNESS,
        forall|c: int| 0 <= c < target@.len() ==> #[trigger] working@[c] <= MAX_DARKNESS,
        forall|c: int| 0 <= c < target@.len() ==> #[trigger] added@[c] <= MAX_DARKNESS,
    ensures
        result.accepted <==> loss(target@, working@, added@) <= limit,
        result.accepted ==> result.loss == loss(target@, working@, added@),
        !result.accepted ==> exists|count: int|
            gives_up_at(target@, working@, added@, limit as int, count) && result.loss
                == loss_upto(target@, working@, added@, count),
{
    let side: usize = target.side();
    assert(side * side <= 4096 * 4096) by (nonlinear_arith)
        requires
            side <= 4096,
    ;
    let count: usize = side * side;
    let wanted: &Vec<u64> = target.cells();
    let present: &Vec<u64> = working.cells();
    let extra: &Vec<u64> = added.cells();
    let mut sum: u128 = 0;
    let mut c: usize = 0;
    while c < count
        invariant
            c <= count,
            count <= 4096 * 4096,
            count == target@.len(),
            wanted@ == target@,
            present@ == working@,
            extra@ == added@,
            present@.len() == count,
            extra@.len() == count,
            forall|k: int| 0 <= k < count ==> #[trigger] wanted@[k] <= MAX_DARKNESS,
            forall|k: int| 0 <= k < count ==> #[trigger] present@[k] <= MAX_DARKNESS,
            forall|k: int| 0 <= k < count ==> #[trigger] extra@[k] <= MAX_DARKNESS,
            sum == loss_upto(target@, working@, added@, c as int),
            sum <= c * 0x10_0000_0000_0000_0000_0000,
            sum <= limit,
        decreases count - c,
    {
        let reached: u64 = present[c] + extra[c];
        let gap: u128 = if wanted[c] >= reached {
            (wanted[c] - reached) as u128
        } else {
            (reached - wanted[c]) as u128
        };
        assert(gap * gap <= 0x10_0000_0000_0000_0000_0000) by (nonlinear_arith)
            requires
                gap <= 0x400_0000_0000,
        ;
        assert(gap * gap == squared_error(
            wanted@[c as int] as int,
            present@[c as int] as int,
            extra@[c as int] as int,
        )) by (nonlinear_arith)
            requires
                gap == wanted@[c as int] - present@[c as int] - extra@[c as int] || gap == -(
                wanted@[c as int] - present@[c as int] - extra@[c as int]),
        ;
        sum = sum + gap * gap;
        c += 1;
        if sum > limit {
            proof {
                lemma_loss_grows(target@, working@, added@, c as int, count as int);
                assert(gives_up_at(target@, working@, added@, limit as int, c as int));
            }
            return Score { loss: sum, accepted: false };
        }
    }
    Score { loss: sum, accepted: true }
}

/// The loss of a working grid as it stands.
pub fn loss_of(target: &Grid, working: &Grid) -> (total: u128)
    requires
        target.wf(),
        working.wf(),
        working.extent() == target.extent(),
        forall|c: int| 0 <= c < target@.len() ==> #[trigger] target@[c] <= MAX_DARKNESS,
        forall|c: int| 0 <= c < target@.len() ==> #[trigger] working@[c] <= MAX_DARKNESS,
    ensures
        total == residual(target@, working@),
{
    let zero: Grid = Grid::blank(target.side());
    assert(zero@ =~= nothing(target@.len()));
    let result: Score = score(target, working, &zero, u128::MAX);
    result.loss
}

} // verus!
