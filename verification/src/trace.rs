//! The greedy search as mathematics: what a run is given, which chord each
//! step must take, and what a sequence of accepted chords leaves on the grid.

use vstd::prelude::*;
use crate::anchors::{admissible, table_ok, Point};
use crate::config::{Config, Mode, Shape};
use crate::raster::{chord_cells, chord_value, lemma_chord_value_bounds, lemma_chord_value_symmetric};
use crate::scorer::{lemma_residual_after_deposit, loss, residual, MAX_DARKNESS};
use crate::units::{CEILING, UNIT};

verus! {

/// The largest number of chords that one run accepts. It keeps every pixel
/// of the working grid within `MAX_DARKNESS`.
pub const MAX_STROKES: usize = 0xFFFF_FFFF;

/// An accepted chord and the loss that it left.
#[derive(Debug, Clone, Copy, PartialEq, Eq, Structural)]
pub struct Stroke {
    /// The anchor where the chord starts.
    pub from: usize,
    /// The anchor where the chord ends.
    pub to: usize,
    /// The loss of the working grid with this chord on it.
    pub loss: u128,
}

/// All that a run is given and never changes.
pub struct Setup {
    pub config: Config,
    /// The anchors, in order.
    pub anchors: Seq<Point>,
    /// How many coordinate steps of the anchors make one pixel.
    pub steps: int,
    /// The target grid, row after row.
    pub target: Seq<u64>,
}

impl Setup {
    /// The number of anchors.
    pub open spec fn count(self) -> int {
        self.anchors.len() as int
    }

    /// The side of the grids.
    pub open spec fn side(self) -> int {
        self.config.side as int
    }

    /// Whether chords are cut off at the inscribed disk.
    pub open spec fn disk(self) -> bool {
        self.config.shape == Shape::Circle
    }

    /// The anchors make a table for the configured side, the thread starts at
    /// one of them, and the target has the configured side and no value above `UNIT`.
    pub open spec fn ok(self) -> bool {
        &&& table_ok(self.anchors, self.side(), self.steps)
        &&& self.config.start < self.count()
        &&& self.target.len() == self.side() * self.side()
        &&& forall|c: int| 0 <= c < self.target.len() ==> #[trigger] self.target[c] <= UNIT
    }

    /// What the chord between anchors `i` and `j` adds to each pixel.
    pub open spec fn layer(self, i: int, j: int) -> Seq<u64> {
        chord_cells(self.anchors[i], self.anchors[j], self.steps, self.side(), self.disk())
    }
}

/// What the chords of `strokes` together add at position `c` of the grid.
pub open spec fn painted_at(setup: Setup, strokes: Seq<Stroke>, c: int) -> int
    decreases strokes.len(),
{
    if strokes.len() == 0 {
        0
    } else {
        painted_at(setup, strokes.drop_last(), c) + setup.layer(
            strokes.last().from as int,
            strokes.last().to as int,
        )[c]
    }
}

/// The working grid after the chords of `strokes`: the sum of their layers.
pub open spec fn painted(setup: Setup, strokes: Seq<Stroke>) -> Seq<u64> {
    Seq::new((setup.side() * setup.side()) as nat, |c: int| painted_at(setup, strokes, c) as u64)
}

/// The anchor at which the thread stands after the chords of `strokes`.
pub open spec fn standing(setup: Setup, strokes: Seq<Stroke>) -> int {
    if strokes.len() > 0 && setup.config.mode == Mode::Fast {
        strokes.last().to as int
    } else {
        setup.config.start as int
    }
}

/// The loss that the next chord is measured against.
pub open spec fn measure(setup: Setup, strokes: Seq<Stroke>) -> Option<u128> {
    if strokes.len() > 0 {
        Some(strokes.last().loss)
    } else {
        setup.config.baseline
    }
}

/// Whether a loss is acceptable after `previous`: it is not more than
/// `tolerance` above it.
pub open spec fn within_limit(loss: int, previous: Option<u128>, tolerance: u128) -> bool {
    match previous {
        None => true,
        Some(before) => loss <= before + tolerance,
    }
}

/// Whether the chord from `i` to `j` is a candidate of the step that follows
/// `strokes`. In fast mode the candidates are the admissible chords from the
/// anchor where the thread stands; in slow mode, all admissible chords, each
/// named with its smaller end first.
pub open spec fn candidate(setup: Setup, strokes: Seq<Stroke>, i: int, j: int) -> bool {
    &&& admissible(setup.count(), i, j)
    &&& match setup.config.mode {
        Mode::Fast => i == standing(setup, strokes),
        Mode::Slow => i < j,
    }
}

/// The loss that the grid would have with the chord from `i` to `j` added.
pub open spec fn candidate_loss(setup: Setup, strokes: Seq<Stroke>, i: int, j: int) -> int {
    loss(setup.target, painted(setup, strokes), setup.layer(i, j))
}

/// Whether the pair `(i, j)` comes no later than `(i2, j2)` in dictionary order.
pub open spec fn precedes(i: int, j: int, i2: int, j2: int) -> bool {
    i < i2 || (i == i2 && j <= j2)
}

/// Whether a chord with loss `mine`, from `i` to `j`, is to be preferred to
/// the candidate from `i2` to `j2`, or is that candidate: its loss is smaller,
/// or equal and its pair comes no later.
pub open spec fn outranks(
    setup: Setup,
    strokes: Seq<Stroke>,
    mine: int,
    i: int,
    j: int,
    i2: int,
    j2: int,
) -> bool {
    let other = candidate_loss(setup, strokes, i2, j2);
    mine < other || (mine == other && precedes(i, j, i2, j2))
}

/// Whether the chord from `i` to `j` is the one candidate of least loss, the
/// first in dictionary order where several have it.
pub open spec fn best(setup: Setup, strokes: Seq<Stroke>, i: int, j: int) -> bool {
    &&& candidate(setup, strokes, i, j)
    &&& forall|i2: int, j2: int| #[trigger]
        candidate(setup, strokes, i2, j2) ==> outranks(
            setup,
            strokes,
            candidate_loss(setup, strokes, i, j),
            i,
            j,
            i2,
            j2,
        )
}

/// Whether `stroke` is what the step after `strokes` accepts: the best
/// candidate, with its loss, which is within the limit.
pub open spec fn chosen(setup: Setup, strokes: Seq<Stroke>, stroke: Stroke) -> bool {
    &&& best(setup, strokes, stroke.from as int, stroke.to as int)
    &&& stroke.loss == candidate_loss(setup, strokes, stroke.from as int, stroke.to as int)
    &&& within_limit(stroke.loss as int, measure(setup, strokes), setup.config.tolerance)
}

/// Whether the search ends after `strokes`: no candidate is within the limit.
pub open spec fn stalled(setup: Setup, strokes: Seq<Stroke>) -> bool {
    forall|i: int, j: int| #[trigger]
        candidate(setup, strokes, i, j) ==> !within_limit(
            candidate_loss(setup, strokes, i, j),
            measure(setup, strokes),
            setup.config.tolerance,
        )
}

/// Whether `strokes` is what the search accepts, step by step, from the blank grid.
pub open spec fn valid_trace(setup: Setup, strokes: Seq<Stroke>) -> bool {
    forall|k: int|
        0 <= k < strokes.len() ==> chosen(setup, #[trigger] strokes.take(k), strokes[k])
}

/// A layer holds one value for each pixel, none above the ceiling.
pub proof fn lemma_layer_bounds(setup: Setup, i: int, j: int, c: int)
    requires
        0 <= c < setup.side() * setup.side(),
    ensures
        setup.layer(i, j).len() == setup.side() * setup.side(),
        0 <= setup.layer(i, j)[c] <= CEILING,
        setup.layer(i, j)[c] as int == chord_value(
            setup.anchors[i],
            setup.anchors[j],
            setup.steps,
            setup.side(),
            setup.disk(),
            c % setup.side(),
            c / setup.side(),
        ),
{
    lemma_chord_value_bounds(
        setup.anchors[i],
        setup.anchors[j],
        setup.steps,
        setup.side(),
        setup.disk(),
        c % setup.side(),
        c / setup.side(),
    );
}

/// A chord's layer is the same whichever of its ends is named first.
pub proof fn lemma_layer_symmetric(setup: Setup, i: int, j: int)
    ensures
        setup.layer(i, j) == setup.layer(j, i),
{
    assert forall|c: int| 0 <= c < setup.side() * setup.side() implies setup.layer(i, j)[c]
        == setup.layer(j, i)[c] by {
        lemma_chord_value_symmetric(
            setup.anchors[i],
            setup.anchors[j],
            setup.steps,
            setup.side(),
            setup.disk(),
            c % setup.side(),
            c / setup.side(),
        );
    }
    assert(setup.layer(i, j) =~= setup.layer(j, i));
}

/// No pixel of the working grid is negative, and none holds more than the
/// ceiling for each accepted chord.
pub proof fn lemma_painted_bounds(setup: Setup, strokes: Seq<Stroke>, c: int)
    requires
        0 <= c < setup.side() * setup.side(),
    ensures
        0 <= painted_at(setup, strokes, c) <= CEILING * strokes.len(),
    decreases strokes.len(),
{
    if strokes.len() > 0 {
        lemma_painted_bounds(setup, strokes.drop_last(), c);
        lemma_layer_bounds(setup, strokes.last().from as int, strokes.last().to as int, c);
    }
}

/// While a run has accepted no more than `MAX_STROKES` chords, each pixel
/// of its working grid holds the sum of their layers, and that sum is within
/// `MAX_DARKNESS`.
pub proof fn lemma_painted_cell(setup: Setup, strokes: Seq<Stroke>, c: int)
    requires
        0 <= c < setup.side() * setup.side(),
        strokes.len() <= MAX_STROKES,
    ensures
        painted(setup, strokes)[c] as int == painted_at(setup, strokes, c),
        painted(setup, strokes)[c] + CEILING <= MAX_DARKNESS,
{
    lemma_painted_bounds(setup, strokes, c);
}

/// One more chord adds its layer to what was painted.
pub proof fn lemma_painted_push(setup: Setup, strokes: Seq<Stroke>, stroke: Stroke, c: int)
    ensures
        painted_at(setup, strokes.push(stroke), c) == painted_at(setup, strokes, c) + setup.layer(
            stroke.from as int,
            stroke.to as int,
        )[c],
{
    assert(strokes.push(stroke).drop_last() =~= strokes);
}

/// The working grid only grows: after more chords no pixel holds less.
pub proof fn lemma_painted_grows(setup: Setup, strokes: Seq<Stroke>, fewer: int, c: int)
    requires
        0 <= fewer <= strokes.len(),
        0 <= c < setup.side() * setup.side(),
    ensures
        0 <= painted_at(setup, strokes.take(fewer), c) <= painted_at(setup, strokes, c),
    decreases strokes.len(),
{
    lemma_painted_bounds(setup, strokes.take(fewer), c);
    if fewer == strokes.len() {
        assert(strokes.take(fewer) =~= strokes);
    } else {
        assert(strokes.drop_last().take(fewer) =~= strokes.take(fewer));
        lemma_painted_grows(setup, strokes.drop_last(), fewer, c);
        lemma_layer_bounds(setup, strokes.last().from as int, strokes.last().to as int, c);
    }
}

/// A trace with the chord that the next step accepts is a trace.
pub proof fn lemma_trace_push(setup: Setup, strokes: Seq<Stroke>, stroke: Stroke)
    requires
        valid_trace(setup, strokes),
        chosen(setup, strokes, stroke),
    ensures
        valid_trace(setup, strokes.push(stroke)),
{
    let longer = strokes.push(stroke);
    assert forall|k: int| 0 <= k < longer.len() implies chosen(
        setup,
        #[trigger] longer.take(k),
        longer[k],
    ) by {
        if k < strokes.len() {
            assert(longer.take(k) =~= strokes.take(k));
        } else {
            assert(longer.take(k) =~= strokes);
        }
    }
}

/// Every beginning of a trace is a trace.
pub proof fn lemma_trace_prefix(setup: Setup, strokes: Seq<Stroke>, fewer: int)
    requires
        valid_trace(setup, strokes),
        0 <= fewer <= strokes.len(),
    ensures
        valid_trace(setup, strokes.take(fewer)),
{
    let shorter = strokes.take(fewer);
    assert forall|k: int| 0 <= k < shorter.len() implies chosen(
        setup,
        #[trigger] shorter.take(k),
        shorter[k],
    ) by {
        assert(shorter.take(k) =~= strokes.take(k));
    }
}

/// Every accepted chord joins two anchors that are more than the minimum
/// separation apart.
pub proof fn lemma_trace_admissible(setup: Setup, strokes: Seq<Stroke>, k: int)
    requires
        valid_trace(setup, strokes),
        0 <= k < strokes.len(),
    ensures
        admissible(setup.count(), strokes[k].from as int, strokes[k].to as int),
{
    assert(chosen(setup, strokes.take(k), strokes[k]));
}

/// The loss recorded with an accepted chord is the loss of the working grid
/// with that chord on it, and it is at most the tolerance above the loss
/// recorded with the chord before.
pub proof fn lemma_trace_losses(setup: Setup, strokes: Seq<Stroke>, k: int)
    requires
        setup.ok(),
        valid_trace(setup, strokes),
        0 <= k < strokes.len() <= MAX_STROKES,
    ensures
        strokes[k].loss == residual(setup.target, painted(setup, strokes.take(k + 1))),
        k > 0 ==> strokes[k].loss <= strokes[k - 1].loss + setup.config.tolerance,
        k == 0 ==> within_limit(
            strokes[k].loss as int,
            setup.config.baseline,
            setup.config.tolerance,
        ),
{
    let before = strokes.take(k);
    let after = strokes.take(k + 1);
    assert(chosen(setup, before, strokes[k]));
    assert(after =~= before.push(strokes[k]));
    if k > 0 {
        assert(before.last() == strokes[k - 1]);
    }
    let added = setup.layer(strokes[k].from as int, strokes[k].to as int);
    assert forall|c: int| 0 <= c < setup.target.len() implies #[trigger] painted(setup, after)[c]
        == painted(setup, before)[c] + added[c] by {
        lemma_painted_push(setup, before, strokes[k], c);
        lemma_painted_bounds(setup, before, c);
        lemma_painted_bounds(setup, after, c);
        lemma_layer_bounds(setup, strokes[k].from as int, strokes[k].to as int, c);
    }
    lemma_residual_after_deposit(
        setup.target,
        painted(setup, before),
        added,
        painted(setup, after),
    );
}

/// The best candidate of a step is one chord only.
pub proof fn lemma_best_is_unique(
    setup: Setup,
    strokes: Seq<Stroke>,
    i: int,
    j: int,
    i2: int,
    j2: int,
)
    requires
        best(setup, strokes, i, j),
        best(setup, strokes, i2, j2),
    ensures
        i == i2,
        j == j2,
{
    assert(outranks(setup, strokes, candidate_loss(setup, strokes, i, j), i, j, i2, j2));
    assert(outranks(setup, strokes, candidate_loss(setup, strokes, i2, j2), i2, j2, i, j));
}

/// Two runs on the same setup accept the same chords in the same order: of
/// two traces the shorter is the beginning of the longer.
pub proof fn lemma_traces_agree(setup: Setup, shorter: Seq<Stroke>, longer: Seq<Stroke>)
    requires
        valid_trace(setup, shorter),
        valid_trace(setup, longer),
        shorter.len() <= longer.len(),
    ensures
        shorter == longer.take(shorter.len() as int),
    decreases shorter.len(),
{
    if shorter.len() == 0 {
        assert(shorter =~= longer.take(0));
    } else {
        let k = shorter.len() - 1;
        lemma_trace_prefix(setup, shorter, k);
        lemma_traces_agree(setup, shorter.take(k), longer);
        assert(shorter.take(k).len() == k);
        assert(shorter.take(k) == longer.take(k));
        assert(chosen(setup, shorter.take(k), shorter[k]));
        assert(chosen(setup, longer.take(k), longer[k]));
        lemma_best_is_unique(
            setup,
            shorter.take(k),
            shorter[k].from as int,
            shorter[k].to as int,
            longer[k].from as int,
            longer[k].to as int,
        );
        assert(shorter[k] == longer[k]);
        assert(shorter =~= longer.take(shorter.len() as int)) by {
            assert forall|m: int| 0 <= m < shorter.len() implies shorter[m] == longer.take(
                shorter.len() as int,
            )[m] by {
                if m < k {
                    assert(shorter.take(k)[m] == longer.take(k)[m]);
                }
            }
        }
    }
}

/// Two runs on the same setup that both went on until the search ended have
/// accepted the same chords and painted the same grid.
pub proof fn lemma_finished_runs_agree(setup: Setup, one: Seq<Stroke>, other: Seq<Stroke>)
    requires
        valid_trace(setup, one),
        valid_trace(setup, other),
        stalled(setup, one),
        stalled(setup, other),
    ensures
        one == other,
        painted(setup, one) == painted(setup, other),
{
    if one.len() < other.len() {
        lemma_traces_agree(setup, one, other);
        let next = other[one.len() as int];
        assert(chosen(setup, other.take(one.len() as int), next));
        assert(candidate(setup, one, next.from as int, next.to as int));
    } else if other.len() < one.len() {
        lemma_traces_agree(setup, other, one);
        let next = one[other.len() as int];
        assert(chosen(setup, one.take(other.len() as int), next));
        assert(candidate(setup, other, next.from as int, next.to as int));
    } else {
        lemma_traces_agree(setup, one, other);
        assert(other.take(one.len() as int) =~= other);
    }
}

/// In one step from the same working grid, the search over all admissible
/// chords finds a loss no larger than the search bound to the thread's end.
pub proof fn lemma_slow_step_dominates(
    fast: Setup,
    fast_strokes: Seq<Stroke>,
    slow: Setup,
    slow_strokes: Seq<Stroke>,
    i: int,
    j: int,
    i2: int,
    j2: int,
)
    requires
        fast.config.mode == Mode::Fast,
        slow.config.mode == Mode::Slow,
        fast.anchors == slow.anchors,
        fast.steps == slow.steps,
        fast.target == slow.target,
        fast.side() == slow.side(),
        fast.disk() == slow.disk(),
        painted(fast, fast_strokes) == painted(slow, slow_strokes),
        best(fast, fast_strokes, i, j),
        best(slow, slow_strokes, i2, j2),
    ensures
        candidate_loss(slow, slow_strokes, i2, j2) <= candidate_loss(fast, fast_strokes, i, j),
{
    if i < j {
        assert(candidate(slow, slow_strokes, i, j));
        assert(slow.layer(i, j) == fast.layer(i, j));
    } else {
        assert(candidate(slow, slow_strokes, j, i));
        lemma_layer_symmetric(fast, i, j);
        assert(slow.layer(j, i) == fast.layer(j, i));
    }
}

} // verus!
