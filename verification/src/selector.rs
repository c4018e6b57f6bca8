//! The greedy search: one step, and a run of steps.

use vstd::prelude::*;
use crate::anchors::{admissible, is_admissible, AnchorTable};
use crate::config::{Config, Mode, Shape};
use crate::error::ConfigError;
use crate::grid::Grid;
use crate::raster::chord_mask;
use crate::scorer::{
    lemma_loss_bounded, loss_of, residual, score, Score, MAX_DARKNESS, MAX_LOSS,
};
use crate::trace::{
    candidate, candidate_loss, chosen, lemma_layer_bounds, lemma_painted_bounds,
    lemma_painted_cell, lemma_painted_push, lemma_trace_admissible, lemma_trace_losses,
    lemma_trace_push, lemma_traces_agree, measure, outranks, painted, painted_at, stalled,
    standing, valid_trace, within_limit, Setup, Stroke, MAX_STROKES,
};
use crate::units::{CEILING, UNIT};

verus! {

/// What one step of the search did.
#[derive(Debug, Clone, Copy, PartialEq, Eq, Structural)]
pub enum Step {
    /// The chord was drawn on the working grid.
    Accepted(Stroke),
    /// No candidate was within the limit; the grid is as it was.
    Stalled,
}

/// The state of a run: what it was given, the chords accepted so far and
/// the working grid that they have painted.
#[derive(Debug)]
pub struct Selector {
    config: Config,
    anchors: AnchorTable,
    target: Grid,
    working: Grid,
    strokes: Vec<Stroke>,
}

/// Why a run cannot be set up, if it cannot: the first that fails of the
/// conditions that the anchors are made for the configured side, that the
/// starting anchor is in the table, that the target has the configured side,
/// and that no target value is above `UNIT`.
pub open spec fn refusal_of_setup(
    config: Config,
    anchor_side: int,
    anchor_count: int,
    target_side: int,
    target: Seq<u64>,
) -> Option<ConfigError> {
    if config.side != anchor_side {
        Some(ConfigError::AnchorSide)
    } else if config.start >= anchor_count {
        Some(ConfigError::StartAnchor)
    } else if target_side != config.side {
        Some(ConfigError::TargetSide)
    } else if exists|c: int| 0 <= c < target.len() && #[trigger] target[c] > UNIT {
        Some(ConfigError::TargetRange)
    } else {
        None
    }
}

/// Whether the pair `(i2, j2)` comes before `(i, j)` in dictionary order.
spec fn before(i2: int, j2: int, i: int, j: int) -> bool {
    i2 < i || (i2 == i && j2 < j)
}

/// What the search knows when it has looked at every candidate before
/// `(i, j)`: either none of them is within the limit, or `found` is the best
/// of them, with its loss, and is within the limit.
spec fn leading(
    setup: Setup,
    strokes: Seq<Stroke>,
    found: Option<Stroke>,
    i: int,
    j: int,
) -> bool {
    match found {
        None => forall|i2: int, j2: int| #[trigger]
            candidate(setup, strokes, i2, j2) && before(i2, j2, i, j) ==> !within_limit(
                candidate_loss(setup, strokes, i2, j2),
                measure(setup, strokes),
                setup.config.tolerance,
            ),
        Some(stroke) => {
            &&& candidate(setup, strokes, stroke.from as int, stroke.to as int)
            &&& before(stroke.from as int, stroke.to as int, i, j)
            &&& stroke.loss == candidate_loss(setup, strokes, stroke.from as int, stroke.to as int)
            &&& within_limit(stroke.loss as int, measure(setup, strokes), setup.config.tolerance)
            &&& forall|i2: int, j2: int| #[trigger]
                candidate(setup, strokes, i2, j2) && before(i2, j2, i, j) ==> outranks(
                    setup,
                    strokes,
                    stroke.loss as int,
                    stroke.from as int,
                    stroke.to as int,
                    i2,
                    j2,
                )
        },
    }
}

/// The largest loss that replaces what the search has found so far.
spec fn bar(found: Option<Stroke>, limit: u128) -> int {
    match found {
        None => limit as int,
        Some(stroke) => stroke.loss - 1,
    }
}

/// The largest loss that is within the limit after `previous`, as far as a
/// loss can go.
spec fn limit_after(previous: Option<u128>, tolerance: u128) -> int {
    match previous {
        None => u128::MAX as int,
        Some(loss) => if loss + tolerance <= u128::MAX {
            loss + tolerance
        } else {
            u128::MAX as int
        },
    }
}

/// Looking at one more pair keeps what the search knows: the pair replaces
/// what was found if it is a candidate with a loss within the bar, and
/// changes nothing if not.
proof fn lemma_leading_advance(
    setup: Setup,
    strokes: Seq<Stroke>,
    found: Option<Stroke>,
    next: Option<Stroke>,
    i: usize,
    j: usize,
    limit: u128,
)
    requires
        leading(setup, strokes, found, i as int, j as int),
        limit == limit_after(measure(setup, strokes), setup.config.tolerance),
        candidate(setup, strokes, i as int, j as int) ==> 0 <= candidate_loss(
            setup,
            strokes,
            i as int,
            j as int,
        ) <= MAX_LOSS,
        next == if candidate(setup, strokes, i as int, j as int) && candidate_loss(
            setup,
            strokes,
            i as int,
            j as int,
        ) <= bar(found, limit) {
            Some(
                Stroke {
                    from: i,
                    to: j,
                    loss: candidate_loss(setup, strokes, i as int, j as int) as u128,
                },
            )
        } else {
            found
        },
    ensures
        leading(setup, strokes, next, i as int, j + 1),
{
    let here = candidate_loss(setup, strokes, i as int, j as int);
    match next {
        None => {
            assert forall|i2: int, j2: int| #[trigger]
                candidate(setup, strokes, i2, j2) && before(
                    i2,
                    j2,
                    i as int,
                    j + 1,
                ) implies !within_limit(
                candidate_loss(setup, strokes, i2, j2),
                measure(setup, strokes),
                setup.config.tolerance,
            ) by {
                if !before(i2, j2, i as int, j as int) {
                    assert(i2 == i && j2 == j);
                }
            }
        },
        Some(stroke) => {
            assert forall|i2: int, j2: int| #[trigger]
                candidate(setup, strokes, i2, j2) && before(i2, j2, i as int, j + 1) implies outranks(
                setup,
                strokes,
                stroke.loss as int,
                stroke.from as int,
                stroke.to as int,
                i2,
                j2,
            ) by {
                if !before(i2, j2, i as int, j as int) {
                    assert(i2 == i && j2 == j);
                }
            }
        },
    }
}

impl Selector {
    /// What the run was given.
    pub closed spec fn setup(&self) -> Setup {
        Setup {
            config: self.config,
            anchors: self.anchors@,
            steps: self.anchors.steps(),
            target: self.target@,
        }
    }

    /// The chords accepted so far, in order.
    pub closed spec fn trace(&self) -> Seq<Stroke> {
        self.strokes@
    }

    /// The working grid, row after row.
    pub closed spec fn canvas(&self) -> Seq<u64> {
        self.working@
    }

    /// The parts of the state fit together.
    pub closed spec fn coherent(&self) -> bool {
        &&& self.anchors.wf()
        &&& self.anchors.extent() == self.config.side
        &&& self.target.wf()
        &&& self.target.extent() == self.config.side
        &&& self.working.wf()
        &&& self.working.extent() == self.config.side
    }

    /// The setup is sound, the accepted chords are what the search accepts
    /// step by step, and the working grid is what they paint.
    pub open spec fn wf(&self) -> bool {
        &&& self.coherent()
        &&& self.setup().ok()
        &&& self.trace().len() <= MAX_STROKES
        &&& valid_trace(self.setup(), self.trace())
        &&& self.canvas() == painted(self.setup(), self.trace())
    }

    /// Sets a run up on a blank working grid.
    pub fn new(config: Config, anchors: AnchorTable, target: Grid) -> (made: Result<
        Selector,
        ConfigError,
    >)
        requires
            anchors.wf(),
            target.wf(),
        ensures
            made matches Err(refusal) ==> refusal_of_setup(
                config,
                anchors.extent(),
                anchors@.len() as int,
                target.extent(),
                target@,
            ) == Some(refusal),
            made matches Ok(selector) ==> {
                &&& refusal_of_setup(
                    config,
                    anchors.extent(),
                    anchors@.len() as int,
                    target.extent(),
                    target@,
                ) is None
                &&& selector.wf()
                &&& selector.setup() == (Setup {
                    config,
                    anchors: anchors@,
                    steps: anchors.steps(),
                    target: target@,
                })
                &&& selector.trace() == Seq::<Stroke>::empty()
            },
    {
        if config.side != anchors.side() {
            return Err(ConfigError::AnchorSide);
        }
        if config.start >= anchors.len() {
            return Err(ConfigError::StartAnchor);
        }
        if target.side() != config.side {
            return Err(ConfigError::TargetSide);
        }
        let cells: &Vec<u64> = target.cells();
        let count: usize = cells.len();
        let mut c: usize = 0;
        while c < count
            invariant
                c <= count,
                count == cells@.len(),
                cells@ == target@,
                config.side == anchors.extent(),
                config.start < anchors@.len(),
                target.extent() == config.side,
                forall|k: int| 0 <= k < c ==> #[trigger] target@[k] <= UNIT,
            decreases count - c,
        {
            if cells[c] > UNIT {
                assert(target@[c as int] > UNIT);
                return Err(ConfigError::TargetRange);
            }
            c += 1;
        }
        let working: Grid = Grid::blank(config.side);
        let selector = Selector { config, anchors, target, working, strokes: Vec::new() };
        proof {
            assert(selector.canvas() =~= painted(selector.setup(), selector.trace()));
        }
        Ok(selector)
    }

    /// The anchor at which the thread stands.
    pub fn current(&self) -> (anchor: usize)
        requires
            self.wf(),
        ensures
            anchor == standing(self.setup(), self.trace()),
            anchor < self.setup().count(),
    {
        let accepted: usize = self.strokes.len();
        proof {
            if accepted > 0 {
                assert(chosen(
                    self.setup(),
                    self.trace().take(accepted - 1),
                    self.trace()[accepted - 1],
                ));
            }
        }
        match self.config.mode {
            Mode::Fast => if accepted > 0 {
                self.strokes[accepted - 1].to
            } else {
                self.config.start
            },
            Mode::Slow => self.config.start,
        }
    }

    /// The loss that the next chord is measured against.
    pub fn previous(&self) -> (loss: Option<u128>)
        requires
            self.wf(),
        ensures
            loss == measure(self.setup(), self.trace()),
    {
        let accepted: usize = self.strokes.len();
        if accepted > 0 {
            Some(self.strokes[accepted - 1].loss)
        } else {
            self.config.baseline
        }
    }

    /// Scores the chord from `i` to `j` and keeps it in place of `found` if
    /// its loss is within the bar.
    fn consider(&self, i: usize, j: usize, found: Option<Stroke>, limit: u128) -> (next: Option<
        Stroke,
    >)
        requires
            self.wf(),
            i < self.setup().count(),
            j < self.setup().count(),
        ensures
            0 <= candidate_loss(self.setup(), self.trace(), i as int, j as int) <= MAX_LOSS,
            next == if candidate_loss(self.setup(), self.trace(), i as int, j as int) <= bar(
                found,
                limit,
            ) {
                Some(
                    Stroke {
                        from: i,
                        to: j,
                        loss: candidate_loss(self.setup(), self.trace(), i as int, j as int) as u128,
                    },
                )
            } else {
                found
            },
    {
        let disk: bool = match self.config.shape {
            Shape::Circle => true,
            Shape::Square => false,
        };
        let mask: Grid = chord_mask(&self.anchors, disk, i, j);
        proof {
            let setup = self.setup();
            assert(mask@ == setup.layer(i as int, j as int));
            assert forall|c: int| 0 <= c < self.target@.len() implies #[trigger] self.working@[c]
                <= MAX_DARKNESS by {
                lemma_painted_cell(setup, self.trace(), c);
            }
            assert(setup.side() * setup.side() <= 4096 * 4096) by (nonlinear_arith)
                requires
                    0 <= setup.side() <= 4096,
            ;
            lemma_loss_bounded(self.target@, self.working@, mask@, self.target@.len() as int);
        }
        let bound: u128 = match found {
            None => limit,
            Some(stroke) => {
                if stroke.loss == 0 {
                    return found;
                }
                stroke.loss - 1
            },
        };
        let result: Score = score(&self.target, &self.working, &mask, bound);
        if result.accepted {
            Some(Stroke { from: i, to: j, loss: result.loss })
        } else {
            found
        }
    }

    /// Looks at the chords from `i` to the anchors from `first` on.
    fn search_row(&self, i: usize, first: usize, found: Option<Stroke>, limit: u128) -> (next:
        Option<Stroke>)
        requires
            self.wf(),
            i < self.setup().count(),
            first <= self.setup().count(),
            limit == limit_after(
                measure(self.setup(), self.trace()),
                self.setup().config.tolerance,
            ),
            match self.setup().config.mode {
                Mode::Fast => i == standing(self.setup(), self.trace()),
                Mode::Slow => first == i + 1,
            },
            leading(self.setup(), self.trace(), found, i as int, first as int),
        ensures
            leading(self.setup(), self.trace(), next, i as int, self.setup().count()),
    {
        let count: usize = self.anchors.len();
        let mut best: Option<Stroke> = found;
        let mut j: usize = first;
        while j < count
            invariant
                self.wf(),
                first <= j <= count,
                i < count,
                count == self.setup().count(),
                limit == limit_after(
                    measure(self.setup(), self.trace()),
                    self.setup().config.tolerance,
                ),
                match self.setup().config.mode {
                    Mode::Fast => i == standing(self.setup(), self.trace()),
                    Mode::Slow => first == i + 1,
                },
                leading(self.setup(), self.trace(), best, i as int, j as int),
            decreases count - j,
        {
            let before_this: Option<Stroke> = best;
            if is_admissible(count, i, j) {
                best = self.consider(i, j, best, limit);
            }
            proof {
                lemma_leading_advance(
                    self.setup(),
                    self.trace(),
                    before_this,
                    best,
                    i,
                    j,
                    limit,
                );
            }
            j += 1;
        }
        best
    }

    /// Finds the chord that the next step accepts, if there is one.
    pub fn search(&self) -> (found: Option<Stroke>)
        requires
            self.wf(),
        ensures
            found matches Some(stroke) ==> chosen(self.setup(), self.trace(), stroke),
            found is None ==> stalled(self.setup(), self.trace()),
    {
        let count: usize = self.anchors.len();
        let limit: u128 = match self.previous() {
            None => u128::MAX,
            Some(loss) => if self.config.tolerance <= u128::MAX - loss {
                loss + self.config.tolerance
            } else {
                u128::MAX
            },
        };
        match self.config.mode {
            Mode::Fast => {
                let found: Option<Stroke> = self.search_row(self.current(), 0, None, limit);
                found
            },
            Mode::Slow => {
                let mut best: Option<Stroke> = None;
                let mut i: usize = 0;
                while i < count
                    invariant
                        self.wf(),
                        i <= count,
                        count == self.setup().count(),
                        self.setup().config.mode == Mode::Slow,
                        limit == limit_after(
                            measure(self.setup(), self.trace()),
                            self.setup().config.tolerance,
                        ),
                        leading(self.setup(), self.trace(), best, i as int, i + 1),
                    decreases count - i,
                {
                    best = self.search_row(i, i + 1, best, limit);
                    i += 1;
                }
                best
            },
        }
    }

    /// Takes one step: finds the best candidate and, if its loss is within
    /// the limit, draws it on the working grid and records it.
    pub fn step(&mut self) -> (outcome: Step)
        requires
            old(self).wf(),
            old(self).trace().len() < MAX_STROKES,
        ensures
            final(self).wf(),
            final(self).setup() == old(self).setup(),
            outcome matches Step::Accepted(stroke) ==> {
                &&& chosen(old(self).setup(), old(self).trace(), stroke)
                &&& final(self).trace() == old(self).trace().push(stroke)
                &&& forall|c: int|
                    0 <= c < old(self).canvas().len() ==> #[trigger] final(self).canvas()[c]
                        == old(self).canvas()[c] + old(self).setup().layer(
                        stroke.from as int,
                        stroke.to as int,
                    )[c]
            },
            outcome is Stalled ==> {
                &&& stalled(old(self).setup(), old(self).trace())
                &&& final(self).trace() == old(self).trace()
                &&& final(self).canvas() == old(self).canvas()
            },
    {
        match self.search() {
            None => Step::Stalled,
            Some(stroke) => {
                let disk: bool = match self.config.shape {
                    Shape::Circle => true,
                    Shape::Square => false,
                };
                let mask: Grid = chord_mask(&self.anchors, disk, stroke.from, stroke.to);
                let ghost setup = self.setup();
                let ghost trace = self.trace();
                proof {
                    assert(mask@ == setup.layer(stroke.from as int, stroke.to as int));
                    assert forall|c: int| 0 <= c < self.working@.len() implies self.working@[c]
                        + #[trigger] mask@[c] <= u64::MAX by {
                        lemma_painted_cell(setup, trace, c);
                    }
                }
                self.working.deposit(&mask);
                self.strokes.push(stroke);
                proof {
                    let longer = trace.push(stroke);
                    lemma_trace_push(setup, trace, stroke);
                    assert forall|c: int| 0 <= c < self.working@.len() implies self.working@[c]
                        == #[trigger] painted(setup, longer)[c] by {
                        lemma_painted_cell(setup, trace, c);
                        lemma_painted_cell(setup, longer, c);
                        lemma_painted_push(setup, trace, stroke, c);
                        lemma_layer_bounds(setup, stroke.from as int, stroke.to as int, c);
                    }
                    assert(self.working@ =~= painted(setup, longer));
                }
                Step::Accepted(stroke)
            },
        }
    }

    /// Takes steps until the search ends, `max_steps` chords have been
    /// accepted in this call, or the run holds `MAX_STROKES` chords. Returns
    /// how many chords this call accepted.
    pub fn run(&mut self, max_steps: usize) -> (accepted: usize)
        requires
            old(self).wf(),
        ensures
            final(self).wf(),
            final(self).setup() == old(self).setup(),
            accepted <= max_steps,
            final(self).trace().len() == old(self).trace().len() + accepted,
            final(self).trace().take(old(self).trace().len() as int) == old(self).trace(),
            accepted < max_steps ==> stalled(final(self).setup(), final(self).trace())
                || final(self).trace().len() == MAX_STROKES,
    {
        let mut accepted: usize = 0;
        proof {
            assert(self.trace().take(self.trace().len() as int) =~= self.trace());
        }
        while accepted < max_steps && self.strokes.len() < MAX_STROKES
            invariant
                self.wf(),
                self.setup() == old(self).setup(),
                accepted <= max_steps,
                self.trace().len() == old(self).trace().len() + accepted,
                self.trace().take(old(self).trace().len() as int) == old(self).trace(),
            decreases max_steps - accepted,
        {
            let ghost earlier = self.trace();
            match self.step() {
                Step::Stalled => {
                    return accepted;
                },
                Step::Accepted(stroke) => {
                    proof {
                        assert(earlier.push(stroke).take(old(self).trace().len() as int)
                            =~= earlier.take(old(self).trace().len() as int));
                    }
                    accepted += 1;
                },
            }
        }
        accepted
    }

    /// The configuration.
    pub fn config(&self) -> (config: Config)
        ensures
            config == self.setup().config,
    {
        self.config
    }

    /// The anchors.
    pub fn anchors(&self) -> (anchors: &AnchorTable)
        ensures
            anchors@ == self.setup().anchors,
            anchors.steps() == self.setup().steps,
            self.wf() ==> anchors.wf() && anchors.extent() == self.setup().side(),
    {
        &self.anchors
    }

    /// The target grid.
    pub fn target(&self) -> (target: &Grid)
        ensures
            target@ == self.setup().target,
            self.wf() ==> target.wf() && target.extent() == self.setup().side(),
    {
        &self.target
    }

    /// The working grid.
    pub fn working(&self) -> (working: &Grid)
        ensures
            working@ == self.canvas(),
            self.wf() ==> working.wf() && working.extent() == self.setup().side(),
    {
        &self.working
    }

    /// The chords accepted so far, in order.
    pub fn strokes(&self) -> (strokes: &Vec<Stroke>)
        ensures
            strokes@ == self.trace(),
    {
        &self.strokes
    }

    /// The loss of the working grid as it stands.
    pub fn loss(&self) -> (total: u128)
        requires
            self.wf(),
        ensures
            total == residual(self.setup().target, self.canvas()),
    {
        proof {
            assert forall|c: int| 0 <= c < self.target@.len() implies #[trigger] self.working@[c]
                <= MAX_DARKNESS by {
                lemma_painted_cell(self.setup(), self.trace(), c);
            }
        }
        loss_of(&self.target, &self.working)
    }

    /// However many steps a run has taken, every chord that it accepted joins
    /// two anchors more than the minimum separation apart.
    pub proof fn lemma_chords_admissible(&self, k: int)
        requires
            self.wf(),
            0 <= k < self.trace().len(),
        ensures
            admissible(
                self.setup().count(),
                self.trace()[k].from as int,
                self.trace()[k].to as int,
            ),
    {
        lemma_trace_admissible(self.setup(), self.trace(), k);
    }

    /// However many steps a run has taken, the loss after each accepted
    /// chord is at most the tolerance above the loss after the chord before,
    /// and the loss recorded last is the loss of the working grid.
    pub proof fn lemma_losses_within_tolerance(&self, k: int)
        requires
            self.wf(),
            0 <= k < self.trace().len(),
        ensures
            k > 0 ==> self.trace()[k].loss <= self.trace()[k - 1].loss
                + self.setup().config.tolerance,
            k == 0 ==> within_limit(
                self.trace()[k].loss as int,
                self.setup().config.baseline,
                self.setup().config.tolerance,
            ),
            k == self.trace().len() - 1 ==> self.trace()[k].loss == residual(
                self.setup().target,
                self.canvas(),
            ),
    {
        lemma_trace_losses(self.setup(), self.trace(), k);
        if k == self.trace().len() - 1 {
            assert(self.trace().take(k + 1) =~= self.trace());
        }
    }

    /// However many steps a run has taken, no pixel of the working grid is
    /// negative: each holds the sum of what the accepted chords add to it,
    /// which is at most the ceiling for each chord.
    pub proof fn lemma_canvas_is_painted(&self, c: int)
        requires
            self.wf(),
            0 <= c < self.canvas().len(),
        ensures
            self.canvas()[c] as int == painted_at(self.setup(), self.trace(), c),
            0 <= self.canvas()[c] <= CEILING * self.trace().len(),
    {
        lemma_painted_cell(self.setup(), self.trace(), c);
        lemma_painted_bounds(self.setup(), self.trace(), c);
    }

    /// Two runs on the same setup that have accepted equally many chords have
    /// accepted the same chords and hold the same working grid.
    pub proof fn lemma_runs_agree(&self, other: &Selector)
        requires
            self.wf(),
            other.wf(),
            self.setup() == other.setup(),
            self.trace().len() == other.trace().len(),
        ensures
            self.trace() == other.trace(),
            self.canvas() == other.canvas(),
    {
        lemma_traces_agree(self.setup(), self.trace(), other.trace());
        assert(other.trace().take(self.trace().len() as int) =~= other.trace());
    }

    /// Two runs on the same setup that have both come to the end of the search
    /// have accepted the same chords and hold the same working grid.
    pub proof fn lemma_finished_runs_agree(&self, other: &Selector)
        requires
            self.wf(),
            other.wf(),
            self.setup() == other.setup(),
            stalled(self.setup(), self.trace()),
            stalled(other.setup(), other.trace()),
        ensures
            self.trace() == other.trace(),
            self.canvas() == other.canvas(),
    {
        crate::trace::lemma_finished_runs_agree(self.setup(), self.trace(), other.trace());
    }
}

} // verus!
