//! When a continuous query ends, and with what.

use vstd::prelude::*;

use super::interval::ContactGeometryError;
use crate::double::Double;
use crate::exact::{double_units_of_one, doubles_compare_as_their_values, lemma_double_one};

verus! {

/// Halvings after which a certified prefix is no longer extended.
pub const BISECTION_STEPS: u8 = 48;

/// Bounded continuous collision result. Non-convergence never means separation.
#[derive(Clone, Copy, Debug, PartialEq, Eq, Structural)]
pub enum SweepOutcome {
    /// The complete trajectory is separated from the triangle.
    Separated {
        /// Number of separating-axis evaluations.
        evaluations: usize,
    },
    /// Conservative first contact within the requested separation tolerance.
    Impact {
        /// Fraction of the full motion, from zero to one.
        fraction: Double,
        /// Signed separation at the returned pose, in metres.
        separation: Double,
        /// Number of separating-axis evaluations.
        evaluations: usize,
    },
    /// Work bound exhausted. The caller must retry or retain its old state.
    Unconverged {
        /// Last evaluated fraction; the remainder has not been certified clear.
        fraction: Double,
        /// Number of separating-axis evaluations.
        evaluations: usize,
    },
}

/// What one evaluation of a sweep measures.
#[derive(Clone, Copy, Debug, PartialEq, Eq, Structural)]
pub struct SweepMeasure {
    /// The fraction of the motion at which it was taken.
    pub fraction: Double,
    /// Separation at that fraction.
    pub separation: Double,
    /// Bound on the speed of any point, per whole motion.
    pub speed_bound: Double,
    /// How far any point can still move.
    pub reach: Double,
    /// The fraction until which no point can cross the separation.
    pub next: Double,
}

/// What a sweep does after an evaluation.
#[derive(Clone, Copy, Debug, PartialEq, Eq, Structural)]
pub enum SweepStep {
    /// It ends.
    End(SweepOutcome),
    /// It evaluates again, at this fraction.
    Advance(Double),
}

/// What a sweep does after its evaluation with number `evaluations`.
pub open spec fn step_after(
    measure: SweepMeasure,
    tolerance: Double,
    evaluations: usize,
    most: usize,
) -> SweepStep {
    if measure.separation.at_most(tolerance) {
        SweepStep::End(
            SweepOutcome::Impact {
                fraction: measure.fraction,
                separation: measure.separation,
                evaluations,
            },
        )
    } else if measure.speed_bound.same_value(Double::zero()) || measure.reach.below(
        measure.separation,
    ) {
        SweepStep::End(SweepOutcome::Separated { evaluations })
    } else if evaluations == most || measure.next.at_most(measure.fraction) {
        SweepStep::End(SweepOutcome::Unconverged { fraction: measure.fraction, evaluations })
    } else {
        SweepStep::Advance(measure.next.smaller(Double::one()))
    }
}

/// Decides what a sweep does after an evaluation.
pub fn sweep_step(measure: SweepMeasure, tolerance: Double, evaluations: usize, most: usize) -> (step:
    SweepStep)
    ensures
        step == step_after(measure, tolerance, evaluations, most),
{
    if measure.separation.less_or_equal(tolerance) {
        return SweepStep::End(
            SweepOutcome::Impact {
                fraction: measure.fraction,
                separation: measure.separation,
                evaluations,
            },
        );
    }
    if measure.speed_bound.equal(Double::zero()) || measure.reach.less(measure.separation) {
        return SweepStep::End(SweepOutcome::Separated { evaluations });
    }
    if evaluations == most || measure.next.less_or_equal(measure.fraction) {
        return SweepStep::End(
            SweepOutcome::Unconverged { fraction: measure.fraction, evaluations },
        );
    }
    SweepStep::Advance(measure.next.minimum(Double::one()))
}

/// A sweep that goes on has moved forward, within the motion.
pub proof fn sweeps_move_forward(
    measure: SweepMeasure,
    tolerance: Double,
    evaluations: usize,
    most: usize,
)
    requires
        measure.fraction.below(Double::one()),
        step_after(measure, tolerance, evaluations, most) is Advance,
    ensures
        measure.fraction.below(step_after(measure, tolerance, evaluations, most)->Advance_0),
        step_after(measure, tolerance, evaluations, most)->Advance_0.at_most(Double::one()),
{
}

/// The last allowed evaluation ends a sweep.
pub proof fn sweeps_end(measure: SweepMeasure, tolerance: Double, most: usize)
    ensures
        step_after(measure, tolerance, most, most) is End,
{
}

/// Checks what bounds a sweep: a usable pose and motion, a positive tolerance
/// and at least one evaluation.
pub fn check_sweep(usable: bool, tolerance: Double, most: usize) -> (checked: Result<
    (),
    ContactGeometryError,
>)
    ensures
        checked == if usable && tolerance.finite() && Double::zero().below(tolerance) && most > 0 {
            Ok::<(), ContactGeometryError>(())
        } else {
            Err(ContactGeometryError)
        },
{
    if !usable || !tolerance.is_finite() || tolerance.less_or_equal(Double::zero()) || most == 0 {
        Err(ContactGeometryError)
    } else {
        Ok(())
    }
}

/// A certified prefix and what is known not to be one.
#[derive(Clone, Copy, Debug, PartialEq, Eq, Structural)]
pub struct Prefix {
    /// The end of what is certified.
    pub lower: Double,
    /// An end that is not certified.
    pub upper: Double,
}

impl Prefix {
    /// The prefix once it is known whether it reaches `middle`.
    pub fn narrowed(self, middle: Double, certified: bool) -> (prefix: Self)
        ensures
            prefix == if certified {
                Prefix { lower: middle, upper: self.upper }
            } else {
                Prefix { lower: self.lower, upper: middle }
            },
    {
        if certified {
            Prefix { lower: middle, upper: self.upper }
        } else {
            Prefix { lower: self.lower, upper: middle }
        }
    }
}

/// How one axis sees a moving solid pass a triangle.
#[derive(Clone, Copy, Debug, PartialEq, Eq, Structural)]
pub enum AxisPass {
    /// The solid does not move along the axis.
    Still {
        /// The triangle's low end beyond the solid's high end.
        low: Double,
        /// The triangle's high end beyond the solid's low end.
        high: Double,
    },
    /// The solid moves along the axis.
    Moving {
        /// The fraction at which the two begin to overlap.
        entry: Double,
        /// The fraction at which they cease to.
        exit: Double,
    },
}

impl AxisPass {
    /// Whether the axis keeps the two apart throughout.
    pub open spec fn apart(self) -> bool {
        match self {
            AxisPass::Still { low, high } => Double::zero().below(low) || high.below(Double::zero()),
            AxisPass::Moving { .. } => false,
        }
    }

    /// The later of a fraction and the entry along this axis.
    pub open spec fn start_after(self, start: Double) -> Double {
        match self {
            AxisPass::Still { .. } => start,
            AxisPass::Moving { entry, .. } => start.larger(entry),
        }
    }

    /// The earlier of a fraction and the exit along this axis.
    pub open spec fn end_before(self, end: Double) -> Double {
        match self {
            AxisPass::Still { .. } => end,
            AxisPass::Moving { exit, .. } => end.smaller(exit),
        }
    }
}

/// The latest entry among the first `count` axes.
pub open spec fn latest_entry(axes: Seq<AxisPass>, count: int) -> Double
    decreases count,
{
    if count <= 0 {
        Double::zero()
    } else {
        axes[count - 1].start_after(latest_entry(axes, count - 1))
    }
}

/// The earliest exit among the first `count` axes.
pub open spec fn earliest_exit(axes: Seq<AxisPass>, count: int) -> Double
    decreases count,
{
    if count <= 0 {
        Double::one()
    } else {
        axes[count - 1].end_before(earliest_exit(axes, count - 1))
    }
}

/// Whether some axis keeps the two apart throughout.
pub open spec fn kept_apart(axes: Seq<AxisPass>) -> bool {
    exists|i: int| 0 <= i < axes.len() && #[trigger] axes[i].apart()
}

/// More axes narrow the overlap.
proof fn lemma_narrows(axes: Seq<AxisPass>, from: int, to: int)
    requires
        0 <= from <= to <= axes.len(),
    ensures
        latest_entry(axes, from).at_most(latest_entry(axes, to)),
        earliest_exit(axes, to).at_most(earliest_exit(axes, from)),
        Double::zero().at_most(latest_entry(axes, from)),
        earliest_exit(axes, from).at_most(Double::one()),
    decreases to,
{
    if from < to {
        lemma_narrows(axes, from, to - 1);
    } else if to > 0 {
        lemma_narrows(axes, to - 1, to - 1);
    }
}

/// Every moving axis overlaps throughout the overlap of all, which lies within
/// the motion.
pub proof fn overlap_lies_in_every_pass(axes: Seq<AxisPass>, i: int)
    requires
        0 <= i < axes.len(),
    ensures
        Double::zero().at_most(latest_entry(axes, axes.len() as int)),
        earliest_exit(axes, axes.len() as int).at_most(Double::one()),
        axes[i] is Moving && !axes[i]->entry.nan() ==> axes[i]->entry.at_most(
            latest_entry(axes, axes.len() as int),
        ),
        axes[i] is Moving && !axes[i]->exit.nan() ==> earliest_exit(
            axes,
            axes.len() as int,
        ).at_most(axes[i]->exit),
{
    lemma_narrows(axes, i, i);
    lemma_narrows(axes, i + 1, axes.len() as int);
    lemma_narrows(axes, axes.len() as int, axes.len() as int);
}

/// The fractions between which a moving solid overlaps a triangle.
#[derive(Clone, Copy, Debug, PartialEq, Eq, Structural)]
pub struct Overlap {
    pub start: Double,
    pub end: Double,
}

/// The fractions of a translation between which every axis overlaps, if there are any.
pub fn overlap(axes: &Vec<AxisPass>) -> (found: Option<Overlap>)
    ensures
        match found {
            None => kept_apart(axes@) || earliest_exit(axes@, axes@.len() as int).below(
                latest_entry(axes@, axes@.len() as int),
            ),
            Some(overlap) => {
                &&& !kept_apart(axes@)
                &&& overlap.start == latest_entry(axes@, axes@.len() as int)
                &&& overlap.end == earliest_exit(axes@, axes@.len() as int)
                &&& overlap.start.at_most(overlap.end)
            },
        },
{
    let mut start: Double = Double::zero();
    let mut end: Double = Double::one();
    let mut i: usize = 0;
    while i < axes.len()
        invariant
            i <= axes@.len(),
            start == latest_entry(axes@, i as int),
            end == earliest_exit(axes@, i as int),
            start.at_most(end),
            forall|j: int| 0 <= j < i ==> !#[trigger] axes@[j].apart(),
        decreases axes@.len() - i,
    {
        match axes[i] {
            AxisPass::Still { low, high } => {
                if Double::zero().less(low) || high.less(Double::zero()) {
                    assert(axes@[i as int].apart());
                    return None;
                }
            },
            AxisPass::Moving { entry, exit } => {
                start = start.maximum(entry);
                end = end.minimum(exit);
                if end.less(start) {
                    proof {
                        lemma_narrows(axes@, i + 1, axes@.len() as int);
                    }
                    return None;
                }
            },
        }
        proof {
            lemma_narrows(axes@, i + 1, i + 1);
        }
        i += 1;
    }
    Some(Overlap { start, end })
}

/// Whether a gap is the first of the greatest numbers.
pub open spec fn greatest(gaps: Seq<Double>, at: int) -> bool {
    &&& 0 <= at < gaps.len()
    &&& Double::negative_infinity().below(gaps[at])
    &&& forall|j: int|
        #![trigger gaps[j]]
        0 <= j < gaps.len() ==> !gaps[at].below(gaps[j]) && (j < at && !gaps[j].nan()
            ==> gaps[j].below(gaps[at]))
}

/// The axis along which a solid and a triangle are furthest apart; none where
/// nothing could be measured.
pub fn furthest_axis(gaps: &Vec<Double>) -> (at: Option<usize>)
    ensures
        match at {
            Some(at) => greatest(gaps@, at as int),
            None => forall|j: int|
                #![trigger gaps@[j]]
                0 <= j < gaps@.len() ==> !Double::negative_infinity().below(gaps@[j]),
        },
{
    let mut best: Option<usize> = None;
    let mut i: usize = 0;
    while i < gaps.len()
        invariant
            i <= gaps@.len(),
            match best {
                Some(at) => at < i && greatest(gaps@.take(i as int), at as int),
                None => forall|j: int|
                    #![trigger gaps@[j]]
                    0 <= j < i ==> !Double::negative_infinity().below(gaps@[j]),
            },
        decreases gaps@.len() - i,
    {
        let bar: Double = match best {
            Some(at) => gaps[at],
            None => Double::negative_infinity(),
        };
        let ghost before = gaps@.take(i as int);
        let ghost after = gaps@.take(i + 1);
        let ghost held = best;
        if bar.less(gaps[i]) {
            best = Some(i);
        }
        proof {
            assert(after =~= before.push(gaps@[i as int]));
            if best is Some {
                let at = best->0 as int;
                assert forall|j: int| #![trigger after[j]] 0 <= j < after.len() implies !after[at].below(
                after[j]) && (j < at && !after[j].nan() ==> after[j].below(after[at])) by {
                    if j < i {
                        assert(after[j] == before[j]);
                        assert(after[j] == gaps@[j]);
                        if held is Some {
                            assert(!before[held->0 as int].below(before[j]));
                            assert(after[held->0 as int] == before[held->0 as int]);
                        } else {
                            assert(!Double::negative_infinity().below(gaps@[j]));
                        }
                    }
                }
            }
        }
        i += 1;
    }
    assert(gaps@.take(i as int) =~= gaps@);
    best
}

/// Where the points of an activated contact come from.
#[derive(Clone, Copy, Debug, PartialEq, Eq, Structural)]
pub enum ActivationSource {
    /// The solids intersect; their manifold is preserved.
    Intersection,
    /// Nearby opposing points.
    Proximity,
    /// Corners within the window, or no points where there are none: an empty
    /// inner search says nothing of the outer half of the window.
    VerticesOrNothing,
    /// Corners within the window; it is an error where there are none.
    Vertices,
}

/// Whether every gap meets a bound.
pub open spec fn gaps_within(gaps: Seq<Double>, bound: Double) -> bool {
    forall|i: int| #![trigger gaps[i]] 0 <= i < gaps.len() ==> gaps[i].at_most(bound)
}

/// Whether every gap meets a bound.
fn within(gaps: &Vec<Double>, bound: Double) -> (met: bool)
    ensures
        met == gaps_within(gaps@, bound),
{
    let mut i: usize = 0;
    while i < gaps.len()
        invariant
            i <= gaps@.len(),
            forall|j: int| #![trigger gaps@[j]] 0 <= j < i ==> gaps@[j].at_most(bound),
        decreases gaps@.len() - i,
    {
        if !gaps[i].less_or_equal(bound) {
            return false;
        }
        i += 1;
    }
    true
}

/// Decides where the points of a contact within `maximum_gap` come from.
///
/// `proximity` holds the gaps of the nearby points, or nothing where the search
/// for them failed.
pub fn activation_source(maximum_gap: Double, intersecting: bool, proximity: &Option<Vec<Double>>) -> (source:
    Result<ActivationSource, ContactGeometryError>)
    ensures
        source == if !maximum_gap.finite() || !Double::zero().below(maximum_gap) {
            Err::<ActivationSource, ContactGeometryError>(ContactGeometryError)
        } else if intersecting {
            Ok(ActivationSource::Intersection)
        } else {
            match *proximity {
                None => Ok(ActivationSource::Vertices),
                Some(gaps) => if gaps@.len() == 0 {
                    Ok(ActivationSource::VerticesOrNothing)
                } else if gaps_within(gaps@, maximum_gap) {
                    Ok(ActivationSource::Proximity)
                } else {
                    Ok(ActivationSource::Vertices)
                },
            }
        },
{
    if !maximum_gap.is_finite() || maximum_gap.less_or_equal(Double::zero()) {
        return Err(ContactGeometryError);
    }
    if intersecting {
        return Ok(ActivationSource::Intersection);
    }
    match proximity {
        None => Ok(ActivationSource::Vertices),
        Some(gaps) => {
            if gaps.len() == 0 {
                return Ok(ActivationSource::VerticesOrNothing);
            }
            if within(gaps, maximum_gap) {
                Ok(ActivationSource::Proximity)
            } else {
                Ok(ActivationSource::Vertices)
            }
        },
    }
}

/// Whether every row is usable.
pub open spec fn all_usable(rows: Seq<bool>) -> bool {
    forall|i: int| #![trigger rows[i]] 0 <= i < rows.len() ==> rows[i]
}

/// Whether every row is usable.
fn are_usable(rows: &Vec<bool>) -> (usable: bool)
    ensures
        usable == all_usable(rows@),
{
    let mut i: usize = 0;
    while i < rows.len()
        invariant
            i <= rows@.len(),
            forall|j: int| #![trigger rows@[j]] 0 <= j < i ==> rows@[j],
        decreases rows@.len() - i,
    {
        if !rows[i] {
            return false;
        }
        i += 1;
    }
    true
}

/// Rejects geometry that cannot describe a closed convex solid: at least four
/// corners, four faces and three edge directions, each of them usable.
pub fn check_solid(vertices: &Vec<bool>, planes: &Vec<bool>, edges: &Vec<bool>) -> (checked: Result<
    (),
    ContactGeometryError,
>)
    ensures
        checked == if vertices@.len() >= 4 && planes@.len() >= 4 && edges@.len() >= 3 && all_usable(
            vertices@,
        ) && all_usable(planes@) && all_usable(edges@) {
            Ok::<(), ContactGeometryError>(())
        } else {
            Err(ContactGeometryError)
        },
{
    if vertices.len() < 4 || planes.len() < 4 || edges.len() < 3 || !are_usable(vertices)
        || !are_usable(planes) || !are_usable(edges) {
        Err(ContactGeometryError)
    } else {
        Ok(())
    }
}

/// A sweep ends in an impact exactly where the separation is within tolerance,
/// and tells that pose; short of one it is clear exactly where nothing moves or
/// what still can move falls short of the separation, and gives up only where it
/// may not or cannot go on.
pub proof fn sweeps_end_for_cause(
    measure: SweepMeasure,
    tolerance: Double,
    evaluations: usize,
    most: usize,
)
    requires
        measure.fraction.finite(),
        measure.separation.finite(),
        measure.speed_bound.finite(),
        measure.reach.finite(),
        measure.next.finite(),
        tolerance.finite(),
    ensures
        ({
            let step = step_after(measure, tolerance, evaluations, most);
            let hit = measure.separation.units() <= tolerance.units();
            let clear = measure.speed_bound.units() == 0 || measure.reach.units()
                < measure.separation.units();
            let stuck = evaluations == most || measure.next.units() <= measure.fraction.units();
            match step {
                SweepStep::End(SweepOutcome::Impact { fraction, separation, evaluations: spent }) =>
                    hit && fraction == measure.fraction && separation == measure.separation && spent
                        == evaluations,
                SweepStep::End(SweepOutcome::Separated { evaluations: spent }) => !hit && clear
                    && spent == evaluations,
                SweepStep::End(SweepOutcome::Unconverged { fraction, evaluations: spent }) => !hit
                    && !clear && stuck && fraction == measure.fraction && spent == evaluations,
                SweepStep::Advance(at) => !hit && !clear && !stuck && at.units() == (
                if measure.next.units() < double_units_of_one() {
                    measure.next.units()
                } else {
                    double_units_of_one()
                }),
            }
        }),
{
    lemma_double_one();
    doubles_compare_as_their_values(measure.separation, tolerance);
    doubles_compare_as_their_values(measure.speed_bound, Double::zero());
    doubles_compare_as_their_values(measure.reach, measure.separation);
    doubles_compare_as_their_values(measure.next, measure.fraction);
    doubles_compare_as_their_values(measure.next, Double::one());
}

/// The overlap starts with the motion or where some moving axis enters, and
/// ends with it or where some moving axis leaves: no axis that stands still has
/// a say.
pub proof fn overlaps_start_at_an_entry(axes: Seq<AxisPass>, count: int)
    requires
        0 <= count <= axes.len(),
    ensures
        latest_entry(axes, count).units() == 0 || exists|i: int|
            0 <= i < count && #[trigger] axes[i] is Moving && axes[i]->entry == latest_entry(
                axes,
                count,
            ),
        earliest_exit(axes, count).units() == double_units_of_one() || exists|i: int|
            0 <= i < count && #[trigger] axes[i] is Moving && axes[i]->exit == earliest_exit(
                axes,
                count,
            ),
    decreases count,
{
    lemma_double_one();
    doubles_compare_as_their_values(Double::zero(), Double::one());
    if count > 0 {
        overlaps_start_at_an_entry(axes, count - 1);
        let last = axes[count - 1];
        let start = latest_entry(axes, count - 1);
        let end = earliest_exit(axes, count - 1);
        if latest_entry(axes, count) == start && start.units() != 0 {
            let i = choose|i: int|
                0 <= i < count - 1 && #[trigger] axes[i] is Moving && axes[i]->entry == start;
            assert(axes[i] is Moving);
        } else if latest_entry(axes, count) != start {
            assert(last is Moving && last->entry == latest_entry(axes, count));
        }
        if earliest_exit(axes, count) == end && end.units() != double_units_of_one() {
            let i = choose|i: int|
                0 <= i < count - 1 && #[trigger] axes[i] is Moving && axes[i]->exit == end;
            assert(axes[i] is Moving);
        } else if earliest_exit(axes, count) != end {
            assert(last is Moving && last->exit == earliest_exit(axes, count));
        }
    }
}

/// An axis keeps the two apart exactly when nothing moves along it and the
/// triangle lies wholly above or wholly below the solid.
pub proof fn still_axes_keep_apart(axes: Seq<AxisPass>, i: int, low: Double, high: Double)
    requires
        0 <= i < axes.len(),
        low.finite(),
        high.finite(),
    ensures
        axes[i] == (AxisPass::Still { low, high }) && (low.units() > 0 || high.units() < 0)
            ==> kept_apart(axes),
        axes == seq![AxisPass::Still { low, high }] && low.units() <= 0 && high.units() >= 0
            ==> !kept_apart(axes),
        (forall|j: int| #![trigger axes[j]] 0 <= j < axes.len() ==> axes[j] is Moving)
            ==> !kept_apart(axes),
{
    doubles_compare_as_their_values(Double::zero(), low);
    doubles_compare_as_their_values(high, Double::zero());
    if axes[i] == (AxisPass::Still { low, high }) && (low.units() > 0 || high.units() < 0) {
        assert(axes[i].apart());
    }
}

/// The furthest axis has the greatest of the gaps, and the first of equal ones.
pub proof fn the_furthest_axis_has_the_greatest_gap(gaps: Seq<Double>, at: int, j: int)
    requires
        greatest(gaps, at),
        0 <= j < gaps.len(),
        gaps[at].finite(),
        gaps[j].finite(),
    ensures
        gaps[j].units() <= gaps[at].units(),
        j < at ==> gaps[j].units() < gaps[at].units(),
{
    doubles_compare_as_their_values(gaps[at], gaps[j]);
    doubles_compare_as_their_values(gaps[j], gaps[at]);
}

/// Gaps meet a bound when none of them exceeds it.
pub proof fn gaps_meet_a_bound_together(gaps: Seq<Double>, bound: Double, i: int)
    requires
        bound.finite(),
        0 <= i < gaps.len(),
        gaps[i].finite(),
    ensures
        gaps_within(gaps, bound) ==> gaps[i].units() <= bound.units(),
        gaps[i].units() > bound.units() ==> !gaps_within(gaps, bound),
        (forall|j: int|
            #![trigger gaps[j]]
            0 <= j < gaps.len() ==> gaps[j].finite() && gaps[j].units() <= bound.units())
            ==> gaps_within(gaps, bound),
{
    doubles_compare_as_their_values(gaps[i], bound);
    if forall|j: int|
        #![trigger gaps[j]]
        0 <= j < gaps.len() ==> gaps[j].finite() && gaps[j].units() <= bound.units() {
        assert forall|j: int| #![trigger gaps[j]] 0 <= j < gaps.len() implies gaps[j].at_most(
            bound,
        ) by {
            doubles_compare_as_their_values(gaps[j], bound);
        }
    }
}

} // verus!
