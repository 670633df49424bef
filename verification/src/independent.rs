use crate::error::Failure;
use crate::error::FailureView;
use crate::number::Number;
use crate::random::draw_index;
use crate::random::drawn_index;
use crate::sampler::NSGAIISampler;
use crate::sampler::SamplerView;
use rand::rngs::StdRng;
use vstd::prelude::*;

verus! {

/// The steps of a range of numbers.
#[derive(Clone, Copy, Debug)]
pub struct FloatStep {
    /// The distance between two values.
    pub size: Number,
    /// The index of the last value: the width of the range in steps, rounded down, and at least 0.
    pub max_index: i64,
}

/// The values that a parameter can have.
#[derive(Clone, Copy, Debug)]
#[allow(inconsistent_fields)]
pub enum Distribution {
    Float { low: Number, high: Number, step: Option<FloatStep>, log: bool },
    Int { low: i64, high: i64, step: i64, log: bool },
    Categorical { cardinality: i64 },
}

/// How the value of a parameter is to be made.
#[derive(Clone, Copy, Debug)]
#[allow(inconsistent_fields)]
pub enum Draw {
    /// It is the given number.
    Single(Number),
    /// It is to be drawn from `low` up to `high`.
    Uniform { low: Number, high: Number },
    /// It is to be drawn on the logarithmic scale from `low` up to `high` and, where there is a
    /// step, moved to the nearest value that lies a number of steps from `low`.
    LogUniform { low: Number, high: Number, step: Option<Number> },
    /// It is to be drawn on the logarithmic scale and moved to the nearest value of the range.
    LogInteger { low: i64, high: i64, step: i64 },
    /// It lies `index` steps from `low`.
    Grid { low: Number, step: Number, index: i64 },
    /// It is the given integer.
    Integer(i64),
}

/// The index of the last value of a range of integers: how many steps lead from `low` towards
/// `high`. No step leads away from it.
pub open spec fn last_index(low: i64, high: i64, step: i64) -> int {
    if low <= high && step > 0 {
        (high - low) / step as int
    } else if high <= low && step < 0 {
        (low - high) / (-step)
    } else {
        0
    }
}

/// Whether the values of a range of integers can be worked out in 64 bits.
pub open spec fn workable(low: i64, high: i64, step: i64) -> bool {
    &&& step != 0
    &&& i64::MIN <= high - low <= i64::MAX
    &&& !(high - low == i64::MIN && step == -1)
}

/// Whether a distribution has values.
pub open spec fn drawable(distribution: Distribution) -> bool {
    match distribution {
        Distribution::Float { step: Some(step), log: false, .. } => step.max_index >= 0,
        Distribution::Int { low, high, step, log: false } => workable(low, high, step),
        Distribution::Categorical { cardinality } => cardinality > 0,
        _ => true,
    }
}

/// What is drawn from a distribution on its own, and the generator after it.
pub open spec fn independent_draw(rng: StdRng, distribution: Distribution) -> (Draw, StdRng) {
    match distribution {
        Distribution::Float { low, high, step: None, log: false } => (
            Draw::Uniform { low, high },
            rng,
        ),
        Distribution::Float { low, high, step: None, log: true } => (
            Draw::LogUniform { low, high, step: None },
            rng,
        ),
        Distribution::Float { low, step: Some(step), log: false, .. } => {
            let (index, after) = drawn_index(rng, step.max_index);
            (Draw::Grid { low, step: step.size, index }, after)
        },
        Distribution::Float { low, high, step: Some(step), log: true } => (
            Draw::LogUniform { low, high, step: Some(step.size) },
            rng,
        ),
        Distribution::Int { low, high, step, log: true } => (
            Draw::LogInteger { low, high, step },
            rng,
        ),
        Distribution::Int { low, high, step, log: false } => {
            let (index, after) = drawn_index(rng, last_index(low, high, step) as i64);
            (Draw::Integer((low + index * step) as i64), after)
        },
        Distribution::Categorical { cardinality } => {
            let (index, after) = drawn_index(rng, (cardinality - 1) as i64);
            (Draw::Integer(index), after)
        },
    }
}

/// Whether an integer is one of the values of a range: it lies a number of steps from `low`, and
/// not beyond `high`.
pub open spec fn in_range(value: i64, low: i64, high: i64, step: i64) -> bool {
    exists|index: int|
        0 <= index <= last_index(low, high, step) && value == low + #[trigger] (index * step)
}

/// Whether a draw is one of the values of a distribution, as far as it is an integer.
pub open spec fn within(draw: Draw, distribution: Distribution) -> bool {
    match (distribution, draw) {
        (Distribution::Int { low, high, step, log: false }, Draw::Integer(value)) => in_range(
            value,
            low,
            high,
            step,
        ),
        (Distribution::Categorical { cardinality }, Draw::Integer(value)) => 0 <= value
            < cardinality,
        (Distribution::Float { step: Some(step), log: false, .. }, Draw::Grid { index, .. }) => 0
            <= index <= step.max_index,
        _ => true,
    }
}

/// The values of a range of integers with a step up lie between its ends.
pub proof fn law_integers_lie_in_their_range(value: i64, low: i64, high: i64, step: i64)
    requires
        low <= high,
        step > 0,
        in_range(value, low, high, step),
    ensures
        low <= value <= high,
{
    let index = choose|index: int|
        0 <= index <= last_index(low, high, step) && value == low + #[trigger] (index * step);
    lemma_steps_stay_inside(index, high - low, step as int);
}

proof fn lemma_steps_stay_inside(index: int, width: int, step: int)
    requires
        0 <= index <= width / step,
        width >= 0,
        step > 0,
    ensures
        0 <= index * step <= width,
{
    assert(0 <= index * step <= width) by (nonlinear_arith)
        requires
            0 <= index <= width / step,
            width >= 0,
            step > 0,
    ;
}

/// The index of the last value of a range of integers.
pub fn max_index(low: i64, high: i64, step: i64) -> (index: i64)
    requires
        workable(low, high, step),
    ensures
        index == last_index(low, high, step),
        index >= 0,
{
    if low <= high && step > 0 {
        let index = (high - low) as u64 / step as u64;
        proof {
            assert(0 <= (high - low) / (step as int) <= high - low) by (nonlinear_arith)
                requires
                    high >= low,
                    step > 0,
            ;
        }
        index as i64
    } else if high <= low && step < 0 {
        let width = (low as i128 - high as i128) as u64;
        let size = (0 - step as i128) as u64;
        let index = width / size;
        proof {
            let wide = low - high;
            let by = -step;
            assert(0 <= wide / by <= wide) by (nonlinear_arith)
                requires
                    wide >= 0,
                    by > 0,
            ;
            if by > 1 {
                assert(wide / by <= wide / 2) by (nonlinear_arith)
                    requires
                        wide >= 0,
                        by >= 2,
                ;
            }
        }
        index as i64
    } else {
        0
    }
}

/// The integer that lies `index` steps from `low`.
pub fn integer_at(low: i64, high: i64, step: i64, index: i64) -> (value: i64)
    requires
        workable(low, high, step),
        0 <= index <= last_index(low, high, step),
    ensures
        value == low + index * step,
{
    proof {
        if low <= high && step > 0 {
            lemma_steps_stay_inside(index as int, high - low, step as int);
        } else if high <= low && step < 0 {
            lemma_steps_stay_inside(index as int, low - high, -step);
            assert(index * step == -(index * (-step))) by (nonlinear_arith);
        } else {
            assert(index * step == 0) by (nonlinear_arith)
                requires
                    index == 0,
            ;
        }
    }
    low + index * step
}

/// Brings an index that was worked out from a number between 0 and `max_index`.
pub fn clamp_index(index: i64, max_index: i64) -> (clamped: i64)
    requires
        max_index >= 0,
    ensures
        0 <= clamped <= max_index,
        0 <= index <= max_index ==> clamped == index,
        index < 0 ==> clamped == 0,
        index > max_index ==> clamped == max_index,
{
    if index < 0 {
        0
    } else if index > max_index {
        max_index
    } else {
        index
    }
}

/// A number, or the end of the range that it lies beyond.
pub open spec fn clamped_number(value: Number, low: Number, high: Number) -> Number {
    let raised = if value.less(low) {
        low
    } else {
        value
    };
    if high.less(raised) {
        high
    } else {
        raised
    }
}

/// Brings a number between the ends of a range.
pub fn clamp_number(value: Number, low: Number, high: Number) -> (clamped: Number)
    ensures
        clamped == clamped_number(value, low, high),
        value.ordered() && low.at_most(high) ==> low.at_most(clamped) && clamped.at_most(high),
{
    let raised = if value.is_less(low) {
        low
    } else {
        value
    };
    if high.is_less(raised) {
        high
    } else {
        raised
    }
}

/// The value of a single value or of the error in its place.
pub open spec fn single_view(single_value: Option<Result<Number, Failure>>) -> Option<
    Result<Number, FailureView>,
> {
    match single_value {
        Some(Ok(value)) => Some(Ok(value)),
        Some(Err(error)) => Some(Err(error@)),
        None => None,
    }
}

/// What is drawn for a parameter on its own, and the generator after it: a single value as it is,
/// without a draw, or else what the distribution gives.
pub open spec fn independent_sample(
    rng: StdRng,
    distribution: Distribution,
    single_value: Option<Result<Number, FailureView>>,
) -> (Result<Draw, FailureView>, StdRng) {
    match single_value {
        Some(Ok(value)) => (Ok(Draw::Single(value)), rng),
        Some(Err(error)) => (Err(error), rng),
        None => {
            let (drawn, after) = independent_draw(rng, distribution);
            (Ok(drawn), after)
        },
    }
}

/// The value of a draw or of the error in its place.
pub open spec fn draw_view(draw: Result<Draw, Failure>) -> Result<Draw, FailureView> {
    match draw {
        Ok(drawn) => Ok(drawn),
        Err(error) => Err(error@),
    }
}

impl NSGAIISampler {
    /// Draws the value of a parameter on its own.
    ///
    /// `single_value` is what the distribution says its only value is, where it has only one;
    /// nothing is drawn then. Integers and indices are drawn here; what is to be drawn from a
    /// range of numbers is left to the caller, with the generator of the sampler.
    pub fn sample_independent(
        &mut self,
        distribution: &Distribution,
        single_value: Option<Result<Number, Failure>>,
    ) -> (draw: Result<Draw, Failure>)
        requires
            single_value is None ==> drawable(*distribution),
        ensures
            (draw_view(draw), final(self)@.rng) == independent_sample(
                old(self)@.rng,
                *distribution,
                single_view(single_value),
            ),
            final(self)@ == (SamplerView { rng: final(self)@.rng, ..old(self)@ }),
            single_value is None ==> draw is Ok && within(draw->Ok_0, *distribution),
    {
        match single_value {
            Some(Ok(value)) => {
                return Ok(Draw::Single(value));
            },
            Some(Err(error)) => {
                return Err(error);
            },
            None => {},
        }
        let draw = match *distribution {
            Distribution::Float { low, high, step, log } => match step {
                None => if log {
                    Draw::LogUniform { low, high, step: None }
                } else {
                    Draw::Uniform { low, high }
                },
                Some(step) => if log {
                    Draw::LogUniform { low, high, step: Some(step.size) }
                } else {
                    let index = draw_index(&mut self.rng, step.max_index);
                    Draw::Grid { low, step: step.size, index }
                },
            },
            Distribution::Int { low, high, step, log } => if log {
                Draw::LogInteger { low, high, step }
            } else {
                let last = max_index(low, high, step);
                let index = draw_index(&mut self.rng, last);
                assert(low + index * step == low + (index as int) * step);
                Draw::Integer(integer_at(low, high, step, index))
            },
            Distribution::Categorical { cardinality } => Draw::Integer(
                draw_index(&mut self.rng, cardinality - 1),
            ),
        };
        Ok(draw)
    }
}

/// The last index of a range is as far as its steps go: one more step would lead beyond the other
/// end. Steps that lead away from it, or a range of one value, have no other index than 0.
pub proof fn law_steps_go_as_far_as_the_range(low: i64, high: i64, step: i64)
    requires
        step != 0,
    ensures
        ({
            let last = last_index(low, high, step);
            &&& last >= 0
            &&& low <= high && step > 0 ==> low + last * step <= high < low + (last + 1) * step
            &&& high <= low && step < 0 ==> low + (last + 1) * step < high <= low + last * step
            &&& low < high && step < 0 || high < low && step > 0 ==> last == 0
        }),
{
    let last = last_index(low, high, step);
    if low <= high && step > 0 {
        let width = high - low;
        let by = step as int;
        assert(last == width / by);
        assert(last >= 0 && last * by <= width < (last + 1) * by) by (nonlinear_arith)
            requires
                last == width / by,
                width >= 0,
                by > 0,
        ;
    } else if high <= low && step < 0 {
        let width = low - high;
        let by = -step;
        assert(last == width / by);
        assert(last >= 0 && last * by <= width < (last + 1) * by) by (nonlinear_arith)
            requires
                last == width / by,
                width >= 0,
                by > 0,
        ;
        assert(last * step == -(last * by)) by (nonlinear_arith)
            requires
                by == -step,
        ;
        assert((last + 1) * step == -((last + 1) * by)) by (nonlinear_arith)
            requires
                by == -step,
        ;
    }
}

/// What is left to the caller of a range of floats is that range: a draw has the form that the
/// step and the scale call for, from the low to the high end of the distribution and with the size
/// of its step, and the generator is not used for it. An index is drawn exactly for a step on a
/// plain scale.
pub proof fn law_float_draws_keep_their_range(
    rng: StdRng,
    low: Number,
    high: Number,
    size: Number,
    max_index: i64,
)
    ensures
        independent_draw(rng, Distribution::Float { low, high, step: None, log: false }) == (
            Draw::Uniform { low, high },
            rng,
        ),
        independent_draw(rng, Distribution::Float { low, high, step: None, log: true }) == (
            Draw::LogUniform { low, high, step: None },
            rng,
        ),
        ({
            let step = Some(FloatStep { size, max_index });
            independent_draw(rng, Distribution::Float { low, high, step, log: true }) == (
                Draw::LogUniform { low, high, step: Some(size) },
                rng,
            )
        }),
        ({
            let step = Some(FloatStep { size, max_index });
            let (index, after) = drawn_index(rng, max_index);
            independent_draw(rng, Distribution::Float { low, high, step, log: false }) == (
                Draw::Grid { low, step: size, index },
                after,
            )
        }),
{
}

/// On a logarithmic scale a range of integers is left to the caller as it is. On a plain scale one
/// index is drawn, up to the last one of the range, and the value lies that many steps from the low
/// end. Of a number of choices one is drawn.
pub proof fn law_integer_draws_lie_where_their_index_says(
    rng: StdRng,
    low: i64,
    high: i64,
    step: i64,
    cardinality: i64,
)
    requires
        workable(low, high, step),
        cardinality > 0,
    ensures
        independent_draw(rng, Distribution::Int { low, high, step, log: true }) == (
            Draw::LogInteger { low, high, step },
            rng,
        ),
        ({
            let (index, after) = drawn_index(rng, last_index(low, high, step) as i64);
            let (draw, then) = independent_draw(
                rng,
                Distribution::Int { low, high, step, log: false },
            );
            &&& then == after
            &&& 0 <= index <= last_index(low, high, step) ==> (draw matches Draw::Integer(value)
                && value == low + index * step)
        }),
        ({
            let (index, after) = drawn_index(rng, (cardinality - 1) as i64);
            independent_draw(rng, Distribution::Categorical { cardinality }) == (
                Draw::Integer(index),
                after,
            )
        }),
{
    let (index, after) = drawn_index(rng, last_index(low, high, step) as i64);
    if 0 <= index <= last_index(low, high, step) {
        if low <= high && step > 0 {
            lemma_steps_stay_inside(index as int, high - low, step as int);
        } else if high <= low && step < 0 {
            lemma_steps_stay_inside(index as int, low - high, -step);
            assert(index * step == -(index * (-step))) by (nonlinear_arith);
        } else {
            assert(index * step == 0) by (nonlinear_arith)
                requires
                    index == 0,
            ;
        }
    }
}

/// A single value is taken as it is, an error in its place too, and nothing is drawn then. Without
/// one the distribution decides.
pub proof fn law_single_values_are_not_drawn(
    rng: StdRng,
    distribution: Distribution,
    value: Number,
    error: FailureView,
)
    ensures
        independent_sample(rng, distribution, Some(Ok(value))) == (
            Ok::<Draw, FailureView>(Draw::Single(value)),
            rng,
        ),
        independent_sample(rng, distribution, Some(Err(error))) == (
            Err::<Draw, FailureView>(error),
            rng,
        ),
        independent_sample(rng, distribution, None).0 == Ok::<Draw, FailureView>(
            independent_draw(rng, distribution).0,
        ),
        independent_sample(rng, distribution, None).1 == independent_draw(rng, distribution).1,
{
}

/// A number is moved only where it lies beyond an end of the range, and then to that end. Where the
/// ends lie the wrong way round, a number below the low end is moved to the high one.
pub proof fn law_numbers_are_moved_to_the_end_they_lie_beyond(
    value: Number,
    low: Number,
    high: Number,
)
    ensures
        value.less(low) && !high.less(low) ==> clamped_number(value, low, high) == low,
        value.less(low) && high.less(low) ==> clamped_number(value, low, high) == high,
        !value.less(low) && high.less(value) ==> clamped_number(value, low, high) == high,
        !value.less(low) && !high.less(value) ==> clamped_number(value, low, high) == value,
{
}

/// The values of draws and single values are those of the numbers and errors in them.
pub proof fn law_draws_are_what_is_held(draw: Draw, value: Number, error: Failure)
    ensures
        draw_view(Ok(draw)) == Ok::<Draw, FailureView>(draw),
        draw_view(Err(error)) == Err::<Draw, FailureView>(error@),
        single_view(Some(Ok(value))) == Some(Ok::<Number, FailureView>(value)),
        single_view(Some(Err(error))) == Some(Err::<Number, FailureView>(error@)),
        single_view(None) is None,
{
}

} // verus!
