use crate::error::plain_error;
use crate::error::ErrorKind;
use crate::error::Failure;
use crate::error::FailureView;
use crate::fronts::positions;
use crate::number::INFINITY;
use crate::number::NEGATIVE_INFINITY;
use crate::number::NOT_A_NUMBER;
use crate::number::Number;
use crate::order::law_positions_are_sorted_by_key;
use crate::order::lemma_sorted_positions;
use crate::order::sorted_positions;
use crate::order::stable_order;
use crate::population::all_present;
use crate::population::members;
use crate::trial::find_trial;
use crate::trial::trial_at;
use crate::trial::Context;
use crate::trial::Direction;
use crate::trial::PersistedTrial;
use crate::trial::TrialStateValues;
use vstd::prelude::*;

verus! {

/// The distance from one number up to another.
#[derive(Clone, Copy, Debug)]
pub struct Difference {
    pub from: Number,
    pub to: Number,
}

/// What one objective says of one member of a front: the gap between the values next to its own.
///
/// `None` is a gap of zero.
#[derive(Clone, Copy, Debug)]
pub struct Step {
    pub index: usize,
    pub gap: Option<Difference>,
}

/// What one objective adds to the crowding distances of a front.
#[derive(Debug)]
pub enum Axis {
    /// The values do not give the front an order with a width: one of them is not a number, or
    /// they differ and none of them is finite. There is no distance to measure.
    Unordered,
    /// All values are equal. The distances stay as they are.
    Level,
    /// Each step adds its gap, divided by the width, to the distance of the member at its index.
    /// A width of `None` is one.
    Spread { steps: Vec<Step>, width: Option<Difference> },
}

/// The value of an [`Axis`].
pub enum AxisView {
    Unordered,
    Level,
    Spread { steps: Seq<Step>, width: Option<Difference> },
}

impl View for Axis {
    type V = AxisView;

    open spec fn view(&self) -> AxisView {
        match self {
            Axis::Unordered => AxisView::Unordered,
            Axis::Level => AxisView::Level,
            Axis::Spread { steps, width } => AxisView::Spread { steps: steps@, width: *width },
        }
    }
}

/// The values of axes.
pub open spec fn axes_view(axes: Seq<Axis>) -> Seq<AxisView> {
    axes.map_values(|axis: Axis| axis@)
}

/// The difference between two numbers unless they are equal.
pub open spec fn difference(from: Number, to: Number) -> Option<Difference> {
    if from.equals(to) {
        None
    } else {
        Some(Difference { from, to })
    }
}

/// The objective values of a trial; one that is not complete has no number for any objective.
pub open spec fn values_of(trial: PersistedTrial, objectives: nat) -> Seq<Number> {
    match trial.state_values {
        TrialStateValues::Complete(values) => values@,
        _ => Seq::new(objectives, |i: int| Number { bits: NOT_A_NUMBER }),
    }
}

/// The values of one objective over a front.
pub open spec fn column(
    population: Seq<PersistedTrial>,
    objectives: nat,
    objective: int,
) -> Seq<Number> {
    population.map_values(|trial: PersistedTrial| values_of(trial, objectives)[objective])
}

/// The keys by which numbers are ordered.
pub open spec fn keys_of(numbers: Seq<Number>) -> Seq<i64> {
    numbers.map_values(|number: Number| number.key() as i64)
}

/// The values of an objective from the least to the greatest.
pub open spec fn ascending(values: Seq<Number>) -> Seq<Number> {
    sorted_positions(keys_of(values)).map_values(|position: usize| values[position as int])
}

/// Whether the members of a front differ in an objective.
pub open spec fn spread(values: Seq<Number>) -> bool {
    !ascending(values).first().equals(ascending(values).last())
}

/// Whether an objective puts a front in order: all its values are numbers and, if they differ,
/// one of them is finite.
pub open spec fn orderable(values: Seq<Number>) -> bool {
    &&& values.len() > 0
    &&& forall|k: int| 0 <= k < values.len() ==> #[trigger] values[k].ordered()
    &&& spread(values) ==> exists|k: int| 0 <= k < values.len() && #[trigger] values[k].finite()
}

/// The values of an objective in ascending order between the two infinities.
pub open spec fn padded(values: Seq<Number>) -> Seq<Number> {
    seq![Number { bits: NEGATIVE_INFINITY }] + ascending(values) + seq![Number { bits: INFINITY }]
}

/// The first finite number.
pub open spec fn first_finite(numbers: Seq<Number>) -> Number
    decreases numbers.len(),
{
    if numbers.len() == 0 || numbers.first().finite() {
        numbers.first()
    } else {
        first_finite(numbers.drop_first())
    }
}

/// The last finite number.
pub open spec fn last_finite(numbers: Seq<Number>) -> Number
    decreases numbers.len(),
{
    if numbers.len() == 0 || numbers.last().finite() {
        numbers.last()
    } else {
        last_finite(numbers.drop_last())
    }
}

/// What an objective with the given values adds to the distances.
pub open spec fn axis_of(values: Seq<Number>) -> AxisView {
    if !orderable(values) {
        AxisView::Unordered
    } else if !spread(values) {
        AxisView::Level
    } else {
        let order = sorted_positions(keys_of(values));
        let line = padded(values);
        AxisView::Spread {
            steps: Seq::new(
                values.len(),
                |j: int| Step { index: order[j], gap: difference(line[j], line[j + 2]) },
            ),
            width: difference(first_finite(line), last_finite(line)),
        }
    }
}

/// Each member of a front has one step along an objective that spreads the front. If the values
/// are finite, the members with the least and the greatest value have a gap without end.
pub proof fn law_extreme_members_have_open_gaps(values: Seq<Number>)
    requires
        values.len() <= usize::MAX,
        orderable(values),
        spread(values),
    ensures
        axis_of(values) matches AxisView::Spread { steps, .. } && {
            &&& steps.len() == values.len() >= 2
            &&& steps.map_values(|step: Step| step.index).to_multiset() == positions(
                values.len(),
            ).to_multiset()
            &&& (forall|k: int| 0 <= k < values.len() ==> #[trigger] values[k].finite()) ==> {
                &&& steps.first().gap matches Some(gap) && gap.from.bits == NEGATIVE_INFINITY
                &&& steps.last().gap matches Some(gap) && gap.to.bits == INFINITY
            }
        },
{
    let keys = keys_of(values);
    let order = sorted_positions(keys);
    let line = padded(values);
    let n = values.len() as int;
    lemma_sorted_positions(keys);
    let steps = axis_of(values)->steps;
    assert(steps.map_values(|step: Step| step.index) =~= order);
    assert(n >= 2) by {
        assert(values[order[0] as int].ordered());
    }
    if forall|k: int| 0 <= k < values.len() ==> #[trigger] values[k].finite() {
        assert(line[2] == values[order[1] as int]);
        assert(line[n - 1] == values[order[n - 2] as int]);
        assert(values[order[1] as int].finite());
        assert(values[order[n - 2] as int].finite());
    }
}

/// What each objective adds to the crowding distances of a front.
pub open spec fn front_axes(population: Seq<PersistedTrial>, objectives: nat) -> Seq<AxisView> {
    Seq::new(objectives, |i: int| axis_of(column(population, objectives, i)))
}

/// Whether distances can be compared with each other.
pub open spec fn comparable(distances: Seq<Number>) -> bool {
    distances.len() < 2 || forall|k: int|
        0 <= k < distances.len() ==> #[trigger] distances[k].ordered()
}

/// Whether a function adds up crowding distances: it takes any axes and gives one distance for each
/// member.
pub open spec fn full_measure<F: Fn(&Vec<Axis>, usize) -> Vec<Number>>(measure: F) -> bool {
    &&& forall|axes: Vec<Axis>, count: usize| #[trigger] measure.requires((&axes, count))
    &&& forall|axes: Vec<Axis>, count: usize, distances: Vec<Number>| #[trigger]
        measure.ensures((&axes, count), distances) ==> distances@.len() == count
}

/// Whether a function that adds up crowding distances can be relied on where they are sorted: the
/// distances can be compared.
pub open spec fn sound_measure<F: Fn(&Vec<Axis>, usize) -> Vec<Number>>(measure: F) -> bool {
    &&& full_measure(measure)
    &&& forall|axes: Vec<Axis>, count: usize, distances: Vec<Number>| #[trigger]
        measure.ensures((&axes, count), distances) ==> comparable(distances@)
}

/// Whether `measure` may add up the given axes to the given distances.
pub open spec fn measures<F: Fn(&Vec<Axis>, usize) -> Vec<Number>>(
    measure: F,
    axes: Seq<AxisView>,
    count: nat,
    distances: Seq<Number>,
) -> bool {
    exists|given: Vec<Axis>, members: usize, found: Vec<Number>| #[trigger]
        measure.ensures((&given, members), found) && axes_view(given@) == axes && members == count
            && found@ == distances
}

fn subtract(from: Number, to: Number) -> (result: Option<Difference>)
    ensures
        result == difference(from, to),
{
    if from.is_equal(to) {
        None
    } else {
        Some(Difference { from, to })
    }
}

proof fn lemma_first_finite(numbers: Seq<Number>, at: int)
    requires
        0 <= at < numbers.len(),
        numbers[at].finite(),
        forall|k: int| 0 <= k < at ==> !(#[trigger] numbers[k]).finite(),
    ensures
        first_finite(numbers) == numbers[at],
    decreases at,
{
    if at > 0 {
        assert(!numbers[0].finite());
        let rest = numbers.drop_first();
        assert forall|k: int| 0 <= k < at - 1 implies !(#[trigger] rest[k]).finite() by {
            assert(!numbers[k + 1].finite());
        }
        lemma_first_finite(rest, at - 1);
    }
}

proof fn lemma_last_finite(numbers: Seq<Number>, at: int)
    requires
        0 <= at < numbers.len(),
        numbers[at].finite(),
        forall|k: int| at < k < numbers.len() ==> !(#[trigger] numbers[k]).finite(),
    ensures
        last_finite(numbers) == numbers[at],
    decreases numbers.len() - at,
{
    if at < numbers.len() - 1 {
        assert(!numbers[numbers.len() - 1].finite());
        let rest = numbers.drop_last();
        assert forall|k: int| at < k < rest.len() implies !(#[trigger] rest[k]).finite() by {
            assert(!numbers[k].finite());
        }
        lemma_last_finite(rest, at);
    }
}

/// The sorted positions of the values of an objective.
fn ascending_order(values: &Vec<Number>) -> (order: Vec<usize>)
    ensures
        order@ == sorted_positions(keys_of(values@)),
        order@.len() == values@.len(),
        forall|k: int| 0 <= k < order@.len() ==> (#[trigger] order@[k]) < values@.len(),
{
    let mut keys: Vec<i64> = Vec::new();
    for k in 0..values.len()
        invariant
            keys@ == keys_of(values@.take(k as int)),
    {
        keys.push(values[k].order_key());
        assert(keys@ =~= keys_of(values@.take(k + 1)));
    }
    assert(values@.take(values@.len() as int) == values@);
    proof {
        lemma_sorted_positions(keys@);
    }
    stable_order(&keys)
}

/// What an objective with the given values adds to the distances.
pub fn objective_axis(values: &Vec<Number>) -> (axis: Axis)
    requires
        values@.len() > 0,
    ensures
        axis@ == axis_of(values@),
{
    let n = values.len();
    let mut some_finite = false;
    for k in 0..n
        invariant
            n == values@.len(),
            forall|i: int| 0 <= i < k ==> #[trigger] values@[i].ordered(),
            some_finite == exists|i: int| 0 <= i < k && #[trigger] values@[i].finite(),
    {
        if !values[k].is_ordered() {
            assert(!values@[k as int].ordered());
            return Axis::Unordered;
        }
        if values[k].is_finite() {
            some_finite = true;
            assert(values@[k as int].finite());
        }
    }
    let order = ascending_order(values);
    if values[order[0]].is_equal(values[order[n - 1]]) {
        return Axis::Level;
    }
    if !some_finite {
        return Axis::Unordered;
    }
    let ghost sorted = ascending(values@);
    let mut line: Vec<Number> = Vec::new();
    line.push(Number::from_bits(NEGATIVE_INFINITY));
    for k in 0..n
        invariant
            n == values@.len(),
            order@.len() == n,
            order@ == sorted_positions(keys_of(values@)),
            forall|i: int| 0 <= i < order@.len() ==> (#[trigger] order@[i]) < values@.len(),
            sorted == ascending(values@),
            line@ == seq![Number { bits: NEGATIVE_INFINITY }] + sorted.take(k as int),
    {
        line.push(values[order[k]]);
        assert(sorted.take(k + 1) =~= sorted.take(k as int).push(sorted[k as int]));
    }
    line.push(Number::from_bits(INFINITY));
    assert(sorted.take(n as int) =~= sorted);
    assert(line@ == padded(values@));
    let ghost at = choose|i: int| 0 <= i < n && #[trigger] values@[i].finite();
    proof {
        lemma_sorted_positions(keys_of(values@));
        assert(order@.contains(at as usize));
        let place = choose|p: int| 0 <= p < order@.len() && order@[p] == at as usize;
        assert(line@[place + 1] == values@[at]);
        assert(line@[place + 1].finite());
    }
    let mut low: usize = 0;
    while !line[low].is_finite()
        invariant
            exists|p: int| low <= p < line@.len() && (#[trigger] line@[p]).finite(),
            low < line.len(),
            forall|k: int| 0 <= k < low ==> !(#[trigger] line@[k]).finite(),
        decreases line@.len() - low,
    {
        low = low + 1;
    }
    let mut high: usize = line.len() - 1;
    while !line[high].is_finite()
        invariant
            exists|p: int| 0 <= p <= high && (#[trigger] line@[p]).finite(),
            high < line@.len(),
            forall|k: int| high < k < line@.len() ==> !(#[trigger] line@[k]).finite(),
        decreases high,
    {
        high = high - 1;
    }
    proof {
        lemma_first_finite(line@, low as int);
        lemma_last_finite(line@, high as int);
    }
    let width = subtract(line[low], line[high]);
    let mut steps: Vec<Step> = Vec::new();
    for j in 0..n
        invariant
            line.len() == n + 2,
            order@.len() == n,
            steps@.len() == j,
            forall|k: int|
                0 <= k < j ==> #[trigger] steps@[k] == (Step {
                    index: order@[k],
                    gap: difference(line@[k], line@[k + 2]),
                }),
    {
        let gap = subtract(line[j], line[j + 2]);
        steps.push(Step { index: order[j], gap });
    }
    assert(steps@ =~= axis_of(values@)->steps);
    Axis::Spread { steps, width }
}

/// The objective values of the members of a front.
fn front_values(ctx: &Context, trials: &[Option<PersistedTrial>], numbers: &[u32]) -> (found: Result<
    Vec<Vec<Number>>,
    Failure,
>)
    ensures
        found is Ok <==> all_present(trials@, numbers@),
        found matches Err(error) ==> error@ == plain_error(ErrorKind::TrialDiscarded),
        found matches Ok(values) ==> {
            &&& values@.len() == numbers@.len()
            &&& forall|k: int|
                0 <= k < values@.len() ==> (#[trigger] values@[k])@ == values_of(
                    members(trials@, numbers@)[k],
                    ctx.directions@.len(),
                )
        },
{
    let ghost population = members(trials@, numbers@);
    let mut values: Vec<Vec<Number>> = Vec::new();
    for k in 0..numbers.len()
        invariant
            population == members(trials@, numbers@),
            forall|i: int| 0 <= i < k ==> trial_at(trials@, #[trigger] numbers@[i]) is Some,
            values@.len() == k,
            forall|i: int|
                0 <= i < k ==> (#[trigger] values@[i])@ == values_of(
                    population[i],
                    ctx.directions@.len(),
                ),
    {
        let trial = match find_trial(trials, numbers[k]) {
            Some(trial) => trial,
            None => {
                assert(trial_at(trials@, numbers@[k as int]) is None);
                return Err(Failure::new(ErrorKind::TrialDiscarded));
            },
        };
        assert(*trial == population[k as int]);
        let mut row: Vec<Number> = Vec::new();
        match &trial.state_values {
            TrialStateValues::Complete(found) => {
                row.extend_from_slice(found.as_slice());
                assert(row@ =~= found@);
            },
            _ => {
                for i in 0..ctx.directions.len()
                    invariant
                        row@.len() == i,
                        forall|j: int|
                            0 <= j < i ==> #[trigger] row@[j] == (Number { bits: NOT_A_NUMBER }),
                {
                    row.push(Number::from_bits(NOT_A_NUMBER));
                }
                assert(row@ =~= values_of(population[k as int], ctx.directions@.len()));
            },
        }
        values.push(row);
    }
    Ok(values)
}

/// Whether every member of a front has a value for each objective.
pub open spec fn all_valued(population: Seq<PersistedTrial>, objectives: nat) -> bool {
    forall|k: int|
        0 <= k < population.len() ==> values_of(#[trigger] population[k], objectives).len()
            >= objectives
}

/// The crowding distances of a front, or why they are not known, as far as `measure` decides.
pub open spec fn crowded<F: Fn(&Vec<Axis>, usize) -> Vec<Number>>(
    measure: F,
    objectives: nat,
    trials: Seq<Option<PersistedTrial>>,
    numbers: Seq<u32>,
    distances: Result<Seq<Number>, FailureView>,
) -> bool {
    if all_present(trials, numbers) {
        distances matches Ok(found) && measures(
            measure,
            front_axes(members(trials, numbers), objectives),
            numbers.len(),
            found,
        )
    } else {
        distances == Err::<Seq<Number>, FailureView>(plain_error(ErrorKind::TrialDiscarded))
    }
}

/// Whether a function that adds up crowding distances gives the same distances for the same axes.
pub open spec fn steady_measure<M: Fn(&Vec<Axis>, usize) -> Vec<Number>>(measure: M) -> bool {
    forall|axes: Seq<AxisView>, count: nat, a: Seq<Number>, b: Seq<Number>| #[trigger]
        measures(measure, axes, count, a) && #[trigger] measures(measure, axes, count, b) ==> a == b
}

/// Which way objectives are to be improved changes no crowding distance: only how many objectives
/// there are counts.
pub proof fn law_directions_do_not_change_distances<M: Fn(&Vec<Axis>, usize) -> Vec<Number>>(
    measure: M,
    trials: Seq<Option<PersistedTrial>>,
    numbers: Seq<u32>,
    first: Seq<Direction>,
    second: Seq<Direction>,
    a: Result<Seq<Number>, FailureView>,
    b: Result<Seq<Number>, FailureView>,
)
    requires
        first.len() == second.len(),
        steady_measure(measure),
        crowded(measure, first.len(), trials, numbers, a),
        crowded(measure, second.len(), trials, numbers, b),
    ensures
        a == b,
{
}

/// The crowding distance of each member of a front.
///
/// For each objective the front is put in order, and each member is given the gap between the
/// values next to its own; what is added up from gaps and widths is left to `measure`.
pub fn calc_crowding_distance<F: Fn(&Vec<Axis>, usize) -> Vec<Number>>(
    ctx: &Context,
    trials: &[Option<PersistedTrial>],
    population_numbers: &[u32],
    measure: &F,
) -> (crowding: Result<Vec<(u32, Number)>, Failure>)
    requires
        full_measure(*measure),
        ctx.directions@.len() > 0 ==> population_numbers@.len() > 0,
        all_present(trials@, population_numbers@) ==> all_valued(
            members(trials@, population_numbers@),
            ctx.directions@.len(),
        ),
    ensures
        match crowding {
            Ok(pairs) => {
                &&& crowded(
                    *measure,
                    ctx.directions@.len(),
                    trials@,
                    population_numbers@,
                    Ok(pairs@.map_values(|pair: (u32, Number)| pair.1)),
                )
                &&& pairs@.map_values(|pair: (u32, Number)| pair.0) == population_numbers@
                &&& sound_measure(*measure) ==> comparable(
                    pairs@.map_values(|pair: (u32, Number)| pair.1),
                )
            },
            Err(error) => crowded(
                *measure,
                ctx.directions@.len(),
                trials@,
                population_numbers@,
                Err(error@),
            ),
        },
{
    let values = match front_values(ctx, trials, population_numbers) {
        Ok(values) => values,
        Err(error) => {
            return Err(error);
        },
    };
    let ghost population = members(trials@, population_numbers@);
    let ghost objectives = ctx.directions@.len();
    let mut axes: Vec<Axis> = Vec::new();
    for i in 0..ctx.directions.len()
        invariant
            ctx.directions@.len() > 0 ==> population.len() > 0,
            objectives == ctx.directions@.len(),
            values@.len() == population.len(),
            all_valued(population, objectives),
            forall|k: int|
                0 <= k < values@.len() ==> (#[trigger] values@[k])@ == values_of(
                    population[k],
                    objectives,
                ),
            axes@.len() == i,
            forall|k: int|
                0 <= k < i ==> (#[trigger] axes@[k])@ == axis_of(
                    column(population, objectives, k),
                ),
    {
        let mut line: Vec<Number> = Vec::new();
        for k in 0..values.len()
            invariant
                i < objectives,
                values@.len() == population.len(),
                all_valued(population, objectives),
                forall|k: int|
                    0 <= k < values@.len() ==> (#[trigger] values@[k])@ == values_of(
                        population[k],
                        objectives,
                    ),
                line@.len() == k,
                forall|j: int|
                    0 <= j < k ==> #[trigger] line@[j] == column(
                        population,
                        objectives,
                        i as int,
                    )[j],
        {
            assert(values_of(population[k as int], objectives).len() >= objectives);
            line.push(values[k][i]);
        }
        assert(line@ =~= column(population, objectives, i as int));
        axes.push(objective_axis(&line));
    }
    assert(axes_view(axes@) =~= front_axes(population, objectives));
    let distances = measure(&axes, population_numbers.len());
    let mut pairs: Vec<(u32, Number)> = Vec::new();
    for k in 0..population_numbers.len()
        invariant
            distances@.len() == population_numbers@.len(),
            pairs@.len() == k,
            forall|j: int|
                0 <= j < k ==> #[trigger] pairs@[j] == (population_numbers@[j], distances@[j]),
    {
        pairs.push((population_numbers[k], distances[k]));
    }
    proof {
        assert(pairs@.map_values(|pair: (u32, Number)| pair.1) =~= distances@);
        assert(pairs@.map_values(|pair: (u32, Number)| pair.0) =~= population_numbers@);
        assert(measure.ensures((&axes, population_numbers@.len() as usize), distances));
    }
    Ok(pairs)
}

/// The keys that put the greatest number first.
pub open spec fn descending_keys(distances: Seq<Number>) -> Seq<i64> {
    distances.map_values(|distance: Number| (-distance.key()) as i64)
}

/// The members of a front, the least crowded first; equally crowded ones keep their order.
pub open spec fn least_crowded_first<T>(front: Seq<T>, distances: Seq<Number>) -> Seq<T> {
    sorted_positions(descending_keys(distances)).map_values(|position: usize| front[position as int])
}

/// Sorts a front by given crowding distances, the least crowded first.
pub fn sort_by_distance(pairs: &Vec<(u32, Number)>) -> (sorted: Vec<u32>)
    requires
        comparable(pairs@.map_values(|pair: (u32, Number)| pair.1)),
    ensures
        sorted@ == least_crowded_first(
            pairs@.map_values(|pair: (u32, Number)| pair.0),
            pairs@.map_values(|pair: (u32, Number)| pair.1),
        ),
        sorted@.len() == pairs@.len(),
{
    let ghost front = pairs@.map_values(|pair: (u32, Number)| pair.0);
    let ghost distances = pairs@.map_values(|pair: (u32, Number)| pair.1);
    let mut keys: Vec<i64> = Vec::new();
    for k in 0..pairs.len()
        invariant
            distances == pairs@.map_values(|pair: (u32, Number)| pair.1),
            keys@.len() == k,
            forall|j: int| 0 <= j < k ==> #[trigger] keys@[j] == descending_keys(distances)[j],
    {
        keys.push(-pairs[k].1.order_key());
    }
    assert(keys@ =~= descending_keys(distances));
    let order = stable_order(&keys);
    proof {
        lemma_sorted_positions(keys@);
    }
    let mut sorted: Vec<u32> = Vec::new();
    for k in 0..order.len()
        invariant
            front == pairs@.map_values(|pair: (u32, Number)| pair.0),
            forall|i: int| 0 <= i < order@.len() ==> (#[trigger] order@[i]) < pairs@.len(),
            sorted@.len() == k,
            forall|i: int| 0 <= i < k ==> #[trigger] sorted@[i] == front[order@[i] as int],
    {
        sorted.push(pairs[order[k]].0);
    }
    assert(sorted@ =~= least_crowded_first(front, distances));
    sorted
}

/// Sorts a front by crowding distance, the least crowded first.
pub fn crowding_distance_sort<F: Fn(&Vec<Axis>, usize) -> Vec<Number>>(
    ctx: &Context,
    trials: &[Option<PersistedTrial>],
    population_numbers: &Vec<u32>,
    measure: &F,
) -> (sorted: Result<Vec<u32>, Failure>)
    requires
        sound_measure(*measure),
        ctx.directions@.len() > 0 ==> population_numbers@.len() > 0,
        all_present(trials@, population_numbers@) ==> all_valued(
            members(trials@, population_numbers@),
            ctx.directions@.len(),
        ),
    ensures
        match sorted {
            Ok(numbers) => exists|distances: Seq<Number>|
                #![trigger least_crowded_first(population_numbers@, distances)]
                crowded(
                    *measure,
                    ctx.directions@.len(),
                    trials@,
                    population_numbers@,
                    Ok(distances),
                ) && distances.len() == population_numbers@.len() && numbers@
                    == least_crowded_first(population_numbers@, distances),
            Err(error) => crowded(
                *measure,
                ctx.directions@.len(),
                trials@,
                population_numbers@,
                Err(error@),
            ),
        },
        sorted matches Ok(numbers) ==> numbers@.len() == population_numbers@.len(),
{
    match calc_crowding_distance(ctx, trials, population_numbers.as_slice(), measure) {
        Ok(pairs) => {
            let sorted = sort_by_distance(&pairs);
            assert(pairs@.len() == pairs@.map_values(|pair: (u32, Number)| pair.0).len());
            Ok(sorted)
        },
        Err(error) => Err(error),
    }
}

proof fn lemma_ascending(values: Seq<Number>)
    requires
        values.len() <= usize::MAX,
        forall|k: int| 0 <= k < values.len() ==> #[trigger] values[k].ordered(),
    ensures
        ({
            let order = sorted_positions(keys_of(values));
            &&& order.len() == values.len()
            &&& order.no_duplicates()
            &&& forall|i: int| 0 <= i < order.len() ==> (#[trigger] order[i]) < values.len()
            &&& forall|p: usize| p < values.len() ==> #[trigger] order.contains(p)
            &&& forall|i: int, j: int|
                0 <= i < j < order.len() ==> {
                    let a = values[#[trigger] order[i] as int];
                    let b = values[#[trigger] order[j] as int];
                    a.less(b) || a.equals(b) && order[i] < order[j]
                }
        }),
{
    let keys = keys_of(values);
    let order = sorted_positions(keys);
    lemma_sorted_positions(keys);
    law_positions_are_sorted_by_key(keys);
    assert forall|i: int, j: int| 0 <= i < j < order.len() implies {
        let a = values[#[trigger] order[i] as int];
        let b = values[#[trigger] order[j] as int];
        a.less(b) || a.equals(b) && order[i] < order[j]
    } by {
        let a = values[order[i] as int];
        let b = values[order[j] as int];
        assert(a.ordered() && b.ordered());
        assert(keys[order[i] as int] == a.key() as i64);
        assert(keys[order[j] as int] == b.key() as i64);
    }
}

/// How the values of an objective decide what it adds: nothing can be measured without values, with
/// one that is not a number, or with values that differ and are all infinite; nothing is added
/// where no value is less than another; all else is spread.
pub proof fn law_values_decide_how_an_objective_spreads(values: Seq<Number>)
    requires
        values.len() <= usize::MAX,
    ensures
        axis_of(values) is Unordered <==> {
            ||| values.len() == 0
            ||| exists|k: int| 0 <= k < values.len() && !(#[trigger] values[k].ordered())
            ||| {
                &&& exists|i: int, j: int|
                    0 <= i < values.len() && 0 <= j < values.len() && #[trigger] values[i].less(
                        values[j],
                    )
                &&& forall|k: int| 0 <= k < values.len() ==> !(#[trigger] values[k].finite())
            }
        },
        axis_of(values) is Level <==> {
            &&& values.len() > 0
            &&& forall|i: int, j: int|
                0 <= i < values.len() && 0 <= j < values.len() ==> #[trigger] values[i].equals(
                    values[j],
                )
        },
{
    if values.len() > 0 && forall|k: int| 0 <= k < values.len() ==> #[trigger] values[k].ordered() {
        lemma_ascending(values);
        let order = sorted_positions(keys_of(values));
        let n = values.len() as int;
        let least = order[0];
        let greatest = order[n - 1];
        assert(ascending(values).first() == values[least as int]);
        assert(ascending(values).last() == values[greatest as int]);
        if spread(values) {
            assert(n > 1);
            assert(values[least as int].less(values[greatest as int]));
            assert(!values[least as int].equals(values[greatest as int]));
        } else {
            assert forall|i: int, j: int|
                0 <= i < values.len() && 0 <= j < values.len() implies #[trigger] values[i].equals(
                values[j],
            ) by {
                lemma_between_extremes(values, i);
                lemma_between_extremes(values, j);
            }
            assert forall|i: int, j: int|
                0 <= i < values.len() && 0 <= j < values.len() implies !(#[trigger] values[i].less(
                values[j],
            )) by {
                assert(values[i].equals(values[j]));
            }
        }
    } else if values.len() > 0 {
        let k = choose|k: int| 0 <= k < values.len() && !(#[trigger] values[k].ordered());
        assert(!values[k].equals(values[k]));
    }
}

proof fn lemma_between_extremes(values: Seq<Number>, i: int)
    requires
        0 < values.len() <= usize::MAX,
        forall|k: int| 0 <= k < values.len() ==> #[trigger] values[k].ordered(),
        0 <= i < values.len(),
    ensures
        ({
            let order = sorted_positions(keys_of(values));
            &&& values[order[0] as int].at_most(values[i])
            &&& values[i].at_most(values[order[values.len() - 1] as int])
        }),
{
    lemma_ascending(values);
    let order = sorted_positions(keys_of(values));
    assert(order.contains(i as usize));
    let k = choose|k: int| 0 <= k < order.len() && order[k] == i as usize;
    assert(values[order[0] as int].ordered());
    assert(values[i].ordered());
    assert(values[order[values.len() - 1] as int].ordered());
    if k > 0 {
        assert(order[0] < values.len());
    }
    if k < values.len() - 1 {
        assert(order[values.len() - 1] < values.len());
    }
}

/// Along an objective that spreads a front the members stand in ascending order of their values,
/// equal ones in their own order, each member once. The gap of every member runs from the value of
/// the one before it to the value of the one after it, with the infinities beyond the ends, and
/// there is none exactly where these two are equal.
pub proof fn law_gaps_run_between_neighbours(values: Seq<Number>)
    requires
        values.len() <= usize::MAX,
        axis_of(values) is Spread,
    ensures
        ({
            let steps = axis_of(values)->steps;
            let n = values.len() as int;
            &&& steps.len() == n
            &&& forall|j: int| 0 <= j < n ==> (#[trigger] steps[j]).index < n
            &&& forall|i: int, j: int|
                0 <= i < j < n ==> {
                    let a = (#[trigger] steps[i]).index;
                    let b = (#[trigger] steps[j]).index;
                    values[a as int].less(values[b as int]) || values[a as int].equals(
                        values[b as int],
                    ) && a < b
                }
            &&& forall|j: int|
                0 <= j < n ==> {
                    let before = if j == 0 {
                        Number { bits: 0xfff0_0000_0000_0000 }
                    } else {
                        values[steps[j - 1].index as int]
                    };
                    let after = if j == n - 1 {
                        Number { bits: 0x7ff0_0000_0000_0000 }
                    } else {
                        values[steps[j + 1].index as int]
                    };
                    match (#[trigger] steps[j]).gap {
                        Some(gap) => gap.from == before && gap.to == after && !before.equals(after),
                        None => before.equals(after),
                    }
                }
        }),
{
    lemma_ascending(values);
    let order = sorted_positions(keys_of(values));
    let line = padded(values);
    let n = values.len() as int;
    let steps = axis_of(values)->steps;
    assert forall|j: int| 0 <= j < n implies line[j + 1] == values[#[trigger] order[j] as int] by {}
    assert forall|j: int| 0 <= j < n implies {
        let before = if j == 0 {
            Number { bits: 0xfff0_0000_0000_0000 }
        } else {
            values[steps[j - 1].index as int]
        };
        let after = if j == n - 1 {
            Number { bits: 0x7ff0_0000_0000_0000 }
        } else {
            values[steps[j + 1].index as int]
        };
        match (#[trigger] steps[j]).gap {
            Some(gap) => gap.from == before && gap.to == after && !before.equals(after),
            None => before.equals(after),
        }
    } by {
        assert(steps[j].gap == difference(line[j], line[j + 2]));
        if j > 0 {
            assert(line[j] == values[order[j - 1] as int]);
        }
        if j < n - 1 {
            assert(line[j + 2] == values[order[j + 1] as int]);
        }
    }
}

/// The width of an objective that spreads a front runs from the least to the greatest of its finite
/// values, and there is none exactly where all its finite values are equal.
pub proof fn law_width_runs_over_the_finite_values(values: Seq<Number>)
    requires
        values.len() <= usize::MAX,
        axis_of(values) is Spread,
    ensures
        match axis_of(values)->width {
            Some(width) => {
                &&& width.from.finite() && values.contains(width.from)
                &&& width.to.finite() && values.contains(width.to)
                &&& width.from.less(width.to)
                &&& forall|k: int|
                    0 <= k < values.len() && #[trigger] values[k].finite() ==> {
                        &&& width.from.at_most(values[k])
                        &&& values[k].at_most(width.to)
                    }
            },
            None => {
                &&& exists|k: int| 0 <= k < values.len() && #[trigger] values[k].finite()
                &&& forall|i: int, j: int|
                    0 <= i < values.len() && 0 <= j < values.len() && #[trigger] values[i].finite()
                        && #[trigger] values[j].finite() ==> values[i].equals(values[j])
            },
        },
{
    lemma_ascending(values);
    let order = sorted_positions(keys_of(values));
    let line = padded(values);
    let n = values.len() as int;
    let some = choose|k: int| 0 <= k < values.len() && #[trigger] values[k].finite();
    assert(order.contains(some as usize));
    let at = choose|k: int| 0 <= k < order.len() && order[k] == some as usize;
    assert(line[at + 1] == values[some]);
    assert(line[at + 1].finite());
    let lo = lemma_first_finite_place(line, at + 1);
    let hi = lemma_last_finite_place(line, at + 1);
    lemma_first_finite(line, lo);
    lemma_last_finite(line, hi);
    assert(1 <= lo <= n && 1 <= hi <= n);
    assert forall|j: int| 0 <= j < n implies line[j + 1] == values[#[trigger] order[j] as int] by {}
    assert(line[lo] == values[order[lo - 1] as int]);
    assert(line[hi] == values[order[hi - 1] as int]);
    assert forall|k: int| 0 <= k < values.len() && #[trigger] values[k].finite() implies {
        &&& line[lo].at_most(values[k])
        &&& values[k].at_most(line[hi])
    } by {
        assert(order.contains(k as usize));
        let j = choose|j: int| 0 <= j < order.len() && order[j] == k as usize;
        assert(line[j + 1] == values[k]);
        assert(line[j + 1].finite());
        assert(lo <= j + 1 <= hi);
        assert(values[order[lo - 1] as int].ordered());
        assert(values[order[hi - 1] as int].ordered());
        if lo - 1 < j {
            assert(order[lo - 1] < n && order[j] < n);
        }
        if j < hi - 1 {
            assert(order[hi - 1] < n && order[j] < n);
        }
    }
    assert(values[order[lo - 1] as int].finite());
    assert(values[order[hi - 1] as int].finite());
}

proof fn lemma_first_finite_place(numbers: Seq<Number>, some: int) -> (at: int)
    requires
        0 <= some < numbers.len(),
        numbers[some].finite(),
    ensures
        0 <= at <= some,
        numbers[at].finite(),
        forall|k: int| 0 <= k < at ==> !(#[trigger] numbers[k]).finite(),
    decreases some,
{
    if exists|k: int| 0 <= k < some && (#[trigger] numbers[k]).finite() {
        let k = choose|k: int| 0 <= k < some && (#[trigger] numbers[k]).finite();
        lemma_first_finite_place(numbers, k)
    } else {
        some
    }
}

proof fn lemma_last_finite_place(numbers: Seq<Number>, some: int) -> (at: int)
    requires
        0 <= some < numbers.len(),
        numbers[some].finite(),
    ensures
        some <= at < numbers.len(),
        numbers[at].finite(),
        forall|k: int| at < k < numbers.len() ==> !(#[trigger] numbers[k]).finite(),
    decreases numbers.len() - some,
{
    if exists|k: int| some < k < numbers.len() && (#[trigger] numbers[k]).finite() {
        let k = choose|k: int| some < k < numbers.len() && (#[trigger] numbers[k]).finite();
        lemma_last_finite_place(numbers, k)
    } else {
        some
    }
}

/// Crowding distances are added up from one axis for each objective, made of the values that the
/// members of the front have in it, in their order. They are known exactly where every number of
/// the front is that of a trial.
pub proof fn law_distances_are_those_of_the_members<F: Fn(&Vec<Axis>, usize) -> Vec<Number>>(
    measure: F,
    objectives: nat,
    trials: Seq<Option<PersistedTrial>>,
    numbers: Seq<u32>,
    distances: Result<Seq<Number>, FailureView>,
)
    requires
        crowded(measure, objectives, trials, numbers, distances),
    ensures
        distances is Ok <==> forall|k: int|
            0 <= k < numbers.len() ==> trial_at(trials, #[trigger] numbers[k]) is Some,
        distances matches Err(error) ==> error.kind == ErrorKind::TrialDiscarded && error.reason
            is None,
        distances matches Ok(found) ==> exists|axes: Seq<AxisView>, table: Seq<Seq<Number>>|
            {
                &&& #[trigger] measures(measure, axes, numbers.len(), found)
                &&& axes.len() == objectives
                &&& (#[trigger] table.len()) == objectives
                &&& forall|i: int| 0 <= i < objectives ==> axes[i] == axis_of(#[trigger] table[i])
                &&& forall|i: int, k: int|
                    0 <= i < objectives && 0 <= k < numbers.len() ==> {
                        &&& table[i].len() == numbers.len()
                        &&& match trial_at(trials, numbers[k])->0.state_values {
                            TrialStateValues::Complete(values) => #[trigger] table[i][k] == values@[i],
                            _ => !table[i][k].ordered(),
                        }
                    }
            },
{
    if let Ok(found) = distances {
        let population = members(trials, numbers);
        let axes = front_axes(population, objectives);
        let table = Seq::new(objectives, |i: int| column(population, objectives, i));
        assert(measures(measure, axes, numbers.len(), found));
        assert(table.len() == objectives);
        assert forall|i: int, k: int| 0 <= i < objectives && 0 <= k < numbers.len() implies {
            &&& table[i].len() == numbers.len()
            &&& match trial_at(trials, numbers[k])->0.state_values {
                TrialStateValues::Complete(values) => #[trigger] table[i][k] == values@[i],
                _ => !table[i][k].ordered(),
            }
        } by {
            assert(population[k] == trial_at(trials, numbers[k])->0);
            assert(table[i] == column(population, objectives, i));
            assert(column(population, objectives, i)[k] == values_of(population[k], objectives)[i]);
        }
    }
}

/// Putting the least crowded first rearranges a front: the member with the greater distance comes
/// first, and of two with equal distances the one that came first before.
pub proof fn law_greater_distances_come_first<T>(front: Seq<T>, distances: Seq<Number>)
    requires
        front.len() == distances.len(),
        distances.len() <= usize::MAX,
        forall|k: int| 0 <= k < distances.len() ==> #[trigger] distances[k].ordered(),
    ensures
        ({
            let sorted = least_crowded_first(front, distances);
            let order = least_crowded_first(positions(front.len()), distances);
            &&& sorted.len() == front.len()
            &&& order.len() == front.len()
            &&& order.no_duplicates()
            &&& forall|k: int|
                0 <= k < front.len() ==> (#[trigger] order[k]) < front.len() && sorted[k]
                    == front[order[k] as int]
            &&& forall|i: int, j: int|
                0 <= i < j < front.len() ==> {
                    let a = #[trigger] order[i];
                    let b = #[trigger] order[j];
                    distances[b as int].less(distances[a as int]) || distances[a as int].equals(
                        distances[b as int],
                    ) && a < b
                }
        }),
{
    let keys = descending_keys(distances);
    law_positions_are_sorted_by_key(keys);
    let places = sorted_positions(keys);
    let order = least_crowded_first(positions(front.len()), distances);
    assert(order =~= places);
    assert forall|i: int, j: int| 0 <= i < j < front.len() implies {
        let a = #[trigger] order[i];
        let b = #[trigger] order[j];
        distances[b as int].less(distances[a as int]) || distances[a as int].equals(
            distances[b as int],
        ) && a < b
    } by {
        let a = places[i];
        let b = places[j];
        assert(distances[a as int].ordered() && distances[b as int].ordered());
        assert(keys[a as int] == (-distances[a as int].key()) as i64);
        assert(keys[b as int] == (-distances[b as int].key()) as i64);
    }
}

/// Distances are what the function gives for a list of axes that says, axis by axis, what the axes
/// say, and for as many members as there are.
pub proof fn law_the_measure_is_asked_about_the_axes<F: Fn(&Vec<Axis>, usize) -> Vec<Number>>(
    measure: F,
    axes: Seq<AxisView>,
    count: nat,
    distances: Seq<Number>,
)
    requires
        measures(measure, axes, count, distances),
    ensures
        exists|given: Vec<Axis>, members: usize, found: Vec<Number>|
            {
                &&& #[trigger] measure.ensures((&given, members), found)
                &&& members == count
                &&& found@ == distances
                &&& given@.len() == axes.len()
                &&& forall|i: int|
                    0 <= i < axes.len() ==> match #[trigger] given@[i] {
                        Axis::Unordered => axes[i] is Unordered,
                        Axis::Level => axes[i] is Level,
                        Axis::Spread { steps, width } => axes[i] == (AxisView::Spread {
                            steps: steps@,
                            width,
                        }),
                    }
            },
{
    let (given, members, found) = choose|given: Vec<Axis>, members: usize, found: Vec<Number>|
        #[trigger] measure.ensures((&given, members), found) && axes_view(given@) == axes && members
            == count && found@ == distances;
    assert forall|i: int| 0 <= i < axes.len() implies match #[trigger] given@[i] {
        Axis::Unordered => axes[i] is Unordered,
        Axis::Level => axes[i] is Level,
        Axis::Spread { steps, width } => axes[i] == (AxisView::Spread { steps: steps@, width }),
    } by {
        assert(axes_view(given@)[i] == given@[i]@);
    }
    assert(axes_view(given@).len() == given@.len());
}

} // verus!
