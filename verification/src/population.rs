use crate::dominance::constraints_met;
use crate::dominance::is_feasible;
use crate::dominance::outranks;
use crate::dominance::standing_view;
use crate::dominance::Standing;
use crate::error::plain_error;
use crate::error::ErrorKind;
use crate::error::Failure;
use crate::error::FailureView;
use crate::fronts::fronts;
use crate::fronts::law_fronts_follow_dominance;
use crate::fronts::law_fronts_partition_the_population;
use crate::fronts::lemma_fronts_in_range;
use crate::fronts::positions;
use crate::fronts::rank_positions;
use crate::fronts::rows;
use crate::fronts::standings_view;
use crate::number::Number;
use crate::trial::find_trial;
use crate::trial::trial_at;
use crate::trial::Context;
use crate::trial::Direction;
use crate::trial::PersistedTrial;
use crate::trial::TrialStateValues;
use vstd::prelude::*;

verus! {

/// Whether every number is that of a trial.
pub open spec fn all_present(trials: Seq<Option<PersistedTrial>>, numbers: Seq<u32>) -> bool {
    forall|k: int| 0 <= k < numbers.len() ==> trial_at(trials, #[trigger] numbers[k]) is Some
}

/// The trials with the given numbers.
pub open spec fn members(trials: Seq<Option<PersistedTrial>>, numbers: Seq<u32>) -> Seq<
    PersistedTrial,
> {
    numbers.map_values(|number: u32| trial_at(trials, number)->0)
}

/// Whether a trial, once complete, has one value for each objective.
pub open spec fn well_shaped(trial: PersistedTrial, objectives: nat) -> bool {
    trial.state_values matches TrialStateValues::Complete(values) ==> values@.len() == objectives
}

/// Whether all trials are well shaped.
pub open spec fn all_well_shaped(population: Seq<PersistedTrial>, objectives: nat) -> bool {
    forall|k: int| 0 <= k < population.len() ==> well_shaped(#[trigger] population[k], objectives)
}

/// Why the constraints of a complete trial cannot be read.
pub open spec fn constraint_error(trial: PersistedTrial) -> Option<FailureView> {
    match (trial.state_values, trial.constraints) {
        (TrialStateValues::Complete(_), Err(error)) => Some(error@),
        _ => None,
    }
}

/// The first error among those in reading the constraints of the trials.
pub open spec fn first_constraint_error(population: Seq<PersistedTrial>) -> Option<FailureView>
    decreases population.len(),
{
    if population.len() == 0 {
        None
    } else if constraint_error(population[0]) is Some {
        constraint_error(population[0])
    } else {
        first_constraint_error(population.drop_first())
    }
}

/// What a trial is compared by: nothing unless it is complete.
pub open spec fn standing_of(trial: PersistedTrial) -> Option<Standing> {
    match (trial.state_values, trial.constraints) {
        (TrialStateValues::Complete(values), Ok(constraints)) => Some(
            Standing {
                values: values@,
                feasible: constraints_met(constraints.values@),
                violation: constraints.violation,
            },
        ),
        _ => None,
    }
}

/// What the trials are compared by.
pub open spec fn standings_of(population: Seq<PersistedTrial>) -> Seq<Option<Standing>> {
    population.map_values(|trial: PersistedTrial| standing_of(trial))
}

/// The numbers at the given positions, front by front.
pub open spec fn numbered(ranked: Seq<Seq<usize>>, numbers: Seq<u32>) -> Seq<Seq<u32>> {
    ranked.map_values(
        |front: Seq<usize>| front.map_values(|position: usize| numbers[position as int]),
    )
}

/// The fronts of a population, best first, or why there are none.
///
/// A number without a trial counts first, then a trial of the wrong shape, then constraints that
/// cannot be read.
pub open spec fn sorted_fronts(
    directions: Seq<Direction>,
    trials: Seq<Option<PersistedTrial>>,
    numbers: Seq<u32>,
) -> Result<Seq<Seq<u32>>, FailureView> {
    let population = members(trials, numbers);
    if !all_present(trials, numbers) {
        Err(plain_error(ErrorKind::TrialDiscarded))
    } else if !all_well_shaped(population, directions.len()) {
        Err(plain_error(ErrorKind::Unexpected))
    } else if first_constraint_error(population) is Some {
        Err(first_constraint_error(population)->0)
    } else {
        Ok(
            numbered(
                fronts(standings_of(population), directions, positions(population.len())),
                numbers,
            ),
        )
    }
}

/// Sees through a table of numbers, or to the error in its place.
pub open spec fn table_outcome(result: Result<Vec<Vec<u32>>, Failure>) -> Result<
    Seq<Seq<u32>>,
    FailureView,
> {
    match result {
        Ok(table) => Ok(rows(table@)),
        Err(error) => Err(error@),
    }
}

/// Checks that every complete trial has one value for each objective.
pub fn validate_trials(population: &Vec<&PersistedTrial>, directions: &[Direction]) -> (checked:
    Result<(), Failure>)
    ensures
        checked is Ok <==> all_well_shaped(population@.unref(), directions@.len()),
        checked matches Err(error) ==> error@ == plain_error(ErrorKind::Unexpected),
{
    let ghost trials = population@.unref();
    for k in 0..population.len()
        invariant
            trials == population@.unref(),
            forall|i: int| 0 <= i < k ==> well_shaped(#[trigger] trials[i], directions@.len()),
    {
        let trial = population[k];
        assert(*trial == trials[k as int]);
        if let TrialStateValues::Complete(values) = &trial.state_values {
            if values.len() != directions.len() {
                assert(!well_shaped(trials[k as int], directions@.len()));
                return Err(Failure::new(ErrorKind::Unexpected));
            }
        }
    }
    Ok(())
}

/// Looks up the trials of a population.
fn population_trials<'a>(trials: &'a [Option<PersistedTrial>], numbers: &[u32]) -> (found: Result<
    Vec<&'a PersistedTrial>,
    Failure,
>)
    ensures
        found is Ok <==> all_present(trials@, numbers@),
        found matches Ok(population) ==> population@.unref() == members(trials@, numbers@),
        found matches Err(error) ==> error@ == plain_error(ErrorKind::TrialDiscarded),
{
    let mut population: Vec<&'a PersistedTrial> = Vec::new();
    for k in 0..numbers.len()
        invariant
            population@.len() == k,
            forall|i: int| 0 <= i < k ==> trial_at(trials@, #[trigger] numbers@[i]) is Some,
            forall|i: int|
                0 <= i < k ==> *(#[trigger] population@[i]) == trial_at(trials@, numbers@[i])->0,
    {
        match find_trial(trials, numbers[k]) {
            Some(trial) => population.push(trial),
            None => {
                assert(trial_at(trials@, numbers@[k as int]) is None);
                return Err(Failure::new(ErrorKind::TrialDiscarded));
            },
        }
    }
    assert(population@.unref() =~= members(trials@, numbers@));
    Ok(population)
}

/// What the trials of a population are compared by.
fn population_infos<'a>(population: &Vec<&'a PersistedTrial>) -> (infos: Result<
    Vec<Option<(&'a [Number], bool, Number)>>,
    Failure,
>)
    ensures
        infos is Ok <==> first_constraint_error(population@.unref()) is None,
        infos matches Ok(standings) ==> standings_view(standings@) == standings_of(
            population@.unref(),
        ),
        infos matches Err(error) ==> first_constraint_error(population@.unref()) == Some(error@),
{
    let ghost trials = population@.unref();
    let mut standings: Vec<Option<(&'a [Number], bool, Number)>> = Vec::new();
    assert(trials.skip(0) == trials);
    for k in 0..population.len()
        invariant
            trials == population@.unref(),
            standings@.len() == k,
            forall|i: int|
                0 <= i < k ==> standing_view(#[trigger] standings@[i]) == standing_of(trials[i]),
            first_constraint_error(trials.skip(k as int)) == first_constraint_error(trials),
    {
        let trial = population[k];
        assert(*trial == trials[k as int]);
        assert(trials.skip(k as int).drop_first() == trials.skip(k + 1));
        match &trial.state_values {
            TrialStateValues::Complete(values) => match &trial.constraints {
                Ok(constraints) => {
                    let feasible = is_feasible(constraints.values.as_slice());
                    standings.push(Some((values.as_slice(), feasible, constraints.violation)));
                },
                Err(error) => {
                    return Err(error.duplicate());
                },
            },
            _ => standings.push(None),
        }
    }
    assert(trials.skip(trials.len() as int).len() == 0);
    assert(standings_view(standings@) =~= standings_of(trials));
    Ok(standings)
}

/// Sorts a population into fronts, best first.
pub fn fast_non_dominated_sort(
    ctx: &Context,
    trials: &[Option<PersistedTrial>],
    population_numbers: &[u32],
) -> (ranked: Result<Vec<Vec<u32>>, Failure>)
    ensures
        table_outcome(ranked) == sorted_fronts(ctx.directions@, trials@, population_numbers@),
{
    let population = match population_trials(trials, population_numbers) {
        Ok(population) => population,
        Err(error) => {
            return Err(error);
        },
    };
    match validate_trials(&population, ctx.directions.as_slice()) {
        Ok(()) => {},
        Err(error) => {
            return Err(error);
        },
    }
    let standings = match population_infos(&population) {
        Ok(standings) => standings,
        Err(error) => {
            return Err(error);
        },
    };
    let ghost found = members(trials@, population_numbers@);
    proof {
        assert(standings_view(standings@).len() == standings@.len());
        assert(standings_of(found).len() == population_numbers@.len());
        assert forall|x: int| 0 <= x < standings@.len() implies (standing_view(
            #[trigger] standings@[x],
        ) matches Some(s) ==> s.values.len() >= ctx.directions@.len()) by {
            assert(standings_view(standings@)[x] == standing_of(found[x]));
            assert(well_shaped(found[x], ctx.directions@.len()));
        }
    }
    let positions_per_rank = rank_positions(&standings, ctx.directions.as_slice());
    let ghost ranked_positions = rows(positions_per_rank@);
    proof {
        crate::fronts::lemma_fronts_in_range(
            standings_of(found),
            ctx.directions@,
        );
    }
    let mut ranked: Vec<Vec<u32>> = Vec::new();
    for r in 0..positions_per_rank.len()
        invariant
            ranked_positions == rows(positions_per_rank@),
            forall|a: int, k: int|
                0 <= a < ranked_positions.len() && 0 <= k < ranked_positions[a].len() ==> (
                #[trigger] ranked_positions[a][k]) < population_numbers@.len(),
            rows(ranked@) == numbered(ranked_positions, population_numbers@).take(r as int),
    {
        let front = &positions_per_rank[r];
        assert(ranked_positions[r as int] == front@);
        let mut numbers: Vec<u32> = Vec::new();
        for k in 0..front.len()
            invariant
                ranked_positions[r as int] == front@,
                0 <= r < ranked_positions.len(),
                forall|a: int, k: int|
                    0 <= a < ranked_positions.len() && 0 <= k < ranked_positions[a].len() ==> (
                    #[trigger] ranked_positions[a][k]) < population_numbers@.len(),
                numbers@.len() == k,
                forall|i: int|
                    0 <= i < k ==> #[trigger] numbers@[i] == population_numbers@[front@[i] as int],
        {
            assert(ranked_positions[r as int][k as int] < population_numbers@.len());
            numbers.push(population_numbers[front[k]]);
        }
        let ghost before = ranked@;
        ranked.push(numbers);
        proof {
            let all = numbered(ranked_positions, population_numbers@);
            assert(numbers@ =~= all[r as int]);
            assert(rows(ranked@) =~= rows(before).push(numbers@));
            assert(all.take(r + 1) =~= all.take(r as int).push(all[r as int]));
        }
    }
    proof {
        let all = numbered(ranked_positions, population_numbers@);
        assert(all.take(all.len() as int) =~= all);
    }
    Ok(ranked)
}

/// When a population has fronts, and what stands in their way: a number without a trial comes
/// first, then a complete trial with too few or too many values, then the first complete trial
/// whose constraints cannot be read.
pub proof fn law_what_keeps_a_population_from_being_sorted(
    directions: Seq<Direction>,
    trials: Seq<Option<PersistedTrial>>,
    numbers: Seq<u32>,
)
    ensures
        ({
            let found = sorted_fronts(directions, trials, numbers);
            let missing = exists|k: int|
                0 <= k < numbers.len() && trial_at(trials, #[trigger] numbers[k]) is None;
            let misshapen = exists|k: int|
                0 <= k < numbers.len() && (trial_at(trials, #[trigger] numbers[k])->0.state_values
                    matches TrialStateValues::Complete(values) && values@.len()
                    != directions.len());
            &&& missing ==> (found matches Err(error) && error.kind == ErrorKind::TrialDiscarded
                && error.reason is None)
            &&& !missing && misshapen ==> (found matches Err(error) && error.kind
                == ErrorKind::Unexpected && error.reason is None)
            &&& !missing && !misshapen ==> {
                ||| found is Ok && forall|k: int|
                    0 <= k < numbers.len() && trial_at(
                        trials,
                        #[trigger] numbers[k],
                    )->0.state_values is Complete ==> trial_at(trials, numbers[k])->0.constraints
                        is Ok
                ||| exists|k: int|
                    {
                        &&& 0 <= k < numbers.len()
                        &&& trial_at(trials, #[trigger] numbers[k])->0.state_values is Complete
                        &&& trial_at(trials, numbers[k])->0.constraints matches Err(error) && found
                            == Err::<Seq<Seq<u32>>, FailureView>(error@)
                        &&& forall|j: int|
                            0 <= j < k && trial_at(
                                trials,
                                #[trigger] numbers[j],
                            )->0.state_values is Complete ==> trial_at(
                                trials,
                                numbers[j],
                            )->0.constraints is Ok
                    }
            }
        }),
{
    let population = members(trials, numbers);
    assert forall|k: int| 0 <= k < numbers.len() implies #[trigger] population[k] == trial_at(
        trials,
        numbers[k],
    )->0 by {}
    let missing = exists|k: int|
        0 <= k < numbers.len() && trial_at(trials, #[trigger] numbers[k]) is None;
    let misshapen = exists|k: int|
        0 <= k < numbers.len() && (trial_at(trials, #[trigger] numbers[k])->0.state_values
            matches TrialStateValues::Complete(values) && values@.len() != directions.len());
    if misshapen {
        let k = choose|k: int|
            0 <= k < numbers.len() && (trial_at(trials, #[trigger] numbers[k])->0.state_values
                matches TrialStateValues::Complete(values) && values@.len() != directions.len());
        assert(!well_shaped(population[k], directions.len()));
    } else {
        assert forall|k: int| 0 <= k < population.len() implies well_shaped(
            #[trigger] population[k],
            directions.len(),
        ) by {
            assert(population[k] == trial_at(trials, numbers[k])->0);
        }
    }
    if !missing && !misshapen {
        lemma_first_constraint_error(population);
        match first_constraint_error(population) {
            Some(error) => {
                let k = choose|k: int|
                    0 <= k < population.len() && constraint_error(#[trigger] population[k]) == Some(
                        error,
                    ) && forall|j: int|
                        0 <= j < k ==> constraint_error(#[trigger] population[j]) is None;
                assert(population[k] == trial_at(trials, numbers[k])->0);
                assert forall|j: int|
                    0 <= j < k && trial_at(
                        trials,
                        #[trigger] numbers[j],
                    )->0.state_values is Complete implies trial_at(
                    trials,
                    numbers[j],
                )->0.constraints is Ok by {
                    assert(constraint_error(population[j]) is None);
                }
            },
            None => {
                assert forall|k: int|
                    0 <= k < numbers.len() && trial_at(
                        trials,
                        #[trigger] numbers[k],
                    )->0.state_values is Complete implies trial_at(
                    trials,
                    numbers[k],
                )->0.constraints is Ok by {
                    assert(constraint_error(population[k]) is None);
                }
            },
        }
    }
}

proof fn lemma_first_constraint_error(population: Seq<PersistedTrial>)
    ensures
        match first_constraint_error(population) {
            Some(error) => exists|k: int|
                0 <= k < population.len() && constraint_error(#[trigger] population[k]) == Some(
                    error,
                ) && forall|j: int|
                    0 <= j < k ==> constraint_error(#[trigger] population[j]) is None,
            None => forall|k: int|
                0 <= k < population.len() ==> constraint_error(#[trigger] population[k]) is None,
        },
    decreases population.len(),
{
    if population.len() > 0 && constraint_error(population[0]) is None {
        let rest = population.drop_first();
        lemma_first_constraint_error(rest);
        match first_constraint_error(population) {
            Some(error) => {
                let k = choose|k: int|
                    0 <= k < rest.len() && constraint_error(#[trigger] rest[k]) == Some(error)
                        && forall|j: int|
                        0 <= j < k ==> constraint_error(#[trigger] rest[j]) is None;
                assert(constraint_error(population[k + 1]) == Some(error));
                assert forall|j: int| 0 <= j < k + 1 implies constraint_error(
                    #[trigger] population[j],
                ) is None by {
                    if j > 0 {
                        assert(constraint_error(rest[j - 1]) is None);
                    }
                }
            },
            None => {
                assert forall|k: int| 0 <= k < population.len() implies constraint_error(
                    #[trigger] population[k],
                ) is None by {
                    if k > 0 {
                        assert(constraint_error(rest[k - 1]) is None);
                    }
                }
            },
        }
    } else if population.len() > 0 {
        assert(constraint_error(population[0]) == first_constraint_error(population));
    }
}

/// What a complete trial is compared by: its values, whether none of its constraints is violated,
/// and its violation. A trial that is not complete has nothing to be compared by.
pub proof fn law_trials_are_compared_by_what_they_hold(trial: PersistedTrial)
    ensures
        !(trial.state_values is Complete) ==> standing_of(trial) is None,
        trial.state_values matches TrialStateValues::Complete(values) ==> (
        trial.constraints matches Ok(constraints) ==> {
            &&& standing_of(trial) matches Some(standing)
            &&& standing.values == values@
            &&& standing.violation == constraints.violation
            &&& standing.feasible <==> forall|k: int|
                0 <= k < constraints.values@.len() ==> !(Number { bits: 0 }).less(
                    #[trigger] constraints.values@[k],
                ) && constraints.values@[k].ordered()
        }),
{
    if let (TrialStateValues::Complete(_), Ok(constraints)) = (
        trial.state_values,
        trial.constraints,
    ) {
        let values = constraints.values@;
        if constraints_met(values) {
            assert forall|k: int| 0 <= k < values.len() implies !(Number { bits: 0 }).less(
                #[trigger] values[k],
            ) && values[k].ordered() by {
                assert(values[k].at_most(Number { bits: 0 }));
            }
        }
        if forall|k: int|
            0 <= k < values.len() ==> !(Number { bits: 0 }).less(#[trigger] values[k])
                && values[k].ordered() {
            assert forall|k: int| 0 <= k < values.len() implies #[trigger] values[k].at_most(
                Number { bits: 0 },
            ) by {
                assert(!(Number { bits: 0 }).less(values[k]));
            }
        }
    }
}

/// The fronts of a population hold each of its numbers as often as the population does. A trial is
/// dominated from earlier fronts only, and beyond the first front by some member of the front just
/// before its own. Within a front numbers stand as their places in the population do.
pub proof fn law_fronts_of_numbers_follow_dominance(
    directions: Seq<Direction>,
    trials: Seq<Option<PersistedTrial>>,
    numbers: Seq<u32>,
)
    requires
        numbers.len() <= usize::MAX,
        sorted_fronts(directions, trials, numbers) is Ok,
    ensures
        ({
            let ranked = sorted_fronts(directions, trials, numbers)->Ok_0;
            let places = fronts(
                Seq::new(numbers.len(), |k: int| standing_of(trial_at(trials, numbers[k])->0)),
                directions,
                positions(numbers.len()),
            );
            &&& ranked.len() == places.len()
            &&& places.flatten().to_multiset() == positions(numbers.len()).to_multiset()
            &&& forall|a: int| 0 <= a < ranked.len() ==> (#[trigger] ranked[a]).len() > 0
            &&& forall|a: int, k: int|
                0 <= a < ranked.len() && 0 <= k < ranked[a].len() ==> {
                    &&& ranked[a].len() == places[a].len()
                    &&& places[a][k] < numbers.len()
                    &&& #[trigger] ranked[a][k] == numbers[places[a][k] as int]
                }
            &&& forall|a: int, b: int, x: u32, y: u32|
                0 <= a < ranked.len() && 0 <= b < ranked.len() && #[trigger] ranked[a].contains(x)
                    && #[trigger] ranked[b].contains(y) && outranks(
                    standing_of(trial_at(trials, x)->0),
                    standing_of(trial_at(trials, y)->0),
                    directions,
                ) ==> a < b
            &&& forall|b: int, y: u32|
                0 < b < ranked.len() && #[trigger] ranked[b].contains(y) ==> exists|x: u32|
                    #[trigger] ranked[b - 1].contains(x) && outranks(
                        standing_of(trial_at(trials, x)->0),
                        standing_of(trial_at(trials, y)->0),
                        directions,
                    )
        }),
{
    let population = members(trials, numbers);
    let standings = standings_of(population);
    assert(standings =~= Seq::new(
        numbers.len(),
        |k: int| standing_of(trial_at(trials, numbers[k])->0),
    ));
    let ranked = sorted_fronts(directions, trials, numbers)->Ok_0;
    let places = fronts(standings, directions, positions(numbers.len()));
    law_fronts_partition_the_population(standings, directions);
    law_fronts_follow_dominance(standings, directions);
    lemma_fronts_in_range(standings, directions);
    assert forall|a: int| 0 <= a < ranked.len() implies (#[trigger] ranked[a]).len() > 0 by {
        assert(places[a].len() > 0);
    }
    assert forall|a: int, k: int| 0 <= a < ranked.len() && 0 <= k < ranked[a].len() implies {
        &&& ranked[a].len() == places[a].len()
        &&& places[a][k] < numbers.len()
        &&& #[trigger] ranked[a][k] == numbers[places[a][k] as int]
    } by {
        assert(places[a][k] < standings.len());
    }
    assert forall|a: int, b: int, x: u32, y: u32|
        0 <= a < ranked.len() && 0 <= b < ranked.len() && #[trigger] ranked[a].contains(x)
            && #[trigger] ranked[b].contains(y) && outranks(
            standing_of(trial_at(trials, x)->0),
            standing_of(trial_at(trials, y)->0),
            directions,
        ) implies a < b by {
        let i = choose|i: int| 0 <= i < ranked[a].len() && ranked[a][i] == x;
        let j = choose|j: int| 0 <= j < ranked[b].len() && ranked[b][j] == y;
        let p = places[a][i];
        let q = places[b][j];
        assert(ranked[a][i] == numbers[p as int] && ranked[b][j] == numbers[q as int]);
        assert(places[a].contains(p) && places[b].contains(q));
        assert(standings[p as int] == standing_of(trial_at(trials, x)->0));
        assert(standings[q as int] == standing_of(trial_at(trials, y)->0));
    }
    assert forall|b: int, y: u32|
        0 < b < ranked.len() && #[trigger] ranked[b].contains(y) implies exists|x: u32|
        #[trigger] ranked[b - 1].contains(x) && outranks(
            standing_of(trial_at(trials, x)->0),
            standing_of(trial_at(trials, y)->0),
            directions,
        ) by {
        let j = choose|j: int| 0 <= j < ranked[b].len() && ranked[b][j] == y;
        let q = places[b][j];
        assert(ranked[b][j] == numbers[q as int]);
        assert(places[b].contains(q));
        let p = choose|p: usize|
            #[trigger] places[b - 1].contains(p) && outranks(
                standings[p as int],
                standings[q as int],
                directions,
            );
        let front = places[b - 1];
        let i = choose|i: int| 0 <= i < front.len() && front[i] == p;
        let x = numbers[p as int];
        assert(ranked[b - 1][i] == x);
        assert(places[b - 1][i] < standings.len());
        assert(ranked[b - 1].contains(x));
        assert(standings[p as int] == standing_of(trial_at(trials, x)->0));
        assert(standings[q as int] == standing_of(trial_at(trials, y)->0));
    }
}

/// The trials with given numbers are those that the numbers find, in their order. All are there
/// where each is found.
pub proof fn law_members_are_found_by_their_numbers(
    trials: Seq<Option<PersistedTrial>>,
    numbers: Seq<u32>,
    table: Vec<Vec<u32>>,
    error: Failure,
)
    ensures
        all_present(trials, numbers) <==> forall|k: int|
            0 <= k < numbers.len() ==> trial_at(trials, #[trigger] numbers[k]) is Some,
        members(trials, numbers).len() == numbers.len(),
        forall|k: int|
            0 <= k < numbers.len() && trial_at(trials, numbers[k]) is Some ==> Some(
                #[trigger] members(trials, numbers)[k],
            ) == trial_at(trials, numbers[k]),
        table_outcome(Ok(table)) == Ok::<Seq<Seq<u32>>, FailureView>(rows(table@)),
        table_outcome(Err(error)) == Err::<Seq<Seq<u32>>, FailureView>(error@),
{
}

/// Trials have the right shape where each complete one has as many values as there are objectives.
pub proof fn law_complete_trials_have_a_value_for_each_objective(
    population: Seq<PersistedTrial>,
    objectives: nat,
)
    ensures
        all_well_shaped(population, objectives) <==> forall|k: int|
            0 <= k < population.len() ==> ((#[trigger] population[k]).state_values
                matches TrialStateValues::Complete(values) ==> values@.len() == objectives),
{
    if forall|k: int|
        0 <= k < population.len() ==> ((#[trigger] population[k]).state_values
            matches TrialStateValues::Complete(values) ==> values@.len() == objectives) {
        assert forall|k: int| 0 <= k < population.len() implies well_shaped(
            #[trigger] population[k],
            objectives,
        ) by {}
    }
    if all_well_shaped(population, objectives) {
        assert forall|k: int| 0 <= k < population.len() implies ((
        #[trigger] population[k]).state_values matches TrialStateValues::Complete(values)
            ==> values@.len() == objectives) by {
            assert(well_shaped(population[k], objectives));
        }
    }
}

} // verus!
