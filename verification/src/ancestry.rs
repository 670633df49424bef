use crate::attr::AttrKeyView;
use crate::crowding::steady_measure;
use crate::crowding::Axis;
use crate::elite::law_selected_elite_fills_its_size;
use crate::elite::lemma_selected;
use crate::elite::selects;
use crate::error::Failure;
use crate::error::FailureView;
use crate::generation::generation_key;
use crate::generation::generation_of;
use crate::generation::CacheView;
use crate::generation::Status;
use crate::indexing::in_place;
use crate::indexing::indexes;
use crate::indexing::law_full_generations_stay_full;
use crate::indexing::moves_on;
use crate::indexing::status_at;
use crate::json::json_array;
use crate::json::read_array;
use crate::json::reads_back;
use crate::number::Number;
use crate::parents::answers;
use crate::parents::breeds;
use crate::parents::decodes;
use crate::parents::first_missing;
use crate::parents::ids_of;
use crate::parents::known_parents;
use crate::parents::latest_kept;
use crate::parents::lineage;
use crate::parents::lineage_attrs;
use crate::parents::parent_key;
use crate::parents::parent_keys;
use crate::parents::parent_number;
use crate::parents::recallable;
use crate::parents::replies;
use crate::parents::resolves;
use crate::parents::restores;
use crate::parents::succeeds;
use crate::parents::ParentsView;
use crate::population::all_present;
use crate::reproducibility::law_resuming_gives_the_same_parents;
use crate::reproducibility::lemma_child;
use crate::reproducibility::lemma_open;
use crate::sampler::opens;
use crate::sampler::plan_for;
use crate::sampler::plans;
use crate::sampler::plans_child;
use crate::sampler::PlanView;
use crate::text::decimal;
use crate::text::law_written_numbers_differ;
use crate::text::law_written_numbers_read_back;
use crate::trial::trial_at;
use crate::trial::Direction;
use crate::trial::PersistedTrial;
use vstd::prelude::*;

verus! {

/// The parents of different generations are kept under different keys.
pub proof fn law_parent_keys_differ(m: u32, n: u32)
    requires
        parent_key(m) == parent_key(n),
    ensures
        m == n,
{
    let prefix = "NSGAIISampler:parent:"@;
    let at = prefix.len() as int;
    assert((prefix + decimal(m as nat)).skip(at) =~= decimal(m as nat));
    assert((prefix + decimal(n as nat)).skip(at) =~= decimal(n as nat));
    law_written_numbers_differ(m, n);
}

/// A trial that keeps what a plan has for it belongs to the generation of the plan.
pub proof fn law_written_generation_reads_back(
    child_generation: u32,
    parents: ParentsView,
    trial: PersistedTrial,
)
    requires
        plan_for(child_generation, parents).trial_attrs.submap_of(trial.attrs@),
    ensures
        generation_of(trial) == Some(child_generation),
{
    let kept = plan_for(child_generation, parents).trial_attrs;
    assert(kept.contains_key(generation_key()));
    assert(trial.attrs@.contains_key(generation_key()));
    assert(kept[generation_key()] == trial.attrs@[generation_key()]);
    law_written_numbers_read_back(child_generation);
}

/// The generation of the next child does not go back as long as the list of trials does not
/// become shorter.
pub proof fn law_child_generation_does_not_go_back(
    cache: CacheView,
    trials: Seq<Option<PersistedTrial>>,
    numbers: Seq<u32>,
    size: nat,
    before: u32,
    after: u32,
)
    requires
        cache.seen <= trials.len(),
        opens(cache, size, Ok(before)),
        opens(cache.synced(trials, numbers), size, Ok(after)),
    ensures
        before <= after,
{
    if after < before {
        assert(cache.full(after, size));
        law_full_generations_stay_full(cache, trials, numbers, after, size);
    }
}

proof fn lemma_lineage_sizes<M: Fn(&Vec<Axis>, usize) -> Vec<Number>>(
    measure: M,
    cache: CacheView,
    size: nat,
    directions: Seq<Direction>,
    trials: Seq<Option<PersistedTrial>>,
    first: int,
    line: Seq<Seq<u32>>,
    k: int,
)
    requires
        lineage(measure, cache, size, directions, trials, first, line),
        1 <= k < line.len(),
    ensures
        line[k].len() == size,
        all_present(trials, line[k]),
{
    let generation = (first + k - 2) as u32;
    let pool = cache.numbers(generation) + line[k - 1];
    assert(succeeds(measure, cache, size, directions, trials, first, line, k));
    law_selected_elite_fills_its_size(measure, directions, trials, pool, size, line[k]);
    lemma_selected(measure, directions, trials, pool, size, line[k]);
}

/// Whether a plan writes the parents of its child down, under the key of their generation.
pub open spec fn writes_parents(trials: Seq<Option<PersistedTrial>>, plan: PlanView) -> bool {
    &&& plan.study_attrs.contains_key(parent_key(plan.child_generation))
    &&& plan.study_attrs[parent_key(plan.child_generation)] == json_array(
        ids_of(trials, plan.parents),
    )
    &&& all_present(trials, plan.parents)
}

/// Whether a plan takes the parents of its child from what the study keeps.
pub open spec fn takes_parents<F: Fn(u32) -> Result<Option<u32>, Failure>>(
    lookup: F,
    study_attrs: Map<AttrKeyView, Seq<char>>,
    size: nat,
    plan: PlanView,
) -> bool {
    &&& plan.study_attrs == Map::<AttrKeyView, Seq<char>>::empty()
    &&& study_attrs.contains_key(parent_key(plan.child_generation))
    &&& decodes(
        lookup,
        study_attrs[parent_key(plan.child_generation)],
        size,
        Ok(Some(plan.parents)),
    )
}

proof fn lemma_decoded_size<F: Fn(u32) -> Result<Option<u32>, Failure>>(
    lookup: F,
    encoded: Seq<char>,
    size: nat,
    numbers: Seq<u32>,
)
    requires
        decodes(lookup, encoded, size, Ok(Some(numbers))),
    ensures
        numbers.len() == size,
{
    assert(read_array(encoded) is Ok);
    let ids = read_array(encoded)->Ok_0;
    assert(resolves(lookup, ids, Ok(Some(numbers))));
}

/// A child of any generation but the first has as many parents to choose from as a population
/// has members. The study keeps them from then on, if it did not before.
pub proof fn law_plan_has_all_its_parents<
    F: Fn(u32) -> Result<Option<u32>, Failure>,
    M: Fn(&Vec<Axis>, usize) -> Vec<Number>,
>(
    lookup: F,
    measure: M,
    cache: CacheView,
    size: nat,
    directions: Seq<Direction>,
    trials: Seq<Option<PersistedTrial>>,
    study_attrs: Map<AttrKeyView, Seq<char>>,
    plan: PlanView,
)
    requires
        plans(lookup, measure, cache, size, directions, trials, study_attrs, Ok(plan)),
        plan.child_generation >= 1,
    ensures
        plan.parents.len() == size,
        writes_parents(trials, plan) || takes_parents(lookup, study_attrs, size, plan),
{
    let made = Ok::<PlanView, FailureView>(plan);
    let generation = choose|generation: Result<u32, FailureView>| #[trigger]
        opens(cache, size, generation) && match generation {
            Err(error) => made == Err::<PlanView, FailureView>(error),
            Ok(open) => plans_child(
                lookup,
                measure,
                cache,
                size,
                directions,
                trials,
                study_attrs,
                open,
                made,
            ),
        };
    let child = generation->Ok_0;
    let cached = choose|cached: Result<Option<(u32, Seq<u32>)>, FailureView>| #[trigger]
        restores(lookup, study_attrs, size, child, cached) && match cached {
            Err(error) => made == Err::<PlanView, FailureView>(error),
            Ok(known) => exists|parents: Result<ParentsView, FailureView>| #[trigger]
                breeds(measure, cache, size, directions, trials, child, known, parents) && made
                    == match parents {
                    Ok(found) => Ok::<PlanView, FailureView>(plan_for(child, found)),
                    Err(error) => Err::<PlanView, FailureView>(error),
                },
        };
    let known = cached->Ok_0;
    let parents = choose|parents: Result<ParentsView, FailureView>| #[trigger]
        breeds(measure, cache, size, directions, trials, child, known, parents) && made
            == match parents {
            Ok(found) => Ok::<PlanView, FailureView>(plan_for(child, found)),
            Err(error) => Err::<PlanView, FailureView>(error),
        };
    let found = parents->Ok_0;
    assert(plan == plan_for(child, found));
    if let Some((kept_generation, numbers)) = known {
        assert(latest_kept(lookup, study_attrs, size, child, kept_generation, Ok(Some(numbers))));
        lemma_decoded_size(lookup, study_attrs[parent_key(kept_generation)], size, numbers);
    }
    if !(known matches Some((kept_generation, _)) && kept_generation == child) {
        let first = first_missing(known);
        let line = choose|line: Seq<Seq<u32>>|
            {
                let next = first + line.len() - 1;
                &&& #[trigger] lineage(measure, cache, size, directions, trials, first, line)
                &&& line[0] == known_parents(known)
                &&& line.len() > 1 ==> next <= child + 1
                &&& found.numbers == line.last()
                &&& found.attrs == lineage_attrs(trials, first, line)
                &&& next > child || !cache.full((next - 1) as u32, size)
            };
        let next = first + line.len() - 1;
        assert(next > child) by {
            if next <= child {
                assert(cache.full((next - 1) as u32, size));
            }
        }
        assert(first <= child);
        lemma_lineage_sizes(
            measure,
            cache,
            size,
            directions,
            trials,
            first,
            line,
            line.len() - 1,
        );
        assert((first + line.len() - 2) as u32 == child);
    }
}

/// In a line of parent populations nobody occurs twice in one population, and all members come
/// from generations before the one that they are the parents of.
pub proof fn law_parents_come_from_earlier_generations<M: Fn(&Vec<Axis>, usize) -> Vec<Number>>(
    measure: M,
    cache: CacheView,
    size: nat,
    directions: Seq<Direction>,
    trials: Seq<Option<PersistedTrial>>,
    first: int,
    line: Seq<Seq<u32>>,
    k: int,
)
    requires
        lineage(measure, cache, size, directions, trials, first, line),
        indexes(cache, trials),
        1 <= first,
        first + line.len() - 2 <= u32::MAX,
        line[0].no_duplicates(),
        earlier(trials, line[0], first - 1),
        0 <= k < line.len(),
    ensures
        line[k].no_duplicates(),
        earlier(trials, line[k], first + k - 1),
    decreases k,
{
    if k >= 1 {
        law_parents_come_from_earlier_generations(
            measure,
            cache,
            size,
            directions,
            trials,
            first,
            line,
            k - 1,
        );
        let generation = (first + k - 2) as u32;
        let born = cache.numbers(generation);
        let pool = born + line[k - 1];
        assert(born.no_duplicates());
        assert(pool.no_duplicates()) by {
            assert forall|i: int, j: int| 0 <= i < j < pool.len() implies pool[i] != pool[j] by {
                if i < born.len() && j >= born.len() {
                    assert(born.contains(born[i]));
                    assert(line[k - 1].contains(line[k - 1][j - born.len()]));
                    assert(status_at(trials, pool[i]) == Status::Finished(Some(generation)));
                }
            }
        }
        assert(succeeds(measure, cache, size, directions, trials, first, line, k));
        law_selected_elite_fills_its_size(measure, directions, trials, pool, size, line[k]);
        lemma_selected(measure, directions, trials, pool, size, line[k]);
        assert forall|number: u32| #[trigger] line[k].contains(number) implies born_before(
            trials,
            number,
            first + k - 1,
        ) by {
            assert(pool.contains(number));
            let i = choose|i: int| 0 <= i < pool.len() && pool[i] == number;
            if i < born.len() {
                assert(born.contains(number));
            } else {
                assert(line[k - 1].contains(line[k - 1][i - born.len()]));
            }
        }
    }
}

/// Whether a trial is complete and belongs to a generation before the given one.
pub open spec fn born_before(
    trials: Seq<Option<PersistedTrial>>,
    number: u32,
    generation: int,
) -> bool {
    status_at(trials, number) matches Status::Finished(Some(own)) && own < generation
}

/// Whether all trials are complete and belong to generations before the given one.
pub open spec fn earlier(
    trials: Seq<Option<PersistedTrial>>,
    numbers: Seq<u32>,
    generation: int,
) -> bool {
    forall|number: u32| #[trigger]
        numbers.contains(number) ==> born_before(trials, number, generation)
}

/// Whether `lookup` finds the trials of a study by their IDs.
pub open spec fn faithful<F: Fn(u32) -> Result<Option<u32>, Failure>>(
    lookup: F,
    trials: Seq<Option<PersistedTrial>>,
    study_id: u32,
) -> bool {
    forall|number: u32, reply: Result<Option<u32>, FailureView>|
        trial_at(trials, number) is Some && #[trigger] replies(
            lookup,
            trial_at(trials, number)->0.id,
            reply,
        ) ==> reply == parent_number(Ok(trial_at(trials, number)->0), study_id)
}

/// What a plan writes down of the parents of its child can be recalled, by any sampler with the
/// same population size, as long as the parents are complete trials of the study with IDs of
/// their own.
pub proof fn law_written_parents_can_be_recalled<F: Fn(u32) -> Result<Option<u32>, Failure>>(
    lookup: F,
    trials: Seq<Option<PersistedTrial>>,
    study_id: u32,
    study_attrs: Map<AttrKeyView, Seq<char>>,
    plan: PlanView,
)
    requires
        plan.child_generation >= 1,
        writes_parents(trials, plan),
        plan.study_attrs.submap_of(study_attrs),
        plan.parents.no_duplicates(),
        faithful(lookup, trials, study_id),
        forall|k: int|
            0 <= k < plan.parents.len() ==> {
                let trial = trial_at(trials, #[trigger] plan.parents[k])->0;
                &&& trial.number == plan.parents[k]
                &&& trial.study_id == study_id
                &&& trial.state_values is Complete
            },
        forall|i: int, j: int|
            0 <= i < j < plan.parents.len() ==> trial_at(trials, #[trigger] plan.parents[i])->0.id
                != trial_at(trials, #[trigger] plan.parents[j])->0.id,
    ensures
        recallable(
            lookup,
            study_attrs,
            plan.parents.len(),
            plan.child_generation,
            ids_of(trials, plan.parents),
            plan.parents,
        ),
{
    let ids = ids_of(trials, plan.parents);
    let key = parent_key(plan.child_generation);
    assert(study_attrs.contains_key(key));
    assert(study_attrs[key] == plan.study_attrs[key]);
    assert forall|i: int, j: int| 0 <= i < j < ids.len() implies ids[i] != ids[j] by {
        assert(ids[i] == trial_at(trials, plan.parents[i])->0.id);
        assert(ids[j] == trial_at(trials, plan.parents[j])->0.id);
    }
    assert(answers(lookup, ids, plan.parents)) by {
        assert forall|k: int, reply: Result<Option<u32>, FailureView>|
            0 <= k < ids.len() && #[trigger] replies(lookup, ids[k], reply) implies reply == Ok::<
            Option<u32>,
            FailureView,
        >(Some(plan.parents[k])) by {
            let number = plan.parents[k];
            assert(trial_at(trials, number) is Some);
            assert(ids[k] == trial_at(trials, number)->0.id);
            assert(replies(lookup, trial_at(trials, number)->0.id, reply));
        }
    }
}

/// Whether the trials are those of one study, each at the position that its number says and with
/// an ID of its own.
pub open spec fn orderly(trials: Seq<Option<PersistedTrial>>, study_id: u32) -> bool {
    &&& in_place(trials)
    &&& forall|number: u32|
        (#[trigger] trial_at(trials, number)) matches Some(trial) ==> trial.study_id == study_id
    &&& forall|m: u32, n: u32|
        m != n && (#[trigger] trial_at(trials, m)) is Some && (#[trigger] trial_at(trials, n)) is Some
            ==> trial_at(trials, m)->0.id != trial_at(trials, n)->0.id
}

/// Whether a number is that of a complete trial of the study.
pub open spec fn complete_in(
    trials: Seq<Option<PersistedTrial>>,
    study_id: u32,
    number: u32,
) -> bool {
    trial_at(trials, number) matches Some(trial) && trial.study_id == study_id
        && trial.state_values is Complete
}

/// Whether every number that `lookup` finds is that of a complete trial of the study with the ID
/// that was looked up.
pub open spec fn truthful<F: Fn(u32) -> Result<Option<u32>, Failure>>(
    lookup: F,
    trials: Seq<Option<PersistedTrial>>,
    study_id: u32,
) -> bool {
    forall|id: u32, number: u32| #[trigger]
        replies(lookup, id, Ok(Some(number))) ==> complete_in(trials, study_id, number) && trial_at(
            trials,
            number,
        )->0.id == id
}

/// Whether a study keeps, for a generation, `size` different IDs: those of the given trials, which
/// are complete trials of the study.
pub open spec fn holds_parents(
    trials: Seq<Option<PersistedTrial>>,
    study_id: u32,
    size: nat,
    study_attrs: Map<AttrKeyView, Seq<char>>,
    generation: u32,
    numbers: Seq<u32>,
) -> bool {
    &&& study_attrs.contains_key(parent_key(generation))
    &&& read_array(study_attrs[parent_key(generation)]) == Ok::<Seq<u32>, Seq<char>>(
        ids_of(trials, numbers),
    )
    &&& numbers.len() == size
    &&& ids_of(trials, numbers).no_duplicates()
    &&& forall|k: int| 0 <= k < numbers.len() ==> complete_in(trials, study_id, #[trigger] numbers[k])
}

/// Whether what a study keeps is what a sampler keeps there: parents that are not stale come from
/// generations before the one that they are the parents of.
pub open spec fn own_parents(
    trials: Seq<Option<PersistedTrial>>,
    study_id: u32,
    size: nat,
    study_attrs: Map<AttrKeyView, Seq<char>>,
) -> bool {
    forall|generation: u32, numbers: Seq<u32>|
        generation >= 1 && #[trigger] holds_parents(
            trials,
            study_id,
            size,
            study_attrs,
            generation,
            numbers,
        ) ==> earlier(trials, numbers, generation as int)
}

/// The study attributes once those of a plan are set.
pub open spec fn kept_after(study_attrs: Map<AttrKeyView, Seq<char>>, plan: PlanView) -> Map<
    AttrKeyView,
    Seq<char>,
> {
    study_attrs.union_prefer_right(plan.study_attrs)
}

/// Whether a plan sets nothing of the study but parents, of generations up to that of its child.
pub open spec fn sets_parents_only(plan: PlanView) -> bool {
    forall|key: AttrKeyView| #[trigger]
        plan.study_attrs.contains_key(key) ==> exists|generation: u32|
            1 <= generation <= plan.child_generation && key == #[trigger] parent_key(generation)
}

/// Whether trials keep their IDs and their study.
pub open spec fn same_ids(
    before: Seq<Option<PersistedTrial>>,
    after: Seq<Option<PersistedTrial>>,
) -> bool {
    forall|number: u32|
        (#[trigger] trial_at(before, number)) is Some && trial_at(after, number) is Some ==> {
            &&& trial_at(after, number)->0.id == trial_at(before, number)->0.id
            &&& trial_at(after, number)->0.study_id == trial_at(before, number)->0.study_id
        }
}

/// Parents that a study keeps stay what they are as trials move on.
pub proof fn law_kept_parents_stay_as_trials_move_on(
    before: Seq<Option<PersistedTrial>>,
    after: Seq<Option<PersistedTrial>>,
    study_id: u32,
    size: nat,
    study_attrs: Map<AttrKeyView, Seq<char>>,
    generation: u32,
    numbers: Seq<u32>,
)
    requires
        moves_on(before, after),
        same_ids(before, after),
        holds_parents(before, study_id, size, study_attrs, generation, numbers),
        earlier(before, numbers, generation as int),
    ensures
        holds_parents(after, study_id, size, study_attrs, generation, numbers),
        earlier(after, numbers, generation as int),
{
    assert forall|number: u32| #[trigger] numbers.contains(number) implies born_before(
        after,
        number,
        generation as int,
    ) && complete_in(after, study_id, number) && trial_at(after, number)->0.id == trial_at(
        before,
        number,
    )->0.id by {
        let k = choose|k: int| 0 <= k < numbers.len() && numbers[k] == number;
        assert(complete_in(before, study_id, numbers[k]));
        assert(born_before(before, number, generation as int));
        assert(status_at(after, number) == status_at(before, number));
    }
    assert forall|k: int| 0 <= k < numbers.len() implies complete_in(
        after,
        study_id,
        #[trigger] numbers[k],
    ) && ids_of(after, numbers)[k] == ids_of(before, numbers)[k] by {
        assert(numbers.contains(numbers[k]));
    }
    assert(ids_of(after, numbers) =~= ids_of(before, numbers));
}

proof fn lemma_ids_tell_trials_apart(
    trials: Seq<Option<PersistedTrial>>,
    study_id: u32,
    a: Seq<u32>,
    b: Seq<u32>,
)
    requires
        orderly(trials, study_id),
        all_present(trials, a),
        all_present(trials, b),
        ids_of(trials, a) == ids_of(trials, b),
    ensures
        a == b,
{
    assert(a.len() == ids_of(trials, a).len());
    assert(b.len() == ids_of(trials, b).len());
    assert forall|k: int| 0 <= k < a.len() implies a[k] == b[k] by {
        assert(ids_of(trials, a)[k] == trial_at(trials, a[k])->0.id);
        assert(ids_of(trials, b)[k] == trial_at(trials, b[k])->0.id);
        assert(trial_at(trials, a[k]) is Some);
        assert(trial_at(trials, b[k]) is Some);
    }
    assert(a =~= b);
}

/// What a study is to keep of a line of parent populations: one text for each but the first.
pub proof fn lemma_lineage_attrs(
    trials: Seq<Option<PersistedTrial>>,
    first: int,
    line: Seq<Seq<u32>>,
)
    requires
        1 <= first,
        first + line.len() - 2 <= u32::MAX,
    ensures
        forall|key: AttrKeyView| #[trigger]
            lineage_attrs(trials, first, line).contains_key(key) ==> exists|generation: u32|
                first <= generation < first + line.len() - 1 && key == #[trigger] parent_key(
                    generation,
                ),
        forall|generation: u32|
            first <= generation < first + line.len() - 1 ==> {
                &&& lineage_attrs(trials, first, line).contains_key(#[trigger] parent_key(generation))
                &&& lineage_attrs(trials, first, line)[parent_key(generation)] == json_array(
                    ids_of(trials, line[generation - first + 1]),
                )
            },
    decreases line.len(),
{
    if line.len() > 1 {
        let shorter = line.drop_last();
        let last = (first + line.len() - 2) as u32;
        let earlier_attrs = lineage_attrs(trials, first, shorter);
        let attrs = lineage_attrs(trials, first, line);
        lemma_lineage_attrs(trials, first, shorter);
        assert forall|key: AttrKeyView| #[trigger] attrs.contains_key(key) implies exists|
            generation: u32,
        |
            first <= generation < first + line.len() - 1 && key == #[trigger] parent_key(
                generation,
            ) by {
            if key == parent_key(last) {
            } else {
                assert(earlier_attrs.contains_key(key));
            }
        }
        assert forall|generation: u32| first <= generation < first + line.len() - 1 implies {
            &&& attrs.contains_key(#[trigger] parent_key(generation))
            &&& attrs[parent_key(generation)] == json_array(
                ids_of(trials, line[generation - first + 1]),
            )
        } by {
            if generation != last {
                if parent_key(generation) == parent_key(last) {
                    law_parent_keys_differ(generation, last);
                }
                assert(earlier_attrs.contains_key(parent_key(generation)));
                assert(shorter[generation - first + 1] == line[generation - first + 1]);
            }
        }
    }
}

proof fn lemma_restored_parents<F: Fn(u32) -> Result<Option<u32>, Failure>>(
    lookup: F,
    trials: Seq<Option<PersistedTrial>>,
    study_id: u32,
    size: nat,
    study_attrs: Map<AttrKeyView, Seq<char>>,
    generation: u32,
    numbers: Seq<u32>,
)
    requires
        truthful(lookup, trials, study_id),
        study_attrs.contains_key(parent_key(generation)),
        decodes(lookup, study_attrs[parent_key(generation)], size, Ok(Some(numbers))),
    ensures
        holds_parents(trials, study_id, size, study_attrs, generation, numbers),
        numbers.no_duplicates(),
{
    let encoded = study_attrs[parent_key(generation)];
    lemma_decoded_size(lookup, encoded, size, numbers);
    let ids = read_array(encoded)->Ok_0;
    assert(resolves(lookup, ids, Ok(Some(numbers))));
    assert forall|k: int| 0 <= k < numbers.len() implies complete_in(
        trials,
        study_id,
        #[trigger] numbers[k],
    ) && trial_at(trials, numbers[k])->0.id == ids[k] by {
        assert(replies(lookup, ids[k], Ok(Some(numbers[k]))));
    }
    assert(ids_of(trials, numbers) =~= ids);
    assert forall|i: int, j: int| 0 <= i < j < numbers.len() implies numbers[i] != numbers[j] by {
        assert(ids[i] != ids[j]);
    }
}

proof fn lemma_written_parents(
    trials: Seq<Option<PersistedTrial>>,
    study_id: u32,
    study_attrs: Map<AttrKeyView, Seq<char>>,
    generation: u32,
    numbers: Seq<u32>,
)
    requires
        orderly(trials, study_id),
        study_attrs.contains_key(parent_key(generation)),
        study_attrs[parent_key(generation)] == json_array(ids_of(trials, numbers)),
        reads_back(ids_of(trials, numbers)),
        numbers.no_duplicates(),
        earlier(trials, numbers, generation as int),
    ensures
        holds_parents(trials, study_id, numbers.len(), study_attrs, generation, numbers),
{
    assert forall|k: int| 0 <= k < numbers.len() implies complete_in(
        trials,
        study_id,
        #[trigger] numbers[k],
    ) by {
        assert(numbers.contains(numbers[k]));
        assert(born_before(trials, numbers[k], generation as int));
    }
    let ids = ids_of(trials, numbers);
    assert forall|i: int, j: int| 0 <= i < j < ids.len() implies ids[i] != ids[j] by {
        assert(complete_in(trials, study_id, numbers[i]));
        assert(complete_in(trials, study_id, numbers[j]));
        assert(trial_at(trials, numbers[i]) is Some && trial_at(trials, numbers[j]) is Some);
    }
}

/// After a plan for a child of any generation but the first, the study keeps the IDs of as many
/// different complete trials of its own as a population has members: the parents of the child.
///
/// The plan has the generation of the child for its trial, in decimal digits. It sets nothing of
/// the study but parents, and what the study keeps then is again what a sampler keeps there.
pub proof fn law_study_keeps_the_parents_of_a_child<
    F: Fn(u32) -> Result<Option<u32>, Failure>,
    M: Fn(&Vec<Axis>, usize) -> Vec<Number>,
>(
    lookup: F,
    measure: M,
    cache: CacheView,
    size: nat,
    directions: Seq<Direction>,
    trials: Seq<Option<PersistedTrial>>,
    study_id: u32,
    study_attrs: Map<AttrKeyView, Seq<char>>,
    plan: PlanView,
)
    requires
        plans(lookup, measure, cache, size, directions, trials, study_attrs, Ok(plan)),
        indexes(cache, trials),
        orderly(trials, study_id),
        truthful(lookup, trials, study_id),
        own_parents(trials, study_id, size, study_attrs),
    ensures
        opens(cache, size, Ok(plan.child_generation)),
        plan.trial_attrs == map![generation_key() => decimal(plan.child_generation as nat)],
        plan.child_generation >= 1 ==> holds_parents(
            trials,
            study_id,
            size,
            kept_after(study_attrs, plan),
            plan.child_generation,
            plan.parents,
        ),
        plan.child_generation >= 1 ==> earlier(
            trials,
            plan.parents,
            plan.child_generation as int,
        ),
        sets_parents_only(plan),
        own_parents(trials, study_id, size, kept_after(study_attrs, plan)),
{
    let made = Ok::<PlanView, FailureView>(plan);
    let kept = kept_after(study_attrs, plan);
    let open = lemma_open(lookup, measure, cache, size, directions, trials, study_attrs, made);
    let child = open->Ok_0;
    let (cached, parents) = lemma_child(
        lookup,
        measure,
        cache,
        size,
        directions,
        trials,
        study_attrs,
        child,
        made,
    );
    let known = cached->Ok_0;
    let found = parents->Ok_0;
    assert(plan == plan_for(child, found));
    if let Some((generation, numbers)) = known {
        assert(latest_kept(lookup, study_attrs, size, child, generation, Ok(Some(numbers))));
        lemma_restored_parents(
            lookup,
            trials,
            study_id,
            size,
            study_attrs,
            generation,
            numbers,
        );
    }
    if child == 0 || (known matches Some((generation, _)) && generation == child) {
        assert(kept =~= study_attrs);
    } else {
        lemma_new_parents_are_kept(
            measure,
            cache,
            size,
            directions,
            trials,
            study_id,
            study_attrs,
            known,
            plan,
        );
    }
}

proof fn lemma_new_parents_are_kept<M: Fn(&Vec<Axis>, usize) -> Vec<Number>>(
    measure: M,
    cache: CacheView,
    size: nat,
    directions: Seq<Direction>,
    trials: Seq<Option<PersistedTrial>>,
    study_id: u32,
    study_attrs: Map<AttrKeyView, Seq<char>>,
    known: Option<(u32, Seq<u32>)>,
    plan: PlanView,
)
    requires
        indexes(cache, trials),
        orderly(trials, study_id),
        own_parents(trials, study_id, size, study_attrs),
        opens(cache, size, Ok(plan.child_generation)),
        plan.child_generation >= 1,
        known matches Some((generation, numbers)) ==> 1 <= generation < plan.child_generation
            && holds_parents(trials, study_id, size, study_attrs, generation, numbers)
            && numbers.no_duplicates(),
        breeds(
            measure,
            cache,
            size,
            directions,
            trials,
            plan.child_generation,
            known,
            Ok(ParentsView { numbers: plan.parents, attrs: plan.study_attrs }),
        ),
    ensures
        holds_parents(
            trials,
            study_id,
            size,
            kept_after(study_attrs, plan),
            plan.child_generation,
            plan.parents,
        ),
        earlier(trials, plan.parents, plan.child_generation as int),
        sets_parents_only(plan),
        own_parents(trials, study_id, size, kept_after(study_attrs, plan)),
{
    let child = plan.child_generation;
    let kept = kept_after(study_attrs, plan);
    let first = first_missing(known);
    let line = choose|line: Seq<Seq<u32>>|
        {
            let next = first + line.len() - 1;
            &&& #[trigger] lineage(measure, cache, size, directions, trials, first, line)
            &&& line[0] == known_parents(known)
            &&& line.len() > 1 ==> next <= child + 1
            &&& plan.parents == line.last()
            &&& plan.study_attrs == lineage_attrs(trials, first, line)
            &&& next > child || !cache.full((next - 1) as u32, size)
        };
    let next = first + line.len() - 1;
    assert(next == child + 1) by {
        if next <= child {
            assert(cache.full((next - 1) as u32, size));
        }
    }
    lemma_lineage_attrs(trials, first, line);
    assert forall|k: int| 0 <= k < line.len() implies {
        &&& (#[trigger] line[k]).no_duplicates()
        &&& earlier(trials, line[k], first + k - 1)
        &&& k >= 1 ==> line[k].len() == size && all_present(trials, line[k]) && reads_back(
            ids_of(trials, line[k]),
        )
    } by {
        law_parents_come_from_earlier_generations(
            measure,
            cache,
            size,
            directions,
            trials,
            first,
            line,
            k,
        );
        if k >= 1 {
            lemma_lineage_sizes(measure, cache, size, directions, trials, first, line, k);
            assert(succeeds(measure, cache, size, directions, trials, first, line, k));
        }
    }
    assert(plan.study_attrs.contains_key(parent_key(child)));
    assert(plan.parents == line[line.len() - 1]);
    lemma_written_parents(trials, study_id, kept, child, plan.parents);
    assert forall|generation: u32, numbers: Seq<u32>|
        generation >= 1 && #[trigger] holds_parents(
            trials,
            study_id,
            size,
            kept,
            generation,
            numbers,
        ) implies earlier(trials, numbers, generation as int) by {
        let key = parent_key(generation);
        if plan.study_attrs.contains_key(key) {
            let own = choose|own: u32|
                first <= own < first + line.len() - 1 && key == #[trigger] parent_key(own);
            law_parent_keys_differ(generation, own);
            let k = generation - first + 1;
            assert(kept[key] == json_array(ids_of(trials, line[k])));
            assert(reads_back(ids_of(trials, line[k])));
            assert(all_present(trials, numbers)) by {
                assert forall|i: int| 0 <= i < numbers.len() implies trial_at(
                    trials,
                    #[trigger] numbers[i],
                ) is Some by {
                    assert(complete_in(trials, study_id, numbers[i]));
                }
            }
            lemma_ids_tell_trials_apart(trials, study_id, numbers, line[k]);
            assert(earlier(trials, line[k], first + k - 1));
        } else {
            assert(holds_parents(trials, study_id, size, study_attrs, generation, numbers));
        }
    }
}

/// Resuming from a generation that a full run wrote down gives the parents of the full run, and
/// writes what the full run wrote for the generations after it.
pub proof fn law_resuming_from_a_written_generation<M: Fn(&Vec<Axis>, usize) -> Vec<Number>>(
    measure: M,
    cache: CacheView,
    size: nat,
    directions: Seq<Direction>,
    trials: Seq<Option<PersistedTrial>>,
    study_id: u32,
    written_generation: u32,
    child_generation: u32,
    numbers: Seq<u32>,
    anew: ParentsView,
    resumed: Result<ParentsView, FailureView>,
)
    requires
        steady_measure(measure),
        orderly(trials, study_id),
        1 <= written_generation < child_generation,
        forall|generation: u32|
            generation < child_generation ==> #[trigger] cache.full(generation, size),
        breeds(measure, cache, size, directions, trials, child_generation, None, Ok(anew)),
        all_present(trials, numbers),
        anew.attrs.contains_key(parent_key(written_generation)),
        read_array(anew.attrs[parent_key(written_generation)]) == Ok::<Seq<u32>, Seq<char>>(
            ids_of(trials, numbers),
        ),
        breeds(
            measure,
            cache,
            size,
            directions,
            trials,
            child_generation,
            Some((written_generation, numbers)),
            resumed,
        ),
    ensures
        resumed == Ok::<ParentsView, FailureView>(
            ParentsView {
                numbers: anew.numbers,
                attrs: anew.attrs.restrict(parent_keys(written_generation, child_generation)),
            },
        ),
{
    let g = written_generation;
    let line = choose|line: Seq<Seq<u32>>|
        {
            let next = 1 + line.len() - 1;
            &&& #[trigger] lineage(measure, cache, size, directions, trials, 1, line)
            &&& line[0] == Seq::<u32>::empty()
            &&& line.len() > 1 ==> next <= child_generation + 1
            &&& anew.numbers == line.last()
            &&& anew.attrs == lineage_attrs(trials, 1, line)
            &&& next > child_generation || !cache.full((next - 1) as u32, size)
        };
    assert(line.len() == child_generation + 1) by {
        if line.len() <= child_generation {
            assert(cache.full((line.len() - 1) as u32, size));
        }
    }
    lemma_lineage_attrs(trials, 1, line);
    lemma_lineage_sizes(measure, cache, size, directions, trials, 1, line, g as int);
    assert(succeeds(measure, cache, size, directions, trials, 1, line, g as int));
    assert(anew.attrs[parent_key(g)] == json_array(ids_of(trials, line[g - 1 + 1])));
    lemma_ids_tell_trials_apart(trials, study_id, numbers, line[g as int]);
    let early = line.take(g + 1);
    assert forall|k: int| 1 <= k < early.len() implies #[trigger] succeeds(
        measure,
        cache,
        size,
        directions,
        trials,
        1,
        early,
        k,
    ) by {
        assert(succeeds(measure, cache, size, directions, trials, 1, line, k));
        assert(early[k] == line[k]);
        assert(early[k - 1] == line[k - 1]);
    }
    let kept = ParentsView { numbers, attrs: lineage_attrs(trials, 1, early) };
    assert(lineage(measure, cache, size, directions, trials, 1, early));
    assert(early.last() == line[g as int]);
    assert(early[0] == line[0]);
    assert(breeds(measure, cache, size, directions, trials, g, None, Ok(kept)));
    law_resuming_gives_the_same_parents(
        measure,
        cache,
        size,
        directions,
        trials,
        g,
        child_generation,
        kept,
        Ok(anew),
        resumed,
    );
}

/// How parents are worked out, generation by generation: the parents of each generation after the
/// kept one are selected from the members of the generation before it together with its parents, up
/// to the generation of the child or as long as the generation before is full. The study is to keep
/// the parents of each of these generations, and nothing else.
pub proof fn law_parents_are_selected_from_members_and_parents<
    M: Fn(&Vec<Axis>, usize) -> Vec<Number>,
>(
    measure: M,
    cache: CacheView,
    size: nat,
    directions: Seq<Direction>,
    trials: Seq<Option<PersistedTrial>>,
    child_generation: u32,
    kept_generation: u32,
    kept: Seq<u32>,
    parents: ParentsView,
)
    requires
        kept_generation < child_generation,
        kept_generation == 0 ==> kept == Seq::<u32>::empty(),
        breeds(
            measure,
            cache,
            size,
            directions,
            trials,
            child_generation,
            if kept_generation == 0 {
                None
            } else {
                Some((kept_generation, kept))
            },
            Ok(parents),
        ),
    ensures
        exists|line: Seq<Seq<u32>>|
            {
                let reached = kept_generation + line.len() - 1;
                &&& kept_generation <= reached <= child_generation
                &&& reached < child_generation ==> !cache.full(reached as u32, size)
                &&& #[trigger] line[0] == kept
                &&& line.last() == parents.numbers
                &&& forall|generation: u32|
                    kept_generation < generation <= reached ==> {
                        let k = generation - kept_generation;
                        &&& cache.full((generation - 1) as u32, size)
                        &&& selects(
                            measure,
                            directions,
                            trials,
                            cache.numbers((generation - 1) as u32) + line[k - 1],
                            size,
                            Ok(line[k]),
                        )
                        &&& parents.attrs.contains_key(#[trigger] parent_key(generation))
                        &&& parents.attrs[parent_key(generation)] == json_array(
                            ids_of(trials, line[k]),
                        )
                    }
                &&& forall|key: AttrKeyView| #[trigger]
                    parents.attrs.contains_key(key) ==> exists|generation: u32|
                        kept_generation < generation <= reached && key == #[trigger] parent_key(
                            generation,
                        )
            },
{
    let line = lemma_bred_line(
        measure,
        cache,
        size,
        directions,
        trials,
        child_generation,
        kept_generation,
        kept,
        parents,
    );
    let reached = kept_generation + line.len() - 1;
    assert(line[0] == kept);
    assert forall|generation: u32| kept_generation < generation <= reached implies {
        let k = generation - kept_generation;
        &&& cache.full((generation - 1) as u32, size)
        &&& selects(
            measure,
            directions,
            trials,
            cache.numbers((generation - 1) as u32) + line[k - 1],
            size,
            Ok(line[k]),
        )
        &&& parents.attrs.contains_key(#[trigger] parent_key(generation))
        &&& parents.attrs[parent_key(generation)] == json_array(ids_of(trials, line[k]))
    } by {
        lemma_bred_generation(
            measure,
            cache,
            size,
            directions,
            trials,
            kept_generation,
            line,
            generation,
        );
    }
    assert forall|key: AttrKeyView| #[trigger] parents.attrs.contains_key(key) implies exists|
        generation: u32,
    |
        kept_generation < generation <= reached && key == #[trigger] parent_key(generation) by {
        lemma_lineage_attrs(trials, kept_generation + 1, line);
        let generation = choose|generation: u32|
            kept_generation + 1 <= generation < kept_generation + 1 + line.len() - 1 && key
                == #[trigger] parent_key(generation);
        assert(kept_generation < generation <= reached && key == parent_key(generation));
    }
}

proof fn lemma_bred_line<M: Fn(&Vec<Axis>, usize) -> Vec<Number>>(
    measure: M,
    cache: CacheView,
    size: nat,
    directions: Seq<Direction>,
    trials: Seq<Option<PersistedTrial>>,
    child_generation: u32,
    kept_generation: u32,
    kept: Seq<u32>,
    parents: ParentsView,
) -> (line: Seq<Seq<u32>>)
    requires
        kept_generation < child_generation,
        kept_generation == 0 ==> kept == Seq::<u32>::empty(),
        breeds(
            measure,
            cache,
            size,
            directions,
            trials,
            child_generation,
            if kept_generation == 0 {
                None
            } else {
                Some((kept_generation, kept))
            },
            Ok(parents),
        ),
    ensures
        line.len() >= 1,
        lineage(measure, cache, size, directions, trials, kept_generation + 1, line),
        line[0] == kept,
        parents.numbers == line.last(),
        parents.attrs == lineage_attrs(trials, kept_generation + 1, line),
        kept_generation + line.len() - 1 <= child_generation,
        kept_generation + line.len() - 1 == child_generation || !cache.full(
            (kept_generation + line.len() - 1) as u32,
            size,
        ),
{
    let cached: Option<(u32, Seq<u32>)> = if kept_generation == 0 {
        None
    } else {
        Some((kept_generation, kept))
    };
    let first = first_missing(cached);
    assert(first == kept_generation + 1);
    choose|line: Seq<Seq<u32>>|
        {
            let next = first + line.len() - 1;
            &&& #[trigger] lineage(measure, cache, size, directions, trials, first, line)
            &&& line[0] == known_parents(cached)
            &&& line.len() > 1 ==> next <= child_generation + 1
            &&& parents.numbers == line.last()
            &&& parents.attrs == lineage_attrs(trials, first, line)
            &&& next > child_generation || !cache.full((next - 1) as u32, size)
        }
}

proof fn lemma_bred_generation<M: Fn(&Vec<Axis>, usize) -> Vec<Number>>(
    measure: M,
    cache: CacheView,
    size: nat,
    directions: Seq<Direction>,
    trials: Seq<Option<PersistedTrial>>,
    kept_generation: u32,
    line: Seq<Seq<u32>>,
    generation: u32,
)
    requires
        lineage(measure, cache, size, directions, trials, kept_generation + 1, line),
        kept_generation < generation <= kept_generation + line.len() - 1,
        kept_generation + line.len() - 1 <= u32::MAX,
    ensures
        ({
            let k = generation - kept_generation;
            let attrs = lineage_attrs(trials, kept_generation + 1, line);
            &&& cache.full((generation - 1) as u32, size)
            &&& selects(
                measure,
                directions,
                trials,
                cache.numbers((generation - 1) as u32) + line[k - 1],
                size,
                Ok(line[k]),
            )
            &&& attrs.contains_key(parent_key(generation))
            &&& attrs[parent_key(generation)] == json_array(ids_of(trials, line[k]))
        }),
{
    let k = generation - kept_generation;
    assert(succeeds(measure, cache, size, directions, trials, kept_generation + 1, line, k));
    lemma_lineage_attrs(trials, kept_generation + 1, line);
    assert(generation - (kept_generation + 1) + 1 == k);
}

/// Where parents are not worked out anew: a child of generation 0 has none, and those that are kept
/// for the generation of the child are its parents. Nothing is written then.
pub proof fn law_kept_parents_are_taken_as_they_are<M: Fn(&Vec<Axis>, usize) -> Vec<Number>>(
    measure: M,
    cache: CacheView,
    size: nat,
    directions: Seq<Direction>,
    trials: Seq<Option<PersistedTrial>>,
    child_generation: u32,
    cached: Option<(u32, Seq<u32>)>,
    parents: Result<ParentsView, FailureView>,
)
    requires
        breeds(measure, cache, size, directions, trials, child_generation, cached, parents),
    ensures
        child_generation == 0 ==> {
            &&& parents matches Ok(found)
            &&& found.numbers == Seq::<u32>::empty()
            &&& found.attrs == Map::<AttrKeyView, Seq<char>>::empty()
        },
        match cached {
            Some((generation, numbers)) => generation == child_generation && child_generation > 0
                ==> {
                &&& parents matches Ok(found)
                &&& found.numbers == numbers
                &&& found.attrs == Map::<AttrKeyView, Seq<char>>::empty()
            },
            None => true,
        },
{
}

/// Working parents out fails only where a selection does, and with its error: that of a generation
/// after the kept one, from its members together with parents that were worked out before.
pub proof fn law_parents_are_missing_where_a_selection_fails<
    M: Fn(&Vec<Axis>, usize) -> Vec<Number>,
>(
    measure: M,
    cache: CacheView,
    size: nat,
    directions: Seq<Direction>,
    trials: Seq<Option<PersistedTrial>>,
    child_generation: u32,
    cached: Option<(u32, Seq<u32>)>,
    error: FailureView,
)
    requires
        breeds(measure, cache, size, directions, trials, child_generation, cached, Err(error)),
    ensures
        child_generation > 0,
        exists|generation: u32, before: Seq<u32>|
            {
                &&& generation < child_generation
                &&& (cached matches Some((kept, _)) ==> kept <= generation)
                &&& cache.full(generation, size)
                &&& #[trigger] selects(
                    measure,
                    directions,
                    trials,
                    cache.numbers(generation) + before,
                    size,
                    Err(error),
                )
            },
{
    let first = first_missing(cached);
    let line = choose|line: Seq<Seq<u32>>|
        {
            let next = first + line.len() - 1;
            &&& #[trigger] lineage(measure, cache, size, directions, trials, first, line)
            &&& line[0] == known_parents(cached)
            &&& line.len() > 1 ==> next <= child_generation + 1
            &&& next <= child_generation
            &&& cache.full((next - 1) as u32, size)
            &&& selects(
                measure,
                directions,
                trials,
                cache.numbers((next - 1) as u32) + line.last(),
                size,
                Err(error),
            )
        };
    let generation = (first + line.len() - 2) as u32;
    assert(selects(
        measure,
        directions,
        trials,
        cache.numbers(generation) + line.last(),
        size,
        Err(error),
    ));
}

} // verus!
