use crate::attr::AttrKey;
use crate::attr::AttrKeyView;
use crate::attr::Attrs;
use crate::crowding::sound_measure;
use crate::crowding::Axis;
use crate::elite::lemma_selected;
use crate::elite::select_elite_population_numbers;
use crate::elite::selects;
use crate::error::error_because;
use crate::error::outcome;
use crate::error::plain_error;
use crate::error::ErrorKind;
use crate::error::Failure;
use crate::error::FailureView;
use crate::generation::CacheView;
use crate::generation::GenerationIndexCache;
use crate::json::describe;
use crate::json::json_array;
use crate::json::read_array;
use crate::json::read_ids;
use crate::json::reads_back;
use crate::json::write_ids;
use crate::number::Number;
use crate::population::all_present;
use crate::text::decimal;
use crate::text::to_decimal;
use crate::trial::find_trial;
use crate::trial::trial_at;
use crate::trial::Context;
use crate::trial::Direction;
use crate::trial::PersistedTrial;
use crate::trial::TrialStateValues;
use std::collections::HashSet;
use vstd::prelude::*;
use vstd::string::*;

verus! {

/// The key of the study attribute that holds the parents of a generation.
pub open spec fn parent_key(generation: u32) -> AttrKeyView {
    AttrKeyView::System("NSGAIISampler:parent:"@ + decimal(generation as nat))
}

/// The keys for the generations after `earlier` up to `last`.
pub open spec fn parent_keys(earlier: u32, last: u32) -> Set<AttrKeyView> {
    Set::new(
        |key: AttrKeyView|
            exists|generation: u32|
                earlier < generation <= last && key == #[trigger] parent_key(generation),
    )
}

/// The IDs of the trials with the given numbers.
pub open spec fn ids_of(trials: Seq<Option<PersistedTrial>>, numbers: Seq<u32>) -> Seq<u32> {
    numbers.map_values(|number: u32| trial_at(trials, number)->0.id)
}

/// Builds the study-attribute key under which the parents of `generation` are kept.
pub fn parent_cache_key(generation: u32) -> (key: AttrKey)
    ensures
        key@ == parent_key(generation),
{
    let mut name = String::from_str("NSGAIISampler:parent:");
    name.append(to_decimal(generation).as_str());
    AttrKey::System(name)
}

/// Writes trial numbers as a JSON array of trial IDs.
pub fn encode_parent_trial_ids(
    trials: &[Option<PersistedTrial>],
    population_numbers: &[u32],
) -> (encoded: Result<String, Failure>)
    ensures
        outcome(encoded) == if all_present(trials@, population_numbers@) {
            Ok::<Seq<char>, FailureView>(json_array(ids_of(trials@, population_numbers@)))
        } else {
            Err::<Seq<char>, FailureView>(plain_error(ErrorKind::TrialDiscarded))
        },
        encoded is Ok ==> reads_back(ids_of(trials@, population_numbers@)),
{
    let mut ids: Vec<u32> = Vec::new();
    for k in 0..population_numbers.len()
        invariant
            ids@.len() == k,
            forall|i: int|
                0 <= i < k ==> trial_at(trials@, #[trigger] population_numbers@[i]) is Some,
            forall|i: int|
                0 <= i < k ==> #[trigger] ids@[i] == ids_of(trials@, population_numbers@)[i],
    {
        match find_trial(trials, population_numbers[k]) {
            Some(trial) => ids.push(trial.id),
            None => {
                assert(trial_at(trials@, population_numbers@[k as int]) is None);
                return Err(Failure::new(ErrorKind::TrialDiscarded));
            },
        }
    }
    assert(ids@ =~= ids_of(trials@, population_numbers@));
    match write_ids(&ids) {
        Ok(text) => Ok(text),
        Err(error) => {
            let mut reason = String::from_str("Failed to encode NSGA-II parent cache: ");
            reason.append(describe(&error).as_str());
            Err(Failure::with_reason(ErrorKind::Unexpected, reason))
        },
    }
}

/// The value of what a lookup gives.
pub open spec fn reply_view(reply: Result<Option<u32>, Failure>) -> Result<
    Option<u32>,
    FailureView,
> {
    match reply {
        Ok(found) => Ok(found),
        Err(error) => Err(error@),
    }
}

/// Whether `lookup` may give `reply` for a trial ID.
pub open spec fn replies<F: Fn(u32) -> Result<Option<u32>, Failure>>(
    lookup: F,
    id: u32,
    reply: Result<Option<u32>, FailureView>,
) -> bool {
    exists|given: Result<Option<u32>, Failure>| #[trigger]
        lookup.ensures((id,), given) && reply_view(given) == reply
}

/// Whether `lookup` finds a number for a trial ID.
pub open spec fn finds<F: Fn(u32) -> Result<Option<u32>, Failure>>(lookup: F, id: u32) -> bool {
    exists|number: u32| #[trigger] replies(lookup, id, Ok(Some(number)))
}

/// Whether `lookup` finds a number for each of the first `count` IDs.
pub open spec fn found_up_to<F: Fn(u32) -> Result<Option<u32>, Failure>>(
    lookup: F,
    ids: Seq<u32>,
    count: int,
) -> bool {
    forall|j: int| 0 <= j < count ==> finds(lookup, #[trigger] ids[j])
}

/// What looking IDs up one after the other comes to: their numbers if all are found; else the
/// first miss or error decides.
pub open spec fn resolves<F: Fn(u32) -> Result<Option<u32>, Failure>>(
    lookup: F,
    ids: Seq<u32>,
    numbers: Result<Option<Seq<u32>>, FailureView>,
) -> bool {
    match numbers {
        Ok(Some(found)) => {
            &&& found.len() == ids.len()
            &&& forall|k: int|
                0 <= k < ids.len() ==> replies(
                    lookup,
                    #[trigger] ids[k],
                    Ok(Some(#[trigger] found[k])),
                )
        },
        Ok(None) => exists|k: int|
            0 <= k < ids.len() && #[trigger] replies(lookup, ids[k], Ok(None)) && found_up_to(
                lookup,
                ids,
                k,
            ),
        Err(error) => exists|k: int|
            0 <= k < ids.len() && #[trigger] replies(lookup, ids[k], Err(error)) && found_up_to(
                lookup,
                ids,
                k,
            ),
    }
}

/// What a kept parent population of the given size is read as.
///
/// It is stale, and read as nothing, if its size is another one, if an ID occurs twice in it, or
/// if an ID is not found.
pub open spec fn decodes<F: Fn(u32) -> Result<Option<u32>, Failure>>(
    lookup: F,
    encoded: Seq<char>,
    size: nat,
    numbers: Result<Option<Seq<u32>>, FailureView>,
) -> bool {
    match read_array(encoded) {
        Err(message) => numbers == Err::<Option<Seq<u32>>, FailureView>(
            error_because(ErrorKind::StorageError, "Invalid NSGA-II parent cache: "@ + message),
        ),
        Ok(ids) => if ids.len() == size && ids.no_duplicates() {
            resolves(lookup, ids, numbers)
        } else {
            numbers == Ok::<Option<Seq<u32>>, FailureView>(None)
        },
    }
}

/// The value of a decoded population.
pub open spec fn decoded_view(decoded: Result<Option<Vec<u32>>, Failure>) -> Result<
    Option<Seq<u32>>,
    FailureView,
> {
    match decoded {
        Ok(Some(numbers)) => Ok(Some(numbers@)),
        Ok(None) => Ok(None),
        Err(error) => Err(error@),
    }
}

/// Whether no number occurs twice.
fn all_distinct(ids: &Vec<u32>) -> (yes: bool)
    ensures
        yes == ids@.no_duplicates(),
{
    let mut seen: HashSet<u32> = HashSet::new();
    for k in 0..ids.len()
        invariant
            forall|i: int, j: int| 0 <= i < j < k ==> #[trigger] ids@[i] != #[trigger] ids@[j],
            forall|x: u32| #[trigger]
                seen@.contains(x) <==> exists|i: int| 0 <= i < k && #[trigger] ids@[i] == x,
    {
        let ghost before = seen@;
        if !seen.insert(ids[k]) {
            assert(before.contains(ids@[k as int]));
            return false;
        }
        assert forall|x: u32| #[trigger] seen@.contains(x) <==> exists|i: int|
            0 <= i < k + 1 && #[trigger] ids@[i] == x by {
            if before.contains(x) {
                let i = choose|i: int| 0 <= i < k && #[trigger] ids@[i] == x;
                assert(ids@[i] == x);
            }
        }
        assert(!before.contains(ids@[k as int]));
    }
    true
}

/// Whether `lookup` can only find the given numbers for the IDs.
pub open spec fn answers<F: Fn(u32) -> Result<Option<u32>, Failure>>(
    lookup: F,
    ids: Seq<u32>,
    numbers: Seq<u32>,
) -> bool {
    &&& ids.len() == numbers.len()
    &&& forall|k: int, reply: Result<Option<u32>, FailureView>|
        0 <= k < ids.len() && #[trigger] replies(lookup, ids[k], reply) ==> reply == Ok::<
            Option<u32>,
            FailureView,
        >(Some(numbers[k]))
}

/// What was written for a population of the given size is read back as its numbers, in their
/// order, provided that no ID occurs twice and that `lookup` finds the numbers.
pub open spec fn gives_back<F: Fn(u32) -> Result<Option<u32>, Failure>>(
    lookup: F,
    encoded: Seq<char>,
    size: nat,
    decoded: Result<Option<Seq<u32>>, FailureView>,
) -> bool {
    forall|ids: Seq<u32>, numbers: Seq<u32>|
        encoded == #[trigger] json_array(ids) && #[trigger] answers(lookup, ids, numbers)
            && ids.len() == size && ids.no_duplicates() ==> decoded == Ok::<
            Option<Seq<u32>>,
            FailureView,
        >(Some(numbers))
}

proof fn lemma_gives_back<F: Fn(u32) -> Result<Option<u32>, Failure>>(
    lookup: F,
    encoded: Seq<char>,
    size: nat,
    decoded: Result<Option<Seq<u32>>, FailureView>,
)
    requires
        decodes(lookup, encoded, size, decoded),
        forall|ids: Seq<u32>|
            encoded == #[trigger] json_array(ids) ==> read_array(encoded) == Ok::<
                Seq<u32>,
                Seq<char>,
            >(ids),
    ensures
        gives_back(lookup, encoded, size, decoded),
{
    assert forall|ids: Seq<u32>, numbers: Seq<u32>|
        encoded == #[trigger] json_array(ids) && #[trigger] answers(lookup, ids, numbers)
            && ids.len() == size && ids.no_duplicates() implies decoded == Ok::<
        Option<Seq<u32>>,
        FailureView,
    >(Some(numbers)) by {
        assert(resolves(lookup, ids, decoded));
        if let Ok(Some(found)) = decoded {
            assert forall|k: int| 0 <= k < ids.len() implies found[k] == numbers[k] by {
                assert(replies(lookup, ids[k], Ok(Some(found[k]))));
            }
            assert(found =~= numbers);
        }
    }
}

/// Looks trial IDs up one after the other.
fn resolve_ids<F: Fn(u32) -> Result<Option<u32>, Failure>>(
    get_trial_number: &F,
    ids: &Vec<u32>,
) -> (resolved: Result<Option<Vec<u32>>, Failure>)
    requires
        forall|id: u32| #[trigger] get_trial_number.requires((id,)),
    ensures
        resolves(*get_trial_number, ids@, decoded_view(resolved)),
{
    let mut numbers: Vec<u32> = Vec::new();
    for k in 0..ids.len()
        invariant
            forall|id: u32| #[trigger] get_trial_number.requires((id,)),
            numbers@.len() == k,
            forall|i: int|
                0 <= i < k ==> replies(
                    *get_trial_number,
                    #[trigger] ids@[i],
                    Ok(Some(#[trigger] numbers@[i])),
                ),
    {
        let reply = get_trial_number(ids[k]);
        assert(replies(*get_trial_number, ids@[k as int], reply_view(reply)));
        assert(found_up_to(*get_trial_number, ids@, k as int)) by {
            assert forall|j: int| 0 <= j < k implies finds(
                *get_trial_number,
                #[trigger] ids@[j],
            ) by {
                assert(replies(*get_trial_number, ids@[j], Ok(Some(numbers@[j]))));
            }
        }
        match reply {
            Ok(Some(number)) => numbers.push(number),
            Ok(None) => {
                return Ok(None);
            },
            Err(error) => {
                return Err(error);
            },
        }
    }
    Ok(Some(numbers))
}

/// Reads a JSON array of trial IDs back into trial numbers.
///
/// The result is `None` where the array is stale or was made for another population size.
pub fn decode_parent_population_numbers<F: Fn(u32) -> Result<Option<u32>, Failure>>(
    get_trial_number: &F,
    encoded: &str,
    population_size: usize,
) -> (decoded: Result<Option<Vec<u32>>, Failure>)
    requires
        forall|id: u32| #[trigger] get_trial_number.requires((id,)),
    ensures
        decodes(*get_trial_number, encoded@, population_size as nat, decoded_view(decoded)),
        gives_back(*get_trial_number, encoded@, population_size as nat, decoded_view(decoded)),
{
    let decoded = match read_ids(encoded) {
        Ok(ids) => if ids.len() != population_size || !all_distinct(&ids) {
            Ok(None)
        } else {
            resolve_ids(get_trial_number, &ids)
        },
        Err(error) => {
            let mut reason = String::from_str("Invalid NSGA-II parent cache: ");
            reason.append(describe(&error).as_str());
            Err(Failure::with_reason(ErrorKind::StorageError, reason))
        },
    };
    proof {
        lemma_gives_back(
            *get_trial_number,
            encoded@,
            population_size as nat,
            decoded_view(decoded),
        );
    }
    decoded
}

/// What a kept parent ID stands for, given the trial that the storage has for it: a number if the
/// trial is a complete one of the study. A trial that is gone is no error.
pub open spec fn parent_number(
    found: Result<PersistedTrial, FailureView>,
    study_id: u32,
) -> Result<Option<u32>, FailureView> {
    match found {
        Ok(trial) => if trial.study_id == study_id && trial.state_values is Complete {
            Ok(Some(trial.number))
        } else {
            Ok(None)
        },
        Err(error) => if error.kind == ErrorKind::TrialNotFound || error.kind
            == ErrorKind::TrialDiscarded {
            Ok(None)
        } else {
            Err(error)
        },
    }
}

/// Decides what a kept parent ID stands for.
pub fn completed_trial_number(found: Result<&PersistedTrial, Failure>, study_id: u32) -> (number:
    Result<Option<u32>, Failure>)
    ensures
        reply_view(number) == parent_number(
            match found {
                Ok(trial) => Ok(*trial),
                Err(error) => Err(error@),
            },
            study_id,
        ),
{
    match found {
        Ok(trial) => match &trial.state_values {
            TrialStateValues::Complete(_) => if trial.study_id == study_id {
                Ok(Some(trial.number))
            } else {
                Ok(None)
            },
            _ => Ok(None),
        },
        Err(error) => if error.kind == ErrorKind::TrialNotFound || error.kind
            == ErrorKind::TrialDiscarded {
            Ok(None)
        } else {
            Err(error)
        },
    }
}

/// Whether no usable parent population is kept for a generation.
pub open spec fn unusable<F: Fn(u32) -> Result<Option<u32>, Failure>>(
    lookup: F,
    study_attrs: Map<AttrKeyView, Seq<char>>,
    size: nat,
    generation: u32,
) -> bool {
    study_attrs.contains_key(parent_key(generation)) ==> decodes(
        lookup,
        study_attrs[parent_key(generation)],
        size,
        Ok(None),
    )
}

/// What the study keeps of the parents of a generation is read as `numbers`, and nothing usable
/// is kept for later generations up to `child_generation`.
pub open spec fn latest_kept<F: Fn(u32) -> Result<Option<u32>, Failure>>(
    lookup: F,
    study_attrs: Map<AttrKeyView, Seq<char>>,
    size: nat,
    child_generation: u32,
    generation: u32,
    numbers: Result<Option<Seq<u32>>, FailureView>,
) -> bool {
    &&& 1 <= generation <= child_generation
    &&& study_attrs.contains_key(parent_key(generation))
    &&& decodes(lookup, study_attrs[parent_key(generation)], size, numbers)
    &&& forall|later: u32|
        generation < later <= child_generation ==> #[trigger] unusable(
            lookup,
            study_attrs,
            size,
            later,
        )
}

/// The latest parents that the study keeps for a generation up to `child_generation`.
pub open spec fn restores<F: Fn(u32) -> Result<Option<u32>, Failure>>(
    lookup: F,
    study_attrs: Map<AttrKeyView, Seq<char>>,
    size: nat,
    child_generation: u32,
    cached: Result<Option<(u32, Seq<u32>)>, FailureView>,
) -> bool {
    match cached {
        Ok(Some((generation, numbers))) => latest_kept(
            lookup,
            study_attrs,
            size,
            child_generation,
            generation,
            Ok(Some(numbers)),
        ),
        Ok(None) => forall|generation: u32|
            1 <= generation <= child_generation ==> #[trigger] unusable(
                lookup,
                study_attrs,
                size,
                generation,
            ),
        Err(error) => exists|generation: u32| #[trigger]
            latest_kept(lookup, study_attrs, size, child_generation, generation, Err(error)),
    }
}

/// Whether the study keeps, for a generation, what was written for a population of the given size
/// whose numbers `lookup` finds.
pub open spec fn recallable<F: Fn(u32) -> Result<Option<u32>, Failure>>(
    lookup: F,
    study_attrs: Map<AttrKeyView, Seq<char>>,
    size: nat,
    generation: u32,
    ids: Seq<u32>,
    numbers: Seq<u32>,
) -> bool {
    &&& generation >= 1
    &&& study_attrs.contains_key(parent_key(generation))
    &&& study_attrs[parent_key(generation)] == json_array(ids)
    &&& ids.len() == size
    &&& ids.no_duplicates()
    &&& answers(lookup, ids, numbers)
}

/// What the study keeps for `child_generation` is what is restored.
pub open spec fn recalls<F: Fn(u32) -> Result<Option<u32>, Failure>>(
    lookup: F,
    study_attrs: Map<AttrKeyView, Seq<char>>,
    size: nat,
    child_generation: u32,
    restored: Result<Option<(u32, Seq<u32>)>, FailureView>,
) -> bool {
    forall|ids: Seq<u32>, numbers: Seq<u32>| #[trigger]
        recallable(lookup, study_attrs, size, child_generation, ids, numbers) ==> restored == Ok::<
            Option<(u32, Seq<u32>)>,
            FailureView,
        >(Some((child_generation, numbers)))
}

/// The value of a restored population.
pub open spec fn cached_view(cached: Option<(u32, Vec<u32>)>) -> Option<(u32, Seq<u32>)> {
    match cached {
        Some((generation, numbers)) => Some((generation, numbers@)),
        None => None,
    }
}

/// The value of a restored population or of the error in its place.
pub open spec fn restored_view(restored: Result<Option<(u32, Vec<u32>)>, Failure>) -> Result<
    Option<(u32, Seq<u32>)>,
    FailureView,
> {
    match restored {
        Ok(cached) => Ok(cached_view(cached)),
        Err(error) => Err(error@),
    }
}

/// Looks for the latest parents that the study keeps, from `child_generation` down.
pub fn restore_parent_population<F: Fn(u32) -> Result<Option<u32>, Failure>>(
    get_trial_number: &F,
    study_attrs: &Attrs,
    population_size: usize,
    child_generation: u32,
) -> (restored: Result<Option<(u32, Vec<u32>)>, Failure>)
    requires
        forall|id: u32| #[trigger] get_trial_number.requires((id,)),
    ensures
        restores(
            *get_trial_number,
            study_attrs@,
            population_size as nat,
            child_generation,
            restored_view(restored),
        ),
        recalls(
            *get_trial_number,
            study_attrs@,
            population_size as nat,
            child_generation,
            restored_view(restored),
        ),
{
    let mut generation: u32 = child_generation;
    while generation > 0
        invariant
            generation <= child_generation,
            forall|id: u32| #[trigger] get_trial_number.requires((id,)),
            forall|later: u32|
                generation < later <= child_generation ==> #[trigger] unusable(
                    *get_trial_number,
                    study_attrs@,
                    population_size as nat,
                    later,
                ),
            generation < child_generation ==> forall|ids: Seq<u32>, numbers: Seq<u32>|
                !(#[trigger] recallable(
                    *get_trial_number,
                    study_attrs@,
                    population_size as nat,
                    child_generation,
                    ids,
                    numbers,
                )),
        decreases generation,
    {
        if let Some(encoded) = study_attrs.get(&parent_cache_key(generation)) {
            let decoded = decode_parent_population_numbers(
                get_trial_number,
                encoded.as_str(),
                population_size,
            );
            match decoded {
                Ok(Some(numbers)) => {
                    return Ok(Some((generation, numbers)));
                },
                Ok(None) => {},
                Err(error) => {
                    assert(latest_kept(
                        *get_trial_number,
                        study_attrs@,
                        population_size as nat,
                        child_generation,
                        generation,
                        Err(error@),
                    ));
                    return Err(error);
                },
            }
        }
        generation = generation - 1;
    }
    Ok(None)
}

/// Works out the parents of `generation` from those of the generation before, and how they are
/// kept. There are none unless the generation before is full.
fn next_parents<F: Fn(&Vec<Axis>, usize) -> Vec<Number>>(
    cache: &GenerationIndexCache,
    population_size: usize,
    ctx: &Context,
    trials: &[Option<PersistedTrial>],
    generation: u32,
    parents: &mut Vec<u32>,
    measure: &F,
) -> (encoded: Result<Option<String>, Failure>)
    requires
        sound_measure(*measure),
        generation >= 1,
    ensures
        match encoded {
            Ok(Some(text)) => {
                &&& cache@.full((generation - 1) as u32, population_size as nat)
                &&& selects(
                    *measure,
                    ctx.directions@,
                    trials@,
                    cache@.numbers((generation - 1) as u32) + old(parents)@,
                    population_size as nat,
                    Ok(final(parents)@),
                )
                &&& text@ == json_array(ids_of(trials@, final(parents)@))
                &&& reads_back(ids_of(trials@, final(parents)@))
                &&& cache@.numbers((generation - 1) as u32).len() + old(parents)@.len()
                    <= usize::MAX
            },
            Ok(None) => {
                &&& !cache@.full((generation - 1) as u32, population_size as nat)
                &&& final(parents)@ == old(parents)@
            },
            Err(error) => {
                &&& cache@.full((generation - 1) as u32, population_size as nat)
                &&& selects(
                    *measure,
                    ctx.directions@,
                    trials@,
                    cache@.numbers((generation - 1) as u32) + old(parents)@,
                    population_size as nat,
                    Err(error@),
                )
            },
        },
{
    let numbers = match cache.generation_to_numbers.get(&(generation - 1)) {
        Some(numbers) => numbers,
        None => {
            return Ok(None);
        },
    };
    if numbers.len() < population_size {
        return Ok(None);
    }
    let ghost pool = cache@.numbers((generation - 1) as u32) + parents@;
    let mut candidates: Vec<u32> = Vec::new();
    candidates.extend_from_slice(numbers.as_slice());
    candidates.append(parents);
    assert(candidates@ =~= pool);
    assert(candidates.len() <= usize::MAX);
    match select_elite_population_numbers(
        population_size,
        ctx,
        trials,
        candidates.as_slice(),
        measure,
    ) {
        Ok(elite) => {
            proof {
                lemma_selected(
                    *measure,
                    ctx.directions@,
                    trials@,
                    pool,
                    population_size as nat,
                    elite@,
                );
            }
            *parents = elite;
            match encode_parent_trial_ids(trials, parents.as_slice()) {
                Ok(text) => Ok(Some(text)),
                Err(error) => Err(error),
            }
        },
        Err(error) => Err(error),
    }
}

/// Whether the population at place `k` of a line is the elite of the generation before it together
/// with the population at the place before. Both fit into one list, and what is written for the
/// elite can be read.
pub open spec fn succeeds<F: Fn(&Vec<Axis>, usize) -> Vec<Number>>(
    measure: F,
    cache: CacheView,
    size: nat,
    directions: Seq<Direction>,
    trials: Seq<Option<PersistedTrial>>,
    first: int,
    line: Seq<Seq<u32>>,
    k: int,
) -> bool {
    let generation = (first + k - 2) as u32;
    &&& cache.full(generation, size)
    &&& cache.numbers(generation).len() + line[k - 1].len() <= usize::MAX
    &&& selects(
        measure,
        directions,
        trials,
        cache.numbers(generation) + line[k - 1],
        size,
        Ok(line[k]),
    )
    &&& reads_back(ids_of(trials, line[k]))
}

/// A line of parent populations: the first is given, and each next one succeeds the one before.
///
/// The last member of `line` holds the parents of generation `first - 2 + line.len()`.
pub open spec fn lineage<F: Fn(&Vec<Axis>, usize) -> Vec<Number>>(
    measure: F,
    cache: CacheView,
    size: nat,
    directions: Seq<Direction>,
    trials: Seq<Option<PersistedTrial>>,
    first: int,
    line: Seq<Seq<u32>>,
) -> bool {
    &&& line.len() >= 1
    &&& forall|k: int|
        1 <= k < line.len() ==> #[trigger] succeeds(
            measure,
            cache,
            size,
            directions,
            trials,
            first,
            line,
            k,
        )
}

proof fn lemma_lineage_grows<F: Fn(&Vec<Axis>, usize) -> Vec<Number>>(
    measure: F,
    cache: CacheView,
    size: nat,
    directions: Seq<Direction>,
    trials: Seq<Option<PersistedTrial>>,
    first: int,
    line: Seq<Seq<u32>>,
    parents: Seq<u32>,
)
    requires
        lineage(measure, cache, size, directions, trials, first, line),
        cache.full((first + line.len() - 2) as u32, size),
        cache.numbers((first + line.len() - 2) as u32).len() + line.last().len() <= usize::MAX,
        selects(
            measure,
            directions,
            trials,
            cache.numbers((first + line.len() - 2) as u32) + line.last(),
            size,
            Ok(parents),
        ),
        reads_back(ids_of(trials, parents)),
    ensures
        lineage(measure, cache, size, directions, trials, first, line.push(parents)),
{
    let longer = line.push(parents);
    assert forall|k: int| 1 <= k < longer.len() implies #[trigger] succeeds(
        measure,
        cache,
        size,
        directions,
        trials,
        first,
        longer,
        k,
    ) by {
        if k < line.len() {
            assert(succeeds(measure, cache, size, directions, trials, first, line, k));
            assert(longer[k] == line[k]);
            assert(longer[k - 1] == line[k - 1]);
        }
    }
}

/// The attributes under which the study is to keep a line of parent populations.
pub open spec fn lineage_attrs(
    trials: Seq<Option<PersistedTrial>>,
    first: int,
    line: Seq<Seq<u32>>,
) -> Map<AttrKeyView, Seq<char>>
    decreases line.len(),
{
    if line.len() <= 1 {
        Map::empty()
    } else {
        lineage_attrs(trials, first, line.drop_last()).insert(
            parent_key((first + line.len() - 2) as u32),
            json_array(ids_of(trials, line.last())),
        )
    }
}

/// The parents of a generation and what the study is to keep of them.
pub struct ParentsView {
    pub numbers: Seq<u32>,
    pub attrs: Map<AttrKeyView, Seq<char>>,
}

/// The generation from which on parents have to be worked out.
pub open spec fn first_missing(cached: Option<(u32, Seq<u32>)>) -> int {
    match cached {
        Some((generation, _)) => generation + 1,
        None => 1,
    }
}

/// The parents from which the missing ones are worked out.
pub open spec fn known_parents(cached: Option<(u32, Seq<u32>)>) -> Seq<u32> {
    match cached {
        Some((_, numbers)) => numbers,
        None => Seq::empty(),
    }
}

/// The parents of `child_generation`, or why they are not known, as far as `measure` decides.
///
/// Generation 0 has no parents. Parents that the study keeps are taken as they are. Missing ones
/// are worked out generation by generation, as long as the generation before is full.
pub open spec fn breeds<F: Fn(&Vec<Axis>, usize) -> Vec<Number>>(
    measure: F,
    cache: CacheView,
    size: nat,
    directions: Seq<Direction>,
    trials: Seq<Option<PersistedTrial>>,
    child_generation: u32,
    cached: Option<(u32, Seq<u32>)>,
    parents: Result<ParentsView, FailureView>,
) -> bool {
    let first = first_missing(cached);
    if child_generation == 0 {
        parents == Ok::<ParentsView, FailureView>(
            ParentsView { numbers: Seq::empty(), attrs: Map::empty() },
        )
    } else if cached matches Some((generation, _)) && generation == child_generation {
        parents == Ok::<ParentsView, FailureView>(
            ParentsView { numbers: known_parents(cached), attrs: Map::empty() },
        )
    } else {
        exists|line: Seq<Seq<u32>>|
            {
                let next = first + line.len() - 1;
                &&& #[trigger] lineage(measure, cache, size, directions, trials, first, line)
                &&& line[0] == known_parents(cached)
                &&& line.len() > 1 ==> next <= child_generation + 1
                &&& match parents {
                    Ok(found) => {
                        &&& found.numbers == line.last()
                        &&& found.attrs == lineage_attrs(trials, first, line)
                        &&& next > child_generation || !cache.full((next - 1) as u32, size)
                    },
                    Err(error) => {
                        &&& next <= child_generation
                        &&& cache.full((next - 1) as u32, size)
                        &&& selects(
                            measure,
                            directions,
                            trials,
                            cache.numbers((next - 1) as u32) + line.last(),
                            size,
                            Err(error),
                        )
                    },
                }
            }
    }
}

/// The value of parents as they are returned, without the generation that they are returned with.
pub open spec fn bred_view(bred: Result<(u32, Vec<u32>, Attrs), Failure>) -> Result<
    ParentsView,
    FailureView,
> {
    match bred {
        Ok((_, numbers, attrs)) => Ok(ParentsView { numbers: numbers@, attrs: attrs@ }),
        Err(error) => Err(error@),
    }
}

/// Finds the parents of `child_generation`, with what the study is to keep of those that were
/// worked out anew.
pub fn get_parent_population_numbers<F: Fn(&Vec<Axis>, usize) -> Vec<Number>>(
    cache: &GenerationIndexCache,
    population_size: usize,
    ctx: &Context,
    trials: &[Option<PersistedTrial>],
    child_generation: u32,
    cached_parent: Option<(u32, Vec<u32>)>,
    measure: &F,
) -> (bred: Result<(u32, Vec<u32>, Attrs), Failure>)
    requires
        sound_measure(*measure),
        cached_parent matches Some((generation, _)) ==> generation == child_generation || generation
            < u32::MAX,
    ensures
        breeds(
            *measure,
            cache@,
            population_size as nat,
            ctx.directions@,
            trials@,
            child_generation,
            cached_view(cached_parent),
            bred_view(bred),
        ),
        bred matches Ok((generation, _, _)) ==> generation == child_generation,
{
    if child_generation == 0 {
        return Ok((0, Vec::new(), Attrs::new()));
    }
    let ghost cached = cached_view(cached_parent);
    let ghost size = population_size as nat;
    let (first, mut parents) = match cached_parent {
        Some((generation, numbers)) => {
            if generation == child_generation {
                return Ok((child_generation, numbers, Attrs::new()));
            }
            (generation + 1, numbers)
        },
        None => (1, Vec::new()),
    };
    let mut attrs = Attrs::new();
    let mut generation: u32 = first;
    let mut exhausted = first > child_generation;
    let ghost mut line: Seq<Seq<u32>> = seq![parents@];
    while !exhausted
        invariant
            sound_measure(*measure),
            size == population_size,
            cached == cached_view(cached_parent),
            child_generation != 0,
            !(cached matches Some((g, _)) && g == child_generation),
            first == first_missing(cached),
            first >= 1,
            lineage(*measure, cache@, size, ctx.directions@, trials@, first as int, line),
            line[0] == known_parents(cached),
            line.last() == parents@,
            attrs@ == lineage_attrs(trials@, first as int, line),
            exhausted ==> first + line.len() - 1 > child_generation,
            !exhausted ==> first + line.len() - 1 == generation && generation <= child_generation,
            line.len() > 1 ==> first + line.len() - 1 <= child_generation + 1,
        decreases child_generation - generation + (if exhausted { 0int } else { 1int }),
    {
        match next_parents(
            cache,
            population_size,
            ctx,
            trials,
            generation,
            &mut parents,
            measure,
        ) {
            Ok(Some(encoded)) => {
                attrs.insert(parent_cache_key(generation), encoded);
                proof {
                    lemma_lineage_grows(
                        *measure,
                        cache@,
                        size,
                        ctx.directions@,
                        trials@,
                        first as int,
                        line,
                        parents@,
                    );
                    assert(line.push(parents@).drop_last() =~= line);
                    line = line.push(parents@);
                }
            },
            Ok(None) => {
                return Ok((child_generation, parents, attrs));
            },
            Err(error) => {
                return Err(error);
            },
        }
        if generation == child_generation {
            exhausted = true;
        } else {
            generation = generation + 1;
        }
    }
    Ok((child_generation, parents, attrs))
}

/// What is kept for a population is read with one number for each ID, in the order of the IDs.
///
/// Text that is no array of IDs is an error of the storage, with what was wrong with it. A list of
/// another length, or with an ID twice, is read as nothing. Otherwise the first ID that is not
/// found decides, and where all are found their numbers are the result.
pub proof fn law_kept_ids_are_looked_up_in_their_order<
    F: Fn(u32) -> Result<Option<u32>, Failure>,
>(
    lookup: F,
    answer: spec_fn(u32) -> Result<Option<u32>, FailureView>,
    encoded: Seq<char>,
    size: nat,
    decoded: Result<Option<Seq<u32>>, FailureView>,
)
    requires
        forall|id: u32, reply: Result<Option<u32>, FailureView>| #[trigger]
            replies(lookup, id, reply) ==> reply == answer(id),
        decodes(lookup, encoded, size, decoded),
    ensures
        match read_array(encoded) {
            Err(message) => {
                &&& decoded matches Err(error)
                &&& error.kind == ErrorKind::StorageError
                &&& error.reason == Some("Invalid NSGA-II parent cache: "@ + message)
            },
            Ok(ids) => {
                &&& ids.len() != size ==> decoded == Ok::<Option<Seq<u32>>, FailureView>(None)
                &&& (exists|i: int, j: int|
                    0 <= i < j < ids.len() && #[trigger] ids[i] == #[trigger] ids[j]) ==> decoded
                    == Ok::<Option<Seq<u32>>, FailureView>(None)
                &&& ids.len() == size && ids.no_duplicates() ==> match decoded {
                    Ok(Some(numbers)) => {
                        &&& numbers.len() == ids.len()
                        &&& forall|k: int|
                            0 <= k < ids.len() ==> answer(#[trigger] ids[k]) == Ok::<
                                Option<u32>,
                                FailureView,
                            >(Some(numbers[k]))
                    },
                    Ok(None) => exists|k: int|
                        {
                            &&& 0 <= k < ids.len()
                            &&& answer(#[trigger] ids[k]) == Ok::<Option<u32>, FailureView>(None)
                            &&& forall|j: int|
                                0 <= j < k ==> answer(#[trigger] ids[j]) matches Ok(Some(_))
                        },
                    Err(error) => exists|k: int|
                        {
                            &&& 0 <= k < ids.len()
                            &&& answer(#[trigger] ids[k]) == Err::<Option<u32>, FailureView>(error)
                            &&& forall|j: int|
                                0 <= j < k ==> answer(#[trigger] ids[j]) matches Ok(Some(_))
                        },
                }
            },
        },
{
    if let Ok(ids) = read_array(encoded) {
        if ids.len() == size && ids.no_duplicates() {
            match decoded {
                Ok(Some(numbers)) => {
                    assert forall|k: int| 0 <= k < ids.len() implies answer(#[trigger] ids[k])
                        == Ok::<Option<u32>, FailureView>(Some(numbers[k])) by {
                        assert(replies(lookup, ids[k], Ok(Some(numbers[k]))));
                    }
                },
                Ok(None) => {
                    let k = choose|k: int|
                        0 <= k < ids.len() && #[trigger] replies(lookup, ids[k], Ok(None))
                            && found_up_to(lookup, ids, k);
                    lemma_found_are_answered(lookup, answer, ids, k);
                },
                Err(error) => {
                    let k = choose|k: int|
                        0 <= k < ids.len() && #[trigger] replies(lookup, ids[k], Err(error))
                            && found_up_to(lookup, ids, k);
                    lemma_found_are_answered(lookup, answer, ids, k);
                },
            }
        }
    }
}

proof fn lemma_found_are_answered<F: Fn(u32) -> Result<Option<u32>, Failure>>(
    lookup: F,
    answer: spec_fn(u32) -> Result<Option<u32>, FailureView>,
    ids: Seq<u32>,
    count: int,
)
    requires
        forall|id: u32, reply: Result<Option<u32>, FailureView>| #[trigger]
            replies(lookup, id, reply) ==> reply == answer(id),
        found_up_to(lookup, ids, count),
    ensures
        forall|j: int| 0 <= j < count ==> answer(#[trigger] ids[j]) matches Ok(Some(_)),
{
    assert forall|j: int| 0 <= j < count implies answer(#[trigger] ids[j]) matches Ok(Some(_)) by {
        assert(finds(lookup, ids[j]));
        let number = choose|number: u32| #[trigger] replies(lookup, ids[j], Ok(Some(number)));
        assert(replies(lookup, ids[j], Ok(Some(number))));
    }
}

/// What a kept ID stands for: the number of the trial, if the trial is complete and of the study;
/// else nothing. A trial that is not found or was discarded is nothing too, and any other error
/// stays one.
pub proof fn law_kept_ids_stand_for_complete_trials_of_the_study(
    trial: PersistedTrial,
    error: FailureView,
    study_id: u32,
)
    ensures
        trial.study_id == study_id && trial.state_values is Complete ==> parent_number(
            Ok(trial),
            study_id,
        ) == Ok::<Option<u32>, FailureView>(Some(trial.number)),
        trial.study_id != study_id || !(trial.state_values is Complete) ==> parent_number(
            Ok(trial),
            study_id,
        ) == Ok::<Option<u32>, FailureView>(None),
        error.kind == ErrorKind::TrialNotFound || error.kind == ErrorKind::TrialDiscarded
            ==> parent_number(Err(error), study_id) == Ok::<Option<u32>, FailureView>(None),
        error.kind != ErrorKind::TrialNotFound && error.kind != ErrorKind::TrialDiscarded
            ==> parent_number(Err(error), study_id) == Err::<Option<u32>, FailureView>(error),
{
}

/// What is restored is what is kept for the latest generation, up to that of the child, for which
/// something usable is kept: from the generation of the child down, what is not kept or is read as
/// nothing is passed over, and the first text that is read as anything else decides.
pub proof fn law_the_latest_usable_parents_are_restored<
    F: Fn(u32) -> Result<Option<u32>, Failure>,
>(
    lookup: F,
    study_attrs: Map<AttrKeyView, Seq<char>>,
    size: nat,
    child_generation: u32,
    cached: Result<Option<(u32, Seq<u32>)>, FailureView>,
    later: u32,
)
    requires
        restores(lookup, study_attrs, size, child_generation, cached),
    ensures
        match cached {
            Ok(Some((generation, numbers))) => {
                &&& 1 <= generation <= child_generation
                &&& study_attrs.contains_key(parent_key(generation))
                &&& decodes(
                    lookup,
                    study_attrs[parent_key(generation)],
                    size,
                    Ok(Some(numbers)),
                )
                &&& generation < later <= child_generation && study_attrs.contains_key(
                    parent_key(later),
                ) ==> decodes(lookup, study_attrs[parent_key(later)], size, Ok(None))
            },
            Ok(None) => 1 <= later <= child_generation && study_attrs.contains_key(
                parent_key(later),
            ) ==> decodes(lookup, study_attrs[parent_key(later)], size, Ok(None)),
            Err(error) => exists|generation: u32|
                {
                    &&& 1 <= generation <= child_generation
                    &&& study_attrs.contains_key(#[trigger] parent_key(generation))
                    &&& decodes(lookup, study_attrs[parent_key(generation)], size, Err(error))
                    &&& generation < later <= child_generation && study_attrs.contains_key(
                        parent_key(later),
                    ) ==> decodes(lookup, study_attrs[parent_key(later)], size, Ok(None))
                },
        },
{
    match cached {
        Ok(Some((generation, numbers))) => {
            if generation < later <= child_generation {
                assert(unusable(lookup, study_attrs, size, later));
            }
        },
        Ok(None) => {
            if 1 <= later <= child_generation {
                assert(unusable(lookup, study_attrs, size, later));
            }
        },
        Err(error) => {
            let generation = choose|generation: u32| #[trigger]
                latest_kept(lookup, study_attrs, size, child_generation, generation, Err(error));
            assert(study_attrs.contains_key(parent_key(generation)));
            if generation < later <= child_generation {
                assert(unusable(lookup, study_attrs, size, later));
            }
        },
    }
}

/// The key for the parents of a generation, and the IDs of trials.
pub proof fn law_parents_are_kept_by_generation_and_id(
    generation: u32,
    trials: Seq<Option<PersistedTrial>>,
    numbers: Seq<u32>,
)
    ensures
        parent_key(generation) == AttrKeyView::System(
            "NSGAIISampler:parent:"@ + decimal(generation as nat),
        ),
        ids_of(trials, numbers).len() == numbers.len(),
        forall|k: int|
            0 <= k < numbers.len() && trial_at(trials, numbers[k]) is Some ==> #[trigger] ids_of(
                trials,
                numbers,
            )[k] == trial_at(trials, numbers[k])->0.id,
{
}

/// What a lookup may reply is what it may return, with the value of an error for the error.
pub proof fn law_replies_are_what_a_lookup_returns<F: Fn(u32) -> Result<Option<u32>, Failure>>(
    lookup: F,
    id: u32,
    reply: Result<Option<u32>, FailureView>,
)
    ensures
        replies(lookup, id, reply) ==> exists|given: Result<Option<u32>, Failure>|
            #[trigger] lookup.ensures((id,), given) && match given {
                Ok(found) => reply == Ok::<Option<u32>, FailureView>(found),
                Err(error) => reply == Err::<Option<u32>, FailureView>(error@),
            },
        forall|given: Result<Option<u32>, Failure>| #[trigger]
            lookup.ensures((id,), given) ==> replies(
                lookup,
                id,
                match given {
                    Ok(found) => Ok(found),
                    Err(error) => Err(error@),
                },
            ),
{
    assert forall|given: Result<Option<u32>, Failure>| #[trigger]
        lookup.ensures((id,), given) implies replies(
        lookup,
        id,
        match given {
            Ok(found) => Ok(found),
            Err(error) => Err(error@),
        },
    ) by {
        assert(reply_view(given) == match given {
            Ok(found) => Ok::<Option<u32>, FailureView>(found),
            Err(error) => Err::<Option<u32>, FailureView>(error@),
        });
    }
}

/// The values of what is read, restored and worked out are those of the numbers, attributes and
/// errors in it.
pub proof fn law_populations_are_what_is_held(
    generation: u32,
    numbers: Vec<u32>,
    attrs: Attrs,
    found: Option<u32>,
    error: Failure,
)
    ensures
        reply_view(Ok(found)) == Ok::<Option<u32>, FailureView>(found),
        reply_view(Err(error)) == Err::<Option<u32>, FailureView>(error@),
        decoded_view(Ok(Some(numbers))) == Ok::<Option<Seq<u32>>, FailureView>(Some(numbers@)),
        decoded_view(Ok(None)) == Ok::<Option<Seq<u32>>, FailureView>(None),
        decoded_view(Err(error)) == Err::<Option<Seq<u32>>, FailureView>(error@),
        cached_view(Some((generation, numbers))) == Some((generation, numbers@)),
        cached_view(None) is None,
        restored_view(Ok(Some((generation, numbers)))) == Ok::<
            Option<(u32, Seq<u32>)>,
            FailureView,
        >(Some((generation, numbers@))),
        restored_view(Ok(None)) == Ok::<Option<(u32, Seq<u32>)>, FailureView>(None),
        restored_view(Err(error)) == Err::<Option<(u32, Seq<u32>)>, FailureView>(error@),
        bred_view(Ok((generation, numbers, attrs))) == Ok::<ParentsView, FailureView>(
            ParentsView { numbers: numbers@, attrs: attrs@ },
        ),
        bred_view(Err(error)) == Err::<ParentsView, FailureView>(error@),
{
}

} // verus!
