use crate::attr::AttrKeyView;
use crate::attr::Attrs;
use crate::crowding::sound_measure;
use crate::crowding::Axis;
use crate::error::error_because;
use crate::error::outcome;
use crate::error::plain_error;
use crate::error::ErrorKind;
use crate::error::Failure;
use crate::error::FailureView;
use crate::generation::generation_attr_key;
use crate::generation::generation_key;
use crate::generation::lists;
use crate::generation::CacheView;
use crate::generation::GenerationIndexCache;
use crate::names::law_sorted_names_do_not_depend_on_listing;
use crate::names::law_sorting_keeps_names;
use crate::names::sorted_names;
use crate::names::sorted_parameter_names;
use crate::names::texts;
use crate::number::Number;
use crate::offspring::build_parent_params;
use crate::offspring::child_of;
use crate::offspring::chosen_params;
use crate::offspring::covers;
use crate::offspring::crossed;
use crate::offspring::crossover_with;
use crate::offspring::law_child_values_come_from_parents;
use crate::offspring::law_each_name_is_dropped_by_its_own_draw;
use crate::offspring::law_each_name_is_swapped_by_its_own_draw;
use crate::offspring::law_without_crossover_the_first_parent_is_copied;
use crate::offspring::mutate_with;
use crate::offspring::parent_pair;
use crate::offspring::spared;
use crate::offspring::too_few_parents;
use crate::params::Params;
use crate::parents::bred_view;
use crate::parents::breeds;
use crate::parents::cached_view;
use crate::parents::get_parent_population_numbers;
use crate::parents::recallable;
use crate::parents::restore_parent_population;
use crate::parents::restored_view;
use crate::parents::restores;
use crate::parents::ParentsView;
use crate::random::certain;
use crate::random::chance;
use crate::random::choose_multiple;
use crate::random::coin;
use crate::random::coins;
use crate::random::drawn_positions;
use crate::random::flip;
use crate::random::flip_coins;
use crate::random::from_seed;
use crate::random::impossible;
use crate::random::law_coins_are_drawn_one_after_the_other;
use crate::random::ratio;
use crate::random::rng_from_bytes;
use crate::random::rng_from_number;
use crate::random::seed_from_number;
use crate::text::decimal;
use crate::text::to_decimal;
use crate::trial::trial_at;
use crate::trial::Context;
use crate::trial::Direction;
use crate::trial::PersistedTrial;
use rand::distributions::Bernoulli;
use rand::distributions::BernoulliError;
use rand::rngs::StdRng;
use vstd::prelude::*;
use vstd::string::*;

verus! {

/// NSGA-II sampler for multi-objective optimization.
///
/// NSGA-II stands for Nondominated Sorting Genetic Algorithm II, a fast and elitist
/// multi-objective genetic algorithm. The sampler tracks generations in trial attributes, selects
/// the elite of each generation by non-dominated sorting and crowding distance, and makes children
/// by crossover and mutation.
///
/// A probability is held as what `Bernoulli::new` makes of it. An error there stands for a number
/// that is no probability; nothing can be drawn with it.
#[derive(Debug)]
pub struct NSGAIISampler {
    pub rng: StdRng,
    pub population_size: usize,
    pub mutation_prob: Option<Result<Bernoulli, BernoulliError>>,
    pub crossover_prob: Result<Bernoulli, BernoulliError>,
    pub swapping_prob: Result<Bernoulli, BernoulliError>,
    /// Incremental cache of generation membership and in-flight trials.
    pub generation_index_cache: GenerationIndexCache,
}

/// The value of an [`NSGAIISampler`].
pub struct SamplerView {
    pub rng: StdRng,
    pub population_size: nat,
    pub mutation_prob: Option<Result<Bernoulli, BernoulliError>>,
    pub crossover_prob: Result<Bernoulli, BernoulliError>,
    pub swapping_prob: Result<Bernoulli, BernoulliError>,
    pub cache: CacheView,
}

impl View for NSGAIISampler {
    type V = SamplerView;

    open spec fn view(&self) -> SamplerView {
        SamplerView {
            rng: self.rng,
            population_size: self.population_size as nat,
            mutation_prob: self.mutation_prob,
            crossover_prob: self.crossover_prob,
            swapping_prob: self.swapping_prob,
            cache: self.generation_index_cache@,
        }
    }
}

impl SamplerView {
    /// Whether it can be drawn for each of `count` parameters whether it is swapped.
    pub open spec fn can_swap(self, count: nat) -> bool {
        count > 0 ==> self.swapping_prob is Ok
    }

    /// Whether it can be drawn for each of `count` parameters whether it is mutated. Where no
    /// probability is set, their number is limited to what a ratio of the `rand` crate can hold.
    pub open spec fn can_mutate(self, count: nat) -> bool {
        count > 0 ==> match self.mutation_prob {
            Some(p) => p is Ok,
            None => count <= u32::MAX,
        }
    }

    /// The chance with which each of `count` parameters is mutated: the one that is set, or one
    /// in `count`.
    pub open spec fn mutation_chance(self, count: nat) -> Bernoulli {
        match self.mutation_prob {
            Some(p) => p->Ok_0,
            None => ratio(
                1,
                if count >= 1 {
                    count as u32
                } else {
                    1
                },
            ),
        }
    }
}

/// A new sampler with a generator of its own.
pub open spec fn new_sampler(
    rng: StdRng,
    population_size: nat,
    mutation_prob: Option<Result<Bernoulli, BernoulliError>>,
    crossover_prob: Result<Bernoulli, BernoulliError>,
    swapping_prob: Result<Bernoulli, BernoulliError>,
) -> SamplerView {
    SamplerView {
        rng,
        population_size,
        mutation_prob,
        crossover_prob,
        swapping_prob,
        cache: CacheView::fresh(),
    }
}

impl Default for NSGAIISampler {
    /// A sampler with a population of 50 that crosses over nine times in ten and swaps each
    /// parameter once in two times.
    fn default() -> (sampler: Self)
        ensures
            sampler@ == new_sampler(
                rng_from_bytes(Seq::new(32, |i: int| 0u8)),
                50,
                None,
                Ok(ratio(9, 10)),
                Ok(ratio(1, 2)),
            ),
    {
        NSGAIISampler::new(50, None, chance(9, 10), chance(1, 2))
    }
}

impl NSGAIISampler {
    /// Creates an NSGA-II sampler.
    ///
    /// `population_size` is the number of individuals retained in each generation.
    /// `mutation_prob` is the probability of mutating each parameter when generating a child.
    /// `crossover_prob` is the probability of generating a child by crossover rather than
    /// cloning one parent. `swapping_prob` is the probability of taking each parameter from the
    /// second parent during crossover.
    pub fn new(
        population_size: usize,
        mutation_prob: Option<Result<Bernoulli, BernoulliError>>,
        crossover_prob: Result<Bernoulli, BernoulliError>,
        swapping_prob: Result<Bernoulli, BernoulliError>,
    ) -> (sampler: NSGAIISampler)
        ensures
            sampler@ == new_sampler(
                rng_from_bytes(Seq::new(32, |i: int| 0u8)),
                population_size as nat,
                mutation_prob,
                crossover_prob,
                swapping_prob,
            ),
    {
        let seed: [u8; 32] = [0u8; 32];
        assert(seed@ =~= Seq::new(32, |i: int| 0u8));
        NSGAIISampler {
            rng: from_seed(seed),
            population_size,
            mutation_prob,
            crossover_prob,
            swapping_prob,
            generation_index_cache: GenerationIndexCache::new(),
        }
    }

    /// Creates a reproducibly seeded NSGA-II sampler.
    ///
    /// This is equivalent to [`NSGAIISampler::new`] but initializes the random number generator
    /// from the provided seed.
    pub fn seed_from_u64(
        seed: u64,
        population_size: usize,
        mutation_prob: Option<Result<Bernoulli, BernoulliError>>,
        crossover_prob: Result<Bernoulli, BernoulliError>,
        swapping_prob: Result<Bernoulli, BernoulliError>,
    ) -> (sampler: NSGAIISampler)
        ensures
            sampler@ == new_sampler(
                rng_from_number(seed),
                population_size as nat,
                mutation_prob,
                crossover_prob,
                swapping_prob,
            ),
    {
        NSGAIISampler {
            rng: seed_from_number(seed),
            population_size,
            mutation_prob,
            crossover_prob,
            swapping_prob,
            generation_index_cache: GenerationIndexCache::new(),
        }
    }

    /// The sampler draws all parameters of a trial together.
    pub fn support_joint_sampling(&self) -> (yes: bool)
        ensures
            yes,
    {
        true
    }
}

/// Whether `after` is what the cache may become when it is brought up to date.
pub open spec fn syncs(
    before: CacheView,
    trials: Seq<Option<PersistedTrial>>,
    after: CacheView,
) -> bool {
    exists|numbers: Seq<u32>| #[trigger]
        lists(numbers, before.prepared(trials).unfinished) && after == before.synced(
            trials,
            numbers,
        )
}

/// Whether `generation` is the first one that is not full, or, as an error, none is left.
pub open spec fn opens(
    cache: CacheView,
    size: nat,
    generation: Result<u32, FailureView>,
) -> bool {
    match generation {
        Ok(open) => {
            &&& !cache.full(open, size)
            &&& forall|earlier: u32| earlier < open ==> #[trigger] cache.full(earlier, size)
        },
        Err(error) => {
            &&& error == error_because(ErrorKind::Unexpected, "NSGA-II generation overflow"@)
            &&& forall|earlier: u32| #[trigger] cache.full(earlier, size)
        },
    }
}

/// The value of a generation or of the error in its place.
pub open spec fn generation_view(generation: Result<u32, Failure>) -> Result<u32, FailureView> {
    match generation {
        Ok(open) => Ok(open),
        Err(error) => Err(error@),
    }
}

impl NSGAIISampler {
    /// Brings the cache up to date with the trials of the study.
    pub fn sync_generation_cache(&mut self, trials: &[Option<PersistedTrial>])
        ensures
            syncs(old(self)@.cache, trials@, final(self)@.cache),
            final(self)@ == (SamplerView { cache: final(self)@.cache, ..old(self)@ }),
    {
        self.generation_index_cache.sync(trials);
    }

    /// The generation that the next child belongs to: the first one that is not full.
    pub fn get_child_generation(&mut self, trials: &[Option<PersistedTrial>]) -> (generation:
        Result<u32, Failure>)
        ensures
            syncs(old(self)@.cache, trials@, final(self)@.cache),
            final(self)@ == (SamplerView { cache: final(self)@.cache, ..old(self)@ }),
            opens(
                final(self)@.cache,
                old(self)@.population_size,
                generation_view(generation),
            ),
    {
        self.sync_generation_cache(trials);
        self.generation_index_cache.first_open_generation(self.population_size)
    }
}

/// What the sampler has to know, and what is to be kept, before a child is drawn.
#[derive(Debug)]
pub struct JointPlan {
    /// The generation of the child.
    pub child_generation: u32,
    /// The numbers of the trials from which the parents of the child are chosen.
    pub parents: Vec<u32>,
    /// What the trial of the child is to keep.
    pub trial_attrs: Attrs,
    /// What the study is to keep.
    pub study_attrs: Attrs,
}

/// The value of a [`JointPlan`].
pub struct PlanView {
    pub child_generation: u32,
    pub parents: Seq<u32>,
    pub trial_attrs: Map<AttrKeyView, Seq<char>>,
    pub study_attrs: Map<AttrKeyView, Seq<char>>,
}

impl View for JointPlan {
    type V = PlanView;

    open spec fn view(&self) -> PlanView {
        PlanView {
            child_generation: self.child_generation,
            parents: self.parents@,
            trial_attrs: self.trial_attrs@,
            study_attrs: self.study_attrs@,
        }
    }
}

/// The plan for a child of a generation with the given parents.
pub open spec fn plan_for(child_generation: u32, parents: ParentsView) -> PlanView {
    PlanView {
        child_generation,
        parents: parents.numbers,
        trial_attrs: map![generation_key() => decimal(child_generation as nat)],
        study_attrs: parents.attrs,
    }
}

/// The plan for a child of a known generation: the parents that the study keeps are looked up,
/// and those that are missing are worked out.
pub open spec fn plans_child<
    F: Fn(u32) -> Result<Option<u32>, Failure>,
    M: Fn(&Vec<Axis>, usize) -> Vec<Number>,
>(
    lookup: F,
    measure: M,
    cache: CacheView,
    size: nat,
    directions: Seq<Direction>,
    trials: Seq<Option<PersistedTrial>>,
    study_attrs: Map<AttrKeyView, Seq<char>>,
    child_generation: u32,
    plan: Result<PlanView, FailureView>,
) -> bool {
    exists|cached: Result<Option<(u32, Seq<u32>)>, FailureView>| #[trigger]
        restores(lookup, study_attrs, size, child_generation, cached) && match cached {
            Err(error) => plan == Err::<PlanView, FailureView>(error),
            Ok(known) => exists|parents: Result<ParentsView, FailureView>| #[trigger]
                breeds(
                    measure,
                    cache,
                    size,
                    directions,
                    trials,
                    child_generation,
                    known,
                    parents,
                ) && plan == match parents {
                    Ok(found) => Ok::<PlanView, FailureView>(plan_for(child_generation, found)),
                    Err(error) => Err::<PlanView, FailureView>(error),
                },
        }
}

/// The plan for the next child, given a cache that is up to date.
pub open spec fn plans<
    F: Fn(u32) -> Result<Option<u32>, Failure>,
    M: Fn(&Vec<Axis>, usize) -> Vec<Number>,
>(
    lookup: F,
    measure: M,
    cache: CacheView,
    size: nat,
    directions: Seq<Direction>,
    trials: Seq<Option<PersistedTrial>>,
    study_attrs: Map<AttrKeyView, Seq<char>>,
    plan: Result<PlanView, FailureView>,
) -> bool {
    exists|generation: Result<u32, FailureView>| #[trigger]
        opens(cache, size, generation) && match generation {
            Err(error) => plan == Err::<PlanView, FailureView>(error),
            Ok(open) => plans_child(
                lookup,
                measure,
                cache,
                size,
                directions,
                trials,
                study_attrs,
                open,
                plan,
            ),
        }
}

/// Parents that the study keeps for the generation of the child are taken as they are kept, and
/// are not written again: the plan is made, with nothing for the study to keep.
pub open spec fn reuses<F: Fn(u32) -> Result<Option<u32>, Failure>>(
    lookup: F,
    cache: CacheView,
    study_attrs: Map<AttrKeyView, Seq<char>>,
    size: nat,
    plan: Result<PlanView, FailureView>,
) -> bool {
    forall|generation: u32, ids: Seq<u32>, numbers: Seq<u32>|
        opens(cache, size, Ok(generation)) && #[trigger] recallable(
            lookup,
            study_attrs,
            size,
            generation,
            ids,
            numbers,
        ) ==> plan == Ok::<PlanView, FailureView>(
            plan_for(generation, ParentsView { numbers, attrs: Map::empty() }),
        )
}

proof fn lemma_one_generation_is_open(
    cache: CacheView,
    size: nat,
    generation: Result<u32, FailureView>,
    other: u32,
)
    requires
        opens(cache, size, generation),
        opens(cache, size, Ok(other)),
    ensures
        generation == Ok::<u32, FailureView>(other),
{
    match generation {
        Ok(open) => {
            if open < other {
                assert(cache.full(open, size));
            } else if other < open {
                assert(cache.full(other, size));
            }
        },
        Err(_) => {
            assert(cache.full(other, size));
        },
    }
}

impl NSGAIISampler {
    /// Finds the generation of the next child and its parents, and what is to be kept of both.
    ///
    /// `get_trial_number` looks a kept parent up in the storage, and `measure` adds up crowding
    /// distances.
    pub fn prepare_joint<
        F: Fn(u32) -> Result<Option<u32>, Failure>,
        M: Fn(&Vec<Axis>, usize) -> Vec<Number>,
    >(
        &mut self,
        ctx: &Context,
        trials: &[Option<PersistedTrial>],
        study_attrs: &Attrs,
        get_trial_number: &F,
        measure: &M,
    ) -> (plan: Result<JointPlan, Failure>)
        requires
            forall|id: u32| #[trigger] get_trial_number.requires((id,)),
            sound_measure(*measure),
        ensures
            syncs(old(self)@.cache, trials@, final(self)@.cache),
            final(self)@ == (SamplerView { cache: final(self)@.cache, ..old(self)@ }),
            plans(
                *get_trial_number,
                *measure,
                final(self)@.cache,
                old(self)@.population_size,
                ctx.directions@,
                trials@,
                study_attrs@,
                outcome(plan),
            ),
            reuses(
                *get_trial_number,
                final(self)@.cache,
                study_attrs@,
                old(self)@.population_size,
                outcome(plan),
            ),
    {
        let generation = self.get_child_generation(trials);
        assert(opens(self@.cache, self@.population_size, generation_view(generation)));
        proof {
            assert forall|other: u32| #[trigger]
                opens(self@.cache, self@.population_size, Ok(other)) implies generation_view(
                generation,
            ) == Ok::<u32, FailureView>(other) by {
                lemma_one_generation_is_open(
                    self@.cache,
                    self@.population_size,
                    generation_view(generation),
                    other,
                );
            }
        }
        let child_generation = match generation {
            Ok(open) => open,
            Err(error) => {
                return Err(error);
            },
        };
        let restored = restore_parent_population(
            get_trial_number,
            study_attrs,
            self.population_size,
            child_generation,
        );
        assert(restores(
            *get_trial_number,
            study_attrs@,
            self@.population_size,
            child_generation,
            restored_view(restored),
        ));
        let cached_parent = match restored {
            Ok(cached_parent) => cached_parent,
            Err(error) => {
                return Err(error);
            },
        };
        let ghost known = cached_view(cached_parent);
        let bred = get_parent_population_numbers(
            &self.generation_index_cache,
            self.population_size,
            ctx,
            trials,
            child_generation,
            cached_parent,
            measure,
        );
        assert(breeds(
            *measure,
            self@.cache,
            self@.population_size,
            ctx.directions@,
            trials@,
            child_generation,
            known,
            bred_view(bred),
        ));
        match bred {
            Ok((_, parents, new_attrs)) => {
                let mut trial_attrs = Attrs::new();
                trial_attrs.insert(generation_attr_key(), to_decimal(child_generation));
                let plan = JointPlan {
                    child_generation,
                    parents,
                    trial_attrs,
                    study_attrs: new_attrs,
                };
                assert(plan@.trial_attrs =~= map![
                    generation_key() => decimal(child_generation as nat)
                ]);
                Ok(plan)
            },
            Err(error) => Err(error),
        }
    }
}

/// The members of `pool` at the given positions.
pub open spec fn picked(pool: Seq<u32>, positions: Seq<int>) -> Seq<u32> {
    positions.map_values(|at: int| pool[at])
}

/// What the sampler draws for a child of two parents once it is known whether they are crossed
/// over, and the generator after it.
///
/// The generator decides, if the parents are crossed over, for each name in lexicographic order
/// whether it is swapped; then for each name whether it is mutated.
pub open spec fn child_given(
    sampler: SamplerView,
    rng: StdRng,
    parent0: Map<Seq<char>, Number>,
    parent1: Map<Seq<char>, Number>,
    names: Seq<Seq<char>>,
    crossing: bool,
) -> (Map<Seq<char>, Number>, StdRng) {
    let sorted = sorted_names(names);
    let (swaps, after_swaps) = if crossing {
        let (swaps, after) = coins(rng, sampler.swapping_prob->Ok_0, sorted.len());
        (Some(swaps), after)
    } else {
        (None, rng)
    };
    let (hits, after_hits) = coins(
        after_swaps,
        sampler.mutation_chance(sorted.len()),
        sorted.len(),
    );
    (spared(child_of(parent0, parent1, sorted, swaps), sorted, hits), after_hits)
}

/// What the sampler draws for a child of two parents, and the generator after it.
///
/// The generator first decides whether the parents are crossed over.
pub open spec fn child_sample(
    sampler: SamplerView,
    rng: StdRng,
    parent0: Map<Seq<char>, Number>,
    parent1: Map<Seq<char>, Number>,
    names: Seq<Seq<char>>,
) -> (Map<Seq<char>, Number>, StdRng) {
    let (crossing, after) = coin(rng, sampler.crossover_prob->Ok_0);
    child_given(sampler, after, parent0, parent1, names, crossing)
}

/// What the sampler draws for a child of the trials with the given numbers, and the generator
/// after it.
pub open spec fn pair_sample(
    sampler: SamplerView,
    rng: StdRng,
    trials: Seq<Option<PersistedTrial>>,
    first: u32,
    second: u32,
    names: Seq<Seq<char>>,
) -> (Result<Map<Seq<char>, Number>, FailureView>, StdRng) {
    match (trial_at(trials, first), trial_at(trials, second)) {
        (Some(parent0), Some(parent1)) => {
            let (params, after) = child_sample(
                sampler,
                rng,
                parent0.internal_params@,
                parent1.internal_params@,
                names,
            );
            (Ok(params), after)
        },
        _ => (Err(plain_error(ErrorKind::TrialDiscarded)), rng),
    }
}

/// The two parents that the generator chooses, and the generator after it.
pub open spec fn drawn_parents(rng: StdRng, parents: Seq<u32>) -> (
    Result<(u32, u32), FailureView>,
    StdRng,
) {
    let (positions, after) = drawn_positions(rng, parents.len(), 2);
    let chosen = picked(parents, positions);
    if chosen.len() < 2 {
        (Err(too_few_parents()), after)
    } else {
        (Ok((chosen[0], chosen[1])), after)
    }
}

/// What the sampler draws for a child of `generation`, and the generator after it.
///
/// A child of generation 0 has no parents, and all its parameters are to be drawn on their own.
pub open spec fn joint_sample(
    sampler: SamplerView,
    trials: Seq<Option<PersistedTrial>>,
    generation: u32,
    parents: Seq<u32>,
    names: Seq<Seq<char>>,
) -> (Result<Map<Seq<char>, Number>, FailureView>, StdRng) {
    if generation == 0 {
        (Ok(Map::empty()), sampler.rng)
    } else {
        match drawn_parents(sampler.rng, parents) {
            (Ok((first, second)), after) => pair_sample(
                sampler,
                after,
                trials,
                first,
                second,
                names,
            ),
            (Err(error), after) => (Err(error), after),
        }
    }
}

/// The two parents of a child of `generation`, if it has any, and the generator after they were
/// chosen.
pub open spec fn child_parents(rng: StdRng, generation: u32, parents: Seq<u32>) -> (
    Result<Option<(u32, u32)>, FailureView>,
    StdRng,
) {
    if generation == 0 {
        (Ok(None), rng)
    } else {
        match drawn_parents(rng, parents) {
            (Ok(pair), after) => (Ok(Some(pair)), after),
            (Err(error), after) => (Err(error), after),
        }
    }
}

/// The value of two parents or of the error in their place.
pub open spec fn pair_view(pair: Result<Option<(u32, u32)>, Failure>) -> Result<
    Option<(u32, u32)>,
    FailureView,
> {
    match pair {
        Ok(numbers) => Ok(numbers),
        Err(error) => Err(error@),
    }
}

/// Whether a child of two trials can be drawn: the trials that are read have a value for each name,
/// and chances are probabilities where they may be drawn with.
///
/// The second trial is read only where the first is there, and nothing is drawn unless both are.
/// Without names nothing is swapped or mutated.
pub open spec fn pair_ready(
    sampler: SamplerView,
    trials: Seq<Option<PersistedTrial>>,
    first: u32,
    second: u32,
    names: Seq<Seq<char>>,
) -> bool {
    match (trial_at(trials, first), trial_at(trials, second)) {
        (Some(parent0), Some(parent1)) => {
            &&& covers(parent0.internal_params@, names)
            &&& covers(parent1.internal_params@, names)
            &&& sampler.crossover_prob is Ok
            &&& sampler.can_swap(names.len())
            &&& sampler.can_mutate(names.len())
        },
        (Some(parent0), None) => covers(parent0.internal_params@, names),
        _ => true,
    }
}

/// Whether there are trials with two numbers.
pub open spec fn both_there(trials: Seq<Option<PersistedTrial>>, pair: (u32, u32)) -> bool {
    trial_at(trials, pair.0) is Some && trial_at(trials, pair.1) is Some
}

/// Whether two numbers stand at different places in `parents`.
pub open spec fn stand_apart(parents: Seq<u32>, pair: (u32, u32)) -> bool {
    exists|first: int, second: int|
        0 <= first < parents.len() && 0 <= second < parents.len() && first != second
            && #[trigger] parents[first] == pair.0 && #[trigger] parents[second] == pair.1
}

/// Whether each parameter is one of the given names and has the value that one of two members of
/// `parents`, at different places in it, has for it.
pub open spec fn inherits(
    trials: Seq<Option<PersistedTrial>>,
    parents: Seq<u32>,
    names: Seq<Seq<char>>,
    params: Map<Seq<char>, Number>,
) -> bool {
    exists|first: u32, second: u32| #[trigger]
        descends(trials, first, second, names, params) && stand_apart(parents, (first, second))
}

/// Whether each parameter is one of the given names and has the value that one of two trials has
/// for it.
pub open spec fn descends(
    trials: Seq<Option<PersistedTrial>>,
    first: u32,
    second: u32,
    names: Seq<Seq<char>>,
    params: Map<Seq<char>, Number>,
) -> bool {
    match (trial_at(trials, first), trial_at(trials, second)) {
        (Some(parent0), Some(parent1)) => forall|name: Seq<char>| #[trigger]
            params.contains_key(name) ==> {
                &&& names.contains(name)
                &&& params[name] == parent0.internal_params@[name] || params[name]
                    == parent1.internal_params@[name]
            },
        _ => false,
    }
}

/// Whether mutation leaves of the names what a chance that leaves nothing to chance leaves.
///
/// Where mutation is impossible no name is dropped, and where it is certain all are. One name
/// without a mutation probability is always dropped.
pub open spec fn heeds_mutation(
    sampler: SamplerView,
    names: Seq<Seq<char>>,
    params: Map<Seq<char>, Number>,
) -> bool {
    let mutation = sampler.mutation_chance(names.len());
    &&& impossible(mutation) ==> forall|name: Seq<char>| #[trigger]
        params.contains_key(name) <==> names.contains(name)
    &&& certain(mutation) || sampler.mutation_prob is None && names.len() <= 1 ==> params
        == Map::<Seq<char>, Number>::empty()
}

/// Whether all values are those of a parent.
pub open spec fn copies(params: Map<Seq<char>, Number>, parent: Map<Seq<char>, Number>) -> bool {
    forall|name: Seq<char>| #[trigger]
        params.contains_key(name) ==> params[name] == parent[name]
}

/// Whether a child of two parents, once it is known whether they are crossed over, is what chances
/// that leave nothing to chance make of it.
///
/// Where parents are crossed over and swapping is certain all values come from the second parent.
/// Where they are not, or swapping is impossible, all values come from the first.
pub open spec fn heeds_given(
    sampler: SamplerView,
    parent0: Map<Seq<char>, Number>,
    parent1: Map<Seq<char>, Number>,
    names: Seq<Seq<char>>,
    crossing: bool,
    params: Map<Seq<char>, Number>,
) -> bool {
    &&& heeds_mutation(sampler, names, params)
    &&& crossing && certain(sampler.swapping_prob->Ok_0) ==> copies(params, parent1)
    &&& !crossing || impossible(sampler.swapping_prob->Ok_0) ==> copies(params, parent0)
}

/// Whether a child of two parents is what chances that leave nothing to chance make of it.
///
/// Where crossover and swapping are certain all values come from the second parent, and where one
/// of them is impossible from the first.
pub open spec fn heeds_chances(
    sampler: SamplerView,
    parent0: Map<Seq<char>, Number>,
    parent1: Map<Seq<char>, Number>,
    names: Seq<Seq<char>>,
    params: Map<Seq<char>, Number>,
) -> bool {
    let crossover = sampler.crossover_prob->Ok_0;
    let swapping = sampler.swapping_prob->Ok_0;
    &&& heeds_mutation(sampler, names, params)
    &&& certain(crossover) && certain(swapping) ==> copies(params, parent1)
    &&& impossible(crossover) || impossible(swapping) ==> copies(params, parent0)
}

/// [`heeds_chances`] for two trials.
pub open spec fn pair_heeds_chances(
    sampler: SamplerView,
    trials: Seq<Option<PersistedTrial>>,
    pair: (u32, u32),
    names: Seq<Seq<char>>,
    params: Map<Seq<char>, Number>,
) -> bool {
    heeds_chances(
        sampler,
        trial_at(trials, pair.0)->0.internal_params@,
        trial_at(trials, pair.1)->0.internal_params@,
        names,
        params,
    )
}

proof fn lemma_child_descends(
    sampler: SamplerView,
    rng: StdRng,
    trials: Seq<Option<PersistedTrial>>,
    first: u32,
    second: u32,
    names: Seq<Seq<char>>,
)
    requires
        trial_at(trials, first) is Some,
        trial_at(trials, second) is Some,
    ensures
        descends(
            trials,
            first,
            second,
            names,
            pair_sample(sampler, rng, trials, first, second, names).0->Ok_0,
        ),
{
    let parent0 = trial_at(trials, first)->0.internal_params@;
    let parent1 = trial_at(trials, second)->0.internal_params@;
    let sorted = sorted_names(names);
    let (crossing, after_coin) = coin(rng, sampler.crossover_prob->Ok_0);
    let swaps = if crossing {
        Some(coins(after_coin, sampler.swapping_prob->Ok_0, sorted.len()).0)
    } else {
        None
    };
    let after_swaps = if crossing {
        coins(after_coin, sampler.swapping_prob->Ok_0, sorted.len()).1
    } else {
        after_coin
    };
    let hits = coins(after_swaps, sampler.mutation_chance(sorted.len()), sorted.len()).0;
    law_child_values_come_from_parents(parent0, parent1, sorted, swaps, hits);
    law_sorting_keeps_names(names);
}

proof fn lemma_covers_sorted(params: Map<Seq<char>, Number>, names: Seq<Seq<char>>)
    requires
        covers(params, names),
    ensures
        covers(params, sorted_names(names)),
{
    law_sorting_keeps_names(names);
    let sorted = sorted_names(names);
    assert forall|k: int| 0 <= k < sorted.len() implies params.contains_key(
        #[trigger] sorted[k],
    ) by {
        assert(sorted.contains(sorted[k]));
        let i = choose|i: int| 0 <= i < names.len() && names[i] == sorted[k];
        assert(params.contains_key(names[i]));
    }
}

proof fn lemma_only_names_matter(
    sampler: SamplerView,
    rng: StdRng,
    parent0: Map<Seq<char>, Number>,
    parent1: Map<Seq<char>, Number>,
    names: Seq<Seq<char>>,
)
    ensures
        child_sample(
            sampler,
            rng,
            chosen_params(parent0, names),
            chosen_params(parent1, names),
            names,
        ) == child_sample(sampler, rng, parent0, parent1, names),
{
    law_sorting_keeps_names(names);
    let sorted = sorted_names(names);
    let all0 = chosen_params(parent0, names);
    let all1 = chosen_params(parent1, names);
    assert(chosen_params(all0, sorted) =~= chosen_params(parent0, sorted));
    assert forall|swaps: Seq<bool>| #[trigger] crossed(all0, all1, sorted, swaps) == crossed(
        parent0,
        parent1,
        sorted,
        swaps,
    ) by {
        assert(crossed(all0, all1, sorted, swaps) =~= crossed(parent0, parent1, sorted, swaps));
    }
}

/// A draw does not depend on the order in which the names are listed, so two samplers in the same
/// state make the same of the same trials.
pub proof fn law_draws_do_not_depend_on_listing(
    sampler: SamplerView,
    trials: Seq<Option<PersistedTrial>>,
    generation: u32,
    parents: Seq<u32>,
    first: Seq<Seq<char>>,
    second: Seq<Seq<char>>,
)
    requires
        first.to_multiset() == second.to_multiset(),
    ensures
        joint_sample(sampler, trials, generation, parents, first) == joint_sample(
            sampler,
            trials,
            generation,
            parents,
            second,
        ),
{
    law_sorted_names_do_not_depend_on_listing(first, second);
}

impl NSGAIISampler {
    /// Makes a child by crossover: each parameter is taken from the second parent with the
    /// swapping probability, and from the first parent otherwise.
    pub fn crossover(
        &mut self,
        parent0: &Params,
        parent1: &Params,
        sorted_names: &Vec<String>,
    ) -> (child: Params)
        requires
            old(self)@.can_swap(sorted_names@.len()),
            covers(parent0@, texts(sorted_names@)),
            covers(parent1@, texts(sorted_names@)),
            texts(sorted_names@).no_duplicates(),
        ensures
            ({
                let (swaps, after) = coins(
                    old(self)@.rng,
                    old(self)@.swapping_prob->Ok_0,
                    sorted_names@.len(),
                );
                &&& child@ == crossed(parent0@, parent1@, texts(sorted_names@), swaps)
                &&& final(self)@ == (SamplerView { rng: after, ..old(self)@ })
            }),
            certain(old(self)@.swapping_prob->Ok_0) ==> child@ == chosen_params(
                parent1@,
                texts(sorted_names@),
            ),
            impossible(old(self)@.swapping_prob->Ok_0) ==> child@ == chosen_params(
                parent0@,
                texts(sorted_names@),
            ),
    {
        let ghost swapping = self.swapping_prob->Ok_0;
        let swaps = if sorted_names.len() == 0 {
            Vec::new()
        } else {
            let chance = self.swapping_prob.unwrap();
            flip_coins(&mut self.rng, &chance, sorted_names.len())
        };
        assert(sorted_names@.len() == 0 ==> swaps@ =~= Seq::<bool>::empty());
        let child = crossover_with(parent0, parent1, sorted_names, &swaps);
        proof {
            let listed = texts(sorted_names@);
            if certain(swapping) {
                assert(child@ =~= chosen_params(parent1@, listed));
            }
            if impossible(swapping) {
                assert(child@ =~= chosen_params(parent0@, listed));
            }
        }
        child
    }

    /// The chance with which each of `count` parameters is mutated.
    pub fn mutation_chance(&self, count: usize) -> (chance: Bernoulli)
        requires
            self@.mutation_prob matches Some(p) ==> p is Ok,
            self@.mutation_prob is None ==> count <= u32::MAX,
        ensures
            chance == self@.mutation_chance(count as nat),
    {
        match self.mutation_prob {
            Some(set) => set.unwrap(),
            None => {
                let at_least_one: u32 = if count >= 1 {
                    count as u32
                } else {
                    1
                };
                chance(1, at_least_one).unwrap()
            },
        }
    }

    /// Draws whether the parents of a child are crossed over.
    pub fn decide_crossover(&mut self) -> (crossing: bool)
        requires
            old(self)@.crossover_prob is Ok,
        ensures
            (crossing, final(self)@.rng) == coin(
                old(self)@.rng,
                old(self)@.crossover_prob->Ok_0,
            ),
            final(self)@ == (SamplerView { rng: final(self)@.rng, ..old(self)@ }),
            certain(old(self)@.crossover_prob->Ok_0) ==> crossing,
            impossible(old(self)@.crossover_prob->Ok_0) ==> !crossing,
    {
        let crossover = self.crossover_prob.unwrap();
        flip(&mut self.rng, &crossover)
    }

    /// Draws the parameters of a child of two parents, given whether they are crossed over. Those
    /// that mutation hits are left out, and are to be drawn on their own.
    pub fn sample_child(
        &mut self,
        parent0: Params,
        parent1: Params,
        names: &Vec<String>,
        crossing: bool,
    ) -> (params: Params)
        requires
            crossing ==> old(self)@.can_swap(names@.len()),
            old(self)@.can_mutate(names@.len()),
            covers(parent0@, texts(names@)),
            covers(parent1@, texts(names@)),
            texts(names@).no_duplicates(),
        ensures
            (params@, final(self)@.rng) == child_given(
                old(self)@,
                old(self)@.rng,
                parent0@,
                parent1@,
                texts(names@),
                crossing,
            ),
            final(self)@ == (SamplerView { rng: final(self)@.rng, ..old(self)@ }),
            heeds_given(old(self)@, parent0@, parent1@, texts(names@), crossing, params@),
    {
        let sorted = sorted_parameter_names(names);
        proof {
            law_sorting_keeps_names(texts(names@));
            lemma_covers_sorted(parent0@, texts(names@));
            lemma_covers_sorted(parent1@, texts(names@));
        }
        let ghost first = parent0@;
        let child = if crossing {
            self.crossover(&parent0, &parent1, &sorted)
        } else {
            parent0
        };
        let ghost mutation = self@.mutation_chance(sorted@.len());
        let hits = if sorted.len() == 0 {
            Vec::new()
        } else {
            let chance = self.mutation_chance(sorted.len());
            flip_coins(&mut self.rng, &chance, sorted.len())
        };
        assert(sorted@.len() == 0 ==> hits@ =~= Seq::<bool>::empty());
        proof {
            let listed = texts(sorted@);
            assert forall|k: int| 0 <= k < listed.len() implies child@.contains_key(
                #[trigger] listed[k],
            ) by {
                assert(listed.contains(listed[k]));
            }
            assert(spared(first, listed, hits@) =~= spared(
                chosen_params(first, listed),
                listed,
                hits@,
            ));
        }
        let params = mutate_with(&child, &sorted, &hits);
        proof {
            let listed = texts(sorted@);
            assert forall|name: Seq<char>| #[trigger] listed.contains(name) implies 0
                <= listed.index_of(name) < hits@.len() by {
                assert(listed[listed.index_of(name)] == name);
            }
            if impossible(mutation) {
                assert forall|name: Seq<char>| #[trigger]
                    params@.contains_key(name) <==> texts(names@).contains(name) by {
                    if listed.contains(name) {
                        assert(!hits@[listed.index_of(name)]);
                    }
                }
            }
            if mutation == ratio(1, 1) {
                assert(certain(mutation));
            }
            if certain(mutation) {
                assert forall|name: Seq<char>| !(#[trigger] params@.contains_key(name)) by {
                    if listed.contains(name) {
                        assert(hits@[listed.index_of(name)]);
                    }
                }
                assert(params@ =~= Map::<Seq<char>, Number>::empty());
            }
        }
        params
    }

    /// Chooses the two parents of the child that a plan is for. A child of generation 0 has none.
    pub fn choose_parents(&mut self, plan: &JointPlan) -> (pair: Result<
        Option<(u32, u32)>,
        Failure,
    >)
        ensures
            (pair_view(pair), final(self)@.rng) == child_parents(
                old(self)@.rng,
                plan.child_generation,
                plan.parents@,
            ),
            final(self)@ == (SamplerView { rng: final(self)@.rng, ..old(self)@ }),
            pair is Ok <==> plan.child_generation == 0 || plan.parents@.len() >= 2,
            pair matches Ok(Some(numbers)) ==> stand_apart(plan.parents@, numbers),
    {
        if plan.child_generation == 0 {
            return Ok(None);
        }
        let ghost parents = plan.parents@;
        let ghost positions = drawn_positions(self.rng, parents.len(), 2).0;
        let chosen = choose_multiple(&mut self.rng, &plan.parents, 2);
        assert(chosen@ =~= picked(parents, positions));
        match parent_pair(&chosen) {
            Ok((first, second)) => {
                assert(parents[positions[0]] == first && parents[positions[1]] == second);
                Ok(Some((first, second)))
            },
            Err(error) => Err(error),
        }
    }

    /// Draws the parameters of a child of two trials, which are crossed over or not, and mutated.
    ///
    /// Names that the result lacks are to be drawn on their own.
    pub fn sample_pair(
        &mut self,
        trials: &[Option<PersistedTrial>],
        first: u32,
        second: u32,
        names: &Vec<String>,
    ) -> (params: Result<Params, Failure>)
        requires
            pair_ready(old(self)@, trials@, first, second, texts(names@)),
            texts(names@).no_duplicates(),
        ensures
            (outcome(params), final(self)@.rng) == pair_sample(
                old(self)@,
                old(self)@.rng,
                trials@,
                first,
                second,
                texts(names@),
            ),
            final(self)@ == (SamplerView { rng: final(self)@.rng, ..old(self)@ }),
            params is Ok <==> trial_at(trials@, first) is Some && trial_at(trials@, second) is Some,
            params is Ok ==> descends(trials@, first, second, texts(names@), params->Ok_0@),
            params is Ok ==> pair_heeds_chances(
                old(self)@,
                trials@,
                (first, second),
                texts(names@),
                params->Ok_0@,
            ),
    {
        let parent0 = match build_parent_params(trials, first, names) {
            Ok(parent0) => parent0,
            Err(error) => {
                return Err(error);
            },
        };
        let parent1 = match build_parent_params(trials, second, names) {
            Ok(parent1) => parent1,
            Err(error) => {
                return Err(error);
            },
        };
        proof {
            lemma_only_names_matter(
                self@,
                self.rng,
                trial_at(trials@, first)->0.internal_params@,
                trial_at(trials@, second)->0.internal_params@,
                texts(names@),
            );
            lemma_child_descends(self@, self.rng, trials@, first, second, texts(names@));
        }
        let ghost start = self@;
        let crossing = self.decide_crossover();
        let ghost first0 = parent0@;
        let ghost second0 = parent1@;
        let params = self.sample_child(parent0, parent1, names, crossing);
        proof {
            let own0 = trial_at(trials@, first)->0.internal_params@;
            let own1 = trial_at(trials@, second)->0.internal_params@;
            assert(heeds_given(start, own0, own1, texts(names@), crossing, params@)) by {
                assert(heeds_given(start, first0, second0, texts(names@), crossing, params@));
                assert forall|name: Seq<char>| #[trigger] params@.contains_key(name) implies first0[name]
                    == own0[name] && second0[name] == own1[name] by {
                    assert(texts(names@).contains(name));
                }
            }
        }
        Ok(params)
    }

    /// Draws the parameters of the child that a plan is for.
    pub fn sample_joint(
        &mut self,
        trials: &[Option<PersistedTrial>],
        plan: &JointPlan,
        names: &Vec<String>,
    ) -> (params: Result<Params, Failure>)
        requires
            texts(names@).no_duplicates(),
            plan.child_generation != 0 ==> forall|i: int, j: int|
                0 <= i < plan.parents@.len() && 0 <= j < plan.parents@.len() && i != j
                    ==> #[trigger] pair_ready(
                    old(self)@,
                    trials@,
                    plan.parents@[i],
                    plan.parents@[j],
                    texts(names@),
                ),
        ensures
            (outcome(params), final(self)@.rng) == joint_sample(
                old(self)@,
                trials@,
                plan.child_generation,
                plan.parents@,
                texts(names@),
            ),
            final(self)@ == (SamplerView { rng: final(self)@.rng, ..old(self)@ }),
            plan.child_generation != 0 && plan.parents@.len() >= 2 ==> drawn_parents(
                old(self)@.rng,
                plan.parents@,
            ).0 is Ok && stand_apart(
                plan.parents@,
                drawn_parents(old(self)@.rng, plan.parents@).0->Ok_0,
            ),
            params is Ok <==> plan.child_generation == 0 || plan.parents@.len() >= 2 && both_there(
                trials@,
                drawn_parents(old(self)@.rng, plan.parents@).0->Ok_0,
            ),
            params is Ok && plan.child_generation != 0 ==> inherits(
                trials@,
                plan.parents@,
                texts(names@),
                params->Ok_0@,
            ),
            plan.child_generation != 0 && plan.parents@.len() < 2 ==> outcome(params) == Err::<
                Map<Seq<char>, Number>,
                FailureView,
            >(too_few_parents()),
            params is Ok && plan.child_generation != 0 ==> pair_heeds_chances(
                old(self)@,
                trials@,
                drawn_parents(old(self)@.rng, plan.parents@).0->Ok_0,
                texts(names@),
                params->Ok_0@,
            ),
    {
        match self.choose_parents(plan) {
            Ok(None) => Ok(Params::new()),
            Ok(Some((first, second))) => {
                proof {
                    let (i, j) = choose|i: int, j: int|
                        0 <= i < plan.parents@.len() && 0 <= j < plan.parents@.len() && i != j
                            && #[trigger] plan.parents@[i] == first && #[trigger] plan.parents@[j]
                            == second;
                    assert(pair_ready(
                        old(self)@,
                        trials@,
                        plan.parents@[i],
                        plan.parents@[j],
                        texts(names@),
                    ));
                }
                self.sample_pair(trials, first, second, names)
            },
            Err(error) => Err(error),
        }
    }
}

/// What a new sampler holds: what it was made with, and a cache that has seen nothing.
pub proof fn law_new_samplers_hold_what_they_are_made_with(
    rng: StdRng,
    population_size: nat,
    mutation_prob: Option<Result<Bernoulli, BernoulliError>>,
    crossover_prob: Result<Bernoulli, BernoulliError>,
    swapping_prob: Result<Bernoulli, BernoulliError>,
)
    ensures
        ({
            let made = new_sampler(
                rng,
                population_size,
                mutation_prob,
                crossover_prob,
                swapping_prob,
            );
            &&& made.rng == rng
            &&& made.population_size == population_size
            &&& made.mutation_prob == mutation_prob
            &&& made.crossover_prob == crossover_prob
            &&& made.swapping_prob == swapping_prob
            &&& made.cache == CacheView::fresh()
        }),
{
}

/// The chance of a mutation is the one that is set, whatever the number of parameters; where none
/// is set it is one in as many as there are.
pub proof fn law_mutation_is_as_likely_as_set_or_one_in_all(sampler: SamplerView, count: u32)
    ensures
        sampler.mutation_prob matches Some(Ok(p)) ==> sampler.mutation_chance(count as nat) == p,
        sampler.mutation_prob is None && count >= 1 ==> sampler.mutation_chance(count as nat)
            == ratio(1, count),
{
}

/// The next child belongs to the least generation that is not full; there is none where all are.
pub proof fn law_the_least_generation_that_is_not_full_is_open(
    cache: CacheView,
    size: nat,
    generation: Result<u32, FailureView>,
    other: u32,
)
    requires
        opens(cache, size, generation),
    ensures
        match generation {
            Ok(open) => {
                &&& !cache.full(open, size)
                &&& !cache.full(other, size) ==> open <= other
            },
            Err(error) => {
                &&& cache.full(other, size)
                &&& error.kind == ErrorKind::Unexpected
                &&& error.reason == Some("NSGA-II generation overflow"@)
            },
        },
{
    if let Ok(open) = generation {
        if other < open {
            assert(cache.full(other, size));
        }
    }
}

/// A plan says what it was made of: the generation, for the trial in decimal digits, and the
/// parents with what the study is to keep of them.
pub proof fn law_plans_say_what_they_are_made_of(child_generation: u32, parents: ParentsView)
    ensures
        ({
            let plan = plan_for(child_generation, parents);
            &&& plan.child_generation == child_generation
            &&& plan.parents == parents.numbers
            &&& plan.study_attrs == parents.attrs
            &&& forall|key: AttrKeyView| #[trigger]
                plan.trial_attrs.contains_key(key) <==> key == AttrKeyView::System("generation"@)
            &&& plan.trial_attrs[AttrKeyView::System("generation"@)] == decimal(
                child_generation as nat,
            )
        }),
{
}

/// How a child is drawn once it is known whether its parents are crossed over. For each name, in
/// lexicographic order, a draw with the swapping chance decides between the parents, if they are
/// crossed over; then a draw with the mutation chance decides for each whether it is dropped.
pub proof fn law_each_name_of_a_child_is_drawn_for(
    sampler: SamplerView,
    rng: StdRng,
    parent0: Map<Seq<char>, Number>,
    parent1: Map<Seq<char>, Number>,
    names: Seq<Seq<char>>,
    crossing: bool,
)
    requires
        names.no_duplicates(),
    ensures
        ({
            let sorted = sorted_names(names);
            let n = names.len();
            let (params, then) = child_given(sampler, rng, parent0, parent1, names, crossing);
            let (swaps, swapped) = if crossing {
                coins(rng, sampler.swapping_prob->Ok_0, n)
            } else {
                (Seq::new(n, |k: int| false), rng)
            };
            let (hits, mutated) = coins(swapped, sampler.mutation_chance(n), n);
            &&& then == mutated
            &&& forall|k: int|
                0 <= k < n ==> {
                    &&& params.contains_key(#[trigger] sorted[k]) <==> !hits[k]
                    &&& !hits[k] ==> params[sorted[k]] == if swaps[k] {
                        parent1[sorted[k]]
                    } else {
                        parent0[sorted[k]]
                    }
                }
            &&& forall|name: Seq<char>| #[trigger]
                params.contains_key(name) ==> names.contains(name)
        }),
{
    law_sorting_keeps_names(names);
    let sorted = sorted_names(names);
    let n = names.len();
    let (params, then) = child_given(sampler, rng, parent0, parent1, names, crossing);
    law_coins_are_drawn_one_after_the_other(rng, sampler.swapping_prob->Ok_0, n);
    let (swaps, swapped) = if crossing {
        coins(rng, sampler.swapping_prob->Ok_0, n)
    } else {
        (Seq::new(n, |k: int| false), rng)
    };
    law_coins_are_drawn_one_after_the_other(swapped, sampler.mutation_chance(n), n);
    let (hits, mutated) = coins(swapped, sampler.mutation_chance(n), n);
    let given: Option<Seq<bool>> = if crossing {
        Some(swaps)
    } else {
        None
    };
    let child = child_of(parent0, parent1, sorted, given);
    law_each_name_is_dropped_by_its_own_draw(child, sorted, hits);
    law_each_name_is_swapped_by_its_own_draw(parent0, parent1, sorted, swaps);
    assert(params == spared(child, sorted, hits));
    assert forall|k: int| 0 <= k < n implies {
        &&& params.contains_key(#[trigger] sorted[k]) <==> !hits[k]
        &&& !hits[k] ==> params[sorted[k]] == if swaps[k] {
            parent1[sorted[k]]
        } else {
            parent0[sorted[k]]
        }
    } by {
        assert(sorted.contains(sorted[k]));
        law_without_crossover_the_first_parent_is_copied(parent0, parent1, sorted, sorted[k]);
    }
    assert forall|name: Seq<char>| #[trigger] params.contains_key(name) implies names.contains(
        name,
    ) by {
        assert(sorted.contains(name));
    }
}

/// Whether parents are crossed over is drawn first, with the crossover chance.
pub proof fn law_crossover_is_drawn_first(
    sampler: SamplerView,
    rng: StdRng,
    parent0: Map<Seq<char>, Number>,
    parent1: Map<Seq<char>, Number>,
    names: Seq<Seq<char>>,
)
    requires
        sampler.crossover_prob is Ok,
    ensures
        child_sample(sampler, rng, parent0, parent1, names) == child_given(
            sampler,
            coin(rng, sampler.crossover_prob->Ok_0).1,
            parent0,
            parent1,
            names,
            coin(rng, sampler.crossover_prob->Ok_0).0,
        ),
{
}

/// A child of two trials is drawn from their parameters, the first trial as the first parent. Where
/// one of them is gone nothing is drawn.
pub proof fn law_the_first_trial_is_the_first_parent(
    sampler: SamplerView,
    rng: StdRng,
    trials: Seq<Option<PersistedTrial>>,
    first: u32,
    second: u32,
    names: Seq<Seq<char>>,
)
    ensures
        ({
            let (sample, after) = pair_sample(sampler, rng, trials, first, second, names);
            match (trial_at(trials, first), trial_at(trials, second)) {
                (Some(parent0), Some(parent1)) => {
                    let (params, then) = child_sample(
                        sampler,
                        rng,
                        parent0.internal_params@,
                        parent1.internal_params@,
                        names,
                    );
                    sample == Ok::<Map<Seq<char>, Number>, FailureView>(params) && after == then
                },
                _ => {
                    &&& sample matches Err(error)
                    &&& error.kind == ErrorKind::TrialDiscarded
                    &&& error.reason is None
                    &&& after == rng
                },
            }
        }),
{
}

/// The parents of a child are those at the first two places that are drawn for two of as many as
/// there are. A child of generation 0 has none, and nothing is drawn for it.
pub proof fn law_parents_stand_where_the_draw_says(
    sampler: SamplerView,
    trials: Seq<Option<PersistedTrial>>,
    generation: u32,
    parents: Seq<u32>,
    names: Seq<Seq<char>>,
)
    ensures
        ({
            let (sample, after) = joint_sample(sampler, trials, generation, parents, names);
            let (pair, chosen) = child_parents(sampler.rng, generation, parents);
            let (places, then) = drawn_positions(sampler.rng, parents.len(), 2);
            if generation == 0 {
                &&& sample == Ok::<Map<Seq<char>, Number>, FailureView>(Map::empty())
                &&& after == sampler.rng
                &&& pair == Ok::<Option<(u32, u32)>, FailureView>(None)
                &&& chosen == sampler.rng
            } else if places.len() < 2 {
                &&& sample matches Err(error)
                &&& error.kind == ErrorKind::SamplerError
                &&& error.reason == Some("NSGA-II requires at least two parent trials"@)
                &&& pair == Err::<Option<(u32, u32)>, FailureView>(error)
                &&& after == then
                &&& chosen == then
            } else {
                let first = parents[places[0]];
                let second = parents[places[1]];
                &&& (sample, after) == pair_sample(sampler, then, trials, first, second, names)
                &&& pair == Ok::<Option<(u32, u32)>, FailureView>(Some((first, second)))
                &&& chosen == then
            }
        }),
{
}

/// A cache is brought up to date by looking again at each trial that was unfinished, in some order,
/// each once.
pub proof fn law_caches_look_again_at_each_unfinished_trial(
    before: CacheView,
    trials: Seq<Option<PersistedTrial>>,
    after: CacheView,
)
    requires
        syncs(before, trials, after),
    ensures
        exists|numbers: Seq<u32>|
            #[trigger] lists(numbers, before.prepared(trials).unfinished) && after == before.synced(
                trials,
                numbers,
            ),
{
}

/// What a plan rests on: the generation is the one that is open, and its parents are bred from what
/// could be restored of those that the study keeps.
pub proof fn law_plans_rest_on_what_is_open_and_kept<
    F: Fn(u32) -> Result<Option<u32>, Failure>,
    M: Fn(&Vec<Axis>, usize) -> Vec<Number>,
>(
    lookup: F,
    measure: M,
    cache: CacheView,
    size: nat,
    directions: Seq<Direction>,
    trials: Seq<Option<PersistedTrial>>,
    study_attrs: Map<AttrKeyView, Seq<char>>,
    plan: Result<PlanView, FailureView>,
)
    requires
        plans(lookup, measure, cache, size, directions, trials, study_attrs, plan),
    ensures
        match plan {
            Ok(made) => {
                &&& opens(cache, size, Ok(made.child_generation))
                &&& exists|known: Option<(u32, Seq<u32>)>|
                    #[trigger] restores(
                        lookup,
                        study_attrs,
                        size,
                        made.child_generation,
                        Ok(known),
                    ) && breeds(
                        measure,
                        cache,
                        size,
                        directions,
                        trials,
                        made.child_generation,
                        known,
                        Ok(ParentsView { numbers: made.parents, attrs: made.study_attrs }),
                    )
                &&& made.trial_attrs.contains_key(AttrKeyView::System("generation"@))
                &&& made.trial_attrs[AttrKeyView::System("generation"@)] == decimal(
                    made.child_generation as nat,
                )
            },
            Err(error) => {
                ||| opens(cache, size, Err(error))
                ||| exists|open: u32|
                    #[trigger] opens(cache, size, Ok(open)) && {
                        ||| restores(lookup, study_attrs, size, open, Err(error))
                        ||| exists|known: Option<(u32, Seq<u32>)>|
                            #[trigger] restores(lookup, study_attrs, size, open, Ok(known))
                                && breeds(
                                measure,
                                cache,
                                size,
                                directions,
                                trials,
                                open,
                                known,
                                Err(error),
                            )
                    }
            },
        },
{
    let generation = choose|generation: Result<u32, FailureView>| #[trigger]
        opens(cache, size, generation) && match generation {
            Err(error) => plan == Err::<PlanView, FailureView>(error),
            Ok(open) => plans_child(
                lookup,
                measure,
                cache,
                size,
                directions,
                trials,
                study_attrs,
                open,
                plan,
            ),
        };
    if let Ok(open) = generation {
        let cached = choose|cached: Result<Option<(u32, Seq<u32>)>, FailureView>| #[trigger]
            restores(lookup, study_attrs, size, open, cached) && match cached {
                Err(error) => plan == Err::<PlanView, FailureView>(error),
                Ok(known) => exists|parents: Result<ParentsView, FailureView>| #[trigger]
                    breeds(measure, cache, size, directions, trials, open, known, parents) && plan
                        == match parents {
                        Ok(found) => Ok::<PlanView, FailureView>(plan_for(open, found)),
                        Err(error) => Err::<PlanView, FailureView>(error),
                    },
            };
        if let Ok(known) = cached {
            assert(restores(lookup, study_attrs, size, open, Ok(known)));
        }
    }
}

/// The values of a sampler, of plans, of generations and of pairs are those of what they hold.
pub proof fn law_samplers_and_plans_are_what_is_held(
    sampler: NSGAIISampler,
    plan: JointPlan,
    generation: u32,
    pair: Option<(u32, u32)>,
    error: Failure,
)
    ensures
        sampler@.rng == sampler.rng,
        sampler@.population_size == sampler.population_size,
        sampler@.mutation_prob == sampler.mutation_prob,
        sampler@.crossover_prob == sampler.crossover_prob,
        sampler@.swapping_prob == sampler.swapping_prob,
        sampler@.cache == sampler.generation_index_cache@,
        plan@.child_generation == plan.child_generation,
        plan@.parents == plan.parents@,
        plan@.trial_attrs == plan.trial_attrs@,
        plan@.study_attrs == plan.study_attrs@,
        generation_view(Ok(generation)) == Ok::<u32, FailureView>(generation),
        generation_view(Err(error)) == Err::<u32, FailureView>(error@),
        pair_view(Ok(pair)) == Ok::<Option<(u32, u32)>, FailureView>(pair),
        pair_view(Err(error)) == Err::<Option<(u32, u32)>, FailureView>(error@),
{
}

} // verus!
