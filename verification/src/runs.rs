use crate::attr::AttrKeyView;
use crate::crowding::measures;
use crate::crowding::steady_measure;
use crate::crowding::Axis;
use crate::crowding::AxisView;
use crate::error::Failure;
use crate::error::FailureView;
use crate::generation::lists;
use crate::generation::CacheView;
use crate::independent::independent_sample;
use crate::independent::Distribution;
use crate::independent::Draw;
use crate::indexing::accounts;
use crate::indexing::in_place;
use crate::indexing::indexes;
use crate::indexing::law_index_is_kept_up_to_date;
use crate::indexing::moves_on;
use crate::indexing::positions_below;
use crate::indexing::status_at;
use crate::number::Number;
use crate::parents::replies;
use crate::random::rng_from_number;
use crate::reproducibility::alike;
use crate::reproducibility::law_planning_is_reproducible;
use crate::sampler::joint_sample;
use crate::sampler::law_draws_do_not_depend_on_listing;
use crate::sampler::new_sampler;
use crate::sampler::plans;
use crate::sampler::syncs;
use crate::sampler::PlanView;
use crate::sampler::SamplerView;
use crate::trial::Direction;
use crate::trial::PersistedTrial;
use rand::distributions::Bernoulli;
use rand::distributions::BernoulliError;
use rand::rngs::StdRng;
use vstd::multiset::Multiset;
use vstd::prelude::*;

verus! {

/// What a sampler is asked for.
pub enum Call {
    /// The generation of the next child and its parents.
    Prepare,
    /// The parameters of a child that are drawn together.
    Joint { generation: u32, parents: Seq<u32>, names: Multiset<Seq<char>> },
    /// One parameter that is drawn on its own.
    Independent { distribution: Distribution, single_value: Option<Result<Number, FailureView>> },
}

/// What a sampler gives back.
pub enum Reply {
    Plan(Result<PlanView, FailureView>),
    Params(Result<Map<Seq<char>, Number>, FailureView>),
    Value(Result<Draw, FailureView>),
}

/// Whether a sampler may give `reply` to a call and be `after` then.
///
/// The names of a joint draw may be listed in any order.
pub open spec fn responds<
    F: Fn(u32) -> Result<Option<u32>, Failure>,
    M: Fn(&Vec<Axis>, usize) -> Vec<Number>,
>(
    lookup: F,
    measure: M,
    directions: Seq<Direction>,
    sampler: SamplerView,
    trials: Seq<Option<PersistedTrial>>,
    study_attrs: Map<AttrKeyView, Seq<char>>,
    call: Call,
    after: SamplerView,
    reply: Reply,
) -> bool {
    match (call, reply) {
        (Call::Prepare, Reply::Plan(plan)) => {
            &&& syncs(sampler.cache, trials, after.cache)
            &&& after == (SamplerView { cache: after.cache, ..sampler })
            &&& plans(
                lookup,
                measure,
                after.cache,
                sampler.population_size,
                directions,
                trials,
                study_attrs,
                plan,
            )
        },
        (Call::Joint { generation, parents, names }, Reply::Params(params)) => {
            &&& exists|listing: Seq<Seq<char>>|
                listing.to_multiset() == names && (params, after.rng) == #[trigger] joint_sample(
                    sampler,
                    trials,
                    generation,
                    parents,
                    listing,
                )
            &&& after == (SamplerView { rng: after.rng, ..sampler })
        },
        (Call::Independent { distribution, single_value }, Reply::Value(value)) => {
            &&& (value, after.rng) == independent_sample(sampler.rng, distribution, single_value)
            &&& after == (SamplerView { rng: after.rng, ..sampler })
        },
        _ => false,
    }
}

/// Whether at most one trial was unfinished when the cache last looked, so that there is one order
/// only in which unfinished trials can be looked at again.
pub open spec fn settled(cache: CacheView, trials: Seq<Option<PersistedTrial>>) -> bool {
    forall|m: u32, n: u32|
        (#[trigger] cache.prepared(trials).unfinished.contains(m)) && (
        #[trigger] cache.prepared(trials).unfinished.contains(n)) ==> m == n
}

/// Whether at most one trial is unfinished.
pub open spec fn one_unfinished(trials: Seq<Option<PersistedTrial>>) -> bool {
    forall|m: u32, n: u32|
        m < trials.len() && n < trials.len() && (#[trigger] status_at(trials, m)) is Unfinished && (
        #[trigger] status_at(trials, n)) is Unfinished ==> m == n
}

/// With at most one unfinished trial, a cache is brought up to date in one way only.
pub proof fn law_syncing_is_reproducible(
    cache: CacheView,
    trials: Seq<Option<PersistedTrial>>,
    a: CacheView,
    b: CacheView,
)
    requires
        settled(cache, trials),
        syncs(cache, trials, a),
        syncs(cache, trials, b),
    ensures
        a == b,
{
    let set = cache.prepared(trials).unfinished;
    let first = choose|numbers: Seq<u32>| #[trigger]
        lists(numbers, set) && a == cache.synced(trials, numbers);
    let second = choose|numbers: Seq<u32>| #[trigger]
        lists(numbers, set) && b == cache.synced(trials, numbers);
    lemma_short_listing(first, set);
    lemma_short_listing(second, set);
    assert(first.len() == second.len()) by {
        if first.len() == 1 {
            assert(first.to_set().contains(first[0]));
            assert(second.contains(first[0]));
        }
        if second.len() == 1 {
            assert(second.to_set().contains(second[0]));
            assert(first.contains(second[0]));
        }
    }
    if first.len() == 1 {
        assert(first.to_set().contains(first[0]));
        assert(second.to_set().contains(second[0]));
        assert(set.contains(first[0]) && set.contains(second[0]));
    }
    assert(first =~= second);
}

proof fn lemma_short_listing(numbers: Seq<u32>, set: Set<u32>)
    requires
        lists(numbers, set),
        forall|m: u32, n: u32| (#[trigger] set.contains(m)) && (#[trigger] set.contains(n)) ==> m == n,
    ensures
        numbers.len() <= 1,
{
    if numbers.len() > 1 {
        assert(numbers.to_set().contains(numbers[0]));
        assert(numbers.to_set().contains(numbers[1]));
        assert(set.contains(numbers[0]) && set.contains(numbers[1]));
    }
}

/// Two samplers of equal value give the same reply to the same call, and are of equal value then:
/// equal plans, equal samples and equal values.
pub proof fn law_calls_are_reproducible<
    F: Fn(u32) -> Result<Option<u32>, Failure>,
    G: Fn(u32) -> Result<Option<u32>, Failure>,
    M: Fn(&Vec<Axis>, usize) -> Vec<Number>,
>(
    first: F,
    second: G,
    measure: M,
    directions: Seq<Direction>,
    sampler: SamplerView,
    trials: Seq<Option<PersistedTrial>>,
    study_attrs: Map<AttrKeyView, Seq<char>>,
    call: Call,
    a: (SamplerView, Reply),
    b: (SamplerView, Reply),
)
    requires
        alike(first, second),
        steady_measure(measure),
        call is Prepare ==> settled(sampler.cache, trials),
        responds(first, measure, directions, sampler, trials, study_attrs, call, a.0, a.1),
        responds(second, measure, directions, sampler, trials, study_attrs, call, b.0, b.1),
    ensures
        a == b,
{
    match call {
        Call::Prepare => {
            law_syncing_is_reproducible(sampler.cache, trials, a.0.cache, b.0.cache);
            law_planning_is_reproducible(
                first,
                second,
                measure,
                a.0.cache,
                sampler.population_size,
                directions,
                trials,
                study_attrs,
                a.1->Plan_0,
                b.1->Plan_0,
            );
        },
        Call::Joint { generation, parents, names } => {
            let listing_a = choose|listing: Seq<Seq<char>>|
                listing.to_multiset() == names && (a.1->Params_0, a.0.rng)
                    == #[trigger] joint_sample(sampler, trials, generation, parents, listing);
            let listing_b = choose|listing: Seq<Seq<char>>|
                listing.to_multiset() == names && (b.1->Params_0, b.0.rng)
                    == #[trigger] joint_sample(sampler, trials, generation, parents, listing);
            law_draws_do_not_depend_on_listing(
                sampler,
                trials,
                generation,
                parents,
                listing_a,
                listing_b,
            );
        },
        Call::Independent { .. } => {},
    }
}

/// A sampler and its study between two calls, with all replies so far.
pub struct Scene {
    pub sampler: SamplerView,
    pub trials: Seq<Option<PersistedTrial>>,
    pub study_attrs: Map<AttrKeyView, Seq<char>>,
    pub replies: Seq<Reply>,
}

/// What happens before a call, and the call: the storage and the objective may have changed the
/// study, and numbers may have been drawn with the generator of the sampler.
pub struct Turn {
    pub rng: StdRng,
    pub trials: Seq<Option<PersistedTrial>>,
    pub study_attrs: Map<AttrKeyView, Seq<char>>,
    pub call: Call,
}

/// What drives a sampler, with nothing left to chance: what happens next follows from what has
/// been, what is found for an ID follows from the trials, and distances follow from the axes.
pub struct Driver {
    pub turn: spec_fn(Scene) -> Turn,
    pub answer: spec_fn(Seq<Option<PersistedTrial>>, u32) -> Result<Option<u32>, FailureView>,
    pub distances: spec_fn(Seq<AxisView>, nat) -> Seq<Number>,
}

/// Whether crowding distances are added up as the driver has them.
pub open spec fn adds_up<M: Fn(&Vec<Axis>, usize) -> Vec<Number>>(
    measure: M,
    driver: Driver,
) -> bool {
    forall|axes: Seq<AxisView>, count: nat, distances: Seq<Number>| #[trigger]
        measures(measure, axes, count, distances) ==> distances == (driver.distances)(axes, count)
}

/// Whether a lookup can only give the answers that the driver has for the trials.
pub open spec fn agrees<F: Fn(u32) -> Result<Option<u32>, Failure>>(
    lookup: F,
    driver: Driver,
    trials: Seq<Option<PersistedTrial>>,
) -> bool {
    forall|id: u32, reply: Result<Option<u32>, FailureView>| #[trigger]
        replies(lookup, id, reply) ==> reply == (driver.answer)(trials, id)
}

/// Whether a scene leads to the next one.
pub open spec fn advances<
    F: Fn(u32) -> Result<Option<u32>, Failure>,
    M: Fn(&Vec<Axis>, usize) -> Vec<Number>,
>(
    driver: Driver,
    lookup: F,
    measure: M,
    directions: Seq<Direction>,
    before: Scene,
    after: Scene,
) -> bool {
    let turn = (driver.turn)(before);
    &&& agrees(lookup, driver, turn.trials)
    &&& after.trials == turn.trials
    &&& after.study_attrs == turn.study_attrs
    &&& after.replies.len() == before.replies.len() + 1
    &&& after.replies.drop_last() == before.replies
    &&& responds(
        lookup,
        measure,
        directions,
        SamplerView { rng: turn.rng, ..before.sampler },
        turn.trials,
        turn.study_attrs,
        turn.call,
        after.sampler,
        after.replies.last(),
    )
}

/// Whether the scene at place `k` of a run leads to the next one.
pub open spec fn advances_at<
    F: Fn(u32) -> Result<Option<u32>, Failure>,
    M: Fn(&Vec<Axis>, usize) -> Vec<Number>,
>(
    driver: Driver,
    lookups: Seq<F>,
    measure: M,
    directions: Seq<Direction>,
    scenes: Seq<Scene>,
    k: int,
) -> bool {
    advances(driver, lookups[k], measure, directions, scenes[k], scenes[k + 1])
}

/// A run: each scene leads to the next one, with a lookup of its own.
pub open spec fn runs<
    F: Fn(u32) -> Result<Option<u32>, Failure>,
    M: Fn(&Vec<Axis>, usize) -> Vec<Number>,
>(
    driver: Driver,
    lookups: Seq<F>,
    measure: M,
    directions: Seq<Direction>,
    scenes: Seq<Scene>,
) -> bool {
    &&& adds_up(measure, driver)
    &&& scenes.len() == lookups.len() + 1
    &&& forall|k: int|
        0 <= k < lookups.len() ==> #[trigger] advances_at(
            driver,
            lookups,
            measure,
            directions,
            scenes,
            k,
        )
}

/// Whether the cache leaves no choice where the next call needs it.
pub open spec fn settled_scene(driver: Driver, scene: Scene) -> bool {
    (driver.turn)(scene).call is Prepare ==> settled(
        scene.sampler.cache,
        (driver.turn)(scene).trials,
    )
}

/// Two runs of the same driver that begin in the same scene go through the same scenes, call by
/// call, whatever the order in which names are listed.
pub proof fn law_runs_are_reproducible<
    F: Fn(u32) -> Result<Option<u32>, Failure>,
    G: Fn(u32) -> Result<Option<u32>, Failure>,
    M: Fn(&Vec<Axis>, usize) -> Vec<Number>,
>(
    driver: Driver,
    lookups_a: Seq<F>,
    lookups_b: Seq<G>,
    measure: M,
    directions: Seq<Direction>,
    a: Seq<Scene>,
    b: Seq<Scene>,
)
    requires
        runs(driver, lookups_a, measure, directions, a),
        runs(driver, lookups_b, measure, directions, b),
        a.len() == b.len(),
        a[0] == b[0],
        forall|k: int| 0 <= k < lookups_a.len() ==> settled_scene(driver, #[trigger] a[k]),
    ensures
        a == b,
{
    assert forall|k: int| 0 <= k < a.len() implies a[k] == b[k] by {
        lemma_same_scene(driver, lookups_a, lookups_b, measure, directions, a, b, k);
    }
    assert(a =~= b);
}

proof fn lemma_same_scene<
    F: Fn(u32) -> Result<Option<u32>, Failure>,
    G: Fn(u32) -> Result<Option<u32>, Failure>,
    M: Fn(&Vec<Axis>, usize) -> Vec<Number>,
>(
    driver: Driver,
    lookups_a: Seq<F>,
    lookups_b: Seq<G>,
    measure: M,
    directions: Seq<Direction>,
    a: Seq<Scene>,
    b: Seq<Scene>,
    k: int,
)
    requires
        runs(driver, lookups_a, measure, directions, a),
        runs(driver, lookups_b, measure, directions, b),
        a.len() == b.len(),
        a[0] == b[0],
        forall|k: int| 0 <= k < lookups_a.len() ==> settled_scene(driver, #[trigger] a[k]),
        0 <= k < a.len(),
    ensures
        a[k] == b[k],
    decreases k,
{
    if k > 0 {
        lemma_same_scene(driver, lookups_a, lookups_b, measure, directions, a, b, k - 1);
        assert(advances_at(driver, lookups_a, measure, directions, a, k - 1));
        assert(advances_at(driver, lookups_b, measure, directions, b, k - 1));
        let before = a[k - 1];
        let turn = (driver.turn)(before);
        assert(alike(lookups_a[k - 1], lookups_b[k - 1]));
        assert(steady_measure(measure));
        assert(settled_scene(driver, before));
        law_calls_are_reproducible(
            lookups_a[k - 1],
            lookups_b[k - 1],
            measure,
            directions,
            SamplerView { rng: turn.rng, ..before.sampler },
            turn.trials,
            turn.study_attrs,
            turn.call,
            (a[k].sampler, a[k].replies.last()),
            (b[k].sampler, b[k].replies.last()),
        );
        assert(a[k].replies =~= a[k].replies.drop_last().push(a[k].replies.last()));
        assert(b[k].replies =~= b[k].replies.drop_last().push(b[k].replies.last()));
    }
}

/// A study without trials, and a sampler that has not been asked for anything.
pub open spec fn opening(sampler: SamplerView) -> Scene {
    Scene { sampler, trials: Seq::empty(), study_attrs: Map::empty(), replies: Seq::empty() }
}

/// Whether trials are run one after the other: at each call they stand in their places, at most
/// one of them is unfinished, and they have only moved on since the call before.
pub open spec fn one_by_one(driver: Driver, scene: Scene) -> bool {
    let turn = (driver.turn)(scene);
    &&& in_place(turn.trials)
    &&& one_unfinished(turn.trials)
    &&& moves_on(scene.trials, turn.trials)
}

/// Equal seeds and arguments give equal runs: two samplers made from the same seed with the same
/// arguments, each with a new study of its own and trials that are run one after the other, give
/// the same reply to every call, and their studies have the same trials.
pub proof fn law_seeded_runs_are_reproducible<
    F: Fn(u32) -> Result<Option<u32>, Failure>,
    G: Fn(u32) -> Result<Option<u32>, Failure>,
    M: Fn(&Vec<Axis>, usize) -> Vec<Number>,
>(
    seed: u64,
    population_size: nat,
    mutation_prob: Option<Result<Bernoulli, BernoulliError>>,
    crossover_prob: Result<Bernoulli, BernoulliError>,
    swapping_prob: Result<Bernoulli, BernoulliError>,
    driver: Driver,
    lookups_a: Seq<F>,
    lookups_b: Seq<G>,
    measure: M,
    directions: Seq<Direction>,
    a: Seq<Scene>,
    b: Seq<Scene>,
)
    requires
        runs(driver, lookups_a, measure, directions, a),
        runs(driver, lookups_b, measure, directions, b),
        a.len() == b.len(),
        a[0] == opening(
            new_sampler(
                rng_from_number(seed),
                population_size,
                mutation_prob,
                crossover_prob,
                swapping_prob,
            ),
        ),
        b[0] == opening(
            new_sampler(
                rng_from_number(seed),
                population_size,
                mutation_prob,
                crossover_prob,
                swapping_prob,
            ),
        ),
        forall|k: int| 0 <= k < lookups_a.len() ==> one_by_one(driver, #[trigger] a[k]),
    ensures
        a == b,
{
    assert forall|k: int| 0 <= k < lookups_a.len() implies settled_scene(
        driver,
        #[trigger] a[k],
    ) by {
        let seen = lemma_indexed_along(driver, lookups_a, measure, directions, a, k);
        let trials = (driver.turn)(a[k]).trials;
        assert(one_by_one(driver, a[k]));
        lemma_moves_on_twice(seen, a[k].trials, trials);
        law_one_unfinished_trial_is_settled(a[k].sampler.cache, seen, trials);
    }
    law_runs_are_reproducible(driver, lookups_a, lookups_b, measure, directions, a, b);
}

/// A cache that knows trials of which at most one is unfinished leaves no choice when it is
/// brought up to date.
pub proof fn law_one_unfinished_trial_is_settled(
    cache: CacheView,
    before: Seq<Option<PersistedTrial>>,
    after: Seq<Option<PersistedTrial>>,
)
    requires
        indexes(cache, before),
        one_unfinished(before),
    ensures
        settled(cache, after),
{
    assert forall|m: u32, n: u32|
        (#[trigger] cache.prepared(after).unfinished.contains(m)) && (
        #[trigger] cache.prepared(after).unfinished.contains(n)) implies m == n by {
        if after.len() >= cache.seen {
            assert(cache.unfinished.contains(m) && cache.unfinished.contains(n));
            assert(positions_below(before.len()).contains(m));
            assert(positions_below(before.len()).contains(n));
        }
    }
}

proof fn lemma_moves_on_twice(
    a: Seq<Option<PersistedTrial>>,
    b: Seq<Option<PersistedTrial>>,
    c: Seq<Option<PersistedTrial>>,
)
    requires
        moves_on(a, b),
        moves_on(b, c),
    ensures
        moves_on(a, c),
{
    assert forall|number: u32|
        number < a.len() && !(#[trigger] status_at(a, number) is Unfinished) implies status_at(
        c,
        number,
    ) == status_at(a, number) by {
        assert(status_at(b, number) == status_at(a, number));
    }
}

/// The trials that the cache of a scene knows.
proof fn lemma_indexed_along<
    F: Fn(u32) -> Result<Option<u32>, Failure>,
    M: Fn(&Vec<Axis>, usize) -> Vec<Number>,
>(
    driver: Driver,
    lookups: Seq<F>,
    measure: M,
    directions: Seq<Direction>,
    scenes: Seq<Scene>,
    k: int,
) -> (seen: Seq<Option<PersistedTrial>>)
    requires
        runs(driver, lookups, measure, directions, scenes),
        scenes[0].sampler.cache == CacheView::fresh(),
        scenes[0].trials == Seq::<Option<PersistedTrial>>::empty(),
        forall|k: int| 0 <= k < lookups.len() ==> one_by_one(driver, #[trigger] scenes[k]),
        0 <= k < scenes.len(),
    ensures
        indexes(scenes[k].sampler.cache, seen),
        one_unfinished(seen),
        moves_on(seen, scenes[k].trials),
    decreases k,
{
    if k == 0 {
        let none = Seq::<Option<PersistedTrial>>::empty();
        assert(accounts(CacheView::fresh(), none, positions_below(0), Set::empty()));
        none
    } else {
        let before = scenes[k - 1];
        let seen = lemma_indexed_along(driver, lookups, measure, directions, scenes, k - 1);
        assert(advances_at(driver, lookups, measure, directions, scenes, k - 1));
        let turn = (driver.turn)(before);
        assert(one_by_one(driver, before));
        lemma_moves_on_twice(seen, before.trials, turn.trials);
        if turn.call is Prepare {
            let cache = before.sampler.cache;
            let numbers = choose|numbers: Seq<u32>| #[trigger]
                lists(numbers, cache.prepared(turn.trials).unfinished)
                    && scenes[k].sampler.cache == cache.synced(turn.trials, numbers);
            law_index_is_kept_up_to_date(cache, seen, turn.trials, numbers);
            turn.trials
        } else {
            seen
        }
    }
}

} // verus!
