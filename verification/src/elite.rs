use crate::crowding::comparable;
use crate::crowding::crowded;
use crate::crowding::crowding_distance_sort;
use crate::crowding::descending_keys;
use crate::crowding::law_greater_distances_come_first;
use crate::crowding::least_crowded_first;
use crate::crowding::sound_measure;
use crate::crowding::values_of;
use crate::crowding::Axis;
use crate::dominance::outranks;
use crate::dominance::Standing;
use crate::error::outcome;
use crate::error::Failure;
use crate::error::FailureView;
use crate::fronts::fronts;
use crate::fronts::law_fronts_follow_dominance;
use crate::fronts::law_fronts_partition_the_population;
use crate::fronts::lemma_fronts_in_range;
use crate::fronts::positions;
use crate::fronts::rows;
use crate::number::Number;
use crate::order::lemma_sorted_positions;
use crate::order::sorted_positions;
use crate::population::all_present;
use crate::population::fast_non_dominated_sort;
use crate::population::members;
use crate::population::numbered;
use crate::population::sorted_fronts;
use crate::population::standing_of;
use crate::population::standings_of;
use crate::population::well_shaped;
use crate::trial::trial_at;
use crate::trial::Context;
use crate::trial::Direction;
use crate::trial::PersistedTrial;
use vstd::prelude::*;

verus! {

/// The fronts that enter the elite as a whole, and the front that only a part of enters.
///
/// What is left of the elite for the contested front goes to its least crowded members.
#[derive(Debug)]
pub struct EliteCut {
    pub kept: Vec<u32>,
    pub contested: Option<Vec<u32>>,
}

/// How many fronts, taken from the best on, fit into `size` together.
pub open spec fn whole_fronts<T>(ranked: Seq<Seq<T>>, size: nat) -> nat
    decreases ranked.len(),
{
    if ranked.len() == 0 || ranked[0].len() > size {
        0
    } else {
        1 + whole_fronts(ranked.drop_first(), (size - ranked[0].len()) as nat)
    }
}

/// The members of the fronts that fit as a whole.
pub open spec fn kept_members<T>(ranked: Seq<Seq<T>>, size: nat) -> Seq<T> {
    ranked.take(whole_fronts(ranked, size) as int).flatten()
}

/// The front that fits in part only.
pub open spec fn contested_front<T>(ranked: Seq<Seq<T>>, size: nat) -> Option<Seq<T>> {
    if whole_fronts(ranked, size) < ranked.len() {
        Some(ranked[whole_fronts(ranked, size) as int])
    } else {
        None
    }
}

/// The elite of the given size: front after front, and of the contested front the members with
/// the greatest crowding distances.
pub open spec fn elite<T>(ranked: Seq<Seq<T>>, size: nat, distances: Seq<Number>) -> Seq<T> {
    match contested_front(ranked, size) {
        Some(front) => kept_members(ranked, size) + least_crowded_first(front, distances).take(
            size - kept_members(ranked, size).len(),
        ),
        None => kept_members(ranked, size),
    }
}

/// The value of an [`EliteCut`].
pub struct EliteCutView {
    pub kept: Seq<u32>,
    pub contested: Option<Seq<u32>>,
}

impl View for EliteCut {
    type V = EliteCutView;

    open spec fn view(&self) -> EliteCutView {
        EliteCutView {
            kept: self.kept@,
            contested: match self.contested {
                Some(front) => Some(front@),
                None => None,
            },
        }
    }
}

/// Where the elite of the given size is cut.
pub open spec fn cut(ranked: Seq<Seq<u32>>, size: nat) -> EliteCutView {
    EliteCutView { kept: kept_members(ranked, size), contested: contested_front(ranked, size) }
}

/// Where the elite of a population is cut, or why its fronts are not known.
pub open spec fn elite_cut(
    directions: Seq<Direction>,
    trials: Seq<Option<PersistedTrial>>,
    numbers: Seq<u32>,
    size: nat,
) -> Result<EliteCutView, FailureView> {
    match sorted_fronts(directions, trials, numbers) {
        Ok(ranked) => Ok(cut(ranked, size)),
        Err(error) => Err(error),
    }
}

/// The elite that a cut leads to, given the crowding distances of the contested front.
pub open spec fn elite_after(cut: EliteCutView, size: nat, distances: Seq<Number>) -> Seq<u32> {
    match cut.contested {
        Some(front) => cut.kept + least_crowded_first(front, distances).take(size - cut.kept.len()),
        None => cut.kept,
    }
}

/// The cut is what the elite is completed from.
pub proof fn law_elite_is_completed_from_its_cut(
    ranked: Seq<Seq<u32>>,
    size: nat,
    distances: Seq<Number>,
)
    ensures
        elite_after(cut(ranked, size), size, distances) == elite(ranked, size, distances),
{
}

proof fn lemma_whole_fronts<T>(ranked: Seq<Seq<T>>, size: nat)
    ensures
        whole_fronts(ranked, size) <= ranked.len(),
        kept_members(ranked, size).len() <= size,
        whole_fronts(ranked, size) < ranked.len() ==> kept_members(ranked, size).len()
            + ranked[whole_fronts(ranked, size) as int].len() > size,
    decreases ranked.len(),
{
    let w = whole_fronts(ranked, size);
    if ranked.len() == 0 || ranked[0].len() > size {
        assert(ranked.take(0) =~= Seq::<Seq<T>>::empty());
    } else {
        let rest = ranked.drop_first();
        let left = (size - ranked[0].len()) as nat;
        lemma_whole_fronts(rest, left);
        assert(ranked.take(w as int).drop_first() =~= rest.take(w - 1));
        assert(kept_members(ranked, size) == ranked[0] + kept_members(rest, left));
    }
}

/// Cuts the elite out of a ranked population.
pub fn cut_fronts(ranked: &Vec<Vec<u32>>, population_size: usize) -> (result: EliteCut)
    ensures
        result@ == cut(rows(ranked@), population_size as nat),
{
    let ghost all = rows(ranked@);
    let mut kept: Vec<u32> = Vec::new();
    let mut r: usize = 0;
    assert(all.skip(0) =~= all);
    assert(all.take(0) =~= Seq::<Seq<u32>>::empty());
    while r < ranked.len() && ranked[r].len() <= population_size - kept.len()
        invariant
            all == rows(ranked@),
            r <= ranked@.len(),
            kept@ == all.take(r as int).flatten(),
            kept@.len() <= population_size,
            whole_fronts(all, population_size as nat) == r + whole_fronts(
                all.skip(r as int),
                (population_size - kept@.len()) as nat,
            ),
        decreases ranked@.len() - r,
    {
        let ghost before = kept@;
        kept.extend_from_slice(ranked[r].as_slice());
        proof {
            assert(all.skip(r as int)[0] == ranked@[r as int]@);
            assert(all.skip(r as int).drop_first() =~= all.skip(r + 1));
            assert(all.take(r + 1) =~= all.take(r as int).push(all[r as int]));
            all.take(r as int).lemma_flatten_push(all[r as int]);
            assert(kept@ =~= before + ranked@[r as int]@);
        }
        r = r + 1;
    }
    proof {
        if r < ranked@.len() {
            assert(all.skip(r as int)[0] == ranked@[r as int]@);
        }
        assert(whole_fronts(all, population_size as nat) == r);
    }
    let contested = if r < ranked.len() {
        let mut front: Vec<u32> = Vec::new();
        front.extend_from_slice(ranked[r].as_slice());
        assert(front@ =~= ranked@[r as int]@);
        Some(front)
    } else {
        None
    };
    EliteCut { kept, contested }
}

/// The elite of a population, or why there is none, as far as `measure` decides.
pub open spec fn selects<F: Fn(&Vec<Axis>, usize) -> Vec<Number>>(
    measure: F,
    directions: Seq<Direction>,
    trials: Seq<Option<PersistedTrial>>,
    numbers: Seq<u32>,
    size: nat,
    selected: Result<Seq<u32>, FailureView>,
) -> bool {
    match elite_cut(directions, trials, numbers, size) {
        Ok(cut) => match cut.contested {
            Some(front) => exists|distances: Seq<Number>|
                #![trigger elite_after(cut, size, distances)]
                crowded(measure, directions.len(), trials, front, Ok(distances)) && distances.len()
                    == front.len() && selected == Ok::<Seq<u32>, FailureView>(
                    elite_after(cut, size, distances),
                ),
            None => selected == Ok::<Seq<u32>, FailureView>(cut.kept),
        },
        Err(error) => selected == Err::<Seq<u32>, FailureView>(error),
    }
}

/// The fronts of a population hold numbers of the population only.
proof fn lemma_fronts_of_numbers(
    directions: Seq<Direction>,
    trials: Seq<Option<PersistedTrial>>,
    numbers: Seq<u32>,
)
    requires
        numbers.len() <= usize::MAX,
        sorted_fronts(directions, trials, numbers) is Ok,
    ensures
        ({
            let ranked = sorted_fronts(directions, trials, numbers)->Ok_0;
            &&& forall|a: int| 0 <= a < ranked.len() ==> (#[trigger] ranked[a]).len() > 0
            &&& forall|a: int, x: u32|
                0 <= a < ranked.len() && #[trigger] ranked[a].contains(x) ==> numbers.contains(x)
        }),
{
    let population = members(trials, numbers);
    let standings = standings_of(population);
    let ranked = sorted_fronts(directions, trials, numbers)->Ok_0;
    let by_position = fronts(standings, directions, positions(standings.len()));
    lemma_fronts_in_range(standings, directions);
    law_fronts_partition_the_population(standings, directions);
    assert forall|a: int| 0 <= a < ranked.len() implies (#[trigger] ranked[a]).len() > 0 by {
        assert(by_position[a].len() > 0);
    }
    assert forall|a: int, x: u32|
        0 <= a < ranked.len() && #[trigger] ranked[a].contains(x) implies numbers.contains(x) by {
        let k = choose|k: int| 0 <= k < ranked[a].len() && ranked[a][k] == x;
        assert(by_position[a][k] < numbers.len());
        assert(numbers[by_position[a][k] as int] == x);
    }
}

/// The elite holds numbers of the population only, and those are numbers of trials.
pub proof fn lemma_selected<F: Fn(&Vec<Axis>, usize) -> Vec<Number>>(
    measure: F,
    directions: Seq<Direction>,
    trials: Seq<Option<PersistedTrial>>,
    numbers: Seq<u32>,
    size: nat,
    selected: Seq<u32>,
)
    requires
        numbers.len() <= usize::MAX,
        selects(measure, directions, trials, numbers, size, Ok(selected)),
    ensures
        all_present(trials, numbers),
        forall|x: u32| #[trigger] selected.contains(x) ==> numbers.contains(x),
        all_present(trials, selected),
{
    let ranked = sorted_fronts(directions, trials, numbers)->Ok_0;
    lemma_fronts_of_numbers(directions, trials, numbers);
    lemma_whole_fronts(ranked, size);
    let cut = cut(ranked, size);
    let w = whole_fronts(ranked, size) as int;
    assert forall|x: u32| #[trigger] selected.contains(x) implies numbers.contains(x) by {
        let k = choose|k: int| 0 <= k < selected.len() && selected[k] == x;
        if k < cut.kept.len() {
            assert(cut.kept[k] == x);
            assert(cut.kept.contains(x));
            lemma_flatten_contains(ranked.take(w), x);
            let a = choose|a: int| 0 <= a < w && #[trigger] ranked.take(w)[a].contains(x);
            assert(ranked[a].contains(x));
        } else {
            let front = ranked[w];
            let distances = choose|distances: Seq<Number>|
                #![trigger elite_after(cut, size, distances)]
                crowded(measure, directions.len(), trials, front, Ok(distances)) && distances.len()
                    == front.len() && selected == elite_after(cut, size, distances);
            lemma_front_is_short(directions, trials, numbers, w);
            lemma_least_crowded_members(front, distances);
            let sorted = least_crowded_first(front, distances);
            assert(sorted[k - cut.kept.len()] == x);
            lemma_same_members(sorted, front, x);
            assert(ranked[w].contains(x));
        }
    }
    assert forall|k: int| 0 <= k < selected.len() implies trial_at(
        trials,
        #[trigger] selected[k],
    ) is Some by {
        assert(selected.contains(selected[k]));
        let i = choose|i: int| 0 <= i < numbers.len() && numbers[i] == selected[k];
        assert(trial_at(trials, numbers[i]) is Some);
    }
}

proof fn lemma_same_members(a: Seq<u32>, b: Seq<u32>, x: u32)
    requires
        a.to_multiset() == b.to_multiset(),
        a.contains(x),
    ensures
        b.contains(x),
{
    broadcast use vstd::seq_lib::group_to_multiset_ensures;

    assert(a.to_multiset().count(x) > 0);
    assert(b.to_multiset().count(x) > 0);
}

/// A front is no longer than the population.
proof fn lemma_front_is_short(
    directions: Seq<Direction>,
    trials: Seq<Option<PersistedTrial>>,
    numbers: Seq<u32>,
    a: int,
)
    requires
        numbers.len() <= usize::MAX,
        sorted_fronts(directions, trials, numbers) is Ok,
        0 <= a < (sorted_fronts(directions, trials, numbers)->Ok_0).len(),
    ensures
        (sorted_fronts(directions, trials, numbers)->Ok_0)[a].len() <= numbers.len(),
{
    broadcast use vstd::seq_lib::group_to_multiset_ensures;

    let standings = standings_of(members(trials, numbers));
    let by_position = fronts(standings, directions, positions(standings.len()));
    law_fronts_partition_the_population(standings, directions);
    assert(by_position.flatten().to_multiset().len() == by_position.flatten().len());
    assert(positions(standings.len()).to_multiset().len() == standings.len());
    by_position.lemma_flatten_length_ge_single_element_length(a);
    by_position.lemma_flatten_and_flatten_alt_are_equivalent();
    let ranked = sorted_fronts(directions, trials, numbers)->Ok_0;
    assert(ranked[a].len() == by_position[a].len());
}

/// Selects the elite of a population: front after front, and of the front that fits in part only
/// the least crowded members.
pub fn select_elite_population_numbers<F: Fn(&Vec<Axis>, usize) -> Vec<Number>>(
    population_size: usize,
    ctx: &Context,
    trials: &[Option<PersistedTrial>],
    population_numbers: &[u32],
    measure: &F,
) -> (selected: Result<Vec<u32>, Failure>)
    requires
        sound_measure(*measure),
    ensures
        selects(
            *measure,
            ctx.directions@,
            trials@,
            population_numbers@,
            population_size as nat,
            outcome(selected),
        ),
{
    let ranked = match fast_non_dominated_sort(ctx, trials, population_numbers) {
        Ok(ranked) => ranked,
        Err(error) => {
            return Err(error);
        },
    };
    let ghost all = rows(ranked@);
    let ghost population = members(trials@, population_numbers@);
    let EliteCut { kept, contested } = cut_fronts(&ranked, population_size);
    let mut elite = kept;
    match contested {
        None => Ok(elite),
        Some(front) => {
            proof {
                assert(population_numbers.len() <= usize::MAX);
                lemma_fronts_of_numbers(ctx.directions@, trials@, population_numbers@);
                lemma_whole_fronts(all, population_size as nat);
                let w = whole_fronts(all, population_size as nat) as int;
                assert(front@ == all[w]);
                let group = members(trials@, front@);
                assert forall|k: int| 0 <= k < front@.len() implies trial_at(
                    trials@,
                    #[trigger] front@[k],
                ) is Some && well_shaped(group[k], ctx.directions@.len()) by {
                    assert(all[w].contains(front@[k]));
                    let i = choose|i: int|
                        0 <= i < population_numbers@.len() && population_numbers@[i] == front@[k];
                    assert(trial_at(trials@, population_numbers@[i]) is Some);
                    assert(well_shaped(population[i], ctx.directions@.len()));
                }
                assert forall|k: int| 0 <= k < group.len() implies values_of(
                    #[trigger] group[k],
                    ctx.directions@.len(),
                ).len() >= ctx.directions@.len() by {
                    assert(well_shaped(group[k], ctx.directions@.len()));
                }
            }
            let room = population_size - elite.len();
            match crowding_distance_sort(ctx, trials, &front, measure) {
                Ok(sorted) => {
                    let ghost before = elite@;
                    for k in 0..room
                        invariant
                            room <= sorted@.len(),
                            elite@ == before + sorted@.take(k as int),
                    {
                        elite.push(sorted[k]);
                        assert(sorted@.take(k + 1) =~= sorted@.take(k as int).push(
                            sorted@[k as int],
                        ));
                    }
                    proof {
                        let cut = cut(all, population_size as nat);
                        let distances = choose|distances: Seq<Number>|
                            #![trigger least_crowded_first(front@, distances)]
                            crowded(
                                *measure,
                                ctx.directions@.len(),
                                trials@,
                                front@,
                                Ok(distances),
                            ) && distances.len() == front@.len() && sorted@ == least_crowded_first(
                                front@,
                                distances,
                            );
                        assert(elite@ == elite_after(cut, population_size as nat, distances));
                    }
                    Ok(elite)
                },
                Err(error) => Err(error),
            }
        },
    }
}

/// Distances never grow from one member to the next when the least crowded come first.
pub proof fn law_least_crowded_come_first(distances: Seq<Number>)
    requires
        distances.len() <= usize::MAX,
    ensures
        forall|a: int, b: int|
            0 <= a < b < distances.len() ==> !(#[trigger] least_crowded_first(
                distances,
                distances,
            )[a]).less(#[trigger] least_crowded_first(distances, distances)[b]),
{
    lemma_sorted_positions(descending_keys(distances));
}

/// The crowded order of a front is a rearrangement of it.
proof fn lemma_least_crowded_members<T>(front: Seq<T>, distances: Seq<Number>)
    requires
        front.len() == distances.len(),
        distances.len() <= usize::MAX,
    ensures
        least_crowded_first(front, distances).len() == front.len(),
        least_crowded_first(front, distances).to_multiset() == front.to_multiset(),
{
    broadcast use vstd::seq_lib::group_to_multiset_ensures;

    let order = sorted_positions(descending_keys(distances));
    lemma_sorted_positions(descending_keys(distances));
    let at = |position: usize| front[position as int];
    let n = front.len();
    assert(positions(n).map_values(at) =~= front);
    lemma_mapped_multiset(order, positions(n), at);
}

/// Rearranging a sequence and applying a function to its members commute.
proof fn lemma_mapped_multiset<T>(a: Seq<usize>, b: Seq<usize>, f: spec_fn(usize) -> T)
    requires
        a.to_multiset() == b.to_multiset(),
    ensures
        a.map_values(f).to_multiset() == b.map_values(f).to_multiset(),
    decreases a.len(),
{
    broadcast use vstd::seq_lib::group_to_multiset_ensures;

    assert(a.to_multiset().len() == a.len());
    assert(b.to_multiset().len() == b.len());
    if a.len() == 0 {
        assert(a.map_values(f) =~= b.map_values(f));
    } else {
        let x = a.last();
        assert(a.contains(x));
        assert(a.to_multiset().count(x) > 0);
        assert(b.contains(x));
        let i = choose|i: int| 0 <= i < b.len() && b[i] == x;
        let a2 = a.drop_last();
        let b2 = b.remove(i);
        assert(a =~= a2.push(x));
        assert(a.to_multiset() =~= a2.to_multiset().insert(x));
        assert(b2.to_multiset() =~= b.to_multiset().remove(x));
        assert(a2.to_multiset() =~= b2.to_multiset());
        lemma_mapped_multiset(a2, b2, f);
        assert(a.map_values(f) =~= a2.map_values(f).push(f(x)));
        assert(b2.map_values(f) =~= b.map_values(f).remove(i));
        assert(b.map_values(f)[i] == f(x));
        assert(b.map_values(f).to_multiset() =~= b2.map_values(f).to_multiset().insert(f(x))) by {
            assert(b2.map_values(f).to_multiset() =~= b.map_values(f).to_multiset().remove(f(x)));
            assert(b.map_values(f).contains(f(x)));
        }
    }
}

proof fn lemma_flatten_split<T>(ranked: Seq<Seq<T>>, w: int)
    requires
        0 <= w <= ranked.len(),
    ensures
        ranked.flatten() == ranked.take(w).flatten() + ranked.skip(w).flatten(),
{
    assert(ranked =~= ranked.take(w) + ranked.skip(w));
    vstd::seq_lib::lemma_flatten_concat(ranked.take(w), ranked.skip(w));
}

/// The elite has the given size, or holds the whole population if that is smaller, and holds
/// nobody more often than the population does.
pub proof fn law_elite_is_taken_from_the_population<T>(
    ranked: Seq<Seq<T>>,
    size: nat,
    distances: Seq<Number>,
)
    requires
        contested_front(ranked, size) matches Some(front) ==> front.len() == distances.len(),
        distances.len() <= usize::MAX,
    ensures
        elite(ranked, size, distances).len() == if ranked.flatten().len() <= size {
            ranked.flatten().len()
        } else {
            size
        },
        elite(ranked, size, distances).to_multiset().subset_of(ranked.flatten().to_multiset()),
{
    broadcast use vstd::seq_lib::group_to_multiset_ensures;
    broadcast use vstd::multiset::group_multiset_axioms;

    lemma_whole_fronts(ranked, size);
    let w = whole_fronts(ranked, size) as int;
    lemma_flatten_split(ranked, w);
    let kept = kept_members(ranked, size);
    match contested_front(ranked, size) {
        Some(front) => {
            lemma_least_crowded_members(front, distances);
            let sorted = least_crowded_first(front, distances);
            let room = size - kept.len();
            let rest = ranked.skip(w);
            assert(rest[0] == front);
            assert(rest.flatten() == front + rest.drop_first().flatten());
            assert(sorted =~= sorted.take(room) + sorted.skip(room));
            vstd::seq_lib::lemma_multiset_commutative(sorted.take(room), sorted.skip(room));
            vstd::seq_lib::lemma_multiset_commutative(front, rest.drop_first().flatten());
            vstd::seq_lib::lemma_multiset_commutative(kept, sorted.take(room));
            vstd::seq_lib::lemma_multiset_commutative(kept, rest.flatten());
        },
        None => {
            assert(ranked.skip(w).len() == 0);
            assert(ranked.skip(w).flatten() =~= Seq::<T>::empty());
            assert(kept + Seq::<T>::empty() =~= kept);
        },
    }
}

/// If the first front fits into the elite, all its members are in it.
pub proof fn law_best_front_survives<T>(ranked: Seq<Seq<T>>, size: nat, distances: Seq<Number>)
    requires
        ranked.len() > 0,
        ranked[0].len() <= size,
    ensures
        ranked[0].is_prefix_of(elite(ranked, size, distances)),
{
    lemma_whole_fronts(ranked, size);
    let w = whole_fronts(ranked, size) as int;
    let kept = kept_members(ranked, size);
    assert(kept == ranked[0] + ranked.take(w).drop_first().flatten()) by {
        assert(ranked.take(w).first() == ranked[0]);
    }
}

proof fn lemma_flatten_contains<T>(ranked: Seq<Seq<T>>, x: T)
    ensures
        ranked.flatten().contains(x) <==> exists|a: int|
            0 <= a < ranked.len() && #[trigger] ranked[a].contains(x),
    decreases ranked.len(),
{
    if ranked.len() > 0 {
        let rest = ranked.drop_first();
        lemma_flatten_contains(rest, x);
        let both = ranked.first() + rest.flatten();
        assert(ranked.flatten() == both);
        if ranked.first().contains(x) {
            let k = choose|k: int| 0 <= k < ranked.first().len() && ranked.first()[k] == x;
            assert(both[k] == x);
            assert(ranked[0].contains(x));
        }
        if rest.flatten().contains(x) {
            let k = choose|k: int| 0 <= k < rest.flatten().len() && rest.flatten()[k] == x;
            assert(both[ranked.first().len() + k] == x);
            let a = choose|a: int| 0 <= a < rest.len() && #[trigger] rest[a].contains(x);
            assert(ranked[a + 1].contains(x));
        }
        if both.contains(x) {
            let k = choose|k: int| 0 <= k < both.len() && both[k] == x;
            if k < ranked.first().len() {
                assert(ranked.first()[k] == x);
                assert(ranked[0].contains(x));
            } else {
                assert(rest.flatten()[k - ranked.first().len()] == x);
            }
        }
        if exists|a: int| 0 <= a < ranked.len() && #[trigger] ranked[a].contains(x) {
            let a = choose|a: int| 0 <= a < ranked.len() && #[trigger] ranked[a].contains(x);
            if a > 0 {
                assert(rest[a - 1].contains(x));
            } else {
                assert(ranked.first().contains(x));
            }
        }
    }
}

/// No trial that is left out of the elite dominates one that is in it.
pub proof fn law_elite_is_not_dominated_from_outside(
    standings: Seq<Option<Standing>>,
    directions: Seq<Direction>,
    size: nat,
    distances: Seq<Number>,
    member: usize,
    outsider: usize,
)
    requires
        standings.len() <= usize::MAX,
        distances.len() <= usize::MAX,
        contested_front(fronts(standings, directions, positions(standings.len())), size) matches Some(
            front,
        ) ==> front.len() == distances.len(),
        outsider < standings.len(),
        elite(
            fronts(standings, directions, positions(standings.len())),
            size,
            distances,
        ).contains(member),
        !elite(
            fronts(standings, directions, positions(standings.len())),
            size,
            distances,
        ).contains(outsider),
    ensures
        !outranks(standings[outsider as int], standings[member as int], directions),
{
    broadcast use vstd::seq_lib::group_to_multiset_ensures;

    let all = positions(standings.len());
    let ranked = fronts(standings, directions, all);
    let chosen = elite(ranked, size, distances);
    law_fronts_partition_the_population(standings, directions);
    law_fronts_follow_dominance(standings, directions);
    lemma_whole_fronts(ranked, size);
    let w = whole_fronts(ranked, size) as int;
    let kept = kept_members(ranked, size);
    assert(all[outsider as int] == outsider);
    assert(all.contains(outsider));
    assert(ranked.flatten().contains(outsider)) by {
        assert(all.to_multiset().count(outsider) > 0);
    }
    lemma_flatten_contains(ranked, outsider);
    let b = choose|b: int| 0 <= b < ranked.len() && #[trigger] ranked[b].contains(outsider);
    if b < w {
        assert(ranked.take(w)[b].contains(outsider));
        lemma_flatten_contains(ranked.take(w), outsider);
        let k = choose|k: int| 0 <= k < kept.len() && kept[k] == outsider;
        assert(chosen[k] == outsider);
    }
    let m = choose|m: int| 0 <= m < chosen.len() && chosen[m] == member;
    let a = if m < kept.len() {
        assert(kept[m] == member);
        lemma_flatten_contains(ranked.take(w), member);
        let a = choose|a: int| 0 <= a < w && #[trigger] ranked.take(w)[a].contains(member);
        assert(ranked[a].contains(member));
        a
    } else {
        let front = ranked[w];
        lemma_least_crowded_members(front, distances);
        let sorted = least_crowded_first(front, distances);
        assert(sorted[m - kept.len()] == member);
        assert(sorted.contains(member));
        assert(front.contains(member)) by {
            assert(sorted.to_multiset().count(member) > 0);
        }
        assert(ranked[w].contains(member));
        w
    };
    assert(ranked[a].contains(member));
}

/// The elite of the numbers of a population is that of its positions, numbered.
pub proof fn law_elite_of_numbers_is_numbered_elite(
    ranked: Seq<Seq<usize>>,
    numbers: Seq<u32>,
    size: nat,
    distances: Seq<Number>,
)
    requires
        distances.len() <= usize::MAX,
        contested_front(ranked, size) matches Some(front) ==> front.len() == distances.len(),
    ensures
        elite(numbered(ranked, numbers), size, distances) == elite(
            ranked,
            size,
            distances,
        ).map_values(|position: usize| numbers[position as int]),
{
    let at = |position: usize| numbers[position as int];
    let named = numbered(ranked, numbers);
    lemma_numbered_cut(ranked, numbers, size);
    lemma_whole_fronts(ranked, size);
    let w = whole_fronts(ranked, size) as int;
    let kept = kept_members(ranked, size);
    match contested_front(ranked, size) {
        Some(front) => {
            let order = sorted_positions(descending_keys(distances));
            lemma_sorted_positions(descending_keys(distances));
            assert(named[w] =~= front.map_values(at));
            assert(least_crowded_first(front.map_values(at), distances) =~= least_crowded_first(
                front,
                distances,
            ).map_values(at));
            let room = size - kept.len();
            assert(elite(ranked, size, distances).map_values(at) =~= kept.map_values(at)
                + least_crowded_first(front, distances).map_values(at).take(room));
        },
        None => {},
    }
}

proof fn lemma_numbered_cut(ranked: Seq<Seq<usize>>, numbers: Seq<u32>, size: nat)
    ensures
        whole_fronts(numbered(ranked, numbers), size) == whole_fronts(
            ranked,
            size,
        ),
        kept_members(numbered(ranked, numbers), size) == kept_members(
            ranked,
            size,
        ).map_values(|position: usize| numbers[position as int]),
    decreases ranked.len(),
{
    let at = |position: usize| numbers[position as int];
    let named = numbered(ranked, numbers);
    if ranked.len() == 0 || ranked[0].len() > size {
        if ranked.len() > 0 {
            assert(named[0] == ranked[0].map_values(at));
        }
        assert(ranked.take(0) =~= Seq::<Seq<usize>>::empty());
        assert(named.take(0) =~= Seq::<Seq<u32>>::empty());
        assert(kept_members(named, size) =~= kept_members(ranked, size).map_values(at));
    } else {
        let rest = ranked.drop_first();
        let left = (size - ranked[0].len()) as nat;
        lemma_numbered_cut(rest, numbers, left);
        lemma_whole_fronts(rest, left);
        let w = whole_fronts(ranked, size) as int;
        assert(named[0] == ranked[0].map_values(at));
        assert(named.drop_first() =~= numbered(rest, numbers));
        assert(ranked.take(w).drop_first() =~= rest.take(w - 1));
        assert(named.take(w).drop_first() =~= named.drop_first().take(w - 1));
        assert(kept_members(ranked, size) == ranked[0] + kept_members(rest, left));
        assert(kept_members(named, size) == named[0] + kept_members(named.drop_first(), left));
        assert((ranked[0] + kept_members(rest, left)).map_values(at) =~= ranked[0].map_values(at)
            + kept_members(rest, left).map_values(at));
    }
}

/// The crowding distances by which an elite was selected.
proof fn lemma_selected_by_distances<F: Fn(&Vec<Axis>, usize) -> Vec<Number>>(
    measure: F,
    directions: Seq<Direction>,
    trials: Seq<Option<PersistedTrial>>,
    numbers: Seq<u32>,
    size: nat,
    selected: Seq<u32>,
) -> (distances: Seq<Number>)
    requires
        numbers.len() <= usize::MAX,
        selects(measure, directions, trials, numbers, size, Ok(selected)),
    ensures
        distances.len() <= usize::MAX,
        ({
            let standings = standings_of(members(trials, numbers));
            let ranked = fronts(standings, directions, positions(standings.len()));
            &&& contested_front(ranked, size) matches Some(front) ==> front.len() == distances.len()
            &&& selected == elite(ranked, size, distances).map_values(
                |position: usize| numbers[position as int],
            )
        }),
{
    let standings = standings_of(members(trials, numbers));
    let by_position = fronts(standings, directions, positions(standings.len()));
    let ranked = sorted_fronts(directions, trials, numbers)->Ok_0;
    let cut = cut(ranked, size);
    lemma_numbered_cut(by_position, numbers, size);
    lemma_whole_fronts(by_position, size);
    let w = whole_fronts(by_position, size) as int;
    let distances = match cut.contested {
        Some(front) => {
            let distances = choose|distances: Seq<Number>|
                #![trigger elite_after(cut, size, distances)]
                crowded(measure, directions.len(), trials, front, Ok(distances)) && distances.len()
                    == front.len() && selected == elite_after(cut, size, distances);
            lemma_front_is_short(directions, trials, numbers, w);
            assert(ranked[w].len() == by_position[w].len());
            distances
        },
        None => Seq::empty(),
    };
    law_elite_is_completed_from_its_cut(ranked, size, distances);
    law_elite_of_numbers_is_numbered_elite(by_position, numbers, size, distances);
    distances
}

/// The elite that is selected has the given size, or that of the population if that is smaller.
/// Where no number occurs twice in the population, none does in the elite.
pub proof fn law_selected_elite_fills_its_size<F: Fn(&Vec<Axis>, usize) -> Vec<Number>>(
    measure: F,
    directions: Seq<Direction>,
    trials: Seq<Option<PersistedTrial>>,
    numbers: Seq<u32>,
    size: nat,
    selected: Seq<u32>,
)
    requires
        numbers.len() <= usize::MAX,
        selects(measure, directions, trials, numbers, size, Ok(selected)),
    ensures
        selected.len() == if numbers.len() <= size {
            numbers.len()
        } else {
            size
        },
        numbers.no_duplicates() ==> selected.no_duplicates(),
{
    broadcast use vstd::seq_lib::group_to_multiset_ensures;

    let standings = standings_of(members(trials, numbers));
    let all = positions(standings.len());
    let ranked = fronts(standings, directions, all);
    let distances = lemma_selected_by_distances(
        measure,
        directions,
        trials,
        numbers,
        size,
        selected,
    );
    law_elite_is_taken_from_the_population(ranked, size, distances);
    law_fronts_partition_the_population(standings, directions);
    let chosen = elite(ranked, size, distances);
    assert(ranked.flatten().len() == numbers.len()) by {
        assert(ranked.flatten().to_multiset().len() == ranked.flatten().len());
        assert(all.to_multiset().len() == all.len());
    }
    if numbers.no_duplicates() {
        assert(all.no_duplicates());
        all.lemma_multiset_has_no_duplicates();
        let held = chosen.to_multiset();
        assert(chosen.no_duplicates()) by {
            assert forall|x: usize| held.contains(x) implies #[trigger] held.count(x) == 1 by {
                assert(held.count(x) <= all.to_multiset().count(x));
                assert(all.to_multiset().contains(x));
            }
            chosen.lemma_multiset_has_no_duplicates_conv();
        }
        assert forall|i: int, j: int| 0 <= i < j < selected.len() implies selected[i]
            != selected[j] by {
            assert(chosen[i] != chosen[j]);
            lemma_chosen_in_range(chosen, all, i);
            lemma_chosen_in_range(chosen, all, j);
        }
    }
}

/// No member of a population that was left out of its elite dominates a member of the elite.
pub proof fn law_selected_elite_is_not_dominated_from_outside<
    F: Fn(&Vec<Axis>, usize) -> Vec<Number>,
>(
    measure: F,
    directions: Seq<Direction>,
    trials: Seq<Option<PersistedTrial>>,
    numbers: Seq<u32>,
    size: nat,
    selected: Seq<u32>,
    member: u32,
    outsider: u32,
)
    requires
        numbers.len() <= usize::MAX,
        selects(measure, directions, trials, numbers, size, Ok(selected)),
        selected.contains(member),
        numbers.contains(outsider),
        !selected.contains(outsider),
    ensures
        !outranks(
            standing_of(trial_at(trials, outsider)->0),
            standing_of(trial_at(trials, member)->0),
            directions,
        ),
{
    let standings = standings_of(members(trials, numbers));
    let all = positions(standings.len());
    let ranked = fronts(standings, directions, all);
    let distances = lemma_selected_by_distances(
        measure,
        directions,
        trials,
        numbers,
        size,
        selected,
    );
    law_elite_is_taken_from_the_population(ranked, size, distances);
    law_fronts_partition_the_population(standings, directions);
    let chosen = elite(ranked, size, distances);
    let m = choose|m: int| 0 <= m < selected.len() && selected[m] == member;
    let q = choose|q: int| 0 <= q < numbers.len() && numbers[q] == outsider;
    lemma_chosen_in_range(chosen, all, m);
    assert(chosen.contains(chosen[m]));
    assert(!chosen.contains(q as usize)) by {
        if chosen.contains(q as usize) {
            let i = choose|i: int| 0 <= i < chosen.len() && chosen[i] == q as usize;
            assert(selected[i] == outsider);
        }
    }
    law_elite_is_not_dominated_from_outside(
        standings,
        directions,
        size,
        distances,
        chosen[m],
        q as usize,
    );
}

proof fn lemma_chosen_in_range(chosen: Seq<usize>, all: Seq<usize>, i: int)
    requires
        0 <= i < chosen.len(),
        all == positions(all.len()),
        all.len() <= usize::MAX,
        chosen.to_multiset().subset_of(all.to_multiset()),
    ensures
        chosen[i] < all.len(),
{
    broadcast use vstd::seq_lib::group_to_multiset_ensures;

    assert(chosen.contains(chosen[i]));
    assert(chosen.to_multiset().count(chosen[i]) > 0);
    assert(chosen.to_multiset().count(chosen[i]) <= all.to_multiset().count(chosen[i]));
    assert(all.contains(chosen[i]));
}

/// Fronts enter the elite best first, as a whole and in their own order, as long as they fit.
pub proof fn law_fronts_that_fit_are_selected_whole<F: Fn(&Vec<Axis>, usize) -> Vec<Number>>(
    measure: F,
    directions: Seq<Direction>,
    trials: Seq<Option<PersistedTrial>>,
    numbers: Seq<u32>,
    size: nat,
    selected: Seq<u32>,
    a: int,
)
    requires
        numbers.len() <= usize::MAX,
        selects(measure, directions, trials, numbers, size, Ok(selected)),
        0 <= a < (sorted_fronts(directions, trials, numbers)->Ok_0).len(),
    ensures
        sorted_fronts(directions, trials, numbers) is Ok,
        ({
            let ranked = sorted_fronts(directions, trials, numbers)->Ok_0;
            let before = ranked.take(a).flatten().len() as int;
            before + ranked[a].len() <= size ==> {
                &&& before + ranked[a].len() <= selected.len()
                &&& selected.subrange(before, before + ranked[a].len()) == ranked[a]
            }
        }),
{
    let ranked = sorted_fronts(directions, trials, numbers)->Ok_0;
    let before = ranked.take(a).flatten().len() as int;
    if before + ranked[a].len() <= size {
        let kept = kept_members(ranked, size);
        let w = whole_fronts(ranked, size) as int;
        lemma_whole_fronts(ranked, size);
        lemma_fitting_front_is_whole(ranked, size, a);
        let whole = ranked.take(w);
        assert(kept == whole.flatten());
        lemma_flatten_split(whole, a + 1);
        assert(whole.take(a + 1) =~= ranked.take(a + 1));
        lemma_flatten_last(ranked.take(a + 1));
        assert(ranked.take(a + 1).drop_last() =~= ranked.take(a));
        assert(kept.subrange(before, before + ranked[a].len()) =~= ranked[a]);
        assert(kept.is_prefix_of(selected)) by {
            let cut = cut(ranked, size);
            if let Some(front) = cut.contested {
                let distances = choose|distances: Seq<Number>|
                    #![trigger elite_after(cut, size, distances)]
                    crowded(measure, directions.len(), trials, front, Ok(distances))
                        && distances.len() == front.len() && selected == elite_after(
                        cut,
                        size,
                        distances,
                    );
                assert(selected == kept + least_crowded_first(front, distances).take(
                    size - kept.len(),
                ));
            }
        }
        assert(selected.subrange(before, before + ranked[a].len()) =~= kept.subrange(
            before,
            before + ranked[a].len(),
        ));
    }
}

proof fn lemma_flatten_last<T>(ranked: Seq<Seq<T>>)
    requires
        ranked.len() > 0,
    ensures
        ranked.flatten() == ranked.drop_last().flatten() + ranked.last(),
{
    let w = ranked.len() - 1;
    lemma_flatten_split(ranked, w);
    assert(ranked.take(w) =~= ranked.drop_last());
    let tail = ranked.skip(w);
    assert(tail =~= seq![ranked.last()]);
    assert(tail.drop_first() =~= Seq::<Seq<T>>::empty());
    assert(tail.drop_first().flatten() =~= Seq::<T>::empty());
    assert(tail.flatten() =~= tail.first() + tail.drop_first().flatten());
    assert(tail.flatten() =~= ranked.last());
}

/// A front that fits with all before it is among the whole ones.
proof fn lemma_fitting_front_is_whole<T>(ranked: Seq<Seq<T>>, size: nat, a: int)
    requires
        0 <= a < ranked.len(),
        ranked.take(a).flatten().len() + ranked[a].len() <= size,
    ensures
        a < whole_fronts(ranked, size),
    decreases ranked.len(),
{
    assert(ranked[0].len() <= size) by {
        if a > 0 {
            assert(ranked.take(a).first() == ranked[0]);
            assert(ranked.take(a).flatten() == ranked[0] + ranked.take(a).drop_first().flatten());
        }
    }
    if a > 0 {
        let rest = ranked.drop_first();
        let left = (size - ranked[0].len()) as nat;
        assert(ranked.take(a).drop_first() =~= rest.take(a - 1));
        assert(ranked.take(a).flatten() == ranked[0] + ranked.take(a).drop_first().flatten());
        lemma_fitting_front_is_whole(rest, left, a - 1);
    }
}

/// The places that are left for a front that does not fit go to its least crowded members.
///
/// For the distances that were measured for the front, its members stand in an order in which
/// distances never grow, members with equal distances in their own order, and the elite ends with
/// the first of them, as many as there are places left: whoever is left out has no greater distance
/// than anyone of the front who is selected.
pub proof fn law_places_left_go_to_the_least_crowded<F: Fn(&Vec<Axis>, usize) -> Vec<Number>>(
    measure: F,
    directions: Seq<Direction>,
    trials: Seq<Option<PersistedTrial>>,
    numbers: Seq<u32>,
    size: nat,
    selected: Seq<u32>,
    a: int,
)
    requires
        numbers.len() <= usize::MAX,
        sound_measure(measure),
        selects(measure, directions, trials, numbers, size, Ok(selected)),
        0 <= a < (sorted_fronts(directions, trials, numbers)->Ok_0).len(),
        ({
            let ranked = sorted_fronts(directions, trials, numbers)->Ok_0;
            let before = ranked.take(a).flatten().len();
            before <= size < before + ranked[a].len()
        }),
    ensures
        selected.len() == size,
        ({
            let ranked = sorted_fronts(directions, trials, numbers)->Ok_0;
            let front = ranked[a];
            let before = ranked.take(a).flatten().len() as int;
            exists|distances: Seq<Number>, order: Seq<usize>|
                {
                    &&& #[trigger] crowded(
                        measure,
                        directions.len(),
                        trials,
                        front,
                        Ok(distances),
                    )
                    &&& distances.len() == front.len()
                    &&& order.len() == front.len()
                    &&& #[trigger] order.no_duplicates()
                    &&& forall|k: int| 0 <= k < order.len() ==> (#[trigger] order[k]) < front.len()
                    &&& forall|k: int|
                        0 <= k < size - before ==> selected[before + k] == front[(
                        #[trigger] order[k]) as int]
                    &&& forall|i: int, j: int|
                        0 <= i < j < order.len() ==> {
                            let x = distances[#[trigger] order[i] as int];
                            let y = distances[#[trigger] order[j] as int];
                            y.less(x) || x.equals(y) && order[i] < order[j]
                        }
                }
        }),
{
    let ranked = sorted_fronts(directions, trials, numbers)->Ok_0;
    let front = ranked[a];
    let before = ranked.take(a).flatten().len() as int;
    lemma_unfitting_front_is_contested(ranked, size, a);
    lemma_whole_fronts(ranked, size);
    let cut = cut(ranked, size);
    let distances = choose|distances: Seq<Number>|
        #![trigger elite_after(cut, size, distances)]
        crowded(measure, directions.len(), trials, front, Ok(distances)) && distances.len()
            == front.len() && selected == elite_after(cut, size, distances);
    lemma_front_is_short(directions, trials, numbers, a);
    lemma_measured_are_comparable(measure, directions, trials, front, distances);
    let order = least_crowded_first(positions(front.len()), distances);
    let sorted = least_crowded_first(front, distances);
    if front.len() >= 2 {
        law_greater_distances_come_first(front, distances);
    } else {
        lemma_least_crowded_members(front, distances);
        lemma_sorted_positions(descending_keys(distances));
        assert(order =~= sorted_positions(descending_keys(distances)));
    }
    assert(cut.kept == ranked.take(a).flatten());
    assert(selected == cut.kept + sorted.take(size - before));
    assert forall|k: int| 0 <= k < size - before implies selected[before + k] == front[(
    #[trigger] order[k]) as int] by {
        assert(selected[before + k] == sorted[k]);
        assert(order[k] < front.len());
    }
    assert(order.no_duplicates());
    assert(crowded(measure, directions.len(), trials, front, Ok(distances)));
}

proof fn lemma_measured_are_comparable<F: Fn(&Vec<Axis>, usize) -> Vec<Number>>(
    measure: F,
    directions: Seq<Direction>,
    trials: Seq<Option<PersistedTrial>>,
    front: Seq<u32>,
    distances: Seq<Number>,
)
    requires
        sound_measure(measure),
        crowded(measure, directions.len(), trials, front, Ok(distances)),
    ensures
        distances.len() < 2 || forall|k: int|
            0 <= k < distances.len() ==> #[trigger] distances[k].ordered(),
{
    assert(comparable(distances));
}

proof fn lemma_unfitting_front_is_contested<T>(ranked: Seq<Seq<T>>, size: nat, a: int)
    requires
        0 <= a < ranked.len(),
        ranked.take(a).flatten().len() <= size < ranked.take(a).flatten().len() + ranked[a].len(),
    ensures
        whole_fronts(ranked, size) == a,
        kept_members(ranked, size) == ranked.take(a).flatten(),
        contested_front(ranked, size) == Some(ranked[a]),
    decreases ranked.len(),
{
    assert(ranked.take(0) =~= Seq::<Seq<T>>::empty());
    if a > 0 {
        let rest = ranked.drop_first();
        assert(ranked.take(a).first() == ranked[0]);
        assert(ranked.take(a).flatten() == ranked[0] + ranked.take(a).drop_first().flatten());
        assert(ranked.take(a).drop_first() =~= rest.take(a - 1));
        lemma_unfitting_front_is_contested(rest, (size - ranked[0].len()) as nat, a - 1);
    }
}

/// A selection fails exactly where the fronts of the population are not known, and for the reason
/// for which they are not.
pub proof fn law_selection_fails_where_fronts_are_not_known<
    F: Fn(&Vec<Axis>, usize) -> Vec<Number>,
>(
    measure: F,
    directions: Seq<Direction>,
    trials: Seq<Option<PersistedTrial>>,
    numbers: Seq<u32>,
    size: nat,
    selected: Result<Seq<u32>, FailureView>,
)
    requires
        selects(measure, directions, trials, numbers, size, selected),
    ensures
        selected is Ok <==> sorted_fronts(directions, trials, numbers) is Ok,
        selected matches Err(error) ==> sorted_fronts(directions, trials, numbers) == Err::<
            Seq<Seq<u32>>,
            FailureView,
        >(error),
{
}

/// Where a ranked population is cut: fronts are kept from the first on, as many as fit, and the
/// next one, if there is one, is contested because it does not fit.
pub proof fn law_fronts_are_kept_as_long_as_they_fit(ranked: Seq<Seq<u32>>, size: nat)
    ensures
        exists|whole: int|
            {
                &&& 0 <= whole <= ranked.len()
                &&& cut(ranked, size).kept == (#[trigger] ranked.take(whole)).flatten()
                &&& cut(ranked, size).kept.len() <= size
                &&& whole == ranked.len() ==> cut(ranked, size).contested is None
                &&& whole < ranked.len() ==> {
                    &&& cut(ranked, size).contested == Some(ranked[whole])
                    &&& cut(ranked, size).kept.len() + ranked[whole].len() > size
                }
            },
{
    lemma_whole_fronts(ranked, size);
    let whole = whole_fronts(ranked, size) as int;
    assert(kept_members(ranked, size) == ranked.take(whole).flatten());
}

/// The value of a cut is that of its lists.
pub proof fn law_cuts_are_what_is_held(cut: EliteCut)
    ensures
        cut@.kept == cut.kept@,
        cut.contested is None <==> cut@.contested is None,
        cut.contested matches Some(front) ==> cut@.contested == Some(front@),
{
}

} // verus!
