use crate::ancestry::law_parent_keys_differ;
use crate::ancestry::lemma_lineage_attrs;
use crate::attr::AttrKeyView;
use crate::crowding::crowded;
use crate::crowding::steady_measure;
use crate::crowding::Axis;
use crate::elite::elite_after;
use crate::elite::elite_cut;
use crate::elite::selects;
use crate::error::Failure;
use crate::error::FailureView;
use crate::generation::CacheView;
use crate::json::read_array;
use crate::number::Number;
use crate::parents::breeds;
use crate::parents::decodes;
use crate::parents::finds;
use crate::parents::first_missing;
use crate::parents::found_up_to;
use crate::parents::known_parents;
use crate::parents::latest_kept;
use crate::parents::lineage;
use crate::parents::lineage_attrs;
use crate::parents::parent_key;
use crate::parents::parent_keys;
use crate::parents::replies;
use crate::parents::resolves;
use crate::parents::restores;
use crate::parents::succeeds;
use crate::parents::unusable;
use crate::parents::ParentsView;
use crate::sampler::opens;
use crate::sampler::plan_for;
use crate::sampler::plans;
use crate::sampler::plans_child;
use crate::sampler::PlanView;
use crate::trial::Direction;
use crate::trial::PersistedTrial;
use vstd::prelude::*;

verus! {

/// Whether two lookups give the same reply for the same ID.
pub open spec fn alike<
    F: Fn(u32) -> Result<Option<u32>, Failure>,
    G: Fn(u32) -> Result<Option<u32>, Failure>,
>(first: F, second: G) -> bool {
    forall|id: u32, a: Result<Option<u32>, FailureView>, b: Result<Option<u32>, FailureView>|
        #[trigger] replies(first, id, a) && #[trigger] replies(second, id, b) ==> a == b
}

/// The same population has the same elite.
pub proof fn law_selection_is_reproducible<M: Fn(&Vec<Axis>, usize) -> Vec<Number>>(
    measure: M,
    directions: Seq<Direction>,
    trials: Seq<Option<PersistedTrial>>,
    numbers: Seq<u32>,
    size: nat,
    a: Result<Seq<u32>, FailureView>,
    b: Result<Seq<u32>, FailureView>,
)
    requires
        steady_measure(measure),
        selects(measure, directions, trials, numbers, size, a),
        selects(measure, directions, trials, numbers, size, b),
    ensures
        a == b,
{
    if let Ok(cut) = elite_cut(directions, trials, numbers, size) {
        if let Some(front) = cut.contested {
            let first = choose|distances: Seq<Number>|
                #![trigger elite_after(cut, size, distances)]
                crowded(measure, directions.len(), trials, front, Ok(distances)) && distances.len()
                    == front.len() && a == Ok::<Seq<u32>, FailureView>(
                    elite_after(cut, size, distances),
                );
            let second = choose|distances: Seq<Number>|
                #![trigger elite_after(cut, size, distances)]
                crowded(measure, directions.len(), trials, front, Ok(distances)) && distances.len()
                    == front.len() && b == Ok::<Seq<u32>, FailureView>(
                    elite_after(cut, size, distances),
                );
            assert(first == second);
        }
    }
}

proof fn lemma_resolving_is_steady<
    F: Fn(u32) -> Result<Option<u32>, Failure>,
    G: Fn(u32) -> Result<Option<u32>, Failure>,
>(
    first: F,
    second: G,
    ids: Seq<u32>,
    a: Result<Option<Seq<u32>>, FailureView>,
    b: Result<Option<Seq<u32>>, FailureView>,
)
    requires
        alike(first, second),
        resolves(first, ids, a),
        resolves(second, ids, b),
    ensures
        a == b,
{
    assert(alike(second, first));
    lemma_resolving_is_steady_one_way(first, second, ids, a, b);
    lemma_resolving_is_steady_one_way(second, first, ids, b, a);
    if let (Ok(Some(x)), Ok(Some(y))) = (a, b) {
        assert forall|k: int| 0 <= k < ids.len() implies x[k] == y[k] by {
            assert(replies(first, ids[k], Ok(Some(x[k]))));
            assert(replies(second, ids[k], Ok(Some(y[k]))));
        }
        assert(x =~= y);
    }
}

/// Where the first lookup stops short, the second one stops in the same way.
proof fn lemma_resolving_is_steady_one_way<
    F: Fn(u32) -> Result<Option<u32>, Failure>,
    G: Fn(u32) -> Result<Option<u32>, Failure>,
>(
    first: F,
    second: G,
    ids: Seq<u32>,
    a: Result<Option<Seq<u32>>, FailureView>,
    b: Result<Option<Seq<u32>>, FailureView>,
)
    requires
        alike(first, second),
        resolves(first, ids, a),
        resolves(second, ids, b),
    ensures
        !(a matches Ok(Some(_))) ==> a == b,
{
    if !(a matches Ok(Some(_))) {
        let reply: Result<Option<u32>, FailureView> = match a {
            Ok(_) => Ok(None),
            Err(error) => Err(error),
        };
        let k = choose|k: int|
            0 <= k < ids.len() && #[trigger] replies(first, ids[k], reply) && found_up_to(
                first,
                ids,
                k,
            );
        if let Ok(Some(found)) = b {
            assert(replies(second, ids[k], Ok(Some(found[k]))));
        } else {
            let other: Result<Option<u32>, FailureView> = match b {
                Ok(_) => Ok(None),
                Err(error) => Err(error),
            };
            let j = choose|j: int|
                0 <= j < ids.len() && #[trigger] replies(second, ids[j], other) && found_up_to(
                    second,
                    ids,
                    j,
                );
            if j < k {
                assert(finds(first, ids[j]));
            } else if k < j {
                assert(finds(second, ids[k]));
            }
        }
    }
}

proof fn lemma_decoding_is_steady<
    F: Fn(u32) -> Result<Option<u32>, Failure>,
    G: Fn(u32) -> Result<Option<u32>, Failure>,
>(
    first: F,
    second: G,
    encoded: Seq<char>,
    size: nat,
    a: Result<Option<Seq<u32>>, FailureView>,
    b: Result<Option<Seq<u32>>, FailureView>,
)
    requires
        alike(first, second),
        decodes(first, encoded, size, a),
        decodes(second, encoded, size, b),
    ensures
        a == b,
{
    if let Ok(ids) = read_array(encoded) {
        if ids.len() == size && ids.no_duplicates() {
            lemma_resolving_is_steady(first, second, ids, a, b);
        }
    }
}

/// What a study keeps is restored in the same way each time.
pub proof fn law_restoring_is_reproducible<
    F: Fn(u32) -> Result<Option<u32>, Failure>,
    G: Fn(u32) -> Result<Option<u32>, Failure>,
>(
    first: F,
    second: G,
    study_attrs: Map<AttrKeyView, Seq<char>>,
    size: nat,
    child_generation: u32,
    a: Result<Option<(u32, Seq<u32>)>, FailureView>,
    b: Result<Option<(u32, Seq<u32>)>, FailureView>,
)
    requires
        alike(first, second),
        restores(first, study_attrs, size, child_generation, a),
        restores(second, study_attrs, size, child_generation, b),
    ensures
        a == b,
{
    let (g, kept_a) = lemma_found_at(first, study_attrs, size, child_generation, a);
    let (h, kept_b) = lemma_found_at(second, study_attrs, size, child_generation, b);
    if g >= 1 {
        let encoded = study_attrs[parent_key(g)];
        if h < g {
            assert(unusable(second, study_attrs, size, g));
            lemma_decoding_is_steady(first, second, encoded, size, kept_a, Ok(None));
        } else if h == g {
            lemma_decoding_is_steady(first, second, encoded, size, kept_a, kept_b);
        }
    }
    if h > g {
        assert(unusable(first, study_attrs, size, h));
        lemma_decoding_is_steady(
            first,
            second,
            study_attrs[parent_key(h)],
            size,
            Ok(None),
            kept_b,
        );
    }
}

/// The generation for which something usable is kept, or 0, and what it is read as.
proof fn lemma_found_at<F: Fn(u32) -> Result<Option<u32>, Failure>>(
    lookup: F,
    study_attrs: Map<AttrKeyView, Seq<char>>,
    size: nat,
    child_generation: u32,
    cached: Result<Option<(u32, Seq<u32>)>, FailureView>,
) -> (found: (u32, Result<Option<Seq<u32>>, FailureView>))
    requires
        restores(lookup, study_attrs, size, child_generation, cached),
    ensures
        found.0 <= child_generation,
        forall|later: u32|
            found.0 < later <= child_generation ==> #[trigger] unusable(
                lookup,
                study_attrs,
                size,
                later,
            ),
        found.0 >= 1 ==> latest_kept(
            lookup,
            study_attrs,
            size,
            child_generation,
            found.0,
            found.1,
        ),
        match cached {
            Ok(Some((generation, numbers))) => found == (
                generation,
                Ok::<Option<Seq<u32>>, FailureView>(Some(numbers)),
            ) && generation >= 1,
            Ok(None) => found == (0u32, Ok::<Option<Seq<u32>>, FailureView>(None)),
            Err(error) => found.1 == Err::<Option<Seq<u32>>, FailureView>(error) && found.0 >= 1,
        },
{
    match cached {
        Ok(Some((generation, numbers))) => (generation, Ok(Some(numbers))),
        Ok(None) => (0, Ok(None)),
        Err(error) => {
            let generation = choose|generation: u32| #[trigger]
                latest_kept(lookup, study_attrs, size, child_generation, generation, Err(error));
            (generation, Err(error))
        },
    }
}

proof fn lemma_lines_agree<M: Fn(&Vec<Axis>, usize) -> Vec<Number>>(
    measure: M,
    cache: CacheView,
    size: nat,
    directions: Seq<Direction>,
    trials: Seq<Option<PersistedTrial>>,
    first: int,
    a: Seq<Seq<u32>>,
    b: Seq<Seq<u32>>,
    k: int,
)
    requires
        steady_measure(measure),
        lineage(measure, cache, size, directions, trials, first, a),
        lineage(measure, cache, size, directions, trials, first, b),
        a[0] == b[0],
        0 <= k < a.len(),
        k < b.len(),
    ensures
        a[k] == b[k],
    decreases k,
{
    if k >= 1 {
        lemma_lines_agree(measure, cache, size, directions, trials, first, a, b, k - 1);
        let pool = cache.numbers((first + k - 2) as u32) + a[k - 1];
        assert(succeeds(measure, cache, size, directions, trials, first, a, k));
        assert(succeeds(measure, cache, size, directions, trials, first, b, k));
        law_selection_is_reproducible(
            measure,
            directions,
            trials,
            pool,
            size,
            Ok(a[k]),
            Ok(b[k]),
        );
    }
}

/// Whether a line of parent populations leads to the given outcome.
spec fn ends_in<M: Fn(&Vec<Axis>, usize) -> Vec<Number>>(
    measure: M,
    cache: CacheView,
    size: nat,
    directions: Seq<Direction>,
    trials: Seq<Option<PersistedTrial>>,
    child_generation: u32,
    first: int,
    line: Seq<Seq<u32>>,
    parents: Result<ParentsView, FailureView>,
) -> bool {
    let next = first + line.len() - 1;
    &&& lineage(measure, cache, size, directions, trials, first, line)
    &&& line.len() > 1 ==> next <= child_generation + 1
    &&& match parents {
        Ok(found) => {
            &&& found.numbers == line.last()
            &&& found.attrs == lineage_attrs(trials, first, line)
            &&& next > child_generation || !cache.full((next - 1) as u32, size)
        },
        Err(error) => {
            &&& next <= child_generation
            &&& cache.full((next - 1) as u32, size)
            &&& selects(
                measure,
                directions,
                trials,
                cache.numbers((next - 1) as u32) + line.last(),
                size,
                Err(error),
            )
        },
    }
}

proof fn lemma_no_longer_line<M: Fn(&Vec<Axis>, usize) -> Vec<Number>>(
    measure: M,
    cache: CacheView,
    size: nat,
    directions: Seq<Direction>,
    trials: Seq<Option<PersistedTrial>>,
    child_generation: u32,
    first: int,
    a: Seq<Seq<u32>>,
    b: Seq<Seq<u32>>,
    parents: Result<ParentsView, FailureView>,
    others: Result<ParentsView, FailureView>,
)
    requires
        steady_measure(measure),
        ends_in(measure, cache, size, directions, trials, child_generation, first, a, parents),
        ends_in(measure, cache, size, directions, trials, child_generation, first, b, others),
        a[0] == b[0],
    ensures
        b.len() <= a.len(),
{
    if a.len() < b.len() {
        let k = a.len() as int;
        let next = first + k - 1;
        lemma_lines_agree(measure, cache, size, directions, trials, first, a, b, k - 1);
        assert(succeeds(measure, cache, size, directions, trials, first, b, k));
        assert(a.last() == b[k - 1]);
        assert(next <= child_generation);
        let pool = cache.numbers((next - 1) as u32) + a.last();
        if let Err(error) = parents {
            law_selection_is_reproducible(
                measure,
                directions,
                trials,
                pool,
                size,
                Ok(b[k]),
                Err(error),
            );
        }
    }
}

/// The same generations have the same parents.
pub proof fn law_breeding_is_reproducible<M: Fn(&Vec<Axis>, usize) -> Vec<Number>>(
    measure: M,
    cache: CacheView,
    size: nat,
    directions: Seq<Direction>,
    trials: Seq<Option<PersistedTrial>>,
    child_generation: u32,
    cached: Option<(u32, Seq<u32>)>,
    a: Result<ParentsView, FailureView>,
    b: Result<ParentsView, FailureView>,
)
    requires
        steady_measure(measure),
        breeds(measure, cache, size, directions, trials, child_generation, cached, a),
        breeds(measure, cache, size, directions, trials, child_generation, cached, b),
    ensures
        a == b,
{
    let first = first_missing(cached);
    let g = child_generation;
    if child_generation != 0 && !(cached matches Some((generation, _)) && generation
        == child_generation) {
        let line_a = choose|line: Seq<Seq<u32>>| #[trigger]
            lineage(measure, cache, size, directions, trials, first, line) && line[0]
                == known_parents(cached) && ends_in(
                measure,
                cache,
                size,
                directions,
                trials,
                g,
                first,
                line,
                a,
            );
        let line_b = choose|line: Seq<Seq<u32>>| #[trigger]
            lineage(measure, cache, size, directions, trials, first, line) && line[0]
                == known_parents(cached) && ends_in(
                measure,
                cache,
                size,
                directions,
                trials,
                g,
                first,
                line,
                b,
            );
        lemma_no_longer_line(
            measure,
            cache,
            size,
            directions,
            trials,
            g,
            first,
            line_a,
            line_b,
            a,
            b,
        );
        lemma_no_longer_line(
            measure,
            cache,
            size,
            directions,
            trials,
            g,
            first,
            line_b,
            line_a,
            b,
            a,
        );
        assert forall|k: int| 0 <= k < line_a.len() implies line_a[k] == line_b[k] by {
            lemma_lines_agree(
                measure,
                cache,
                size,
                directions,
                trials,
                first,
                line_a,
                line_b,
                k,
            );
        }
        assert(line_a =~= line_b);
        if let (Err(x), Err(y)) = (a, b) {
            let next = first + line_a.len() - 1;
            law_selection_is_reproducible(
                measure,
                directions,
                trials,
                cache.numbers((next - 1) as u32) + line_a.last(),
                size,
                Err(x),
                Err(y),
            );
        }
    }
}

/// Parents that are worked out from those of a kept generation are the ones that are worked out
/// from the start. What is to be kept of them is what is to be kept then of the generations after
/// the kept one; nothing is written for that generation or an earlier one.
pub proof fn law_resuming_gives_the_same_parents<M: Fn(&Vec<Axis>, usize) -> Vec<Number>>(
    measure: M,
    cache: CacheView,
    size: nat,
    directions: Seq<Direction>,
    trials: Seq<Option<PersistedTrial>>,
    kept_generation: u32,
    child_generation: u32,
    kept: ParentsView,
    anew: Result<ParentsView, FailureView>,
    resumed: Result<ParentsView, FailureView>,
)
    requires
        steady_measure(measure),
        1 <= kept_generation <= child_generation,
        forall|generation: u32|
            generation < kept_generation ==> #[trigger] cache.full(generation, size),
        breeds(measure, cache, size, directions, trials, kept_generation, None, Ok(kept)),
        breeds(measure, cache, size, directions, trials, child_generation, None, anew),
        breeds(
            measure,
            cache,
            size,
            directions,
            trials,
            child_generation,
            Some((kept_generation, kept.numbers)),
            resumed,
        ),
    ensures
        match (anew, resumed) {
            (Ok(first), Ok(second)) => {
                &&& first.numbers == second.numbers
                &&& second.attrs == first.attrs.restrict(
                    parent_keys(kept_generation, child_generation),
                )
            },
            (Err(first), Err(second)) => first == second,
            _ => false,
        },
{
    let g = kept_generation;
    if g == child_generation {
        law_breeding_is_reproducible(
            measure,
            cache,
            size,
            directions,
            trials,
            g,
            None,
            anew,
            Ok(kept),
        );
        assert(kept.attrs.restrict(parent_keys(g, g)) =~= Map::<AttrKeyView, Seq<char>>::empty());
    } else {
        let early = choose|line: Seq<Seq<u32>>| #[trigger]
            lineage(measure, cache, size, directions, trials, 1, line) && line[0] == Seq::<
                u32,
            >::empty() && ends_in(
                measure,
                cache,
                size,
                directions,
                trials,
                g,
                1,
                line,
                Ok(kept),
            );
        assert(early.len() == g + 1) by {
            if early.len() <= g {
                assert(cache.full((early.len() - 1) as u32, size));
            }
        }
        let late = choose|line: Seq<Seq<u32>>| #[trigger]
            lineage(measure, cache, size, directions, trials, g + 1, line) && line[0]
                == kept.numbers && ends_in(
                measure,
                cache,
                size,
                directions,
                trials,
                child_generation,
                g + 1,
                line,
                resumed,
            );
        let whole = early + late.drop_first();
        lemma_lines_join(measure, cache, size, directions, trials, early, late, g as int);
        let joined: Result<ParentsView, FailureView> = match resumed {
            Ok(found) => Ok(
                ParentsView {
                    numbers: found.numbers,
                    attrs: lineage_attrs(trials, 1, whole),
                },
            ),
            Err(error) => Err(error),
        };
        assert(whole.last() == late.last());
        assert(ends_in(
            measure,
            cache,
            size,
            directions,
            trials,
            child_generation,
            1,
            whole,
            joined,
        ));
        assert(breeds(
            measure,
            cache,
            size,
            directions,
            trials,
            child_generation,
            None,
            joined,
        ));
        law_breeding_is_reproducible(
            measure,
            cache,
            size,
            directions,
            trials,
            child_generation,
            None,
            anew,
            joined,
        );
        if resumed is Ok {
            lemma_attrs_join(trials, early, late, g, child_generation);
        }
    }
}

proof fn lemma_attrs_join(
    trials: Seq<Option<PersistedTrial>>,
    early: Seq<Seq<u32>>,
    late: Seq<Seq<u32>>,
    g: u32,
    child_generation: u32,
)
    requires
        1 <= g < child_generation,
        early.len() == g + 1,
        late.len() >= 1,
        late.len() > 1 ==> g + late.len() <= child_generation + 1,
        early.last() == late[0],
    ensures
        lineage_attrs(trials, g + 1, late) == lineage_attrs(
            trials,
            1,
            early + late.drop_first(),
        ).restrict(parent_keys(g, child_generation)),
{
    let whole = early + late.drop_first();
    let part = lineage_attrs(trials, g + 1, late);
    let all = lineage_attrs(trials, 1, whole);
    let rest = all.restrict(parent_keys(g, child_generation));
    lemma_lineage_attrs(trials, g + 1, late);
    lemma_lineage_attrs(trials, 1, whole);
    assert forall|key: AttrKeyView| #[trigger] part.contains_key(key) implies rest.contains_key(key)
        && rest[key] == part[key] by {
        let j = choose|j: u32|
            g + 1 <= j < g + 1 + late.len() - 1 && key == #[trigger] parent_key(j);
        assert(all.contains_key(parent_key(j)));
        assert(whole[j as int] == late[j - g]);
    }
    assert forall|key: AttrKeyView| #[trigger] rest.contains_key(key) implies part.contains_key(
        key,
    ) by {
        let j = choose|j: u32| 1 <= j < 1 + whole.len() - 1 && key == #[trigger] parent_key(j);
        let i = choose|i: u32| g < i <= child_generation && key == #[trigger] parent_key(i);
        law_parent_keys_differ(i, j);
        assert(part.contains_key(parent_key(j)));
    }
    assert(part =~= rest);
}

proof fn lemma_lines_join<M: Fn(&Vec<Axis>, usize) -> Vec<Number>>(
    measure: M,
    cache: CacheView,
    size: nat,
    directions: Seq<Direction>,
    trials: Seq<Option<PersistedTrial>>,
    early: Seq<Seq<u32>>,
    late: Seq<Seq<u32>>,
    g: int,
)
    requires
        lineage(measure, cache, size, directions, trials, 1, early),
        lineage(measure, cache, size, directions, trials, g + 1, late),
        early.len() == g + 1,
        early.last() == late[0],
    ensures
        lineage(measure, cache, size, directions, trials, 1, early + late.drop_first()),
{
    let whole = early + late.drop_first();
    assert forall|k: int| 1 <= k < whole.len() implies #[trigger] succeeds(
        measure,
        cache,
        size,
        directions,
        trials,
        1,
        whole,
        k,
    ) by {
        if k <= g {
            assert(succeeds(measure, cache, size, directions, trials, 1, early, k));
            assert(whole[k] == early[k]);
            assert(whole[k - 1] == early[k - 1]);
        } else {
            let j = k - g;
            assert(succeeds(measure, cache, size, directions, trials, g + 1, late, j));
            assert(whole[k] == late[j]);
            assert(whole[k - 1] == late[j - 1]);
        }
    }
}

/// With the same cache, trials and study attributes, the next child has the same generation and
/// the same parents.
pub proof fn law_planning_is_reproducible<
    F: Fn(u32) -> Result<Option<u32>, Failure>,
    G: Fn(u32) -> Result<Option<u32>, Failure>,
    M: Fn(&Vec<Axis>, usize) -> Vec<Number>,
>(
    first: F,
    second: G,
    measure: M,
    cache: CacheView,
    size: nat,
    directions: Seq<Direction>,
    trials: Seq<Option<PersistedTrial>>,
    study_attrs: Map<AttrKeyView, Seq<char>>,
    a: Result<PlanView, FailureView>,
    b: Result<PlanView, FailureView>,
)
    requires
        alike(first, second),
        steady_measure(measure),
        plans(first, measure, cache, size, directions, trials, study_attrs, a),
        plans(second, measure, cache, size, directions, trials, study_attrs, b),
    ensures
        a == b,
{
    let open_a = lemma_open(first, measure, cache, size, directions, trials, study_attrs, a);
    let open_b = lemma_open(second, measure, cache, size, directions, trials, study_attrs, b);
    if let (Ok(x), Ok(y)) = (open_a, open_b) {
        assert(x == y) by {
            if x < y {
                assert(cache.full(x, size));
            } else if y < x {
                assert(cache.full(y, size));
            }
        }
        let found_a = lemma_child(
            first,
            measure,
            cache,
            size,
            directions,
            trials,
            study_attrs,
            x,
            a,
        );
        let found_b = lemma_child(
            second,
            measure,
            cache,
            size,
            directions,
            trials,
            study_attrs,
            x,
            b,
        );
        law_restoring_is_reproducible(first, second, study_attrs, size, x, found_a.0, found_b.0);
        if let Ok(known) = found_a.0 {
            law_breeding_is_reproducible(
                measure,
                cache,
                size,
                directions,
                trials,
                x,
                known,
                found_a.1,
                found_b.1,
            );
        }
    } else {
        assert(open_a is Ok ==> cache.full(open_a->Ok_0, size));
        assert(open_b is Ok ==> cache.full(open_b->Ok_0, size));
    }
}

/// The generation that a plan is for.
pub proof fn lemma_open<
    F: Fn(u32) -> Result<Option<u32>, Failure>,
    M: Fn(&Vec<Axis>, usize) -> Vec<Number>,
>(
    lookup: F,
    measure: M,
    cache: CacheView,
    size: nat,
    directions: Seq<Direction>,
    trials: Seq<Option<PersistedTrial>>,
    study_attrs: Map<AttrKeyView, Seq<char>>,
    plan: Result<PlanView, FailureView>,
) -> (generation: Result<u32, FailureView>)
    requires
        plans(lookup, measure, cache, size, directions, trials, study_attrs, plan),
    ensures
        opens(cache, size, generation),
        match generation {
            Err(error) => plan == Err::<PlanView, FailureView>(error),
            Ok(open) => plans_child(
                lookup,
                measure,
                cache,
                size,
                directions,
                trials,
                study_attrs,
                open,
                plan,
            ),
        },
{
    choose|generation: Result<u32, FailureView>| #[trigger]
        opens(cache, size, generation) && match generation {
            Err(error) => plan == Err::<PlanView, FailureView>(error),
            Ok(open) => plans_child(
                lookup,
                measure,
                cache,
                size,
                directions,
                trials,
                study_attrs,
                open,
                plan,
            ),
        }
}

/// What a plan for a known generation rests on: what was restored, and the parents.
pub proof fn lemma_child<
    F: Fn(u32) -> Result<Option<u32>, Failure>,
    M: Fn(&Vec<Axis>, usize) -> Vec<Number>,
>(
    lookup: F,
    measure: M,
    cache: CacheView,
    size: nat,
    directions: Seq<Direction>,
    trials: Seq<Option<PersistedTrial>>,
    study_attrs: Map<AttrKeyView, Seq<char>>,
    child_generation: u32,
    plan: Result<PlanView, FailureView>,
) -> (found: (Result<Option<(u32, Seq<u32>)>, FailureView>, Result<ParentsView, FailureView>))
    requires
        plans_child(
            lookup,
            measure,
            cache,
            size,
            directions,
            trials,
            study_attrs,
            child_generation,
            plan,
        ),
    ensures
        restores(lookup, study_attrs, size, child_generation, found.0),
        match found.0 {
            Err(error) => plan == Err::<PlanView, FailureView>(error),
            Ok(known) => {
                &&& breeds(
                    measure,
                    cache,
                    size,
                    directions,
                    trials,
                    child_generation,
                    known,
                    found.1,
                )
                &&& plan == match found.1 {
                    Ok(parents) => Ok::<PlanView, FailureView>(plan_for(child_generation, parents)),
                    Err(error) => Err::<PlanView, FailureView>(error),
                }
            },
        },
{
    let cached = choose|cached: Result<Option<(u32, Seq<u32>)>, FailureView>| #[trigger]
        restores(lookup, study_attrs, size, child_generation, cached) && match cached {
            Err(error) => plan == Err::<PlanView, FailureView>(error),
            Ok(known) => exists|parents: Result<ParentsView, FailureView>| #[trigger]
                breeds(
                    measure,
                    cache,
                    size,
                    directions,
                    trials,
                    child_generation,
                    known,
                    parents,
                ) && plan == match parents {
                    Ok(found) => Ok::<PlanView, FailureView>(plan_for(child_generation, found)),
                    Err(error) => Err::<PlanView, FailureView>(error),
                },
        };
    let parents = match cached {
        Ok(known) => choose|parents: Result<ParentsView, FailureView>| #[trigger]
            breeds(
                measure,
                cache,
                size,
                directions,
                trials,
                child_generation,
                known,
                parents,
            ) && plan == match parents {
                Ok(found) => Ok::<PlanView, FailureView>(plan_for(child_generation, found)),
                Err(error) => Err::<PlanView, FailureView>(error),
            },
        Err(error) => Err(error),
    };
    (cached, parents)
}

} // verus!
