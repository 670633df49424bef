use crate::error::error_because;
use crate::error::outcome;
use crate::error::plain_error;
use crate::error::ErrorKind;
use crate::error::Failure;
use crate::error::FailureView;
use crate::names::texts;
use crate::number::Number;
use crate::params::Params;
use crate::trial::find_trial;
use crate::trial::trial_at;
use crate::trial::PersistedTrial;
use vstd::prelude::*;
use vstd::string::*;

verus! {

/// Whether every name has a value.
pub open spec fn covers(params: Map<Seq<char>, Number>, names: Seq<Seq<char>>) -> bool {
    forall|k: int| 0 <= k < names.len() ==> params.contains_key(#[trigger] names[k])
}

/// The values of the given names.
pub open spec fn chosen_params(params: Map<Seq<char>, Number>, names: Seq<Seq<char>>) -> Map<
    Seq<char>,
    Number,
> {
    Map::new(|name: Seq<char>| names.contains(name), |name: Seq<char>| params[name])
}

/// The child of a crossover: each name has its value from the second parent where it was swapped,
/// and from the first parent elsewhere.
pub open spec fn crossed(
    parent0: Map<Seq<char>, Number>,
    parent1: Map<Seq<char>, Number>,
    names: Seq<Seq<char>>,
    swaps: Seq<bool>,
) -> Map<Seq<char>, Number> {
    Map::new(
        |name: Seq<char>| names.contains(name),
        |name: Seq<char>|
            if swaps[names.index_of(name)] {
                parent1[name]
            } else {
                parent0[name]
            },
    )
}

/// What mutation leaves of a child: the names that were not hit. The others are to be drawn anew.
pub open spec fn spared(
    child: Map<Seq<char>, Number>,
    names: Seq<Seq<char>>,
    hits: Seq<bool>,
) -> Map<Seq<char>, Number> {
    Map::new(
        |name: Seq<char>| names.contains(name) && !hits[names.index_of(name)],
        |name: Seq<char>| child[name],
    )
}

/// The child of two parents, before mutation: a crossover with the given swaps, or the first
/// parent.
pub open spec fn child_of(
    parent0: Map<Seq<char>, Number>,
    parent1: Map<Seq<char>, Number>,
    names: Seq<Seq<char>>,
    swaps: Option<Seq<bool>>,
) -> Map<Seq<char>, Number> {
    match swaps {
        Some(swapped) => crossed(parent0, parent1, names, swapped),
        None => chosen_params(parent0, names),
    }
}

/// What is said where two parents are asked for and there are fewer.
pub open spec fn too_few_parents() -> FailureView {
    error_because(ErrorKind::SamplerError, "NSGA-II requires at least two parent trials"@)
}

/// Takes the two parents out of what was chosen.
pub fn parent_pair(chosen: &Vec<u32>) -> (pair: Result<(u32, u32), Failure>)
    ensures
        match pair {
            Ok((first, second)) => chosen@.len() >= 2 && first == chosen@[0] && second
                == chosen@[1],
            Err(error) => chosen@.len() < 2 && error@ == too_few_parents(),
        },
{
    if chosen.len() < 2 {
        return Err(
            Failure::with_reason(
                ErrorKind::SamplerError,
                String::from_str("NSGA-II requires at least two parent trials"),
            ),
        );
    }
    Ok((chosen[0], chosen[1]))
}

/// Collects the values that a parent has for the given names.
pub fn build_parent_params(
    trials: &[Option<PersistedTrial>],
    number: u32,
    names: &Vec<String>,
) -> (params: Result<Params, Failure>)
    requires
        trial_at(trials@, number) matches Some(trial) ==> covers(
            trial.internal_params@,
            texts(names@),
        ),
    ensures
        outcome(params) == match trial_at(trials@, number) {
            Some(trial) => Ok::<Map<Seq<char>, Number>, FailureView>(
                chosen_params(trial.internal_params@, texts(names@)),
            ),
            None => Err::<Map<Seq<char>, Number>, FailureView>(
                plain_error(ErrorKind::TrialDiscarded),
            ),
        },
{
    let trial = match find_trial(trials, number) {
        Some(trial) => trial,
        None => {
            return Err(Failure::new(ErrorKind::TrialDiscarded));
        },
    };
    let ghost listed = texts(names@);
    let mut params = Params::new();
    assert(params@ =~= chosen_params(trial.internal_params@, listed.take(0)));
    for k in 0..names.len()
        invariant
            listed == texts(names@),
            covers(trial.internal_params@, listed),
            params@ == chosen_params(trial.internal_params@, listed.take(k as int)),
    {
        assert(names@[k as int]@ == listed[k as int]);
        if let Some(value) = trial.internal_params.get(&names[k]) {
            params.insert(names[k].clone(), value);
        }
        proof {
            lemma_contained_in_longer(listed, k as int);
            assert(params@ =~= chosen_params(trial.internal_params@, listed.take(k + 1)));
        }
    }
    assert(listed.take(names@.len() as int) =~= listed);
    Ok(params)
}

proof fn lemma_contained_in_longer(names: Seq<Seq<char>>, k: int)
    requires
        0 <= k < names.len(),
    ensures
        forall|name: Seq<char>| #[trigger]
            names.take(k + 1).contains(name) <==> names.take(k).contains(name) || name == names[k],
{
    let longer = names.take(k + 1);
    assert forall|name: Seq<char>| #[trigger] longer.contains(name) <==> names.take(k).contains(
        name,
    ) || name == names[k] by {
        if longer.contains(name) {
            let i = choose|i: int| 0 <= i < longer.len() && longer[i] == name;
            if i < k {
                assert(names.take(k)[i] == name);
            }
        }
        if names.take(k).contains(name) {
            let i = choose|i: int| 0 <= i < names.take(k).len() && names.take(k)[i] == name;
            assert(longer[i] == name);
        }
        assert(longer[k] == names[k]);
    }
}

proof fn lemma_index_in_prefix(names: Seq<Seq<char>>, k: int)
    requires
        0 <= k <= names.len(),
        names.no_duplicates(),
    ensures
        forall|name: Seq<char>| #[trigger]
            names.take(k).contains(name) ==> names.take(k).index_of(name) == names.index_of(name),
{
    let prefix = names.take(k);
    assert forall|name: Seq<char>| #[trigger] prefix.contains(name) implies prefix.index_of(name)
        == names.index_of(name) by {
        let i = prefix.index_of(name);
        assert(prefix[i] == name);
        assert(names[i] == name);
        let j = names.index_of(name);
        assert(names[j] == name);
    }
}

/// Makes the child of a crossover, given where names are swapped.
pub fn crossover_with(
    parent0: &Params,
    parent1: &Params,
    names: &Vec<String>,
    swaps: &Vec<bool>,
) -> (child: Params)
    requires
        covers(parent0@, texts(names@)),
        covers(parent1@, texts(names@)),
        texts(names@).no_duplicates(),
        swaps@.len() == names@.len(),
    ensures
        child@ == crossed(parent0@, parent1@, texts(names@), swaps@),
{
    let ghost listed = texts(names@);
    let mut child = Params::new();
    assert(child@ =~= crossed(parent0@, parent1@, listed.take(0), swaps@));
    for k in 0..names.len()
        invariant
            listed == texts(names@),
            covers(parent0@, listed),
            covers(parent1@, listed),
            listed.no_duplicates(),
            swaps@.len() == names@.len(),
            child@ == crossed(parent0@, parent1@, listed.take(k as int), swaps@),
    {
        assert(names@[k as int]@ == listed[k as int]);
        let source = if swaps[k] {
            parent1
        } else {
            parent0
        };
        if let Some(value) = source.get(&names[k]) {
            child.insert(names[k].clone(), value);
        }
        proof {
            lemma_contained_in_longer(listed, k as int);
            lemma_index_in_prefix(listed, k as int);
            lemma_index_in_prefix(listed, k + 1);
            assert(listed.take(k + 1)[k as int] == listed[k as int]);
            assert(listed.index_of(listed[k as int]) == k);
            assert(child@ =~= crossed(parent0@, parent1@, listed.take(k + 1), swaps@));
        }
    }
    assert(listed.take(names@.len() as int) =~= listed);
    child
}

/// Takes out of a child the names that mutation hits.
pub fn mutate_with(child: &Params, names: &Vec<String>, hits: &Vec<bool>) -> (params: Params)
    requires
        covers(child@, texts(names@)),
        texts(names@).no_duplicates(),
        hits@.len() == names@.len(),
    ensures
        params@ == spared(child@, texts(names@), hits@),
{
    let ghost listed = texts(names@);
    let mut params = Params::new();
    assert(params@ =~= spared(child@, listed.take(0), hits@));
    for k in 0..names.len()
        invariant
            listed == texts(names@),
            covers(child@, listed),
            listed.no_duplicates(),
            hits@.len() == names@.len(),
            params@ == spared(child@, listed.take(k as int), hits@),
    {
        assert(names@[k as int]@ == listed[k as int]);
        if !hits[k] {
            if let Some(value) = child.get(&names[k]) {
                params.insert(names[k].clone(), value);
            }
        }
        proof {
            lemma_contained_in_longer(listed, k as int);
            lemma_index_in_prefix(listed, k as int);
            lemma_index_in_prefix(listed, k + 1);
            assert(listed.take(k + 1)[k as int] == listed[k as int]);
            assert(listed.index_of(listed[k as int]) == k);
            assert(params@ =~= spared(child@, listed.take(k + 1), hits@));
        }
    }
    assert(listed.take(names@.len() as int) =~= listed);
    params
}

/// A child has no names but the given ones, and each of its values is that of one of its parents.
pub proof fn law_child_values_come_from_parents(
    parent0: Map<Seq<char>, Number>,
    parent1: Map<Seq<char>, Number>,
    names: Seq<Seq<char>>,
    swaps: Option<Seq<bool>>,
    hits: Seq<bool>,
)
    ensures
        forall|name: Seq<char>| #[trigger]
            spared(child_of(parent0, parent1, names, swaps), names, hits).contains_key(name) ==> {
                let value = spared(child_of(parent0, parent1, names, swaps), names, hits)[name];
                names.contains(name) && (value == parent0[name] || value == parent1[name])
            },
{
}

/// Each name has a draw of its own: the child of a crossover has for the name at each place the
/// value of the second parent exactly where that place is swapped, and the value of the first
/// parent elsewhere. It has no other names.
pub proof fn law_each_name_is_swapped_by_its_own_draw(
    parent0: Map<Seq<char>, Number>,
    parent1: Map<Seq<char>, Number>,
    names: Seq<Seq<char>>,
    swaps: Seq<bool>,
)
    requires
        names.no_duplicates(),
        swaps.len() == names.len(),
    ensures
        ({
            let child = crossed(parent0, parent1, names, swaps);
            &&& forall|k: int|
                0 <= k < names.len() ==> {
                    &&& child.contains_key(#[trigger] names[k])
                    &&& child[names[k]] == if swaps[k] {
                        parent1[names[k]]
                    } else {
                        parent0[names[k]]
                    }
                }
            &&& forall|name: Seq<char>| #[trigger]
                child.contains_key(name) ==> names.contains(name)
            &&& child_of(parent0, parent1, names, Some(swaps)) == child
        }),
{
    let child = crossed(parent0, parent1, names, swaps);
    assert forall|k: int| 0 <= k < names.len() implies {
        &&& child.contains_key(#[trigger] names[k])
        &&& child[names[k]] == if swaps[k] {
            parent1[names[k]]
        } else {
            parent0[names[k]]
        }
    } by {
        assert(names.contains(names[k]));
        assert(names.index_of(names[k]) == k);
    }
}

/// Changing the draw for one place changes the child of a crossover for the name at that place
/// only, and there from the value of one parent to that of the other.
pub proof fn law_one_draw_changes_one_name(
    parent0: Map<Seq<char>, Number>,
    parent1: Map<Seq<char>, Number>,
    names: Seq<Seq<char>>,
    swaps: Seq<bool>,
    k: int,
)
    requires
        names.no_duplicates(),
        swaps.len() == names.len(),
        0 <= k < names.len(),
    ensures
        ({
            let child = crossed(parent0, parent1, names, swaps);
            let other = crossed(parent0, parent1, names, swaps.update(k, !swaps[k]));
            &&& child.dom() == other.dom()
            &&& forall|name: Seq<char>|
                name != names[k] && #[trigger] child.contains_key(name) ==> child[name]
                    == other[name]
            &&& swaps[k] ==> child[names[k]] == parent1[names[k]] && other[names[k]]
                == parent0[names[k]]
            &&& !swaps[k] ==> child[names[k]] == parent0[names[k]] && other[names[k]]
                == parent1[names[k]]
        }),
{
    let turned = swaps.update(k, !swaps[k]);
    let child = crossed(parent0, parent1, names, swaps);
    let other = crossed(parent0, parent1, names, turned);
    law_each_name_is_swapped_by_its_own_draw(parent0, parent1, names, swaps);
    law_each_name_is_swapped_by_its_own_draw(parent0, parent1, names, turned);
    assert(child.contains_key(names[k]) && other.contains_key(names[k]));
    assert(child.dom() =~= other.dom());
    assert forall|name: Seq<char>| name != names[k] && #[trigger] child.contains_key(
        name,
    ) implies child[name] == other[name] by {
        let i = choose|i: int| 0 <= i < names.len() && names[i] == name;
        assert(child.contains_key(names[i]) && other.contains_key(names[i]));
    }
}

/// Without a crossover a child has the values of the first parent, one for each name.
pub proof fn law_without_crossover_the_first_parent_is_copied(
    parent0: Map<Seq<char>, Number>,
    parent1: Map<Seq<char>, Number>,
    names: Seq<Seq<char>>,
    name: Seq<char>,
)
    ensures
        child_of(parent0, parent1, names, None).contains_key(name) <==> names.contains(name),
        names.contains(name) ==> child_of(parent0, parent1, names, None)[name] == parent0[name],
        chosen_params(parent0, names).contains_key(name) <==> names.contains(name),
        names.contains(name) ==> chosen_params(parent0, names)[name] == parent0[name],
{
}

/// Mutation drops the name at each place exactly where that place is hit, and leaves the values of
/// the others as they are.
pub proof fn law_each_name_is_dropped_by_its_own_draw(
    child: Map<Seq<char>, Number>,
    names: Seq<Seq<char>>,
    hits: Seq<bool>,
)
    requires
        names.no_duplicates(),
        hits.len() == names.len(),
    ensures
        ({
            let left = spared(child, names, hits);
            &&& forall|k: int|
                0 <= k < names.len() ==> {
                    &&& left.contains_key(#[trigger] names[k]) <==> !hits[k]
                    &&& !hits[k] ==> left[names[k]] == child[names[k]]
                }
            &&& forall|name: Seq<char>| #[trigger] left.contains_key(name) ==> names.contains(name)
        }),
{
    let left = spared(child, names, hits);
    assert forall|k: int| 0 <= k < names.len() implies {
        &&& left.contains_key(#[trigger] names[k]) <==> !hits[k]
        &&& !hits[k] ==> left[names[k]] == child[names[k]]
    } by {
        assert(names.contains(names[k]));
        assert(names.index_of(names[k]) == k);
    }
}

/// What is said of too few parents.
pub proof fn law_too_few_parents_are_a_sampler_error()
    ensures
        too_few_parents().kind == ErrorKind::SamplerError,
        too_few_parents().reason == Some("NSGA-II requires at least two parent trials"@),
{
}

} // verus!
