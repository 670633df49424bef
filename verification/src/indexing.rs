use crate::generation::lists;
use crate::generation::status_of;
use crate::generation::CacheView;
use crate::generation::Status;
use crate::trial::trial_at;
use crate::trial::PersistedTrial;
use vstd::prelude::*;

verus! {

/// What the cache makes of the trial at a position.
pub open spec fn status_at(trials: Seq<Option<PersistedTrial>>, number: u32) -> Status {
    status_of(trial_at(trials, number))
}

/// Whether every trial stands at the position that its number says.
pub open spec fn in_place(trials: Seq<Option<PersistedTrial>>) -> bool {
    &&& trials.len() <= u32::MAX + 1
    &&& forall|k: int|
        0 <= k < trials.len() ==> (#[trigger] trials[k] matches Some(trial) ==> trial.number == k)
}

/// Whether the cache knows exactly what there is to know of the trials: which ones are unfinished,
/// and which ones are complete in each generation, each listed once.
pub open spec fn indexes(cache: CacheView, trials: Seq<Option<PersistedTrial>>) -> bool {
    &&& cache.seen == trials.len()
    &&& accounts(cache, trials, positions_below(trials.len()), Set::empty())
}

/// Whether trials have only moved on: a list has not become shorter, what was finished is as it
/// was, and what was discarded stays so.
pub open spec fn moves_on(
    before: Seq<Option<PersistedTrial>>,
    after: Seq<Option<PersistedTrial>>,
) -> bool {
    &&& before.len() <= after.len()
    &&& forall|number: u32|
        number < before.len() && !(#[trigger] status_at(before, number) is Unfinished)
            ==> status_at(after, number) == status_at(before, number)
}

/// The numbers below `len`.
pub open spec fn positions_below(len: nat) -> Set<u32> {
    Set::new(|number: u32| number < len)
}

/// Whether the cache knows the trials in `known` as they are, and still counts those in `pending`
/// as unfinished.
pub open spec fn accounts(
    cache: CacheView,
    trials: Seq<Option<PersistedTrial>>,
    known: Set<u32>,
    pending: Set<u32>,
) -> bool {
    &&& forall|number: u32| #[trigger]
        cache.unfinished.contains(number) <==> pending.contains(number) || known.contains(number)
            && status_at(trials, number) is Unfinished
    &&& forall|generation: u32| #[trigger] cache.numbers(generation).no_duplicates()
    &&& forall|generation: u32, number: u32| #[trigger]
        cache.numbers(generation).contains(number) <==> known.contains(number) && status_at(
            trials,
            number,
        ) == Status::Finished(Some(generation))
    &&& forall|generation: u32| #[trigger]
        cache.generations.contains_key(generation) ==> cache.generations[generation].len() > 0
}

proof fn lemma_noted_accounts(
    cache: CacheView,
    trials: Seq<Option<PersistedTrial>>,
    known: Set<u32>,
    pending: Set<u32>,
    number: u32,
)
    requires
        accounts(cache, trials, known, pending),
        !known.contains(number),
    ensures
        accounts(
            cache.noted(number, status_at(trials, number)),
            trials,
            known.insert(number),
            pending.remove(number),
        ),
{
    let status = status_at(trials, number);
    let after = cache.noted(number, status);
    assert forall|generation: u32| #[trigger] after.numbers(generation).no_duplicates() by {
        assert(cache.numbers(generation).no_duplicates());
        assert(!cache.numbers(generation).contains(number));
    }
    assert forall|generation: u32, other: u32| #[trigger]
        after.numbers(generation).contains(other) <==> known.insert(number).contains(other)
            && status_at(trials, other) == Status::Finished(Some(generation)) by {
        let listed = cache.numbers(generation);
        assert(listed.contains(other) <==> known.contains(other) && status_at(trials, other)
            == Status::Finished(Some(generation)));
        if status == Status::Finished(Some(generation)) {
            assert(after.numbers(generation) == listed.push(number));
            assert(listed.push(number).contains(other) <==> listed.contains(other) || other
                == number) by {
                if listed.contains(other) {
                    let i = choose|i: int| 0 <= i < listed.len() && listed[i] == other;
                    assert(listed.push(number)[i] == other);
                }
                assert(listed.push(number)[listed.len() as int] == number);
            }
        } else {
            assert(after.numbers(generation) == listed);
        }
    }
    assert forall|generation: u32| #[trigger]
        after.generations.contains_key(generation) implies after.generations[generation].len()
        > 0 by {
        if status != Status::Finished(Some(generation)) {
            assert(cache.generations.contains_key(generation));
        }
    }
}

proof fn lemma_rechecked_accounts(
    cache: CacheView,
    trials: Seq<Option<PersistedTrial>>,
    known: Set<u32>,
    pending: Set<u32>,
    numbers: Seq<u32>,
)
    requires
        accounts(cache, trials, known, pending),
        in_place(trials),
        numbers.no_duplicates(),
        forall|k: int| 0 <= k < numbers.len() ==> !known.contains(#[trigger] numbers[k]),
    ensures
        accounts(
            cache.rechecked(trials, numbers),
            trials,
            known.union(numbers.to_set()),
            pending.difference(numbers.to_set()),
        ),
        cache.rechecked(trials, numbers).seen == cache.seen,
    decreases numbers.len(),
{
    if numbers.len() == 0 {
        assert(known.union(numbers.to_set()) =~= known);
        assert(pending.difference(numbers.to_set()) =~= pending);
    } else {
        let shorter = numbers.drop_last();
        let last = numbers.last();
        lemma_rechecked_accounts(cache, trials, known, pending, shorter);
        let now_known = known.union(shorter.to_set());
        assert(!now_known.contains(last)) by {
            if shorter.contains(last) {
                let i = choose|i: int| 0 <= i < shorter.len() && shorter[i] == last;
                assert(numbers[i] == numbers[numbers.len() - 1]);
            }
        }
        lemma_noted_accounts(
            cache.rechecked(trials, shorter),
            trials,
            now_known,
            pending.difference(shorter.to_set()),
            last,
        );
        assert(numbers =~= shorter.push(last));
        assert(numbers.to_set() =~= shorter.to_set().insert(last)) by {
            assert forall|x: u32| #[trigger] numbers.contains(x) <==> shorter.contains(x) || x
                == last by {
                if shorter.contains(x) {
                    let i = choose|i: int| 0 <= i < shorter.len() && shorter[i] == x;
                    assert(numbers[i] == x);
                }
                if numbers.contains(x) && x != last {
                    let i = choose|i: int| 0 <= i < numbers.len() && numbers[i] == x;
                    assert(shorter[i] == x);
                }
                assert(numbers[numbers.len() - 1] == last);
            }
        }
        assert(now_known.insert(last) =~= known.union(numbers.to_set()));
        assert(pending.difference(shorter.to_set()).remove(last) =~= pending.difference(
            numbers.to_set(),
        ));
    }
}

proof fn lemma_scanned_accounts(
    cache: CacheView,
    trials: Seq<Option<PersistedTrial>>,
    from: int,
    to: int,
)
    requires
        0 <= from <= to <= trials.len(),
        in_place(trials),
        accounts(cache, trials, positions_below(from as nat), Set::empty()),
    ensures
        accounts(
            cache.scanned(trials, from, to),
            trials,
            positions_below(to as nat),
            Set::empty(),
        ),
    decreases to - from,
{
    if from < to {
        lemma_scanned_accounts(cache, trials, from, to - 1);
        let earlier = cache.scanned(trials, from, to - 1);
        let number = (to - 1) as u32;
        assert(!positions_below((to - 1) as nat).contains(number));
        assert(trial_at(trials, number) == trials[to - 1]);
        lemma_noted_accounts(
            earlier,
            trials,
            positions_below((to - 1) as nat),
            Set::empty(),
            number,
        );
        assert(positions_below((to - 1) as nat).insert(number) =~= positions_below(to as nat));
        assert(Set::<u32>::empty().remove(number) =~= Set::<u32>::empty());
        if trials[to - 1] is None {
            assert(!earlier.unfinished.contains(number));
            assert(earlier.unfinished.remove(number) =~= earlier.unfinished);
        }
    }
}

/// A cache that knew the trials before they moved on knows them again once it is brought up to
/// date, in whatever order unfinished trials are looked at.
pub proof fn law_index_is_kept_up_to_date(
    cache: CacheView,
    before: Seq<Option<PersistedTrial>>,
    after: Seq<Option<PersistedTrial>>,
    numbers: Seq<u32>,
)
    requires
        indexes(cache, before),
        moves_on(before, after),
        in_place(after),
        lists(numbers, cache.prepared(after).unfinished),
    ensures
        indexes(cache.synced(after, numbers), after),
{
    let seen = positions_below(before.len());
    let known = seen.difference(cache.unfinished);
    assert(accounts(cache, after, known, cache.unfinished)) by {
        assert forall|generation: u32, number: u32| #[trigger]
            cache.numbers(generation).contains(number) <==> known.contains(number) && status_at(
                after,
                number,
            ) == Status::Finished(Some(generation)) by {
            assert(cache.numbers(generation).contains(number) <==> seen.contains(number)
                && status_at(before, number) == Status::Finished(Some(generation)));
            assert(cache.unfinished.contains(number) <==> seen.contains(number) && status_at(
                before,
                number,
            ) is Unfinished);
        }
        assert forall|number: u32| #[trigger]
            cache.unfinished.contains(number) <==> cache.unfinished.contains(number)
                || known.contains(number) && status_at(after, number) is Unfinished by {
            if known.contains(number) {
                assert(!(status_at(before, number) is Unfinished));
            }
        }
    }
    assert forall|k: int| 0 <= k < numbers.len() implies !known.contains(#[trigger] numbers[k]) by {
        assert(numbers.to_set().contains(numbers[k]));
    }
    lemma_rechecked_accounts(cache, after, known, cache.unfinished, numbers);
    assert(known.union(numbers.to_set()) =~= seen) by {
        assert forall|number: u32| cache.unfinished.contains(number) implies seen.contains(
            number,
        ) by {
            assert(seen.contains(number) && status_at(before, number) is Unfinished);
        }
    }
    assert(cache.unfinished.difference(numbers.to_set()) =~= Set::<u32>::empty());
    lemma_scanned_accounts(
        cache.rechecked(after, numbers),
        after,
        before.len() as int,
        after.len() as int,
    );
    lemma_same_lists(
        cache.rechecked(after, numbers).scanned(after, before.len() as int, after.len() as int),
        cache.synced(after, numbers),
        after,
    );
}

proof fn lemma_same_lists(
    cache: CacheView,
    other: CacheView,
    trials: Seq<Option<PersistedTrial>>,
)
    requires
        accounts(cache, trials, positions_below(trials.len()), Set::empty()),
        other == (CacheView { seen: trials.len(), ..cache }),
    ensures
        indexes(other, trials),
{
    assert forall|generation: u32| #[trigger]
        other.numbers(generation) == cache.numbers(generation) by {}
}

/// A cache that has seen nothing, or more trials than there are, knows the trials once it is
/// brought up to date.
pub proof fn law_index_is_built_anew(
    cache: CacheView,
    trials: Seq<Option<PersistedTrial>>,
    numbers: Seq<u32>,
)
    requires
        cache == CacheView::fresh() || trials.len() < cache.seen,
        in_place(trials),
        lists(numbers, cache.prepared(trials).unfinished),
    ensures
        indexes(cache.synced(trials, numbers), trials),
{
    let fresh = CacheView::fresh();
    assert(numbers.len() == 0) by {
        if numbers.len() > 0 {
            assert(numbers.to_set().contains(numbers[0]));
        }
    }
    assert(accounts(fresh, trials, positions_below(0), Set::empty()));
    lemma_scanned_accounts(fresh, trials, 0, trials.len() as int);
    lemma_same_lists(
        fresh.scanned(trials, 0, trials.len() as int),
        cache.synced(trials, numbers),
        trials,
    );
}

/// Two caches that know the same trials agree: on which ones are unfinished, on the members of
/// each generation, and on which generations are full.
pub proof fn law_indexes_agree(
    first: CacheView,
    second: CacheView,
    trials: Seq<Option<PersistedTrial>>,
    generation: u32,
    size: nat,
)
    requires
        indexes(first, trials),
        indexes(second, trials),
    ensures
        first.unfinished == second.unfinished,
        first.numbers(generation).to_multiset() == second.numbers(generation).to_multiset(),
        first.full(generation, size) == second.full(generation, size),
{
    broadcast use vstd::seq_lib::group_to_multiset_ensures;

    assert(first.unfinished =~= second.unfinished);
    let a = first.numbers(generation);
    let b = second.numbers(generation);
    assert(a.no_duplicates() && b.no_duplicates());
    a.lemma_multiset_has_no_duplicates();
    b.lemma_multiset_has_no_duplicates();
    assert forall|number: u32| a.to_multiset().count(number) == b.to_multiset().count(number) by {
        assert(a.contains(number) <==> b.contains(number));
        assert(a.contains(number) <==> a.to_multiset().count(number) > 0);
        assert(b.contains(number) <==> b.to_multiset().count(number) > 0);
        if a.contains(number) {
            assert(a.to_multiset().contains(number));
            assert(b.to_multiset().contains(number));
        }
    }
    assert(a.to_multiset() =~= b.to_multiset());
    assert(a.len() == b.len()) by {
        assert(a.to_multiset().len() == a.len());
        assert(b.to_multiset().len() == b.len());
    }
    if first.generations.contains_key(generation) {
        assert(a.len() > 0);
    }
    if second.generations.contains_key(generation) {
        assert(b.len() > 0);
    }
}

proof fn lemma_rechecked_keeps_full(
    cache: CacheView,
    trials: Seq<Option<PersistedTrial>>,
    numbers: Seq<u32>,
    generation: u32,
    size: nat,
)
    requires
        cache.full(generation, size),
    ensures
        cache.rechecked(trials, numbers).full(generation, size),
    decreases numbers.len(),
{
    if numbers.len() > 0 {
        lemma_rechecked_keeps_full(cache, trials, numbers.drop_last(), generation, size);
    }
}

proof fn lemma_scanned_keeps_full(
    cache: CacheView,
    trials: Seq<Option<PersistedTrial>>,
    from: int,
    to: int,
    generation: u32,
    size: nat,
)
    requires
        cache.full(generation, size),
    ensures
        cache.scanned(trials, from, to).full(generation, size),
    decreases to - from,
{
    if from < to {
        lemma_scanned_keeps_full(cache, trials, from, to - 1, generation, size);
    }
}

/// A generation that is full stays full as long as the list of trials does not become shorter.
pub proof fn law_full_generations_stay_full(
    cache: CacheView,
    trials: Seq<Option<PersistedTrial>>,
    numbers: Seq<u32>,
    generation: u32,
    size: nat,
)
    requires
        cache.seen <= trials.len(),
        cache.full(generation, size),
    ensures
        cache.synced(trials, numbers).full(generation, size),
{
    lemma_rechecked_keeps_full(cache, trials, numbers, generation, size);
    lemma_scanned_keeps_full(
        cache.rechecked(trials, numbers),
        trials,
        cache.seen as int,
        trials.len() as int,
        generation,
        size,
    );
}

/// The numbers from `from` up to, and without, `to`.
pub open spec fn upward(from: nat, to: nat) -> Seq<u32> {
    Seq::new((to - from) as nat, |k: int| (from + k) as u32)
}

proof fn lemma_rechecked_lists(
    cache: CacheView,
    trials: Seq<Option<PersistedTrial>>,
    numbers: Seq<u32>,
    generation: u32,
)
    requires
        in_place(trials),
    ensures
        cache.rechecked(trials, numbers).numbers(generation) == cache.numbers(generation)
            + numbers.filter(
            |number: u32| status_at(trials, number) == Status::Finished(Some(generation)),
        ),
        cache.rechecked(trials, numbers).seen == cache.seen,
    decreases numbers.len(),
{
    reveal(Seq::filter);
    let born = |number: u32| status_at(trials, number) == Status::Finished(Some(generation));
    if numbers.len() == 0 {
        assert(numbers.filter(born) =~= Seq::<u32>::empty());
        assert(cache.numbers(generation) + Seq::<u32>::empty() =~= cache.numbers(generation));
    } else {
        let shorter = numbers.drop_last();
        lemma_rechecked_lists(cache, trials, shorter, generation);
        let earlier = cache.rechecked(trials, shorter);
        let last = numbers.last();
        let after = cache.rechecked(trials, numbers);
        assert(after == earlier.noted(last, status_at(trials, last)));
        if born(last) {
            assert(after.numbers(generation) == earlier.numbers(generation).push(last));
            assert(after.numbers(generation) =~= cache.numbers(generation) + shorter.filter(
                born,
            ).push(last));
        } else {
            assert(after.numbers(generation) == earlier.numbers(generation));
        }
    }
}

proof fn lemma_scanned_lists(
    cache: CacheView,
    trials: Seq<Option<PersistedTrial>>,
    from: nat,
    to: nat,
    generation: u32,
)
    requires
        in_place(trials),
        from <= to <= trials.len(),
    ensures
        cache.scanned(trials, from as int, to as int).numbers(generation) == cache.numbers(
            generation,
        ) + upward(from, to).filter(
            |number: u32| status_at(trials, number) == Status::Finished(Some(generation)),
        ),
    decreases to - from,
{
    reveal(Seq::filter);
    let born = |number: u32| status_at(trials, number) == Status::Finished(Some(generation));
    if from == to {
        assert(upward(from, to) =~= Seq::<u32>::empty());
        assert(upward(from, to).filter(born) =~= Seq::<u32>::empty());
        assert(cache.numbers(generation) + Seq::<u32>::empty() =~= cache.numbers(generation));
    } else {
        let before = (to - 1) as nat;
        lemma_scanned_lists(cache, trials, from, before, generation);
        let earlier = cache.scanned(trials, from as int, before as int);
        let after = cache.scanned(trials, from as int, to as int);
        let last = before as u32;
        assert(upward(from, to).drop_last() =~= upward(from, before));
        assert(upward(from, to).last() == last);
        assert(trial_at(trials, last) == trials[before as int]);
        if born(last) {
            assert(after.numbers(generation) == earlier.numbers(generation).push(last));
            assert(after.numbers(generation) =~= cache.numbers(generation) + upward(
                from,
                before,
            ).filter(born).push(last));
        } else {
            assert(after.numbers(generation) =~= earlier.numbers(generation));
        }
    }
}

/// The list of a generation stays as it is and grows at its end: first by the trials that were
/// unfinished and are complete in the generation now, in the order in which they are looked at,
/// then by the new ones that are, in the order of their numbers.
pub proof fn law_lists_grow_at_their_end(
    cache: CacheView,
    trials: Seq<Option<PersistedTrial>>,
    numbers: Seq<u32>,
    generation: u32,
)
    requires
        in_place(trials),
        cache.seen <= trials.len(),
    ensures
        cache.synced(trials, numbers).numbers(generation) == cache.numbers(generation)
            + numbers.filter(
            |number: u32| status_at(trials, number) == Status::Finished(Some(generation)),
        ) + upward(cache.seen, trials.len()).filter(
            |number: u32| status_at(trials, number) == Status::Finished(Some(generation)),
        ),
        cache.synced(trials, numbers).seen == trials.len(),
{
    lemma_rechecked_lists(cache, trials, numbers, generation);
    lemma_scanned_lists(
        cache.rechecked(trials, numbers),
        trials,
        cache.seen,
        trials.len(),
        generation,
    );
}

/// A cache that has seen more trials than there are starts anew.
pub proof fn law_shorter_lists_are_seen_anew(
    cache: CacheView,
    trials: Seq<Option<PersistedTrial>>,
    numbers: Seq<u32>,
)
    requires
        trials.len() < cache.seen,
    ensures
        cache.synced(trials, numbers) == CacheView::fresh().synced(trials, numbers),
        cache.prepared(trials).unfinished == Set::<u32>::empty(),
{
}

/// Which trials are unfinished once a cache is up to date: those that were, or that it had not
/// seen, and that are unfinished now.
pub proof fn law_unfinished_trials_are_those_that_are_unfinished_now(
    cache: CacheView,
    trials: Seq<Option<PersistedTrial>>,
    numbers: Seq<u32>,
    number: u32,
)
    requires
        in_place(trials),
        cache.seen <= trials.len(),
        lists(numbers, cache.unfinished),
    ensures
        cache.synced(trials, numbers).unfinished.contains(number) <==> status_at(
            trials,
            number,
        ) is Unfinished && (cache.unfinished.contains(number) || cache.seen <= number
            < trials.len()),
{
    lemma_rechecked_unfinished(cache, trials, numbers, number);
    lemma_scanned_unfinished(
        cache.rechecked(trials, numbers),
        trials,
        cache.seen as int,
        trials.len() as int,
        number,
    );
    lemma_rechecked_lists(cache, trials, numbers, 0);
    assert(cache.unfinished.contains(number) <==> numbers.to_set().contains(number));
}

proof fn lemma_rechecked_unfinished(
    cache: CacheView,
    trials: Seq<Option<PersistedTrial>>,
    numbers: Seq<u32>,
    number: u32,
)
    requires
        in_place(trials),
    ensures
        cache.rechecked(trials, numbers).unfinished.contains(number) <==> if numbers.contains(
            number,
        ) {
            status_at(trials, number) is Unfinished
        } else {
            cache.unfinished.contains(number)
        },
    decreases numbers.len(),
{
    if numbers.len() > 0 {
        let shorter = numbers.drop_last();
        let last = numbers.last();
        lemma_rechecked_unfinished(cache, trials, shorter, number);
        assert(cache.rechecked(trials, numbers) == cache.rechecked(trials, shorter).noted(
            last,
            status_at(trials, last),
        ));
        if numbers.contains(number) && number != last {
            let i = choose|i: int| 0 <= i < numbers.len() && numbers[i] == number;
            assert(shorter[i] == number);
        }
        if shorter.contains(number) {
            let i = choose|i: int| 0 <= i < shorter.len() && shorter[i] == number;
            assert(numbers[i] == number);
        }
        assert(numbers[numbers.len() - 1] == last);
    }
}

proof fn lemma_scanned_unfinished(
    cache: CacheView,
    trials: Seq<Option<PersistedTrial>>,
    from: int,
    to: int,
    number: u32,
)
    requires
        in_place(trials),
        0 <= from <= to <= trials.len(),
    ensures
        cache.scanned(trials, from, to).unfinished.contains(number) <==> if from <= number < to
            && trials[number as int] is Some {
            status_at(trials, number) is Unfinished
        } else {
            cache.unfinished.contains(number)
        },
    decreases to - from,
{
    if from < to {
        lemma_scanned_unfinished(cache, trials, from, to - 1, number);
        assert(trial_at(trials, (to - 1) as u32) == trials[to - 1]);
    }
}

} // verus!
