use crate::attr::AttrKey;
use crate::attr::AttrKeyView;
use crate::error::error_because;
use crate::error::ErrorKind;
use crate::error::Failure;
use crate::text::parse_number;
use crate::text::parsed_number;
use crate::trial::find_trial;
use crate::trial::trial_at;
use crate::trial::PersistedTrial;
use crate::trial::TrialStateValues;
use std::collections::HashMap;
use std::collections::HashSet;
use vstd::prelude::*;
use vstd::std_specs::iter::IteratorSpec;
use vstd::string::*;

verus! {

/// Which trials belong to each generation and which are still in flight, as of the last look at
/// the trials of the study.
#[derive(Debug)]
pub struct GenerationIndexCache {
    pub generation_to_numbers: HashMap<u32, Vec<u32>>,
    pub unfinished_trial_numbers: HashSet<u32>,
    pub unseen_trial_start: usize,
}

/// The value of a [`GenerationIndexCache`].
pub struct CacheView {
    /// The numbers of the complete trials of each generation, in the order in which they came in.
    pub generations: Map<u32, Seq<u32>>,
    /// The numbers of the trials that were running or waiting.
    pub unfinished: Set<u32>,
    /// How many trials there were.
    pub seen: nat,
}

impl View for GenerationIndexCache {
    type V = CacheView;

    open spec fn view(&self) -> CacheView {
        CacheView {
            generations: self.generation_to_numbers@.map_values(|numbers: Vec<u32>| numbers@),
            unfinished: self.unfinished_trial_numbers@,
            seen: self.unseen_trial_start as nat,
        }
    }
}

/// The key of the attribute that holds the generation of a trial.
pub open spec fn generation_key() -> AttrKeyView {
    AttrKeyView::System("generation"@)
}

/// The generation that a trial says it belongs to.
pub open spec fn generation_of(trial: PersistedTrial) -> Option<u32> {
    if trial.attrs@.contains_key(generation_key()) {
        parsed_number(trial.attrs@[generation_key()])
    } else {
        None
    }
}

/// What the cache makes of a trial.
pub enum Status {
    /// There is no such trial any more.
    Discarded,
    /// The trial is running or waiting.
    Unfinished,
    /// The trial is over; if it is complete, it counts for the generation that it belongs to.
    Finished(Option<u32>),
}

/// What the cache makes of a trial.
pub open spec fn status_of(trial: Option<PersistedTrial>) -> Status {
    match trial {
        None => Status::Discarded,
        Some(trial) => match trial.state_values {
            TrialStateValues::Running => Status::Unfinished,
            TrialStateValues::Waiting => Status::Unfinished,
            TrialStateValues::Complete(_) => Status::Finished(generation_of(trial)),
            TrialStateValues::Pruned => Status::Finished(None),
            TrialStateValues::Fail => Status::Finished(None),
        },
    }
}

impl CacheView {
    /// A cache that has seen no trial.
    pub open spec fn fresh() -> CacheView {
        CacheView { generations: Map::empty(), unfinished: Set::empty(), seen: 0 }
    }

    /// The numbers listed for a generation.
    pub open spec fn numbers(self, generation: u32) -> Seq<u32> {
        if self.generations.contains_key(generation) {
            self.generations[generation]
        } else {
            Seq::empty()
        }
    }

    /// The cache after the trial with the given number was found to have the given status.
    pub open spec fn noted(self, number: u32, status: Status) -> CacheView {
        match status {
            Status::Unfinished => CacheView {
                unfinished: self.unfinished.insert(number),
                ..self
            },
            Status::Finished(Some(generation)) => CacheView {
                unfinished: self.unfinished.remove(number),
                generations: self.generations.insert(
                    generation,
                    self.numbers(generation).push(number),
                ),
                ..self
            },
            _ => CacheView { unfinished: self.unfinished.remove(number), ..self },
        }
    }

    /// The cache after another look at the trials with the given numbers, in this order.
    pub open spec fn rechecked(
        self,
        trials: Seq<Option<PersistedTrial>>,
        numbers: Seq<u32>,
    ) -> CacheView
        decreases numbers.len(),
    {
        if numbers.len() == 0 {
            self
        } else {
            let earlier = self.rechecked(trials, numbers.drop_last());
            match trial_at(trials, numbers.last()) {
                Some(trial) => earlier.noted(trial.number, status_of(Some(trial))),
                None => earlier.noted(numbers.last(), Status::Discarded),
            }
        }
    }

    /// The cache after a first look at the trials from position `from` up to `to`.
    pub open spec fn scanned(
        self,
        trials: Seq<Option<PersistedTrial>>,
        from: int,
        to: int,
    ) -> CacheView
        decreases to - from,
    {
        if to <= from {
            self
        } else {
            let earlier = self.scanned(trials, from, to - 1);
            match trials[to - 1] {
                Some(trial) => earlier.noted(trial.number, status_of(Some(trial))),
                None => earlier,
            }
        }
    }

    /// The cache before it looks at a list of trials: one that has become shorter is new to it.
    pub open spec fn prepared(self, trials: Seq<Option<PersistedTrial>>) -> CacheView {
        if trials.len() < self.seen {
            CacheView::fresh()
        } else {
            self
        }
    }

    /// The cache after it was brought up to date with the trials: the unfinished ones, in the
    /// given order, and then those that it had not seen.
    pub open spec fn synced(
        self,
        trials: Seq<Option<PersistedTrial>>,
        numbers: Seq<u32>,
    ) -> CacheView {
        let start = self.prepared(trials);
        CacheView {
            seen: trials.len(),
            ..start.rechecked(trials, numbers).scanned(
                trials,
                start.seen as int,
                trials.len() as int,
            )
        }
    }

    /// Whether a generation has at least `size` complete trials.
    pub open spec fn full(self, generation: u32, size: nat) -> bool {
        self.generations.contains_key(generation) && self.generations[generation].len() >= size
    }
}

/// Whether a sequence lists a set, each member once.
pub open spec fn lists(numbers: Seq<u32>, set: Set<u32>) -> bool {
    numbers.no_duplicates() && numbers.to_set() == set
}

/// The attribute key `"generation"` of the system.
pub fn generation_attr_key() -> (key: AttrKey)
    ensures
        key@ == generation_key(),
{
    AttrKey::System(String::from_str("generation"))
}

/// Reads the generation that a trial says it belongs to.
pub fn read_generation(trial: &PersistedTrial) -> (generation: Option<u32>)
    ensures
        generation == generation_of(*trial),
{
    match trial.attrs.get(&generation_attr_key()) {
        Some(text) => parse_number(text.as_str()),
        None => None,
    }
}

impl GenerationIndexCache {
    /// A cache that has seen no trial.
    pub fn new() -> (cache: GenerationIndexCache)
        ensures
            cache@ == CacheView::fresh(),
    {
        let cache = GenerationIndexCache {
            generation_to_numbers: HashMap::new(),
            unfinished_trial_numbers: HashSet::new(),
            unseen_trial_start: 0,
        };
        assert(cache@.generations =~= Map::<u32, Seq<u32>>::empty());
        cache
    }

    /// Takes note of a trial.
    fn sync_trial(&mut self, trial: &PersistedTrial)
        ensures
            final(self)@ == old(self)@.noted(trial.number, status_of(Some(*trial))),
    {
        let ghost before = *self;
        match &trial.state_values {
            TrialStateValues::Complete(_) => {
                self.unfinished_trial_numbers.remove(&trial.number);
                if let Some(generation) = read_generation(trial) {
                    self.generation_to_numbers.entry(generation).or_insert(Vec::new()).push(
                        trial.number,
                    );
                    assert(self@.generations =~= before@.generations.insert(
                        generation,
                        before@.numbers(generation).push(trial.number),
                    ));
                }
            },
            TrialStateValues::Pruned | TrialStateValues::Fail => {
                self.unfinished_trial_numbers.remove(&trial.number);
            },
            TrialStateValues::Running | TrialStateValues::Waiting => {
                self.unfinished_trial_numbers.insert(trial.number);
            },
        }
    }

    /// The unfinished trials, in the order in which the set is walked.
    fn unfinished(&self) -> (numbers: Vec<u32>)
        ensures
            lists(numbers@, self@.unfinished),
    {
        let mut numbers: Vec<u32> = Vec::new();
        for number in walk: self.unfinished_trial_numbers.iter()
            invariant
                numbers@ == walk.seq().unref().take(walk.index()),
        {
            numbers.push(*number);
            assert(numbers@ =~= walk.seq().unref().take(walk.index() + 1));
        }
        assert(numbers@ =~= self.unfinished_trial_numbers.iter().remaining().unref());
        numbers
    }

    /// Brings the cache up to date, given the order in which unfinished trials are looked at.
    pub fn sync_in_order(&mut self, trials: &[Option<PersistedTrial>], numbers: &Vec<u32>)
        requires
            lists(numbers@, old(self)@.prepared(trials@).unfinished),
        ensures
            final(self)@ == old(self)@.synced(trials@, numbers@),
    {
        let ghost given = self@;
        if trials.len() < self.unseen_trial_start {
            self.generation_to_numbers.clear();
            self.unfinished_trial_numbers.clear();
            self.unseen_trial_start = 0;
            assert(self@.generations =~= Map::<u32, Seq<u32>>::empty());
        }
        let ghost start = self@;
        assert(start == given.prepared(trials@));
        assert(numbers@.take(0) =~= Seq::<u32>::empty());
        for k in 0..numbers.len()
            invariant
                self@ == start.rechecked(trials@, numbers@.take(k as int)),
        {
            let number = numbers[k];
            assert(numbers@.take(k + 1).drop_last() =~= numbers@.take(k as int));
            match find_trial(trials, number) {
                Some(trial) => self.sync_trial(trial),
                None => {
                    self.unfinished_trial_numbers.remove(&number);
                },
            }
        }
        assert(numbers@.take(numbers@.len() as int) =~= numbers@);
        let ghost checked = self@;
        let first = self.unseen_trial_start;
        assert(first == start.seen) by {
            lemma_rechecked_seen(start, trials@, numbers@);
        }
        let mut i: usize = first;
        while i < trials.len()
            invariant
                first <= i <= trials@.len(),
                self@ == checked.scanned(trials@, first as int, i as int),
            decreases trials@.len() - i,
        {
            if let Some(trial) = &trials[i] {
                self.sync_trial(trial);
            }
            i = i + 1;
        }
        self.unseen_trial_start = trials.len();
    }

    /// Brings the cache up to date with the trials of the study.
    ///
    /// Unfinished trials are looked at again in the order in which their set is walked, which is
    /// not fixed.
    pub fn sync(&mut self, trials: &[Option<PersistedTrial>])
        ensures
            exists|numbers: Seq<u32>|
                #![trigger old(self)@.synced(trials@, numbers)]
                lists(numbers, old(self)@.prepared(trials@).unfinished) && final(self)@ == old(
                    self,
                )@.synced(trials@, numbers),
    {
        let numbers = if trials.len() < self.unseen_trial_start {
            let none: Vec<u32> = Vec::new();
            assert(none@.to_set() =~= Set::<u32>::empty());
            none
        } else {
            self.unfinished()
        };
        self.sync_in_order(trials, &numbers);
    }

    /// The first generation that does not have `population_size` complete trials.
    pub fn first_open_generation(&self, population_size: usize) -> (generation: Result<
        u32,
        Failure,
    >)
        ensures
            match generation {
                Ok(g) => {
                    &&& !self@.full(g, population_size as nat)
                    &&& forall|h: u32| h < g ==> #[trigger] self@.full(h, population_size as nat)
                },
                Err(error) => {
                    &&& error@ == error_because(
                        ErrorKind::Unexpected,
                        "NSGA-II generation overflow"@,
                    )
                    &&& forall|h: u32| #[trigger] self@.full(h, population_size as nat)
                },
            },
    {
        let mut child_generation: u32 = 0;
        loop
            invariant
                forall|h: u32|
                    h < child_generation ==> #[trigger] self@.full(h, population_size as nat),
            decreases u32::MAX - child_generation,
        {
            let full = match self.generation_to_numbers.get(&child_generation) {
                Some(numbers) => numbers.len() >= population_size,
                None => false,
            };
            assert(full == self@.full(child_generation, population_size as nat));
            if !full {
                return Ok(child_generation);
            }
            if child_generation == u32::MAX {
                return Err(
                    Failure::with_reason(
                        ErrorKind::Unexpected,
                        String::from_str("NSGA-II generation overflow"),
                    ),
                );
            }
            child_generation = child_generation + 1;
        }
    }
}

proof fn lemma_rechecked_seen(
    cache: CacheView,
    trials: Seq<Option<PersistedTrial>>,
    numbers: Seq<u32>,
)
    ensures
        cache.rechecked(trials, numbers).seen == cache.seen,
    decreases numbers.len(),
{
    if numbers.len() > 0 {
        lemma_rechecked_seen(cache, trials, numbers.drop_last());
    }
}

/// What the cache makes of a trial in each state.
pub proof fn law_states_decide_the_status(trial: PersistedTrial)
    ensures
        status_of(None) is Discarded,
        trial.state_values is Running || trial.state_values is Waiting ==> status_of(
            Some(trial),
        ) is Unfinished,
        trial.state_values is Pruned || trial.state_values is Fail ==> status_of(Some(trial))
            == Status::Finished(None),
        trial.state_values is Complete ==> status_of(Some(trial)) == Status::Finished(
            generation_of(trial),
        ),
{
}

/// A trial belongs to the generation that its system attribute `generation` says in digits, and to
/// none without one.
pub proof fn law_trials_belong_to_the_generation_they_say(trial: PersistedTrial)
    ensures
        ({
            let key = AttrKeyView::System("generation"@);
            &&& trial.attrs@.contains_key(key) ==> generation_of(trial) == parsed_number(
                trial.attrs@[key],
            )
            &&& !trial.attrs@.contains_key(key) ==> generation_of(trial) is None
        }),
{
}

/// Taking note of a trial: an unfinished one is among the unfinished ones then, and any other is
/// not. One that is complete in a generation is the last of the list of that generation, and no
/// other list changes.
pub proof fn law_a_trial_is_noted_once(
    cache: CacheView,
    number: u32,
    status: Status,
    other: u32,
    generation: u32,
)
    ensures
        ({
            let after = cache.noted(number, status);
            &&& after.seen == cache.seen
            &&& after.unfinished.contains(number) <==> status is Unfinished
            &&& other != number ==> (after.unfinished.contains(other)
                <==> cache.unfinished.contains(other))
            &&& status == Status::Finished(Some(generation)) ==> after.numbers(generation)
                == cache.numbers(generation).push(number)
            &&& status != Status::Finished(Some(generation)) ==> after.numbers(generation)
                == cache.numbers(generation)
            &&& after.generations.contains_key(generation) <==> cache.generations.contains_key(
                generation,
            ) || status == Status::Finished(Some(generation))
        }),
{
}

/// A generation is full once it lists as many trials as a population has members; a population of
/// nobody is full once the generation has a list at all.
pub proof fn law_generations_are_full_with_enough_members(
    cache: CacheView,
    generation: u32,
    size: nat,
)
    ensures
        size >= 1 ==> (cache.full(generation, size) <==> cache.numbers(generation).len() >= size),
        size == 0 ==> (cache.full(generation, size) <==> cache.generations.contains_key(
            generation,
        )),
{
}

/// A new cache has seen nothing.
pub proof fn law_new_caches_are_empty(generation: u32, number: u32)
    ensures
        CacheView::fresh().seen == 0,
        !CacheView::fresh().unfinished.contains(number),
        CacheView::fresh().numbers(generation) == Seq::<u32>::empty(),
        !CacheView::fresh().generations.contains_key(generation),
{
}

/// The value of a cache is that of its lists, of its set and of its count.
pub proof fn law_caches_are_what_is_held(cache: GenerationIndexCache, generation: u32)
    ensures
        cache@.seen == cache.unseen_trial_start,
        cache@.unfinished == cache.unfinished_trial_numbers@,
        cache@.generations.contains_key(generation) <==> cache.generation_to_numbers@.contains_key(
            generation,
        ),
        cache.generation_to_numbers@.contains_key(generation) ==> cache@.numbers(generation)
            == cache.generation_to_numbers@[generation]@,
        !cache.generation_to_numbers@.contains_key(generation) ==> cache@.numbers(generation)
            == Seq::<u32>::empty(),
{
}

/// A listing of a set has each of its members once, and nobody else.
pub proof fn law_listings_hold_each_member_once(numbers: Seq<u32>, set: Set<u32>)
    ensures
        lists(numbers, set) <==> {
            &&& forall|i: int, j: int|
                0 <= i < j < numbers.len() ==> #[trigger] numbers[i] != #[trigger] numbers[j]
            &&& forall|number: u32| #[trigger] set.contains(number) <==> numbers.contains(number)
        },
{
    if lists(numbers, set) {
        assert forall|number: u32| #[trigger] set.contains(number) <==> numbers.contains(number) by {
            assert(numbers.to_set().contains(number) <==> numbers.contains(number));
        }
    }
    if forall|number: u32| #[trigger] set.contains(number) <==> numbers.contains(number) {
        assert(numbers.to_set() =~= set);
    }
}

/// A cache is brought up to date trial by trial: first it looks at the unfinished ones again, one
/// after the other, and a number without a trial is unfinished no more; then at those that it had
/// not seen, one after the other. A trial is noted under the number that it says it has.
pub proof fn law_trials_are_noted_one_by_one(
    cache: CacheView,
    trials: Seq<Option<PersistedTrial>>,
    numbers: Seq<u32>,
    number: u32,
    from: int,
    to: int,
)
    requires
        0 <= from <= to < trials.len(),
    ensures
        cache.rechecked(trials, Seq::empty()) == cache,
        cache.rechecked(trials, numbers.push(number)) == match trial_at(trials, number) {
            Some(trial) => cache.rechecked(trials, numbers).noted(
                trial.number,
                status_of(Some(trial)),
            ),
            None => cache.rechecked(trials, numbers).noted(number, status_of(None)),
        },
        cache.scanned(trials, from, from) == cache,
        cache.scanned(trials, from, to + 1) == match trials[to] {
            Some(trial) => cache.scanned(trials, from, to).noted(
                trial.number,
                status_of(Some(trial)),
            ),
            None => cache.scanned(trials, from, to),
        },
        cache.seen <= trials.len() ==> {
            let looked = cache.rechecked(trials, numbers).scanned(
                trials,
                cache.seen as int,
                trials.len() as int,
            );
            &&& cache.synced(trials, numbers).generations == looked.generations
            &&& cache.synced(trials, numbers).unfinished == looked.unfinished
            &&& cache.synced(trials, numbers).seen == trials.len()
        },
{
    assert(numbers.push(number).drop_last() =~= numbers);
    assert(numbers.push(number).last() == number);
}

} // verus!
