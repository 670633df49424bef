use crate::number::Number;
use vstd::prelude::*;

verus! {

/// Parameter values by name: one number, in its internal representation, for each name.
#[derive(Debug)]
pub struct Params {
    entries: Vec<(String, Number)>,
}

/// What a list of entries maps each name to: the value of the last entry for it.
pub open spec fn param_map(entries: Seq<(String, Number)>) -> Map<Seq<char>, Number>
    decreases entries.len(),
{
    if entries.len() == 0 {
        Map::empty()
    } else {
        param_map(entries.drop_last()).insert(entries.last().0@, entries.last().1)
    }
}

/// Whether no name occurs twice in a list of entries.
pub open spec fn distinct_names(entries: Seq<(String, Number)>) -> bool {
    forall|i: int, j: int|
        0 <= i < j < entries.len() ==> (#[trigger] entries[i]).0@ != (#[trigger] entries[j]).0@
}

impl View for Params {
    type V = Map<Seq<char>, Number>;

    closed spec fn view(&self) -> Map<Seq<char>, Number> {
        param_map(self.entries@)
    }
}

proof fn lemma_param_absent(entries: Seq<(String, Number)>, key: Seq<char>)
    requires
        forall|k: int| 0 <= k < entries.len() ==> #[trigger] entries[k].0@ != key,
    ensures
        !param_map(entries).contains_key(key),
    decreases entries.len(),
{
    if entries.len() > 0 {
        assert(entries.last().0@ != key);
        assert forall|k: int| 0 <= k < entries.drop_last().len() implies #[trigger] entries.drop_last()[k].0@ != key by {
            assert(entries[k].0@ != key);
        }
        lemma_param_absent(entries.drop_last(), key);
    }
}

proof fn lemma_param_last(entries: Seq<(String, Number)>, at: int, key: Seq<char>)
    requires
        0 <= at < entries.len(),
        entries[at].0@ == key,
        forall|k: int| at < k < entries.len() ==> #[trigger] entries[k].0@ != key,
    ensures
        param_map(entries).contains_key(key),
        param_map(entries)[key] == entries[at].1,
    decreases entries.len(),
{
    if at < entries.len() - 1 {
        assert(entries.last().0@ != key);
        assert forall|k: int| at < k < entries.drop_last().len() implies #[trigger] entries.drop_last()[k].0@ != key by {
            assert(entries[k].0@ != key);
        }
        lemma_param_last(entries.drop_last(), at, key);
    }
}

proof fn lemma_param_replaced(
    entries: Seq<(String, Number)>,
    at: int,
    entry: (String, Number),
)
    requires
        0 <= at < entries.len(),
        entries[at].0@ == entry.0@,
        forall|k: int| at < k < entries.len() ==> #[trigger] entries[k].0@ != entry.0@,
    ensures
        param_map(entries.update(at, entry)) == param_map(entries).insert(entry.0@, entry.1),
    decreases entries.len(),
{
    let updated = entries.update(at, entry);
    let prefix = entries.drop_last();
    if at < entries.len() - 1 {
        assert(entries.last().0@ != entry.0@);
        assert forall|k: int| at < k < prefix.len() implies #[trigger] prefix[k].0@ != entry.0@ by {
            assert(entries[k].0@ != entry.0@);
        }
        lemma_param_replaced(prefix, at, entry);
        assert(updated.drop_last() == prefix.update(at, entry));
    } else {
        assert(updated.drop_last() == prefix);
    }
}

impl Params {
    #[verifier::type_invariant]
    spec fn well_formed(self) -> bool {
        distinct_names(self.entries@)
    }

    /// No parameters.
    pub fn new() -> (params: Params)
        ensures
            params@ == Map::<Seq<char>, Number>::empty(),
    {
        Params { entries: Vec::new() }
    }

    /// The entries, in the order in which their names were first inserted.
    pub fn entries(&self) -> (entries: &Vec<(String, Number)>)
        ensures
            param_map(entries@) == self@,
            distinct_names(entries@),
    {
        proof {
            use_type_invariant(self);
        }
        &self.entries
    }

    /// Whether there are no parameters.
    pub fn is_empty(&self) -> (yes: bool)
        ensures
            yes == (self@ == Map::<Seq<char>, Number>::empty()),
    {
        proof {
            if self.entries@.len() > 0 {
                assert(self@.contains_key(self.entries@.last().0@));
            }
        }
        self.entries.len() == 0
    }

    /// The position of the last entry for `name`.
    fn position(&self, name: &String) -> (at: Option<usize>)
        ensures
            at matches Some(i) ==> {
                &&& i < self.entries@.len()
                &&& self.entries@[i as int].0@ == name@
                &&& forall|k: int| i < k < self.entries@.len() ==> #[trigger] self.entries@[k].0@ != name@
            },
            at is None ==> forall|k: int| 0 <= k < self.entries@.len() ==> #[trigger] self.entries@[k].0@ != name@,
    {
        let mut i: usize = self.entries.len();
        while i > 0
            invariant
                i <= self.entries@.len(),
                forall|k: int| i <= k < self.entries@.len() ==> #[trigger] self.entries@[k].0@ != name@,
            decreases i,
        {
            i = i - 1;
            if self.entries[i].0 == *name {
                return Some(i);
            }
        }
        None
    }

    /// The value of `name`.
    pub fn get(&self, name: &String) -> (value: Option<Number>)
        ensures
            value is Some <==> self@.contains_key(name@),
            value matches Some(v) ==> v == self@[name@],
    {
        match self.position(name) {
            Some(i) => {
                proof {
                    lemma_param_last(self.entries@, i as int, name@);
                }
                Some(self.entries[i].1)
            },
            None => {
                proof {
                    lemma_param_absent(self.entries@, name@);
                }
                None
            },
        }
    }

    /// Sets the value of `name`.
    pub fn insert(&mut self, name: String, value: Number)
        ensures
            final(self)@ == old(self)@.insert(name@, value),
    {
        proof {
            use_type_invariant(&*self);
        }
        let ghost before = self.entries@;
        let at = self.position(&name);
        let mut entries: Vec<(String, Number)> = Vec::new();
        std::mem::swap(&mut self.entries, &mut entries);
        match at {
            Some(i) => {
                proof {
                    lemma_param_replaced(before, i as int, (name, value));
                }
                entries.set(i, (name, value));
            },
            None => {
                entries.push((name, value));
                assert(entries@.drop_last() == before);
            },
        }
        self.entries = entries;
    }
}

/// Entries without a name that occurs twice hold what they are the entries of: their name are all
/// there are, each with the value beside it.
pub proof fn law_entries_hold_each_name_with_its_value(entries: Seq<(String, Number)>)
    requires
        distinct_names(entries),
    ensures
        forall|k: int|
            0 <= k < entries.len() ==> {
                &&& param_map(entries).contains_key((#[trigger] entries[k]).0@)
                &&& param_map(entries)[entries[k].0@] == entries[k].1
            },
        forall|key: Seq<char>| #[trigger]
            param_map(entries).contains_key(key) ==> exists|k: int|
                0 <= k < entries.len() && (#[trigger] entries[k]).0@ == key,
{
    assert forall|k: int| 0 <= k < entries.len() implies {
        &&& param_map(entries).contains_key((#[trigger] entries[k]).0@)
        &&& param_map(entries)[entries[k].0@] == entries[k].1
    } by {
        lemma_param_last(entries, k, entries[k].0@);
    }
    assert forall|key: Seq<char>| #[trigger] param_map(entries).contains_key(key) implies exists|
        k: int,
    |
        0 <= k < entries.len() && (#[trigger] entries[k]).0@ == key by {
        if forall|k: int| 0 <= k < entries.len() ==> #[trigger] entries[k].0@ != key {
            lemma_param_absent(entries, key);
        }
    }
}

} // verus!
