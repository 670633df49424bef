use vstd::prelude::*;

verus! {

/// The name of an attribute, in the name space of the system or of the user.
#[derive(Debug)]
pub enum AttrKey {
    System(String),
    User(String),
}

/// The value of an [`AttrKey`].
pub enum AttrKeyView {
    System(Seq<char>),
    User(Seq<char>),
}

impl View for AttrKey {
    type V = AttrKeyView;

    open spec fn view(&self) -> AttrKeyView {
        match self {
            AttrKey::System(name) => AttrKeyView::System(name@),
            AttrKey::User(name) => AttrKeyView::User(name@),
        }
    }
}

impl Clone for AttrKey {
    fn clone(&self) -> (key: AttrKey)
        ensures
            key@ == self@,
    {
        match self {
            AttrKey::System(name) => AttrKey::System(name.clone()),
            AttrKey::User(name) => AttrKey::User(name.clone()),
        }
    }
}

impl AttrKey {
    /// Whether two keys are the same.
    pub fn same(&self, other: &AttrKey) -> (yes: bool)
        ensures
            yes == (self@ == other@),
    {
        match (self, other) {
            (AttrKey::System(name), AttrKey::System(other_name)) => *name == *other_name,
            (AttrKey::User(name), AttrKey::User(other_name)) => *name == *other_name,
            _ => false,
        }
    }
}

/// Attributes: one text for each key.
#[derive(Debug)]
pub struct Attrs {
    entries: Vec<(AttrKey, String)>,
}

/// What a list of entries maps each key to: the text of the last entry for it.
pub open spec fn attr_map(entries: Seq<(AttrKey, String)>) -> Map<AttrKeyView, Seq<char>>
    decreases entries.len(),
{
    if entries.len() == 0 {
        Map::empty()
    } else {
        attr_map(entries.drop_last()).insert(entries.last().0@, entries.last().1@)
    }
}

/// Whether no key occurs twice in a list of entries.
pub open spec fn distinct_keys(entries: Seq<(AttrKey, String)>) -> bool {
    forall|i: int, j: int|
        0 <= i < j < entries.len() ==> (#[trigger] entries[i]).0@ != (#[trigger] entries[j]).0@
}

impl View for Attrs {
    type V = Map<AttrKeyView, Seq<char>>;

    closed spec fn view(&self) -> Map<AttrKeyView, Seq<char>> {
        attr_map(self.entries@)
    }
}

proof fn lemma_attr_absent(entries: Seq<(AttrKey, String)>, key: AttrKeyView)
    requires
        forall|k: int| 0 <= k < entries.len() ==> #[trigger] entries[k].0@ != key,
    ensures
        !attr_map(entries).contains_key(key),
    decreases entries.len(),
{
    if entries.len() > 0 {
        assert(entries.last().0@ != key);
        assert forall|k: int| 0 <= k < entries.drop_last().len() implies #[trigger] entries.drop_last()[k].0@ != key by {
            assert(entries[k].0@ != key);
        }
        lemma_attr_absent(entries.drop_last(), key);
    }
}

proof fn lemma_attr_last(entries: Seq<(AttrKey, String)>, at: int, key: AttrKeyView)
    requires
        0 <= at < entries.len(),
        entries[at].0@ == key,
        forall|k: int| at < k < entries.len() ==> #[trigger] entries[k].0@ != key,
    ensures
        attr_map(entries).contains_key(key),
        attr_map(entries)[key] == entries[at].1@,
    decreases entries.len(),
{
    if at < entries.len() - 1 {
        assert(entries.last().0@ != key);
        assert forall|k: int| at < k < entries.drop_last().len() implies #[trigger] entries.drop_last()[k].0@ != key by {
            assert(entries[k].0@ != key);
        }
        lemma_attr_last(entries.drop_last(), at, key);
    }
}

proof fn lemma_attr_replaced(
    entries: Seq<(AttrKey, String)>,
    at: int,
    entry: (AttrKey, String),
)
    requires
        0 <= at < entries.len(),
        entries[at].0@ == entry.0@,
        forall|k: int| at < k < entries.len() ==> #[trigger] entries[k].0@ != entry.0@,
    ensures
        attr_map(entries.update(at, entry)) == attr_map(entries).insert(entry.0@, entry.1@),
    decreases entries.len(),
{
    let updated = entries.update(at, entry);
    let prefix = entries.drop_last();
    if at < entries.len() - 1 {
        assert(entries.last().0@ != entry.0@);
        assert forall|k: int| at < k < prefix.len() implies #[trigger] prefix[k].0@ != entry.0@ by {
            assert(entries[k].0@ != entry.0@);
        }
        lemma_attr_replaced(prefix, at, entry);
        assert(updated.drop_last() == prefix.update(at, entry));
    } else {
        assert(updated.drop_last() == prefix);
    }
}

impl Attrs {
    #[verifier::type_invariant]
    spec fn well_formed(self) -> bool {
        distinct_keys(self.entries@)
    }

    /// No attributes.
    pub fn new() -> (attrs: Attrs)
        ensures
            attrs@ == Map::<AttrKeyView, Seq<char>>::empty(),
    {
        Attrs { entries: Vec::new() }
    }

    /// The entries, in the order in which their keys were first inserted.
    pub fn entries(&self) -> (entries: &Vec<(AttrKey, String)>)
        ensures
            attr_map(entries@) == self@,
            distinct_keys(entries@),
    {
        proof {
            use_type_invariant(self);
        }
        &self.entries
    }

    /// Whether there are no attributes.
    pub fn is_empty(&self) -> (yes: bool)
        ensures
            yes == (self@ == Map::<AttrKeyView, Seq<char>>::empty()),
    {
        proof {
            if self.entries@.len() > 0 {
                assert(self@.contains_key(self.entries@.last().0@));
            }
        }
        self.entries.len() == 0
    }

    /// The position of the last entry for `key`.
    fn position(&self, key: &AttrKey) -> (at: Option<usize>)
        ensures
            at matches Some(i) ==> {
                &&& i < self.entries@.len()
                &&& self.entries@[i as int].0@ == key@
                &&& forall|k: int| i < k < self.entries@.len() ==> #[trigger] self.entries@[k].0@ != key@
            },
            at is None ==> forall|k: int| 0 <= k < self.entries@.len() ==> #[trigger] self.entries@[k].0@ != key@,
    {
        let mut i: usize = self.entries.len();
        while i > 0
            invariant
                i <= self.entries@.len(),
                forall|k: int| i <= k < self.entries@.len() ==> #[trigger] self.entries@[k].0@ != key@,
            decreases i,
        {
            i = i - 1;
            if self.entries[i].0.same(key) {
                return Some(i);
            }
        }
        None
    }

    /// The text for `key`.
    pub fn get(&self, key: &AttrKey) -> (text: Option<&String>)
        ensures
            text is Some <==> self@.contains_key(key@),
            text matches Some(t) ==> t@ == self@[key@],
    {
        match self.position(key) {
            Some(i) => {
                proof {
                    lemma_attr_last(self.entries@, i as int, key@);
                }
                Some(&self.entries[i].1)
            },
            None => {
                proof {
                    lemma_attr_absent(self.entries@, key@);
                }
                None
            },
        }
    }

    /// Sets the text for `key`.
    pub fn insert(&mut self, key: AttrKey, text: String)
        ensures
            final(self)@ == old(self)@.insert(key@, text@),
    {
        proof {
            use_type_invariant(&*self);
        }
        let ghost before = self.entries@;
        let at = self.position(&key);
        let mut entries: Vec<(AttrKey, String)> = Vec::new();
        std::mem::swap(&mut self.entries, &mut entries);
        match at {
            Some(i) => {
                proof {
                    lemma_attr_replaced(before, i as int, (key, text));
                }
                entries.set(i, (key, text));
            },
            None => {
                entries.push((key, text));
                assert(entries@.drop_last() == before);
            },
        }
        self.entries = entries;
    }
}

/// Entries without a key that occurs twice hold what they are the entries of: their key are all
/// there are, each with the value beside it.
pub proof fn law_entries_hold_each_key_with_its_value(entries: Seq<(AttrKey, String)>)
    requires
        distinct_keys(entries),
    ensures
        forall|k: int|
            0 <= k < entries.len() ==> {
                &&& attr_map(entries).contains_key((#[trigger] entries[k]).0@)
                &&& attr_map(entries)[entries[k].0@] == entries[k].1@
            },
        forall|key: AttrKeyView| #[trigger]
            attr_map(entries).contains_key(key) ==> exists|k: int|
                0 <= k < entries.len() && (#[trigger] entries[k]).0@ == key,
{
    assert forall|k: int| 0 <= k < entries.len() implies {
        &&& attr_map(entries).contains_key((#[trigger] entries[k]).0@)
        &&& attr_map(entries)[entries[k].0@] == entries[k].1@
    } by {
        lemma_attr_last(entries, k, entries[k].0@);
    }
    assert forall|key: AttrKeyView| #[trigger] attr_map(entries).contains_key(key) implies exists|
        k: int,
    |
        0 <= k < entries.len() && (#[trigger] entries[k]).0@ == key by {
        if forall|k: int| 0 <= k < entries.len() ==> #[trigger] entries[k].0@ != key {
            lemma_attr_absent(entries, key);
        }
    }
}

/// The value of a key is its name space with the characters of its name.
pub proof fn law_keys_are_names_in_a_name_space(name: String)
    ensures
        AttrKey::System(name)@ == AttrKeyView::System(name@),
        AttrKey::User(name)@ == AttrKeyView::User(name@),
{
}

} // verus!
