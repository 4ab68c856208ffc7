//! A map from names to values that keeps the order in which the names came in.
use vstd::hash_map::StringHashMap;
use vstd::prelude::*;

verus! {

/// The names of the entries.
pub open spec fn keys<T>(entries: Seq<(Seq<char>, T)>) -> Seq<Seq<char>> {
    entries.map_values(|entry: (Seq<char>, T)| entry.0)
}

/// The value that belongs to a name.
pub open spec fn lookup<T>(entries: Seq<(Seq<char>, T)>, name: Seq<char>) -> Option<T> {
    if keys(entries).contains(name) {
        Some(entries[keys(entries).index_of(name)].1)
    } else {
        None
    }
}

/// The entries after a name got a value: in place of its old one, or else as a new last entry.
pub open spec fn put<T>(entries: Seq<(Seq<char>, T)>, name: Seq<char>, value: T) -> Seq<
    (Seq<char>, T),
> {
    if keys(entries).contains(name) {
        entries.update(keys(entries).index_of(name), (name, value))
    } else {
        entries.push((name, value))
    }
}

/// Setting a value keeps the names distinct, keeps the names in place, and adds at most the one
/// name.
pub proof fn lemma_put<T>(entries: Seq<(Seq<char>, T)>, name: Seq<char>, value: T)
    requires
        keys(entries).no_duplicates(),
    ensures
        keys(put(entries, name, value)).no_duplicates(),
        keys(put(entries, name, value)) == (if keys(entries).contains(name) {
            keys(entries)
        } else {
            keys(entries).push(name)
        }),
{
}

/// After a name got a value, a look-up of the name gives that value, and any other name still
/// gives what it gave.
pub proof fn law_lookup_after_put<T>(
    entries: Seq<(Seq<char>, T)>,
    name: Seq<char>,
    value: T,
    other: Seq<char>,
)
    requires
        keys(entries).no_duplicates(),
    ensures
        lookup(put(entries, name, value), other) == (if other == name {
            Some(value)
        } else {
            lookup(entries, other)
        }),
{
    let names = keys(entries);
    lemma_put(entries, name, value);
    if !names.contains(name) {
        assert(names.push(name)[names.len() as int] == name);
        if names.contains(other) {
            let k = names.index_of(other);
            assert(names.push(name)[k] == other);
        }
    }
}

/// The entries, with an index of where each name stands.
struct Entries<V> {
    names: Vec<String>,
    values: Vec<V>,
    positions: StringHashMap<usize>,
}

impl<V> Entries<V> {
    /// The index leads to every entry and to nothing else.
    spec fn wf(self) -> bool {
        &&& self.names@.len() == self.values@.len()
        &&& forall|i: int|
            0 <= i < self.names@.len() ==> self.positions@.contains_key(
                (#[trigger] self.names@[i])@,
            ) && self.positions@[self.names@[i]@] == i
        &&& forall|name: Seq<char>| #[trigger]
            self.positions@.contains_key(name) ==> self.positions@[name] < self.names@.len()
                && self.names@[self.positions@[name] as int]@ == name
    }

    fn new() -> (entries: Self)
        ensures
            entries.wf(),
            entries.names@.len() == 0,
    {
        Entries { names: Vec::new(), values: Vec::new(), positions: StringHashMap::new() }
    }
}

impl<V: DeepView> Entries<V> {
    spec fn pairs(self) -> Seq<(Seq<char>, V::V)> {
        Seq::new(
            self.names@.len(),
            |i: int| (self.names@[i]@, self.values@[i].deep_view()),
        )
    }

    proof fn lemma_index(self, name: Seq<char>)
        requires
            self.wf(),
        ensures
            keys(self.pairs()).no_duplicates(),
            self.positions@.contains_key(name) <==> keys(self.pairs()).contains(name),
            self.positions@.contains_key(name) ==> keys(self.pairs()).index_of(name)
                == self.positions@[name],
    {
        let names = keys(self.pairs());
        if self.positions@.contains_key(name) {
            let k = self.positions@[name] as int;
            assert(names[k] == name);
        }
    }

    fn insert(&mut self, name: String, value: V)
        requires
            old(self).wf(),
        ensures
            final(self).wf(),
            final(self).pairs() == put(old(self).pairs(), name@, value.deep_view()),
    {
        proof {
            self.lemma_index(name@);
        }
        let found: Option<usize> = match self.positions.get(name.as_str()) {
            Some(position) => Some(*position),
            None => None,
        };
        match found {
            Some(position) => {
                self.values.set(position, value);
            },
            None => {
                let position: usize = self.names.len();
                let key: String = name.clone();
                self.names.push(name);
                self.values.push(value);
                self.positions.insert(key, position);
            },
        }
    }
}

/// A map from names to values. Its view is the sequence of its entries, in the order in which
/// the names came in; no two entries have the same name.
pub struct NameMap<V> {
    entries: Entries<V>,
}

impl<V: DeepView> View for NameMap<V> {
    type V = Seq<(Seq<char>, V::V)>;

    closed spec fn view(&self) -> Seq<(Seq<char>, V::V)> {
        self.entries.pairs()
    }
}

impl<V> NameMap<V> {
    #[verifier::type_invariant]
    spec fn inv(self) -> bool {
        self.entries.wf()
    }
}

impl<V: DeepView> NameMap<V> {
    /// A map without entries.
    pub fn new() -> (map: Self)
        ensures
            map@ == Seq::<(Seq<char>, V::V)>::empty(),
    {
        let map = NameMap { entries: Entries::new() };
        map
    }

    /// The number of entries. No two of them have the same name.
    pub fn len(&self) -> (len: usize)
        ensures
            len == self@.len(),
            keys(self@).no_duplicates(),
    {
        proof {
            use_type_invariant(self);
            self.entries.lemma_index(Seq::empty());
        }
        self.entries.names.len()
    }

    /// Gives a name a value, in place of the value that it had.
    pub fn insert(&mut self, name: String, value: V)
        ensures
            final(self)@ == put(old(self)@, name@, value.deep_view()),
    {
        proof {
            use_type_invariant(&*self);
        }
        let mut entries: Entries<V> = Entries::new();
        std::mem::swap(&mut self.entries, &mut entries);
        entries.insert(name, value);
        self.entries = entries;
    }

    /// The value that belongs to a name.
    pub fn get(&self, name: &str) -> (value: Option<&V>)
        ensures
            match value {
                Some(v) => lookup(self@, name@) == Some(v.deep_view()),
                None => lookup(self@, name@) is None,
            },
    {
        proof {
            use_type_invariant(self);
            self.entries.lemma_index(name@);
        }
        match self.entries.positions.get(name) {
            Some(position) => Some(&self.entries.values[*position]),
            None => None,
        }
    }

    /// Whether the name has a value.
    pub fn contains(&self, name: &str) -> (found: bool)
        ensures
            found == keys(self@).contains(name@),
    {
        proof {
            use_type_invariant(self);
            self.entries.lemma_index(name@);
        }
        self.entries.positions.contains_key(name)
    }

    /// The name of the entry at a position.
    pub fn name_at(&self, position: usize) -> (name: &String)
        requires
            position < self@.len(),
        ensures
            name@ == self@[position as int].0,
    {
        &self.entries.names[position]
    }

    /// The value of the entry at a position.
    pub fn value_at(&self, position: usize) -> (value: &V)
        requires
            position < self@.len(),
        ensures
            value.deep_view() == self@[position as int].1,
    {
        proof {
            use_type_invariant(self);
        }
        &self.entries.values[position]
    }
}

/// A look-up finds the value of each entry under its name, and nothing under any other name.
pub proof fn law_lookup_finds_entries<T>(entries: Seq<(Seq<char>, T)>, name: Seq<char>)
    requires
        keys(entries).no_duplicates(),
    ensures
        keys(entries).len() == entries.len(),
        forall|i: int| 0 <= i < entries.len() ==> #[trigger] keys(entries)[i] == entries[i].0,
        forall|i: int|
            0 <= i < entries.len() ==> lookup(entries, (#[trigger] entries[i]).0) == Some(
                entries[i].1,
            ),
        lookup(entries, name) is None <==> forall|i: int|
            0 <= i < entries.len() ==> (#[trigger] entries[i]).0 != name,
{
    let names = keys(entries);
    assert forall|i: int| 0 <= i < entries.len() implies lookup(
        entries,
        (#[trigger] entries[i]).0,
    ) == Some(entries[i].1) by {
        assert(names[i] == entries[i].0);
    }
    if lookup(entries, name) is None {
        assert forall|i: int| 0 <= i < entries.len() implies (#[trigger] entries[i]).0 != name by {
            assert(names[i] == entries[i].0);
        }
    } else {
        let k = names.index_of(name);
        assert(entries[k].0 == name);
    }
}

} // verus!
