//! What is kept by sequence number, in order: messages waiting for their turn,
//! and those an endpoint was timed on.

use std::collections::BTreeMap;

use vstd::prelude::*;

verus! {

/// Whether `key` is the smallest key of `held`.
pub open spec fn is_oldest<V>(held: Map<u64, V>, key: u64) -> bool {
    &&& held.contains_key(key)
    &&& forall|other: u64| #[trigger] held.contains_key(other) ==> key <= other
}

/// The smallest key of `held`, if it has any.
pub open spec fn oldest<V>(held: Map<u64, V>) -> Option<u64> {
    if exists|key: u64| is_oldest(held, key) {
        Some(choose|key: u64| is_oldest(held, key))
    } else {
        None
    }
}

/// A map that has a key has a smallest one.
pub proof fn lemma_oldest_exists<V>(held: Map<u64, V>, key: u64)
    requires
        held.contains_key(key),
    ensures
        oldest(held) is Some,
        is_oldest(held, oldest(held)->Some_0),
        oldest(held)->Some_0 <= key,
    decreases key,
{
    if is_oldest(held, key) {
        let chosen = choose|key: u64| is_oldest(held, key);
        assert(is_oldest(held, chosen));
    } else {
        let smaller = choose|other: u64| #[trigger] held.contains_key(other) && other < key;
        lemma_oldest_exists(held, smaller);
    }
}

/// A map has only one smallest key.
pub proof fn lemma_oldest_unique<V>(held: Map<u64, V>, key: u64)
    requires
        is_oldest(held, key),
    ensures
        oldest(held) == Some(key),
{
    let chosen = choose|other: u64| is_oldest(held, other);
    assert(is_oldest(held, chosen));
}

/// A map from sequence numbers that knows its smallest one.
pub struct Held<V> {
    entries: BTreeMap<u64, V>,
}

impl<V> View for Held<V> {
    type V = Map<u64, V>;

    closed spec fn view(&self) -> Map<u64, V> {
        self.entries@
    }
}

impl<V> Held<V> {
    /// Nothing held.
    pub fn new() -> (out: Self)
        ensures
            out@ == Map::<u64, V>::empty(),
    {
        Self { entries: BTreeMap::new() }
    }

    /// How much is held.
    pub fn len(&self) -> (out: usize)
        ensures
            out == self@.dom().len(),
            self@.dom().finite(),
    {
        broadcast use vstd::std_specs::btree::group_btree_axioms;
        broadcast use vstd::laws_cmp::group_laws_cmp;

        self.entries.len()
    }

    /// Whether something is held under this number.
    pub fn contains(&self, key: u64) -> (out: bool)
        ensures
            out == self@.contains_key(key),
    {
        broadcast use vstd::std_specs::btree::group_btree_axioms;
        broadcast use vstd::laws_cmp::group_laws_cmp;

        self.entries.contains_key(&key)
    }

    /// What is held under this number.
    pub fn get(&self, key: u64) -> (out: Option<&V>)
        ensures
            match out {
                Some(value) => self@.contains_key(key) && self@[key] == *value,
                None => !self@.contains_key(key),
            },
    {
        broadcast use vstd::std_specs::btree::group_btree_axioms;
        broadcast use vstd::laws_cmp::group_laws_cmp;

        self.entries.get(&key)
    }

    /// Hold something under this number, in place of what was.
    pub fn insert(&mut self, key: u64, value: V)
        ensures
            final(self)@ == old(self)@.insert(key, value),
    {
        broadcast use vstd::std_specs::btree::group_btree_axioms;
        broadcast use vstd::laws_cmp::group_laws_cmp;

        self.entries.insert(key, value);
    }

    /// Give out what is held under this number.
    pub fn remove(&mut self, key: u64) -> (out: Option<V>)
        ensures
            final(self)@ == old(self)@.remove(key),
            match out {
                Some(value) => old(self)@.contains_key(key) && old(self)@[key] == value,
                None => !old(self)@.contains_key(key),
            },
    {
        broadcast use vstd::std_specs::btree::group_btree_axioms;
        broadcast use vstd::laws_cmp::group_laws_cmp;

        self.entries.remove(&key)
    }

    /// The smallest number it holds.
    pub fn oldest(&self) -> (out: Option<u64>)
        ensures
            out == oldest(self@),
            out matches Some(key) ==> is_oldest(self@, key),
            out is None ==> self@ == Map::<u64, V>::empty(),
    {
        broadcast use vstd::std_specs::btree::group_btree_axioms;
        broadcast use vstd::laws_cmp::group_laws_cmp;

        let entries = self.entries.iter();
        let ghost all = vstd::std_specs::iter::IteratorSpec::remaining(&entries);
        let ghost keys = all.map_values(|kv: (&u64, &V)| *kv.0);
        assert(vstd::std_specs::btree::increasing_seq(keys));
        for entry in iter: entries
            invariant
                iter.index() == 0,
                iter.seq() == all,
                all.len() == self@.dom().len(),
                keys == all.map_values(|kv: (&u64, &V)| *kv.0),
                vstd::std_specs::btree::increasing_seq(keys),
                forall|k: u64| #[trigger] self@.contains_key(k) ==> all.contains((&k, &self@[k])),
                self@.dom().finite(),
                forall|i: int| 0 <= i < all.len() ==> self@.contains_key(*(#[trigger] all[i]).0),
        {
            let key = *entry.0;
            assert(*all[0].0 == key);
            assert forall|other: u64| #[trigger] self@.contains_key(other) implies key <= other by {
                let i = choose|i: int| 0 <= i < all.len() && all[i] == (&other, &self@[other]);
                assert(vstd::laws_cmp::obeys_cmp::<u64>());
                assert(keys[0] == key && keys[i] == other);
                if i > 0 {
                    assert(vstd::std_specs::cmp::OrdSpec::cmp_spec(&keys[0], &keys[i]) is Less);
                }
            }
            proof {
                lemma_oldest_unique(self@, key);
            }
            return Some(key);
        }
        assert(self@ =~= Map::<u64, V>::empty());
        None
    }
}

/// The oldest is the smallest number that anything is kept under, and there is
/// none exactly when nothing is kept.
pub proof fn oldest_is_the_smallest<V>(held: &Held<V>, out: Option<u64>)
    requires
        call_ensures(Held::<V>::oldest, (held,), out),
    ensures
        out matches Some(key) ==> held@.contains_key(key) && forall|other: u64| #[trigger]
            held@.contains_key(other) ==> key <= other,
        out is None <==> forall|key: u64| !#[trigger] held@.contains_key(key),
{
    if let Some(key) = out {
        assert(held@.contains_key(key));
    }
}

/// What is put in is there until it is taken out, under its own number and no
/// other.
pub proof fn what_is_put_in_is_there<V>(
    held: &mut Held<V>,
    key: u64,
    value: V,
    other: u64,
    taken: Option<V>,
)
    ensures
        call_ensures(Held::<V>::insert, (held, key, value), ()) ==> {
            &&& final(held)@.contains_key(key) && final(held)@[key] == value
            &&& other != key ==> final(held)@.contains_key(other) == old(held)@.contains_key(other)
            &&& other != key && old(held)@.contains_key(other) ==> final(held)@[other]
                == old(held)@[other]
        },
        call_ensures(Held::<V>::remove, (held, key), taken) ==> {
            &&& taken is Some <==> old(held)@.contains_key(key)
            &&& taken matches Some(value) ==> value == old(held)@[key]
            &&& !final(held)@.contains_key(key)
            &&& other != key ==> final(held)@.contains_key(other) == old(held)@.contains_key(other)
            &&& other != key && old(held)@.contains_key(other) ==> final(held)@[other]
                == old(held)@[other]
        },
{
}

/// Looking changes nothing and tells what is there.
pub proof fn looking_tells_what_is_there<V>(
    held: &Held<V>,
    key: u64,
    there: bool,
    found: Option<&V>,
    len: usize,
    fresh: Held<V>,
)
    requires
        call_ensures(Held::<V>::contains, (held, key), there),
        call_ensures(Held::<V>::get, (held, key), found),
        call_ensures(Held::<V>::len, (held,), len),
        call_ensures(Held::<V>::new, (), fresh),
    ensures
        there <==> held@.contains_key(key),
        found is Some <==> there,
        found matches Some(value) ==> *value == held@[key],
        len == held@.dom().len(),
        !fresh@.contains_key(key),
{
}

} // verus!
