//! Maps from names that keep the order in which names were entered.
use std::collections::hash_map::RandomState;
use indexmap::IndexMap;
use vstd::prelude::*;
use crate::lists::{empty, push, unique_keys};

verus! {

/// `indexmap::IndexMap`: a hash map that keeps its entries in the order in which
/// their keys were entered.
#[verifier::external_type_specification]
#[verifier::external_body]
#[verifier::reject_recursive_types(K)]
#[verifier::reject_recursive_types(V)]
#[verifier::reject_recursive_types(S)]
pub struct ExIndexMap<K, V, S>(IndexMap<K, V, S>);

/// The entries that an `IndexMap` holds, in order.
pub uninterp spec fn slots(map: IndexMap<String, usize, RandomState>) -> Seq<(Seq<char>, usize)>;

/// `IndexMap::new`: a map without entries.
#[verifier::external_body]
fn new_slots() -> (map: IndexMap<String, usize, RandomState>)
    ensures
        slots(map) == Seq::<(Seq<char>, usize)>::empty(),
{
    IndexMap::new()
}

/// `IndexMap::get`: the value under a key, if there is an entry with the key.
#[verifier::external_body]
fn get_slot(map: &IndexMap<String, usize, RandomState>, key: &str) -> (value: Option<usize>)
    ensures
        match value {
            Some(value) => slots(*map).contains((key@, value)),
            None => forall|i: int| 0 <= i < slots(*map).len() ==> (#[trigger] slots(*map)[i]).0 != key@,
        },
{
    map.get(key).copied()
}

/// `IndexMap::insert`: where there is no entry with the key, a new one is entered
/// behind the others; else the entry keeps its place and gets the value.
#[verifier::external_body]
fn insert_slot(map: &mut IndexMap<String, usize, RandomState>, key: String, value: usize)
    ensures
        (forall|i: int| 0 <= i < slots(*old(map)).len() ==> (#[trigger] slots(*old(map))[i]).0 != key@)
            ==> slots(*final(map)) == slots(*old(map)).push((key@, value)),
        forall|i: int|
            0 <= i < slots(*old(map)).len() && (#[trigger] slots(*old(map))[i]).0 == key@
                ==> slots(*final(map)) == slots(*old(map)).update(i, (key@, value)),
{
    map.insert(key, value);
}

/// `IndexMap::get_index`: the key of the entry at a place.
#[verifier::external_body]
fn slot_key(map: &IndexMap<String, usize, RandomState>, index: usize) -> (key: Option<&String>)
    ensures
        match key {
            Some(key) => index < slots(*map).len() && key@ == slots(*map)[index as int].0,
            None => index >= slots(*map).len(),
        },
{
    map.get_index(index).map(|entry| entry.0)
}

/// Values under names, in the order in which the names were entered.
#[derive(Debug)]
pub struct Ordered<V> {
    pub index: IndexMap<String, usize, RandomState>,
    pub items: Vec<V>,
}

impl<V: DeepView> DeepView for Ordered<V> {
    type V = Seq<(Seq<char>, <V as DeepView>::V)>;

    /// The entries, in order.
    open spec fn deep_view(&self) -> Seq<(Seq<char>, <V as DeepView>::V)> {
        Seq::new(
            self.items@.len(),
            |i: int| (slots(self.index)[i].0, self.items@[i].deep_view()),
        )
    }
}

/// The place of a name among entries.
pub open spec fn place_of<M>(entries: Seq<(Seq<char>, M)>, name: Seq<char>) -> Option<int> {
    if exists|i: int| 0 <= i < entries.len() && (#[trigger] entries[i]).0 == name {
        Some(choose|i: int| 0 <= i < entries.len() && (#[trigger] entries[i]).0 == name)
    } else {
        None
    }
}

/// The value under a name.
pub open spec fn value_of<M>(entries: Seq<(Seq<char>, M)>, name: Seq<char>) -> Option<M> {
    match place_of(entries, name) {
        Some(i) => Some(entries[i].1),
        None => None,
    }
}

/// The entries with a value under a name: in its place where the name has one,
/// else behind the others.
pub open spec fn entered<M>(entries: Seq<(Seq<char>, M)>, name: Seq<char>, value: M) -> Seq<
    (Seq<char>, M),
> {
    match place_of(entries, name) {
        Some(i) => entries.update(i, (name, value)),
        None => entries.push((name, value)),
    }
}

pub proof fn lemma_place_of<M>(entries: Seq<(Seq<char>, M)>, name: Seq<char>, i: int)
    requires
        unique_keys(entries),
        0 <= i < entries.len(),
        entries[i].0 == name,
    ensures
        place_of(entries, name) == Some(i),
{
    let k = place_of(entries, name)->0;
    assert(0 <= k < entries.len() && entries[k].0 == name);
    if k < i {
        assert(entries[k].0 != entries[i].0);
    } else if i < k {
        assert(entries[i].0 != entries[k].0);
    }
}

/// Entering a value keeps names apart, and changes what is found under its name
/// alone.
pub proof fn law_entered_value_is_found<M>(
    entries: Seq<(Seq<char>, M)>,
    name: Seq<char>,
    value: M,
    wanted: Seq<char>,
)
    requires
        unique_keys(entries),
    ensures
        unique_keys(entered(entries, name, value)),
        value_of(entered(entries, name, value), wanted) == if wanted == name {
            Some(value)
        } else {
            value_of(entries, wanted)
        },
{
    let after = entered(entries, name, value);
    let place = place_of(entries, name);
    if place is Some {
        let i = place->0;
        assert(0 <= i < entries.len() && entries[i].0 == name);
    }
    assert forall|i: int, j: int| 0 <= i < j < after.len() implies (#[trigger] after[i]).0
        != (#[trigger] after[j]).0 by {
        assert(i < entries.len() && after[i].0 == entries[i].0);
        if j < entries.len() {
            assert(after[j].0 == entries[j].0);
        }
    }
    if exists|i: int| 0 <= i < after.len() && (#[trigger] after[i]).0 == wanted {
        let i = choose|i: int| 0 <= i < after.len() && (#[trigger] after[i]).0 == wanted;
        lemma_place_of(after, wanted, i);
        if i < entries.len() {
            assert(entries[i].0 == wanted);
            lemma_place_of(entries, wanted, i);
        }
    } else if exists|i: int| 0 <= i < entries.len() && (#[trigger] entries[i]).0 == wanted {
        let i = choose|i: int| 0 <= i < entries.len() && (#[trigger] entries[i]).0 == wanted;
        assert(after[i].0 == wanted);
    } else if wanted == name {
        assert(after[entries.len() as int].0 == wanted);
    }
}

impl<V: DeepView> Ordered<V> {
    /// Whether every name leads to its value, and no name was entered twice.
    pub open spec fn wf(&self) -> bool {
        &&& slots(self.index).len() == self.items@.len()
        &&& forall|i: int|
            0 <= i < self.items@.len() ==> (#[trigger] slots(self.index)[i]).1 == i
        &&& unique_keys(slots(self.index))
    }

    pub proof fn lemma_unique(&self)
        requires
            self.wf(),
        ensures
            unique_keys(self.deep_view()),
    {
        let entries = self.deep_view();
        assert forall|i: int, j: int| 0 <= i < j < entries.len() implies (#[trigger] entries[i]).0
            != (#[trigger] entries[j]).0 by {
            assert(slots(self.index)[i].0 != slots(self.index)[j].0);
        }
    }

    pub fn new() -> (map: Self)
        ensures
            map.wf(),
            map.deep_view() == Seq::<(Seq<char>, <V as DeepView>::V)>::empty(),
    {
        let map = Ordered { index: new_slots(), items: empty() };
        assert(map.deep_view() =~= Seq::empty());
        map
    }

    pub fn len(&self) -> (len: usize)
        ensures
            len == self.deep_view().len(),
    {
        self.items.len()
    }

    /// The place of a name.
    fn place(&self, name: &str) -> (place: Option<usize>)
        requires
            self.wf(),
        ensures
            match place {
                Some(i) => place_of(self.deep_view(), name@) == Some(i as int) && i
                    < self.items@.len(),
                None => place_of(self.deep_view(), name@) is None,
            },
    {
        let ghost entries = self.deep_view();
        let place = get_slot(&self.index, name);
        proof {
            self.lemma_unique();
            match place {
                Some(i) => {
                    let k = choose|k: int|
                        0 <= k < slots(self.index).len() && slots(self.index)[k] == (name@, i);
                    assert(slots(self.index).contains((name@, i)));
                    assert(slots(self.index)[k].1 == k);
                    assert(entries[k].0 == name@);
                    lemma_place_of(entries, name@, k);
                },
                None => {
                    assert forall|k: int| 0 <= k < entries.len() implies (#[trigger] entries[k]).0
                        != name@ by {
                        assert(slots(self.index)[k].0 != name@);
                    }
                },
            }
        }
        place
    }

    /// The value under a name.
    pub fn get(&self, name: &str) -> (value: Option<&V>)
        requires
            self.wf(),
        ensures
            value.deep_view() == value_of(self.deep_view(), name@),
    {
        match self.place(name) {
            Some(i) => Some(&self.items[i]),
            None => None,
        }
    }

    /// The name at a place.
    pub fn name_at(&self, i: usize) -> (name: &String)
        requires
            self.wf(),
            i < self.deep_view().len(),
        ensures
            name@ == self.deep_view()[i as int].0,
    {
        match slot_key(&self.index, i) {
            Some(name) => name,
            None => vstd::pervasive::unreached(),
        }
    }

    /// The value at a place.
    pub fn value_at(&self, i: usize) -> (value: &V)
        requires
            i < self.deep_view().len(),
        ensures
            value.deep_view() == self.deep_view()[i as int].1,
    {
        &self.items[i]
    }

    /// Enters a value under a name.
    pub fn insert(&mut self, name: String, value: V)
        requires
            old(self).wf(),
        ensures
            final(self).wf(),
            final(self).deep_view() == entered(
                old(self).deep_view(),
                name@,
                value.deep_view(),
            ),
    {
        let ghost before = self.deep_view();
        let ghost before_slots = slots(self.index);
        let ghost key = name@;
        let ghost model = value.deep_view();
        match self.place(name.as_str()) {
            Some(i) => {
                self.items.set(i, value);
                assert(self.deep_view() =~= before.update(i as int, (key, model))) by {
                    assert(before[i as int].0 == key);
                }
            },
            None => {
                let len: usize = self.items.len();
                proof {
                    assert forall|k: int| 0 <= k < before_slots.len() implies (
                    #[trigger] before_slots[k]).0 != key by {
                        assert(before[k].0 != key);
                    }
                }
                insert_slot(&mut self.index, name, len);
                self.items.push(value);
                assert(slots(self.index) == before_slots.push((key, len)));
                assert(self.deep_view() =~= before.push((key, model)));
            },
        }
    }
}

/// A name that is entered again keeps its place and takes the new value, and a new one
/// goes behind the others; every other name stays where it is, with its value.
pub proof fn law_entered_names_keep_their_places<M>(
    entries: Seq<(Seq<char>, M)>,
    name: Seq<char>,
    value: M,
    i: int,
)
    requires
        unique_keys(entries),
        0 <= i < entries.len(),
    ensures
        entered(entries, name, value)[i].0 == entries[i].0,
        entries[i].0 == name ==> entered(entries, name, value)[i].1 == value && entered(
            entries,
            name,
            value,
        ).len() == entries.len(),
        entries[i].0 != name ==> entered(entries, name, value)[i].1 == entries[i].1,
        value_of(entries, name) is None ==> entered(entries, name, value) == entries.push(
            (name, value),
        ),
{
    if let Some(at) = place_of(entries, name) {
        assert(0 <= at < entries.len() && entries[at].0 == name);
        if entries[i].0 == name && i != at {
            if i < at {
                assert(entries[i].0 != entries[at].0);
            } else {
                assert(entries[at].0 != entries[i].0);
            }
        }
    }
}

} // verus!
