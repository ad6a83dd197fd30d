//! Sequences of values that carry a mathematical model.
use vstd::prelude::*;

verus! {

/// Appends `item`, both to the vector and to its model.
pub fn push<T: DeepView>(list: &mut Vec<T>, item: T)
    ensures
        final(list)@ == old(list)@.push(item),
        final(list).deep_view() == old(list).deep_view().push(item.deep_view()),
{
    list.push(item);
    assert(list.deep_view() =~= old(list).deep_view().push(item.deep_view()));
}

/// Moves all of `more` behind `list`.
pub fn extend<T: DeepView>(list: &mut Vec<T>, more: Vec<T>)
    ensures
        final(list)@ == old(list)@ + more@,
        final(list).deep_view() == old(list).deep_view() + more.deep_view(),
{
    let mut more = more;
    let ghost added = more;
    list.append(&mut more);
    assert(list.deep_view() =~= old(list).deep_view() + added.deep_view());
}

/// Takes the first item off a vector.
pub fn take_first<T: DeepView>(list: &mut Vec<T>) -> (item: T)
    requires
        old(list)@.len() > 0,
    ensures
        item.deep_view() == old(list).deep_view()[0],
        final(list)@.len() == old(list)@.len() - 1,
        final(list).deep_view() == old(list).deep_view().skip(1),
{
    let ghost before = list@;
    let item = list.remove(0);
    assert forall|k: int| 0 <= k < list@.len() implies list@[k] == before[k + 1] by {}
    assert(list.deep_view() =~= old(list).deep_view().skip(1));
    item
}

/// An empty vector has an empty model.
pub fn empty<T: DeepView>() -> (list: Vec<T>)
    ensures
        list@ == Seq::<T>::empty(),
        list.deep_view() == Seq::<T::V>::empty(),
{
    let list = Vec::new();
    assert(list.deep_view() =~= Seq::<T::V>::empty());
    list
}

/// A copy of every item.
pub fn clone_list<T: Clone + DeepView>(list: &Vec<T>) -> (copy: Vec<T>)
    requires
        forall|a: T, b: T| #[trigger] cloned::<T>(a, b) ==> b.deep_view() == a.deep_view(),
    ensures
        copy.deep_view() == list.deep_view(),
{
    let copy = list.clone();
    assert(copy.deep_view() =~= list.deep_view());
    copy
}

/// A value that can be compared with another by what it models.
pub trait Same: DeepView {
    fn same(&self, other: &Self) -> (same: bool)
        ensures
            same == (self.deep_view() == other.deep_view()),
    ;
}

impl Same for String {
    fn same(&self, other: &String) -> (same: bool) {
        *self == *other
    }
}

/// Whether two lists hold the same items in the same order.
pub fn same_list<T: Same>(a: &Vec<T>, b: &Vec<T>) -> (same: bool)
    ensures
        same == (a.deep_view() == b.deep_view()),
{
    if a.len() != b.len() {
        assert(a.deep_view().len() != b.deep_view().len());
        return false;
    }
    let mut i: usize = 0;
    while i < a.len()
        invariant
            i <= a.len(),
            a.len() == b.len(),
            forall|k: int| 0 <= k < i ==> a.deep_view()[k] == b.deep_view()[k],
        decreases a.len() - i,
    {
        if !a[i].same(&b[i]) {
            assert(a.deep_view()[i as int] != b.deep_view()[i as int]);
            return false;
        }
        assert(a.deep_view()[i as int] == b.deep_view()[i as int]);
        i += 1;
    }
    assert(a.deep_view() =~= b.deep_view());
    true
}

/// Whether a list holds an item that models the same as `item`.
pub fn contains_same<T: Same>(list: &Vec<T>, item: &T) -> (found: bool)
    ensures
        found == list.deep_view().contains(item.deep_view()),
{
    let mut i: usize = 0;
    while i < list.len()
        invariant
            i <= list.len(),
            forall|k: int| 0 <= k < i ==> list.deep_view()[k] != item.deep_view(),
        decreases list.len() - i,
    {
        if list[i].same(item) {
            assert(list.deep_view()[i as int] == item.deep_view());
            return true;
        }
        i += 1;
    }
    false
}

/// The value under a key; where the key was entered more than once, the last one.
pub open spec fn lookup<K, V>(entries: Seq<(K, V)>, key: K) -> Option<V>
    decreases entries.len(),
{
    if entries.len() == 0 {
        None
    } else if entries.last().0 == key {
        Some(entries.last().1)
    } else {
        lookup(entries.drop_last(), key)
    }
}

pub proof fn lemma_lookup_push<K, V>(entries: Seq<(K, V)>, key: K, value: V)
    ensures
        forall|k: K|
            #[trigger] lookup(entries.push((key, value)), k) == if k == key {
                Some(value)
            } else {
                lookup(entries, k)
            },
{
    broadcast use lemma_push_drop;

    assert(entries.push((key, value)).drop_last() == entries);
}

/// Finds the value under a key.
pub fn find<'a, K: Same, V: DeepView>(entries: &'a Vec<(K, V)>, key: &K) -> (value: Option<&'a V>)
    ensures
        value.deep_view() == lookup(entries.deep_view(), key.deep_view()),
{
    broadcast use group_take;

    let mut i: usize = entries.len();
    assert(entries.deep_view().take(i as int) =~= entries.deep_view());
    while i > 0
        invariant
            i <= entries.len(),
            lookup(entries.deep_view(), key.deep_view()) == lookup(
                entries.deep_view().take(i as int),
                key.deep_view(),
            ),
        decreases i,
    {
        i -= 1;
        let ghost front = entries.deep_view().take(i + 1);
        assert(front.drop_last() == entries.deep_view().take(i as int));
        assert(front.last() == entries.deep_view()[i as int]);
        if entries[i].0.same(key) {
            return Some(&entries[i].1);
        }
    }
    None
}

/// What entries come to as a map; a later entry takes the place of an earlier one.
pub open spec fn entries_map<K, V>(entries: Seq<(K, V)>) -> Map<K, V>
    decreases entries.len(),
{
    if entries.len() == 0 {
        Map::empty()
    } else {
        entries_map(entries.drop_last()).insert(entries.last().0, entries.last().1)
    }
}

pub proof fn lemma_entries_add<K, V>(a: Seq<(K, V)>, b: Seq<(K, V)>)
    ensures
        entries_map(a + b) == entries_map(a).union_prefer_right(entries_map(b)),
    decreases b.len(),
{
    if b.len() == 0 {
        assert(a + b =~= a);
        assert(entries_map(a).union_prefer_right(Map::empty()) =~= entries_map(a));
    } else {
        lemma_entries_add(a, b.drop_last());
        assert((a + b).drop_last() =~= a + b.drop_last());
        assert(entries_map(a + b) =~= entries_map(a).union_prefer_right(entries_map(b)));
    }
}

pub proof fn lemma_entries_lookup<K, V>(entries: Seq<(K, V)>, key: K)
    ensures
        lookup(entries, key) == if entries_map(entries).contains_key(key) {
            Some(entries_map(entries)[key])
        } else {
            None
        },
    decreases entries.len(),
{
    if entries.len() > 0 {
        lemma_entries_lookup(entries.drop_last(), key);
    }
}

/// Each key of the map stands in an entry.
pub proof fn lemma_entries_key<K, V>(entries: Seq<(K, V)>, key: K)
    ensures
        entries_map(entries).contains_key(key) ==> exists|i: int|
            0 <= i < entries.len() && (#[trigger] entries[i]).0 == key,
    decreases entries.len(),
{
    if entries.len() > 0 {
        let front = entries.drop_last();
        lemma_entries_key(front, key);
        if entries.last().0 == key {
            assert(entries[entries.len() - 1].0 == key);
        } else if entries_map(front).contains_key(key) {
            let i = choose|i: int| 0 <= i < front.len() && (#[trigger] front[i]).0 == key;
            assert(entries[i].0 == key);
        }
    }
}

pub proof fn lemma_entries_finite<K, V>(entries: Seq<(K, V)>)
    ensures
        entries_map(entries).dom().finite(),
    decreases entries.len(),
{
    if entries.len() > 0 {
        lemma_entries_finite(entries.drop_last());
        let front = entries_map(entries.drop_last());
        assert(entries_map(entries).dom() =~= front.dom().insert(entries.last().0));
    }
}

/// Whether no key stands in two entries.
pub open spec fn unique_keys<K, V>(entries: Seq<(K, V)>) -> bool {
    forall|i: int, j: int|
        0 <= i < j < entries.len() ==> (#[trigger] entries[i]).0 != (#[trigger] entries[j]).0
}

/// The map of entries with unique keys.
pub proof fn lemma_unique_entries<K, V>(entries: Seq<(K, V)>)
    requires
        unique_keys(entries),
    ensures
        forall|i: int|
            0 <= i < entries.len() ==> entries_map(entries).contains_key(
                (#[trigger] entries[i]).0,
            ) && entries_map(entries)[entries[i].0] == entries[i].1,
        forall|k: K| #[trigger]
            entries_map(entries).contains_key(k) ==> exists|i: int|
                0 <= i < entries.len() && (#[trigger] entries[i]).0 == k,
    decreases entries.len(),
{
    if entries.len() > 0 {
        let front = entries.drop_last();
        lemma_unique_entries(front);
        let all = entries_map(entries);
        assert forall|i: int| 0 <= i < entries.len() implies all.contains_key(
            (#[trigger] entries[i]).0,
        ) && all[entries[i].0] == entries[i].1 by {
            if i < front.len() {
                assert(front[i] == entries[i]);
                assert(entries[i].0 != entries[entries.len() - 1].0);
            }
        }
        assert forall|k: K| #[trigger] all.contains_key(k) implies exists|i: int|
            0 <= i < entries.len() && (#[trigger] entries[i]).0 == k by {
            if k == entries.last().0 {
                assert(entries[entries.len() - 1].0 == k);
            } else {
                assert(entries_map(front).contains_key(k));
                let i = choose|i: int| 0 <= i < front.len() && (#[trigger] front[i]).0 == k;
                assert(entries[i].0 == k);
            }
        }
    }
}

/// Enters a value under a key; an entry with the key gives way.
pub fn put<K: Same, V: DeepView>(entries: &mut Vec<(K, V)>, key: K, value: V)
    requires
        unique_keys(old(entries).deep_view()),
    ensures
        unique_keys(final(entries).deep_view()),
        entries_map(final(entries).deep_view()) == entries_map(old(entries).deep_view()).insert(
            key.deep_view(),
            value.deep_view(),
        ),
{
    let ghost before = entries.deep_view();
    let ghost k = key.deep_view();
    let ghost v = value.deep_view();
    let mut i: usize = 0;
    while i < entries.len()
        invariant
            i <= entries.len(),
            before == entries.deep_view(),
            entries.deep_view() == old(entries).deep_view(),
            k == key.deep_view(),
            v == value.deep_view(),
            unique_keys(before),
            forall|j: int| 0 <= j < i ==> (#[trigger] before[j]).0 != k,
        decreases entries.len() - i,
    {
        assert(before[i as int] == entries@[i as int].deep_view());
        if entries[i].0.same(&key) {
            entries.set(i, (key, value));
            proof {
                let after = entries.deep_view();
                assert(after =~= before.update(i as int, (k, v)));
                lemma_unique_entries(before);
                assert forall|a: int, b: int| 0 <= a < b < after.len() implies (
                #[trigger] after[a]).0 != (#[trigger] after[b]).0 by {
                    assert(after[a].0 == before[a].0 && after[b].0 == before[b].0);
                }
                lemma_unique_entries(after);
                let m = entries_map(before).insert(k, v);
                assert forall|x: K::V| entries_map(after).contains_key(x) == m.contains_key(x) by {
                    if entries_map(after).contains_key(x) {
                        let a = choose|a: int| 0 <= a < after.len() && (#[trigger] after[a]).0 == x;
                        assert(before[a].0 == x);
                    }
                    if m.contains_key(x) && x != k {
                        let a = choose|a: int|
                            0 <= a < before.len() && (#[trigger] before[a]).0 == x;
                        assert(after[a].0 == x);
                    }
                    assert(after[i as int].0 == k);
                }
                assert forall|x: K::V| #[trigger] entries_map(after).contains_key(
                    x,
                ) implies entries_map(after)[x] == m[x] by {
                    let a = choose|a: int| 0 <= a < after.len() && (#[trigger] after[a]).0 == x;
                    assert(before[a].0 == x);
                    if a != i {
                        assert(after[a] == before[a]);
                        assert(x != k) by {
                            if a < i {
                            } else {
                                assert(before[i as int].0 != before[a].0);
                            }
                        }
                    }
                }
                assert(entries_map(after) =~= m);
            }
            return;
        }
        i += 1;
    }
    broadcast use lemma_push_drop;

    push(entries, (key, value));
}

/// The first `n + 1` items are the first `n` items and the one after them.
pub broadcast proof fn lemma_take_step<A>(s: Seq<A>, n: int)
    requires
        0 <= n < s.len(),
    ensures
        #[trigger] s.take(n + 1) == s.take(n).push(s[n]),
        s.take(n + 1).drop_last() == s.take(n),
        s.take(n + 1).last() == s[n],
{
    assert(s.take(n + 1) =~= s.take(n).push(s[n]));
    assert(s.take(n + 1).drop_last() =~= s.take(n));
}

pub broadcast proof fn lemma_take_all<A>(s: Seq<A>, n: int)
    requires
        n == s.len(),
    ensures
        #[trigger] s.take(n) == s,
{
    assert(s.take(n) =~= s);
}

pub broadcast proof fn lemma_take_none<A>(s: Seq<A>)
    ensures
        #[trigger] s.take(0) == Seq::<A>::empty(),
{
    assert(s.take(0) =~= Seq::<A>::empty());
}

pub broadcast proof fn lemma_push_drop<A>(s: Seq<A>, a: A)
    ensures
        (#[trigger] s.push(a)).drop_last() == s,
        s.push(a).last() == a,
{
    assert(s.push(a).drop_last() =~= s);
}

pub broadcast group group_take {
    lemma_take_step,
    lemma_take_all,
    lemma_take_none,
}

} // verus!
