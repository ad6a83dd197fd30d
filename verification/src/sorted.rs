//! Ascending lists of indices, taken from hash maps and hash sets.
use std::collections::{HashMap, HashSet};
use vstd::prelude::*;
use vstd::std_specs::iter::IteratorSpec;
use crate::text::{join, join_text, nat_text, usize_to_text};

verus! {

broadcast use vstd::std_specs::hash::group_hash_axioms;

/// Whether the items go strictly upwards.
pub open spec fn ascending(items: Seq<usize>) -> bool {
    forall|i: int, j: int| 0 <= i < j < items.len() ==> items[i] < items[j]
}

/// Two ascending lists with the same items are the same list.
pub proof fn lemma_ascending_unique(a: Seq<usize>, b: Seq<usize>)
    requires
        ascending(a),
        ascending(b),
        forall|x: usize| a.contains(x) <==> b.contains(x),
    ensures
        a == b,
    decreases a.len(),
{
    if a.len() == 0 {
        if b.len() > 0 {
            assert(b.contains(b[0]));
            assert(a.contains(b[0]));
        }
        assert(a =~= b);
    } else {
        assert(a.contains(a.last()));
        assert(b.len() > 0);
        assert(b.contains(b.last()));
        let i = choose|i: int| 0 <= i < a.len() && a[i] == b.last();
        let j = choose|j: int| 0 <= j < b.len() && b[j] == a.last();
        assert(a.last() == b.last());
        let fa = a.drop_last();
        let fb = b.drop_last();
        assert forall|x: usize| fa.contains(x) <==> fb.contains(x) by {
            if fa.contains(x) {
                let k = choose|k: int| 0 <= k < fa.len() && fa[k] == x;
                assert(a[k] == x);
                assert(b.contains(x));
                let m = choose|m: int| 0 <= m < b.len() && b[m] == x;
                assert(m != b.len() - 1);
                assert(fb[m] == x);
            }
            if fb.contains(x) {
                let k = choose|k: int| 0 <= k < fb.len() && fb[k] == x;
                assert(b[k] == x);
                assert(a.contains(x));
                let m = choose|m: int| 0 <= m < a.len() && a[m] == x;
                assert(m != a.len() - 1);
                assert(fa[m] == x);
            }
        }
        lemma_ascending_unique(fa, fb);
        assert(a =~= fa.push(a.last()));
        assert(b =~= fb.push(b.last()));
    }
}

/// Puts `item` at its place in an ascending list.
pub fn insert_sorted(list: &mut Vec<usize>, item: usize)
    requires
        ascending(old(list)@),
    ensures
        ascending(final(list)@),
        final(list)@.to_set() == old(list)@.to_set().insert(item),
{
    let mut i: usize = 0;
    while i < list.len() && list[i] < item
        invariant
            i <= list.len(),
            list@ == old(list)@,
            ascending(list@),
            forall|k: int| 0 <= k < i ==> list@[k] < item,
        decreases list.len() - i,
    {
        i += 1;
    }
    if i < list.len() && list[i] == item {
        proof {
            assert(list@.contains(item));
            assert(list@.to_set() =~= old(list)@.to_set().insert(item));
        }
        return ;
    }
    let ghost before = list@;
    list.insert(i, item);
    proof {
        assert(list@ =~= before.insert(i as int, item));
        assert forall|x: usize| list@.to_set().contains(x) <==> before.to_set().insert(item).contains(x) by {
            if list@.contains(x) {
                let k = choose|k: int| 0 <= k < list@.len() && list@[k] == x;
                if k < i {
                    assert(before[k] == x);
                } else if k > i {
                    assert(before[k - 1] == x);
                }
            }
            if before.contains(x) {
                let k = choose|k: int| 0 <= k < before.len() && before[k] == x;
                if k < i {
                    assert(list@[k] == x);
                } else {
                    assert(list@[k + 1] == x);
                }
            }
            assert(list@[i as int] == item);
        }
        assert(list@.to_set() =~= before.to_set().insert(item));
    }
}

/// The keys of a map in ascending order.
pub fn sorted_keys<V>(map: &HashMap<usize, V>) -> (keys: Vec<usize>)
    ensures
        ascending(keys@),
        keys@.to_set() == map@.dom(),
{
    broadcast use crate::lists::lemma_take_all;

    let mut keys: Vec<usize> = Vec::new();
    assert(keys@.to_set() =~= Set::empty());
    for key in it: map.keys()
        invariant
            ascending(keys@),
            keys@.to_set() == it.seq().unref().take(it.index() as int).to_set(),
            it.seq().unref().to_set() == map@.dom(),
            it.seq().unref().len() == it.seq().len(),
    {
        let ghost all = it.seq().unref();
        let ghost n = it.index() as int;
        insert_sorted(&mut keys, *key);
        proof {
            assert(all.take(n + 1) =~= all.take(n).push(*key));
            assert forall|x: usize| all.take(n + 1).to_set().contains(x) <==> all.take(n).to_set().insert(*key).contains(x) by {
                if all.take(n).contains(x) {
                    let k = choose|k: int| 0 <= k < n && all.take(n)[k] == x;
                    assert(all.take(n + 1)[k] == x);
                }
                assert(all.take(n + 1)[n] == *key);
            }
            assert(all.take(n + 1).to_set() =~= all.take(n).to_set().insert(*key));
        }
    }
    keys
}

/// The members of a set in ascending order.
pub fn sorted_items(set: &HashSet<usize>) -> (items: Vec<usize>)
    ensures
        ascending(items@),
        items@.to_set() == set@,
{
    broadcast use crate::lists::lemma_take_all;

    let mut items: Vec<usize> = Vec::new();
    assert(items@.to_set() =~= Set::empty());
    for item in it: set.iter()
        invariant
            ascending(items@),
            items@.to_set() == it.seq().unref().take(it.index() as int).to_set(),
            it.seq().unref().to_set() == set@,
            it.seq().unref().len() == it.seq().len(),
    {
        let ghost all = it.seq().unref();
        let ghost n = it.index() as int;
        insert_sorted(&mut items, *item);
        proof {
            assert(all.take(n + 1) =~= all.take(n).push(*item));
            assert forall|x: usize| all.take(n + 1).to_set().contains(x) <==> all.take(n).to_set().insert(*item).contains(x) by {
                if all.take(n).contains(x) {
                    let k = choose|k: int| 0 <= k < n && all.take(n)[k] == x;
                    assert(all.take(n + 1)[k] == x);
                }
                assert(all.take(n + 1)[n] == *item);
            }
            assert(all.take(n + 1).to_set() =~= all.take(n).to_set().insert(*item));
        }
    }
    items
}

/// The members of a finite set in ascending order.
pub open spec fn in_order(set: Set<usize>) -> Seq<usize> {
    choose|items: Seq<usize>| ascending(items) && items.to_set() == set
}

pub proof fn lemma_in_order(items: Seq<usize>, set: Set<usize>)
    requires
        ascending(items),
        items.to_set() == set,
    ensures
        in_order(set) == items,
{
    let chosen = in_order(set);
    assert(ascending(chosen) && chosen.to_set() == set);
    assert forall|x: usize| items.contains(x) <==> chosen.contains(x) by {
        assert(items.contains(x) <==> items.to_set().contains(x));
        assert(chosen.contains(x) <==> chosen.to_set().contains(x));
    }
    lemma_ascending_unique(items, chosen);
}

/// Numbers in decimal with a comma and a blank between neighbours.
pub open spec fn numbers_text(numbers: Seq<usize>) -> Seq<char> {
    join_text(Seq::new(numbers.len(), |i: int| nat_text(numbers[i] as nat)), ", "@)
}

pub fn render_numbers(numbers: &Vec<usize>) -> (out: String)
    ensures
        out@ == numbers_text(numbers@),
{
    let mut parts: Vec<String> = Vec::new();
    let mut i: usize = 0;
    while i < numbers.len()
        invariant
            i <= numbers.len(),
            parts.len() == i,
            forall|k: int| 0 <= k < i ==> (#[trigger] parts[k])@ == nat_text(numbers[k] as nat),
        decreases numbers.len() - i,
    {
        parts.push(usize_to_text(numbers[i]));
        i += 1;
    }
    assert(parts.deep_view() =~= Seq::new(numbers@.len(), |i: int| nat_text(numbers@[i] as nat)));
    join(&parts, ", ")
}

} // verus!
