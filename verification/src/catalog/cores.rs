//! The core atoms of a rule: those whose variables no other atom covers.
use vstd::prelude::*;
use crate::catalog::body::positive_atoms;
use crate::catalog::rule::{atom_strs, is_core, subset, Catalog};
use crate::parsing::rule::FLRuleModel;

verus! {

/// The core atoms below `upto`, in order.
pub open spec fn core_below(rule: FLRuleModel, upto: nat) -> Seq<usize>
    decreases upto,
{
    if upto == 0 {
        Seq::empty()
    } else {
        let front = core_below(rule, (upto - 1) as nat);
        if is_core(rule, upto - 1) {
            front.push((upto - 1) as usize)
        } else {
            front
        }
    }
}

/// The core atoms of a rule, in order.
pub open spec fn core_ids(rule: FLRuleModel) -> Seq<usize> {
    core_below(rule, positive_atoms(rule.rhs).len())
}

pub proof fn lemma_core_below(rule: FLRuleModel, upto: nat)
    requires
        upto <= usize::MAX,
    ensures
        forall|v: usize| #[trigger]
            core_below(rule, upto).contains(v) <==> v < upto && is_core(rule, v as int),
        core_below(rule, upto).no_duplicates(),
    decreases upto,
{
    if upto > 0 {
        let front = core_below(rule, (upto - 1) as nat);
        let all = core_below(rule, upto);
        lemma_core_below(rule, (upto - 1) as nat);
        assert forall|v: usize| #[trigger] all.contains(v) <==> v < upto && is_core(rule, v as int) by {
            if front.contains(v) {
                let k = choose|k: int| 0 <= k < front.len() && front[k] == v;
                assert(all[k] == v);
            }
            if all.contains(v) {
                let k = choose|k: int| 0 <= k < all.len() && all[k] == v;
                if k < front.len() {
                    assert(front[k] == v);
                    assert(front.contains(v));
                }
            }
            if is_core(rule, upto - 1) {
                assert(all[front.len() as int] == (upto - 1) as usize);
            }
        }
        assert forall|i: int, j: int| 0 <= i < j < all.len() implies all[i] != all[j] by {
            if j < front.len() {
                assert(front[i] != front[j]);
            } else {
                assert(front.contains(front[i]));
            }
        }
    }
}

/// The core atoms of a rule.
pub fn core_atoms(catalog: &Catalog) -> (core: Vec<usize>)
    requires
        catalog.wf(),
    ensures
        core@ == core_ids(catalog.rule.deep_view()),
{
    let ghost rule = catalog.rule.deep_view();
    proof {
        catalog.lemma_parts();
    }
    let mut core: Vec<usize> = Vec::new();
    let mut i: usize = 0;
    while i < catalog.is_core_atom_bitmap.len()
        invariant
            i <= catalog.is_core_atom_bitmap.len(),
            catalog.wf(),
            rule == catalog.rule.deep_view(),
            catalog.is_core_atom_bitmap@.len() == positive_atoms(rule.rhs).len(),
            core@ == core_below(rule, i as nat),
        decreases catalog.is_core_atom_bitmap.len() - i,
    {
        if catalog.is_core_atom_bitmap[i] {
            core.push(i);
        }
        i += 1;
    }
    core
}

/// Whether another atom covers the variables of an atom, and is to be kept for it.
pub open spec fn gives_way(rule: FLRuleModel, i: int, j: int) -> bool {
    &&& 0 <= j < positive_atoms(rule.rhs).len()
    &&& j != i
    &&& subset(atom_strs(rule, true, i), atom_strs(rule, true, j))
    &&& j < i || !subset(atom_strs(rule, true, j), atom_strs(rule, true, i))
}

/// The atoms that an atom gives way to.
pub open spec fn betters(rule: FLRuleModel, i: int) -> Set<int> {
    vstd::set_lib::set_int_range(0, positive_atoms(rule.rhs).len() as int).filter(
        |j: int| gives_way(rule, i, j),
    )
}

proof fn lemma_subset_trans(a: Seq<Seq<char>>, b: Seq<Seq<char>>, c: Seq<Seq<char>>)
    requires
        subset(a, b),
        subset(b, c),
    ensures
        subset(a, c),
{
    assert forall|x: Seq<char>| #[trigger] a.contains(x) implies c.contains(x) by {
        assert(b.contains(x));
    }
}

proof fn lemma_gives_way(rule: FLRuleModel, i: int, j: int, k: int)
    requires
        0 <= i < positive_atoms(rule.rhs).len(),
        gives_way(rule, i, j),
        gives_way(rule, j, k),
    ensures
        gives_way(rule, i, k),
{
    let a = atom_strs(rule, true, i);
    let b = atom_strs(rule, true, j);
    let c = atom_strs(rule, true, k);
    lemma_subset_trans(a, b, c);
    if subset(c, a) {
        lemma_subset_trans(c, a, b);
        lemma_subset_trans(b, c, a);
    }
}

/// The variables of every positive atom are among those of a core atom.
pub proof fn law_core_atoms_cover(rule: FLRuleModel, i: int)
    requires
        0 <= i < positive_atoms(rule.rhs).len(),
    ensures
        exists|c: int|
            0 <= c < positive_atoms(rule.rhs).len() && #[trigger] is_core(rule, c) && subset(
                atom_strs(rule, true, i),
                atom_strs(rule, true, c),
            ),
    decreases betters(rule, i).len(),
{
    if !is_core(rule, i) {
        let n = positive_atoms(rule.rhs).len() as int;
        let j = choose|j: int|
            0 <= j < n && j != i && subset(
                atom_strs(rule, true, i),
                #[trigger] atom_strs(rule, true, j),
            ) && (j < i || !subset(atom_strs(rule, true, j), atom_strs(rule, true, i)));
        assert(gives_way(rule, i, j));
        vstd::set_lib::lemma_int_range(0, n);
        let all = vstd::set_lib::set_int_range(0, n);
        all.lemma_len_filter(|k: int| gives_way(rule, i, k));
        all.lemma_len_filter(|k: int| gives_way(rule, j, k));
        assert(betters(rule, j).subset_of(betters(rule, i).remove(j))) by {
            assert forall|k: int| betters(rule, j).contains(k) implies betters(rule, i).remove(
                j,
            ).contains(k) by {
                lemma_gives_way(rule, i, j, k);
            }
        }
        assert(betters(rule, i).contains(j));
        vstd::set_lib::lemma_len_subset(betters(rule, j), betters(rule, i).remove(j));
        law_core_atoms_cover(rule, j);
        let c = choose|c: int|
            0 <= c < n && #[trigger] is_core(rule, c) && subset(
                atom_strs(rule, true, j),
                atom_strs(rule, true, c),
            );
        lemma_subset_trans(
            atom_strs(rule, true, i),
            atom_strs(rule, true, j),
            atom_strs(rule, true, c),
        );
    }
}

} // verus!
