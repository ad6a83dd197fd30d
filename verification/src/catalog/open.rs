//! Atoms of a rule that still have to be dealt with.
use vstd::prelude::*;
use crate::catalog::atoms::AtomSignature;
use crate::catalog::body::atoms_of;
use crate::catalog::query::{sub_atom_ids, sub_negated_ids};
use crate::lists::group_take;
use crate::parsing::rule::FLRuleModel;

verus! {

/// Whether nothing is open.
pub open spec fn none_open(open: Seq<bool>) -> bool {
    forall|i: int| 0 <= i < open.len() ==> !#[trigger] open[i]
}

/// Whether something is open.
pub fn is_any_open(open: &Vec<bool>) -> (answer: bool)
    ensures
        answer == !none_open(open@),
{
    let mut i: usize = 0;
    while i < open.len()
        invariant
            i <= open.len(),
            forall|k: int| 0 <= k < i ==> !#[trigger] open@[k],
        decreases open.len() - i,
    {
        if open[i] {
            return true;
        }
        i += 1;
    }
    false
}

/// The atoms that are still open, and what is open without them.
pub open spec fn take_open(atoms: Seq<AtomSignature>, open: Seq<bool>) -> (
    Seq<AtomSignature>,
    Seq<bool>,
)
    decreases atoms.len(),
{
    if atoms.len() == 0 {
        (Seq::empty(), open)
    } else {
        let (front, left) = take_open(atoms.drop_last(), open);
        let id = atoms.last().rhs_id as int;
        if left[id] {
            (front.push(atoms.last()), left.update(id, false))
        } else {
            (front, left)
        }
    }
}

/// The atoms by their places among the atoms of the rule.
pub open spec fn ids_of(atoms: Seq<AtomSignature>) -> Seq<usize> {
    Seq::new(atoms.len(), |i: int| atoms[i].rhs_id)
}

/// Whether all atoms are atoms of the rule, positive or negated as they say.
pub open spec fn are_atoms(rule: FLRuleModel, atoms: Seq<AtomSignature>, positive: bool) -> bool {
    forall|i: int|
        0 <= i < atoms.len() ==> (#[trigger] atoms[i]).is_positive == positive && atoms[i].rhs_id
            < atoms_of(rule, positive).len()
}

pub proof fn lemma_sub_atoms(rule: FLRuleModel, strs: Seq<Seq<char>>, upto: nat)
    requires
        upto <= atoms_of(rule, true).len(),
        atoms_of(rule, true).len() <= usize::MAX,
    ensures
        are_atoms(rule, sub_atom_ids(rule, strs, upto), true),
    decreases upto,
{
    if upto > 0 {
        lemma_sub_atoms(rule, strs, (upto - 1) as nat);
    }
}

pub proof fn lemma_sub_negated(rule: FLRuleModel, strs: Seq<Seq<char>>, upto: nat)
    requires
        upto <= atoms_of(rule, false).len(),
        atoms_of(rule, false).len() <= usize::MAX,
    ensures
        are_atoms(rule, sub_negated_ids(rule, strs, upto), false),
    decreases upto,
{
    if upto > 0 {
        lemma_sub_negated(rule, strs, (upto - 1) as nat);
    }
}

/// Takes the open ones out of a list of atoms.
pub fn take_open_atoms(atoms: &Vec<AtomSignature>, open: &mut Vec<bool>) -> (taken: Vec<AtomSignature>)
    requires
        forall|i: int|
            0 <= i < atoms@.len() ==> (#[trigger] atoms@[i]).rhs_id < old(open)@.len(),
    ensures
        (taken@, final(open)@) == take_open(atoms@, old(open)@),
        final(open)@.len() == old(open)@.len(),
        forall|i: int| 0 <= i < taken@.len() ==> atoms@.contains(#[trigger] taken@[i]),
{
    broadcast use group_take;

    let mut taken: Vec<AtomSignature> = Vec::new();
    let mut i: usize = 0;
    while i < atoms.len()
        invariant
            i <= atoms.len(),
            forall|i: int|
                0 <= i < atoms@.len() ==> (#[trigger] atoms@[i]).rhs_id < old(open)@.len(),
            open@.len() == old(open)@.len(),
            (taken@, open@) == take_open(atoms@.take(i as int), old(open)@),
            forall|i: int| 0 <= i < taken@.len() ==> atoms@.contains(#[trigger] taken@[i]),
        decreases atoms.len() - i,
    {
        assert(atoms@.take(i + 1).drop_last() == atoms@.take(i as int));
        let id: usize = atoms[i].rhs_id();
        if open[id] {
            open.set(id, false);
            taken.push(atoms[i]);
        }
        i += 1;
    }
    taken
}

/// The places of the atoms among the atoms of the rule.
pub fn rhs_ids(atoms: &Vec<AtomSignature>) -> (ids: Vec<usize>)
    ensures
        ids@ == ids_of(atoms@),
{
    let mut ids: Vec<usize> = Vec::new();
    let mut i: usize = 0;
    while i < atoms.len()
        invariant
            i <= atoms.len(),
            ids.len() == i,
            forall|k: int| 0 <= k < i ==> #[trigger] ids@[k] == atoms@[k].rhs_id,
        decreases atoms.len() - i,
    {
        ids.push(atoms[i].rhs_id());
        i += 1;
    }
    assert(ids@ =~= ids_of(atoms@));
    ids
}

/// What is taken comes from the list and is open no longer; nothing is opened, and
/// nothing but what is on the list is closed.
pub proof fn lemma_take_open(atoms: Seq<AtomSignature>, open: Seq<bool>)
    requires
        forall|i: int| 0 <= i < atoms.len() ==> (#[trigger] atoms[i]).rhs_id < open.len(),
    ensures
        take_open(atoms, open).1.len() == open.len(),
        forall|k: int|
            0 <= k < take_open(atoms, open).0.len() ==> atoms.contains(
                #[trigger] take_open(atoms, open).0[k],
            ),
        forall|i: int|
            0 <= i < atoms.len() ==> !take_open(atoms, open).1[(#[trigger] atoms[i]).rhs_id as int],
        forall|j: int|
            0 <= j < open.len() && #[trigger] take_open(atoms, open).1[j] ==> open[j],
    decreases atoms.len(),
{
    if atoms.len() > 0 {
        let front = atoms.drop_last();
        assert forall|i: int| 0 <= i < front.len() implies (#[trigger] front[i]).rhs_id
            < open.len() by {
            assert(front[i] == atoms[i]);
        }
        lemma_take_open(front, open);
        let last = atoms[atoms.len() - 1];
        assert(last.rhs_id < open.len());
        let before = take_open(front, open);
        let after = take_open(atoms, open);
        assert forall|k: int| 0 <= k < after.0.len() implies atoms.contains(
            #[trigger] after.0[k],
        ) by {
            if k < before.0.len() {
                assert(after.0[k] == before.0[k]);
                let m = choose|m: int| 0 <= m < front.len() && front[m] == before.0[k];
                assert(front.contains(before.0[k]));
                assert(atoms[m] == after.0[k]);
            } else {
                assert(atoms[atoms.len() - 1] == after.0[k]);
            }
        }
        assert forall|i: int| 0 <= i < atoms.len() implies !after.1[(
        #[trigger] atoms[i]).rhs_id as int] by {
            if i < front.len() {
                assert(front[i] == atoms[i]);
                assert(!before.1[front[i].rhs_id as int]);
            }
        }
    }
}

} // verus!
