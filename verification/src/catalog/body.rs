//! The body of a rule: its atoms, their arguments, and what the arguments ask for.
use vstd::prelude::*;
use vstd::string::*;
use crate::catalog::atoms::{AtomArgumentSignature, AtomSignature};
use crate::lists::{empty, group_take, push};
use crate::parsing::compare::{ComparisonExpr, ComparisonExprModel};
use crate::parsing::rule::{
    Atom, AtomArg, AtomArgModel, AtomModel, ConstModel, FLRuleModel, Predicate, PredicateModel,
};

verus! {

/// The positive atoms, in order.
pub open spec fn positive_atoms(rhs: Seq<PredicateModel>) -> Seq<AtomModel>
    decreases rhs.len(),
{
    if rhs.len() == 0 {
        Seq::empty()
    } else {
        let front = positive_atoms(rhs.drop_last());
        match rhs.last() {
            PredicateModel::AtomPredicate(atom) => front.push(atom),
            _ => front,
        }
    }
}

/// The negated atoms, in order.
pub open spec fn negated_atoms(rhs: Seq<PredicateModel>) -> Seq<AtomModel>
    decreases rhs.len(),
{
    if rhs.len() == 0 {
        Seq::empty()
    } else {
        let front = negated_atoms(rhs.drop_last());
        match rhs.last() {
            PredicateModel::NegatedAtomPredicate(atom) => front.push(atom),
            _ => front,
        }
    }
}

/// The comparisons, in order.
pub open spec fn comparisons(rhs: Seq<PredicateModel>) -> Seq<ComparisonExprModel>
    decreases rhs.len(),
{
    if rhs.len() == 0 {
        Seq::empty()
    } else {
        let front = comparisons(rhs.drop_last());
        match rhs.last() {
            PredicateModel::ComparePredicate(expr) => front.push(expr),
            _ => front,
        }
    }
}

/// Splits a body into positive atoms, negated atoms and comparisons.
pub fn split_body(rhs: &Vec<Predicate>) -> (parts: (Vec<Atom>, Vec<Atom>, Vec<ComparisonExpr>))
    ensures
        parts.0.deep_view() == positive_atoms(rhs.deep_view()),
        parts.1.deep_view() == negated_atoms(rhs.deep_view()),
        parts.2.deep_view() == comparisons(rhs.deep_view()),
{
    broadcast use group_take;

    let mut positive: Vec<Atom> = empty();
    let mut negated: Vec<Atom> = empty();
    let mut compares: Vec<ComparisonExpr> = empty();
    let ghost model = rhs.deep_view();
    let mut i: usize = 0;
    while i < rhs.len()
        invariant
            i <= rhs.len(),
            model == rhs.deep_view(),
            positive.deep_view() == positive_atoms(model.take(i as int)),
            negated.deep_view() == negated_atoms(model.take(i as int)),
            compares.deep_view() == comparisons(model.take(i as int)),
        decreases rhs.len() - i,
    {
        assert(model.take(i + 1).drop_last() == model.take(i as int));
        assert(model[i as int] == rhs[i as int].deep_view());
        match &rhs[i] {
            Predicate::AtomPredicate(atom) => push(&mut positive, atom.clone()),
            Predicate::NegatedAtomPredicate(atom) => push(&mut negated, atom.clone()),
            Predicate::ComparePredicate(expr) => push(&mut compares, expr.clone()),
        }
        i += 1;
    }
    (positive, negated, compares)
}

/// The positive or the negated atoms of a rule.
pub open spec fn atoms_of(rule: FLRuleModel, positive: bool) -> Seq<AtomModel> {
    if positive {
        positive_atoms(rule.rhs)
    } else {
        negated_atoms(rule.rhs)
    }
}

/// The argument at a position, if there is one.
pub open spec fn arg_of(rule: FLRuleModel, s: AtomArgumentSignature) -> Option<AtomArgModel> {
    let atoms = atoms_of(rule, s.atom_signature.is_positive);
    let id = s.atom_signature.rhs_id as int;
    if id < atoms.len() && s.argument_id < atoms[id].arguments.len() {
        Some(atoms[id].arguments[s.argument_id as int])
    } else {
        None
    }
}

/// The variable at a position, if there is one.
pub open spec fn var_of(rule: FLRuleModel, s: AtomArgumentSignature) -> Option<Seq<char>> {
    match arg_of(rule, s) {
        Some(AtomArgModel::Var(var)) => Some(var),
        _ => None,
    }
}

/// The constant at a position, if there is one.
pub open spec fn const_of(rule: FLRuleModel, s: AtomArgumentSignature) -> Option<ConstModel> {
    match arg_of(rule, s) {
        Some(AtomArgModel::Const(constant)) => Some(constant),
        _ => None,
    }
}

pub open spec fn is_placeholder(rule: FLRuleModel, s: AtomArgumentSignature) -> bool {
    arg_of(rule, s) == Some(AtomArgModel::Placeholder)
}

/// The first argument that is the given variable.
pub open spec fn first_var(arguments: Seq<AtomArgModel>, var: Seq<char>) -> Option<nat>
    decreases arguments.len(),
{
    if arguments.len() == 0 {
        None
    } else {
        match first_var(arguments.drop_last(), var) {
            Some(i) => Some(i),
            None => if arguments.last() == AtomArgModel::Var(var) {
                Some((arguments.len() - 1) as nat)
            } else {
                None
            },
        }
    }
}

/// The first argument of the same atom with the same variable, where the
/// variable at a position repeats an earlier one.
pub open spec fn alias_of(rule: FLRuleModel, s: AtomArgumentSignature) -> Option<
    AtomArgumentSignature,
> {
    match var_of(rule, s) {
        Some(var) => {
            let atom = atoms_of(rule, s.atom_signature.is_positive)[s.atom_signature.rhs_id as int];
            match first_var(atom.arguments.take(s.argument_id as int), var) {
                Some(first) => Some(
                    AtomArgumentSignature {
                        atom_signature: s.atom_signature,
                        argument_id: first as usize,
                    },
                ),
                None => None,
            }
        },
        None => None,
    }
}

/// Whether a position asks for a filter and carries no variable of its own: a
/// constant, a placeholder or a repeated variable.
pub open spec fn is_filtered(rule: FLRuleModel, s: AtomArgumentSignature) -> bool {
    alias_of(rule, s) is Some || const_of(rule, s) is Some || is_placeholder(rule, s)
}

/// The argument `k` of an atom.
pub open spec fn position(positive: bool, id: int, k: int) -> AtomArgumentSignature {
    AtomArgumentSignature {
        atom_signature: AtomSignature { is_positive: positive, rhs_id: id as usize },
        argument_id: k as usize,
    }
}

/// All arguments of an atom.
pub open spec fn positions(positive: bool, id: int, arity: nat) -> Seq<AtomArgumentSignature> {
    Seq::new(arity, |k: int| position(positive, id, k))
}

/// All arguments of all positive or of all negated atoms.
pub open spec fn atom_positions(rule: FLRuleModel, positive: bool) -> Seq<
    Seq<AtomArgumentSignature>,
> {
    Seq::new(
        atoms_of(rule, positive).len(),
        |i: int| positions(positive, i, atoms_of(rule, positive)[i].arguments.len()),
    )
}

/// Whether the places of arguments can be counted by the machine.
pub open spec fn are_positions_small(rule: FLRuleModel) -> bool {
    &&& forall|i: int|
        0 <= i < atoms_of(rule, true).len() ==> (#[trigger] atoms_of(
            rule,
            true,
        )[i]).arguments.len() <= usize::MAX
    &&& forall|i: int|
        0 <= i < atoms_of(rule, false).len() ==> (#[trigger] atoms_of(
            rule,
            false,
        )[i]).arguments.len() <= usize::MAX
    &&& atoms_of(rule, true).len() <= usize::MAX
    &&& atoms_of(rule, false).len() <= usize::MAX
}

/// Whether a variable is an argument of one of the atoms.
pub open spec fn occurs(atoms: Seq<AtomModel>, var: Seq<char>) -> bool {
    exists|i: int|
        0 <= i < atoms.len() && (#[trigger] atoms[i]).arguments.contains(AtomArgModel::Var(var))
}

/// Whether every variable of a negated atom is also one of a positive atom.
pub open spec fn is_safe(rule: FLRuleModel) -> bool {
    forall|s: AtomArgumentSignature|
        !s.atom_signature.is_positive && (#[trigger] var_of(rule, s)) is Some ==> occurs(
            positive_atoms(rule.rhs),
            var_of(rule, s)->0,
        )
}

/// Finds the first of the arguments before `upto` that is the given variable.
pub fn find_var(arguments: &Vec<AtomArg>, upto: usize, var: &String) -> (found: Option<usize>)
    requires
        upto <= arguments.len(),
    ensures
        match first_var(arguments.deep_view().take(upto as int), var@) {
            Some(k) => found == Some(k as usize) && k < upto,
            None => found is None,
        },
{
    broadcast use group_take;

    let ghost model = arguments.deep_view();
    let mut i: usize = 0;
    while i < upto
        invariant
            i <= upto <= arguments.len(),
            model == arguments.deep_view(),
            first_var(model.take(i as int), var@) is None,
        decreases upto - i,
    {
        assert(model.take(i + 1).drop_last() == model.take(i as int));
        assert(model[i as int] == arguments[i as int].deep_view());
        if let AtomArg::Var(name) = &arguments[i] {
            if *name == *var {
                proof {
                    lemma_first_var_stays(model.take(upto as int), i + 1, var@);
                    assert(model.take(upto as int).take(i + 1) =~= model.take(i + 1));
                }
                return Some(i);
            }
        }
        i += 1;
    }
    None
}

pub proof fn lemma_first_var_stays(arguments: Seq<AtomArgModel>, k: int, var: Seq<char>)
    requires
        0 <= k <= arguments.len(),
        first_var(arguments.take(k), var) is Some,
    ensures
        first_var(arguments, var) == first_var(arguments.take(k), var),
    decreases arguments.len() - k,
{
    broadcast use group_take;

    if k < arguments.len() {
        assert(arguments.take(k + 1).drop_last() == arguments.take(k));
        lemma_first_var_stays(arguments, k + 1, var);
    }
}

/// The first occurrence of a variable is the least one.
pub proof fn lemma_first_var(arguments: Seq<AtomArgModel>, var: Seq<char>)
    ensures
        first_var(arguments, var) matches Some(k) ==> k < arguments.len() && arguments[k as int]
            == AtomArgModel::Var(var) && forall|i: int|
            0 <= i < k ==> arguments[i] != AtomArgModel::Var(var),
        first_var(arguments, var) is Some <==> arguments.contains(AtomArgModel::Var(var)),
    decreases arguments.len(),
{
    if arguments.len() > 0 {
        let front = arguments.drop_last();
        lemma_first_var(front, var);
        if arguments.contains(AtomArgModel::Var(var)) {
            let i = choose|i: int| 0 <= i < arguments.len() && arguments[i] == AtomArgModel::Var(var);
            if i < front.len() {
                assert(front[i] == AtomArgModel::Var(var));
                assert(front.contains(AtomArgModel::Var(var)));
            }
        }
        if first_var(arguments, var) is Some {
            let k = first_var(arguments, var)->0;
            assert(arguments[k as int] == AtomArgModel::Var(var)) by {
                if first_var(front, var) is Some {
                    assert(front[k as int] == arguments[k as int]);
                }
            }
            assert forall|i: int| 0 <= i < k implies arguments[i] != AtomArgModel::Var(var) by {
                if i < front.len() {
                    assert(front[i] == arguments[i]);
                    if first_var(front, var) is None {
                        assert(!front.contains(AtomArgModel::Var(var)));
                        assert(front.contains(front[i]));
                    }
                }
            }
        }
    }
}

} // verus!
