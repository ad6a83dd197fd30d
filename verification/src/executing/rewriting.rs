//! A rule that is rewritten says what it said before.
use vstd::prelude::*;
use crate::catalog::atoms::AtomSignature;
use crate::catalog::body::{
    are_positions_small, atoms_of, comparisons, negated_atoms, positive_atoms,
};
use crate::catalog::cores::{core_ids, lemma_core_below};
use crate::catalog::open::{lemma_sub_atoms, lemma_sub_negated, none_open, take_open};
use crate::catalog::query::{sub_atom_ids, sub_negated_ids};
use crate::catalog::rule::{atom_strs, is_core, subset};
use crate::catalog::sideways::{
    backward_suffix, final_rule, forward_suffix, law_sideways_uses_all, lemma_atom_strs,
    marked_items, met_comparisons, narrowed, negated_predicates, neighbours, positive_predicates,
    reduce, reduce_one, reduced_both, reduced_forward, sideways_rules, unreduced, SidewaysModel,
};
use crate::executing::heads::{law_head_row, lemma_plain_row};
use crate::executing::meaning::{
    argument_fits, atom_holds, comparison_holds, is_answer, is_head_row, lemma_atom_agrees,
    lemma_comparison_agrees, row_fits, same_on, satisfies, vals, Database, Valuation,
};
use crate::executing::plans::{
    consumed, lemma_negated_vars, lemma_sub_vars, lemma_taken_set, shrinks,
};
use crate::parsing::arithmetic::{distinct, lemma_distinct};
use crate::parsing::compare::ComparisonExprModel;
use crate::parsing::head::HeadArgModel;
use crate::parsing::rule::{AtomArgModel, AtomModel, FLRuleModel, PredicateModel};

verus! {

/// Whether a condition of a rule holds.
pub open spec fn predicate_holds(
    db: Database,
    predicate: PredicateModel,
    valuation: Valuation,
) -> bool {
    match predicate {
        PredicateModel::AtomPredicate(atom) => atom_holds(db, atom, valuation),
        PredicateModel::NegatedAtomPredicate(atom) => !atom_holds(db, atom, valuation),
        PredicateModel::ComparePredicate(comparison) => comparison_holds(valuation, comparison),
    }
}

pub open spec fn all_hold_in(
    db: Database,
    rhs: Seq<PredicateModel>,
    valuation: Valuation,
) -> bool {
    forall|k: int| 0 <= k < rhs.len() ==> predicate_holds(db, #[trigger] rhs[k], valuation)
}

spec fn all_atoms_hold(db: Database, atoms: Seq<AtomModel>, valuation: Valuation) -> bool {
    forall|i: int| 0 <= i < atoms.len() ==> atom_holds(db, #[trigger] atoms[i], valuation)
}

spec fn no_atoms_hold(db: Database, atoms: Seq<AtomModel>, valuation: Valuation) -> bool {
    forall|i: int| 0 <= i < atoms.len() ==> !atom_holds(db, #[trigger] atoms[i], valuation)
}

spec fn all_comparisons_hold(list: Seq<ComparisonExprModel>, valuation: Valuation) -> bool {
    forall|i: int| 0 <= i < list.len() ==> comparison_holds(valuation, #[trigger] list[i])
}

proof fn lemma_push_atoms(
    db: Database,
    atoms: Seq<AtomModel>,
    atom: AtomModel,
    valuation: Valuation,
)
    ensures
        all_atoms_hold(db, atoms.push(atom), valuation) <==> all_atoms_hold(db, atoms, valuation)
            && atom_holds(db, atom, valuation),
        no_atoms_hold(db, atoms.push(atom), valuation) <==> no_atoms_hold(db, atoms, valuation)
            && !atom_holds(db, atom, valuation),
{
    let all = atoms.push(atom);
    assert(all[atoms.len() as int] == atom);
    assert forall|i: int| 0 <= i < atoms.len() implies #[trigger] atoms[i] == all[i] by {}
    if all_atoms_hold(db, all, valuation) {
        assert forall|i: int| 0 <= i < atoms.len() implies atom_holds(
            db,
            #[trigger] atoms[i],
            valuation,
        ) by {
            assert(atom_holds(db, all[i], valuation));
        }
    }
    if no_atoms_hold(db, all, valuation) {
        assert forall|i: int| 0 <= i < atoms.len() implies !atom_holds(
            db,
            #[trigger] atoms[i],
            valuation,
        ) by {
            assert(!atom_holds(db, all[i], valuation));
        }
    }
}

proof fn lemma_push_comparisons(
    list: Seq<ComparisonExprModel>,
    comparison: ComparisonExprModel,
    valuation: Valuation,
)
    ensures
        all_comparisons_hold(list.push(comparison), valuation) <==> all_comparisons_hold(
            list,
            valuation,
        ) && comparison_holds(valuation, comparison),
{
    let all = list.push(comparison);
    assert(all[list.len() as int] == comparison);
    if all_comparisons_hold(all, valuation) {
        assert forall|i: int| 0 <= i < list.len() implies comparison_holds(
            valuation,
            #[trigger] list[i],
        ) by {
            assert(all[i] == list[i]);
        }
    }
}

/// A body holds where all its conditions do.
proof fn lemma_body(db: Database, rhs: Seq<PredicateModel>, valuation: Valuation)
    ensures
        all_hold_in(db, rhs, valuation) <==> all_atoms_hold(db, positive_atoms(rhs), valuation)
            && no_atoms_hold(db, negated_atoms(rhs), valuation) && all_comparisons_hold(
            comparisons(rhs),
            valuation,
        ),
    decreases rhs.len(),
{
    if rhs.len() > 0 {
        let front = rhs.drop_last();
        let last = rhs.last();
        lemma_body(db, front, valuation);
        assert(all_hold_in(db, rhs, valuation) <==> all_hold_in(db, front, valuation)
            && predicate_holds(db, last, valuation)) by {
            if all_hold_in(db, rhs, valuation) {
                assert forall|k: int| 0 <= k < front.len() implies predicate_holds(
                    db,
                    #[trigger] front[k],
                    valuation,
                ) by {
                    assert(front[k] == rhs[k]);
                }
                assert(predicate_holds(db, rhs[rhs.len() - 1], valuation));
            }
            if all_hold_in(db, front, valuation) && predicate_holds(db, last, valuation) {
                assert forall|k: int| 0 <= k < rhs.len() implies predicate_holds(
                    db,
                    #[trigger] rhs[k],
                    valuation,
                ) by {
                    if k < front.len() {
                        assert(front[k] == rhs[k]);
                    }
                }
            }
        }
        match last {
            PredicateModel::AtomPredicate(atom) => {
                lemma_push_atoms(db, positive_atoms(front), atom, valuation);
            },
            PredicateModel::NegatedAtomPredicate(atom) => {
                lemma_push_atoms(db, negated_atoms(front), atom, valuation);
            },
            PredicateModel::ComparePredicate(comparison) => {
                lemma_push_comparisons(comparisons(front), comparison, valuation);
            },
        }
    }
}

/// A rule is satisfied where all conditions of its body hold.
pub proof fn lemma_satisfies(db: Database, rule: FLRuleModel, valuation: Valuation)
    ensures
        satisfies(db, rule, valuation) <==> all_hold_in(db, rule.rhs, valuation),
{
    lemma_body(db, rule.rhs, valuation);
    assert(atoms_of(rule, true) == positive_atoms(rule.rhs));
    assert(atoms_of(rule, false) == negated_atoms(rule.rhs));
}

proof fn lemma_hold_in_both(
    db: Database,
    a: Seq<PredicateModel>,
    b: Seq<PredicateModel>,
    valuation: Valuation,
)
    ensures
        all_hold_in(db, a + b, valuation) <==> all_hold_in(db, a, valuation) && all_hold_in(
            db,
            b,
            valuation,
        ),
{
    let all = a + b;
    if all_hold_in(db, all, valuation) {
        assert forall|k: int| 0 <= k < a.len() implies predicate_holds(
            db,
            #[trigger] a[k],
            valuation,
        ) by {
            assert(all[k] == a[k]);
        }
        assert forall|k: int| 0 <= k < b.len() implies predicate_holds(
            db,
            #[trigger] b[k],
            valuation,
        ) by {
            assert(all[a.len() + k] == b[k]);
        }
    }
}

/// Whether the relations that some rules derive hold what the rules say.
pub open spec fn is_closed(db: Database, rules: Seq<FLRuleModel>) -> bool {
    forall|k: int, row: Seq<i64>|
        0 <= k < rules.len() ==> (#[trigger] db(rules[k].head.name, row) <==> is_answer(
            db,
            rules[k],
            row,
        ))
}

/// Whether a condition has no variables but some.
spec fn is_predicate_within(predicate: PredicateModel, vars: Set<Seq<char>>) -> bool {
    match predicate {
        PredicateModel::AtomPredicate(atom) => forall|var: Seq<char>|
            #[trigger] atom.arguments.contains(AtomArgModel::Var(var)) ==> vars.contains(var),
        PredicateModel::NegatedAtomPredicate(atom) => forall|var: Seq<char>|
            #[trigger] atom.arguments.contains(AtomArgModel::Var(var)) ==> vars.contains(var),
        PredicateModel::ComparePredicate(comparison) => forall|var: Seq<char>| #[trigger]
            comparison.vars().contains(var) ==> vars.contains(var),
    }
}

spec fn are_within(rhs: Seq<PredicateModel>, vars: Set<Seq<char>>) -> bool {
    forall|k: int| 0 <= k < rhs.len() ==> is_predicate_within(#[trigger] rhs[k], vars)
}

proof fn lemma_within_both(a: Seq<PredicateModel>, b: Seq<PredicateModel>, vars: Set<Seq<char>>)
    requires
        are_within(a, vars),
        are_within(b, vars),
    ensures
        are_within(a + b, vars),
{
}

proof fn lemma_body_agrees(
    db: Database,
    rhs: Seq<PredicateModel>,
    vars: Set<Seq<char>>,
    a: Valuation,
    b: Valuation,
)
    requires
        are_within(rhs, vars),
        same_on(a, b, vars),
        all_hold_in(db, rhs, a),
    ensures
        all_hold_in(db, rhs, b),
{
    assert(same_on(b, a, vars));
    assert forall|k: int| 0 <= k < rhs.len() implies predicate_holds(db, #[trigger] rhs[k], b) by {
        assert(predicate_holds(db, rhs[k], a));
        assert(is_predicate_within(rhs[k], vars));
        match rhs[k] {
            PredicateModel::AtomPredicate(atom) => {
                lemma_atom_agrees(db, a, b, atom, vars);
            },
            PredicateModel::NegatedAtomPredicate(atom) => {
                lemma_atom_agrees(db, b, a, atom, vars);
            },
            PredicateModel::ComparePredicate(comparison) => {
                lemma_comparison_agrees(a, b, comparison, vars);
            },
        }
    }
}

/// An atom whose relation holds what a rule for its variables says holds where the
/// body of the rule does.
proof fn lemma_defined_atom(
    db: Database,
    rule: FLRuleModel,
    vars: Seq<Seq<char>>,
    valuation: Valuation,
)
    requires
        rule.head.head_arguments == vars.map_values(|v: Seq<char>| HeadArgModel::Var(v)),
        are_within(rule.rhs, vars.to_set()),
        forall|row: Seq<i64>| #[trigger]
            db(rule.head.name, row) <==> is_answer(db, rule, row),
    ensures
        atom_holds(
            db,
            AtomModel {
                name: rule.head.name,
                arguments: vars.map_values(|v: Seq<char>| AtomArgModel::Var(v)),
            },
            valuation,
        ) <==> all_hold_in(db, rule.rhs, valuation),
{
    let arguments = vars.map_values(|v: Seq<char>| AtomArgModel::Var(v));
    let atom = AtomModel { name: rule.head.name, arguments };
    let row = vals(valuation, vars);
    lemma_plain_row(vars, row);
    assert(row_fits(valuation, arguments, row)) by {
        assert forall|k: int| 0 <= k < arguments.len() implies argument_fits(
            valuation,
            #[trigger] arguments[k],
            row[k],
        ) by {
            assert(arguments[k] == AtomArgModel::Var(vars[k]));
        }
    }
    if all_hold_in(db, rule.rhs, valuation) {
        lemma_satisfies(db, rule, valuation);
        law_head_row(valuation, rule.head, row);
        assert(is_answer(db, rule, row));
        assert(db(atom.name, row) && row_fits(valuation, atom.arguments, row));
        assert(atom_holds(db, atom, valuation));
    }
    if atom_holds(db, atom, valuation) {
        let found = choose|found: Seq<i64>|
            db(atom.name, found) && #[trigger] row_fits(valuation, atom.arguments, found);
        assert(found =~= row) by {
            assert forall|k: int| 0 <= k < vars.len() implies found[k] == row[k] by {
                assert(arguments[k] == AtomArgModel::Var(vars[k]));
                assert(argument_fits(valuation, arguments[k], found[k]));
            }
        }
        assert(is_answer(db, rule, row));
        let other = choose|other: Valuation| #[trigger]
            satisfies(db, rule, other) && is_head_row(other, rule.head.head_arguments, row);
        lemma_satisfies(db, rule, other);
        lemma_plain_row(vars, vals(other, vars));
        law_head_row(other, rule.head, row);
        assert(same_on(other, valuation, vars.to_set())) by {
            assert forall|var: Seq<char>| #[trigger]
                vars.to_set().contains(var) implies other(var) == valuation(var) by {
                let i = vars.index_of(var);
                assert(vals(other, vars)[i] == vals(valuation, vars)[i]);
            }
        }
        lemma_body_agrees(db, rule.rhs, vars.to_set(), other, valuation);
    }
}

/// An atom that holds does so with some of its variables left open.
proof fn lemma_narrowed_holds(
    db: Database,
    atom: AtomModel,
    vars: Seq<Seq<char>>,
    valuation: Valuation,
)
    requires
        atom_holds(db, atom, valuation),
    ensures
        atom_holds(db, narrowed(atom, vars), valuation),
{
    let row = choose|row: Seq<i64>|
        db(atom.name, row) && #[trigger] row_fits(valuation, atom.arguments, row);
    let arguments = narrowed(atom, vars).arguments;
    assert forall|k: int| 0 <= k < arguments.len() implies argument_fits(
        valuation,
        #[trigger] arguments[k],
        row[k],
    ) by {
        assert(argument_fits(valuation, atom.arguments[k], row[k]));
    }
    assert(row_fits(valuation, arguments, row));
}

proof fn lemma_met(
    rule: FLRuleModel,
    vars: Seq<Seq<char>>,
    upto: nat,
    db: Database,
    valuation: Valuation,
)
    requires
        upto <= comparisons(rule.rhs).len(),
    ensures
        are_within(met_comparisons(rule, vars, upto), vars.to_set()),
        all_comparisons_hold(comparisons(rule.rhs), valuation) ==> all_hold_in(
            db,
            met_comparisons(rule, vars, upto),
            valuation,
        ),
    decreases upto,
{
    if upto > 0 {
        let front = met_comparisons(rule, vars, (upto - 1) as nat);
        let all = met_comparisons(rule, vars, upto);
        let comparison = comparisons(rule.rhs)[upto - 1];
        lemma_met(rule, vars, (upto - 1) as nat, db, valuation);
        assert forall|k: int| 0 <= k < all.len() implies is_predicate_within(
            #[trigger] all[k],
            vars.to_set(),
        ) by {
            if k < front.len() {
                assert(all[k] == front[k]);
            } else {
                assert forall|var: Seq<char>| #[trigger]
                    comparison.vars().contains(var) implies vars.to_set().contains(var) by {
                    assert(vars.contains(var));
                }
            }
        }
        if all_comparisons_hold(comparisons(rule.rhs), valuation) {
            assert forall|k: int| 0 <= k < all.len() implies predicate_holds(
                db,
                #[trigger] all[k],
                valuation,
            ) by {
                if k < front.len() {
                    assert(all[k] == front[k]);
                } else {
                    assert(comparison_holds(valuation, comparisons(rule.rhs)[upto - 1]));
                }
            }
        }
    }
}

proof fn lemma_neighbours(
    rule: FLRuleModel,
    atoms: Seq<AtomModel>,
    ids: Seq<usize>,
    vars: Seq<Seq<char>>,
    db: Database,
    valuation: Valuation,
)
    ensures
        are_within(neighbours(rule, atoms, ids, vars), vars.to_set()),
        (forall|k: int|
            0 <= k < ids.len() ==> atom_holds(db, atoms[#[trigger] ids[k] as int], valuation))
            ==> all_hold_in(db, neighbours(rule, atoms, ids, vars), valuation),
    decreases ids.len(),
{
    if ids.len() > 0 {
        let shorter = ids.drop_last();
        let front = neighbours(rule, atoms, shorter, vars);
        let all = neighbours(rule, atoms, ids, vars);
        let atom = atoms[ids.last() as int];
        lemma_neighbours(rule, atoms, shorter, vars, db, valuation);
        assert forall|k: int| 0 <= k < all.len() implies is_predicate_within(
            #[trigger] all[k],
            vars.to_set(),
        ) by {
            if k < front.len() {
                assert(all[k] == front[k]);
            } else {
                let arguments = narrowed(atom, vars).arguments;
                assert forall|var: Seq<char>|
                    #[trigger] arguments.contains(
                        AtomArgModel::Var(var),
                    ) implies vars.to_set().contains(var) by {
                    let i = arguments.index_of(AtomArgModel::Var(var));
                    assert(arguments[i] == AtomArgModel::Var(var));
                }
            }
        }
        if forall|k: int|
            0 <= k < ids.len() ==> atom_holds(db, atoms[#[trigger] ids[k] as int], valuation) {
            assert forall|k: int| 0 <= k < shorter.len() implies atom_holds(
                db,
                atoms[#[trigger] shorter[k] as int],
                valuation,
            ) by {
                assert(shorter[k] == ids[k]);
            }
            assert(atom_holds(db, atoms[ids[ids.len() - 1] as int], valuation));
            lemma_narrowed_holds(db, atom, vars, valuation);
            assert forall|k: int| 0 <= k < all.len() implies predicate_holds(
                db,
                #[trigger] all[k],
                valuation,
            ) by {
                if k < front.len() {
                    assert(all[k] == front[k]);
                }
            }
        }
    }
}

/// Whether what stands of a rule that is being rewritten holds.
spec fn state_holds(
    db: Database,
    rule: FLRuleModel,
    state: SidewaysModel,
    valuation: Valuation,
) -> bool {
    &&& forall|i: int|
        0 <= i < state.atoms.len() && (is_core(rule, i) || state.open_subs[i]) ==> atom_holds(
            db,
            #[trigger] state.atoms[i],
            valuation,
        )
    &&& forall|j: int|
        0 <= j < state.open_negated.len() && state.open_negated[j] ==> !atom_holds(
            db,
            #[trigger] atoms_of(rule, false)[j],
            valuation,
        )
    &&& all_comparisons_hold(comparisons(rule.rhs), valuation)
}

/// Whether the atoms of a rule that is being rewritten have the variables that they
/// had.
spec fn is_kept_state(rule: FLRuleModel, state: SidewaysModel) -> bool {
    &&& state.atoms.len() == atoms_of(rule, true).len()
    &&& state.open_subs.len() == state.atoms.len()
    &&& state.open_negated.len() == atoms_of(rule, false).len()
    &&& forall|i: int, var: Seq<char>|
        0 <= i < state.atoms.len() ==> (#[trigger] state.atoms[i].arguments.contains(
            AtomArgModel::Var(var),
        ) <==> atom_strs(rule, true, i).contains(var))
}

/// The body of the rule for an atom that is reduced.
spec fn reduction_body(
    rule: FLRuleModel,
    order: Seq<usize>,
    i: int,
    state: SidewaysModel,
) -> Seq<PredicateModel> {
    let id = order[i] as int;
    let strs = atom_strs(rule, true, id);
    let vars = distinct(strs);
    let subs = take_open(sub_atom_ids(rule, strs, atoms_of(rule, true).len()), state.open_subs);
    let negated = take_open(
        sub_negated_ids(rule, strs, atoms_of(rule, false).len()),
        state.open_negated,
    );
    seq![PredicateModel::AtomPredicate(state.atoms[id])] + positive_predicates(state.atoms, subs.0)
        + negated_predicates(atoms_of(rule, false), negated.0) + met_comparisons(
        rule,
        vars,
        comparisons(rule.rhs).len(),
    ) + neighbours(rule, state.atoms, order.take(i), vars)
}

/// The body of the rule for an atom that is reduced, part by part.
proof fn lemma_reduction_body(
    db: Database,
    rule: FLRuleModel,
    order: Seq<usize>,
    i: int,
    state: SidewaysModel,
    valuation: Valuation,
)
    requires
        are_positions_small(rule),
        0 <= i < order.len(),
        forall|k: int|
            0 <= k < order.len() ==> (#[trigger] order[k]) < atoms_of(rule, true).len() && is_core(
                rule,
                order[k] as int,
            ),
        is_kept_state(rule, state),
    ensures
        ({
            let id = order[i] as int;
            let strs = atom_strs(rule, true, id);
            let body = reduction_body(rule, order, i, state);
            let subs = take_open(
                sub_atom_ids(rule, strs, atoms_of(rule, true).len()),
                state.open_subs,
            );
            let negated = take_open(
                sub_negated_ids(rule, strs, atoms_of(rule, false).len()),
                state.open_negated,
            );
            &&& are_within(body, distinct(strs).to_set())
            &&& state_holds(db, rule, state, valuation) ==> all_hold_in(db, body, valuation)
            &&& all_hold_in(db, body, valuation) ==> {
                &&& atom_holds(db, state.atoms[id], valuation)
                &&& forall|j: int|
                    0 <= j < state.open_subs.len() && state.open_subs[j] && !subs.1[j]
                        ==> atom_holds(db, #[trigger] state.atoms[j], valuation)
                &&& forall|j: int|
                    0 <= j < state.open_negated.len() && state.open_negated[j] && !negated.1[j]
                        ==> !atom_holds(db, #[trigger] atoms_of(rule, false)[j], valuation)
            }
            &&& shrinks(state.open_subs, subs.1)
            &&& shrinks(state.open_negated, negated.1)
            &&& body.len() == 1 ==> subs.1 == state.open_subs && negated.1 == state.open_negated
        }),
{
    let id = order[i] as int;
    let strs = atom_strs(rule, true, id);
    let vars = distinct(strs);
    let all = vars.to_set();
    let n = atoms_of(rule, true).len();
    let m = atoms_of(rule, false).len();
    let (subs, subs_left) = take_open(sub_atom_ids(rule, strs, n), state.open_subs);
    let (negated, negated_left) = take_open(sub_negated_ids(rule, strs, m), state.open_negated);
    lemma_distinct(strs);
    lemma_sub_atoms(rule, strs, n);
    lemma_sub_negated(rule, strs, m);
    lemma_taken_set(rule, sub_atom_ids(rule, strs, n), state.open_subs, true);
    lemma_taken_set(rule, sub_negated_ids(rule, strs, m), state.open_negated, false);
    let first = seq![PredicateModel::AtomPredicate(state.atoms[id])];
    let second = positive_predicates(state.atoms, subs);
    let third = negated_predicates(atoms_of(rule, false), negated);
    let fourth = met_comparisons(rule, vars, comparisons(rule.rhs).len());
    let fifth = neighbours(rule, state.atoms, order.take(i), vars);
    let body = reduction_body(rule, order, i, state);
    assert(order[i] < n);
    assert(are_within(first, all)) by {
        assert forall|var: Seq<char>|
            #[trigger] state.atoms[id].arguments.contains(
                AtomArgModel::Var(var),
            ) implies all.contains(var) by {
            assert(strs.contains(var));
            assert(vars.contains(var));
        }
    }
    assert forall|k: int| 0 <= k < subs.len() implies subs[k].is_positive && (
    #[trigger] subs[k]).rhs_id < n && state.open_subs[subs[k].rhs_id as int] && subset(
        atom_strs(rule, true, subs[k].rhs_id as int),
        strs,
    ) by {
        assert(subs.contains(subs[k]));
        assert(subs.to_set().contains(subs[k]));
        assert(consumed(state.open_subs, subs_left, true).contains(subs[k]));
        lemma_sub_vars(rule, strs, n, subs[k]);
    }
    assert forall|k: int| 0 <= k < negated.len() implies !negated[k].is_positive && (
    #[trigger] negated[k]).rhs_id < m && state.open_negated[negated[k].rhs_id as int] && subset(
        atom_strs(rule, false, negated[k].rhs_id as int),
        strs,
    ) by {
        assert(negated.contains(negated[k]));
        assert(negated.to_set().contains(negated[k]));
        assert(consumed(state.open_negated, negated_left, false).contains(negated[k]));
        lemma_negated_vars(rule, strs, m, negated[k]);
    }
    assert(are_within(second, all)) by {
        assert forall|k: int| 0 <= k < second.len() implies is_predicate_within(
            #[trigger] second[k],
            all,
        ) by {
            let j = subs[k].rhs_id as int;
            assert forall|var: Seq<char>|
                #[trigger] state.atoms[j].arguments.contains(
                    AtomArgModel::Var(var),
                ) implies all.contains(var) by {
                assert(atom_strs(rule, true, j).contains(var));
                assert(strs.contains(var));
                assert(vars.contains(var));
            }
        }
    }
    assert(are_within(third, all)) by {
        assert forall|k: int| 0 <= k < third.len() implies is_predicate_within(
            #[trigger] third[k],
            all,
        ) by {
            let j = negated[k].rhs_id as int;
            assert forall|var: Seq<char>|
                #[trigger] atoms_of(rule, false)[j].arguments.contains(
                    AtomArgModel::Var(var),
                ) implies all.contains(var) by {
                assert(atoms_of(rule, false)[j].arguments.len() <= usize::MAX);
                lemma_atom_strs(rule, false, j, var);
                assert(atom_strs(rule, false, j).contains(var));
                assert(strs.contains(var));
                assert(vars.contains(var));
            }
        }
    }
    lemma_met(rule, vars, comparisons(rule.rhs).len(), db, valuation);
    lemma_neighbours(rule, state.atoms, order.take(i), vars, db, valuation);
    lemma_within_both(first, second, all);
    lemma_within_both(first + second, third, all);
    lemma_within_both(first + second + third, fourth, all);
    lemma_within_both(first + second + third + fourth, fifth, all);
    lemma_hold_in_both(db, first, second, valuation);
    lemma_hold_in_both(db, first + second, third, valuation);
    lemma_hold_in_both(db, first + second + third, fourth, valuation);
    lemma_hold_in_both(db, first + second + third + fourth, fifth, valuation);
    if state_holds(db, rule, state, valuation) {
        assert(is_core(rule, order[i] as int));
        assert(all_hold_in(db, first, valuation));
        assert(all_hold_in(db, second, valuation)) by {
            assert forall|k: int| 0 <= k < second.len() implies predicate_holds(
                db,
                #[trigger] second[k],
                valuation,
            ) by {
                assert(state.open_subs[subs[k].rhs_id as int]);
                assert(atom_holds(db, state.atoms[subs[k].rhs_id as int], valuation));
            }
        }
        assert(all_hold_in(db, third, valuation)) by {
            assert forall|k: int| 0 <= k < third.len() implies predicate_holds(
                db,
                #[trigger] third[k],
                valuation,
            ) by {
                assert(state.open_negated[negated[k].rhs_id as int]);
                assert(!atom_holds(
                    db,
                    atoms_of(rule, false)[negated[k].rhs_id as int],
                    valuation,
                ));
            }
        }
        let before = order.take(i);
        assert forall|k: int| 0 <= k < before.len() implies atom_holds(
            db,
            state.atoms[#[trigger] before[k] as int],
            valuation,
        ) by {
            assert(before[k] == order[k]);
            assert(is_core(rule, order[k] as int));
        }
    }
    if all_hold_in(db, body, valuation) {
        assert(predicate_holds(db, first[0], valuation));
        assert forall|j: int|
            0 <= j < state.open_subs.len() && state.open_subs[j]
                && !subs_left[j] implies atom_holds(db, #[trigger] state.atoms[j], valuation) by {
            let atom = AtomSignature { is_positive: true, rhs_id: j as usize };
            assert(consumed(state.open_subs, subs_left, true).contains(atom));
            assert(subs.to_set().contains(atom));
            let k = subs.index_of(atom);
            assert(predicate_holds(db, second[k], valuation));
        }
        assert forall|j: int|
            0 <= j < state.open_negated.len() && state.open_negated[j]
                && !negated_left[j] implies !atom_holds(
            db,
            #[trigger] atoms_of(rule, false)[j],
            valuation,
        ) by {
            let atom = AtomSignature { is_positive: false, rhs_id: j as usize };
            assert(consumed(state.open_negated, negated_left, false).contains(atom));
            assert(negated.to_set().contains(atom));
            let k = negated.index_of(atom);
            assert(predicate_holds(db, third[k], valuation));
        }
    }
    if body.len() == 1 {
        assert(second.len() == 0 && third.len() == 0);
        assert forall|j: int| 0 <= j < state.open_subs.len() implies subs_left[j]
            == state.open_subs[j] by {
            if state.open_subs[j] && !subs_left[j] {
                let atom = AtomSignature { is_positive: true, rhs_id: j as usize };
                assert(consumed(state.open_subs, subs_left, true).contains(atom));
                assert(subs.to_set().contains(atom));
            }
        }
        assert(subs_left =~= state.open_subs);
        assert forall|j: int| 0 <= j < state.open_negated.len() implies negated_left[j]
            == state.open_negated[j] by {
            if state.open_negated[j] && !negated_left[j] {
                let atom = AtomSignature { is_positive: false, rhs_id: j as usize };
                assert(consumed(state.open_negated, negated_left, false).contains(atom));
                assert(negated.to_set().contains(atom));
            }
        }
        assert(negated_left =~= state.open_negated);
    }
}

/// Whether an order holds core atoms of a rule.
spec fn is_core_order(rule: FLRuleModel, order: Seq<usize>) -> bool {
    forall|k: int|
        0 <= k < order.len() ==> (#[trigger] order[k]) < atoms_of(rule, true).len() && is_core(
            rule,
            order[k] as int,
        )
}

/// Reducing an atom keeps what the rule says, where the new relation holds what the
/// rule for it says.
proof fn lemma_reduce_one_holds(
    db: Database,
    rule: FLRuleModel,
    suffix: Seq<char>,
    order: Seq<usize>,
    i: int,
    state: SidewaysModel,
    valuation: Valuation,
)
    requires
        are_positions_small(rule),
        0 <= i < order.len(),
        is_core_order(rule, order),
        is_kept_state(rule, state),
        is_closed(db, reduce_one(rule, suffix, order, i, state).rules),
    ensures
        is_kept_state(rule, reduce_one(rule, suffix, order, i, state)),
        state_holds(db, rule, reduce_one(rule, suffix, order, i, state), valuation) <==> state_holds(
            db,
            rule,
            state,
            valuation,
        ),
        state.rules.is_prefix_of(reduce_one(rule, suffix, order, i, state).rules),
{
    let after = reduce_one(rule, suffix, order, i, state);
    let id = order[i] as int;
    let strs = atom_strs(rule, true, id);
    let vars = distinct(strs);
    let body = reduction_body(rule, order, i, state);
    lemma_reduction_body(db, rule, order, i, state, valuation);
    if body.len() == 1 {
        assert(after =~= state);
    } else {
        let made = after.rules.last();
        assert(made == after.rules[after.rules.len() - 1]);
        assert(made.rhs == body);
        assert forall|row: Seq<i64>| #[trigger]
            db(made.head.name, row) <==> is_answer(db, made, row) by {
            assert(db(after.rules[after.rules.len() - 1].head.name, row) <==> is_answer(
                db,
                after.rules[after.rules.len() - 1],
                row,
            ));
        }
        lemma_defined_atom(db, made, vars, valuation);
        lemma_kept_atom(rule, state, after, id, vars);
        assert(atom_holds(db, after.atoms[id], valuation) <==> all_hold_in(db, body, valuation));
        if state_holds(db, rule, state, valuation) {
            assert(all_hold_in(db, body, valuation));
            assert forall|j: int|
                0 <= j < after.atoms.len() && (is_core(rule, j)
                    || after.open_subs[j]) implies atom_holds(
                db,
                #[trigger] after.atoms[j],
                valuation,
            ) by {
                if j != id {
                    assert(after.atoms[j] == state.atoms[j]);
                }
            }
            assert forall|j: int|
                0 <= j < after.open_negated.len() && after.open_negated[j] implies !atom_holds(
                db,
                #[trigger] atoms_of(rule, false)[j],
                valuation,
            ) by {
                assert(state.open_negated[j]);
            }
        }
        if state_holds(db, rule, after, valuation) {
            assert(is_core(rule, order[i] as int));
            assert(atom_holds(db, after.atoms[id], valuation));
            assert forall|j: int|
                0 <= j < state.atoms.len() && (is_core(rule, j)
                    || state.open_subs[j]) implies atom_holds(
                db,
                #[trigger] state.atoms[j],
                valuation,
            ) by {
                if j != id {
                    assert(after.atoms[j] == state.atoms[j]);
                }
            }
            assert forall|j: int|
                0 <= j < state.open_negated.len() && state.open_negated[j] implies !atom_holds(
                db,
                #[trigger] atoms_of(rule, false)[j],
                valuation,
            ) by {
                if after.open_negated[j] {
                }
            }
        }
    }
}

/// An atom that is reduced has the variables that it had.
proof fn lemma_kept_atom(
    rule: FLRuleModel,
    state: SidewaysModel,
    after: SidewaysModel,
    id: int,
    vars: Seq<Seq<char>>,
)
    requires
        is_kept_state(rule, state),
        0 <= id < state.atoms.len(),
        vars == distinct(atom_strs(rule, true, id)),
        after.atoms == state.atoms.update(id, after.atoms[id]),
        after.atoms[id].arguments == vars.map_values(|v: Seq<char>| AtomArgModel::Var(v)),
        after.open_subs.len() == state.open_subs.len(),
        after.open_negated.len() == state.open_negated.len(),
    ensures
        is_kept_state(rule, after),
{
    let arguments = after.atoms[id].arguments;
    lemma_distinct(atom_strs(rule, true, id));
    assert forall|i: int, var: Seq<char>| 0 <= i < after.atoms.len() implies (
    #[trigger] after.atoms[i].arguments.contains(AtomArgModel::Var(var)) <==> atom_strs(
        rule,
        true,
        i,
    ).contains(var)) by {
        if i == id {
            if arguments.contains(AtomArgModel::Var(var)) {
                let k = arguments.index_of(AtomArgModel::Var(var));
                assert(arguments[k] == AtomArgModel::Var(vars[k]));
                assert(vars.contains(var));
            }
            if vars.contains(var) {
                let k = vars.index_of(var);
                assert(arguments[k] == AtomArgModel::Var(var));
            }
        } else {
            assert(after.atoms[i] == state.atoms[i]);
        }
    }
}

/// Reducing atoms one after the other keeps what the rule says.
proof fn lemma_reduce_holds(
    db: Database,
    rule: FLRuleModel,
    suffix: Seq<char>,
    order: Seq<usize>,
    upto: nat,
    state: SidewaysModel,
    valuation: Valuation,
)
    requires
        are_positions_small(rule),
        upto <= order.len(),
        is_core_order(rule, order),
        is_kept_state(rule, state),
        is_closed(db, reduce(rule, suffix, order, upto, state).rules),
    ensures
        is_kept_state(rule, reduce(rule, suffix, order, upto, state)),
        state_holds(db, rule, reduce(rule, suffix, order, upto, state), valuation) <==> state_holds(
            db,
            rule,
            state,
            valuation,
        ),
        state.rules.is_prefix_of(reduce(rule, suffix, order, upto, state).rules),
    decreases upto,
{
    if upto > 0 {
        let before = reduce(rule, suffix, order, (upto - 1) as nat, state);
        let after = reduce(rule, suffix, order, upto, state);
        assert(before.rules.is_prefix_of(after.rules));
        lemma_closed_prefix(db, before.rules, after.rules);
        lemma_reduce_holds(db, rule, suffix, order, (upto - 1) as nat, state, valuation);
        lemma_reduce_one_holds(db, rule, suffix, order, upto - 1, before, valuation);
    }
}

proof fn lemma_closed_prefix(db: Database, some: Seq<FLRuleModel>, all: Seq<FLRuleModel>)
    requires
        some.is_prefix_of(all),
        is_closed(db, all),
    ensures
        is_closed(db, some),
{
    assert forall|k: int, row: Seq<i64>| 0 <= k < some.len() implies (#[trigger] db(
        some[k].head.name,
        row,
    ) <==> is_answer(db, some[k], row)) by {
        assert(some[k] == all[k]);
        assert(db(all[k].head.name, row) <==> is_answer(db, all[k], row));
    }
}

proof fn lemma_marked_hold(
    db: Database,
    items: Seq<AtomModel>,
    marks: Seq<bool>,
    valuation: Valuation,
)
    requires
        items.len() <= marks.len(),
    ensures
        all_hold_in(
            db,
            marked_items(items, marks).map_values(
                |a: AtomModel| PredicateModel::AtomPredicate(a),
            ),
            valuation,
        ) <==> forall|i: int|
            0 <= i < items.len() && marks[i] ==> atom_holds(db, #[trigger] items[i], valuation),
        all_hold_in(
            db,
            marked_items(items, marks).map_values(
                |a: AtomModel| PredicateModel::NegatedAtomPredicate(a),
            ),
            valuation,
        ) <==> forall|i: int|
            0 <= i < items.len() && marks[i] ==> !atom_holds(db, #[trigger] items[i], valuation),
    decreases items.len(),
{
    let kept = marked_items(items, marks);
    let positive = kept.map_values(|a: AtomModel| PredicateModel::AtomPredicate(a));
    let negated = kept.map_values(|a: AtomModel| PredicateModel::NegatedAtomPredicate(a));
    if items.len() > 0 {
        let front = items.drop_last();
        let last = items[items.len() - 1];
        let kept_front = marked_items(front, marks);
        let positive_front = kept_front.map_values(
            |a: AtomModel| PredicateModel::AtomPredicate(a),
        );
        let negated_front = kept_front.map_values(
            |a: AtomModel| PredicateModel::NegatedAtomPredicate(a),
        );
        lemma_marked_hold(db, front, marks, valuation);
        assert forall|i: int| 0 <= i < front.len() implies #[trigger] front[i] == items[i] by {}
        if marks[items.len() - 1] {
            let one = seq![PredicateModel::AtomPredicate(last)];
            let other = seq![PredicateModel::NegatedAtomPredicate(last)];
            assert(positive =~= positive_front + one);
            assert(negated =~= negated_front + other);
            lemma_hold_in_both(db, positive_front, one, valuation);
            lemma_hold_in_both(db, negated_front, other, valuation);
            assert(all_hold_in(db, one, valuation) <==> atom_holds(db, last, valuation)) by {
                assert(one[0] == PredicateModel::AtomPredicate(last));
                if all_hold_in(db, one, valuation) {
                    assert(predicate_holds(db, one[0], valuation));
                }
            }
            assert(all_hold_in(db, other, valuation) <==> !atom_holds(db, last, valuation)) by {
                assert(other[0] == PredicateModel::NegatedAtomPredicate(last));
                if all_hold_in(db, other, valuation) {
                    assert(predicate_holds(db, other[0], valuation));
                }
            }
        } else {
            assert(positive =~= positive_front);
            assert(negated =~= negated_front);
        }
        if forall|i: int|
            0 <= i < items.len() && marks[i] ==> atom_holds(db, #[trigger] items[i], valuation) {
            assert forall|i: int| 0 <= i < front.len() && marks[i] implies atom_holds(
                db,
                #[trigger] front[i],
                valuation,
            ) by {
                assert(front[i] == items[i]);
            }
        }
        if forall|i: int|
            0 <= i < items.len() && marks[i] ==> !atom_holds(db, #[trigger] items[i], valuation) {
            assert forall|i: int| 0 <= i < front.len() && marks[i] implies !atom_holds(
                db,
                #[trigger] front[i],
                valuation,
            ) by {
                assert(front[i] == items[i]);
            }
        }
        if (forall|i: int|
            0 <= i < front.len() && marks[i] ==> atom_holds(db, #[trigger] front[i], valuation))
            && (marks[items.len() - 1] ==> atom_holds(db, last, valuation)) {
            assert forall|i: int| 0 <= i < items.len() && marks[i] implies atom_holds(
                db,
                #[trigger] items[i],
                valuation,
            ) by {
                if i < front.len() {
                    assert(front[i] == items[i]);
                }
            }
        }
        if (forall|i: int|
            0 <= i < front.len() && marks[i] ==> !atom_holds(db, #[trigger] front[i], valuation))
            && (marks[items.len() - 1] ==> !atom_holds(db, last, valuation)) {
            assert forall|i: int| 0 <= i < items.len() && marks[i] implies !atom_holds(
                db,
                #[trigger] items[i],
                valuation,
            ) by {
                if i < front.len() {
                    assert(front[i] == items[i]);
                }
            }
        }
    } else {
        assert(positive.len() == 0);
        assert(negated.len() == 0);
    }
}

/// The rule that is left holds where what stands of the rule does.
proof fn lemma_final_rule(
    db: Database,
    rule: FLRuleModel,
    state: SidewaysModel,
    valuation: Valuation,
)
    requires
        is_kept_state(rule, state),
        none_open(state.open_subs),
    ensures
        satisfies(db, final_rule(rule, state), valuation) <==> state_holds(
            db,
            rule,
            state,
            valuation,
        ),
{
    let made = final_rule(rule, state);
    let marks = Seq::new(atoms_of(rule, true).len(), |i: int| is_core(rule, i));
    let first = marked_items(state.atoms, marks).map_values(
        |a: AtomModel| PredicateModel::AtomPredicate(a),
    );
    let second = marked_items(atoms_of(rule, false), state.open_negated).map_values(
        |a: AtomModel| PredicateModel::NegatedAtomPredicate(a),
    );
    let list = comparisons(rule.rhs);
    let third = list.map_values(|c: ComparisonExprModel| PredicateModel::ComparePredicate(c));
    assert(made.rhs == first + second + third);
    lemma_satisfies(db, made, valuation);
    lemma_hold_in_both(db, first, second, valuation);
    lemma_hold_in_both(db, first + second, third, valuation);
    lemma_marked_hold(db, state.atoms, marks, valuation);
    lemma_marked_hold(db, atoms_of(rule, false), state.open_negated, valuation);
    assert(all_hold_in(db, third, valuation) <==> all_comparisons_hold(list, valuation)) by {
        if all_hold_in(db, third, valuation) {
            assert forall|i: int| 0 <= i < list.len() implies comparison_holds(
                valuation,
                #[trigger] list[i],
            ) by {
                assert(predicate_holds(db, third[i], valuation));
            }
        }
        if all_comparisons_hold(list, valuation) {
            assert forall|i: int| 0 <= i < third.len() implies predicate_holds(
                db,
                #[trigger] third[i],
                valuation,
            ) by {
                assert(comparison_holds(valuation, list[i]));
            }
        }
    }
    if all_hold_in(db, first, valuation) {
        assert forall|i: int|
            0 <= i < state.atoms.len() && (is_core(rule, i)
                || state.open_subs[i]) implies atom_holds(
            db,
            #[trigger] state.atoms[i],
            valuation,
        ) by {
            assert(!state.open_subs[i]);
            assert(marks[i]);
        }
    }
    if state_holds(db, rule, state, valuation) {
        assert forall|i: int| 0 <= i < state.atoms.len() && marks[i] implies atom_holds(
            db,
            #[trigger] state.atoms[i],
            valuation,
        ) by {
            assert(is_core(rule, i));
        }
    }
}

/// What stands before anything is rewritten holds where the rule is satisfied.
proof fn lemma_unreduced_holds(db: Database, rule: FLRuleModel, valuation: Valuation)
    requires
        are_positions_small(rule),
    ensures
        is_kept_state(rule, unreduced(rule)),
        state_holds(db, rule, unreduced(rule), valuation) <==> satisfies(db, rule, valuation),
{
    let state = unreduced(rule);
    assert forall|i: int, var: Seq<char>| 0 <= i < state.atoms.len() implies (
    #[trigger] state.atoms[i].arguments.contains(AtomArgModel::Var(var)) <==> atom_strs(
        rule,
        true,
        i,
    ).contains(var)) by {
        assert(atoms_of(rule, true)[i].arguments.len() <= usize::MAX);
        lemma_atom_strs(rule, true, i, var);
    }
    if state_holds(db, rule, state, valuation) {
        assert forall|i: int| 0 <= i < atoms_of(rule, true).len() implies atom_holds(
            db,
            #[trigger] atoms_of(rule, true)[i],
            valuation,
        ) by {
            assert(state.atoms[i] == atoms_of(rule, true)[i]);
            assert(is_core(rule, i) || state.open_subs[i]);
        }
        assert forall|j: int| 0 <= j < atoms_of(rule, false).len() implies !atom_holds(
            db,
            #[trigger] atoms_of(rule, false)[j],
            valuation,
        ) by {
            assert(state.open_negated[j]);
        }
    }
}

/// The rules that a rule is rewritten into say what the rule says, where the
/// relations that were made on the way hold what the rules for them say.
pub proof fn law_rewriting_keeps_answers(
    db: Database,
    rule: FLRuleModel,
    rule_loc: usize,
    row: Seq<i64>,
)
    requires
        are_positions_small(rule),
        is_closed(db, sideways_rules(rule, rule_loc).drop_last()),
    ensures
        is_answer(db, sideways_rules(rule, rule_loc).last(), row) <==> is_answer(db, rule, row),
{
    let state = reduced_both(rule, rule_loc);
    let forward = reduced_forward(rule, rule_loc);
    let order = core_ids(rule);
    let back = order.reverse();
    let made = final_rule(rule, state);
    let n = atoms_of(rule, true).len();
    assert(sideways_rules(rule, rule_loc).drop_last() =~= state.rules);
    law_sideways_uses_all(rule, rule_loc);
    lemma_core_below(rule, n);
    assert forall|k: int| 0 <= k < order.len() implies (#[trigger] order[k]) < n && is_core(
        rule,
        order[k] as int,
    ) by {
        assert(order.contains(order[k]));
    }
    assert forall|k: int| 0 <= k < back.len() implies (#[trigger] back[k]) < n && is_core(
        rule,
        back[k] as int,
    ) by {
        assert(back[k] == order[order.len() - 1 - k]);
    }
    assert forall|valuation: Valuation| #[trigger] satisfies(db, made, valuation) <==> satisfies(
        db,
        rule,
        valuation,
    ) by {
        lemma_rewritten_holds(db, rule, rule_loc, valuation);
        lemma_final_rule(db, rule, state, valuation);
    }
    assert(made.head == rule.head);
    assert(sideways_rules(rule, rule_loc).last() == made);
    if is_answer(db, made, row) {
        let valuation = choose|valuation: Valuation| #[trigger]
            satisfies(db, made, valuation) && is_head_row(
                valuation,
                made.head.head_arguments,
                row,
            );
        assert(satisfies(db, rule, valuation));
        assert(is_answer(db, rule, row));
    }
    if is_answer(db, rule, row) {
        let valuation = choose|valuation: Valuation| #[trigger]
            satisfies(db, rule, valuation) && is_head_row(
                valuation,
                rule.head.head_arguments,
                row,
            );
        assert(satisfies(db, made, valuation));
        assert(is_answer(db, made, row));
    }
}

proof fn lemma_rewritten_holds(
    db: Database,
    rule: FLRuleModel,
    rule_loc: usize,
    valuation: Valuation,
)
    requires
        are_positions_small(rule),
        is_closed(db, reduced_both(rule, rule_loc).rules),
        is_core_order(rule, core_ids(rule)),
        is_core_order(rule, core_ids(rule).reverse()),
    ensures
        is_kept_state(rule, reduced_both(rule, rule_loc)),
        state_holds(db, rule, reduced_both(rule, rule_loc), valuation) <==> satisfies(
            db,
            rule,
            valuation,
        ),
{
    let state = reduced_both(rule, rule_loc);
    let forward = reduced_forward(rule, rule_loc);
    let order = core_ids(rule);
    let back = order.reverse();
    lemma_unreduced_holds(db, rule, valuation);
    lemma_rules_grow(rule, backward_suffix(rule_loc), back, back.len(), forward);
    lemma_closed_prefix(db, forward.rules, state.rules);
    lemma_reduce_holds(
        db,
        rule,
        forward_suffix(rule_loc),
        order,
        order.len(),
        unreduced(rule),
        valuation,
    );
    lemma_reduce_holds(
        db,
        rule,
        backward_suffix(rule_loc),
        back,
        back.len(),
        forward,
        valuation,
    );
}

proof fn lemma_rules_grow(
    rule: FLRuleModel,
    suffix: Seq<char>,
    order: Seq<usize>,
    upto: nat,
    state: SidewaysModel,
)
    ensures
        state.rules.is_prefix_of(reduce(rule, suffix, order, upto, state).rules),
    decreases upto,
{
    if upto > 0 {
        lemma_rules_grow(rule, suffix, order, (upto - 1) as nat, state);
    }
}

} // verus!
