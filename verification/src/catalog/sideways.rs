//! Rewriting a rule into rules that hand on sideways what has been found.
use vstd::prelude::*;
use vstd::string::*;
use crate::catalog::atoms::{AtomArgumentSignature, AtomSignature};
use crate::catalog::body::{
    are_positions_small, atom_positions, atoms_of, comparisons, is_safe, negated_atoms, occurs,
    position, positive_atoms, split_body, var_of,
};
use crate::catalog::cores::{core_atoms, core_ids, law_core_atoms_cover, lemma_core_below};
use crate::catalog::open::{
    lemma_sub_atoms, lemma_sub_negated, lemma_take_open, none_open, take_open, take_open_atoms,
};
use crate::catalog::query::{lemma_subset_distinct, sub_atom_ids, sub_negated_ids};
use crate::catalog::rule::{all_in, atom_strs, distinct_texts, is_core, strs_of, subset, Catalog};
use crate::lists::{contains_same, empty, extend, group_take, push};
use crate::parsing::arithmetic::{distinct, lemma_distinct};
use crate::parsing::compare::{ComparisonExpr, ComparisonExprModel};
use crate::parsing::head::{Head, HeadArg, HeadArgModel, HeadModel};
use crate::parsing::rule::{
    Atom, AtomArg, AtomArgModel, AtomModel, FLRule, FLRuleModel, Predicate, PredicateModel,
};
use crate::text::{nat_text, usize_to_text};

verus! {

/// How far a rule has been rewritten: the positive atoms as they stand now, which
/// atoms still wait to be used, and the rules made so far.
#[verifier::ext_equal]
pub struct SidewaysModel {
    pub atoms: Seq<AtomModel>,
    pub open_subs: Seq<bool>,
    pub open_negated: Seq<bool>,
    pub rules: Seq<FLRuleModel>,
}

/// An atom with the variables that are not among `vars` left open.
pub open spec fn narrowed(atom: AtomModel, vars: Seq<Seq<char>>) -> AtomModel {
    AtomModel {
        name: atom.name,
        arguments: Seq::new(
            atom.arguments.len(),
            |k: int|
                match atom.arguments[k] {
                    AtomArgModel::Var(var) if !vars.contains(var) => AtomArgModel::Placeholder,
                    other => other,
                },
        ),
    }
}

/// Whether two lists have an item in common.
pub open spec fn shares(a: Seq<Seq<char>>, b: Seq<Seq<char>>) -> bool {
    exists|x: Seq<char>| #[trigger] a.contains(x) && b.contains(x)
}

/// The given atoms that have a variable among `vars`, narrowed to these.
pub open spec fn neighbours(
    rule: FLRuleModel,
    atoms: Seq<AtomModel>,
    ids: Seq<usize>,
    vars: Seq<Seq<char>>,
) -> Seq<PredicateModel>
    decreases ids.len(),
{
    if ids.len() == 0 {
        Seq::empty()
    } else {
        let front = neighbours(rule, atoms, ids.drop_last(), vars);
        let id = ids.last() as int;
        if shares(atom_strs(rule, true, id), vars) {
            front.push(PredicateModel::AtomPredicate(narrowed(atoms[id], vars)))
        } else {
            front
        }
    }
}

/// The first `upto` comparisons of a rule that have no variables but `vars`.
pub open spec fn met_comparisons(rule: FLRuleModel, vars: Seq<Seq<char>>, upto: nat) -> Seq<
    PredicateModel,
>
    decreases upto,
{
    if upto == 0 {
        Seq::empty()
    } else {
        let front = met_comparisons(rule, vars, (upto - 1) as nat);
        let comparison = comparisons(rule.rhs)[upto - 1];
        if subset(comparison.vars(), vars) {
            front.push(PredicateModel::ComparePredicate(comparison))
        } else {
            front
        }
    }
}

pub open spec fn positive_predicates(atoms: Seq<AtomModel>, taken: Seq<AtomSignature>) -> Seq<
    PredicateModel,
> {
    Seq::new(
        taken.len(),
        |k: int| PredicateModel::AtomPredicate(atoms[taken[k].rhs_id as int]),
    )
}

pub open spec fn negated_predicates(atoms: Seq<AtomModel>, taken: Seq<AtomSignature>) -> Seq<
    PredicateModel,
> {
    Seq::new(
        taken.len(),
        |k: int| PredicateModel::NegatedAtomPredicate(atoms[taken[k].rhs_id as int]),
    )
}

/// The relation of an atom after its reduction.
pub open spec fn reduced_name(name: Seq<char>, suffix: Seq<char>, i: int) -> Seq<char> {
    name + "_"@ + suffix + nat_text(i as nat)
}

/// Reduces the atom that comes `i`-th in the order: a new relation holds what is
/// left of it after the filters that fit it and after the atoms before it in the
/// order. Where there are none the atom stays as it is.
pub open spec fn reduce_one(
    rule: FLRuleModel,
    suffix: Seq<char>,
    order: Seq<usize>,
    i: int,
    state: SidewaysModel,
) -> SidewaysModel {
    let id = order[i] as int;
    let strs = atom_strs(rule, true, id);
    let vars = distinct(strs);
    let subs = take_open(sub_atom_ids(rule, strs, atoms_of(rule, true).len()), state.open_subs);
    let negated = take_open(
        sub_negated_ids(rule, strs, atoms_of(rule, false).len()),
        state.open_negated,
    );
    let rhs = seq![PredicateModel::AtomPredicate(state.atoms[id])] + positive_predicates(
        state.atoms,
        subs.0,
    ) + negated_predicates(atoms_of(rule, false), negated.0) + met_comparisons(
        rule,
        vars,
        comparisons(rule.rhs).len(),
    ) + neighbours(rule, state.atoms, order.take(i), vars);
    let name = reduced_name(state.atoms[id].name, suffix, i);
    if rhs.len() == 1 {
        SidewaysModel { open_subs: subs.1, open_negated: negated.1, ..state }
    } else {
        SidewaysModel {
            atoms: state.atoms.update(
                id,
                AtomModel { name, arguments: vars.map_values(|v: Seq<char>| AtomArgModel::Var(v)) },
            ),
            open_subs: subs.1,
            open_negated: negated.1,
            rules: state.rules.push(
                FLRuleModel {
                    head: HeadModel {
                        name,
                        head_arguments: vars.map_values(|v: Seq<char>| HeadArgModel::Var(v)),
                    },
                    rhs,
                    is_planning: rule.is_planning,
                    is_sip: rule.is_sip,
                },
            ),
        }
    }
}

/// Reduces the first `upto` atoms of an order, one after the other.
pub open spec fn reduce(
    rule: FLRuleModel,
    suffix: Seq<char>,
    order: Seq<usize>,
    upto: nat,
    state: SidewaysModel,
) -> SidewaysModel
    decreases upto,
{
    if upto == 0 {
        state
    } else {
        reduce_one(
            rule,
            suffix,
            order,
            upto - 1,
            reduce(rule, suffix, order, (upto - 1) as nat, state),
        )
    }
}

/// What stands before anything is rewritten.
pub open spec fn unreduced(rule: FLRuleModel) -> SidewaysModel {
    SidewaysModel {
        atoms: atoms_of(rule, true),
        open_subs: Seq::new(atoms_of(rule, true).len(), |i: int| !is_core(rule, i)),
        open_negated: Seq::new(atoms_of(rule, false).len(), |i: int| true),
        rules: Seq::empty(),
    }
}

pub open spec fn forward_suffix(rule_loc: usize) -> Seq<char> {
    "sip"@ + nat_text(rule_loc as nat) + "f"@
}

pub open spec fn backward_suffix(rule_loc: usize) -> Seq<char> {
    "sip"@ + nat_text(rule_loc as nat) + "b"@
}

/// The core atoms reduced in order.
pub open spec fn reduced_forward(rule: FLRuleModel, rule_loc: usize) -> SidewaysModel {
    let order = core_ids(rule);
    reduce(rule, forward_suffix(rule_loc), order, order.len(), unreduced(rule))
}

/// The core atoms reduced in order, and then once more from the last to the first.
pub open spec fn reduced_both(rule: FLRuleModel, rule_loc: usize) -> SidewaysModel {
    let order = core_ids(rule).reverse();
    reduce(
        rule,
        backward_suffix(rule_loc),
        order,
        order.len(),
        reduced_forward(rule, rule_loc),
    )
}

/// The items at places that are marked.
pub open spec fn marked_items<A>(items: Seq<A>, marks: Seq<bool>) -> Seq<A>
    decreases items.len(),
{
    if items.len() == 0 {
        Seq::empty()
    } else {
        let front = marked_items(items.drop_last(), marks);
        if marks[items.len() - 1] {
            front.push(items.last())
        } else {
            front
        }
    }
}

/// The rule that is left after the reductions.
pub open spec fn final_rule(rule: FLRuleModel, state: SidewaysModel) -> FLRuleModel {
    let is_core_bitmap = Seq::new(atoms_of(rule, true).len(), |i: int| is_core(rule, i));
    FLRuleModel {
        head: rule.head,
        rhs: marked_items(state.atoms, is_core_bitmap).map_values(
            |a: AtomModel| PredicateModel::AtomPredicate(a),
        ) + marked_items(atoms_of(rule, false), state.open_negated).map_values(
            |a: AtomModel| PredicateModel::NegatedAtomPredicate(a),
        ) + comparisons(rule.rhs).map_values(
            |c: ComparisonExprModel| PredicateModel::ComparePredicate(c),
        ),
        is_planning: rule.is_planning,
        is_sip: rule.is_sip,
    }
}

/// The rules that a rule is rewritten into.
pub open spec fn sideways_rules(rule: FLRuleModel, rule_loc: usize) -> Seq<FLRuleModel> {
    let state = reduced_both(rule, rule_loc);
    state.rules.push(final_rule(rule, state))
}

/// Whether a variable is an argument of an atom.
pub open spec fn has_var(atom: AtomModel, var: Seq<char>) -> bool {
    atom.arguments.contains(AtomArgModel::Var(var))
}

proof fn lemma_parts_add(a: Seq<PredicateModel>, b: Seq<PredicateModel>)
    ensures
        positive_atoms(a + b) == positive_atoms(a) + positive_atoms(b),
        negated_atoms(a + b) == negated_atoms(a) + negated_atoms(b),
    decreases b.len(),
{
    if b.len() == 0 {
        assert(a + b =~= a);
        assert(positive_atoms(a) + positive_atoms(b) =~= positive_atoms(a));
        assert(negated_atoms(a) + negated_atoms(b) =~= negated_atoms(a));
    } else {
        lemma_parts_add(a, b.drop_last());
        assert((a + b).drop_last() =~= a + b.drop_last());
        assert(positive_atoms(a + b) =~= positive_atoms(a) + positive_atoms(b));
        assert(negated_atoms(a + b) =~= negated_atoms(a) + negated_atoms(b));
    }
}

pub proof fn lemma_no_negated(rhs: Seq<PredicateModel>)
    requires
        forall|k: int| 0 <= k < rhs.len() ==> !((#[trigger] rhs[k]) is NegatedAtomPredicate),
    ensures
        negated_atoms(rhs) == Seq::<AtomModel>::empty(),
    decreases rhs.len(),
{
    if rhs.len() > 0 {
        assert(!(rhs[rhs.len() - 1] is NegatedAtomPredicate));
        assert forall|k: int| 0 <= k < rhs.drop_last().len() implies !((
        #[trigger] rhs.drop_last()[k]) is NegatedAtomPredicate) by {
            assert(rhs.drop_last()[k] == rhs[k]);
        }
        lemma_no_negated(rhs.drop_last());
    }
}

proof fn lemma_only_negated(rhs: Seq<PredicateModel>)
    requires
        forall|k: int| 0 <= k < rhs.len() ==> (#[trigger] rhs[k]) is NegatedAtomPredicate,
    ensures
        negated_atoms(rhs).len() == rhs.len(),
        forall|k: int|
            0 <= k < rhs.len() ==> PredicateModel::NegatedAtomPredicate(
                #[trigger] negated_atoms(rhs)[k],
            ) == rhs[k],
    decreases rhs.len(),
{
    if rhs.len() > 0 {
        let front = rhs.drop_last();
        assert(rhs[rhs.len() - 1] is NegatedAtomPredicate);
        assert forall|k: int| 0 <= k < front.len() implies (
        #[trigger] front[k]) is NegatedAtomPredicate by {
            assert(front[k] == rhs[k]);
        }
        lemma_only_negated(front);
        assert forall|k: int| 0 <= k < rhs.len() implies PredicateModel::NegatedAtomPredicate(
            #[trigger] negated_atoms(rhs)[k],
        ) == rhs[k] by {
            if k < front.len() {
                assert(negated_atoms(rhs)[k] == negated_atoms(front)[k]);
                assert(front[k] == rhs[k]);
            }
        }
    }
}

pub proof fn lemma_only_positive(rhs: Seq<PredicateModel>)
    requires
        forall|k: int| 0 <= k < rhs.len() ==> (#[trigger] rhs[k]) is AtomPredicate,
    ensures
        positive_atoms(rhs).len() == rhs.len(),
        forall|k: int|
            0 <= k < rhs.len() ==> PredicateModel::AtomPredicate(
                #[trigger] positive_atoms(rhs)[k],
            ) == rhs[k],
    decreases rhs.len(),
{
    if rhs.len() > 0 {
        let front = rhs.drop_last();
        assert(rhs[rhs.len() - 1] is AtomPredicate);
        assert forall|k: int| 0 <= k < front.len() implies (#[trigger] front[k]) is AtomPredicate by {
            assert(front[k] == rhs[k]);
        }
        lemma_only_positive(front);
        assert forall|k: int| 0 <= k < rhs.len() implies PredicateModel::AtomPredicate(
            #[trigger] positive_atoms(rhs)[k],
        ) == rhs[k] by {
            if k < front.len() {
                assert(positive_atoms(rhs)[k] == positive_atoms(front)[k]);
                assert(front[k] == rhs[k]);
            }
        }
    }
}

/// A rule is safe if the variables of each negated atom occur.
proof fn lemma_safe(rule: FLRuleModel)
    requires
        forall|i: int, var: Seq<char>|
            0 <= i < negated_atoms(rule.rhs).len() && #[trigger] has_var(
                negated_atoms(rule.rhs)[i],
                var,
            ) ==> occurs(positive_atoms(rule.rhs), var),
    ensures
        is_safe(rule),
{
    assert forall|s: AtomArgumentSignature|
        !s.atom_signature.is_positive && (#[trigger] var_of(rule, s)) is Some implies occurs(
        positive_atoms(rule.rhs),
        var_of(rule, s)->0,
    ) by {
        let var = var_of(rule, s)->0;
        let i = s.atom_signature.rhs_id as int;
        let atom = negated_atoms(rule.rhs)[i];
        assert(atom.arguments[s.argument_id as int] == AtomArgModel::Var(var));
        assert(has_var(atom, var));
    }
}

proof fn lemma_strs_of(rule: FLRuleModel, columns: Seq<AtomArgumentSignature>, var: Seq<char>)
    ensures
        strs_of(rule, columns).contains(var) <==> exists|k: int|
            0 <= k < columns.len() && var_of(rule, #[trigger] columns[k]) == Some(var),
    decreases columns.len(),
{
    if columns.len() > 0 {
        let front = columns.drop_last();
        let strs = strs_of(rule, columns);
        let before = strs_of(rule, front);
        lemma_strs_of(rule, front, var);
        if strs.contains(var) {
            let m = choose|m: int| 0 <= m < strs.len() && strs[m] == var;
            if m < before.len() {
                assert(before[m] == var);
                assert(before.contains(var));
                let k = choose|k: int|
                    0 <= k < front.len() && var_of(rule, #[trigger] front[k]) == Some(var);
                assert(columns[k] == front[k]);
            } else {
                assert(var_of(rule, columns[columns.len() - 1]) == Some(var));
            }
        }
        if exists|k: int|
            0 <= k < columns.len() && var_of(rule, #[trigger] columns[k]) == Some(var) {
            let k = choose|k: int|
                0 <= k < columns.len() && var_of(rule, #[trigger] columns[k]) == Some(var);
            if k < front.len() {
                assert(front[k] == columns[k]);
                assert(before.contains(var));
                let m = choose|m: int| 0 <= m < before.len() && before[m] == var;
                assert(strs[m] == var);
            } else {
                assert(strs[before.len() as int] == var);
            }
        }
    } else {
        assert(strs_of(rule, columns) =~= Seq::empty());
    }
}

/// The variables of an atom are its arguments.
pub proof fn lemma_atom_strs(rule: FLRuleModel, positive: bool, i: int, var: Seq<char>)
    requires
        0 <= i < atoms_of(rule, positive).len() <= usize::MAX,
        atoms_of(rule, positive)[i].arguments.len() <= usize::MAX,
    ensures
        atom_strs(rule, positive, i).contains(var) <==> has_var(atoms_of(rule, positive)[i], var),
{
    let columns = atom_positions(rule, positive)[i];
    let arguments = atoms_of(rule, positive)[i].arguments;
    lemma_strs_of(rule, columns, var);
    if has_var(atoms_of(rule, positive)[i], var) {
        let k = choose|k: int| 0 <= k < arguments.len() && arguments[k] == AtomArgModel::Var(var);
        assert(columns[k] == position(positive, i, k));
        assert(var_of(rule, columns[k]) == Some(var));
    }
    if atom_strs(rule, positive, i).contains(var) {
        let k = choose|k: int|
            0 <= k < columns.len() && var_of(rule, #[trigger] columns[k]) == Some(var);
        assert(columns[k] == position(positive, i, k));
        assert(arguments[k] == AtomArgModel::Var(var));
    }
}

proof fn lemma_sub_negated_within(rule: FLRuleModel, strs: Seq<Seq<char>>, upto: nat)
    requires
        upto <= usize::MAX,
    ensures
        forall|k: int|
            0 <= k < sub_negated_ids(rule, strs, upto).len() ==> subset(
                atom_strs(
                    rule,
                    false,
                    (#[trigger] sub_negated_ids(rule, strs, upto)[k]).rhs_id as int,
                ),
                strs,
            ),
    decreases upto,
{
    if upto > 0 {
        lemma_sub_negated_within(rule, strs, (upto - 1) as nat);
        let front = sub_negated_ids(rule, strs, (upto - 1) as nat);
        let all = sub_negated_ids(rule, strs, upto);
        assert forall|k: int| 0 <= k < all.len() implies subset(
            atom_strs(rule, false, (#[trigger] all[k]).rhs_id as int),
            strs,
        ) by {
            if k < front.len() {
                assert(all[k] == front[k]);
            }
        }
    }
}

proof fn lemma_sub_atoms_within(rule: FLRuleModel, strs: Seq<Seq<char>>, upto: nat, i: int)
    requires
        0 <= i < upto <= usize::MAX,
        !is_core(rule, i),
        subset(atom_strs(rule, true, i), strs),
    ensures
        exists|k: int|
            0 <= k < sub_atom_ids(rule, strs, upto).len() && (#[trigger] sub_atom_ids(
                rule,
                strs,
                upto,
            )[k]).rhs_id == i,
    decreases upto,
{
    let all = sub_atom_ids(rule, strs, upto);
    let front = sub_atom_ids(rule, strs, (upto - 1) as nat);
    if i < upto - 1 {
        lemma_sub_atoms_within(rule, strs, (upto - 1) as nat, i);
        let k = choose|k: int| 0 <= k < front.len() && (#[trigger] front[k]).rhs_id == i;
        assert(all[k] == front[k]);
    } else {
        assert(all[front.len() as int].rhs_id == i);
    }
}

/// Whether the parts of a rewriting fit the rule: every core atom still has its
/// variables, and the rules made so far are safe.
pub open spec fn is_rewriting(rule: FLRuleModel, state: SidewaysModel) -> bool {
    &&& state.atoms.len() == atoms_of(rule, true).len()
    &&& state.open_subs.len() == atoms_of(rule, true).len()
    &&& state.open_negated.len() == atoms_of(rule, false).len()
    &&& forall|i: int, var: Seq<char>|
        0 <= i < state.atoms.len() && #[trigger] atom_strs(rule, true, i).contains(var)
            ==> has_var(state.atoms[i], var)
    &&& forall|k: int| 0 <= k < state.rules.len() ==> is_safe(#[trigger] state.rules[k])
}

proof fn lemma_has_vars(vars: Seq<Seq<char>>, name: Seq<char>, var: Seq<char>)
    requires
        vars.contains(var),
    ensures
        has_var(
            AtomModel { name, arguments: vars.map_values(|v: Seq<char>| AtomArgModel::Var(v)) },
            var,
        ),
{
    let arguments = vars.map_values(|v: Seq<char>| AtomArgModel::Var(v));
    let k = choose|k: int| 0 <= k < vars.len() && vars[k] == var;
    assert(arguments[k] == AtomArgModel::Var(var));
}

proof fn lemma_reduce_one(
    rule: FLRuleModel,
    suffix: Seq<char>,
    order: Seq<usize>,
    i: int,
    state: SidewaysModel,
)
    requires
        are_positions_small(rule),
        0 <= i < order.len(),
        order[i] < atoms_of(rule, true).len(),
        is_rewriting(rule, state),
    ensures
        is_rewriting(rule, reduce_one(rule, suffix, order, i, state)),
        forall|j: int|
            0 <= j < atoms_of(rule, true).len() && #[trigger] reduce_one(
                rule,
                suffix,
                order,
                i,
                state,
            ).open_subs[j] ==> state.open_subs[j] && !(!is_core(rule, j) && subset(
                atom_strs(rule, true, j),
                atom_strs(rule, true, order[i] as int),
            )),
{
    let id = order[i] as int;
    let strs = atom_strs(rule, true, id);
    let vars = distinct(strs);
    let n = atoms_of(rule, true).len();
    let m = atoms_of(rule, false).len();
    let sub_ids = sub_atom_ids(rule, strs, n);
    let negated_ids = sub_negated_ids(rule, strs, m);
    lemma_distinct(strs);
    lemma_sub_atoms(rule, strs, n);
    lemma_sub_negated(rule, strs, m);
    lemma_sub_negated_within(rule, strs, m);
    lemma_take_open(sub_ids, state.open_subs);
    lemma_take_open(negated_ids, state.open_negated);
    let subs = take_open(sub_ids, state.open_subs);
    let negated = take_open(negated_ids, state.open_negated);
    let next = reduce_one(rule, suffix, order, i, state);
    assert forall|j: int| 0 <= j < n && #[trigger] next.open_subs[j] implies state.open_subs[j]
        && !(!is_core(rule, j) && subset(atom_strs(rule, true, j), strs)) by {
        if !is_core(rule, j) && subset(atom_strs(rule, true, j), strs) {
            lemma_sub_atoms_within(rule, strs, n, j);
            let k = choose|k: int| 0 <= k < sub_ids.len() && (#[trigger] sub_ids[k]).rhs_id == j;
            assert(!subs.1[sub_ids[k].rhs_id as int]);
        }
    }
    let first = seq![PredicateModel::AtomPredicate(state.atoms[id])];
    let second = positive_predicates(state.atoms, subs.0);
    let third = negated_predicates(atoms_of(rule, false), negated.0);
    let fourth = met_comparisons(rule, vars, comparisons(rule.rhs).len());
    let fifth = neighbours(rule, state.atoms, order.take(i), vars);
    let rhs = first + second + third + fourth + fifth;
    let name = reduced_name(state.atoms[id].name, suffix, i);
    if rhs.len() != 1 {
        let made = FLRuleModel {
            head: HeadModel {
                name,
                head_arguments: vars.map_values(|v: Seq<char>| HeadArgModel::Var(v)),
            },
            rhs,
            is_planning: rule.is_planning,
            is_sip: rule.is_sip,
        };
        lemma_parts_add(first, second);
        lemma_parts_add(first + second, third);
        lemma_parts_add(first + second + third, fourth);
        lemma_parts_add(first + second + third + fourth, fifth);
        lemma_no_negated(first);
        lemma_no_negated(second);
        lemma_met(rule, vars, comparisons(rule.rhs).len());
        lemma_no_negated(fourth);
        lemma_neighbours(rule, state.atoms, order.take(i), vars);
        lemma_no_negated(fifth);
        lemma_only_negated(third);
        lemma_only_positive(first);
        assert(PredicateModel::AtomPredicate(positive_atoms(first)[0]) == first[0]);
        assert(negated_atoms(rhs) =~= negated_atoms(third));
        assert(positive_atoms(rhs)[0] == state.atoms[id]);
        assert forall|q: int, var: Seq<char>|
            0 <= q < negated_atoms(rhs).len() && #[trigger] has_var(
                negated_atoms(rhs)[q],
                var,
            ) implies occurs(positive_atoms(rhs), var) by {
            assert(PredicateModel::NegatedAtomPredicate(negated_atoms(third)[q]) == third[q]);
            let taken = negated.0[q];
            assert(negated_ids.contains(taken));
            let k = choose|k: int| 0 <= k < negated_ids.len() && negated_ids[k] == taken;
            let id = taken.rhs_id as int;
            assert(subset(atom_strs(rule, false, negated_ids[k].rhs_id as int), strs));
            assert(!negated_ids[k].is_positive);
            assert(atoms_of(rule, false)[id].arguments.len() <= usize::MAX);
            lemma_atom_strs(rule, false, id, var);
            assert(strs.contains(var));
            assert(has_var(positive_atoms(rhs)[0], var));
        }
        lemma_safe(made);
        assert forall|j: int, var: Seq<char>|
            0 <= j < next.atoms.len() && #[trigger] atom_strs(rule, true, j).contains(
                var,
            ) implies has_var(next.atoms[j], var) by {
            if j == id {
                lemma_has_vars(vars, name, var);
            }
        }
        assert forall|k: int| 0 <= k < next.rules.len() implies is_safe(
            #[trigger] next.rules[k],
        ) by {
            if k < state.rules.len() {
                assert(next.rules[k] == state.rules[k]);
            } else {
                assert(next.rules[k] == made);
            }
        }
    }
}

pub proof fn lemma_met(rule: FLRuleModel, vars: Seq<Seq<char>>, upto: nat)
    ensures
        forall|k: int|
            0 <= k < met_comparisons(rule, vars, upto).len() ==> (#[trigger] met_comparisons(
                rule,
                vars,
                upto,
            )[k]) is ComparePredicate,
    decreases upto,
{
    if upto > 0 {
        lemma_met(rule, vars, (upto - 1) as nat);
    }
}

proof fn lemma_neighbours(
    rule: FLRuleModel,
    atoms: Seq<AtomModel>,
    ids: Seq<usize>,
    vars: Seq<Seq<char>>,
)
    ensures
        forall|k: int|
            0 <= k < neighbours(rule, atoms, ids, vars).len() ==> (#[trigger] neighbours(
                rule,
                atoms,
                ids,
                vars,
            )[k]) is AtomPredicate,
    decreases ids.len(),
{
    if ids.len() > 0 {
        lemma_neighbours(rule, atoms, ids.drop_last(), vars);
    }
}

proof fn lemma_reduce(
    rule: FLRuleModel,
    suffix: Seq<char>,
    order: Seq<usize>,
    upto: nat,
    state: SidewaysModel,
)
    requires
        are_positions_small(rule),
        upto <= order.len(),
        forall|k: int| 0 <= k < order.len() ==> (#[trigger] order[k]) < atoms_of(rule, true).len(),
        is_rewriting(rule, state),
    ensures
        is_rewriting(rule, reduce(rule, suffix, order, upto, state)),
        forall|j: int|
            0 <= j < atoms_of(rule, true).len() && #[trigger] reduce(
                rule,
                suffix,
                order,
                upto,
                state,
            ).open_subs[j] ==> state.open_subs[j] && forall|k: int|
                0 <= k < upto ==> !(!is_core(rule, j) && subset(
                    atom_strs(rule, true, j),
                    atom_strs(rule, true, (#[trigger] order[k]) as int),
                )),
    decreases upto,
{
    if upto > 0 {
        lemma_reduce(rule, suffix, order, (upto - 1) as nat, state);
        let before = reduce(rule, suffix, order, (upto - 1) as nat, state);
        assert(order[upto - 1] < atoms_of(rule, true).len());
        lemma_reduce_one(rule, suffix, order, upto - 1, before);
        let after = reduce(rule, suffix, order, upto, state);
        assert forall|j: int| 0 <= j < atoms_of(rule, true).len() && #[trigger] after.open_subs[j]
            implies state.open_subs[j] && forall|k: int|
            0 <= k < upto ==> !(!is_core(rule, j) && subset(
                atom_strs(rule, true, j),
                atom_strs(rule, true, (#[trigger] order[k]) as int),
            )) by {
            assert(before.open_subs[j]);
        }
    }
}

proof fn lemma_unreduced(rule: FLRuleModel)
    requires
        are_positions_small(rule),
    ensures
        is_rewriting(rule, unreduced(rule)),
{
    let state = unreduced(rule);
    assert forall|i: int, var: Seq<char>|
        0 <= i < state.atoms.len() && #[trigger] atom_strs(rule, true, i).contains(
            var,
        ) implies has_var(state.atoms[i], var) by {
        assert(atoms_of(rule, true)[i].arguments.len() <= usize::MAX);
        lemma_atom_strs(rule, true, i, var);
    }
}

/// The rewriting of a rule uses every atom that is no core atom on the way.
pub proof fn law_sideways_uses_all(rule: FLRuleModel, rule_loc: usize)
    requires
        are_positions_small(rule),
    ensures
        none_open(reduced_forward(rule, rule_loc).open_subs),
        none_open(reduced_both(rule, rule_loc).open_subs),
        is_rewriting(rule, reduced_both(rule, rule_loc)),
{
    let order = core_ids(rule);
    let n = atoms_of(rule, true).len();
    lemma_core_below(rule, n);
    lemma_unreduced(rule);
    assert forall|k: int| 0 <= k < order.len() implies (#[trigger] order[k]) < n by {
        assert(order.contains(order[k]));
    }
    lemma_reduce(rule, forward_suffix(rule_loc), order, order.len(), unreduced(rule));
    let forward = reduced_forward(rule, rule_loc);
    assert forall|j: int| 0 <= j < forward.open_subs.len() implies !#[trigger]
    forward.open_subs[j] by {
        if forward.open_subs[j] {
            assert(unreduced(rule).open_subs[j]);
            law_core_atoms_cover(rule, j);
            let c = choose|c: int|
                0 <= c < positive_atoms(rule.rhs).len() && #[trigger] is_core(rule, c) && subset(
                    atom_strs(rule, true, j),
                    atom_strs(rule, true, c),
                );
            assert(order.contains(c as usize));
            let k = choose|k: int| 0 <= k < order.len() && order[k] == c as usize;
            assert(!(!is_core(rule, j) && subset(
                atom_strs(rule, true, j),
                atom_strs(rule, true, order[k] as int),
            )));
        }
    }
    let back = order.reverse();
    assert forall|k: int| 0 <= k < back.len() implies (#[trigger] back[k]) < n by {
        assert(back[k] == order[order.len() - 1 - k]);
    }
    lemma_reduce(rule, backward_suffix(rule_loc), back, back.len(), forward);
    let both = reduced_both(rule, rule_loc);
    assert forall|j: int| 0 <= j < both.open_subs.len() implies !#[trigger] both.open_subs[j] by {
        if both.open_subs[j] {
            assert(forward.open_subs[j]);
        }
    }
}

proof fn lemma_marked<A>(items: Seq<A>, marks: Seq<bool>, i: int)
    requires
        0 <= i < items.len() <= marks.len(),
        marks[i],
    ensures
        marked_items(items, marks).contains(items[i]),
    decreases items.len(),
{
    let front = items.drop_last();
    let all = marked_items(items, marks);
    let before = marked_items(front, marks);
    if i < items.len() - 1 {
        lemma_marked(front, marks, i);
        let k = choose|k: int| 0 <= k < before.len() && before[k] == front[i];
        assert(all[k] == items[i]);
    } else {
        assert(all[before.len() as int] == items[i]);
    }
}

pub proof fn lemma_marked_from<A>(items: Seq<A>, marks: Seq<bool>)
    ensures
        forall|k: int|
            0 <= k < marked_items(items, marks).len() ==> items.contains(
                #[trigger] marked_items(items, marks)[k],
            ),
    decreases items.len(),
{
    if items.len() > 0 {
        let front = items.drop_last();
        let all = marked_items(items, marks);
        let before = marked_items(front, marks);
        lemma_marked_from(front, marks);
        assert forall|k: int| 0 <= k < all.len() implies items.contains(#[trigger] all[k]) by {
            if k < before.len() {
                assert(all[k] == before[k]);
                assert(front.contains(before[k]));
                let m = choose|m: int| 0 <= m < front.len() && front[m] == before[k];
                assert(items[m] == all[k]);
            } else {
                assert(items[items.len() - 1] == all[k]);
            }
        }
    }
}

/// All rules that a safe rule is rewritten into are safe.
pub proof fn law_sideways_is_safe(rule: FLRuleModel, rule_loc: usize)
    requires
        are_positions_small(rule),
        is_safe(rule),
    ensures
        forall|k: int|
            0 <= k < sideways_rules(rule, rule_loc).len() ==> is_safe(
                #[trigger] sideways_rules(rule, rule_loc)[k],
            ),
{
    law_sideways_uses_all(rule, rule_loc);
    let state = reduced_both(rule, rule_loc);
    let made = final_rule(rule, state);
    let is_core_bitmap = Seq::new(atoms_of(rule, true).len(), |i: int| is_core(rule, i));
    let cores = marked_items(state.atoms, is_core_bitmap);
    let negs = marked_items(atoms_of(rule, false), state.open_negated);
    let first = cores.map_values(|a: AtomModel| PredicateModel::AtomPredicate(a));
    let second = negs.map_values(|a: AtomModel| PredicateModel::NegatedAtomPredicate(a));
    let third = comparisons(rule.rhs).map_values(
        |c: ComparisonExprModel| PredicateModel::ComparePredicate(c),
    );
    lemma_parts_add(first, second);
    lemma_parts_add(first + second, third);
    lemma_no_negated(first);
    lemma_no_negated(third);
    lemma_only_negated(second);
    lemma_only_positive(first);
    assert(negated_atoms(made.rhs) =~= negated_atoms(second));
    assert forall|q: int, var: Seq<char>|
        0 <= q < negated_atoms(made.rhs).len() && #[trigger] has_var(
            negated_atoms(made.rhs)[q],
            var,
        ) implies occurs(positive_atoms(made.rhs), var) by {
        assert(PredicateModel::NegatedAtomPredicate(negated_atoms(second)[q]) == second[q]);
        lemma_marked_from(atoms_of(rule, false), state.open_negated);
        assert(atoms_of(rule, false).contains(negs[q]));
        let i = choose|i: int| 0 <= i < atoms_of(rule, false).len() && atoms_of(rule, false)[i] == negs[q];
        let arguments = atoms_of(rule, false)[i].arguments;
        assert(arguments.len() <= usize::MAX);
        let k = choose|k: int| 0 <= k < arguments.len() && arguments[k] == AtomArgModel::Var(var);
        let s = position(false, i, k);
        assert(var_of(rule, s) == Some(var));
        assert(occurs(positive_atoms(rule.rhs), var));
        let j = choose|j: int|
            0 <= j < positive_atoms(rule.rhs).len() && (
            #[trigger] positive_atoms(rule.rhs)[j]).arguments.contains(AtomArgModel::Var(var));
        assert(has_var(atoms_of(rule, true)[j], var));
        assert(atoms_of(rule, true)[j].arguments.len() <= usize::MAX);
        lemma_atom_strs(rule, true, j, var);
        law_core_atoms_cover(rule, j);
        let c = choose|c: int|
            0 <= c < positive_atoms(rule.rhs).len() && #[trigger] is_core(rule, c) && subset(
                atom_strs(rule, true, j),
                atom_strs(rule, true, c),
            );
        assert(atom_strs(rule, true, c).contains(var));
        assert(has_var(state.atoms[c], var));
        lemma_marked(state.atoms, is_core_bitmap, c);
        let p = choose|p: int| 0 <= p < cores.len() && cores[p] == state.atoms[c];
        assert(first[p] == PredicateModel::AtomPredicate(cores[p]));
        assert(PredicateModel::AtomPredicate(positive_atoms(first)[p]) == first[p]);
        assert(positive_atoms(made.rhs)[p] == positive_atoms(first)[p]);
    }
    lemma_safe(made);
    let all = sideways_rules(rule, rule_loc);
    assert forall|k: int| 0 <= k < all.len() implies is_safe(#[trigger] all[k]) by {
        if k < state.rules.len() {
            assert(all[k] == state.rules[k]);
        } else {
            assert(all[k] == made);
        }
    }
}

// ---- the rewriting carried out ----

fn to_predicates(atoms: &Vec<Atom>, taken: &Vec<AtomSignature>) -> (out: Vec<Predicate>)
    requires
        forall|k: int| 0 <= k < taken@.len() ==> (#[trigger] taken@[k]).rhs_id < atoms@.len(),
    ensures
        out.deep_view() == positive_predicates(atoms.deep_view(), taken@),
{
    let mut out: Vec<Predicate> = Vec::new();
    let mut i: usize = 0;
    while i < taken.len()
        invariant
            i <= taken.len(),
            forall|k: int| 0 <= k < taken@.len() ==> (#[trigger] taken@[k]).rhs_id < atoms@.len(),
            out.len() == i,
            forall|k: int|
                0 <= k < i ==> (#[trigger] out@[k]).deep_view() == positive_predicates(
                    atoms.deep_view(),
                    taken@,
                )[k],
        decreases taken.len() - i,
    {
        assert(taken@[i as int].rhs_id < atoms@.len());
        out.push(Predicate::AtomPredicate(atoms[taken[i].rhs_id()].clone()));
        i += 1;
    }
    assert(out.deep_view() =~= positive_predicates(atoms.deep_view(), taken@));
    out
}

fn to_negated_predicates(atoms: &Vec<Atom>, taken: &Vec<AtomSignature>) -> (out: Vec<Predicate>)
    requires
        forall|k: int| 0 <= k < taken@.len() ==> (#[trigger] taken@[k]).rhs_id < atoms@.len(),
    ensures
        out.deep_view() == negated_predicates(atoms.deep_view(), taken@),
{
    let mut out: Vec<Predicate> = Vec::new();
    let mut i: usize = 0;
    while i < taken.len()
        invariant
            i <= taken.len(),
            forall|k: int| 0 <= k < taken@.len() ==> (#[trigger] taken@[k]).rhs_id < atoms@.len(),
            out.len() == i,
            forall|k: int|
                0 <= k < i ==> (#[trigger] out@[k]).deep_view() == negated_predicates(
                    atoms.deep_view(),
                    taken@,
                )[k],
        decreases taken.len() - i,
    {
        assert(taken@[i as int].rhs_id < atoms@.len());
        out.push(Predicate::NegatedAtomPredicate(atoms[taken[i].rhs_id()].clone()));
        i += 1;
    }
    assert(out.deep_view() =~= negated_predicates(atoms.deep_view(), taken@));
    out
}

fn narrow(atom: &Atom, vars: &Vec<String>) -> (out: Atom)
    ensures
        out.deep_view() == narrowed(atom.deep_view(), vars.deep_view()),
{
    let ghost model = narrowed(atom.deep_view(), vars.deep_view());
    let mut arguments: Vec<AtomArg> = Vec::new();
    let mut i: usize = 0;
    while i < atom.arguments.len()
        invariant
            i <= atom.arguments.len(),
            model == narrowed(atom.deep_view(), vars.deep_view()),
            arguments.len() == i,
            forall|k: int|
                0 <= k < i ==> (#[trigger] arguments@[k]).deep_view() == model.arguments[k],
        decreases atom.arguments.len() - i,
    {
        assert(atom.deep_view().arguments[i as int] == atom.arguments@[i as int].deep_view());
        match &atom.arguments[i] {
            AtomArg::Var(var) if !contains_same(vars, var) => {
                arguments.push(AtomArg::Placeholder);
            },
            other => {
                arguments.push(other.clone());
            },
        }
        i += 1;
    }
    assert(arguments.deep_view() =~= model.arguments);
    Atom::from_str(atom.name(), arguments)
}

fn shares_any(a: &Vec<String>, b: &Vec<String>) -> (answer: bool)
    ensures
        answer == shares(a.deep_view(), b.deep_view()),
{
    let mut i: usize = 0;
    while i < a.len()
        invariant
            i <= a.len(),
            forall|k: int| 0 <= k < i ==> !b.deep_view().contains(#[trigger] a.deep_view()[k]),
        decreases a.len() - i,
    {
        assert(a.deep_view()[i as int] == a@[i as int]@);
        if contains_same(b, &a[i]) {
            assert(a.deep_view().contains(a@[i as int]@));
            return true;
        }
        i += 1;
    }
    false
}

fn as_atom_args(vars: &Vec<String>) -> (out: Vec<AtomArg>)
    ensures
        out.deep_view() == vars.deep_view().map_values(|v: Seq<char>| AtomArgModel::Var(v)),
{
    let mut out: Vec<AtomArg> = Vec::new();
    let mut i: usize = 0;
    while i < vars.len()
        invariant
            i <= vars.len(),
            out.len() == i,
            forall|k: int|
                0 <= k < i ==> (#[trigger] out@[k]).deep_view() == AtomArgModel::Var(vars@[k]@),
        decreases vars.len() - i,
    {
        out.push(AtomArg::Var(vars[i].clone()));
        i += 1;
    }
    assert(out.deep_view() =~= vars.deep_view().map_values(|v: Seq<char>| AtomArgModel::Var(v)));
    out
}

fn as_head_args(vars: &Vec<String>) -> (out: Vec<HeadArg>)
    ensures
        out.deep_view() == vars.deep_view().map_values(|v: Seq<char>| HeadArgModel::Var(v)),
{
    let mut out: Vec<HeadArg> = Vec::new();
    let mut i: usize = 0;
    while i < vars.len()
        invariant
            i <= vars.len(),
            out.len() == i,
            forall|k: int|
                0 <= k < i ==> (#[trigger] out@[k]).deep_view() == HeadArgModel::Var(vars@[k]@),
        decreases vars.len() - i,
    {
        out.push(HeadArg::Var(vars[i].clone()));
        i += 1;
    }
    assert(out.deep_view() =~= vars.deep_view().map_values(|v: Seq<char>| HeadArgModel::Var(v)));
    out
}

/// How far a rule has been rewritten.
#[derive(Debug)]
pub struct Sideways {
    pub atoms: Vec<Atom>,
    pub open_subs: Vec<bool>,
    pub open_negated: Vec<bool>,
    pub rules: Vec<FLRule>,
}

impl DeepView for Sideways {
    type V = SidewaysModel;

    open spec fn deep_view(&self) -> SidewaysModel {
        SidewaysModel {
            atoms: self.atoms.deep_view(),
            open_subs: self.open_subs@,
            open_negated: self.open_negated@,
            rules: self.rules.deep_view(),
        }
    }
}

impl Catalog {
    fn met_predicates(&self, vars: &Vec<String>) -> (out: Vec<Predicate>)
        requires
            self.wf(),
        ensures
            out.deep_view() == met_comparisons(
                self.rule.deep_view(),
                vars.deep_view(),
                comparisons(self.rule.deep_view().rhs).len(),
            ),
    {
        let ghost rule = self.rule.deep_view();
        proof {
            self.lemma_parts();
        }
        let mut out: Vec<Predicate> = empty();
        let mut i: usize = 0;
        while i < self.comparison_predicates.len()
            invariant
                i <= self.comparison_predicates.len(),
                self.wf(),
                rule == self.rule.deep_view(),
                out.deep_view() == met_comparisons(rule, vars.deep_view(), i as nat),
            decreases self.comparison_predicates.len() - i,
        {
            proof {
                self.lemma_parts();
                lemma_subset_distinct(comparisons(rule.rhs)[i as int].vars(), vars.deep_view());
            }
            assert(self.comparison_predicates@[i as int].deep_view() == comparisons(
                rule.rhs,
            )[i as int]);
            assert(self.comparison_predicates_vars_set@[i as int].deep_view() == distinct(
                comparisons(rule.rhs)[i as int].vars(),
            ));
            if all_in(&self.comparison_predicates_vars_set[i], vars) {
                push(&mut out, Predicate::ComparePredicate(self.comparison_predicates[i].clone()));
            }
            i += 1;
        }
        out
    }

    fn neighbour_predicates(
        &self,
        atoms: &Vec<Atom>,
        order: &Vec<usize>,
        upto: usize,
        vars: &Vec<String>,
    ) -> (out: Vec<Predicate>)
        requires
            self.wf(),
            upto <= order@.len(),
            atoms@.len() == atoms_of(self.rule.deep_view(), true).len(),
            forall|k: int| 0 <= k < order@.len() ==> (#[trigger] order@[k]) < atoms@.len(),
        ensures
            out.deep_view() == neighbours(
                self.rule.deep_view(),
                atoms.deep_view(),
                order@.take(upto as int),
                vars.deep_view(),
            ),
    {
        broadcast use group_take;

        let ghost rule = self.rule.deep_view();
        let mut out: Vec<Predicate> = empty();
        let mut i: usize = 0;
        while i < upto
            invariant
                i <= upto <= order@.len(),
                self.wf(),
                rule == self.rule.deep_view(),
                atoms@.len() == atoms_of(rule, true).len(),
                forall|k: int| 0 <= k < order@.len() ==> (#[trigger] order@[k]) < atoms@.len(),
                out.deep_view() == neighbours(
                    rule,
                    atoms.deep_view(),
                    order@.take(i as int),
                    vars.deep_view(),
                ),
            decreases upto - i,
        {
            proof {
                self.lemma_parts();
                assert(order@.take(i + 1).drop_last() == order@.take(i as int));
                assert(order@[i as int] < atoms@.len());
            }
            let id: usize = order[i];
            let strs = self.signature_to_argument_strs(&self.atom_argument_signatures[id]);
            assert(strs.deep_view() == atom_strs(rule, true, id as int));
            if shares_any(&strs, vars) {
                push(&mut out, Predicate::AtomPredicate(narrow(&atoms[id], vars)));
            }
            i += 1;
        }
        out
    }

    /// Reduces the atom that comes `i`-th in the order.
    fn reduce_at(
        &self,
        suffix: &str,
        order: &Vec<usize>,
        i: usize,
        negated_atoms: &Vec<Atom>,
        state: Sideways,
    ) -> (out: Sideways)
        requires
            self.wf(),
            i < order@.len(),
            forall|k: int|
                0 <= k < order@.len() ==> (#[trigger] order@[k]) < atoms_of(
                    self.rule.deep_view(),
                    true,
                ).len(),
            negated_atoms.deep_view() == atoms_of(self.rule.deep_view(), false),
            is_rewriting(self.rule.deep_view(), state.deep_view()),
        ensures
            out.deep_view() == reduce_one(
                self.rule.deep_view(),
                suffix@,
                order@,
                i as int,
                state.deep_view(),
            ),
    {
        let ghost rule = self.rule.deep_view();
        let ghost before = state.deep_view();
        let mut state = state;
        let id: usize = order[i];
        proof {
            self.lemma_parts();
            self.lemma_positions_small();
            assert(order@[i as int] < atoms_of(rule, true).len());
            assert(state.atoms@.len() == state.atoms.deep_view().len());
            assert(negated_atoms@.len() == negated_atoms.deep_view().len());
        }
        let columns = &self.atom_argument_signatures[id];
        let strs = self.signature_to_argument_strs(columns);
        let ghost all = strs.deep_view();
        assert(all == atom_strs(rule, true, id as int));
        let vars = distinct_texts(&strs);
        let sub_ids = self.sub_atoms(columns);
        let negated_ids = self.sub_negated_atoms(columns);
        proof {
            assert(sub_ids.deep_view() =~= sub_ids@);
            assert(negated_ids.deep_view() =~= negated_ids@);
            lemma_sub_atoms(rule, all, atoms_of(rule, true).len());
            lemma_sub_negated(rule, all, atoms_of(rule, false).len());
        }
        let subs = take_open_atoms(&sub_ids, &mut state.open_subs);
        let negated = take_open_atoms(&negated_ids, &mut state.open_negated);
        proof {
            assert forall|k: int| 0 <= k < subs@.len() implies (#[trigger] subs@[k]).rhs_id
                < state.atoms@.len() by {
                assert(sub_ids@.contains(subs@[k]));
                let m = choose|m: int| 0 <= m < sub_ids@.len() && sub_ids@[m] == subs@[k];
                assert(sub_ids@[m].rhs_id < atoms_of(rule, true).len());
            }
            assert forall|k: int| 0 <= k < negated@.len() implies (#[trigger] negated@[k]).rhs_id
                < negated_atoms@.len() by {
                assert(negated_ids@.contains(negated@[k]));
                let m = choose|m: int| 0 <= m < negated_ids@.len() && negated_ids@[m] == negated@[k];
                assert(negated_ids@[m].rhs_id < atoms_of(rule, false).len());
            }
        }
        let mut rhs: Vec<Predicate> = empty();
        push(&mut rhs, Predicate::AtomPredicate(state.atoms[id].clone()));
        assert(rhs.deep_view() =~= seq![PredicateModel::AtomPredicate(before.atoms[id as int])]);
        extend(&mut rhs, to_predicates(&state.atoms, &subs));
        extend(&mut rhs, to_negated_predicates(negated_atoms, &negated));
        extend(&mut rhs, self.met_predicates(&vars));
        extend(&mut rhs, self.neighbour_predicates(&state.atoms, order, i, &vars));
        assert(rhs.len() == rhs.deep_view().len());
        if rhs.len() == 1 {
            return state;
        }
        let mut name = state.atoms[id].name().to_owned();
        name.append("_");
        name.append(suffix);
        name.append(usize_to_text(i).as_str());
        let head = Head::new(name.clone(), as_head_args(&vars));
        let reduced = Atom::from_str(name.as_str(), as_atom_args(&vars));
        let ghost reduced_model = reduced.deep_view();
        state.atoms.set(id, reduced);
        assert(state.atoms.deep_view() =~= before.atoms.update(id as int, reduced_model));
        push(
            &mut state.rules,
            FLRule::new(head, rhs, self.rule.is_planning(), self.rule.is_sip()),
        );
        state
    }

    /// Reduces the atoms of an order, one after the other.
    fn reducer(
        &self,
        suffix: &str,
        core_ids: &Vec<usize>,
        negated_atoms: &Vec<Atom>,
        state: Sideways,
    ) -> (out: Sideways)
        requires
            self.wf(),
            forall|k: int|
                0 <= k < core_ids@.len() ==> (#[trigger] core_ids@[k]) < atoms_of(
                    self.rule.deep_view(),
                    true,
                ).len(),
            negated_atoms.deep_view() == atoms_of(self.rule.deep_view(), false),
            is_rewriting(self.rule.deep_view(), state.deep_view()),
        ensures
            out.deep_view() == reduce(
                self.rule.deep_view(),
                suffix@,
                core_ids@,
                core_ids@.len(),
                state.deep_view(),
            ),
            is_rewriting(self.rule.deep_view(), out.deep_view()),
    {
        let ghost rule = self.rule.deep_view();
        let ghost start = state.deep_view();
        proof {
            self.lemma_positions_small();
        }
        let mut state = state;
        let mut i: usize = 0;
        while i < core_ids.len()
            invariant
                i <= core_ids.len(),
                self.wf(),
                rule == self.rule.deep_view(),
                are_positions_small(rule),
                forall|k: int|
                    0 <= k < core_ids@.len() ==> (#[trigger] core_ids@[k]) < atoms_of(
                        rule,
                        true,
                    ).len(),
                negated_atoms.deep_view() == atoms_of(rule, false),
                is_rewriting(rule, start),
                is_rewriting(rule, state.deep_view()),
                state.deep_view() == reduce(rule, suffix@, core_ids@, i as nat, start),
            decreases core_ids.len() - i,
        {
            state = self.reduce_at(suffix, core_ids, i, negated_atoms, state);
            i += 1;
            proof {
                lemma_reduce(rule, suffix@, core_ids@, i as nat, start);
            }
        }
        state
    }

    /// Rewrites a rule: its core atoms are reduced by what goes with them, in their
    /// order and then once more from the last to the first; the last rule joins
    /// what is left of them.
    pub fn sideways(&self, rule_loc: usize) -> (catalogs: Vec<Catalog>)
        requires
            self.wf(),
        ensures
            catalogs@.len() == sideways_rules(self.rule.deep_view(), rule_loc).len(),
            forall|k: int|
                0 <= k < catalogs@.len() ==> (#[trigger] catalogs@[k]).wf()
                    && catalogs@[k].rule.deep_view() == sideways_rules(
                    self.rule.deep_view(),
                    rule_loc,
                )[k],
    {
        let ghost rule = self.rule.deep_view();
        proof {
            self.lemma_parts();
            self.lemma_positions_small();
            lemma_unreduced(rule);
            law_sideways_is_safe(rule, rule_loc);
            lemma_core_below(rule, atoms_of(rule, true).len());
        }
        let (atoms, negated_atoms, comparison_predicates) = split_body(&self.rule.rhs);
        let mut open_negated: Vec<bool> = Vec::new();
        while open_negated.len() < negated_atoms.len()
            invariant
                open_negated@.len() <= negated_atoms@.len(),
                forall|k: int| 0 <= k < open_negated@.len() ==> #[trigger] open_negated@[k],
            decreases negated_atoms@.len() - open_negated@.len(),
        {
            open_negated.push(true);
        }
        assert(negated_atoms@.len() == negated_atoms.deep_view().len());
        assert(open_negated@ =~= unreduced(rule).open_negated);
        let mut open_subs: Vec<bool> = Vec::new();
        let mut i: usize = 0;
        while i < self.is_core_atom_bitmap.len()
            invariant
                i <= self.is_core_atom_bitmap.len(),
                self.wf(),
                rule == self.rule.deep_view(),
                open_subs.len() == i,
                forall|k: int| 0 <= k < i ==> #[trigger] open_subs@[k] == !is_core(rule, k),
            decreases self.is_core_atom_bitmap.len() - i,
        {
            open_subs.push(!self.is_core_atom_bitmap[i]);
            i += 1;
        }
        assert(open_subs@ =~= unreduced(rule).open_subs);
        let order = core_atoms(self);
        proof {
            assert forall|k: int| 0 <= k < order@.len() implies (#[trigger] order@[k]) < atoms_of(
                rule,
                true,
            ).len() by {
                assert(order@.contains(order@[k]));
            }
        }
        let mut back: Vec<usize> = Vec::new();
        let mut i: usize = order.len();
        while i > 0
            invariant
                i <= order.len(),
                back.len() == order.len() - i,
                forall|k: int| 0 <= k < back.len() ==> back@[k] == order@[order.len() - 1 - k],
            decreases i,
        {
            i -= 1;
            back.push(order[i]);
        }
        assert(back@ =~= order@.reverse());
        let mut forward_suffix = "sip".to_owned();
        forward_suffix.append(usize_to_text(rule_loc).as_str());
        let mut backward_suffix = forward_suffix.clone();
        forward_suffix.append("f");
        backward_suffix.append("b");
        let state = Sideways { atoms, open_subs, open_negated, rules: empty() };
        let forward = self.reducer(forward_suffix.as_str(), &order, &negated_atoms, state);
        let both = self.reducer(backward_suffix.as_str(), &back, &negated_atoms, forward);
        let ghost reduced = both.deep_view();
        assert(reduced == reduced_both(rule, rule_loc));
        let mut rhs: Vec<Predicate> = self.final_body(
            &both.atoms,
            &negated_atoms,
            &both.open_negated,
            &comparison_predicates,
        );
        assert(rhs.deep_view() == final_rule(rule, reduced).rhs);
        let last = FLRule::new(
            self.rule.head().clone(),
            rhs,
            self.rule.is_planning(),
            self.rule.is_sip(),
        );
        let mut rules = both.rules;
        push(&mut rules, last);
        let ghost all = sideways_rules(rule, rule_loc);
        assert(rules.deep_view() =~= all);
        assert(rules.len() == rules.deep_view().len());
        let mut catalogs: Vec<Catalog> = Vec::new();
        let mut i: usize = 0;
        while i < rules.len()
            invariant
                i <= rules.len(),
                rules.deep_view() == all,
                forall|k: int| 0 <= k < all.len() ==> is_safe(#[trigger] all[k]),
                catalogs.len() == i,
                forall|k: int|
                    0 <= k < i ==> (#[trigger] catalogs@[k]).wf() && catalogs@[k].rule.deep_view()
                        == all[k],
            decreases rules.len() - i,
        {
            assert(all[i as int] == rules@[i as int].deep_view());
            catalogs.push(Catalog::from_strata(&rules[i]));
            i += 1;
        }
        catalogs
    }

    fn final_body(
        &self,
        atoms: &Vec<Atom>,
        negated_atoms: &Vec<Atom>,
        open_negated: &Vec<bool>,
        comparison_predicates: &Vec<ComparisonExpr>,
    ) -> (rhs: Vec<Predicate>)
        requires
            self.wf(),
            atoms@.len() == atoms_of(self.rule.deep_view(), true).len(),
            negated_atoms@.len() == open_negated@.len(),
        ensures
            rhs.deep_view() == marked_items(
                atoms.deep_view(),
                Seq::new(
                    atoms_of(self.rule.deep_view(), true).len(),
                    |i: int| is_core(self.rule.deep_view(), i),
                ),
            ).map_values(|a: AtomModel| PredicateModel::AtomPredicate(a)) + marked_items(
                negated_atoms.deep_view(),
                open_negated@,
            ).map_values(|a: AtomModel| PredicateModel::NegatedAtomPredicate(a))
                + comparison_predicates.deep_view().map_values(
                |c: ComparisonExprModel| PredicateModel::ComparePredicate(c),
            ),
    {
        broadcast use group_take;

        let ghost rule = self.rule.deep_view();
        let ghost marks = Seq::new(atoms_of(rule, true).len(), |i: int| is_core(rule, i));
        let ghost to_positive = |a: AtomModel| PredicateModel::AtomPredicate(a);
        let ghost to_negated = |a: AtomModel| PredicateModel::NegatedAtomPredicate(a);
        let ghost to_compare = |c: ComparisonExprModel| PredicateModel::ComparePredicate(c);
        let mut rhs: Vec<Predicate> = empty();
        assert(rhs.deep_view() =~= marked_items(atoms.deep_view().take(0), marks).map_values(
            to_positive,
        ));
        let mut i: usize = 0;
        while i < atoms.len()
            invariant
                i <= atoms.len(),
                self.wf(),
                rule == self.rule.deep_view(),
                marks == Seq::new(atoms_of(rule, true).len(), |i: int| is_core(rule, i)),
                atoms@.len() == atoms_of(rule, true).len(),
                to_positive == (|a: AtomModel| PredicateModel::AtomPredicate(a)),
                rhs.deep_view() == marked_items(
                    atoms.deep_view().take(i as int),
                    marks,
                ).map_values(to_positive),
            decreases atoms.len() - i,
        {
            let ghost items = atoms.deep_view();
            let ghost before = marked_items(items.take(i as int), marks);
            assert(items.take(i + 1).drop_last() == items.take(i as int));
            assert(items[i as int] == atoms@[i as int].deep_view());
            if self.is_core_atom_bitmap[i] {
                push(&mut rhs, Predicate::AtomPredicate(atoms[i].clone()));
                assert(before.push(items[i as int]).map_values(to_positive) =~= before.map_values(
                    to_positive,
                ).push(to_positive(items[i as int])));
            }
            i += 1;
        }
        let ghost first = rhs.deep_view();
        assert(first == marked_items(atoms.deep_view(), marks).map_values(to_positive));
        assert(first + marked_items(negated_atoms.deep_view().take(0), open_negated@).map_values(
            to_negated,
        ) =~= first);
        let mut i: usize = 0;
        while i < negated_atoms.len()
            invariant
                i <= negated_atoms.len(),
                negated_atoms@.len() == open_negated@.len(),
                to_negated == (|a: AtomModel| PredicateModel::NegatedAtomPredicate(a)),
                rhs.deep_view() == first + marked_items(
                    negated_atoms.deep_view().take(i as int),
                    open_negated@,
                ).map_values(to_negated),
            decreases negated_atoms.len() - i,
        {
            let ghost items = negated_atoms.deep_view();
            let ghost before = marked_items(items.take(i as int), open_negated@);
            assert(items.take(i + 1).drop_last() == items.take(i as int));
            assert(items[i as int] == negated_atoms@[i as int].deep_view());
            if open_negated[i] {
                push(&mut rhs, Predicate::NegatedAtomPredicate(negated_atoms[i].clone()));
                assert(first + before.push(items[i as int]).map_values(to_negated) =~= (first
                    + before.map_values(to_negated)).push(to_negated(items[i as int])));
            }
            i += 1;
        }
        let ghost second = rhs.deep_view();
        let ghost compares = comparison_predicates.deep_view();
        assert(second + compares.take(0).map_values(to_compare) =~= second);
        let mut i: usize = 0;
        while i < comparison_predicates.len()
            invariant
                i <= comparison_predicates.len(),
                compares == comparison_predicates.deep_view(),
                to_compare == (|c: ComparisonExprModel| PredicateModel::ComparePredicate(c)),
                rhs.deep_view() == second + compares.take(i as int).map_values(to_compare),
            decreases comparison_predicates.len() - i,
        {
            assert(compares[i as int] == comparison_predicates@[i as int].deep_view());
            push(&mut rhs, Predicate::ComparePredicate(comparison_predicates[i].clone()));
            assert(second + compares.take(i + 1).map_values(to_compare) =~= (second
                + compares.take(i as int).map_values(to_compare)).push(
                to_compare(compares[i as int]),
            ));
            i += 1;
        }
        rhs
    }
}

} // verus!
