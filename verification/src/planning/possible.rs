//! Rules that keep all their variables can be planned.
use vstd::prelude::*;
use crate::catalog::atoms::{AtomArgumentSignature, AtomSignature};
use crate::catalog::body::{
    alias_of, are_positions_small, atom_positions, atoms_of, comparisons, const_of, first_var,
    lemma_first_var, occurs, position, positive_atoms,
};
use crate::catalog::cores::{core_ids, law_core_atoms_cover, lemma_core_below};
use crate::catalog::finding::law_covered_atoms;
use crate::catalog::open::{ids_of, lemma_take_open, none_open};
use crate::catalog::query::{
    aliases_at, comp_vars, comps_across, comps_covered, comps_vars, comps_within, consts_at,
    head_vars, sub_atom_ids, trace, trace_one, vars_of,
};
use crate::catalog::rule::{atom_strs, is_core, strs_of, subset, unfiltered};
use crate::executing::deriving::lemma_atom_vars;
use crate::executing::meaning::has_var;
use crate::executing::plans::lemma_vars_of;
use crate::executing::shapes::{last_planned, rest_planned, split_of, split_steps, Split};
use crate::lists::lookup;
use crate::optimizing::covering::{joins_core, law_join_tree_covers};
use crate::optimizing::join_tree::{common, is_over, lemma_is_over_parts, JoinTree};
use crate::optimizing::measuring::{law_common_items_stand_in_both, lemma_vars_of_both};
use crate::optimizing::optimizer::PlanTree;
use crate::parsing::arithmetic::lemma_distinct;
use crate::parsing::rule::{AtomArgModel, FLRuleModel};
use crate::planning::arguments::TransformationArgument;
use crate::planning::flow::{
    flow_aliases, flow_comparisons, flow_consts, flow_over, jn_columns, kv_columns,
};
use crate::planning::plannable::{
    are_there, lemma_flow_there, lemma_lookup_there, lemma_placed_there,
};
use crate::planning::rule::{
    atoms_at, is_join_tree, is_plannable, join_steps, rule_steps, side_values, tree_steps,
    PlannedModel,
};
use crate::planning::steps::{
    all_positive, assembled, base_of, carried, filters_of, key_step, key_vars, leaf_step, semijoins,
    traced_comparison, var_columns, without, StepsModel,
};
use crate::planning::tracing::{
    law_traces_succeed, law_variables_are_traced_to_the_first_atom, stands_in,
};

verus! {

/// A positive atom by its number.
pub open spec fn atom_of(id: usize) -> AtomSignature {
    AtomSignature { is_positive: true, rhs_id: id }
}

/// The columns of the relation of an atom.
spec fn columns_of(rule: FLRuleModel, id: usize) -> Seq<
    (AtomArgumentSignature, TransformationArgument),
> {
    kv_columns(Seq::empty(), atom_positions(rule, true)[id as int])
}

/// Whether a variable is traced through atoms to one of some columns.
spec fn leads_to(
    rule: FLRuleModel,
    columns: Seq<(AtomArgumentSignature, TransformationArgument)>,
    atoms: Seq<AtomSignature>,
    var: Seq<char>,
) -> bool {
    trace_one(rule, var, atoms) matches Some(s) && lookup(columns, s) is Some
}

proof fn lemma_own(rule: FLRuleModel, id: usize, k: int)
    requires
        id < atoms_of(rule, true).len(),
        0 <= k < atoms_of(rule, true)[id as int].arguments.len(),
    ensures
        lookup(columns_of(rule, id), position(true, id as int, k)) is Some,
{
    let columns = columns_of(rule, id);
    assert(columns[k].0 == atom_positions(rule, true)[id as int][k]);
    assert(columns[k].0 == position(true, id as int, k));
    lemma_lookup_there(columns, k);
}

proof fn lemma_filters(rule: FLRuleModel, id: usize, n: int)
    requires
        are_positions_small(rule),
        id < atoms_of(rule, true).len(),
        0 <= n <= atoms_of(rule, true)[id as int].arguments.len(),
    ensures
        flow_consts(
            columns_of(rule, id),
            consts_at(rule, atom_positions(rule, true)[id as int].take(n)),
        ) is Some,
        flow_aliases(
            columns_of(rule, id),
            aliases_at(rule, atom_positions(rule, true)[id as int].take(n)),
        ) is Some,
    decreases n,
{
    let columns = columns_of(rule, id);
    let all = atom_positions(rule, true)[id as int];
    let arguments = atoms_of(rule, true)[id as int].arguments;
    if n > 0 {
        let s = all[n - 1];
        lemma_filters(rule, id, n - 1);
        assert(all.take(n).drop_last() =~= all.take(n - 1));
        assert(all.take(n).last() == s);
        assert(s == position(true, id as int, n - 1));
        lemma_own(rule, id, n - 1);
        let consts = consts_at(rule, all.take(n - 1));
        let aliases = aliases_at(rule, all.take(n - 1));
        assert(arguments.len() <= usize::MAX);
        if let Some(constant) = const_of(rule, s) {
            assert(consts.push((s, constant)).drop_last() =~= consts);
        }
        if let Some(first) = alias_of(rule, s) {
            let var = arguments[n - 1]->Var_0;
            lemma_first_var(arguments.take(s.argument_id as int), var);
            lemma_own(rule, id, first.argument_id as int);
            assert(first == position(true, id as int, first.argument_id as int));
            assert(aliases.push((first, s)).drop_last() =~= aliases);
        }
    } else {
        assert(all.take(0) =~= Seq::empty());
    }
}

/// A variable of an atom is traced to a column of its relation.
proof fn lemma_leads_to_own(rule: FLRuleModel, id: usize, var: Seq<char>)
    requires
        are_positions_small(rule),
        id < atoms_of(rule, true).len(),
        has_var(rule, atom_of(id), var),
    ensures
        leads_to(rule, columns_of(rule, id), seq![atom_of(id)], var),
{
    let atoms = seq![atom_of(id)];
    let arguments = atoms_of(rule, true)[id as int].arguments;
    lemma_first_var(arguments, var);
    assert(occurs(
        positive_atoms(rule.rhs),
        var,
    )) by {
        assert(positive_atoms(rule.rhs)[id as int].arguments.contains(
            AtomArgModel::Var(var),
        ));
    }
    assert(atoms.drop_last() =~= Seq::empty());
    assert(trace_one(rule, var, atoms.drop_last()) is None);
    assert(atoms.last() == atom_of(id));
    let k = first_var(arguments, var)->0;
    assert(trace_one(rule, var, atoms) == Some(position(true, id as int, k as int)));
    lemma_own(rule, id, k as int);
}

/// Variables that lead to columns are traced to them.
proof fn lemma_traced(
    rule: FLRuleModel,
    columns: Seq<(AtomArgumentSignature, TransformationArgument)>,
    atoms: Seq<AtomSignature>,
    vars: Seq<Seq<char>>,
)
    requires
        all_positive(atoms),
        forall|v: Seq<char>| #[trigger] vars.contains(v) ==> leads_to(rule, columns, atoms, v),
    ensures
        trace(rule, vars, atoms) is Some,
        trace(rule, vars, atoms)->0.len() == vars.len(),
        are_there(columns, trace(rule, vars, atoms)->0),
        flow_over(columns, trace(rule, vars, atoms)->0) is Some,
{
    law_traces_succeed(rule, vars, atoms);
    assert forall|k: int| 0 <= k < vars.len() implies trace_one(
        rule,
        #[trigger] vars[k],
        atoms,
    ) is Some by {
        assert(vars.contains(vars[k]));
        assert(leads_to(rule, columns, atoms, vars[k]));
    }
    let found = trace(rule, vars, atoms)->0;
    assert forall|k: int| 0 <= k < found.len() implies lookup(
        columns,
        #[trigger] found[k],
    ) is Some by {
        assert(vars.contains(vars[k]));
        assert(leads_to(rule, columns, atoms, vars[k]));
        assert(trace_one(rule, vars[k], atoms) == Some(found[k]));
    }
    lemma_flow_there(columns, found);
}

/// Comparisons whose variables lead to columns can be made over them; the others among
/// them are passed over.
proof fn lemma_compared(
    rule: FLRuleModel,
    columns: Seq<(AtomArgumentSignature, TransformationArgument)>,
    atoms: Seq<AtomSignature>,
    vars: Seq<Seq<char>>,
    ids: Seq<usize>,
)
    requires
        all_positive(atoms),
        forall|v: Seq<char>| #[trigger] vars.contains(v) ==> leads_to(rule, columns, atoms, v),
        forall|k: int| 0 <= k < ids.len() ==> (#[trigger] ids[k]) < comparisons(rule.rhs).len(),
    ensures
        assembled(rule, ids, atoms, vars) is Some,
        flow_comparisons(columns, assembled(rule, ids, atoms, vars)->0) is Some,
        (forall|k: int|
            0 <= k < ids.len() ==> subset(
                comparisons(rule.rhs)[(#[trigger] ids[k]) as int].vars(),
                vars,
            )) ==> assembled(rule, ids, atoms, vars)->0.len() == ids.len(),
    decreases ids.len(),
{
    if ids.len() > 0 {
        let front = ids.drop_last();
        assert forall|k: int| 0 <= k < front.len() implies (#[trigger] front[k]) < comparisons(
            rule.rhs,
        ).len() by {
            assert(front[k] == ids[k]);
        }
        lemma_compared(rule, columns, atoms, vars, front);
        let id = ids[ids.len() - 1];
        assert(id < comparisons(rule.rhs).len());
        let comparison = comparisons(rule.rhs)[id as int];
        let before = assembled(rule, front, atoms, vars)->0;
        if subset(comparison.vars(), vars) {
            let (left, right) = (comparison.left.vars(), comparison.right.vars());
            assert forall|x: Seq<char>| #[trigger] left.contains(x) implies leads_to(
                rule,
                columns,
                atoms,
                x,
            ) by {
                let i = choose|i: int| 0 <= i < left.len() && left[i] == x;
                assert(comparison.vars()[i] == x);
                assert(comparison.vars().contains(x));
                assert(vars.contains(x));
            }
            assert forall|x: Seq<char>| #[trigger] right.contains(x) implies leads_to(
                rule,
                columns,
                atoms,
                x,
            ) by {
                let i = choose|i: int| 0 <= i < right.len() && right[i] == x;
                assert(comparison.vars()[left.len() + i] == x);
                assert(comparison.vars().contains(x));
                assert(vars.contains(x));
            }
            lemma_traced(rule, columns, atoms, left);
            lemma_traced(rule, columns, atoms, right);
            let traced = traced_comparison(rule, comparison, atoms)->0;
            lemma_placed_there(columns, comparison.left, trace(rule, left, atoms)->0);
            lemma_placed_there(columns, comparison.right, trace(rule, right, atoms)->0);
            lemma_flow_there(columns, traced.left.places());
            lemma_flow_there(columns, traced.right.places());
            let found = assembled(rule, ids, atoms, vars)->0;
            assert(found == before.push(traced));
            assert(found.drop_last() =~= before);
        }
        if forall|k: int|
            0 <= k < ids.len() ==> subset(
                comparisons(rule.rhs)[(#[trigger] ids[k]) as int].vars(),
                vars,
            ) {
            assert forall|k: int| 0 <= k < front.len() implies subset(
                comparisons(rule.rhs)[(#[trigger] front[k]) as int].vars(),
                vars,
            ) by {
                assert(front[k] == ids[k]);
            }
            assert(subset(comparisons(rule.rhs)[ids[ids.len() - 1] as int].vars(), vars));
        }
    }
}

/// Whether all of some variables stand in an atom.
spec fn all_in_atom(rule: FLRuleModel, id: usize, vars: Seq<Seq<char>>) -> bool {
    forall|v: Seq<char>| #[trigger] vars.contains(v) ==> has_var(rule, atom_of(id), v)
}

/// Whether comparisons are there and use only variables of an atom.
spec fn all_compared_in_atom(rule: FLRuleModel, id: usize, comps: Seq<usize>) -> bool {
    forall|k: int|
        0 <= k < comps.len() ==> (#[trigger] comps[k]) < comparisons(rule.rhs).len()
            && all_in_atom(rule, id, comparisons(rule.rhs)[comps[k] as int].vars())
}

proof fn lemma_strs(rule: FLRuleModel, id: usize)
    requires
        are_positions_small(rule),
        id < atoms_of(rule, true).len(),
    ensures
        all_in_atom(rule, id, strs_of(rule, atom_positions(rule, true)[id as int])),
        all_in_atom(rule, id, key_vars(rule, atom_of(id))),
        forall|v: Seq<char>| #[trigger]
            has_var(rule, atom_of(id), v) ==> strs_of(
                rule,
                atom_positions(rule, true)[id as int],
            ).contains(v) && key_vars(rule, atom_of(id)).contains(v),
{
    assert forall|v: Seq<char>| true implies {
        &&& #[trigger] has_var(rule, atom_of(id), v) <==> strs_of(
            rule,
            atom_positions(rule, true)[id as int],
        ).contains(v)
        &&& has_var(rule, atom_of(id), v) <==> key_vars(rule, atom_of(id)).contains(v)
    } by {
        lemma_atom_vars(rule, atom_of(id), v);
    }
}

/// The step for an atom can be made where it is asked for variables of the atom.
proof fn lemma_leaf(
    rule: FLRuleModel,
    id: usize,
    keys: Seq<Seq<char>>,
    values: Seq<Seq<char>>,
    comps: Seq<usize>,
)
    requires
        are_positions_small(rule),
        id < atoms_of(rule, true).len(),
        all_in_atom(rule, id, keys),
        all_in_atom(rule, id, values),
        keys.len() + values.len() > 0,
        all_compared_in_atom(rule, id, comps),
    ensures
        ({
            let atoms = seq![atom_of(id)];
            let step = leaf_step(rule, atom_of(id), keys, values, comps);
            &&& step is Some
            &&& trace(rule, keys, atoms) is Some
            &&& trace(rule, values, atoms) is Some
            &&& step->0.output.keys == trace(rule, keys, atoms)->0
            &&& step->0.output.values == trace(rule, values, atoms)->0
        }),
{
    let atoms = seq![atom_of(id)];
    let columns = columns_of(rule, id);
    let all = atom_positions(rule, true)[id as int];
    let strs = strs_of(rule, all);
    assert(all_positive(atoms));
    lemma_strs(rule, id);
    assert forall|v: Seq<char>| #[trigger] keys.contains(v) implies leads_to(
        rule,
        columns,
        atoms,
        v,
    ) by {
        lemma_leads_to_own(rule, id, v);
    }
    assert forall|v: Seq<char>| #[trigger] values.contains(v) implies leads_to(
        rule,
        columns,
        atoms,
        v,
    ) by {
        lemma_leads_to_own(rule, id, v);
    }
    assert forall|v: Seq<char>| #[trigger] strs.contains(v) implies leads_to(
        rule,
        columns,
        atoms,
        v,
    ) by {
        lemma_leads_to_own(rule, id, v);
    }
    lemma_traced(rule, columns, atoms, keys);
    lemma_traced(rule, columns, atoms, values);
    assert forall|k: int| 0 <= k < comps.len() implies subset(
        comparisons(rule.rhs)[(#[trigger] comps[k]) as int].vars(),
        strs,
    ) by {
        assert(all_in_atom(rule, id, comparisons(rule.rhs)[comps[k] as int].vars()));
    }
    lemma_compared(rule, columns, atoms, strs, comps);
    lemma_filters(rule, id, atoms_of(rule, true)[id as int].arguments.len() as int);
    assert(all.take(all.len() as int) =~= all);
    let base = base_of(rule, atom_of(id));
    assert(base.keys =~= Seq::empty());
}

proof fn lemma_kept_columns(
    rule: FLRuleModel,
    id: usize,
    columns: Seq<AtomArgumentSignature>,
)
    requires
        forall|k: int|
            0 <= k < columns.len() ==> lookup(columns_of(rule, id), #[trigger] columns[k]) is Some,
    ensures
        are_there(columns_of(rule, id), unfiltered(rule, columns)),
    decreases columns.len(),
{
    if columns.len() > 0 {
        let front = columns.drop_last();
        assert forall|k: int| 0 <= k < front.len() implies lookup(
            columns_of(rule, id),
            #[trigger] front[k],
        ) is Some by {
            assert(front[k] == columns[k]);
        }
        lemma_kept_columns(rule, id, front);
        assert(lookup(columns_of(rule, id), columns[columns.len() - 1]) is Some);
        let kept = unfiltered(rule, columns);
        let before = unfiltered(rule, front);
        assert forall|k: int| 0 <= k < kept.len() implies lookup(
            columns_of(rule, id),
            #[trigger] kept[k],
        ) is Some by {
            if k < before.len() {
                assert(kept[k] == before[k]);
            }
        }
    }
}

/// The keys of an atom with variables can be put out.
proof fn lemma_keys(rule: FLRuleModel, id: usize, comps: Seq<usize>)
    requires
        are_positions_small(rule),
        id < atoms_of(rule, true).len(),
        key_vars(rule, atom_of(id)).len() > 0,
        forall|k: int| 0 <= k < comps.len() ==> (#[trigger] comps[k]) < comparisons(rule.rhs).len(),
    ensures
        key_step(rule, atom_of(id), comps) is Some,
        key_step(rule, atom_of(id), comps)->0.output.values.len() == 0,
{
    let atom = atom_of(id);
    let atoms = seq![atom];
    let columns = columns_of(rule, id);
    let all = atom_positions(rule, true)[id as int];
    let vars = key_vars(rule, atom);
    assert(all_positive(atoms));
    lemma_strs(rule, id);
    assert forall|v: Seq<char>| #[trigger] vars.contains(v) implies leads_to(
        rule,
        columns,
        atoms,
        v,
    ) by {
        lemma_leads_to_own(rule, id, v);
    }
    lemma_compared(rule, columns, atoms, vars, comps);
    lemma_filters(rule, id, atoms_of(rule, true)[id as int].arguments.len() as int);
    assert(all.take(all.len() as int) =~= all);
    assert forall|k: int| 0 <= k < all.len() implies lookup(columns, #[trigger] all[k]) is Some by {
        assert(all[k] == position(true, id as int, k));
        lemma_own(rule, id, k);
    }
    lemma_kept_columns(rule, id, all);
    lemma_flow_there(columns, var_columns(rule, atom));
    lemma_flow_there(columns, Seq::empty());
    assert(var_columns(rule, atom).len() > 0) by {
        if var_columns(rule, atom).len() == 0 {
            assert(vars.len() == 0);
        }
    }
    let base = base_of(rule, atom);
    assert(base.keys =~= Seq::empty());
}

/// The columns of a join are those of its left side and the values of its right side.
proof fn lemma_join_columns(
    left_keys: Seq<AtomArgumentSignature>,
    left_values: Seq<AtomArgumentSignature>,
    right_values: Seq<AtomArgumentSignature>,
    s: AtomArgumentSignature,
)
    requires
        left_keys.contains(s) || left_values.contains(s) || right_values.contains(s),
    ensures
        lookup(jn_columns(left_keys, left_values, right_values), s) is Some,
{
    let columns = jn_columns(left_keys, left_values, right_values);
    if left_keys.contains(s) {
        let i = choose|i: int| 0 <= i < left_keys.len() && left_keys[i] == s;
        assert(columns[i].0 == s);
        lemma_lookup_there(columns, i);
    } else if left_values.contains(s) {
        let i = choose|i: int| 0 <= i < left_values.len() && left_values[i] == s;
        assert(columns[left_keys.len() + i].0 == s);
        lemma_lookup_there(columns, left_keys.len() + i);
    } else {
        let i = choose|i: int| 0 <= i < right_values.len() && right_values[i] == s;
        let at = left_keys.len() + left_values.len() + i;
        assert(columns[at].0 == s);
        lemma_lookup_there(columns, at);
    }
}

proof fn lemma_traced_contains(
    rule: FLRuleModel,
    vars: Seq<Seq<char>>,
    atoms: Seq<AtomSignature>,
    var: Seq<char>,
)
    requires
        trace(rule, vars, atoms) is Some,
        vars.contains(var),
    ensures
        trace_one(rule, var, atoms) matches Some(s) && trace(rule, vars, atoms)->0.contains(s),
{
    law_traces_succeed(rule, vars, atoms);
    let k = choose|k: int| 0 <= k < vars.len() && vars[k] == var;
    assert(trace_one(rule, vars[k], atoms) == Some(trace(rule, vars, atoms)->0[k]));
}

proof fn lemma_left(a: Seq<Seq<char>>, b: Seq<Seq<char>>, var: Seq<char>)
    ensures
        without(a, b).contains(var) <==> a.contains(var) && !b.contains(var),
    decreases a.len(),
{
    if a.len() > 0 {
        let front = a.drop_last();
        let before = without(front, b);
        let all = without(a, b);
        lemma_left(front, b, var);
        if all.contains(var) {
            let i = choose|i: int| 0 <= i < all.len() && all[i] == var;
            if i < before.len() {
                assert(before[i] == var);
                let j = choose|j: int| 0 <= j < front.len() && front[j] == var;
                assert(a[j] == var);
            } else {
                assert(a[a.len() - 1] == var);
            }
        }
        if a.contains(var) && !b.contains(var) {
            let j = choose|j: int| 0 <= j < a.len() && a[j] == var;
            if j < front.len() {
                assert(front[j] == var);
                let i = choose|i: int| 0 <= i < before.len() && before[i] == var;
                assert(all[i] == var);
            } else {
                assert(all[before.len() as int] == var);
            }
        }
    }
}

proof fn lemma_either(a: Seq<Seq<char>>, b: Seq<Seq<char>>, var: Seq<char>)
    ensures
        (a + b).contains(var) <==> a.contains(var) || b.contains(var),
{
    if (a + b).contains(var) {
        let i = choose|i: int| 0 <= i < (a + b).len() && (a + b)[i] == var;
        if i < a.len() {
            assert(a[i] == var);
        } else {
            assert(b[i - a.len()] == var);
        }
    }
    if a.contains(var) {
        let i = choose|i: int| 0 <= i < a.len() && a[i] == var;
        assert((a + b)[i] == var);
    }
    if b.contains(var) {
        let i = choose|i: int| 0 <= i < b.len() && b[i] == var;
        assert((a + b)[a.len() + i] == var);
    }
}

/// Whether atoms can be joined to an atom for what they hold: each has variables, and all
/// of them stand in the atom.
spec fn are_subs(rule: FLRuleModel, id: usize, subs: Seq<AtomSignature>) -> bool {
    forall|k: int|
        0 <= k < subs.len() ==> (#[trigger] subs[k]).is_positive && subs[k].rhs_id < atoms_of(
            rule,
            true,
        ).len() && key_vars(rule, subs[k]).len() > 0 && all_in_atom(
            rule,
            id,
            key_vars(rule, subs[k]),
        )
}

/// The steps for an atom and the atoms that are joined to it can be made.
proof fn lemma_semijoins(
    rule: FLRuleModel,
    id: usize,
    subs: Seq<AtomSignature>,
    keys: Seq<Seq<char>>,
    values: Seq<Seq<char>>,
    comps: Seq<usize>,
)
    requires
        are_positions_small(rule),
        id < atoms_of(rule, true).len(),
        all_in_atom(rule, id, keys),
        all_in_atom(rule, id, values),
        keys.len() + values.len() > 0,
        all_compared_in_atom(rule, id, comps),
        are_subs(rule, id, subs),
    ensures
        ({
            let atoms = seq![atom_of(id)];
            let steps = semijoins(rule, atom_of(id), subs, keys, values, comps);
            &&& steps is Some
            &&& trace(rule, keys, atoms) is Some
            &&& trace(rule, values, atoms) is Some
            &&& steps->0.last.output.keys == trace(rule, keys, atoms)->0
            &&& steps->0.last.output.values == trace(rule, values, atoms)->0
        }),
    decreases subs.len(),
{
    let atoms = seq![atom_of(id)];
    lemma_leaf(rule, id, keys, values, comps);
    if subs.len() > 0 {
        let front = subs.drop_last();
        let sub = subs[subs.len() - 1];
        assert(sub == subs.last());
        assert(sub == atom_of(sub.rhs_id));
        let sub_keys = key_vars(rule, sub);
        let rest = carried(keys, values, sub_keys);
        assert(are_subs(rule, id, front)) by {
            assert forall|k: int| 0 <= k < front.len() implies (
            #[trigger] front[k]).is_positive && front[k].rhs_id < atoms_of(rule, true).len()
                && key_vars(rule, front[k]).len() > 0 && all_in_atom(
                rule,
                id,
                key_vars(rule, front[k]),
            ) by {
                assert(front[k] == subs[k]);
            }
        }
        assert forall|v: Seq<char>| true implies (#[trigger] rest.contains(v) <==> (keys.contains(v)
            || values.contains(v)) && !sub_keys.contains(v)) by {
            lemma_distinct(without(keys + values, sub_keys));
            lemma_left(keys + values, sub_keys, v);
            lemma_either(keys, values, v);
        }
        assert(all_in_atom(rule, id, rest));
        lemma_semijoins(rule, id, front, sub_keys, rest, comps);
        assert forall|k: int| 0 <= k < comps.len() implies (#[trigger] comps[k]) < comparisons(
            rule.rhs,
        ).len() by {}
        lemma_keys(rule, sub.rhs_id, comps);
        let left = semijoins(rule, atom_of(id), front, sub_keys, rest, comps)->0;
        let right = key_step(rule, sub, comps)->0;
        let columns = jn_columns(
            left.last.output.keys,
            left.last.output.values,
            right.output.values,
        );
        assert forall|v: Seq<char>| keys.contains(v) || values.contains(v) implies leads_to(
            rule,
            columns,
            atoms,
            v,
        ) by {
            if sub_keys.contains(v) {
                lemma_traced_contains(rule, sub_keys, atoms, v);
            } else {
                assert(rest.contains(v));
                lemma_traced_contains(rule, rest, atoms, v);
            }
            lemma_join_columns(
                left.last.output.keys,
                left.last.output.values,
                right.output.values,
                trace_one(rule, v, atoms)->0,
            );
        }
        assert(all_positive(atoms));
        lemma_traced(rule, columns, atoms, keys);
        lemma_traced(rule, columns, atoms, values);
        assert(flow_comparisons(columns, Seq::empty()) is Some);
    }
}

proof fn lemma_trace_parts(
    rule: FLRuleModel,
    var: Seq<char>,
    a: Seq<AtomSignature>,
    b: Seq<AtomSignature>,
)
    ensures
        trace_one(rule, var, a + b) == match trace_one(rule, var, a) {
            Some(s) => Some(s),
            None => trace_one(rule, var, b),
        },
    decreases b.len(),
{
    if b.len() == 0 {
        assert(a + b =~= a);
    } else {
        lemma_trace_parts(rule, var, a, b.drop_last());
        assert((a + b).drop_last() =~= a + b.drop_last());
        assert((a + b).last() == b.last());
    }
}

/// The variables that can be traced through positive atoms are those of the atoms.
proof fn lemma_traceable(rule: FLRuleModel, ids: Seq<usize>, var: Seq<char>)
    requires
        are_positions_small(rule),
        forall|k: int| 0 <= k < ids.len() ==> (#[trigger] ids[k]) < atoms_of(rule, true).len(),
    ensures
        trace_one(rule, var, atoms_at(ids)) is Some <==> vars_of(rule, true, ids).contains(var),
{
    let atoms = atoms_at(ids);
    law_variables_are_traced_to_the_first_atom(rule, var, atoms);
    lemma_vars_of(rule, ids, var);
    assert forall|k: int| 0 <= k < ids.len() implies (#[trigger] stands_in(rule, atoms, var, k)
        <==> has_var(rule, AtomSignature { is_positive: true, rhs_id: ids[k] }, var)) by {
        assert(atoms[k].rhs_id == ids[k]);
    }
    if vars_of(rule, true, ids).contains(var) {
        let k = choose|k: int|
            0 <= k < ids.len() && has_var(
                rule,
                AtomSignature { is_positive: true, rhs_id: #[trigger] ids[k] },
                var,
            );
        assert(stands_in(rule, atoms, var, k));
    }
    if trace_one(rule, var, atoms) is Some {
        let k = choose|k: int| #[trigger] stands_in(rule, atoms, var, k);
        assert(has_var(rule, AtomSignature { is_positive: true, rhs_id: ids[k] }, var));
    }
}

/// Whether some numbers stand first among others.
spec fn come_first(ids: Seq<usize>, full: Seq<usize>) -> bool {
    ids.len() <= full.len() && full.take(ids.len() as int) == ids
}

/// Variables of the first atoms are traced through all of them as through the first.
proof fn lemma_trace_first(
    rule: FLRuleModel,
    ids: Seq<usize>,
    full: Seq<usize>,
    var: Seq<char>,
)
    requires
        are_positions_small(rule),
        forall|k: int| 0 <= k < ids.len() ==> (#[trigger] ids[k]) < atoms_of(rule, true).len(),
        come_first(ids, full),
        vars_of(rule, true, ids).contains(var),
    ensures
        trace_one(rule, var, atoms_at(full)) == trace_one(rule, var, atoms_at(ids)),
        trace_one(rule, var, atoms_at(full)) is Some,
{
    let rest = full.skip(ids.len() as int);
    lemma_traceable(rule, ids, var);
    assert(atoms_at(full) =~= atoms_at(ids) + atoms_at(rest)) by {
        assert forall|i: int| 0 <= i < full.len() implies atoms_at(full)[i] == (atoms_at(ids)
            + atoms_at(rest))[i] by {
            if i < ids.len() {
                assert(full.take(ids.len() as int)[i] == full[i]);
            }
        }
    }
    lemma_trace_parts(rule, var, atoms_at(ids), atoms_at(rest));
}

/// Variables that are traced alike through atoms give the same columns.
proof fn lemma_same_trace(
    rule: FLRuleModel,
    vars: Seq<Seq<char>>,
    a: Seq<AtomSignature>,
    b: Seq<AtomSignature>,
)
    requires
        all_positive(a),
        all_positive(b),
        forall|v: Seq<char>| #[trigger]
            vars.contains(v) ==> trace_one(rule, v, a) == trace_one(rule, v, b) && trace_one(
                rule,
                v,
                a,
            ) is Some,
    ensures
        trace(rule, vars, a) is Some,
        trace(rule, vars, a) == trace(rule, vars, b),
{
    law_traces_succeed(rule, vars, a);
    law_traces_succeed(rule, vars, b);
    assert forall|k: int| 0 <= k < vars.len() implies trace_one(rule, #[trigger] vars[k], a)
        == trace_one(rule, vars[k], b) && trace_one(rule, vars[k], a) is Some by {
        assert(vars.contains(vars[k]));
    }
    let x = trace(rule, vars, a)->0;
    let y = trace(rule, vars, b)->0;
    assert forall|k: int| 0 <= k < vars.len() implies x[k] == y[k] by {
        assert(trace_one(rule, vars[k], a) == Some(x[k]));
        assert(trace_one(rule, vars[k], b) == Some(y[k]));
    }
    assert(x =~= y);
}

/// Whether an atom besides the core is covered by another one.
spec fn is_covered(rule: FLRuleModel, i: int, id: usize) -> bool {
    !is_core(rule, i) && subset(atom_strs(rule, true, i), key_vars(rule, atom_of(id)))
}

/// Whether a tree was planned for what it was asked: it puts out the columns of the
/// variables, and every atom that is covered by one of its atoms has been joined.
#[verifier::opaque]
spec fn is_done(
    rule: FLRuleModel,
    tree: JoinTree,
    full: Seq<usize>,
    keys: Seq<Seq<char>>,
    values: Seq<Seq<char>>,
    open_subs: Seq<bool>,
    planned: Option<PlannedModel>,
) -> bool {
    let atoms = atoms_at(full);
    &&& planned matches Some(done) && {
        &&& done.open_negated.len() == 0
        &&& done.open_subs.len() == atoms_of(rule, true).len()
        &&& trace(rule, keys, atoms) == Some(done.steps.last.output.keys)
        &&& trace(rule, values, atoms) == Some(done.steps.last.output.values)
        &&& forall|i: int|
            0 <= i < done.open_subs.len() && #[trigger] done.open_subs[i] ==> open_subs[i]
        &&& forall|i: int, k: int|
            0 <= i < done.open_subs.len() && 0 <= k < tree.preorder().len() && #[trigger] is_covered(
                rule,
                i,
                tree.preorder()[k],
            ) ==> !done.open_subs[i]
    }
}

/// Whether what a tree is asked for fits it: all its variables and no others, and
/// comparisons of them.
#[verifier::opaque]
spec fn is_asked(
    rule: FLRuleModel,
    tree: JoinTree,
    full: Seq<usize>,
    keys: Seq<Seq<char>>,
    values: Seq<Seq<char>>,
    comps: Seq<usize>,
) -> bool {
    &&& is_over(rule, tree)
    &&& come_first(tree.preorder(), full)
    &&& forall|v: Seq<char>| #[trigger]
        vars_of(rule, true, tree.preorder()).contains(v) <==> keys.contains(v) || values.contains(v)
    &&& forall|k: int|
        0 <= k < comps.len() ==> (#[trigger] comps[k]) < comparisons(rule.rhs).len() && subset(
            comparisons(rule.rhs)[comps[k] as int].vars(),
            vars_of(rule, true, tree.preorder()),
        )
}

/// Whether every positive atom of a rule has variables, and none is negated.
spec fn is_simple(rule: FLRuleModel) -> bool {
    &&& are_positions_small(rule)
    &&& atoms_of(rule, false).len() == 0
    &&& forall|id: usize|
        id < atoms_of(rule, true).len() ==> key_vars(rule, #[trigger] atom_of(id)).len() > 0
}

proof fn lemma_one_planned(
    rule: FLRuleModel,
    id: usize,
    full: Seq<usize>,
    keys: Seq<Seq<char>>,
    values: Seq<Seq<char>>,
    open_negated: Seq<bool>,
    open_subs: Seq<bool>,
    comps: Seq<usize>,
)
    requires
        is_simple(rule),
        is_asked(rule, JoinTree::Atom(id), full, keys, values, comps),
        open_negated.len() == 0,
        open_subs.len() == atoms_of(rule, true).len(),
    ensures
        is_done(
            rule,
            JoinTree::Atom(id),
            full,
            keys,
            values,
            open_subs,
            tree_steps(
                rule,
                JoinTree::Atom(id),
                full,
                keys,
                values,
                open_negated,
                open_subs,
                comps,
            ),
        ),
{
    reveal(is_asked);
    reveal(is_done);
    let tree = JoinTree::Atom(id);
    let pre = tree.preorder();
    let n = atoms_of(rule, true).len();
    let atom = atom_of(id);
    assert(pre == seq![id]);
    assert(pre[0] == id);
    assert(id < n);
    let vars = key_vars(rule, atom);
    let filters = filters_of(rule, atom, open_negated, open_subs);
    let wanted = sub_atom_ids(rule, vars, n);
    law_covered_atoms(rule, vars, n, atom);
    assert forall|i: int| 0 <= i < wanted.len() implies (#[trigger] wanted[i]).rhs_id
        < open_subs.len() by {}
    lemma_take_open(wanted, open_subs);
    assert(filters.1.0.len() == 0 && filters.1.1 == open_negated);
    let subs = filters.0.0;
    lemma_strs(rule, id);
    assert(are_subs(rule, id, subs)) by {
        assert forall|k: int| 0 <= k < subs.len() implies (#[trigger] subs[k]).is_positive
            && subs[k].rhs_id < n && key_vars(rule, subs[k]).len() > 0 && all_in_atom(
            rule,
            id,
            key_vars(rule, subs[k]),
        ) by {
            assert(wanted.contains(subs[k]));
            law_covered_atoms(rule, vars, n, subs[k]);
            let sub = subs[k].rhs_id;
            assert(subs[k] == atom_of(sub));
            lemma_strs(rule, sub);
            assert forall|v: Seq<char>| #[trigger] key_vars(rule, subs[k]).contains(
                v,
            ) implies has_var(rule, atom_of(id), v) by {
                assert(has_var(rule, atom_of(sub), v));
                assert(atom_strs(rule, true, sub as int).contains(v));
                assert(vars.contains(v));
            }
        }
    }
    assert forall|v: Seq<char>| true implies (#[trigger] vars_of(rule, true, pre).contains(v)
        <==> has_var(rule, atom, v)) by {
        lemma_vars_of(rule, pre, v);
        if has_var(rule, atom, v) {
            assert(has_var(rule, AtomSignature { is_positive: true, rhs_id: pre[0] }, v));
        }
    }
    assert(all_in_atom(rule, id, keys)) by {
        assert forall|v: Seq<char>| #[trigger] keys.contains(v) implies has_var(
            rule,
            atom_of(id),
            v,
        ) by {
            assert(vars_of(rule, true, pre).contains(v));
        }
    }
    assert(all_in_atom(rule, id, values)) by {
        assert forall|v: Seq<char>| #[trigger] values.contains(v) implies has_var(
            rule,
            atom_of(id),
            v,
        ) by {
            assert(vars_of(rule, true, pre).contains(v));
        }
    }
    assert(keys.len() + values.len() > 0) by {
        assert(key_vars(rule, atom_of(id)).len() > 0);
        assert(vars.contains(vars[0]));
        assert(has_var(rule, atom, vars[0]));
        assert(vars_of(rule, true, pre).contains(vars[0]));
    }
    assert(all_compared_in_atom(rule, id, comps)) by {
        assert forall|k: int| 0 <= k < comps.len() implies (#[trigger] comps[k]) < comparisons(
            rule.rhs,
        ).len() && all_in_atom(rule, id, comparisons(rule.rhs)[comps[k] as int].vars()) by {
            let own = comparisons(rule.rhs)[comps[k] as int].vars();
            assert forall|v: Seq<char>| #[trigger] own.contains(v) implies has_var(
                rule,
                atom_of(id),
                v,
            ) by {
                assert(vars_of(rule, true, pre).contains(v));
            }
        }
    }
    lemma_semijoins(rule, id, subs, keys, values, comps);
    let atoms = seq![atom];
    assert(atoms_at(pre) =~= atoms);
    assert(all_positive(atoms_at(full)));
    assert(all_positive(atoms));
    assert forall|v: Seq<char>| keys.contains(v) || values.contains(v) implies trace_one(
        rule,
        v,
        atoms_at(full),
    ) == trace_one(rule, v, atoms) && trace_one(rule, v, atoms_at(full)) is Some by {
        assert(vars_of(rule, true, pre).contains(v));
        lemma_trace_first(rule, pre, full, v);
    }
    lemma_same_trace(rule, keys, atoms_at(full), atoms);
    lemma_same_trace(rule, values, atoms_at(full), atoms);
    assert forall|i: int, k: int|
        0 <= i < n && 0 <= k < pre.len() && #[trigger] is_covered(
            rule,
            i,
            pre[k],
        ) implies !filters.0.1[i] by {
        law_covered_atoms(rule, vars, n, atom_of(i as usize));
        assert(wanted.contains(atom_of(i as usize)));
        let j = choose|j: int| 0 <= j < wanted.len() && wanted[j] == atom_of(i as usize);
        assert(!filters.0.1[wanted[j].rhs_id as int]);
    }
}

proof fn lemma_within(
    rule: FLRuleModel,
    vars: Seq<Seq<char>>,
    ids: Seq<usize>,
)
    requires
        forall|k: int| 0 <= k < ids.len() ==> (#[trigger] ids[k]) < comparisons(rule.rhs).len(),
    ensures
        forall|k: int|
            0 <= k < comps_within(rule, vars, ids).len() ==> (#[trigger] comps_within(
                rule,
                vars,
                ids,
            )[k]) < comparisons(rule.rhs).len() && subset(
                comparisons(rule.rhs)[comps_within(rule, vars, ids)[k] as int].vars(),
                vars,
            ),
    decreases ids.len(),
{
    if ids.len() > 0 {
        let front = ids.drop_last();
        assert forall|k: int| 0 <= k < front.len() implies (#[trigger] front[k]) < comparisons(
            rule.rhs,
        ).len() by {
            assert(front[k] == ids[k]);
        }
        lemma_within(rule, vars, front);
        assert(ids[ids.len() - 1] < comparisons(rule.rhs).len());
        let before = comps_within(rule, vars, front);
        let all = comps_within(rule, vars, ids);
        assert forall|k: int| 0 <= k < all.len() implies (#[trigger] all[k]) < comparisons(
            rule.rhs,
        ).len() && subset(comparisons(rule.rhs)[all[k] as int].vars(), vars) by {
            if k < before.len() {
                assert(all[k] == before[k]);
            }
        }
    }
}

proof fn lemma_across(
    rule: FLRuleModel,
    left: Seq<Seq<char>>,
    right: Seq<Seq<char>>,
    ids: Seq<usize>,
)
    requires
        forall|k: int| 0 <= k < ids.len() ==> (#[trigger] ids[k]) < comparisons(rule.rhs).len(),
    ensures
        forall|k: int|
            0 <= k < comps_across(rule, left, right, ids).len() ==> (#[trigger] comps_across(
                rule,
                left,
                right,
                ids,
            )[k]) < comparisons(rule.rhs).len(),
    decreases ids.len(),
{
    if ids.len() > 0 {
        let front = ids.drop_last();
        assert forall|k: int| 0 <= k < front.len() implies (#[trigger] front[k]) < comparisons(
            rule.rhs,
        ).len() by {
            assert(front[k] == ids[k]);
        }
        lemma_across(rule, left, right, front);
        assert(ids[ids.len() - 1] < comparisons(rule.rhs).len());
        let before = comps_across(rule, left, right, front);
        let all = comps_across(rule, left, right, ids);
        assert forall|k: int| 0 <= k < all.len() implies (#[trigger] all[k]) < comparisons(
            rule.rhs,
        ).len() by {
            if k < before.len() {
                assert(all[k] == before[k]);
            }
        }
    }
}

/// What a side of a join is asked for: the variables of both sides as keys, and those of
/// the side alone as values.
proof fn lemma_side(
    own: Seq<Seq<char>>,
    other: Seq<Seq<char>>,
    wanted: Seq<Seq<char>>,
    var: Seq<char>,
)
    requires
        own.contains(var) ==> wanted.contains(var),
    ensures
        side_values(own, other, wanted).contains(var) <==> own.contains(var) && !other.contains(
            var,
        ),
        common(own, other).contains(var) <==> own.contains(var) && other.contains(var),
{
    lemma_left(own, other, var);
    law_common_items_stand_in_both(without(own, other), wanted, var);
    law_common_items_stand_in_both(own, other, var);
}

proof fn lemma_order_parts(rest: JoinTree, last: JoinTree, full: Seq<usize>)
    requires
        come_first(rest.preorder() + last.preorder(), full),
    ensures
        come_first(rest.preorder(), full),
{
    let all = rest.preorder() + last.preorder();
    assert(full.take(rest.preorder().len() as int) =~= rest.preorder()) by {
        assert forall|i: int| 0 <= i < rest.preorder().len() implies full[i]
            == rest.preorder()[i] by {
            assert(full.take(all.len() as int)[i] == full[i]);
            assert(all[i] == rest.preorder()[i]);
        }
    }
}

/// A join of two trees that were planned can be planned.
proof fn lemma_join_made(
    rule: FLRuleModel,
    rest: JoinTree,
    last: JoinTree,
    full: Seq<usize>,
    left: StepsModel,
    right: StepsModel,
    join_keys: Seq<Seq<char>>,
    rest_values: Seq<Seq<char>>,
    last_values: Seq<Seq<char>>,
    sides: Seq<Seq<char>>,
    keys: Seq<Seq<char>>,
    values: Seq<Seq<char>>,
    vars: Seq<Seq<char>>,
    across: Seq<usize>,
    comps: Seq<usize>,
)
    requires
        are_positions_small(rule),
        is_over(rule, rest),
        is_over(rule, last),
        come_first(rest.preorder() + last.preorder(), full),
        trace(rule, join_keys, atoms_at(full)) == Some(left.last.output.keys),
        trace(rule, rest_values, atoms_at(full)) == Some(left.last.output.values),
        trace(rule, last_values, atoms_at(last.preorder())) == Some(right.last.output.values),
        forall|v: Seq<char>| #[trigger]
            vars_of(rule, true, rest.preorder()).contains(v) ==> join_keys.contains(v)
                || rest_values.contains(v),
        forall|v: Seq<char>| #[trigger]
            vars_of(rule, true, last.preorder()).contains(v) && !vars_of(
                rule,
                true,
                rest.preorder(),
            ).contains(v) ==> last_values.contains(v),
        forall|v: Seq<char>|
            #![trigger keys.contains(v)]
            #![trigger values.contains(v)]
            #![trigger vars.contains(v)]
            keys.contains(v) || values.contains(v) || vars.contains(v) ==> vars_of(
                rule,
                true,
                rest.preorder(),
            ).contains(v) || vars_of(rule, true, last.preorder()).contains(v),
        forall|k: int| 0 <= k < across.len() ==> (#[trigger] across[k]) < comparisons(
            rule.rhs,
        ).len(),
    ensures
        ({
            let steps = join_steps(
                rule,
                left,
                right,
                atoms_at(full),
                Seq::empty(),
                sides,
                keys,
                values,
                assembled(rule, across, atoms_at(full), vars),
                comps,
            );
            &&& steps is Some
            &&& trace(rule, keys, atoms_at(full)) == Some(steps->0.last.output.keys)
            &&& trace(rule, values, atoms_at(full)) == Some(steps->0.last.output.values)
        }),
{
    let atoms = atoms_at(full);
    let columns = jn_columns(
        left.last.output.keys,
        left.last.output.values,
        right.last.output.values,
    );
    let before = rest.preorder();
    let behind = last.preorder();
    lemma_order_parts(rest, last, full);
    assert(all_positive(atoms));
    assert forall|v: Seq<char>|
        vars_of(rule, true, before).contains(v) || vars_of(rule, true, behind).contains(
            v,
        ) implies leads_to(rule, columns, atoms, v) by {
        if vars_of(rule, true, before).contains(v) {
            if join_keys.contains(v) {
                lemma_traced_contains(rule, join_keys, atoms, v);
            } else {
                lemma_traced_contains(rule, rest_values, atoms, v);
            }
        } else {
            assert(last_values.contains(v));
            lemma_traced_contains(rule, last_values, atoms_at(behind), v);
            lemma_traceable(rule, before, v);
            let beyond = full.skip((before.len() + behind.len()) as int);
            assert(atoms =~= atoms_at(before) + (atoms_at(behind) + atoms_at(beyond))) by {
                assert forall|i: int| 0 <= i < full.len() implies atoms[i] == (atoms_at(before) + (
                atoms_at(behind) + atoms_at(beyond)))[i] by {
                    if i < before.len() + behind.len() {
                        assert(full.take((before + behind).len() as int)[i] == full[i]);
                        assert((before + behind)[i] == full[i]);
                    }
                }
            }
            lemma_trace_parts(rule, v, atoms_at(before), atoms_at(behind) + atoms_at(beyond));
            lemma_trace_parts(rule, v, atoms_at(behind), atoms_at(beyond));
        }
        lemma_join_columns(
            left.last.output.keys,
            left.last.output.values,
            right.last.output.values,
            trace_one(rule, v, atoms)->0,
        );
    }
    assert forall|v: Seq<char>| #[trigger] keys.contains(v) implies leads_to(
        rule,
        columns,
        atoms,
        v,
    ) by {}
    assert forall|v: Seq<char>| #[trigger] values.contains(v) implies leads_to(
        rule,
        columns,
        atoms,
        v,
    ) by {}
    assert forall|v: Seq<char>| #[trigger] vars.contains(v) implies leads_to(
        rule,
        columns,
        atoms,
        v,
    ) by {}
    lemma_traced(rule, columns, atoms, keys);
    lemma_traced(rule, columns, atoms, values);
    lemma_compared(rule, columns, atoms, vars, across);
}

/// Both sides of a join are asked for all their variables where the join is, and nothing
/// is left to be decided by the join but its comparisons.
proof fn lemma_sides_asked(
    rule: FLRuleModel,
    rest: JoinTree,
    last: JoinTree,
    full: Seq<usize>,
    keys: Seq<Seq<char>>,
    values: Seq<Seq<char>>,
    open_negated: Seq<bool>,
    comps: Seq<usize>,
)
    requires
        is_simple(rule),
        is_asked(
            rule,
            JoinTree::Join(Box::new(rest), Box::new(last)),
            full,
            keys,
            values,
            comps,
        ),
        open_negated.len() == 0,
    ensures
        ({
            let split = split_of(rule, rest, last, keys, values, open_negated, comps);
            let rest_all = vars_of(rule, true, rest.preorder());
            let last_all = vars_of(rule, true, last.preorder());
            &&& is_asked(
                rule,
                last,
                last.preorder(),
                split.join_keys,
                split.last_values,
                split.last_comps,
            )
            &&& is_asked(rule, rest, full, split.join_keys, split.rest_values, split.rest_comps)
            &&& comps_covered(rule, split.rest_vars, split.last_vars, comps)
            &&& split.negated == Seq::<AtomSignature>::empty()
            &&& split.open.len() == 0
            &&& come_first(rest.preorder() + last.preorder(), full)
            &&& forall|v: Seq<char>| #[trigger]
                rest_all.contains(v) ==> split.join_keys.contains(v) || split.rest_values.contains(v)
            &&& forall|v: Seq<char>| #[trigger]
                last_all.contains(v) && !rest_all.contains(v) ==> split.last_values.contains(v)
            &&& forall|v: Seq<char>|
                #![trigger keys.contains(v)]
                #![trigger values.contains(v)]
                #![trigger (split.rest_vars + split.last_vars).contains(v)]
                keys.contains(v) || values.contains(v) || (split.rest_vars
                    + split.last_vars).contains(v) ==> rest_all.contains(v) || last_all.contains(v)
            &&& forall|k: int|
                0 <= k < split.across.len() ==> (#[trigger] split.across[k]) < comparisons(
                    rule.rhs,
                ).len()
        }),
{
    reveal(is_asked);
    let tree = JoinTree::Join(Box::new(rest), Box::new(last));
    let before = rest.preorder();
    let behind = last.preorder();
    let all = tree.preorder();
    assert(all == before + behind);
    let rest_all = vars_of(rule, true, before);
    let last_all = vars_of(rule, true, behind);
    let split = split_of(rule, rest, last, keys, values, open_negated, comps);
    let rest_vars = split.rest_vars;
    let last_vars = split.last_vars;
    let wanted = keys + values + comps_vars(rule, split.across) + vars_of(
        rule,
        false,
        ids_of(split.negated),
    );
    assert(split.negated == Seq::<AtomSignature>::empty());
    lemma_is_over_parts(rule, rest, last);
    lemma_order_parts(rest, last, full);
    lemma_distinct(rest_all);
    lemma_distinct(last_all);
    lemma_vars_of_both(rule, before, behind);
    assert forall|v: Seq<char>| true implies {
        &&& (#[trigger] vars_of(rule, true, all).contains(v)) <==> rest_all.contains(v)
            || last_all.contains(v)
        &&& vars_of(rule, true, all).contains(v) ==> wanted.contains(v)
    } by {
        lemma_either(rest_all, last_all, v);
        lemma_either(keys, values, v);
        lemma_either(keys + values, comps_vars(rule, split.across), v);
        lemma_either(
            keys + values + comps_vars(rule, split.across),
            vars_of(rule, false, ids_of(split.negated)),
            v,
        );
    }
    assert forall|v: Seq<char>| true implies {
        &&& (#[trigger] last_all.contains(v)) <==> split.join_keys.contains(v)
            || split.last_values.contains(v)
        &&& split.last_values.contains(v) <==> last_all.contains(v) && !rest_all.contains(v)
    } by {
        assert(last_all.contains(v) ==> vars_of(rule, true, all).contains(v));
        lemma_side(last_vars, rest_vars, wanted, v);
    }
    assert forall|v: Seq<char>| true implies ((#[trigger] rest_all.contains(v))
        <==> split.join_keys.contains(v) || split.rest_values.contains(v)) by {
        assert(rest_all.contains(v) ==> vars_of(rule, true, all).contains(v));
        assert(last_all.contains(v) ==> vars_of(rule, true, all).contains(v));
        lemma_side(rest_vars, last_vars, wanted, v);
        lemma_side(last_vars, rest_vars, wanted, v);
    }
    assert forall|v: Seq<char>|
        keys.contains(v) || values.contains(v) || (rest_vars + last_vars).contains(
            v,
        ) implies rest_all.contains(v) || last_all.contains(v) by {
        lemma_either(rest_vars, last_vars, v);
        if keys.contains(v) || values.contains(v) {
            assert(vars_of(rule, true, all).contains(v));
        }
    }
    assert forall|k: int| 0 <= k < comps.len() implies (#[trigger] comps[k]) < comparisons(
        rule.rhs,
    ).len() by {}
    lemma_within(rule, last_vars, comps);
    lemma_within(rule, rest_vars, comps);
    lemma_across(rule, rest_vars, last_vars, comps);
    assert(comps_covered(rule, rest_vars, last_vars, comps)) by {
        assert forall|k: int| 0 <= k < comps.len() implies (#[trigger] comps[k]) < comparisons(
            rule.rhs,
        ).len() && subset(comp_vars(rule, comps[k]), rest_vars + last_vars) by {
            assert forall|v: Seq<char>| #[trigger] comp_vars(rule, comps[k]).contains(
                v,
            ) implies (rest_vars + last_vars).contains(v) by {
                assert(vars_of(rule, true, all).contains(v));
                lemma_either(rest_vars, last_vars, v);
            }
        }
    }
    assert(behind.take(behind.len() as int) =~= behind);
    assert forall|k: int| 0 <= k < split.last_comps.len() implies (#[trigger] split.last_comps[k])
        < comparisons(rule.rhs).len() && subset(
        comparisons(rule.rhs)[split.last_comps[k] as int].vars(),
        last_all,
    ) by {
        assert(subset(comparisons(rule.rhs)[split.last_comps[k] as int].vars(), last_vars));
    }
    assert forall|k: int| 0 <= k < split.rest_comps.len() implies (#[trigger] split.rest_comps[k])
        < comparisons(rule.rhs).len() && subset(
        comparisons(rule.rhs)[split.rest_comps[k] as int].vars(),
        rest_all,
    ) by {
        assert(subset(comparisons(rule.rhs)[split.rest_comps[k] as int].vars(), rest_vars));
    }
}

/// The steps of a tree of two sides, put together.
proof fn lemma_put_together(
    rule: FLRuleModel,
    rest: JoinTree,
    last: JoinTree,
    full: Seq<usize>,
    keys: Seq<Seq<char>>,
    values: Seq<Seq<char>>,
    open_negated: Seq<bool>,
    open_subs: Seq<bool>,
    comps: Seq<usize>,
    left: PlannedModel,
    right: PlannedModel,
    steps: StepsModel,
)
    requires
        ({
            let split = split_of(rule, rest, last, keys, values, open_negated, comps);
            &&& comps_covered(rule, split.rest_vars, split.last_vars, comps)
            &&& last_planned(rule, last, split, open_subs) == Some(right)
            &&& rest_planned(rule, rest, full, split, right) == Some(left)
            &&& split_steps(rule, full, split, left, right, keys, values, comps) == Some(steps)
        }),
    ensures
        tree_steps(
            rule,
            JoinTree::Join(Box::new(rest), Box::new(last)),
            full,
            keys,
            values,
            open_negated,
            open_subs,
            comps,
        ) == Some(
            PlannedModel { steps, open_negated: left.open_negated, open_subs: left.open_subs },
        ),
{
}

/// What both sides of a join have joined, the join has.
proof fn lemma_both_done(
    rule: FLRuleModel,
    rest: JoinTree,
    last: JoinTree,
    full: Seq<usize>,
    keys: Seq<Seq<char>>,
    values: Seq<Seq<char>>,
    open_subs: Seq<bool>,
    split: Split,
    left: PlannedModel,
    right: PlannedModel,
    steps: StepsModel,
)
    requires
        is_done(
            rule,
            last,
            last.preorder(),
            split.join_keys,
            split.last_values,
            open_subs,
            Some(right),
        ),
        is_done(
            rule,
            rest,
            full,
            split.join_keys,
            split.rest_values,
            right.open_subs,
            Some(left),
        ),
        trace(rule, keys, atoms_at(full)) == Some(steps.last.output.keys),
        trace(rule, values, atoms_at(full)) == Some(steps.last.output.values),
    ensures
        is_done(
            rule,
            JoinTree::Join(Box::new(rest), Box::new(last)),
            full,
            keys,
            values,
            open_subs,
            Some(
                PlannedModel { steps, open_negated: left.open_negated, open_subs: left.open_subs },
            ),
        ),
{
    reveal(is_done);
    let before = rest.preorder();
    let behind = last.preorder();
    let all = JoinTree::Join(Box::new(rest), Box::new(last)).preorder();
    assert(all == before + behind);
    assert forall|i: int|
        0 <= i < left.open_subs.len() && #[trigger] left.open_subs[i] implies open_subs[i] by {
        assert(right.open_subs[i]);
    }
    assert forall|i: int, k: int|
        0 <= i < left.open_subs.len() && 0 <= k < all.len() && #[trigger] is_covered(
            rule,
            i,
            all[k],
        ) implies !left.open_subs[i] by {
        if k < before.len() {
            assert(all[k] == before[k]);
            assert(is_covered(rule, i, before[k]));
        } else {
            assert(all[k] == behind[k - before.len()]);
            assert(is_covered(rule, i, behind[k - before.len()]));
            assert(!right.open_subs[i]);
        }
    }
}

/// A tree that is asked for all its variables can be planned.
proof fn lemma_tree(
    rule: FLRuleModel,
    tree: JoinTree,
    full: Seq<usize>,
    keys: Seq<Seq<char>>,
    values: Seq<Seq<char>>,
    open_negated: Seq<bool>,
    open_subs: Seq<bool>,
    comps: Seq<usize>,
)
    requires
        is_simple(rule),
        is_asked(rule, tree, full, keys, values, comps),
        open_negated.len() == 0,
        open_subs.len() == atoms_of(rule, true).len(),
    ensures
        is_done(
            rule,
            tree,
            full,
            keys,
            values,
            open_subs,
            tree_steps(rule, tree, full, keys, values, open_negated, open_subs, comps),
        ),
    decreases tree,
{
    match tree {
        JoinTree::Atom(id) => {
            lemma_one_planned(rule, id, full, keys, values, open_negated, open_subs, comps);
        },
        JoinTree::Join(rest, last) => {
            let split = split_of(rule, *rest, *last, keys, values, open_negated, comps);
            lemma_sides_asked(rule, *rest, *last, full, keys, values, open_negated, comps);
            lemma_tree(
                rule,
                *last,
                last.preorder(),
                split.join_keys,
                split.last_values,
                split.open,
                open_subs,
                split.last_comps,
            );
            let right = last_planned(rule, *last, split, open_subs)->0;
            lemma_done_parts(
                rule,
                *last,
                last.preorder(),
                split.join_keys,
                split.last_values,
                open_subs,
                last_planned(rule, *last, split, open_subs),
            );
            lemma_tree(
                rule,
                *rest,
                full,
                split.join_keys,
                split.rest_values,
                right.open_negated,
                right.open_subs,
                split.rest_comps,
            );
            let left = rest_planned(rule, *rest, full, split, right)->0;
            lemma_done_parts(
                rule,
                *rest,
                full,
                split.join_keys,
                split.rest_values,
                right.open_subs,
                rest_planned(rule, *rest, full, split, right),
            );
            lemma_over(rule, *rest, full, split.join_keys, split.rest_values, split.rest_comps);
            lemma_over(
                rule,
                *last,
                last.preorder(),
                split.join_keys,
                split.last_values,
                split.last_comps,
            );
            lemma_join_made(
                rule,
                *rest,
                *last,
                full,
                left.steps,
                right.steps,
                split.join_keys,
                split.rest_values,
                split.last_values,
                split.join_keys + split.rest_values + split.last_values,
                keys,
                values,
                split.rest_vars + split.last_vars,
                split.across,
                comps,
            );
            let steps = split_steps(rule, full, split, left, right, keys, values, comps)->0;
            lemma_put_together(
                rule,
                *rest,
                *last,
                full,
                keys,
                values,
                open_negated,
                open_subs,
                comps,
                left,
                right,
                steps,
            );
            lemma_both_done(
                rule,
                *rest,
                *last,
                full,
                keys,
                values,
                open_subs,
                split,
                left,
                right,
                steps,
            );
        },
    }
}

proof fn lemma_over(
    rule: FLRuleModel,
    tree: JoinTree,
    full: Seq<usize>,
    keys: Seq<Seq<char>>,
    values: Seq<Seq<char>>,
    comps: Seq<usize>,
)
    requires
        is_asked(rule, tree, full, keys, values, comps),
    ensures
        is_over(rule, tree),
{
    reveal(is_asked);
}

proof fn lemma_done_parts(
    rule: FLRuleModel,
    tree: JoinTree,
    full: Seq<usize>,
    keys: Seq<Seq<char>>,
    values: Seq<Seq<char>>,
    open_subs: Seq<bool>,
    planned: Option<PlannedModel>,
)
    requires
        is_done(rule, tree, full, keys, values, open_subs, planned),
    ensures
        planned matches Some(done) && done.open_negated.len() == 0 && done.open_subs.len()
            == atoms_of(rule, true).len() && trace(rule, keys, atoms_at(full)) == Some(
            done.steps.last.output.keys,
        ) && trace(rule, values, atoms_at(full)) == Some(done.steps.last.output.values),
{
    reveal(is_done);
}

/// Whether an atom has a variable.
pub open spec fn has_variables(rule: FLRuleModel, id: usize) -> bool {
    exists|v: Seq<char>| #[trigger] has_var(rule, atom_of(id), v)
}

/// A rule without negation can be planned where its head uses each variable of its atoms
/// and no other, its comparisons use no others, and each of its atoms has a variable; by
/// any join tree, however many atoms it joins.
pub proof fn law_rules_that_keep_their_variables_can_be_planned(
    rule: FLRuleModel,
    is_optimized: bool,
)
    requires
        are_positions_small(rule),
        comparisons(rule.rhs).len() <= usize::MAX,
        atoms_of(rule, true).len() > 0,
        atoms_of(rule, false).len() == 0,
        forall|id: usize| id < atoms_of(rule, true).len() ==> #[trigger] has_variables(rule, id),
        forall|v: Seq<char>| #[trigger]
            head_vars(rule.head.head_arguments).contains(v) <==> occurs(atoms_of(rule, true), v),
        forall|c: int, v: Seq<char>|
            0 <= c < comparisons(rule.rhs).len() && #[trigger] comparisons(
                rule.rhs,
            )[c].vars().contains(v) ==> occurs(atoms_of(rule, true), v),
    ensures
        is_plannable(rule, is_optimized),
{
    let n = atoms_of(rule, true).len();
    let vars = head_vars(rule.head.head_arguments);
    lemma_core_below(rule, n);
    law_core_atoms_cover(rule, 0);
    let c = choose|c: int|
        0 <= c < positive_atoms(rule.rhs).len() && #[trigger] is_core(rule, c) && subset(
            atom_strs(rule, true, 0),
            atom_strs(rule, true, c),
        );
    assert(core_ids(rule).contains(c as usize));
    assert(is_simple(rule)) by {
        assert forall|id: usize| id < n implies key_vars(rule, #[trigger] atom_of(id)).len() > 0 by {
            assert(has_variables(rule, id));
            let v = choose|v: Seq<char>| #[trigger] has_var(rule, atom_of(id), v);
            lemma_strs(rule, id);
            assert(key_vars(rule, atom_of(id)).contains(v));
        }
    }
    assert forall|shape: JoinTree| #[trigger] is_join_tree(
        rule,
        is_optimized,
        shape,
    ) implies rule_steps(rule, shape) is Some by {
        let plan = choose|plan: PlanTree| #[trigger]
            plan.describes(rule, is_optimized) && plan.shape == shape;
        law_join_tree_covers(rule, is_optimized, plan);
        let order = shape.preorder();
        let none = Seq::<Seq<char>>::empty();
        let open_negated = Seq::new(atoms_of(rule, false).len(), |i: int| true);
        let open_subs = Seq::new(n, |i: int| !is_core(rule, i));
        let comps = Seq::new(comparisons(rule.rhs).len(), |i: int| i as usize);
        assert forall|v: Seq<char>| true implies (#[trigger] vars_of(rule, true, order).contains(v)
            <==> occurs(atoms_of(rule, true), v)) by {
            lemma_occurring(rule, shape, v);
        }
        assert(is_asked(rule, shape, order, none, vars, comps)) by {
            reveal(is_asked);
            assert(order.take(order.len() as int) =~= order);
            assert forall|v: Seq<char>| true implies (#[trigger] vars_of(
                rule,
                true,
                order,
            ).contains(v) <==> none.contains(v) || vars.contains(v)) by {
                assert(vars.contains(v) <==> occurs(atoms_of(rule, true), v));
            }
            assert forall|k: int| 0 <= k < comps.len() implies (#[trigger] comps[k])
                < comparisons(rule.rhs).len() && subset(
                comparisons(rule.rhs)[comps[k] as int].vars(),
                vars_of(rule, true, order),
            ) by {
                assert forall|v: Seq<char>| #[trigger] comparisons(
                    rule.rhs,
                )[comps[k] as int].vars().contains(v) implies vars_of(rule, true, order).contains(
                    v,
                ) by {
                    assert(comparisons(rule.rhs)[k].vars().contains(v));
                }
            }
        }
        lemma_tree(rule, shape, order, none, vars, open_negated, open_subs, comps);
        let planned = tree_steps(
            rule,
            shape,
            order,
            none,
            vars,
            open_negated,
            open_subs,
            comps,
        )->0;
        reveal(is_done);
        assert(none_open(planned.open_negated));
        assert(none_open(planned.open_subs)) by {
            assert forall|i: int| 0 <= i < planned.open_subs.len() implies
                !#[trigger] planned.open_subs[i] by {
                if !is_core(rule, i) {
                    lemma_somewhere(rule, shape, i);
                    let k = choose|k: int|
                        0 <= k < order.len() && #[trigger] is_covered(rule, i, order[k]);
                    assert(is_covered(rule, i, shape.preorder()[k]));
                } else {
                    assert(!open_subs[i]);
                }
            }
        }
    }
}

/// Each variable of the positive atoms of a rule stands in an atom that its join tree
/// joins.
proof fn lemma_occurring(rule: FLRuleModel, tree: JoinTree, var: Seq<char>)
    requires
        are_positions_small(rule),
        joins_core(rule, tree),
        forall|v: usize| #[trigger] tree.preorder().contains(v) <==> core_ids(rule).contains(v),
    ensures
        vars_of(rule, true, tree.preorder()).contains(var) <==> occurs(atoms_of(rule, true), var),
{
    let order = tree.preorder();
    let n = atoms_of(rule, true).len();
    lemma_core_below(rule, n);
    assert forall|k: int| 0 <= k < order.len() implies (#[trigger] order[k]) < n by {
        assert(order.contains(order[k]));
    }
    lemma_vars_of(rule, order, var);
    if occurs(atoms_of(rule, true), var) {
        let i = choose|i: int|
            0 <= i < n && (#[trigger] atoms_of(rule, true)[i]).arguments.contains(
                AtomArgModel::Var(var),
            );
        assert(has_var(rule, atom_of(i as usize), var));
        law_core_atoms_cover(rule, i);
        let c = choose|c: int|
            0 <= c < positive_atoms(rule.rhs).len() && #[trigger] is_core(rule, c) && subset(
                atom_strs(rule, true, i),
                atom_strs(rule, true, c),
            );
        lemma_strs(rule, i as usize);
        lemma_strs(rule, c as usize);
        assert(atom_strs(rule, true, i).contains(var));
        assert(atom_strs(rule, true, c).contains(var));
        assert(has_var(rule, atom_of(c as usize), var));
        assert(core_ids(rule).contains(c as usize));
        assert(order.contains(c as usize));
        let k = choose|k: int| 0 <= k < order.len() && order[k] == c as usize;
        assert(has_var(rule, AtomSignature { is_positive: true, rhs_id: order[k] }, var));
    }
    if vars_of(rule, true, order).contains(var) {
        let k = choose|k: int|
            0 <= k < order.len() && has_var(
                rule,
                AtomSignature { is_positive: true, rhs_id: #[trigger] order[k] },
                var,
            );
        assert(atoms_of(rule, true)[order[k] as int].arguments.contains(AtomArgModel::Var(var)));
    }
}

/// Each atom besides the core is covered by an atom that the join tree joins.
proof fn lemma_somewhere(rule: FLRuleModel, tree: JoinTree, i: int)
    requires
        are_positions_small(rule),
        0 <= i < atoms_of(rule, true).len(),
        !is_core(rule, i),
        forall|v: usize| #[trigger] tree.preorder().contains(v) <==> core_ids(rule).contains(v),
    ensures
        exists|k: int|
            0 <= k < tree.preorder().len() && #[trigger] is_covered(rule, i, tree.preorder()[k]),
{
    let order = tree.preorder();
    let n = atoms_of(rule, true).len();
    lemma_core_below(rule, n);
    law_core_atoms_cover(rule, i);
    let c = choose|c: int|
        0 <= c < positive_atoms(rule.rhs).len() && #[trigger] is_core(rule, c) && subset(
            atom_strs(rule, true, i),
            atom_strs(rule, true, c),
        );
    assert(core_ids(rule).contains(c as usize));
    assert(order.contains(c as usize));
    let k = choose|k: int| 0 <= k < order.len() && order[k] == c as usize;
    lemma_strs(rule, c as usize);
    assert forall|v: Seq<char>| #[trigger] atom_strs(rule, true, i).contains(v) implies key_vars(
        rule,
        atom_of(order[k]),
    ).contains(v) by {
        assert(atom_strs(rule, true, c).contains(v));
        assert(has_var(rule, atom_of(c as usize), v));
    }
    assert(is_covered(rule, i, order[k]));
}

} // verus!
