//! When columns can be traced and steps can be made of them.
use vstd::prelude::*;
use crate::catalog::atoms::{AtomArgumentSignature, AtomSignature};
use crate::catalog::body::{lemma_first_var, occurs, positive_atoms, var_of};
use crate::catalog::query::{presence_at, trace, trace_all, trace_one};
use crate::lists::{lemma_lookup_push, lookup, unique_keys};
use crate::parsing::rule::{AtomArgModel, FLRuleModel};
use crate::planning::arguments::TransformationArgument;
use crate::planning::collections::first_columns;
use crate::planning::flow::{flow_over, kv_columns};

verus! {

/// Whether a variable stands in one of some atoms.
pub open spec fn stands_in(
    rule: FLRuleModel,
    atoms: Seq<AtomSignature>,
    var: Seq<char>,
    i: int,
) -> bool {
    &&& 0 <= i < atoms.len()
    &&& atoms[i].rhs_id < positive_atoms(rule.rhs).len()
    &&& positive_atoms(rule.rhs)[atoms[i].rhs_id as int].arguments.contains(AtomArgModel::Var(var))
}

proof fn lemma_presence(rule: FLRuleModel, var: Seq<char>, id: usize)
    ensures
        presence_at(rule, var, id) is Some <==> id < positive_atoms(rule.rhs).len()
            && positive_atoms(rule.rhs)[id as int].arguments.contains(AtomArgModel::Var(var)),
{
    let atoms = positive_atoms(rule.rhs);
    if id < atoms.len() {
        lemma_first_var(atoms[id as int].arguments, var);
        if atoms[id as int].arguments.contains(AtomArgModel::Var(var)) {
            assert(occurs(atoms, var));
        }
    }
}

/// A variable is traced to the first of some atoms that it stands in. It cannot be traced
/// exactly if it stands in none.
pub proof fn law_variables_are_traced_to_the_first_atom(
    rule: FLRuleModel,
    var: Seq<char>,
    atoms: Seq<AtomSignature>,
)
    ensures
        trace_one(rule, var, atoms) is Some <==> exists|i: int| #[trigger]
            stands_in(rule, atoms, var, i),
        trace_one(rule, var, atoms) matches Some(s) ==> exists|i: int|
            0 <= i < atoms.len() && presence_at(rule, var, (#[trigger] atoms[i]).rhs_id) == Some(s)
                && forall|j: int| 0 <= j < i ==> !#[trigger] stands_in(rule, atoms, var, j),
    decreases atoms.len(),
{
    if atoms.len() > 0 {
        let front = atoms.drop_last();
        let n = atoms.len() - 1;
        law_variables_are_traced_to_the_first_atom(rule, var, front);
        lemma_presence(rule, var, atoms.last().rhs_id);
        assert(atoms[n] == atoms.last());
        assert forall|i: int| 0 <= i < n implies stands_in(rule, front, var, i) == #[trigger]
        stands_in(rule, atoms, var, i) by {}
        if let Some(s) = trace_one(rule, var, front) {
            let i = choose|i: int|
                0 <= i < front.len() && presence_at(rule, var, (#[trigger] front[i]).rhs_id)
                    == Some(s) && forall|j: int|
                    0 <= j < i ==> !#[trigger] stands_in(rule, front, var, j);
            assert(atoms[i] == front[i]);
            lemma_presence(rule, var, atoms[i].rhs_id);
            assert(stands_in(rule, atoms, var, i));
            assert forall|j: int| 0 <= j < i implies !#[trigger] stands_in(
                rule,
                atoms,
                var,
                j,
            ) by {
                assert(!stands_in(rule, front, var, j));
            }
        } else {
            assert forall|j: int| 0 <= j < n implies !#[trigger] stands_in(
                rule,
                atoms,
                var,
                j,
            ) by {
                assert(!stands_in(rule, front, var, j));
            }
            if trace_one(rule, var, atoms) is Some {
                assert(stands_in(rule, atoms, var, n));
            }
        }
    }
}

/// Variables can be traced through atoms exactly if no atom is negated and each of the
/// variables can be traced by itself.
pub proof fn law_traces_succeed(
    rule: FLRuleModel,
    vars: Seq<Seq<char>>,
    atoms: Seq<AtomSignature>,
)
    ensures
        trace(rule, vars, atoms) is Some <==> (forall|i: int|
            0 <= i < atoms.len() ==> (#[trigger] atoms[i]).is_positive) && forall|k: int|
            0 <= k < vars.len() ==> trace_one(rule, #[trigger] vars[k], atoms) is Some,
        trace(rule, vars, atoms) matches Some(columns) ==> columns.len() == vars.len() && forall|
            k: int,
        |
            0 <= k < vars.len() ==> trace_one(rule, #[trigger] vars[k], atoms) == Some(columns[k]),
{
    lemma_all_traced(rule, vars, atoms);
}

proof fn lemma_all_traced(
    rule: FLRuleModel,
    vars: Seq<Seq<char>>,
    atoms: Seq<AtomSignature>,
)
    ensures
        trace_all(rule, vars, atoms) is Some <==> forall|k: int|
            0 <= k < vars.len() ==> trace_one(rule, #[trigger] vars[k], atoms) is Some,
        trace_all(rule, vars, atoms) matches Some(columns) ==> columns.len() == vars.len()
            && forall|k: int|
            0 <= k < vars.len() ==> trace_one(rule, #[trigger] vars[k], atoms) == Some(columns[k]),
    decreases vars.len(),
{
    if vars.len() > 0 {
        let front = vars.drop_last();
        lemma_all_traced(rule, front, atoms);
        assert(vars[vars.len() - 1] == vars.last());
        assert(forall|k: int| 0 <= k < front.len() ==> front[k] == vars[k]);
        if trace_all(rule, front, atoms) is None {
            let k = choose|k: int|
                0 <= k < front.len() && trace_one(rule, #[trigger] front[k], atoms) is None;
            assert(trace_one(rule, vars[k], atoms) is None);
        } else {
            assert forall|k: int| 0 <= k < front.len() implies trace_one(
                rule,
                #[trigger] vars[k],
                atoms,
            ) == Some(trace_all(rule, front, atoms)->0[k]) by {
                assert(front[k] == vars[k]);
            }
        }
    }
}

/// Columns flow on exactly if each of them is among those that come in, and each comes
/// from where it is found there.
pub proof fn law_columns_flow_on(
    columns: Seq<(AtomArgumentSignature, TransformationArgument)>,
    signatures: Seq<AtomArgumentSignature>,
)
    ensures
        flow_over(columns, signatures) is Some <==> forall|k: int|
            0 <= k < signatures.len() ==> lookup(columns, #[trigger] signatures[k]) is Some,
        flow_over(columns, signatures) matches Some(flow) ==> flow.len() == signatures.len()
            && forall|k: int|
            0 <= k < signatures.len() ==> lookup(columns, #[trigger] signatures[k]) == Some(
                flow[k],
            ),
    decreases signatures.len(),
{
    if signatures.len() > 0 {
        let front = signatures.drop_last();
        law_columns_flow_on(columns, front);
        assert(signatures[signatures.len() - 1] == signatures.last());
        assert(forall|k: int| 0 <= k < front.len() ==> front[k] == signatures[k]);
        if flow_over(columns, front) is None {
            let k = choose|k: int|
                0 <= k < front.len() && lookup(columns, #[trigger] front[k]) is None;
            assert(lookup(columns, signatures[k]) is None);
        } else {
            assert forall|k: int| 0 <= k < front.len() implies lookup(
                columns,
                #[trigger] signatures[k],
            ) == Some(flow_over(columns, front)->0[k]) by {
                assert(front[k] == signatures[k]);
            }
        }
    }
}

/// A column that comes in is found where it stands last, among the values or else among
/// the keys.
pub proof fn law_columns_stand_where_they_come_in(
    keys: Seq<AtomArgumentSignature>,
    values: Seq<AtomArgumentSignature>,
    k: int,
)
    requires
        keys.len() + values.len() <= usize::MAX,
        (keys + values).no_duplicates(),
        0 <= k < keys.len() + values.len(),
    ensures
        lookup(kv_columns(keys, values), (keys + values)[k]) == Some(
            if k < keys.len() {
                TransformationArgument::KV((false, k as usize))
            } else {
                TransformationArgument::KV((true, (k - keys.len()) as usize))
            },
        ),
{
    lemma_found_once(kv_columns(keys, values), k);
    let columns = kv_columns(keys, values);
    assert forall|i: int, j: int| 0 <= i < j < columns.len() implies (#[trigger] columns[i]).0 != (
    #[trigger] columns[j]).0 by {
        assert((keys + values)[i] == columns[i].0);
        assert((keys + values)[j] == columns[j].0);
    }
}

proof fn lemma_found_once(
    columns: Seq<(AtomArgumentSignature, TransformationArgument)>,
    k: int,
)
    requires
        0 <= k < columns.len(),
    ensures
        (forall|i: int, j: int|
            0 <= i < j < columns.len() ==> (#[trigger] columns[i]).0 != (#[trigger] columns[j]).0)
            ==> lookup(columns, columns[k].0) == Some(columns[k].1),
    decreases columns.len(),
{
    if k < columns.len() - 1 {
        let front = columns.drop_last();
        lemma_found_once(front, k);
        if forall|i: int, j: int|
            0 <= i < j < columns.len() ==> (#[trigger] columns[i]).0 != (#[trigger] columns[j]).0 {
            assert(columns[k].0 != columns[columns.len() - 1].0);
            assert forall|i: int, j: int| 0 <= i < j < front.len() implies (
            #[trigger] front[i]).0 != (#[trigger] front[j]).0 by {
                assert(front[i] == columns[i] && front[j] == columns[j]);
            }
            assert(front[k] == columns[k]);
        }
    }
}

/// Each variable of some columns is known by the first of the columns that holds it, and
/// is listed once.
pub proof fn law_first_columns_of_variables(
    rule: FLRuleModel,
    columns: Seq<AtomArgumentSignature>,
    var: Seq<char>,
)
    requires
        forall|i: int| 0 <= i < columns.len() ==> var_of(rule, #[trigger] columns[i]) is Some,
    ensures
        unique_keys(first_columns(rule, columns)),
        lookup(first_columns(rule, columns), var) is Some <==> exists|i: int|
            0 <= i < columns.len() && var_of(rule, #[trigger] columns[i]) == Some(var),
        lookup(first_columns(rule, columns), var) matches Some(column) ==> exists|i: int|
            0 <= i < columns.len() && #[trigger] columns[i] == column && var_of(rule, column)
                == Some(var) && forall|j: int|
                0 <= j < i ==> var_of(rule, #[trigger] columns[j]) != Some(var),
    decreases columns.len(),
{
    if columns.len() > 0 {
        let front = columns.drop_last();
        let n = columns.len() - 1;
        let last = columns.last();
        let own = var_of(rule, last)->0;
        assert(columns[n] == last);
        assert forall|i: int| 0 <= i < front.len() implies var_of(
            rule,
            #[trigger] front[i],
        ) is Some by {
            assert(front[i] == columns[i]);
        }
        law_first_columns_of_variables(rule, front, var);
        law_first_columns_of_variables(rule, front, own);
        let before = first_columns(rule, front);
        lemma_lookup_push(before, own, last);
        if lookup(before, own) is None {
            lemma_new_key(before, own, last);
        }
        if exists|i: int| 0 <= i < front.len() && var_of(rule, #[trigger] front[i]) == Some(var) {
            let i = choose|i: int|
                0 <= i < front.len() && var_of(rule, #[trigger] front[i]) == Some(var);
            assert(columns[i] == front[i]);
        }
        if exists|i: int|
            0 <= i < columns.len() && var_of(rule, #[trigger] columns[i]) == Some(var) {
            let i = choose|i: int|
                0 <= i < columns.len() && var_of(rule, #[trigger] columns[i]) == Some(var);
            if i < n {
                assert(front[i] == columns[i]);
            }
        }
        if let Some(column) = lookup(before, var) {
            let i = choose|i: int|
                0 <= i < front.len() && #[trigger] front[i] == column && var_of(rule, column)
                    == Some(var) && forall|j: int|
                    0 <= j < i ==> var_of(rule, #[trigger] front[j]) != Some(var);
            assert(columns[i] == column);
            assert forall|j: int| 0 <= j < i implies var_of(rule, #[trigger] columns[j]) != Some(
                var,
            ) by {
                assert(front[j] == columns[j]);
            }
        } else {
            assert forall|j: int| 0 <= j < n implies var_of(rule, #[trigger] columns[j]) != Some(
                var,
            ) by {
                assert(front[j] == columns[j]);
            }
        }
    }
}

proof fn lemma_new_key(
    entries: Seq<(Seq<char>, AtomArgumentSignature)>,
    key: Seq<char>,
    value: AtomArgumentSignature,
)
    requires
        unique_keys(entries),
        lookup(entries, key) is None,
    ensures
        unique_keys(entries.push((key, value))),
{
    let all = entries.push((key, value));
    assert forall|i: int, j: int| 0 <= i < j < all.len() implies (#[trigger] all[i]).0 != (
    #[trigger] all[j]).0 by {
        if j < entries.len() {
            assert(entries[i].0 != entries[j].0);
        } else {
            lemma_not_there(entries, key, i);
        }
    }
}

proof fn lemma_not_there(
    entries: Seq<(Seq<char>, AtomArgumentSignature)>,
    key: Seq<char>,
    i: int,
)
    requires
        lookup(entries, key) is None,
        0 <= i < entries.len(),
    ensures
        entries[i].0 != key,
    decreases entries.len(),
{
    if i < entries.len() - 1 {
        lemma_not_there(entries.drop_last(), key, i);
    }
}

} // verus!
