//! A plan derives what its rule says.
use vstd::prelude::*;
use crate::catalog::atoms::{AtomArgumentSignature, AtomSignature};
use crate::catalog::body::{
    alias_of, are_positions_small, atom_positions, atoms_of, comparisons, first_var, is_filtered,
    lemma_first_var, positive_atoms, var_of,
};
use crate::catalog::compare::PlacedComparisonModel;
use crate::catalog::open::are_atoms;
use crate::catalog::query::{comp_vars, presence_at, trace, trace_all, trace_one};
use crate::catalog::rule::{strs_of, subset, unfiltered};
use crate::executing::answers::{
    are_among, columns_at, compares_as, comps_hold, is_countable, lemma_antijoin_gives,
    lemma_columns_at, lemma_join_gives, lemma_leaf_gives, with_failing,
};
use crate::executing::columns::{assigned_comparisons, Assignment};
use crate::executing::meaning::{
    atom_at, comps_in, comps_set, follows, gives, has_var, is_within, lemma_all_assembled,
    lemma_assembled, part_union, Database, Part, Valuation,
};
use crate::executing::shapes::{
    first_steps, first_values, is_named, is_of, is_shaped, lemma_antijoins_shape, lemma_joined_columns,
    lemma_semijoins_shape, name_len,
};
use crate::parsing::rule::{AtomArgModel, FLRuleModel};
use crate::planning::linking::{
    holds, is_leaf, law_trace_holds, lemma_antijoins, lemma_key_columns, lemma_key_step,
    lemma_semijoins, puts_out,
};
use crate::planning::steps::{
    all_positive, antijoins, assembled, atom_steps, carried, key_step, key_vars, leaf_step,
    semijoins, var_columns, StepsModel,
};
use crate::planning::transformations::{aj_step, jn_step, TransformationModel};

verus! {

/// Whether a tree has all steps of another one, with the same steps below them.
pub open spec fn has_steps(
    tree: Map<TransformationModel, (TransformationModel, TransformationModel)>,
    other: Map<TransformationModel, (TransformationModel, TransformationModel)>,
) -> bool {
    forall|step: TransformationModel| #[trigger]
        other.contains_key(step) ==> tree.contains_key(step) && tree[step] == other[step]
}

/// Whether the steps of a tree read rows that have columns, as many as the machine
/// can count.
pub open spec fn can_run(
    tree: Map<TransformationModel, (TransformationModel, TransformationModel)>,
) -> bool {
    forall|step: TransformationModel| #[trigger]
        tree.contains_key(step) ==> step.is_binary() && is_countable(step) && step.input.keys.len()
            + step.input.values.len() > 0
}

/// The variables of an atom.
pub open spec fn vars_at(rule: FLRuleModel, atom: AtomSignature) -> Set<Seq<char>> {
    Set::new(|var: Seq<char>| has_var(rule, atom, var))
}

proof fn lemma_strs(rule: FLRuleModel, columns: Seq<AtomArgumentSignature>, var: Seq<char>)
    ensures
        strs_of(rule, columns).contains(var) <==> exists|k: int|
            0 <= k < columns.len() && var_of(rule, #[trigger] columns[k]) == Some(var),
    decreases columns.len(),
{
    if columns.len() > 0 {
        let front = columns.drop_last();
        let strs = strs_of(rule, columns);
        let before = strs_of(rule, front);
        lemma_strs(rule, front, var);
        if strs.contains(var) {
            let i = strs.index_of(var);
            assert(strs[i] == var);
            if i < before.len() {
                assert(before[i] == var);
                let k = choose|k: int|
                    0 <= k < front.len() && var_of(rule, #[trigger] front[k]) == Some(var);
                assert(columns[k] == front[k]);
            } else {
                assert(var_of(rule, columns[columns.len() - 1]) == Some(var));
            }
        }
        if exists|k: int| 0 <= k < columns.len() && var_of(rule, #[trigger] columns[k]) == Some(var) {
            let k = choose|k: int|
                0 <= k < columns.len() && var_of(rule, #[trigger] columns[k]) == Some(var);
            if k < front.len() {
                assert(front[k] == columns[k]);
                assert(before.contains(var));
                assert(strs[before.index_of(var)] == var);
            } else {
                assert(strs[before.len() as int] == var);
            }
        }
    }
}

proof fn lemma_unfiltered(
    rule: FLRuleModel,
    columns: Seq<AtomArgumentSignature>,
    column: AtomArgumentSignature,
)
    ensures
        unfiltered(rule, columns).contains(column) <==> columns.contains(column) && !is_filtered(
            rule,
            column,
        ),
    decreases columns.len(),
{
    if columns.len() > 0 {
        let front = columns.drop_last();
        let kept = unfiltered(rule, columns);
        let before = unfiltered(rule, front);
        lemma_unfiltered(rule, front, column);
        if kept.contains(column) {
            let i = kept.index_of(column);
            assert(kept[i] == column);
            if i < before.len() {
                assert(before[i] == column);
                assert(columns[front.index_of(column)] == column);
            } else {
                assert(columns[columns.len() - 1] == column);
            }
        }
        if columns.contains(column) && !is_filtered(rule, column) {
            let k = columns.index_of(column);
            assert(columns[k] == column);
            if k < front.len() {
                assert(front[k] == column);
                assert(kept[before.index_of(column)] == column);
            } else {
                assert(kept[before.len() as int] == column);
            }
        }
    }
}

/// The listed variables of an atom are those that it has.
pub proof fn lemma_atom_vars(rule: FLRuleModel, atom: AtomSignature, var: Seq<char>)
    requires
        are_positions_small(rule),
        atom.rhs_id < atoms_of(rule, atom.is_positive).len(),
    ensures
        key_vars(rule, atom).contains(var) <==> has_var(rule, atom, var),
        strs_of(rule, columns_at(rule, atom)).contains(var) <==> has_var(rule, atom, var),
{
    let columns = columns_at(rule, atom);
    let arguments = atom_at(rule, atom).arguments;
    let kept = unfiltered(rule, columns);
    lemma_columns_at(rule, atom);
    lemma_strs(rule, columns, var);
    lemma_strs(rule, kept, var);
    if strs_of(rule, columns).contains(var) {
        let k = choose|k: int|
            0 <= k < columns.len() && var_of(rule, #[trigger] columns[k]) == Some(var);
        assert(arguments[k] == AtomArgModel::Var(var));
    }
    if key_vars(rule, atom).contains(var) {
        let i = choose|i: int| 0 <= i < kept.len() && var_of(rule, #[trigger] kept[i]) == Some(var);
        lemma_unfiltered(rule, columns, kept[i]);
        assert(kept.contains(kept[i]));
        let k = columns.index_of(kept[i]);
        assert(columns[k] == kept[i]);
        assert(arguments[k] == AtomArgModel::Var(var));
    }
    if has_var(rule, atom, var) {
        lemma_first_var(arguments, var);
        let f = first_var(arguments, var)->0 as int;
        assert(var_of(rule, columns[f]) == Some(var));
        let start = arguments.take(f);
        lemma_first_var(start, var);
        if start.contains(AtomArgModel::Var(var)) {
            let i = start.index_of(AtomArgModel::Var(var));
            assert(arguments[i] == start[i]);
        }
        assert(alias_of(rule, columns[f]) is None);
        assert(!is_filtered(rule, columns[f]));
        lemma_unfiltered(rule, columns, columns[f]);
        let i = kept.index_of(columns[f]);
        assert(var_of(rule, kept[i]) == Some(var));
    }
}

/// Variables that are traced to an atom are variables of the atom.
proof fn lemma_traced_vars(rule: FLRuleModel, vars: Seq<Seq<char>>, atom: AtomSignature)
    requires
        atom.is_positive,
        trace_all(rule, vars, seq![atom]) is Some,
    ensures
        are_among(vars, vars_at(rule, atom)),
    decreases vars.len(),
{
    if vars.len() > 0 {
        lemma_traced_vars(rule, vars.drop_last(), atom);
        let var = vars.last();
        assert(seq![atom].drop_last() =~= Seq::empty());
        assert(trace_one(rule, var, Seq::empty()) is None);
        assert(presence_at(rule, var, atom.rhs_id) is Some);
        let arguments = positive_atoms(rule.rhs)[atom.rhs_id as int].arguments;
        lemma_first_var(arguments, var);
        assert forall|i: int| 0 <= i < vars.len() implies vars_at(rule, atom).contains(
            #[trigger] vars[i],
        ) by {
            if i < vars.len() - 1 {
                assert(vars.drop_last()[i] == vars[i]);
            }
        }
    }
}

/// Comparisons that are put together on one atom.
pub proof fn lemma_compares_as(
    rule: FLRuleModel,
    ids: Seq<usize>,
    atoms: Seq<AtomSignature>,
    vars: Seq<Seq<char>>,
)
    requires
        are_positions_small(rule),
        assembled(rule, ids, atoms, vars) is Some,
        all_positive(atoms) || subset(
            vars,
            strs_of(rule, atom_positions(rule, false)[atoms[0].rhs_id as int]),
        ),
    ensures
        compares_as(rule, assembled(rule, ids, atoms, vars)->0, comps_in(rule, ids, vars)),
{
    assert forall|assignment: Assignment, valuation: Valuation| #[trigger]
        follows(rule, assignment, valuation) implies (assigned_comparisons(
        assignment,
        assembled(rule, ids, atoms, vars)->0,
    ) == Some(true) <==> comps_hold(rule, comps_in(rule, ids, vars), valuation)) by {
        lemma_assembled(rule, assignment, valuation, ids, atoms, vars);
    }
}

/// The part of a body that is one atom, with comparisons.
pub open spec fn atom_part(atom: AtomSignature, comps: Set<int>) -> Part {
    Part { holding: set![atom], failing: Set::empty(), comps }
}

/// The step from the relation of an atom to its variables gives these.
proof fn lemma_key_step_gives(
    db: Database,
    rule: FLRuleModel,
    tree: Map<TransformationModel, (TransformationModel, TransformationModel)>,
    atom: AtomSignature,
    comps: Seq<usize>,
)
    requires
        are_positions_small(rule),
        atom.rhs_id < atoms_of(rule, atom.is_positive).len(),
        key_step(rule, atom, comps) is Some,
        can_run(tree),
    ensures
        ({
            let step = key_step(rule, atom, comps)->0;
            let vars = key_vars(rule, atom);
            &&& gives(
                db,
                rule,
                tree,
                step,
                vars,
                atom_part(atom, comps_in(rule, comps, vars)),
            )
            &&& holds(rule, step.output.keys, vars)
            &&& step.output.values.len() == 0
        }),
{
    let step = key_step(rule, atom, comps)->0;
    let vars = key_vars(rule, atom);
    let compares = assembled(rule, comps, seq![atom], vars)->0;
    lemma_key_step(rule, atom, comps);
    lemma_key_columns(rule, atom);
    assert(is_leaf(rule, step));
    assert(!tree.contains_key(step));
    if !atom.is_positive {
        assert(subset(vars, strs_of(rule, columns_at(rule, atom)))) by {
            assert forall|var: Seq<char>| #[trigger] vars.contains(var) implies strs_of(
                rule,
                columns_at(rule, atom),
            ).contains(var) by {
                lemma_atom_vars(rule, atom, var);
            }
        }
    } else {
        assert(all_positive(seq![atom]));
    }
    lemma_compares_as(rule, comps, seq![atom], vars);
    assert(holds(rule, Seq::empty(), Seq::empty()));
    lemma_leaf_gives(
        db,
        rule,
        tree,
        atom,
        var_columns(rule, atom),
        Seq::empty(),
        compares,
        vars,
        Seq::empty(),
        comps_in(rule, comps, vars),
        step,
    );
    assert(vars + Seq::<Seq<char>>::empty() =~= vars);
}

/// Whether comparisons have no variables but those of an atom.
pub open spec fn comps_are_at(rule: FLRuleModel, comps: Seq<usize>, vars: Set<Seq<char>>) -> bool {
    forall|k: int, var: Seq<char>|
        0 <= k < comps.len() && #[trigger] comp_vars(rule, comps[k]).contains(var) ==> vars.contains(
            var,
        )
}

/// The step from the relation of an atom to wanted variables gives these.
proof fn lemma_leaf_step_gives(
    db: Database,
    rule: FLRuleModel,
    tree: Map<TransformationModel, (TransformationModel, TransformationModel)>,
    atom: AtomSignature,
    keys: Seq<Seq<char>>,
    values: Seq<Seq<char>>,
    comps: Seq<usize>,
)
    requires
        are_positions_small(rule),
        atom.is_positive,
        atom.rhs_id < atoms_of(rule, true).len(),
        leaf_step(rule, atom, keys, values, comps) is Some,
        can_run(tree),
    ensures
        gives(
            db,
            rule,
            tree,
            leaf_step(rule, atom, keys, values, comps)->0,
            keys + values,
            atom_part(atom, comps_set(comps)),
        ),
        comps_are_at(rule, comps, vars_at(rule, atom)),
{
    let step = leaf_step(rule, atom, keys, values, comps)->0;
    let columns = columns_at(rule, atom);
    let strs = strs_of(rule, columns);
    let compares = assembled(rule, comps, seq![atom], strs)->0;
    law_trace_holds(rule, keys, seq![atom]);
    law_trace_holds(rule, values, seq![atom]);
    assert(all_positive(seq![atom]));
    lemma_compares_as(rule, comps, seq![atom], strs);
    lemma_all_assembled(rule, comps, seq![atom], strs);
    assert(comps_in(rule, comps, strs) =~= comps_set(comps)) by {
        assert forall|c: int| comps_set(comps).contains(c) implies #[trigger] comps_in(
            rule,
            comps,
            strs,
        ).contains(c) by {
            let k = comps.index_of(c as usize);
            assert(comps[k] == c as usize);
            assert(subset(comp_vars(rule, comps[k]), strs));
        }
    }
    assert(step.is_unary());
    assert(!tree.contains_key(step));
    lemma_leaf_gives(
        db,
        rule,
        tree,
        atom,
        trace(rule, keys, seq![atom])->0,
        trace(rule, values, seq![atom])->0,
        compares,
        keys,
        values,
        comps_set(comps),
        step,
    );
    assert forall|k: int, var: Seq<char>|
        0 <= k < comps.len() && #[trigger] comp_vars(rule, comps[k]).contains(var) implies vars_at(
        rule,
        atom,
    ).contains(var) by {
        assert(subset(comp_vars(rule, comps[k]), strs));
        assert(strs.contains(var));
        lemma_atom_vars(rule, atom, var);
    }
}

/// The part of a body that is an atom with the atoms that filter it.
pub open spec fn filtered_part(
    atom: AtomSignature,
    subs: Seq<AtomSignature>,
    negated: Seq<AtomSignature>,
    comps: Seq<usize>,
) -> Part {
    Part {
        holding: subs.to_set().insert(atom),
        failing: negated.to_set(),
        comps: comps_set(comps),
    }
}

/// Whether atoms have no variables but some.
pub open spec fn atoms_are_at(
    rule: FLRuleModel,
    atoms: Seq<AtomSignature>,
    vars: Set<Seq<char>>,
) -> bool {
    forall|k: int, var: Seq<char>|
        0 <= k < atoms.len() && #[trigger] has_var(rule, atoms[k], var) ==> vars.contains(var)
}

/// An atom with the atoms that filter it has no variables but those of the atom.
pub proof fn lemma_filtered_within(
    rule: FLRuleModel,
    atom: AtomSignature,
    subs: Seq<AtomSignature>,
    negated: Seq<AtomSignature>,
    comps: Seq<usize>,
)
    requires
        atoms_are_at(rule, subs, vars_at(rule, atom)),
        atoms_are_at(rule, negated, vars_at(rule, atom)),
        comps_are_at(rule, comps, vars_at(rule, atom)),
    ensures
        is_within(rule, filtered_part(atom, subs, negated, comps), vars_at(rule, atom)),
{
    let part = filtered_part(atom, subs, negated, comps);
    let vars = vars_at(rule, atom);
    assert forall|a: AtomSignature, var: Seq<char>|
        (part.holding.contains(a) || part.failing.contains(a)) && #[trigger] has_var(
            rule,
            a,
            var,
        ) implies vars.contains(var) by {
        if subs.to_set().contains(a) {
            let k = subs.index_of(a);
            assert(has_var(rule, subs[k], var));
        }
        if negated.to_set().contains(a) {
            let k = negated.index_of(a);
            assert(has_var(rule, negated[k], var));
        }
    }
    assert forall|c: int, var: Seq<char>|
        part.comps.contains(c) && #[trigger] comparisons(rule.rhs)[c].vars().contains(
            var,
        ) implies vars.contains(var) by {
        let k = comps.index_of(c as usize);
        assert(comp_vars(rule, comps[k]).contains(var));
    }
}

/// An atom with comparisons on its variables has no other variables.
proof fn lemma_atom_part_within(rule: FLRuleModel, atom: AtomSignature, comps: Seq<usize>)
    requires
        are_positions_small(rule),
        atom.rhs_id < atoms_of(rule, atom.is_positive).len(),
    ensures
        is_within(
            rule,
            atom_part(atom, comps_in(rule, comps, key_vars(rule, atom))),
            vars_at(rule, atom),
        ),
{
    let vars = key_vars(rule, atom);
    let part = atom_part(atom, comps_in(rule, comps, vars));
    assert forall|c: int, var: Seq<char>|
        part.comps.contains(c) && #[trigger] comparisons(rule.rhs)[c].vars().contains(
            var,
        ) implies vars_at(rule, atom).contains(var) by {
        assert(comp_vars(rule, c as usize).contains(var));
        assert(vars.contains(var));
        lemma_atom_vars(rule, atom, var);
    }
}

proof fn lemma_key_vars_among(rule: FLRuleModel, atom: AtomSignature, vars: Set<Seq<char>>)
    requires
        are_positions_small(rule),
        atom.rhs_id < atoms_of(rule, atom.is_positive).len(),
        forall|var: Seq<char>| #[trigger] has_var(rule, atom, var) ==> vars.contains(var),
    ensures
        are_among(key_vars(rule, atom), vars),
{
    let names = key_vars(rule, atom);
    assert forall|i: int| 0 <= i < names.len() implies vars.contains(#[trigger] names[i]) by {
        assert(names.contains(names[i]));
        lemma_atom_vars(rule, atom, names[i]);
    }
}

proof fn lemma_no_compares(rule: FLRuleModel)
    ensures
        compares_as(rule, Seq::empty(), Set::empty()),
{
    assert forall|assignment: Assignment, valuation: Valuation| #[trigger]
        follows(rule, assignment, valuation) implies (assigned_comparisons(
        assignment,
        Seq::<PlacedComparisonModel<AtomArgumentSignature>>::empty(),
    ) == Some(true) <==> comps_hold(rule, Set::empty(), valuation)) by {}
}

/// The steps below one more join are steps of a tree that has this join.
proof fn lemma_has_left(
    tree: Map<TransformationModel, (TransformationModel, TransformationModel)>,
    left: StepsModel,
    right: TransformationModel,
    last: TransformationModel,
    ids: Set<usize>,
)
    requires
        is_shaped(left, ids),
        name_len(last) > name_len(left.last),
        has_steps(tree, left.tree.insert(last, (left.last, right))),
    ensures
        has_steps(tree, left.tree),
        tree.contains_key(last),
        tree[last] == (left.last, right),
{
    let all = left.tree.insert(last, (left.last, right));
    assert(all.contains_key(last));
    assert forall|step: TransformationModel| #[trigger]
        left.tree.contains_key(step) implies tree.contains_key(step) && tree[step]
        == left.tree[step] by {
        assert(step != last);
        assert(all.contains_key(step));
    }
}

/// The part of a body after one more atom was joined.
proof fn lemma_part_with_sub(
    rule: FLRuleModel,
    atom: AtomSignature,
    subs: Seq<AtomSignature>,
    comps: Seq<usize>,
    vars: Seq<Seq<char>>,
)
    requires
        subs.len() > 0,
    ensures
        part_union(
            part_union(
                filtered_part(atom, subs.drop_last(), Seq::empty(), comps),
                atom_part(subs.last(), comps_in(rule, comps, vars)),
            ),
            Part { holding: Set::empty(), failing: Set::empty(), comps: Set::empty() },
        ) == filtered_part(atom, subs, Seq::empty(), comps),
{
    let front = subs.drop_last();
    let sub = subs.last();
    let whole = filtered_part(atom, subs, Seq::empty(), comps);
    let made = part_union(
        part_union(
            filtered_part(atom, front, Seq::empty(), comps),
            atom_part(sub, comps_in(rule, comps, vars)),
        ),
        Part { holding: Set::empty(), failing: Set::empty(), comps: Set::empty() },
    );
    assert forall|a: AtomSignature| #[trigger] made.holding.contains(a)
        <==> whole.holding.contains(a) by {
        if subs.to_set().contains(a) {
            let k = subs.index_of(a);
            if k < front.len() {
                assert(front[k] == a);
                assert(front.to_set().contains(a));
            }
        }
        if front.to_set().contains(a) {
            assert(subs[front.index_of(a)] == a);
            assert(subs.to_set().contains(a));
        }
        if a == sub {
            assert(subs[subs.len() - 1] == a);
            assert(subs.to_set().contains(a));
        }
    }
    assert(made.holding =~= whole.holding);
    assert(made.failing =~= whole.failing);
    assert(made.comps =~= whole.comps);
}

/// Joining with one more atom.
proof fn lemma_semijoin_gives(
    db: Database,
    rule: FLRuleModel,
    tree: Map<TransformationModel, (TransformationModel, TransformationModel)>,
    atom: AtomSignature,
    subs: Seq<AtomSignature>,
    left: TransformationModel,
    left_values: Seq<Seq<char>>,
    last: TransformationModel,
    keys: Seq<Seq<char>>,
    values: Seq<Seq<char>>,
    comps: Seq<usize>,
)
    requires
        are_positions_small(rule),
        subs.len() > 0,
        subs.last().is_positive,
        subs.last().rhs_id < atoms_of(rule, true).len(),
        atoms_are_at(rule, subs, vars_at(rule, atom)),
        comps_are_at(rule, comps, vars_at(rule, atom)),
        key_step(rule, subs.last(), comps) is Some,
        puts_out(rule, left, key_vars(rule, subs.last()), left_values),
        are_among(key_vars(rule, subs.last()), vars_at(rule, atom)),
        are_among(left_values, vars_at(rule, atom)),
        gives(
            db,
            rule,
            tree,
            left,
            key_vars(rule, subs.last()) + left_values,
            filtered_part(atom, subs.drop_last(), Seq::empty(), comps),
        ),
        trace(rule, keys, seq![atom]) is Some,
        trace(rule, values, seq![atom]) is Some,
        jn_step(
            left.output,
            key_step(rule, subs.last(), comps)->0.output,
            trace(rule, keys, seq![atom])->0,
            trace(rule, values, seq![atom])->0,
            Seq::empty(),
        ) == Some(last),
        tree.contains_key(last),
        tree[last] == (left, key_step(rule, subs.last(), comps)->0),
        can_run(tree),
    ensures
        gives(
            db,
            rule,
            tree,
            last,
            keys + values,
            filtered_part(atom, subs, Seq::empty(), comps),
        ),
{
    let front = subs.drop_last();
    let sub = subs.last();
    let all = vars_at(rule, atom);
    let sub_keys = key_vars(rule, sub);
    let right = key_step(rule, sub, comps)->0;
    let left_part = filtered_part(atom, front, Seq::empty(), comps);
    let right_part = atom_part(sub, comps_in(rule, comps, sub_keys));
    assert(atoms_are_at(rule, front, all)) by {
        assert forall|k: int, var: Seq<char>|
            0 <= k < front.len() && #[trigger] has_var(rule, front[k], var) implies all.contains(
            var,
        ) by {
            assert(has_var(rule, subs[k], var));
        }
    }
    lemma_key_step_gives(db, rule, tree, sub, comps);
    lemma_filtered_within(rule, atom, front, Seq::empty(), comps);
    lemma_atom_part_within(rule, sub, comps);
    lemma_key_vars_among(rule, sub, vars_at(rule, sub));
    law_trace_holds(rule, keys, seq![atom]);
    law_trace_holds(rule, values, seq![atom]);
    lemma_no_compares(rule);
    assert(sub_keys + Seq::<Seq<char>>::empty() =~= sub_keys);
    assert forall|var: Seq<char>| #[trigger]
        all.contains(var) && vars_at(rule, sub).contains(var) implies sub_keys.contains(var) by {
        lemma_atom_vars(rule, sub, var);
    }
    lemma_join_gives(
        db,
        rule,
        tree,
        last,
        left,
        right,
        sub_keys,
        left_values,
        Seq::empty(),
        left_part,
        right_part,
        all,
        vars_at(rule, sub),
        trace(rule, keys, seq![atom])->0,
        trace(rule, values, seq![atom])->0,
        Seq::empty(),
        Set::empty(),
        keys,
        values,
    );
    lemma_part_with_sub(rule, atom, subs, comps, sub_keys);
}

/// Joining an atom with the atoms whose variables it has gives the values for
/// which all of them and the comparisons hold.
proof fn lemma_semijoins_give(
    db: Database,
    rule: FLRuleModel,
    tree: Map<TransformationModel, (TransformationModel, TransformationModel)>,
    atom: AtomSignature,
    subs: Seq<AtomSignature>,
    keys: Seq<Seq<char>>,
    values: Seq<Seq<char>>,
    comps: Seq<usize>,
)
    requires
        are_positions_small(rule),
        atom.is_positive,
        atom.rhs_id < atoms_of(rule, true).len(),
        are_atoms(rule, subs, true),
        atoms_are_at(rule, subs, vars_at(rule, atom)),
        semijoins(rule, atom, subs, keys, values, comps) is Some,
        has_steps(tree, semijoins(rule, atom, subs, keys, values, comps)->0.tree),
        can_run(tree),
    ensures
        gives(
            db,
            rule,
            tree,
            semijoins(rule, atom, subs, keys, values, comps)->0.last,
            keys + values,
            filtered_part(atom, subs, Seq::empty(), comps),
        ),
        comps_are_at(rule, comps, vars_at(rule, atom)),
        are_among(keys, vars_at(rule, atom)),
        are_among(values, vars_at(rule, atom)),
    decreases subs.len(),
{
    let steps = semijoins(rule, atom, subs, keys, values, comps)->0;
    let all = vars_at(rule, atom);
    lemma_traced_vars(rule, keys, atom);
    lemma_traced_vars(rule, values, atom);
    if subs.len() == 0 {
        lemma_leaf_step_gives(db, rule, tree, atom, keys, values, comps);
        assert(atom_part(atom, comps_set(comps)) =~= filtered_part(
            atom,
            subs,
            Seq::empty(),
            comps,
        ));
    } else {
        let front = subs.drop_last();
        let sub = subs[subs.len() - 1];
        let sub_keys = key_vars(rule, sub);
        let sub_values = carried(keys, values, sub_keys);
        assert(are_atoms(rule, front, true)) by {
            assert forall|i: int| 0 <= i < front.len() implies (#[trigger] front[i]).is_positive
                && front[i].rhs_id < atoms_of(rule, true).len() by {
                assert(front[i] == subs[i]);
            }
        }
        assert(atoms_are_at(rule, front, all)) by {
            assert forall|k: int, var: Seq<char>|
                0 <= k < front.len() && #[trigger] has_var(
                    rule,
                    front[k],
                    var,
                ) implies all.contains(var) by {
                assert(has_var(rule, subs[k], var));
            }
        }
        let left = semijoins(rule, atom, front, sub_keys, sub_values, comps)->0;
        let right = key_step(rule, sub, comps)->0;
        assert(sub.is_positive);
        lemma_semijoins_shape(rule, atom, front, sub_keys, sub_values, comps);
        assert(right.output.values.len() == 0);
        lemma_joined_columns(
            left.last.output,
            right.output,
            trace(rule, keys, seq![atom])->0,
            trace(rule, values, seq![atom])->0,
            Seq::empty(),
            set![atom.rhs_id],
        );
        lemma_has_left(tree, left, right, steps.last, set![atom.rhs_id]);
        lemma_semijoins_give(db, rule, tree, atom, front, sub_keys, sub_values, comps);
        lemma_semijoins(rule, atom, front, sub_keys, sub_values, comps);
        lemma_semijoin_gives(
            db,
            rule,
            tree,
            atom,
            subs,
            left.last,
            sub_values,
            steps.last,
            keys,
            values,
            comps,
        );
    }
}

/// A part with more atoms that fail.
pub open spec fn with_all_failing(part: Part, atoms: Seq<AtomSignature>) -> Part {
    Part { failing: part.failing.union(atoms.to_set()), ..part }
}

proof fn lemma_one_more_failing(part: Part, atoms: Seq<AtomSignature>)
    requires
        atoms.len() > 0,
    ensures
        with_failing(with_all_failing(part, atoms.drop_last()), atoms.last())
            == with_all_failing(part, atoms),
{
    let front = atoms.drop_last();
    let made = with_failing(with_all_failing(part, front), atoms.last());
    let whole = with_all_failing(part, atoms);
    assert forall|a: AtomSignature| #[trigger] made.failing.contains(a)
        <==> whole.failing.contains(a) by {
        if atoms.to_set().contains(a) {
            let k = atoms.index_of(a);
            if k < front.len() {
                assert(front[k] == a);
                assert(front.to_set().contains(a));
            }
        }
        if front.to_set().contains(a) {
            assert(atoms[front.index_of(a)] == a);
            assert(atoms.to_set().contains(a));
        }
        if a == atoms.last() {
            assert(atoms[atoms.len() - 1] == a);
            assert(atoms.to_set().contains(a));
        }
    }
    assert(made.failing =~= whole.failing);
}

/// Taking one more negated atom away.
proof fn lemma_one_antijoin_gives(
    db: Database,
    rule: FLRuleModel,
    tree: Map<TransformationModel, (TransformationModel, TransformationModel)>,
    atoms: Seq<AtomSignature>,
    atom: AtomSignature,
    left: TransformationModel,
    left_values: Seq<Seq<char>>,
    part: Part,
    last: TransformationModel,
    keys: Seq<Seq<char>>,
    values: Seq<Seq<char>>,
    comps: Seq<usize>,
)
    requires
        are_positions_small(rule),
        !atom.is_positive,
        atom.rhs_id < atoms_of(rule, false).len(),
        key_step(rule, atom, comps) is Some,
        puts_out(rule, left, key_vars(rule, atom), left_values),
        gives(db, rule, tree, left, key_vars(rule, atom) + left_values, part),
        comps_set(comps).subset_of(part.comps),
        trace(rule, keys, atoms) is Some,
        trace(rule, values, atoms) is Some,
        aj_step(
            left.output,
            key_step(rule, atom, comps)->0.output,
            trace(rule, keys, atoms)->0,
            trace(rule, values, atoms)->0,
        ) == Some(last),
        tree.contains_key(last),
        tree[last] == (left, key_step(rule, atom, comps)->0),
        can_run(tree),
    ensures
        gives(db, rule, tree, last, keys + values, with_failing(part, atom)),
{
    let vars = key_vars(rule, atom);
    let within = comps_in(rule, comps, vars);
    lemma_key_step_gives(db, rule, tree, atom, comps);
    law_trace_holds(rule, keys, atoms);
    law_trace_holds(rule, values, atoms);
    assert forall|var: Seq<char>| #[trigger] has_var(rule, atom, var) implies vars.contains(
        var,
    ) by {
        lemma_atom_vars(rule, atom, var);
    }
    assert forall|c: int, var: Seq<char>|
        within.contains(c) && #[trigger] comparisons(rule.rhs)[c].vars().contains(
            var,
        ) implies vars.contains(var) by {
        assert(comp_vars(rule, c as usize).contains(var));
    }
    assert(within.subset_of(part.comps)) by {
        assert forall|c: int| #[trigger] within.contains(c) implies part.comps.contains(c) by {
            assert(comps_set(comps).contains(c));
        }
    }
    lemma_antijoin_gives(
        db,
        rule,
        tree,
        last,
        left,
        key_step(rule, atom, comps)->0,
        atom,
        vars,
        left_values,
        part,
        within,
        trace(rule, keys, atoms)->0,
        trace(rule, values, atoms)->0,
        keys,
        values,
    );
}

/// Taking negated atoms away gives the values for which a part holds and none of
/// the atoms does.
pub proof fn lemma_antijoins_give(
    db: Database,
    rule: FLRuleModel,
    tree: Map<TransformationModel, (TransformationModel, TransformationModel)>,
    atoms: Seq<AtomSignature>,
    first: TransformationModel,
    negated: Seq<AtomSignature>,
    keys: Seq<Seq<char>>,
    values: Seq<Seq<char>>,
    comps: Seq<usize>,
    first_keys: Seq<Seq<char>>,
    first_values: Seq<Seq<char>>,
    part: Part,
    ids: Set<usize>,
)
    requires
        are_positions_small(rule),
        are_atoms(rule, negated, false),
        antijoins(rule, atoms, first, negated, keys, values, comps) is Some,
        has_steps(tree, antijoins(rule, atoms, first, negated, keys, values, comps)->0.tree),
        can_run(tree),
        puts_out(rule, first, first_keys, first_values),
        gives(db, rule, tree, first, first_keys + first_values, part),
        comps_set(comps).subset_of(part.comps),
        negated.len() > 0 ==> first_keys == key_vars(rule, negated[0]),
        negated.len() == 0 ==> first_keys == keys && first_values == values,
        is_of(first.output, ids),
        is_named(first),
    ensures
        gives(
            db,
            rule,
            tree,
            antijoins(rule, atoms, first, negated, keys, values, comps)->0.last,
            keys + values,
            with_all_failing(part, negated),
        ),
    decreases negated.len(),
{
    let steps = antijoins(rule, atoms, first, negated, keys, values, comps)->0;
    if negated.len() == 0 {
        assert(with_all_failing(part, negated) =~= part);
    } else {
        let front = negated.drop_last();
        let atom = negated[negated.len() - 1];
        let last_keys = key_vars(rule, atom);
        let last_values = carried(keys, values, last_keys);
        let left = antijoins(rule, atoms, first, front, last_keys, last_values, comps)->0;
        let right = key_step(rule, atom, comps)->0;
        assert(!atom.is_positive);
        assert(are_atoms(rule, front, false)) by {
            assert forall|i: int| 0 <= i < front.len() implies !(#[trigger] front[i]).is_positive
                && front[i].rhs_id < atoms_of(rule, false).len() by {
                assert(front[i] == negated[i]);
            }
        }
        lemma_antijoins_shape(rule, atoms, first, front, last_keys, last_values, comps, ids);
        assert(right.output.values.len() == 0);
        lemma_joined_columns(
            left.last.output,
            right.output,
            trace(rule, keys, atoms)->0,
            trace(rule, values, atoms)->0,
            Seq::empty(),
            ids,
        );
        lemma_has_left(tree, left, right, steps.last, ids);
        let left_values = if front.len() == 0 {
            first_values
        } else {
            last_values
        };
        if front.len() == 0 {
            assert(negated[0] == atom);
            assert(with_all_failing(part, front) =~= part);
        } else {
            assert(front[0] == negated[0]);
            lemma_antijoins_give(
                db,
                rule,
                tree,
                atoms,
                first,
                front,
                last_keys,
                last_values,
                comps,
                first_keys,
                first_values,
                part,
                ids,
            );
            lemma_antijoins(rule, atoms, first, front, last_keys, last_values, comps);
        }
        lemma_one_antijoin_gives(
            db,
            rule,
            tree,
            atoms,
            atom,
            left.last,
            left_values,
            with_all_failing(part, front),
            steps.last,
            keys,
            values,
            comps,
        );
        lemma_one_more_failing(part, negated);
    }
}

/// The steps for an atom and the atoms that filter it give the values for which the
/// atom, the positive ones and the comparisons hold, and the negated ones do not.
pub proof fn lemma_atom_steps_give(
    db: Database,
    rule: FLRuleModel,
    tree: Map<TransformationModel, (TransformationModel, TransformationModel)>,
    atom: AtomSignature,
    subs: Seq<AtomSignature>,
    negated: Seq<AtomSignature>,
    keys: Seq<Seq<char>>,
    values: Seq<Seq<char>>,
    comps: Seq<usize>,
)
    requires
        are_positions_small(rule),
        atom.is_positive,
        atom.rhs_id < atoms_of(rule, true).len(),
        are_atoms(rule, subs, true),
        atoms_are_at(rule, subs, vars_at(rule, atom)),
        are_atoms(rule, negated, false),
        atom_steps(rule, atom, subs, negated, keys, values, comps) is Some,
        has_steps(tree, atom_steps(rule, atom, subs, negated, keys, values, comps)->0.tree),
        can_run(tree),
    ensures
        gives(
            db,
            rule,
            tree,
            atom_steps(rule, atom, subs, negated, keys, values, comps)->0.last,
            keys + values,
            filtered_part(atom, subs, negated, comps),
        ),
        comps_are_at(rule, comps, vars_at(rule, atom)),
{
    if negated.len() == 0 {
        assert(negated =~= Seq::empty());
        lemma_semijoins_give(db, rule, tree, atom, subs, keys, values, comps);
    } else {
        let first_keys = key_vars(rule, negated[0]);
        let below = first_values(rule, atom, negated, keys, values);
        let bottom = first_steps(rule, atom, subs, negated, keys, values, comps)->0;
        let top = antijoins(rule, seq![atom], bottom.last, negated, keys, values, comps)->0;
        let steps = atom_steps(rule, atom, subs, negated, keys, values, comps)->0;
        let ids = set![atom.rhs_id];
        lemma_semijoins_shape(rule, atom, subs, first_keys, below, comps);
        lemma_antijoins_shape(
            rule,
            seq![atom],
            bottom.last,
            negated,
            keys,
            values,
            comps,
            ids,
        );
        assert(has_steps(tree, bottom.tree)) by {
            assert forall|step: TransformationModel| #[trigger]
                bottom.tree.contains_key(step) implies tree.contains_key(step) && tree[step]
                == bottom.tree[step] by {
                assert(steps.tree.contains_key(step));
            }
        }
        assert(has_steps(tree, top.tree)) by {
            assert forall|step: TransformationModel| #[trigger]
                top.tree.contains_key(step) implies tree.contains_key(step) && tree[step]
                == top.tree[step] by {
                assert(!bottom.tree.contains_key(step));
                assert(steps.tree.contains_key(step));
            }
        }
        lemma_semijoins_give(db, rule, tree, atom, subs, first_keys, below, comps);
        lemma_semijoins(rule, atom, subs, first_keys, below, comps);
        let part = filtered_part(atom, subs, Seq::empty(), comps);
        lemma_antijoins_give(
            db,
            rule,
            tree,
            seq![atom],
            bottom.last,
            negated,
            keys,
            values,
            comps,
            first_keys,
            below,
            part,
            ids,
        );
        assert(with_all_failing(part, negated) =~= filtered_part(atom, subs, negated, comps));
    }
}

} // verus!
