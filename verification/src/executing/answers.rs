//! The steps of a plan put out what the rule says.
use vstd::prelude::*;
use crate::catalog::atoms::{AtomArgumentSignature, AtomSignature};
use crate::catalog::body::{
    alias_of, are_positions_small, arg_of, atom_positions, atoms_of, comparisons, const_of,
    first_var, lemma_first_var, lemma_first_var_stays, position, var_of,
};
use crate::catalog::compare::PlacedComparisonModel;
use crate::catalog::query::{aliases_at, consts_at};
use crate::executing::columns::{
    assigned_aliases, assigned_comparisons, assigned_consts, law_join_step_moves_values,
    law_row_step_moves_values, values_of, Assignment,
};
use crate::executing::jn::Reach;
use crate::executing::meaning::{
    argument_fits, atom_at, atom_holds, comparison_holds, follows, gives, has_var, is_derived,
    is_image, is_joined, is_kept_as, is_within, lemma_held_values, lemma_part_agrees, makes,
    part_holds, part_union, row_fits, same_on, vals, Database, Part, Valuation,
};
use crate::parsing::rule::{AtomArgModel, ConstModel, FLRuleModel};
use crate::planning::linking::{holds, lemma_jn_name};
use crate::planning::steps::base_of;
use crate::planning::transformations::{aj_step, jn_step, kv_step, TransformationModel};

verus! {

/// Whether comparisons at arguments hold where some comparisons of a rule do.
pub open spec fn compares_as(
    rule: FLRuleModel,
    compares: Seq<PlacedComparisonModel<AtomArgumentSignature>>,
    comps: Set<int>,
) -> bool {
    forall|assignment: Assignment, valuation: Valuation| #[trigger]
        follows(rule, assignment, valuation) ==> (assigned_comparisons(assignment, compares)
            == Some(true) <==> comps_hold(rule, comps, valuation))
}

pub open spec fn comps_hold(rule: FLRuleModel, comps: Set<int>, valuation: Valuation) -> bool {
    forall|c: int| #[trigger]
        comps.contains(c) ==> comparison_holds(valuation, comparisons(rule.rhs)[c])
}

proof fn lemma_vals_joined(valuation: Valuation, a: Seq<Seq<char>>, b: Seq<Seq<char>>)
    ensures
        vals(valuation, a + b) == vals(valuation, a) + vals(valuation, b),
{
    assert(vals(valuation, a + b) =~= vals(valuation, a) + vals(valuation, b));
}

/// What constants ask of an assignment.
proof fn lemma_consts(
    rule: FLRuleModel,
    assignment: Assignment,
    columns: Seq<AtomArgumentSignature>,
)
    ensures
        assigned_consts(assignment, consts_at(rule, columns)) == Some(true) <==> (forall|k: int|
            0 <= k < columns.len() ==> is_const_met(rule, assignment, #[trigger] columns[k])),
    decreases columns.len(),
{
    if columns.len() > 0 {
        let front = columns.drop_last();
        let last = columns[columns.len() - 1];
        lemma_consts(rule, assignment, front);
        if forall|k: int|
            0 <= k < columns.len() ==> is_const_met(rule, assignment, #[trigger] columns[k]) {
            assert forall|k: int| 0 <= k < front.len() implies is_const_met(
                rule,
                assignment,
                #[trigger] front[k],
            ) by {
                assert(front[k] == columns[k]);
            }
            assert(is_const_met(rule, assignment, last));
        }
        if const_of(rule, last) is Some {
            assert(consts_at(rule, columns).drop_last() =~= consts_at(rule, front));
        }
        if assigned_consts(assignment, consts_at(rule, columns)) == Some(true) {
            assert forall|k: int| 0 <= k < columns.len() implies is_const_met(
                rule,
                assignment,
                #[trigger] columns[k],
            ) by {
                if k < front.len() {
                    assert(front[k] == columns[k]);
                }
            }
        }
    }
}

spec fn is_const_met(
    rule: FLRuleModel,
    assignment: Assignment,
    column: AtomArgumentSignature,
) -> bool {
    match const_of(rule, column) {
        Some(ConstModel::Integer(number)) => assignment(column) == number,
        Some(_) => false,
        None => true,
    }
}

spec fn is_alias_met(
    rule: FLRuleModel,
    assignment: Assignment,
    column: AtomArgumentSignature,
) -> bool {
    match alias_of(rule, column) {
        Some(first) => assignment(first) == assignment(column),
        None => true,
    }
}

/// What repeated variables ask of an assignment.
proof fn lemma_aliases(
    rule: FLRuleModel,
    assignment: Assignment,
    columns: Seq<AtomArgumentSignature>,
)
    ensures
        assigned_aliases(assignment, aliases_at(rule, columns)) <==> (forall|k: int|
            0 <= k < columns.len() ==> is_alias_met(rule, assignment, #[trigger] columns[k])),
    decreases columns.len(),
{
    let pairs = aliases_at(rule, columns);
    if columns.len() > 0 {
        let front = columns.drop_last();
        let before = aliases_at(rule, front);
        let last = columns[columns.len() - 1];
        lemma_aliases(rule, assignment, front);
        if forall|k: int|
            0 <= k < columns.len() ==> is_alias_met(rule, assignment, #[trigger] columns[k]) {
            assert forall|k: int| 0 <= k < front.len() implies is_alias_met(
                rule,
                assignment,
                #[trigger] front[k],
            ) by {
                assert(front[k] == columns[k]);
            }
            assert(is_alias_met(rule, assignment, last));
            assert forall|i: int| 0 <= i < pairs.len() implies assignment((#[trigger] pairs[i]).0)
                == assignment(pairs[i].1) by {
                if i < before.len() {
                    assert(pairs[i] == before[i]);
                }
            }
        }
        if assigned_aliases(assignment, pairs) {
            assert forall|i: int| 0 <= i < before.len() implies assignment(
                (#[trigger] before[i]).0,
            ) == assignment(before[i].1) by {
                assert(pairs[i] == before[i]);
            }
            assert forall|k: int| 0 <= k < columns.len() implies is_alias_met(
                rule,
                assignment,
                #[trigger] columns[k],
            ) by {
                if k < front.len() {
                    assert(front[k] == columns[k]);
                } else if alias_of(rule, last) is Some {
                    assert(pairs[before.len() as int] == (alias_of(rule, last)->0, last));
                }
            }
        }
    }
}

/// The values of the arguments of one atom, for values of the variables and a row.
spec fn row_assignment(rule: FLRuleModel, valuation: Valuation, row: Seq<i64>) -> Assignment {
    |s: AtomArgumentSignature|
        match var_of(rule, s) {
            Some(var) => valuation(var),
            None => row[s.argument_id as int],
        }
}

/// The values that a row gives to the variables of an atom.
spec fn row_valuation(arguments: Seq<AtomArgModel>, row: Seq<i64>) -> Valuation {
    |var: Seq<char>|
        match first_var(arguments, var) {
            Some(k) => row[k as int],
            None => 0i64,
        }
}

/// The arguments of an atom.
pub open spec fn columns_at(rule: FLRuleModel, atom: AtomSignature) -> Seq<AtomArgumentSignature> {
    atom_positions(rule, atom.is_positive)[atom.rhs_id as int]
}

pub proof fn lemma_columns_at(rule: FLRuleModel, atom: AtomSignature)
    requires
        are_positions_small(rule),
        atom.rhs_id < atoms_of(rule, atom.is_positive).len(),
    ensures
        columns_at(rule, atom).len() == atom_at(rule, atom).arguments.len(),
        atom_at(rule, atom).arguments.len() <= usize::MAX,
        forall|k: int|
            0 <= k < columns_at(rule, atom).len() ==> (#[trigger] columns_at(rule, atom)[k]
                == AtomArgumentSignature { atom_signature: atom, argument_id: k as usize })
                && arg_of(rule, columns_at(rule, atom)[k]) == Some(
                atom_at(rule, atom).arguments[k],
            ),
{
    assert(atom_at(rule, atom) == atoms_of(rule, atom.is_positive)[atom.rhs_id as int]);
    assert forall|k: int| 0 <= k < columns_at(rule, atom).len() implies (#[trigger] columns_at(
        rule,
        atom,
    )[k] == AtomArgumentSignature { atom_signature: atom, argument_id: k as usize }) && arg_of(
        rule,
        columns_at(rule, atom)[k],
    ) == Some(atom_at(rule, atom).arguments[k]) by {
        assert(columns_at(rule, atom)[k] == position(atom.is_positive, atom.rhs_id as int, k));
    }
}

/// A row that an atom asks for has the values that its arguments are assigned.
proof fn lemma_row_assigned(
    rule: FLRuleModel,
    atom: AtomSignature,
    valuation: Valuation,
    row: Seq<i64>,
)
    requires
        are_positions_small(rule),
        atom.rhs_id < atoms_of(rule, atom.is_positive).len(),
        row_fits(valuation, atom_at(rule, atom).arguments, row),
    ensures
        follows(rule, row_assignment(rule, valuation, row), valuation),
        values_of(row_assignment(rule, valuation, row), columns_at(rule, atom)) == row,
        assigned_consts(
            row_assignment(rule, valuation, row),
            consts_at(rule, columns_at(rule, atom)),
        ) == Some(true),
        assigned_aliases(
            row_assignment(rule, valuation, row),
            aliases_at(rule, columns_at(rule, atom)),
        ),
{
    let assignment = row_assignment(rule, valuation, row);
    let columns = columns_at(rule, atom);
    let arguments = atom_at(rule, atom).arguments;
    lemma_columns_at(rule, atom);
    assert forall|k: int| 0 <= k < columns.len() implies assignment(#[trigger] columns[k])
        == row[k] && is_const_met(rule, assignment, columns[k]) && is_alias_met(
        rule,
        assignment,
        columns[k],
    ) by {
        assert(argument_fits(valuation, arguments[k], row[k]));
        if let Some(first) = alias_of(rule, columns[k]) {
            let var = var_of(rule, columns[k])->0;
            let start = arguments.take(k);
            lemma_first_var(start, var);
            let f = first_var(start, var)->0 as int;
            assert(arguments[f] == start[f]);
            assert(columns[f] == first);
            assert(var_of(rule, first) == Some(var));
        }
    }
    assert(values_of(assignment, columns) =~= row);
    lemma_consts(rule, assignment, columns);
    lemma_aliases(rule, assignment, columns);
}

/// A row that meets the constants and the repetitions of an atom is one that the
/// atom asks for.
proof fn lemma_row_fits(rule: FLRuleModel, atom: AtomSignature, row: Seq<i64>)
    requires
        are_positions_small(rule),
        atom.rhs_id < atoms_of(rule, atom.is_positive).len(),
        row.len() == atom_at(rule, atom).arguments.len(),
        ({
            let assignment: Assignment = |s: AtomArgumentSignature| row[s.argument_id as int];
            &&& assigned_consts(assignment, consts_at(rule, columns_at(rule, atom))) == Some(true)
            &&& assigned_aliases(assignment, aliases_at(rule, columns_at(rule, atom)))
        }),
    ensures
        row_fits(
            row_valuation(atom_at(rule, atom).arguments, row),
            atom_at(rule, atom).arguments,
            row,
        ),
{
    let assignment: Assignment = |s: AtomArgumentSignature| row[s.argument_id as int];
    let columns = columns_at(rule, atom);
    let arguments = atom_at(rule, atom).arguments;
    let valuation = row_valuation(arguments, row);
    lemma_columns_at(rule, atom);
    lemma_consts(rule, assignment, columns);
    lemma_aliases(rule, assignment, columns);
    assert forall|k: int| 0 <= k < arguments.len() implies argument_fits(
        valuation,
        #[trigger] arguments[k],
        row[k],
    ) by {
        assert(columns[k] == AtomArgumentSignature { atom_signature: atom, argument_id: k as usize });
        assert(is_const_met(rule, assignment, columns[k]));
        assert(is_alias_met(rule, assignment, columns[k]));
        if let AtomArgModel::Var(var) = arguments[k] {
            assert(arguments.contains(arguments[k]));
            lemma_first_var(arguments, var);
            let f = first_var(arguments, var)->0 as int;
            let start = arguments.take(k);
            if f < k {
                assert(start[f] == arguments[f]);
                assert(start.contains(AtomArgModel::Var(var)));
                lemma_first_var(start, var);
                lemma_first_var_stays(arguments, k, var);
                assert(alias_of(rule, columns[k]) == Some(
                    AtomArgumentSignature { atom_signature: atom, argument_id: f as usize },
                ));
            }
        }
    }
}

/// A step on the relation of an atom gives the values of variables for which the
/// atom and some comparisons hold.
pub proof fn lemma_leaf_gives(
    db: Database,
    rule: FLRuleModel,
    tree: Map<TransformationModel, (TransformationModel, TransformationModel)>,
    atom: AtomSignature,
    key_columns: Seq<AtomArgumentSignature>,
    value_columns: Seq<AtomArgumentSignature>,
    compares: Seq<PlacedComparisonModel<AtomArgumentSignature>>,
    keys: Seq<Seq<char>>,
    values: Seq<Seq<char>>,
    comps: Set<int>,
    step: TransformationModel,
)
    requires
        are_positions_small(rule),
        atom.rhs_id < atoms_of(rule, atom.is_positive).len(),
        holds(rule, key_columns, keys),
        holds(rule, value_columns, values),
        compares_as(rule, compares, comps),
        kv_step(
            base_of(rule, atom),
            key_columns,
            value_columns,
            consts_at(rule, columns_at(rule, atom)),
            aliases_at(rule, columns_at(rule, atom)),
            compares,
        ) == Some(step),
        !tree.contains_key(step),
    ensures
        gives(
            db,
            rule,
            tree,
            step,
            keys + values,
            Part { holding: set![atom], failing: Set::empty(), comps },
        ),
{
    let columns = columns_at(rule, atom);
    let arguments = atom_at(rule, atom).arguments;
    let consts = consts_at(rule, columns);
    let aliases = aliases_at(rule, columns);
    let part = Part { holding: set![atom], failing: Set::empty(), comps };
    let name = atom_at(rule, atom).name;
    lemma_columns_at(rule, atom);
    assert(step.input.signature.name() == name);
    assert forall|row: Seq<i64>| #[trigger] makes(db, tree, step, row) implies is_image(
        db,
        rule,
        keys + values,
        part,
        row,
    ) by {
        let (input, key, value) = choose|input: Seq<i64>, key: Seq<i64>, value: Seq<i64>|
            db(step.input.signature.name(), input) && #[trigger] is_derived(
                step,
                input,
                key,
                value,
                row,
            );
        let raw: Assignment = |s: AtomArgumentSignature| input[s.argument_id as int];
        assert forall|k: int| 0 <= k < columns.len() implies values_of(raw, columns)[k]
            == input[k] by {
            assert(columns[k] == AtomArgumentSignature {
                atom_signature: atom,
                argument_id: k as usize,
            });
        }
        assert(values_of(raw, columns) =~= input);
        law_row_step_moves_values(
            raw,
            columns,
            key_columns,
            value_columns,
            consts,
            aliases,
            compares,
        );
        lemma_row_fits(rule, atom, input);
        let valuation = row_valuation(arguments, input);
        let assignment = row_assignment(rule, valuation, input);
        lemma_row_assigned(rule, atom, valuation, input);
        law_row_step_moves_values(
            assignment,
            columns,
            key_columns,
            value_columns,
            consts,
            aliases,
            compares,
        );
        assert(assigned_comparisons(assignment, compares) == Some(true));
        assert(comps_hold(rule, comps, valuation));
        lemma_held_values(rule, assignment, valuation, key_columns, keys);
        lemma_held_values(rule, assignment, valuation, value_columns, values);
        lemma_vals_joined(valuation, keys, values);
        assert(row_fits(valuation, arguments, input));
        assert(atom_holds(db, atom_at(rule, atom), valuation));
        assert(part_holds(db, rule, part, valuation));
        assert(row == vals(valuation, keys + values));
    }
    assert forall|row: Seq<i64>|
        is_image(db, rule, keys + values, part, row) implies #[trigger] makes(
        db,
        tree,
        step,
        row,
    ) by {
        let valuation = choose|valuation: Valuation|
            part_holds(db, rule, part, valuation) && row == #[trigger] vals(
                valuation,
                keys + values,
            );
        assert(part.holding.contains(atom));
        assert(comps_hold(rule, comps, valuation)) by {
            assert forall|c: int| #[trigger] comps.contains(c) implies comparison_holds(
                valuation,
                comparisons(rule.rhs)[c],
            ) by {
                assert(part.comps.contains(c));
            }
        }
        let input = choose|input: Seq<i64>|
            db(name, input) && #[trigger] row_fits(valuation, arguments, input);
        let assignment = row_assignment(rule, valuation, input);
        lemma_row_assigned(rule, atom, valuation, input);
        assert(assigned_comparisons(assignment, compares) == Some(true));
        law_row_step_moves_values(
            assignment,
            columns,
            key_columns,
            value_columns,
            consts,
            aliases,
            compares,
        );
        lemma_held_values(rule, assignment, valuation, key_columns, keys);
        lemma_held_values(rule, assignment, valuation, value_columns, values);
        lemma_vals_joined(valuation, keys, values);
        assert(is_derived(step, input, vals(valuation, keys), vals(valuation, values), row));
    }
}

/// The values that variables give to arguments.
spec fn var_assignment(rule: FLRuleModel, valuation: Valuation) -> Assignment {
    |s: AtomArgumentSignature|
        match var_of(rule, s) {
            Some(var) => valuation(var),
            None => 0i64,
        }
}

/// Two valuations put together: the first on some variables, the second elsewhere.
spec fn put_together(a: Valuation, b: Valuation, vars: Set<Seq<char>>) -> Valuation {
    |var: Seq<char>|
        if vars.contains(var) {
            a(var)
        } else {
            b(var)
        }
}

/// Whether columns can be counted by the machine.
pub open spec fn is_countable(step: TransformationModel) -> bool {
    &&& step.input.keys.len() <= usize::MAX
    &&& step.input.values.len() <= usize::MAX
    &&& step.second->0.values.len() <= usize::MAX
}

proof fn lemma_vals_agree(a: Valuation, b: Valuation, vars: Seq<Seq<char>>, all: Set<Seq<char>>)
    requires
        same_on(a, b, all),
        forall|i: int| 0 <= i < vars.len() ==> all.contains(#[trigger] vars[i]),
    ensures
        vals(a, vars) == vals(b, vars),
{
    assert(vals(a, vars) =~= vals(b, vars));
}

/// Whether variables are among some.
pub open spec fn are_among(vars: Seq<Seq<char>>, all: Set<Seq<char>>) -> bool {
    forall|i: int| 0 <= i < vars.len() ==> all.contains(#[trigger] vars[i])
}

/// What holds on each side of a join of two steps.
pub open spec fn is_side(
    db: Database,
    rule: FLRuleModel,
    tree: Map<TransformationModel, (TransformationModel, TransformationModel)>,
    step: TransformationModel,
    keys: Seq<Seq<char>>,
    values: Seq<Seq<char>>,
    part: Part,
    vars: Set<Seq<char>>,
) -> bool {
    &&& holds(rule, step.output.keys, keys)
    &&& holds(rule, step.output.values, values)
    &&& gives(db, rule, tree, step, keys + values, part)
    &&& is_within(rule, part, vars)
    &&& are_among(keys, vars)
    &&& are_among(values, vars)
}

/// The rows of both sides of a join of a row that it puts out, for values of the
/// variables of both sides.
proof fn lemma_sides_meet(
    db: Database,
    rule: FLRuleModel,
    keys: Seq<Seq<char>>,
    left_values: Seq<Seq<char>>,
    right_values: Seq<Seq<char>>,
    left_part: Part,
    right_part: Part,
    left_vars: Set<Seq<char>>,
    right_vars: Set<Seq<char>>,
    key: Seq<i64>,
    left: Seq<i64>,
    right: Seq<i64>,
) -> (valuation: Valuation)
    requires
        is_within(rule, left_part, left_vars),
        is_within(rule, right_part, right_vars),
        are_among(keys, left_vars),
        are_among(left_values, left_vars),
        are_among(keys, right_vars),
        are_among(right_values, right_vars),
        forall|var: Seq<char>| #[trigger]
            left_vars.contains(var) && right_vars.contains(var) ==> keys.contains(var),
        is_image(db, rule, keys + left_values, left_part, key + left),
        is_image(db, rule, keys + right_values, right_part, key + right),
        key.len() == keys.len(),
    ensures
        part_holds(db, rule, left_part, valuation),
        part_holds(db, rule, right_part, valuation),
        key == vals(valuation, keys),
        left == vals(valuation, left_values),
        right == vals(valuation, right_values),
{
    let a = choose|valuation: Valuation|
        part_holds(db, rule, left_part, valuation) && key + left == #[trigger] vals(
            valuation,
            keys + left_values,
        );
    let b = choose|valuation: Valuation|
        part_holds(db, rule, right_part, valuation) && key + right == #[trigger] vals(
            valuation,
            keys + right_values,
        );
    lemma_vals_joined(a, keys, left_values);
    lemma_vals_joined(b, keys, right_values);
    assert(key =~= (key + left).take(key.len() as int));
    assert(vals(a, keys) =~= (vals(a, keys) + vals(a, left_values)).take(key.len() as int));
    assert(left =~= (key + left).skip(key.len() as int));
    assert(vals(a, left_values) =~= (vals(a, keys) + vals(a, left_values)).skip(key.len() as int));
    assert(key =~= (key + right).take(key.len() as int));
    assert(vals(b, keys) =~= (vals(b, keys) + vals(b, right_values)).take(key.len() as int));
    assert(right =~= (key + right).skip(key.len() as int));
    assert(vals(b, right_values) =~= (vals(b, keys) + vals(b, right_values)).skip(
        key.len() as int,
    ));
    let valuation = put_together(a, b, left_vars);
    assert(same_on(a, valuation, left_vars));
    assert(same_on(b, valuation, right_vars)) by {
        assert forall|var: Seq<char>| #[trigger] right_vars.contains(var) implies b(var)
            == valuation(var) by {
            if left_vars.contains(var) {
                assert(left_vars.contains(var) && right_vars.contains(var));
                let i = keys.index_of(var);
                assert(vals(a, keys)[i] == vals(b, keys)[i]);
            }
        }
    }
    lemma_part_agrees(db, rule, left_part, left_vars, a, valuation);
    lemma_part_agrees(db, rule, right_part, right_vars, b, valuation);
    lemma_vals_agree(a, valuation, keys, left_vars);
    lemma_vals_agree(a, valuation, left_values, left_vars);
    lemma_vals_agree(b, valuation, right_values, right_vars);
    valuation
}

/// A join of two steps gives the values of variables for which both parts and some
/// comparisons hold.
pub proof fn lemma_join_gives(
    db: Database,
    rule: FLRuleModel,
    tree: Map<TransformationModel, (TransformationModel, TransformationModel)>,
    step: TransformationModel,
    left: TransformationModel,
    right: TransformationModel,
    keys: Seq<Seq<char>>,
    left_values: Seq<Seq<char>>,
    right_values: Seq<Seq<char>>,
    left_part: Part,
    right_part: Part,
    left_vars: Set<Seq<char>>,
    right_vars: Set<Seq<char>>,
    key_columns: Seq<AtomArgumentSignature>,
    value_columns: Seq<AtomArgumentSignature>,
    compares: Seq<PlacedComparisonModel<AtomArgumentSignature>>,
    comps: Set<int>,
    out_keys: Seq<Seq<char>>,
    out_values: Seq<Seq<char>>,
)
    requires
        is_side(db, rule, tree, left, keys, left_values, left_part, left_vars),
        is_side(db, rule, tree, right, keys, right_values, right_part, right_vars),
        forall|var: Seq<char>| #[trigger]
            left_vars.contains(var) && right_vars.contains(var) ==> keys.contains(var),
        jn_step(left.output, right.output, key_columns, value_columns, compares) == Some(step),
        holds(rule, key_columns, out_keys),
        holds(rule, value_columns, out_values),
        compares_as(rule, compares, comps),
        tree.contains_key(step),
        tree[step] == (left, right),
        is_countable(step),
    ensures
        gives(
            db,
            rule,
            tree,
            step,
            out_keys + out_values,
            part_union(
                part_union(left_part, right_part),
                Part { holding: Set::empty(), failing: Set::empty(), comps },
            ),
        ),
{
    let part = part_union(
        part_union(left_part, right_part),
        Part { holding: Set::empty(), failing: Set::empty(), comps },
    );
    lemma_jn_name(
        step.kind,
        left.output.signature.name(),
        right.output.signature.name(),
        step.flow,
    );
    assert forall|row: Seq<i64>| #[trigger] makes(db, tree, step, row) implies is_image(
        db,
        rule,
        out_keys + out_values,
        part,
        row,
    ) by {
        let (key, left_value, right_value) = choose|
            key: Seq<i64>,
            left_value: Seq<i64>,
            right_value: Seq<i64>,
        |
            makes(db, tree, left, key + left_value) && makes(db, tree, right, key + right_value)
                && #[trigger] is_joined(step, key, left_value, right_value, row);
        assert(is_image(db, rule, keys + left_values, left_part, key + left_value));
        assert(is_image(db, rule, keys + right_values, right_part, key + right_value));
        let valuation = lemma_sides_meet(
            db,
            rule,
            keys,
            left_values,
            right_values,
            left_part,
            right_part,
            left_vars,
            right_vars,
            key,
            left_value,
            right_value,
        );
        lemma_join_moves(
            rule,
            valuation,
            step,
            left,
            right,
            keys,
            left_values,
            right_values,
            key_columns,
            value_columns,
            compares,
            comps,
            out_keys,
            out_values,
        );
        assert(comps_hold(rule, comps, valuation));
        lemma_part_union(db, rule, left_part, right_part, comps, valuation);
        assert(row == vals(valuation, out_keys + out_values));
    }
    assert forall|row: Seq<i64>|
        is_image(db, rule, out_keys + out_values, part, row) implies #[trigger] makes(
        db,
        tree,
        step,
        row,
    ) by {
        let valuation = choose|valuation: Valuation|
            part_holds(db, rule, part, valuation) && row == #[trigger] vals(
                valuation,
                out_keys + out_values,
            );
        lemma_part_union(db, rule, left_part, right_part, comps, valuation);
        lemma_join_moves(
            rule,
            valuation,
            step,
            left,
            right,
            keys,
            left_values,
            right_values,
            key_columns,
            value_columns,
            compares,
            comps,
            out_keys,
            out_values,
        );
        let key = vals(valuation, keys);
        let left_value = vals(valuation, left_values);
        let right_value = vals(valuation, right_values);
        lemma_vals_joined(valuation, keys, left_values);
        lemma_vals_joined(valuation, keys, right_values);
        assert(is_image(db, rule, keys + left_values, left_part, key + left_value)) by {
            assert(key + left_value == vals(valuation, keys + left_values));
        }
        assert(is_image(db, rule, keys + right_values, right_part, key + right_value)) by {
            assert(key + right_value == vals(valuation, keys + right_values));
        }
        assert(makes(db, tree, left, key + left_value));
        assert(makes(db, tree, right, key + right_value));
        assert(is_joined(step, key, left_value, right_value, row));
    }
}

/// A part that is put together of two parts and comparisons holds where these do.
proof fn lemma_part_union(
    db: Database,
    rule: FLRuleModel,
    a: Part,
    b: Part,
    comps: Set<int>,
    valuation: Valuation,
)
    ensures
        part_holds(
            db,
            rule,
            part_union(
                part_union(a, b),
                Part { holding: Set::empty(), failing: Set::empty(), comps },
            ),
            valuation,
        ) <==> part_holds(db, rule, a, valuation) && part_holds(db, rule, b, valuation)
            && comps_hold(rule, comps, valuation),
{
    let all = part_union(
        part_union(a, b),
        Part { holding: Set::empty(), failing: Set::empty(), comps },
    );
    if part_holds(db, rule, all, valuation) {
        lemma_smaller_part(db, rule, a, all, valuation);
        lemma_smaller_part(db, rule, b, all, valuation);
        assert forall|c: int| #[trigger] comps.contains(c) implies comparison_holds(
            valuation,
            comparisons(rule.rhs)[c],
        ) by {
            assert(all.comps.contains(c));
        }
    }
}

/// What is in a part that holds does hold.
pub proof fn lemma_smaller_part(
    db: Database,
    rule: FLRuleModel,
    small: Part,
    large: Part,
    valuation: Valuation,
)
    requires
        part_holds(db, rule, large, valuation),
        small.holding.subset_of(large.holding),
        small.failing.subset_of(large.failing),
        small.comps.subset_of(large.comps),
    ensures
        part_holds(db, rule, small, valuation),
{
    assert forall|atom: AtomSignature| #[trigger] small.holding.contains(atom) implies atom_holds(
        db,
        atom_at(rule, atom),
        valuation,
    ) by {
        assert(large.holding.contains(atom));
    }
    assert forall|atom: AtomSignature| #[trigger] small.failing.contains(atom) implies !atom_holds(
        db,
        atom_at(rule, atom),
        valuation,
    ) by {
        assert(large.failing.contains(atom));
    }
    assert forall|c: int| #[trigger] small.comps.contains(c) implies comparison_holds(
        valuation,
        comparisons(rule.rhs)[c],
    ) by {
        assert(large.comps.contains(c));
    }
}

/// What a join puts out for the values of variables.
proof fn lemma_join_moves(
    rule: FLRuleModel,
    valuation: Valuation,
    step: TransformationModel,
    left: TransformationModel,
    right: TransformationModel,
    keys: Seq<Seq<char>>,
    left_values: Seq<Seq<char>>,
    right_values: Seq<Seq<char>>,
    key_columns: Seq<AtomArgumentSignature>,
    value_columns: Seq<AtomArgumentSignature>,
    compares: Seq<PlacedComparisonModel<AtomArgumentSignature>>,
    comps: Set<int>,
    out_keys: Seq<Seq<char>>,
    out_values: Seq<Seq<char>>,
)
    requires
        holds(rule, left.output.keys, keys),
        holds(rule, left.output.values, left_values),
        holds(rule, right.output.values, right_values),
        jn_step(left.output, right.output, key_columns, value_columns, compares) == Some(step),
        holds(rule, key_columns, out_keys),
        holds(rule, value_columns, out_values),
        compares_as(rule, compares, comps),
        is_countable(step),
    ensures
        is_joined(
            step,
            vals(valuation, keys),
            vals(valuation, left_values),
            vals(valuation, right_values),
            vals(valuation, out_keys + out_values),
        ) <==> comps_hold(rule, comps, valuation),
        forall|row: Seq<i64>| #[trigger]
            is_joined(
                step,
                vals(valuation, keys),
                vals(valuation, left_values),
                vals(valuation, right_values),
                row,
            ) ==> comps_hold(rule, comps, valuation) && row == vals(
                valuation,
                out_keys + out_values,
            ),
{
    let assignment = var_assignment(rule, valuation);
    assert(follows(rule, assignment, valuation));
    law_join_step_moves_values(
        Reach::All,
        assignment,
        left.output.keys,
        left.output.values,
        right.output.values,
        key_columns,
        value_columns,
        compares,
    );
    lemma_held_values(rule, assignment, valuation, left.output.keys, keys);
    lemma_held_values(rule, assignment, valuation, left.output.values, left_values);
    lemma_held_values(rule, assignment, valuation, right.output.values, right_values);
    lemma_held_values(rule, assignment, valuation, key_columns, out_keys);
    lemma_held_values(rule, assignment, valuation, value_columns, out_values);
    lemma_vals_joined(valuation, out_keys, out_values);
}

/// A part with one more atom that fails.
pub open spec fn with_failing(part: Part, atom: AtomSignature) -> Part {
    Part { failing: part.failing.insert(atom), ..part }
}

/// An antijoin of a step with one on a negated atom gives the values of variables
/// for which the part holds and the atom does not.
pub proof fn lemma_antijoin_gives(
    db: Database,
    rule: FLRuleModel,
    tree: Map<TransformationModel, (TransformationModel, TransformationModel)>,
    step: TransformationModel,
    left: TransformationModel,
    right: TransformationModel,
    atom: AtomSignature,
    keys: Seq<Seq<char>>,
    left_values: Seq<Seq<char>>,
    part: Part,
    comps: Set<int>,
    key_columns: Seq<AtomArgumentSignature>,
    value_columns: Seq<AtomArgumentSignature>,
    out_keys: Seq<Seq<char>>,
    out_values: Seq<Seq<char>>,
)
    requires
        holds(rule, left.output.keys, keys),
        holds(rule, left.output.values, left_values),
        gives(db, rule, tree, left, keys + left_values, part),
        gives(
            db,
            rule,
            tree,
            right,
            keys,
            Part { holding: set![atom], failing: Set::empty(), comps },
        ),
        comps.subset_of(part.comps),
        forall|var: Seq<char>| #[trigger] has_var(rule, atom, var) ==> keys.contains(var),
        forall|c: int, var: Seq<char>|
            comps.contains(c) && #[trigger] comparisons(rule.rhs)[c].vars().contains(var)
                ==> keys.contains(var),
        aj_step(left.output, right.output, key_columns, value_columns) == Some(step),
        holds(rule, key_columns, out_keys),
        holds(rule, value_columns, out_values),
        tree.contains_key(step),
        tree[step] == (left, right),
        is_countable(step),
    ensures
        gives(db, rule, tree, step, out_keys + out_values, with_failing(part, atom)),
{
    let right_part = Part { holding: set![atom], failing: Set::empty(), comps };
    let whole = with_failing(part, atom);
    lemma_jn_name(
        step.kind,
        left.output.signature.name(),
        right.output.signature.name(),
        step.flow,
    );
    assert forall|row: Seq<i64>| #[trigger] makes(db, tree, step, row) implies is_image(
        db,
        rule,
        out_keys + out_values,
        whole,
        row,
    ) by {
        let (key, value) = choose|key: Seq<i64>, value: Seq<i64>|
            makes(db, tree, left, key + value) && !makes(db, tree, right, key)
                && #[trigger] is_kept_as(step, key, value, row);
        assert(is_image(db, rule, keys + left_values, part, key + value));
        let valuation = choose|valuation: Valuation|
            part_holds(db, rule, part, valuation) && key + value == #[trigger] vals(
                valuation,
                keys + left_values,
            );
        lemma_vals_joined(valuation, keys, left_values);
        assert(key =~= (key + value).take(key.len() as int));
        assert(vals(valuation, keys) =~= vals(valuation, keys + left_values).take(
            key.len() as int,
        ));
        assert(value =~= (key + value).skip(key.len() as int));
        assert(vals(valuation, left_values) =~= vals(valuation, keys + left_values).skip(
            key.len() as int,
        ));
        lemma_kept_moves(
            rule,
            valuation,
            step,
            left,
            right,
            keys,
            left_values,
            key_columns,
            value_columns,
            out_keys,
            out_values,
        );
        if atom_holds(db, atom_at(rule, atom), valuation) {
            assert(part_holds(db, rule, right_part, valuation)) by {
                assert forall|c: int| #[trigger] comps.contains(c) implies comparison_holds(
                    valuation,
                    comparisons(rule.rhs)[c],
                ) by {
                    assert(part.comps.contains(c));
                }
            }
            assert(is_image(db, rule, keys, right_part, key)) by {
                assert(key == vals(valuation, keys));
            }
            assert(makes(db, tree, right, key));
        }
        assert(part_holds(db, rule, whole, valuation)) by {
            assert forall|other: AtomSignature| #[trigger]
                whole.failing.contains(other) implies !atom_holds(
                db,
                atom_at(rule, other),
                valuation,
            ) by {
                if other != atom {
                    assert(part.failing.contains(other));
                }
            }
        }
        assert(row == vals(valuation, out_keys + out_values));
    }
    assert forall|row: Seq<i64>|
        is_image(db, rule, out_keys + out_values, whole, row) implies #[trigger] makes(
        db,
        tree,
        step,
        row,
    ) by {
        let valuation = choose|valuation: Valuation|
            part_holds(db, rule, whole, valuation) && row == #[trigger] vals(
                valuation,
                out_keys + out_values,
            );
        let key = vals(valuation, keys);
        let value = vals(valuation, left_values);
        lemma_smaller_part(db, rule, part, whole, valuation);
        lemma_vals_joined(valuation, keys, left_values);
        assert(is_image(db, rule, keys + left_values, part, key + value)) by {
            assert(key + value == vals(valuation, keys + left_values));
        }
        assert(makes(db, tree, left, key + value));
        assert(whole.failing.contains(atom));
        if makes(db, tree, right, key) {
            assert(is_image(db, rule, keys, right_part, key));
            let other = choose|other: Valuation|
                part_holds(db, rule, right_part, other) && key == #[trigger] vals(other, keys);
            let vars = keys.to_set();
            assert(same_on(other, valuation, vars)) by {
                assert forall|var: Seq<char>| #[trigger] vars.contains(var) implies other(var)
                    == valuation(var) by {
                    let i = keys.index_of(var);
                    assert(vals(other, keys)[i] == vals(valuation, keys)[i]);
                }
            }
            assert(is_within(rule, right_part, vars)) by {
                assert forall|a: AtomSignature, var: Seq<char>|
                    (right_part.holding.contains(a) || right_part.failing.contains(a))
                        && #[trigger] has_var(rule, a, var) implies vars.contains(var) by {
                    assert(a == atom);
                    assert(keys.contains(var));
                }
                assert forall|c: int, var: Seq<char>|
                    right_part.comps.contains(c) && #[trigger] comparisons(
                        rule.rhs,
                    )[c].vars().contains(var) implies vars.contains(var) by {
                    assert(comps.contains(c));
                    assert(keys.contains(var));
                }
            }
            lemma_part_agrees(db, rule, right_part, vars, other, valuation);
            assert(right_part.holding.contains(atom));
        }
        lemma_kept_moves(
            rule,
            valuation,
            step,
            left,
            right,
            keys,
            left_values,
            key_columns,
            value_columns,
            out_keys,
            out_values,
        );
        assert(is_kept_as(step, key, value, row));
    }
}

/// What an antijoin puts out for the values of variables.
proof fn lemma_kept_moves(
    rule: FLRuleModel,
    valuation: Valuation,
    step: TransformationModel,
    left: TransformationModel,
    right: TransformationModel,
    keys: Seq<Seq<char>>,
    left_values: Seq<Seq<char>>,
    key_columns: Seq<AtomArgumentSignature>,
    value_columns: Seq<AtomArgumentSignature>,
    out_keys: Seq<Seq<char>>,
    out_values: Seq<Seq<char>>,
)
    requires
        holds(rule, left.output.keys, keys),
        holds(rule, left.output.values, left_values),
        aj_step(left.output, right.output, key_columns, value_columns) == Some(step),
        holds(rule, key_columns, out_keys),
        holds(rule, value_columns, out_values),
        is_countable(step),
    ensures
        forall|row: Seq<i64>| #[trigger]
            is_kept_as(step, vals(valuation, keys), vals(valuation, left_values), row) <==> row
                == vals(valuation, out_keys + out_values),
{
    let assignment = var_assignment(rule, valuation);
    assert(follows(rule, assignment, valuation));
    law_join_step_moves_values(
        Reach::All,
        assignment,
        left.output.keys,
        left.output.values,
        right.output.values,
        key_columns,
        value_columns,
        Seq::empty(),
    );
    lemma_held_values(rule, assignment, valuation, left.output.keys, keys);
    lemma_held_values(rule, assignment, valuation, left.output.values, left_values);
    lemma_held_values(rule, assignment, valuation, key_columns, out_keys);
    lemma_held_values(rule, assignment, valuation, value_columns, out_values);
    lemma_vals_joined(valuation, out_keys, out_values);
    assert(values_of(assignment, right.output.values) =~= Seq::<i64>::empty());
}

} // verus!
