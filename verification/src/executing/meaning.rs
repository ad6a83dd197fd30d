//! What a rule says of relations, and what the steps of a plan put out.
use vstd::prelude::*;
use crate::catalog::arithmetic::{place_arithmetic, place_factor};
use crate::catalog::atoms::{AtomArgumentSignature, AtomSignature};
use crate::catalog::body::{are_positions_small, atom_positions, atoms_of, comparisons, var_of};
use crate::catalog::query::{comp_vars, head_vars, scan, scan_all, trace, trace_negated};
use crate::catalog::rule::{strs_of, subset};
use crate::executing::columns::{
    assigned_arithmetic, assigned_comparison, assigned_comparisons, assigned_rest, values_of,
    Assignment,
};
use crate::executing::compare::{compares, evaluate, joined_rows};
use crate::executing::jn::{flat_result, join_result, Reach};
use crate::executing::map::kv_result;
use crate::lists::group_take;
use crate::parsing::arithmetic::{rest_vars, ArithmeticModel, ArithmeticOperator, FactorModel};
use crate::parsing::compare::ComparisonExprModel;
use crate::parsing::head::HeadArgModel;
use crate::parsing::rule::{AtomArgModel, AtomModel, ConstModel, FLRuleModel};
use crate::planning::linking::{holds, law_trace_holds};
use crate::planning::steps::{all_positive, assembled, traced_comparison};
use crate::planning::transformations::TransformationModel;

verus! {

/// Values for the variables of a rule.
pub type Valuation = spec_fn(Seq<char>) -> i64;

/// Which rows are in which relation.
pub type Database = spec_fn(Seq<char>, Seq<i64>) -> bool;

/// The values of some variables, in order.
pub open spec fn vals(valuation: Valuation, vars: Seq<Seq<char>>) -> Seq<i64> {
    Seq::new(vars.len(), |i: int| valuation(vars[i]))
}

/// The value of a factor.
pub open spec fn valued_factor(valuation: Valuation, factor: FactorModel) -> Option<i64> {
    match factor {
        FactorModel::Var(var) => Some(valuation(var)),
        FactorModel::Const(ConstModel::Integer(number)) => Some(number as i64),
        FactorModel::Const(_) => None,
    }
}

/// The values of factors behind their operators.
pub open spec fn valued_rest(
    valuation: Valuation,
    rest: Seq<(ArithmeticOperator, FactorModel)>,
) -> Option<Seq<(ArithmeticOperator, i64)>>
    decreases rest.len(),
{
    if rest.len() == 0 {
        Some(Seq::empty())
    } else {
        match (valued_rest(valuation, rest.drop_last()), valued_factor(valuation, rest.last().1)) {
            (Some(front), Some(value)) => Some(front.push((rest.last().0, value))),
            _ => None,
        }
    }
}

/// The value of an expression, worked out from left to right.
pub open spec fn valued_arithmetic(valuation: Valuation, arithmetic: ArithmeticModel) -> Option<
    i64,
> {
    match (valued_factor(valuation, arithmetic.init), valued_rest(valuation, arithmetic.rest)) {
        (Some(init), Some(rest)) => evaluate(init, rest),
        _ => None,
    }
}

/// Whether both sides of a comparison have values that compare as it says.
pub open spec fn comparison_holds(valuation: Valuation, comparison: ComparisonExprModel) -> bool {
    match (
        valued_arithmetic(valuation, comparison.left),
        valued_arithmetic(valuation, comparison.right),
    ) {
        (Some(left), Some(right)) => compares(left as int, comparison.operator, right as int),
        _ => false,
    }
}

/// Whether a value is what an argument of an atom asks for.
pub open spec fn argument_fits(valuation: Valuation, argument: AtomArgModel, value: i64) -> bool {
    match argument {
        AtomArgModel::Var(var) => value == valuation(var),
        AtomArgModel::Const(ConstModel::Integer(number)) => value == number,
        AtomArgModel::Const(_) => false,
        AtomArgModel::Placeholder => true,
    }
}

/// Whether a row is what the arguments of an atom ask for.
pub open spec fn row_fits(
    valuation: Valuation,
    arguments: Seq<AtomArgModel>,
    row: Seq<i64>,
) -> bool {
    &&& row.len() == arguments.len()
    &&& forall|k: int|
        0 <= k < arguments.len() ==> argument_fits(valuation, #[trigger] arguments[k], row[k])
}

/// Whether the relation of an atom has a row that the atom asks for.
pub open spec fn atom_holds(db: Database, atom: AtomModel, valuation: Valuation) -> bool {
    exists|row: Seq<i64>| db(atom.name, row) && #[trigger] row_fits(valuation, atom.arguments, row)
}

/// Whether the body of a rule holds: its atoms do, its negated atoms do not, and
/// its comparisons do.
pub open spec fn satisfies(db: Database, rule: FLRuleModel, valuation: Valuation) -> bool {
    &&& forall|i: int|
        0 <= i < atoms_of(rule, true).len() ==> atom_holds(
            db,
            #[trigger] atoms_of(rule, true)[i],
            valuation,
        )
    &&& forall|i: int|
        0 <= i < atoms_of(rule, false).len() ==> !atom_holds(
            db,
            #[trigger] atoms_of(rule, false)[i],
            valuation,
        )
    &&& forall|i: int|
        0 <= i < comparisons(rule.rhs).len() ==> comparison_holds(
            valuation,
            #[trigger] comparisons(rule.rhs)[i],
        )
}

/// The value of an argument of a head: that of the variable or of the expression, or
/// of the expression that is to be aggregated.
pub open spec fn head_value(valuation: Valuation, argument: HeadArgModel) -> Option<i64> {
    match argument {
        HeadArgModel::Var(var) => Some(valuation(var)),
        HeadArgModel::Arith(arithmetic) => valued_arithmetic(valuation, arithmetic),
        HeadArgModel::Aggregation(aggregation) => valued_arithmetic(
            valuation,
            aggregation.arithmetic,
        ),
    }
}

/// Whether a row holds the values of the arguments of a head.
pub open spec fn is_head_row(
    valuation: Valuation,
    arguments: Seq<HeadArgModel>,
    row: Seq<i64>,
) -> bool {
    &&& row.len() == arguments.len()
    &&& forall|k: int|
        0 <= k < arguments.len() ==> head_value(valuation, #[trigger] arguments[k]) == Some(row[k])
}

/// Whether a rule derives a row: the values of the arguments of its head, for values
/// under which its body holds.
pub open spec fn is_answer(db: Database, rule: FLRuleModel, row: Seq<i64>) -> bool {
    exists|valuation: Valuation| #[trigger]
        satisfies(db, rule, valuation) && is_head_row(valuation, rule.head.head_arguments, row)
}

/// Whether the variables of the head of a rule, from left to right, can have some
/// values where its body holds.
pub open spec fn is_binding(db: Database, rule: FLRuleModel, values: Seq<i64>) -> bool {
    exists|valuation: Valuation|
        satisfies(db, rule, valuation) && values == #[trigger] vals(
            valuation,
            head_vars(rule.head.head_arguments),
        )
}

/// Whether a step on the rows of a relation puts out a row for another one.
pub open spec fn is_derived(
    step: TransformationModel,
    input: Seq<i64>,
    key: Seq<i64>,
    value: Seq<i64>,
    row: Seq<i64>,
) -> bool {
    &&& input.len() == step.input.values.len()
    &&& kv_result(step.flow, input) == Some(Some((key, value)))
    &&& row == key + value
}

/// Whether a join puts out a row for a key and values of both sides.
pub open spec fn is_joined(
    step: TransformationModel,
    key: Seq<i64>,
    left: Seq<i64>,
    right: Seq<i64>,
    row: Seq<i64>,
) -> bool {
    &&& key.len() == step.input.keys.len()
    &&& left.len() == step.input.values.len()
    &&& right.len() == step.second->0.values.len()
    &&& join_result(
        step.flow,
        Reach::All,
        joined_rows(Some(key), Some(left), Some(right)),
    ) == Some(Some(row))
}

/// Whether an antijoin puts out a row for a key and a value that it keeps.
pub open spec fn is_kept_as(
    step: TransformationModel,
    key: Seq<i64>,
    left: Seq<i64>,
    row: Seq<i64>,
) -> bool {
    &&& key.len() == step.input.keys.len()
    &&& left.len() == step.input.values.len()
    &&& flat_result(
        step.flow,
        Reach::All,
        joined_rows(Some(key), Some(left), Some(Seq::empty())),
    ) == Some(row)
}

/// Whether a step of a plan puts out a row. A step that is not in the tree reads
/// the rows of a relation; one in the tree brings what the steps below it put out
/// together on equal keys.
pub open spec fn makes(
    db: Database,
    tree: Map<TransformationModel, (TransformationModel, TransformationModel)>,
    step: TransformationModel,
    row: Seq<i64>,
) -> bool
    decreases step.output.signature.name().len(),
{
    let (left, right) = tree[step];
    if !tree.contains_key(step) {
        exists|input: Seq<i64>, key: Seq<i64>, value: Seq<i64>|
            db(step.input.signature.name(), input) && #[trigger] is_derived(
                step,
                input,
                key,
                value,
                row,
            )
    } else if left.output.signature.name().len() >= step.output.signature.name().len()
        || right.output.signature.name().len() >= step.output.signature.name().len() {
        false
    } else if step.kind is NjKvK || step.kind is NjKK {
        exists|key: Seq<i64>, value: Seq<i64>|
            makes(db, tree, left, key + value) && !makes(db, tree, right, key)
                && #[trigger] is_kept_as(step, key, value, row)
    } else {
        exists|key: Seq<i64>, left_value: Seq<i64>, right_value: Seq<i64>|
            makes(db, tree, left, key + left_value) && makes(db, tree, right, key + right_value)
                && #[trigger] is_joined(step, key, left_value, right_value, row)
    }
}

/// A part of the body of a rule: atoms that hold, atoms that do not, and
/// comparisons.
#[verifier::ext_equal]
pub struct Part {
    pub holding: Set<AtomSignature>,
    pub failing: Set<AtomSignature>,
    pub comps: Set<int>,
}

/// The atom of a rule with a signature.
pub open spec fn atom_at(rule: FLRuleModel, atom: AtomSignature) -> AtomModel {
    atoms_of(rule, atom.is_positive)[atom.rhs_id as int]
}

pub open spec fn part_holds(
    db: Database,
    rule: FLRuleModel,
    part: Part,
    valuation: Valuation,
) -> bool {
    &&& forall|atom: AtomSignature| #[trigger]
        part.holding.contains(atom) ==> atom_holds(db, atom_at(rule, atom), valuation)
    &&& forall|atom: AtomSignature| #[trigger]
        part.failing.contains(atom) ==> !atom_holds(db, atom_at(rule, atom), valuation)
    &&& forall|c: int| #[trigger]
        part.comps.contains(c) ==> comparison_holds(valuation, comparisons(rule.rhs)[c])
}

pub open spec fn part_union(a: Part, b: Part) -> Part {
    Part {
        holding: a.holding.union(b.holding),
        failing: a.failing.union(b.failing),
        comps: a.comps.union(b.comps),
    }
}

/// Whether the rows that a step puts out are the values of some variables, for
/// values under which a part of the body holds.
pub open spec fn gives(
    db: Database,
    rule: FLRuleModel,
    tree: Map<TransformationModel, (TransformationModel, TransformationModel)>,
    step: TransformationModel,
    vars: Seq<Seq<char>>,
    part: Part,
) -> bool {
    forall|row: Seq<i64>| #[trigger]
        makes(db, tree, step, row) <==> is_image(db, rule, vars, part, row)
}

pub open spec fn is_image(
    db: Database,
    rule: FLRuleModel,
    vars: Seq<Seq<char>>,
    part: Part,
    row: Seq<i64>,
) -> bool {
    exists|valuation: Valuation|
        part_holds(db, rule, part, valuation) && row == #[trigger] vals(valuation, vars)
}

/// Whether an atom has a variable.
pub open spec fn has_var(rule: FLRuleModel, atom: AtomSignature, var: Seq<char>) -> bool {
    atom_at(rule, atom).arguments.contains(AtomArgModel::Var(var))
}

/// Whether a part of a body has no variables but some.
pub open spec fn is_within(rule: FLRuleModel, part: Part, vars: Set<Seq<char>>) -> bool {
    &&& forall|atom: AtomSignature, var: Seq<char>|
        (part.holding.contains(atom) || part.failing.contains(atom)) && #[trigger] has_var(
            rule,
            atom,
            var,
        ) ==> vars.contains(var)
    &&& forall|c: int, var: Seq<char>|
        part.comps.contains(c) && #[trigger] comparisons(rule.rhs)[c].vars().contains(var)
            ==> vars.contains(var)
}

/// Whether two valuations agree on some variables.
pub open spec fn same_on(a: Valuation, b: Valuation, vars: Set<Seq<char>>) -> bool {
    forall|var: Seq<char>| #[trigger] vars.contains(var) ==> a(var) == b(var)
}

proof fn lemma_rest_agrees(
    a: Valuation,
    b: Valuation,
    rest: Seq<(ArithmeticOperator, FactorModel)>,
    vars: Set<Seq<char>>,
)
    requires
        same_on(a, b, vars),
        forall|var: Seq<char>| #[trigger] rest_vars(rest).contains(var) ==> vars.contains(var),
    ensures
        valued_rest(a, rest) == valued_rest(b, rest),
    decreases rest.len(),
{
    if rest.len() > 0 {
        let front = rest_vars(rest.drop_last());
        let last = rest.last().1.vars();
        assert forall|var: Seq<char>| #[trigger] front.contains(var) implies vars.contains(
            var,
        ) by {
            let i = front.index_of(var);
            assert(rest_vars(rest)[i] == var);
        }
        lemma_rest_agrees(a, b, rest.drop_last(), vars);
        if let FactorModel::Var(var) = rest.last().1 {
            assert(rest_vars(rest)[front.len() as int] == var);
            assert(rest_vars(rest).contains(var));
            assert(vars.contains(var));
        }
    }
}

proof fn lemma_arithmetic_agrees(
    a: Valuation,
    b: Valuation,
    arithmetic: ArithmeticModel,
    vars: Set<Seq<char>>,
)
    requires
        same_on(a, b, vars),
        forall|var: Seq<char>| #[trigger]
            arithmetic.vars().contains(var) ==> vars.contains(var),
    ensures
        valued_arithmetic(a, arithmetic) == valued_arithmetic(b, arithmetic),
{
    let first = arithmetic.init.vars();
    assert forall|var: Seq<char>| #[trigger]
        rest_vars(arithmetic.rest).contains(var) implies vars.contains(var) by {
        let i = rest_vars(arithmetic.rest).index_of(var);
        assert(arithmetic.vars()[first.len() + i] == var);
        assert(arithmetic.vars().contains(var));
    }
    lemma_rest_agrees(a, b, arithmetic.rest, vars);
    if let FactorModel::Var(var) = arithmetic.init {
        assert(arithmetic.vars()[0] == var);
        assert(arithmetic.vars().contains(var));
        assert(vars.contains(var));
    }
}

pub proof fn lemma_comparison_agrees(
    a: Valuation,
    b: Valuation,
    comparison: ComparisonExprModel,
    vars: Set<Seq<char>>,
)
    requires
        same_on(a, b, vars),
        forall|var: Seq<char>| #[trigger]
            comparison.vars().contains(var) ==> vars.contains(var),
    ensures
        comparison_holds(a, comparison) == comparison_holds(b, comparison),
{
    let left = comparison.left.vars();
    let right = comparison.right.vars();
    assert forall|var: Seq<char>| #[trigger] left.contains(var) implies vars.contains(var) by {
        assert(comparison.vars()[left.index_of(var)] == var);
        assert(comparison.vars().contains(var));
    }
    assert forall|var: Seq<char>| #[trigger] right.contains(var) implies vars.contains(var) by {
        assert(comparison.vars()[left.len() + right.index_of(var)] == var);
        assert(comparison.vars().contains(var));
    }
    lemma_arithmetic_agrees(a, b, comparison.left, vars);
    lemma_arithmetic_agrees(a, b, comparison.right, vars);
}

pub proof fn lemma_atom_agrees(
    db: Database,
    a: Valuation,
    b: Valuation,
    atom: AtomModel,
    vars: Set<Seq<char>>,
)
    requires
        same_on(a, b, vars),
        forall|var: Seq<char>|
            #[trigger] atom.arguments.contains(AtomArgModel::Var(var)) ==> vars.contains(var),
    ensures
        atom_holds(db, atom, a) ==> atom_holds(db, atom, b),
{
    if atom_holds(db, atom, a) {
        let row = choose|row: Seq<i64>|
            db(atom.name, row) && #[trigger] row_fits(a, atom.arguments, row);
        assert forall|k: int| 0 <= k < atom.arguments.len() implies argument_fits(
            b,
            #[trigger] atom.arguments[k],
            row[k],
        ) by {
            assert(argument_fits(a, atom.arguments[k], row[k]));
            if let AtomArgModel::Var(var) = atom.arguments[k] {
                assert(atom.arguments.contains(AtomArgModel::Var(var)));
                assert(vars.contains(var));
            }
        }
        assert(row_fits(b, atom.arguments, row));
    }
}

/// A part of a body holds or not by the values of its own variables.
pub proof fn lemma_part_agrees(
    db: Database,
    rule: FLRuleModel,
    part: Part,
    vars: Set<Seq<char>>,
    a: Valuation,
    b: Valuation,
)
    requires
        is_within(rule, part, vars),
        same_on(a, b, vars),
        part_holds(db, rule, part, a),
    ensures
        part_holds(db, rule, part, b),
{
    assert forall|atom: AtomSignature| #[trigger] part.holding.contains(atom) implies atom_holds(
        db,
        atom_at(rule, atom),
        b,
    ) by {
        assert forall|var: Seq<char>|
            #[trigger] atom_at(rule, atom).arguments.contains(
                AtomArgModel::Var(var),
            ) implies vars.contains(var) by {
            assert(has_var(rule, atom, var));
        }
        lemma_atom_agrees(db, a, b, atom_at(rule, atom), vars);
    }
    assert forall|atom: AtomSignature| #[trigger] part.failing.contains(atom) implies !atom_holds(
        db,
        atom_at(rule, atom),
        b,
    ) by {
        assert forall|var: Seq<char>|
            #[trigger] atom_at(rule, atom).arguments.contains(
                AtomArgModel::Var(var),
            ) implies vars.contains(var) by {
            assert(has_var(rule, atom, var));
        }
        lemma_atom_agrees(db, b, a, atom_at(rule, atom), vars);
    }
    assert forall|c: int| #[trigger] part.comps.contains(c) implies comparison_holds(
        b,
        comparisons(rule.rhs)[c],
    ) by {
        lemma_comparison_agrees(a, b, comparisons(rule.rhs)[c], vars);
    }
}

/// Whether arguments have the values of their variables.
pub open spec fn follows(rule: FLRuleModel, assignment: Assignment, valuation: Valuation) -> bool {
    forall|s: AtomArgumentSignature| #[trigger]
        var_of(rule, s) is Some ==> assignment(s) == valuation(var_of(rule, s)->0)
}

/// The values of columns that hold some variables are those of the variables.
pub proof fn lemma_held_values(
    rule: FLRuleModel,
    assignment: Assignment,
    valuation: Valuation,
    columns: Seq<AtomArgumentSignature>,
    vars: Seq<Seq<char>>,
)
    requires
        follows(rule, assignment, valuation),
        holds(rule, columns, vars),
    ensures
        values_of(assignment, columns) == vals(valuation, vars),
{
    assert forall|i: int| 0 <= i < columns.len() implies values_of(assignment, columns)[i] == vals(
        valuation,
        vars,
    )[i] by {
        assert(var_of(rule, columns[i]) == Some(vars[i]));
    }
    assert(values_of(assignment, columns) =~= vals(valuation, vars));
}

proof fn lemma_rest_vars_prefix(rest: Seq<(ArithmeticOperator, FactorModel)>, n: int)
    requires
        0 <= n <= rest.len(),
    ensures
        rest_vars(rest.take(n)).is_prefix_of(rest_vars(rest)),
    decreases rest.len() - n,
{
    broadcast use group_take;

    if n < rest.len() {
        assert(rest.take(n + 1).drop_last() =~= rest.take(n));
        lemma_rest_vars_prefix(rest, n + 1);
    } else {
        assert(rest.take(n) =~= rest);
    }
}

proof fn lemma_placed_rest(
    rule: FLRuleModel,
    assignment: Assignment,
    valuation: Valuation,
    arithmetic: ArithmeticModel,
    columns: Seq<AtomArgumentSignature>,
    n: int,
)
    requires
        follows(rule, assignment, valuation),
        holds(rule, columns, arithmetic.vars()),
        0 <= n <= arithmetic.rest.len(),
    ensures
        assigned_rest(assignment, place_arithmetic(arithmetic, columns).rest.take(n))
            == valued_rest(valuation, arithmetic.rest.take(n)),
    decreases n,
{
    broadcast use group_take;

    let placed = place_arithmetic(arithmetic, columns).rest;
    if n > 0 {
        lemma_placed_rest(rule, assignment, valuation, arithmetic, columns, n - 1);
        assert(placed.take(n).drop_last() =~= placed.take(n - 1));
        assert(arithmetic.rest.take(n).drop_last() =~= arithmetic.rest.take(n - 1));
        let factor = arithmetic.rest[n - 1].1;
        let before = rest_vars(arithmetic.rest.take(n - 1));
        let at = (arithmetic.init.vars().len() + before.len()) as int;
        assert(placed[n - 1].1 == place_factor(factor, columns[at]));
        if let FactorModel::Var(var) = factor {
            lemma_rest_vars_prefix(arithmetic.rest, n);
            let upto = rest_vars(arithmetic.rest.take(n));
            assert(upto == before + seq![var]);
            assert(upto[before.len() as int] == var);
            assert(rest_vars(arithmetic.rest)[before.len() as int] == var);
            assert(arithmetic.vars()[at] == var);
            assert(var_of(rule, columns[at]) == Some(var));
        }
    } else {
        assert(placed.take(0).len() == 0);
        assert(arithmetic.rest.take(0).len() == 0);
    }
}

proof fn lemma_placed_arithmetic(
    rule: FLRuleModel,
    assignment: Assignment,
    valuation: Valuation,
    arithmetic: ArithmeticModel,
    columns: Seq<AtomArgumentSignature>,
)
    requires
        follows(rule, assignment, valuation),
        holds(rule, columns, arithmetic.vars()),
    ensures
        assigned_arithmetic(assignment, place_arithmetic(arithmetic, columns))
            == valued_arithmetic(valuation, arithmetic),
{
    let n = arithmetic.rest.len() as int;
    let placed = place_arithmetic(arithmetic, columns);
    lemma_placed_rest(rule, assignment, valuation, arithmetic, columns, n);
    assert(placed.rest.take(n) =~= placed.rest);
    assert(arithmetic.rest.take(n) =~= arithmetic.rest);
    if let FactorModel::Var(var) = arithmetic.init {
        assert(arithmetic.vars()[0] == var);
        assert(var_of(rule, columns[0]) == Some(var));
    }
}

proof fn lemma_scan(rule: FLRuleModel, var: Seq<char>, columns: Seq<AtomArgumentSignature>)
    requires
        strs_of(rule, columns).contains(var),
        scan(rule, var, columns) is Some,
    ensures
        scan(rule, var, columns)->0.len() == 1,
        var_of(rule, scan(rule, var, columns)->0[0]) == Some(var),
    decreases columns.len(),
{
    let front = columns.drop_last();
    let strs = strs_of(rule, columns);
    let k = strs.index_of(var);
    assert(strs[k] == var);
    if strs_of(rule, front).contains(var) {
        lemma_scan(rule, var, front);
    } else {
        if k < strs_of(rule, front).len() {
            assert(strs_of(rule, front)[k] == var);
        }
        assert(var_of(rule, columns.last()) == Some(var));
        lemma_scan_shape(rule, var, front);
    }
}

proof fn lemma_scan_shape(rule: FLRuleModel, var: Seq<char>, columns: Seq<AtomArgumentSignature>)
    ensures
        scan(rule, var, columns) matches Some(found) ==> found.len() <= 1 && (found.len() == 1
            ==> var_of(rule, found[0]) == Some(var)),
    decreases columns.len(),
{
    if columns.len() > 0 {
        lemma_scan_shape(rule, var, columns.drop_last());
    }
}

proof fn lemma_scan_all(
    rule: FLRuleModel,
    vars: Seq<Seq<char>>,
    columns: Seq<AtomArgumentSignature>,
)
    requires
        subset(vars, strs_of(rule, columns)),
        scan_all(rule, vars, columns) is Some,
    ensures
        holds(rule, scan_all(rule, vars, columns)->0, vars),
    decreases vars.len(),
{
    if vars.len() > 0 {
        let front = vars.drop_last();
        assert forall|x: Seq<char>| #[trigger] front.contains(x) implies strs_of(
            rule,
            columns,
        ).contains(x) by {
            assert(vars[front.index_of(x)] == x);
            assert(vars.contains(x));
        }
        lemma_scan_all(rule, front, columns);
        assert(vars.contains(vars.last()));
        lemma_scan(rule, vars.last(), columns);
        let found = scan_all(rule, vars, columns)->0;
        let before = scan_all(rule, front, columns)->0;
        assert forall|i: int| 0 <= i < vars.len() implies var_of(rule, #[trigger] found[i]) == Some(
            vars[i],
        ) by {
            if i < front.len() {
                assert(found[i] == before[i]);
            }
        }
    }
}

/// A comparison that is traced to atoms holds on values of arguments as it does on
/// values of variables.
proof fn lemma_traced_comparison(
    rule: FLRuleModel,
    assignment: Assignment,
    valuation: Valuation,
    comparison: ComparisonExprModel,
    atoms: Seq<AtomSignature>,
)
    requires
        are_positions_small(rule),
        follows(rule, assignment, valuation),
        traced_comparison(rule, comparison, atoms) is Some,
        all_positive(atoms) || subset(
            comparison.vars(),
            strs_of(rule, atom_positions(rule, false)[atoms[0].rhs_id as int]),
        ),
    ensures
        assigned_comparison(assignment, traced_comparison(rule, comparison, atoms)->0) == Some(true)
            <==> comparison_holds(valuation, comparison),
{
    let left = comparison.left.vars();
    let right = comparison.right.vars();
    if all_positive(atoms) {
        law_trace_holds(rule, left, atoms);
        law_trace_holds(rule, right, atoms);
        lemma_placed_arithmetic(
            rule,
            assignment,
            valuation,
            comparison.left,
            trace(rule, left, atoms)->0,
        );
        lemma_placed_arithmetic(
            rule,
            assignment,
            valuation,
            comparison.right,
            trace(rule, right, atoms)->0,
        );
    } else {
        let columns = atom_positions(rule, false)[atoms[0].rhs_id as int];
        assert(subset(left, strs_of(rule, columns))) by {
            assert forall|x: Seq<char>| #[trigger] left.contains(x) implies strs_of(
                rule,
                columns,
            ).contains(x) by {
                assert(comparison.vars()[left.index_of(x)] == x);
                assert(comparison.vars().contains(x));
            }
        }
        assert(subset(right, strs_of(rule, columns))) by {
            assert forall|x: Seq<char>| #[trigger] right.contains(x) implies strs_of(
                rule,
                columns,
            ).contains(x) by {
                assert(comparison.vars()[left.len() + right.index_of(x)] == x);
                assert(comparison.vars().contains(x));
            }
        }
        lemma_scan_all(rule, left, columns);
        lemma_scan_all(rule, right, columns);
        lemma_placed_arithmetic(
            rule,
            assignment,
            valuation,
            comparison.left,
            trace_negated(rule, left, atoms)->0,
        );
        lemma_placed_arithmetic(
            rule,
            assignment,
            valuation,
            comparison.right,
            trace_negated(rule, right, atoms)->0,
        );
    }
}

/// The comparisons out of some that have no variables but the given ones.
pub open spec fn comps_in(rule: FLRuleModel, ids: Seq<usize>, vars: Seq<Seq<char>>) -> Set<int> {
    Set::new(|c: int| 0 <= c <= usize::MAX && ids.contains(c as usize) && subset(
        comp_vars(rule, c as usize),
        vars,
    ))
}

/// All of some comparisons.
pub open spec fn comps_set(ids: Seq<usize>) -> Set<int> {
    Set::new(|c: int| 0 <= c <= usize::MAX && ids.contains(c as usize))
}

/// Comparisons that are put together hold on values of arguments as they do on
/// values of variables.
pub proof fn lemma_assembled(
    rule: FLRuleModel,
    assignment: Assignment,
    valuation: Valuation,
    ids: Seq<usize>,
    atoms: Seq<AtomSignature>,
    vars: Seq<Seq<char>>,
)
    requires
        are_positions_small(rule),
        follows(rule, assignment, valuation),
        assembled(rule, ids, atoms, vars) is Some,
        all_positive(atoms) || subset(
            vars,
            strs_of(rule, atom_positions(rule, false)[atoms[0].rhs_id as int]),
        ),
    ensures
        assigned_comparisons(assignment, assembled(rule, ids, atoms, vars)->0) == Some(true) <==> (
        forall|c: int| #[trigger]
            comps_in(rule, ids, vars).contains(c) ==> comparison_holds(
                valuation,
                comparisons(rule.rhs)[c],
            )),
    decreases ids.len(),
{
    let all = comps_in(rule, ids, vars);
    if ids.len() > 0 {
        let shorter = ids.drop_last();
        let front = comps_in(rule, shorter, vars);
        let last = ids.last() as int;
        lemma_assembled(rule, assignment, valuation, shorter, atoms, vars);
        let comparison = comparisons(rule.rhs)[last];
        assert forall|c: int| #[trigger] all.contains(c) <==> (front.contains(c) || (c == last
            && subset(comparison.vars(), vars))) by {
            if 0 <= c <= usize::MAX {
                if ids.contains(c as usize) && c != last {
                    assert(shorter[ids.index_of(c as usize)] == c as usize);
                }
                if shorter.contains(c as usize) {
                    assert(ids[shorter.index_of(c as usize)] == c as usize);
                }
                if c == last {
                    assert(ids[ids.len() - 1] == c as usize);
                }
            }
        }
        if subset(comparison.vars(), vars) {
            if !all_positive(atoms) {
                let columns = atom_positions(rule, false)[atoms[0].rhs_id as int];
                assert forall|x: Seq<char>| #[trigger]
                    comparison.vars().contains(x) implies strs_of(rule, columns).contains(x) by {
                    assert(vars.contains(x));
                }
            }
            lemma_traced_comparison(rule, assignment, valuation, comparison, atoms);
            let before = assembled(rule, shorter, atoms, vars)->0;
            assert(assembled(rule, ids, atoms, vars)->0.drop_last() =~= before);
            assert(all.contains(last));
            if forall|c: int| #[trigger]
                all.contains(c) ==> comparison_holds(valuation, comparisons(rule.rhs)[c]) {
                assert forall|c: int| #[trigger] front.contains(c) implies comparison_holds(
                    valuation,
                    comparisons(rule.rhs)[c],
                ) by {
                    assert(all.contains(c));
                }
            }
        } else {
            assert(all =~= front);
        }
    } else {
        assert forall|c: int| !#[trigger] all.contains(c) by {}
    }
}

/// Where as many comparisons are put together as there are, all of them have no
/// variables but the given ones.
pub proof fn lemma_all_assembled(
    rule: FLRuleModel,
    ids: Seq<usize>,
    atoms: Seq<AtomSignature>,
    vars: Seq<Seq<char>>,
)
    requires
        assembled(rule, ids, atoms, vars) is Some,
    ensures
        assembled(rule, ids, atoms, vars)->0.len() <= ids.len(),
        assembled(rule, ids, atoms, vars)->0.len() == ids.len() ==> forall|k: int|
            0 <= k < ids.len() ==> subset(comp_vars(rule, #[trigger] ids[k]), vars),
    decreases ids.len(),
{
    if ids.len() > 0 {
        lemma_all_assembled(rule, ids.drop_last(), atoms, vars);
        if assembled(rule, ids, atoms, vars)->0.len() == ids.len() {
            assert forall|k: int| 0 <= k < ids.len() implies subset(
                comp_vars(rule, #[trigger] ids[k]),
                vars,
            ) by {
                if k < ids.len() - 1 {
                    assert(ids.drop_last()[k] == ids[k]);
                }
            }
        }
    }
}

} // verus!
