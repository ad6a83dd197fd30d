//! What steps put out for rows whose columns hold the values of rule arguments.
use vstd::prelude::*;
use crate::catalog::arithmetic::{rest_places, PlacedArithmeticModel, PlacedFactorModel};
use crate::catalog::atoms::AtomArgumentSignature;
use crate::catalog::compare::PlacedComparisonModel;
use crate::executing::compare::{
    all_hold, arithmetic_value, compares, evaluate, factor_values, joined_rows, one_row, project,
    value_at, InputsModel,
};
use crate::executing::jn::{flat_result, join_result, read_columns, reads, Reach};
use crate::executing::map::{aliases_hold, consts_hold, kv_result};
use crate::lists::{group_take, lookup};
use crate::parsing::arithmetic::ArithmeticOperator;
use crate::parsing::rule::ConstModel;
use crate::planning::arguments::TransformationArgument;
use crate::planning::arithmetic::{lemma_rest_places_grow, move_arithmetic, move_factor};
use crate::planning::collections::CollectionModel;
use crate::planning::flow::{
    flow_aliases, flow_comparisons, flow_consts, flow_over, jn_columns, jn_flow, kv_columns,
    kv_flow,
};
use crate::planning::transformations::kv_step;

verus! {

/// Values for the arguments of a rule.
pub type Assignment = spec_fn(AtomArgumentSignature) -> i64;

/// The values of some arguments, in order.
pub open spec fn values_of(
    assignment: Assignment,
    arguments: Seq<AtomArgumentSignature>,
) -> Seq<i64> {
    Seq::new(arguments.len(), |i: int| assignment(arguments[i]))
}

/// The value of a factor under an assignment.
pub open spec fn assigned_factor(
    assignment: Assignment,
    factor: PlacedFactorModel<AtomArgumentSignature>,
) -> Option<i64> {
    match factor {
        PlacedFactorModel::Var(argument) => Some(assignment(argument)),
        PlacedFactorModel::Const(ConstModel::Integer(number)) => Some(number as i64),
        PlacedFactorModel::Const(_) => None,
    }
}

/// The values of factors behind their operators under an assignment.
pub open spec fn assigned_rest(
    assignment: Assignment,
    rest: Seq<(ArithmeticOperator, PlacedFactorModel<AtomArgumentSignature>)>,
) -> Option<Seq<(ArithmeticOperator, i64)>>
    decreases rest.len(),
{
    if rest.len() == 0 {
        Some(Seq::empty())
    } else {
        match (
            assigned_rest(assignment, rest.drop_last()),
            assigned_factor(assignment, rest.last().1),
        ) {
            (Some(front), Some(value)) => Some(front.push((rest.last().0, value))),
            _ => None,
        }
    }
}

/// The value of an expression under an assignment.
pub open spec fn assigned_arithmetic(
    assignment: Assignment,
    arithmetic: PlacedArithmeticModel<AtomArgumentSignature>,
) -> Option<i64> {
    match (
        assigned_factor(assignment, arithmetic.init),
        assigned_rest(assignment, arithmetic.rest),
    ) {
        (Some(init), Some(rest)) => evaluate(init, rest),
        _ => None,
    }
}

/// Whether a comparison holds under an assignment.
pub open spec fn assigned_comparison(
    assignment: Assignment,
    comparison: PlacedComparisonModel<AtomArgumentSignature>,
) -> Option<bool> {
    match (
        assigned_arithmetic(assignment, comparison.left),
        assigned_arithmetic(assignment, comparison.right),
    ) {
        (Some(left), Some(right)) => Some(compares(left as int, comparison.operator, right as int)),
        _ => None,
    }
}

/// Whether comparisons hold under an assignment, up to the first that does not.
pub open spec fn assigned_comparisons(
    assignment: Assignment,
    comparisons: Seq<PlacedComparisonModel<AtomArgumentSignature>>,
) -> Option<bool>
    decreases comparisons.len(),
{
    if comparisons.len() == 0 {
        Some(true)
    } else {
        match assigned_comparisons(assignment, comparisons.drop_last()) {
            Some(true) => assigned_comparison(assignment, comparisons.last()),
            other => other,
        }
    }
}

/// Whether arguments equal constants under an assignment, up to the first that
/// does not.
pub open spec fn assigned_consts(
    assignment: Assignment,
    pairs: Seq<(AtomArgumentSignature, ConstModel)>,
) -> Option<bool>
    decreases pairs.len(),
{
    if pairs.len() == 0 {
        Some(true)
    } else {
        match assigned_consts(assignment, pairs.drop_last()) {
            Some(true) => match pairs.last().1 {
                ConstModel::Integer(number) => Some(assignment(pairs.last().0) == number),
                _ => None,
            },
            other => other,
        }
    }
}

/// Whether arguments equal each other under an assignment.
pub open spec fn assigned_aliases(
    assignment: Assignment,
    pairs: Seq<(AtomArgumentSignature, AtomArgumentSignature)>,
) -> bool {
    forall|i: int|
        0 <= i < pairs.len() ==> assignment((#[trigger] pairs[i]).0) == assignment(pairs[i].1)
}

/// Whether the conditions of a step on one collection hold under an assignment.
pub open spec fn assigned_conditions(
    assignment: Assignment,
    consts: Seq<(AtomArgumentSignature, ConstModel)>,
    aliases: Seq<(AtomArgumentSignature, AtomArgumentSignature)>,
    comparisons: Seq<PlacedComparisonModel<AtomArgumentSignature>>,
) -> Option<bool> {
    match assigned_consts(assignment, consts) {
        Some(true) => if assigned_aliases(assignment, aliases) {
            assigned_comparisons(assignment, comparisons)
        } else {
            Some(false)
        },
        other => other,
    }
}

/// Whether input columns hold the values of their arguments.
spec fn agree(
    inputs: InputsModel,
    columns: Seq<(AtomArgumentSignature, TransformationArgument)>,
    assignment: Assignment,
) -> bool {
    forall|k: int|
        0 <= k < columns.len() ==> value_at(inputs, (#[trigger] columns[k]).1) == Some(
            assignment(columns[k].0),
        )
}

proof fn lemma_found(
    inputs: InputsModel,
    columns: Seq<(AtomArgumentSignature, TransformationArgument)>,
    assignment: Assignment,
    argument: AtomArgumentSignature,
)
    requires
        agree(inputs, columns, assignment),
    ensures
        lookup(columns, argument) matches Some(column) ==> value_at(inputs, column) == Some(
            assignment(argument),
        ) && exists|k: int| 0 <= k < columns.len() && (#[trigger] columns[k]).1 == column,
    decreases columns.len(),
{
    if columns.len() > 0 {
        let k = columns.len() - 1;
        assert(columns[k] == columns.last());
        let front = columns.drop_last();
        assert forall|k: int| 0 <= k < front.len() implies value_at(
            inputs,
            (#[trigger] front[k]).1,
        ) == Some(assignment(front[k].0)) by {
            assert(front[k] == columns[k]);
        }
        lemma_found(inputs, front, assignment, argument);
        if columns.last().0 != argument && lookup(front, argument) is Some {
            let column = lookup(front, argument)->0;
            let j = choose|j: int| 0 <= j < front.len() && (#[trigger] front[j]).1 == column;
            assert(columns[j].1 == column);
        }
    }
}

/// The values of the columns that hold some arguments are those of the arguments,
/// one by one.
proof fn lemma_over(
    inputs: InputsModel,
    columns: Seq<(AtomArgumentSignature, TransformationArgument)>,
    assignment: Assignment,
    arguments: Seq<AtomArgumentSignature>,
)
    requires
        agree(inputs, columns, assignment),
        flow_over(columns, arguments) is Some,
    ensures
        flow_over(columns, arguments)->0.len() == arguments.len(),
        forall|i: int|
            0 <= i < arguments.len() ==> value_at(
                inputs,
                #[trigger] flow_over(columns, arguments)->0[i],
            ) == Some(assignment(arguments[i])),
        project(inputs, flow_over(columns, arguments)->0) == Some(values_of(assignment, arguments)),
    decreases arguments.len(),
{
    let found = flow_over(columns, arguments)->0;
    if arguments.len() > 0 {
        let shorter = arguments.drop_last();
        lemma_over(inputs, columns, assignment, shorter);
        lemma_found(inputs, columns, assignment, arguments.last());
        let front = flow_over(columns, shorter)->0;
        assert(found.drop_last() =~= front);
        assert forall|i: int| 0 <= i < arguments.len() implies value_at(
            inputs,
            #[trigger] found[i],
        ) == Some(assignment(arguments[i])) by {
            if i < shorter.len() {
                assert(found[i] == front[i]);
                assert(shorter[i] == arguments[i]);
            }
        }
        assert(values_of(assignment, arguments) =~= values_of(assignment, shorter).push(
            assignment(arguments.last()),
        ));
    } else {
        assert(values_of(assignment, arguments) =~= Seq::empty());
    }
}

proof fn lemma_consts(
    inputs: InputsModel,
    columns: Seq<(AtomArgumentSignature, TransformationArgument)>,
    assignment: Assignment,
    pairs: Seq<(AtomArgumentSignature, ConstModel)>,
)
    requires
        agree(inputs, columns, assignment),
        flow_consts(columns, pairs) is Some,
    ensures
        consts_hold(inputs, flow_consts(columns, pairs)->0) == assigned_consts(assignment, pairs),
    decreases pairs.len(),
{
    if pairs.len() > 0 {
        lemma_consts(inputs, columns, assignment, pairs.drop_last());
        lemma_found(inputs, columns, assignment, pairs.last().0);
        let front = flow_consts(columns, pairs.drop_last())->0;
        assert(flow_consts(columns, pairs)->0.drop_last() =~= front);
    }
}

proof fn lemma_aliases(
    inputs: InputsModel,
    columns: Seq<(AtomArgumentSignature, TransformationArgument)>,
    assignment: Assignment,
    pairs: Seq<(AtomArgumentSignature, AtomArgumentSignature)>,
)
    requires
        agree(inputs, columns, assignment),
        flow_aliases(columns, pairs) is Some,
    ensures
        aliases_hold(inputs, flow_aliases(columns, pairs)->0) == Some(
            assigned_aliases(assignment, pairs),
        ),
    decreases pairs.len(),
{
    if pairs.len() > 0 {
        let shorter = pairs.drop_last();
        lemma_aliases(inputs, columns, assignment, shorter);
        lemma_found(inputs, columns, assignment, pairs.last().0);
        lemma_found(inputs, columns, assignment, pairs.last().1);
        let front = flow_aliases(columns, shorter)->0;
        assert(flow_aliases(columns, pairs)->0.drop_last() =~= front);
        assert(assigned_aliases(assignment, pairs) == (assigned_aliases(assignment, shorter)
            && assignment(pairs.last().0) == assignment(pairs.last().1))) by {
            if assigned_aliases(assignment, pairs) {
                assert forall|i: int| 0 <= i < shorter.len() implies assignment(
                    (#[trigger] shorter[i]).0,
                ) == assignment(shorter[i].1) by {
                    assert(shorter[i] == pairs[i]);
                }
                assert(assignment(pairs[pairs.len() - 1].0) == assignment(
                    pairs[pairs.len() - 1].1,
                ));
            } else {
                let i = choose|i: int|
                    0 <= i < pairs.len() && assignment((#[trigger] pairs[i]).0) != assignment(
                        pairs[i].1,
                    );
                if i < shorter.len() {
                    assert(shorter[i] == pairs[i]);
                }
            }
        }
    }
}

/// The values of factors that were moved to columns.
proof fn lemma_rest(
    inputs: InputsModel,
    assignment: Assignment,
    arithmetic: PlacedArithmeticModel<AtomArgumentSignature>,
    places: Seq<TransformationArgument>,
    n: int,
)
    requires
        places.len() == arithmetic.places().len(),
        forall|i: int|
            0 <= i < places.len() ==> value_at(inputs, #[trigger] places[i]) == Some(
                assignment(arithmetic.places()[i]),
            ),
        0 <= n <= arithmetic.rest.len(),
    ensures
        factor_values(inputs, move_arithmetic(arithmetic, places).rest.take(n)) == assigned_rest(
            assignment,
            arithmetic.rest.take(n),
        ),
    decreases n,
{
    broadcast use group_take;

    let moved = move_arithmetic(arithmetic, places).rest;
    if n > 0 {
        lemma_rest(inputs, assignment, arithmetic, places, n - 1);
        assert(moved.take(n).drop_last() =~= moved.take(n - 1));
        assert(arithmetic.rest.take(n).drop_last() =~= arithmetic.rest.take(n - 1));
        let factor = arithmetic.rest[n - 1].1;
        let at = (arithmetic.init.places().len() + rest_places(
            arithmetic.rest.take(n - 1),
        ).len()) as int;
        assert(moved[n - 1].1 == move_factor(factor, places[at]));
        if let PlacedFactorModel::Var(argument) = factor {
            lemma_rest_places_grow(arithmetic.rest, n);
            lemma_rest_prefix(arithmetic.rest, n);
            assert(rest_places(arithmetic.rest.take(n)) == rest_places(
                arithmetic.rest.take(n - 1),
            ) + seq![argument]);
            assert(arithmetic.places()[at] == argument);
        }
    } else {
        assert(moved.take(0).len() == 0);
        assert(arithmetic.rest.take(0).len() == 0);
    }
}

proof fn lemma_rest_prefix<P>(rest: Seq<(ArithmeticOperator, PlacedFactorModel<P>)>, n: int)
    requires
        0 <= n <= rest.len(),
    ensures
        rest_places(rest.take(n)).is_prefix_of(rest_places(rest)),
    decreases rest.len() - n,
{
    broadcast use group_take;

    if n < rest.len() {
        assert(rest.take(n + 1).drop_last() =~= rest.take(n));
        lemma_rest_prefix(rest, n + 1);
    } else {
        assert(rest.take(n) =~= rest);
    }
}

proof fn lemma_arithmetic(
    inputs: InputsModel,
    assignment: Assignment,
    arithmetic: PlacedArithmeticModel<AtomArgumentSignature>,
    places: Seq<TransformationArgument>,
)
    requires
        places.len() == arithmetic.places().len(),
        forall|i: int|
            0 <= i < places.len() ==> value_at(inputs, #[trigger] places[i]) == Some(
                assignment(arithmetic.places()[i]),
            ),
    ensures
        arithmetic_value(inputs, move_arithmetic(arithmetic, places)) == assigned_arithmetic(
            assignment,
            arithmetic,
        ),
{
    let n = arithmetic.rest.len() as int;
    let moved = move_arithmetic(arithmetic, places);
    lemma_rest(inputs, assignment, arithmetic, places, n);
    assert(moved.rest.take(n) =~= moved.rest);
    assert(arithmetic.rest.take(n) =~= arithmetic.rest);
    if let PlacedFactorModel::Var(argument) = arithmetic.init {
        assert(arithmetic.places()[0] == argument);
        assert(value_at(inputs, places[0]) == Some(assignment(argument)));
    }
}

proof fn lemma_comparisons(
    inputs: InputsModel,
    columns: Seq<(AtomArgumentSignature, TransformationArgument)>,
    assignment: Assignment,
    comparisons: Seq<PlacedComparisonModel<AtomArgumentSignature>>,
)
    requires
        agree(inputs, columns, assignment),
        flow_comparisons(columns, comparisons) is Some,
    ensures
        all_hold(inputs, flow_comparisons(columns, comparisons)->0) == assigned_comparisons(
            assignment,
            comparisons,
        ),
    decreases comparisons.len(),
{
    if comparisons.len() > 0 {
        lemma_comparisons(inputs, columns, assignment, comparisons.drop_last());
        let last = comparisons.last();
        lemma_over(inputs, columns, assignment, last.left.places());
        lemma_over(inputs, columns, assignment, last.right.places());
        let left = flow_over(columns, last.left.places())->0;
        let right = flow_over(columns, last.right.places())->0;
        lemma_arithmetic(inputs, assignment, last.left, left);
        lemma_arithmetic(inputs, assignment, last.right, right);
        let front = flow_comparisons(columns, comparisons.drop_last())->0;
        assert(flow_comparisons(columns, comparisons)->0.drop_last() =~= front);
    }
}

/// A step on one collection whose rows hold the values of some arguments puts out
/// the values of the arguments that it is made for, where its conditions hold on
/// these values, and nothing where one does not. Only where a condition has no
/// value there is no result.
pub proof fn law_row_step_moves_values(
    assignment: Assignment,
    input: Seq<AtomArgumentSignature>,
    output_keys: Seq<AtomArgumentSignature>,
    output_values: Seq<AtomArgumentSignature>,
    consts: Seq<(AtomArgumentSignature, ConstModel)>,
    aliases: Seq<(AtomArgumentSignature, AtomArgumentSignature)>,
    comparisons: Seq<PlacedComparisonModel<AtomArgumentSignature>>,
)
    requires
        input.len() <= usize::MAX,
        kv_flow(
            Seq::empty(),
            input,
            output_keys,
            output_values,
            consts,
            aliases,
            comparisons,
        ) is Some,
    ensures
        ({
            let flow = kv_flow(
                Seq::empty(),
                input,
                output_keys,
                output_values,
                consts,
                aliases,
                comparisons,
            )->0;
            kv_result(flow, values_of(assignment, input)) == match assigned_conditions(
                assignment,
                consts,
                aliases,
                comparisons,
            ) {
                Some(true) => Some(
                    Some(
                        (values_of(assignment, output_keys), values_of(assignment, output_values)),
                    ),
                ),
                Some(false) => Some(None),
                None => None,
            }
        }),
{
    let columns = kv_columns(Seq::empty(), input);
    let inputs = one_row(values_of(assignment, input));
    assert(agree(inputs, columns, assignment)) by {
        assert forall|k: int| 0 <= k < columns.len() implies value_at(
            inputs,
            (#[trigger] columns[k]).1,
        ) == Some(assignment(columns[k].0)) by {
            assert(columns[k] == (input[k], TransformationArgument::KV((true, k as usize))));
        }
    }
    lemma_over(inputs, columns, assignment, output_keys);
    lemma_over(inputs, columns, assignment, output_values);
    lemma_consts(inputs, columns, assignment, consts);
    lemma_aliases(inputs, columns, assignment, aliases);
    lemma_comparisons(inputs, columns, assignment, comparisons);
}

/// A step that is marked as one that does nothing puts out each row as it is, the
/// key before the value.
pub proof fn law_no_op_keeps_rows(
    input: CollectionModel,
    output_keys: Seq<AtomArgumentSignature>,
    output_values: Seq<AtomArgumentSignature>,
    consts: Seq<(AtomArgumentSignature, ConstModel)>,
    aliases: Seq<(AtomArgumentSignature, AtomArgumentSignature)>,
    comparisons: Seq<PlacedComparisonModel<AtomArgumentSignature>>,
    row: Seq<i64>,
)
    requires
        input.keys.len() == 0,
        input.values.len() <= usize::MAX,
        input.values.no_duplicates(),
        row.len() == input.values.len(),
        kv_step(input, output_keys, output_values, consts, aliases, comparisons) is Some,
        kv_step(input, output_keys, output_values, consts, aliases, comparisons)->0.is_no_op,
    ensures
        ({
            let step = kv_step(
                input,
                output_keys,
                output_values,
                consts,
                aliases,
                comparisons,
            )->0;
            kv_result(step.flow, row) matches Some(Some((key, value))) && key + value == row
        }),
{
    let assignment: Assignment = |s: AtomArgumentSignature| row[input.values.index_of(s)];
    assert(input.keys =~= Seq::empty());
    assert forall|i: int| 0 <= i < row.len() implies #[trigger] values_of(
        assignment,
        input.values,
    )[i] == row[i] by {
        assert(input.values.contains(input.values[i]));
        let k = input.values.index_of(input.values[i]);
        assert(input.values[k] == input.values[i]);
    }
    assert(values_of(assignment, input.values) =~= row);
    law_row_step_moves_values(
        assignment,
        input.values,
        output_keys,
        output_values,
        consts,
        aliases,
        comparisons,
    );
    assert(input.keys + input.values =~= input.values);
    assert(values_of(assignment, output_keys) + values_of(assignment, output_values)
        =~= values_of(assignment, output_keys + output_values));
}

/// The rows that a kind of join has at hand, under an assignment.
pub open spec fn rows_at_hand(
    reach: Reach,
    assignment: Assignment,
    keys: Seq<AtomArgumentSignature>,
    left_values: Seq<AtomArgumentSignature>,
    right_values: Seq<AtomArgumentSignature>,
) -> InputsModel {
    let key = Some(values_of(assignment, keys));
    let left = Some(values_of(assignment, left_values));
    let right = Some(values_of(assignment, right_values));
    match reach {
        Reach::All => joined_rows(key, left, right),
        Reach::Values => joined_rows(None, left, right),
        Reach::LeftAndKey => joined_rows(key, left, None),
        Reach::Key => joined_rows(key, None, None),
    }
}

/// Whether a kind of join has all columns of its inputs at hand.
pub open spec fn is_enough(
    reach: Reach,
    keys: Seq<AtomArgumentSignature>,
    left_values: Seq<AtomArgumentSignature>,
    right_values: Seq<AtomArgumentSignature>,
) -> bool {
    match reach {
        Reach::All => true,
        Reach::Values => keys.len() == 0,
        Reach::LeftAndKey => right_values.len() == 0,
        Reach::Key => left_values.len() == 0 && right_values.len() == 0,
    }
}

/// All columns of a flow are read where a join has all columns at hand.
pub proof fn lemma_all_read(
    reach: Reach,
    keys: Seq<AtomArgumentSignature>,
    left_values: Seq<AtomArgumentSignature>,
    right_values: Seq<AtomArgumentSignature>,
    arguments: Seq<AtomArgumentSignature>,
)
    requires
        is_enough(reach, keys, left_values, right_values),
        flow_over(jn_columns(keys, left_values, right_values), arguments) is Some,
    ensures
        ({
            let found = flow_over(jn_columns(keys, left_values, right_values), arguments)->0;
            forall|i: int| 0 <= i < found.len() ==> reads(reach, #[trigger] found[i])
        }),
    decreases arguments.len(),
{
    let columns = jn_columns(keys, left_values, right_values);
    if arguments.len() > 0 {
        lemma_all_read(reach, keys, left_values, right_values, arguments.drop_last());
        let found = flow_over(columns, arguments)->0;
        let front = flow_over(columns, arguments.drop_last())->0;
        lemma_lookup_read(reach, columns, arguments.last());
        assert forall|k: int| 0 <= k < columns.len() implies reads(
            reach,
            (#[trigger] columns[k]).1,
        ) by {}
        assert forall|i: int| 0 <= i < found.len() implies reads(reach, #[trigger] found[i]) by {
            if i < front.len() {
                assert(found[i] == front[i]);
            }
        }
    }
}

proof fn lemma_lookup_read(
    reach: Reach,
    columns: Seq<(AtomArgumentSignature, TransformationArgument)>,
    argument: AtomArgumentSignature,
)
    ensures
        (forall|k: int| 0 <= k < columns.len() ==> reads(reach, (#[trigger] columns[k]).1)) ==> (
        lookup(columns, argument) matches Some(column) ==> reads(reach, column)),
    decreases columns.len(),
{
    if columns.len() > 0 {
        let front = columns.drop_last();
        lemma_lookup_read(reach, front, argument);
        if forall|k: int| 0 <= k < columns.len() ==> reads(reach, (#[trigger] columns[k]).1) {
            assert forall|k: int| 0 <= k < front.len() implies reads(
                reach,
                (#[trigger] front[k]).1,
            ) by {
                assert(front[k] == columns[k]);
            }
            assert(reads(reach, columns[columns.len() - 1].1));
        }
    }
}

pub proof fn lemma_read_whole(reach: Reach, arguments: Seq<TransformationArgument>)
    requires
        forall|i: int| 0 <= i < arguments.len() ==> reads(reach, #[trigger] arguments[i]),
    ensures
        read_columns(reach, arguments) == arguments,
    decreases arguments.len(),
{
    if arguments.len() > 0 {
        let front = arguments.drop_last();
        assert forall|i: int| 0 <= i < front.len() implies reads(reach, #[trigger] front[i]) by {
            assert(front[i] == arguments[i]);
        }
        lemma_read_whole(reach, front);
        assert(reads(reach, arguments[arguments.len() - 1]));
        assert(front.push(arguments.last()) =~= arguments);
    }
}

proof fn lemma_project_joined(
    inputs: InputsModel,
    a: Seq<TransformationArgument>,
    b: Seq<TransformationArgument>,
)
    requires
        project(inputs, a) is Some,
        project(inputs, b) is Some,
    ensures
        project(inputs, a + b) == Some(project(inputs, a)->0 + project(inputs, b)->0),
    decreases b.len(),
{
    if b.len() == 0 {
        assert(a + b =~= a);
        assert(project(inputs, a)->0 + project(inputs, b)->0 =~= project(inputs, a)->0);
    } else {
        lemma_project_joined(inputs, a, b.drop_last());
        assert((a + b).drop_last() =~= a + b.drop_last());
        assert((a + b).last() == b.last());
        let front = project(inputs, b.drop_last())->0;
        assert(project(inputs, a)->0 + project(inputs, b)->0 =~= (project(inputs, a)->0
            + front).push(value_at(inputs, b.last())->0));
    }
}

/// A join of collections whose rows hold the values of some arguments, with the
/// same key, puts out the values of the arguments that it is made for, where its
/// comparisons hold on these values, and nothing where one does not. An antijoin
/// puts them out for a row that it keeps.
pub proof fn law_join_step_moves_values(
    reach: Reach,
    assignment: Assignment,
    keys: Seq<AtomArgumentSignature>,
    left_values: Seq<AtomArgumentSignature>,
    right_values: Seq<AtomArgumentSignature>,
    output_keys: Seq<AtomArgumentSignature>,
    output_values: Seq<AtomArgumentSignature>,
    comparisons: Seq<PlacedComparisonModel<AtomArgumentSignature>>,
)
    requires
        keys.len() <= usize::MAX,
        left_values.len() <= usize::MAX,
        right_values.len() <= usize::MAX,
        is_enough(reach, keys, left_values, right_values),
        jn_flow(
            keys,
            left_values,
            right_values,
            output_keys,
            output_values,
            comparisons,
        ) is Some,
    ensures
        ({
            let flow = jn_flow(
                keys,
                left_values,
                right_values,
                output_keys,
                output_values,
                comparisons,
            )->0;
            let inputs = rows_at_hand(reach, assignment, keys, left_values, right_values);
            let out = values_of(assignment, output_keys) + values_of(assignment, output_values);
            &&& join_result(flow, reach, inputs) == match assigned_comparisons(
                assignment,
                comparisons,
            ) {
                Some(true) => Some(Some(out)),
                Some(false) => Some(None),
                None => None,
            }
            &&& flat_result(flow, reach, inputs) == Some(out)
        }),
{
    let columns = jn_columns(keys, left_values, right_values);
    let inputs = rows_at_hand(reach, assignment, keys, left_values, right_values);
    assert(agree(inputs, columns, assignment)) by {
        let n = keys.len();
        let m = left_values.len();
        assert forall|k: int| 0 <= k < columns.len() implies value_at(
            inputs,
            (#[trigger] columns[k]).1,
        ) == Some(assignment(columns[k].0)) by {
            if k < n {
                assert(columns[k] == (
                    keys[k],
                    TransformationArgument::Jn((false, false, k as usize)),
                ));
            } else if k < n + m {
                let i = k - n;
                assert(columns[k] == (
                    left_values[i],
                    TransformationArgument::Jn((false, true, i as usize)),
                ));
            } else {
                let i = k - n - m;
                assert(columns[k] == (
                    right_values[i],
                    TransformationArgument::Jn((true, true, i as usize)),
                ));
            }
        }
    }
    let key = flow_over(columns, output_keys)->0;
    let value = flow_over(columns, output_values)->0;
    lemma_over(inputs, columns, assignment, output_keys);
    lemma_over(inputs, columns, assignment, output_values);
    lemma_comparisons(inputs, columns, assignment, comparisons);
    lemma_all_read(reach, keys, left_values, right_values, output_keys);
    lemma_all_read(reach, keys, left_values, right_values, output_values);
    assert forall|i: int| 0 <= i < (key + value).len() implies reads(
        reach,
        #[trigger] (key + value)[i],
    ) by {
        if i < key.len() {
            assert((key + value)[i] == key[i]);
        } else {
            assert((key + value)[i] == value[i - key.len()]);
        }
    }
    lemma_read_whole(reach, key + value);
    lemma_project_joined(inputs, key, value);
}

} // verus!
