//! What the operators of a dataflow put out for rows that meet.
use vstd::prelude::*;
use crate::catalog::arithmetic::{rest_places, PlacedArithmeticModel, PlacedFactorModel};
use crate::catalog::atoms::AtomArgumentSignature;
use crate::catalog::compare::PlacedComparisonModel;
use crate::executing::columns::{lemma_all_read, lemma_read_whole};
use crate::executing::compare::{
    all_hold, arithmetic_value, factor_values, joined_rows, project, value_at, InputsModel,
};
use crate::executing::dataflow::{operator_for, Operator};
use crate::executing::jn::{flat_result, join_result, law_flip_join, reads, Reach};
use crate::lists::{group_take, lookup};
use crate::planning::arguments::TransformationArgument;
use crate::planning::arithmetic::{lemma_rest_places_grow, move_arithmetic, move_factor};
use crate::planning::collections::CollectionModel;
use crate::planning::flow::{
    flip_flow, flow_comparisons, flow_over, jn_columns, jn_flow, TransformationFlowModel,
};
use crate::planning::transformations::{aj_step, jn_step};

verus! {

/// What an operator puts out for a key, the value of its larger input, and that of
/// its smaller one; an antijoin for a row that it keeps.
pub open spec fn operator_result(
    operator: Operator,
    flow: TransformationFlowModel,
    key: Seq<i64>,
    large: Seq<i64>,
    small: Seq<i64>,
) -> Option<Option<Seq<i64>>> {
    let kept = match operator {
        Operator::KvAjK => flat_result(
            flow,
            Reach::LeftAndKey,
            joined_rows(Some(key), Some(large), None),
        ),
        _ => flat_result(flow, Reach::Key, joined_rows(Some(key), None, None)),
    };
    match operator {
        Operator::KvJnKv => join_result(
            flow,
            Reach::All,
            joined_rows(Some(key), Some(large), Some(small)),
        ),
        Operator::KvJnK => join_result(
            flow,
            Reach::LeftAndKey,
            joined_rows(Some(key), Some(large), None),
        ),
        Operator::KJnK => join_result(flow, Reach::Key, joined_rows(Some(key), None, None)),
        Operator::Cartesian => join_result(
            flow,
            Reach::Values,
            joined_rows(None, Some(large), Some(small)),
        ),
        Operator::KvAjK | Operator::KAjK => match kept {
            Some(row) => Some(Some(row)),
            None => None,
        },
    }
}

/// Whether columns have the same values in two inputs.
spec fn same_at(
    a: InputsModel,
    b: InputsModel,
    columns: Seq<(AtomArgumentSignature, TransformationArgument)>,
) -> bool {
    forall|k: int|
        0 <= k < columns.len() ==> value_at(a, (#[trigger] columns[k]).1) == value_at(
            b,
            columns[k].1,
        )
}

proof fn lemma_same_found(
    a: InputsModel,
    b: InputsModel,
    columns: Seq<(AtomArgumentSignature, TransformationArgument)>,
    argument: AtomArgumentSignature,
)
    requires
        same_at(a, b, columns),
    ensures
        lookup(columns, argument) matches Some(column) ==> value_at(a, column) == value_at(
            b,
            column,
        ),
    decreases columns.len(),
{
    if columns.len() > 0 {
        let front = columns.drop_last();
        assert(columns[columns.len() - 1] == columns.last());
        assert forall|k: int| 0 <= k < front.len() implies value_at(a, (#[trigger] front[k]).1)
            == value_at(b, front[k].1) by {
            assert(front[k] == columns[k]);
        }
        lemma_same_found(a, b, front, argument);
    }
}

proof fn lemma_same_over(
    a: InputsModel,
    b: InputsModel,
    columns: Seq<(AtomArgumentSignature, TransformationArgument)>,
    arguments: Seq<AtomArgumentSignature>,
)
    requires
        same_at(a, b, columns),
        flow_over(columns, arguments) is Some,
    ensures
        flow_over(columns, arguments)->0.len() == arguments.len(),
        forall|i: int|
            0 <= i < arguments.len() ==> value_at(
                a,
                #[trigger] flow_over(columns, arguments)->0[i],
            ) == value_at(b, flow_over(columns, arguments)->0[i]),
    decreases arguments.len(),
{
    if arguments.len() > 0 {
        let found = flow_over(columns, arguments)->0;
        let front = flow_over(columns, arguments.drop_last())->0;
        lemma_same_over(a, b, columns, arguments.drop_last());
        lemma_same_found(a, b, columns, arguments.last());
        assert forall|i: int| 0 <= i < arguments.len() implies value_at(a, #[trigger] found[i])
            == value_at(b, found[i]) by {
            if i < arguments.len() - 1 {
                assert(found[i] == front[i]);
            }
        }
    }
}

proof fn lemma_same_project(
    a: InputsModel,
    b: InputsModel,
    arguments: Seq<TransformationArgument>,
)
    requires
        forall|i: int|
            0 <= i < arguments.len() ==> value_at(a, #[trigger] arguments[i]) == value_at(
                b,
                arguments[i],
            ),
    ensures
        project(a, arguments) == project(b, arguments),
    decreases arguments.len(),
{
    if arguments.len() > 0 {
        let front = arguments.drop_last();
        assert forall|i: int| 0 <= i < front.len() implies value_at(a, #[trigger] front[i])
            == value_at(b, front[i]) by {
            assert(front[i] == arguments[i]);
        }
        lemma_same_project(a, b, front);
        assert(value_at(a, arguments[arguments.len() - 1]) == value_at(
            b,
            arguments[arguments.len() - 1],
        ));
    }
}

proof fn lemma_same_rest(
    a: InputsModel,
    b: InputsModel,
    arithmetic: PlacedArithmeticModel<AtomArgumentSignature>,
    places: Seq<TransformationArgument>,
    n: int,
)
    requires
        places.len() == arithmetic.places().len(),
        forall|i: int|
            0 <= i < places.len() ==> value_at(a, #[trigger] places[i]) == value_at(b, places[i]),
        0 <= n <= arithmetic.rest.len(),
    ensures
        factor_values(a, move_arithmetic(arithmetic, places).rest.take(n)) == factor_values(
            b,
            move_arithmetic(arithmetic, places).rest.take(n),
        ),
    decreases n,
{
    broadcast use group_take;

    let moved = move_arithmetic(arithmetic, places).rest;
    if n > 0 {
        lemma_same_rest(a, b, arithmetic, places, n - 1);
        assert(moved.take(n).drop_last() =~= moved.take(n - 1));
        let factor = arithmetic.rest[n - 1].1;
        let at = (arithmetic.init.places().len() + rest_places(
            arithmetic.rest.take(n - 1),
        ).len()) as int;
        assert(moved[n - 1].1 == move_factor(factor, places[at]));
        if let PlacedFactorModel::Var(argument) = factor {
            assert(arithmetic.rest.take(n).drop_last() =~= arithmetic.rest.take(n - 1));
            lemma_rest_places_grow(arithmetic.rest, n);
            assert(rest_places(arithmetic.rest.take(n)).len() == rest_places(
                arithmetic.rest.take(n - 1),
            ).len() + 1);
            assert(0 <= at < places.len());
        }
    } else {
        assert(moved.take(0).len() == 0);
    }
}

proof fn lemma_same_arithmetic(
    a: InputsModel,
    b: InputsModel,
    arithmetic: PlacedArithmeticModel<AtomArgumentSignature>,
    places: Seq<TransformationArgument>,
)
    requires
        places.len() == arithmetic.places().len(),
        forall|i: int|
            0 <= i < places.len() ==> value_at(a, #[trigger] places[i]) == value_at(b, places[i]),
    ensures
        arithmetic_value(a, move_arithmetic(arithmetic, places)) == arithmetic_value(
            b,
            move_arithmetic(arithmetic, places),
        ),
{
    let n = arithmetic.rest.len() as int;
    let moved = move_arithmetic(arithmetic, places);
    lemma_same_rest(a, b, arithmetic, places, n);
    assert(moved.rest.take(n) =~= moved.rest);
    if let PlacedFactorModel::Var(argument) = arithmetic.init {
        assert(arithmetic.places()[0] == argument);
        assert(value_at(a, places[0]) == value_at(b, places[0]));
    }
}

proof fn lemma_same_comparisons(
    a: InputsModel,
    b: InputsModel,
    columns: Seq<(AtomArgumentSignature, TransformationArgument)>,
    comparisons: Seq<PlacedComparisonModel<AtomArgumentSignature>>,
)
    requires
        same_at(a, b, columns),
        flow_comparisons(columns, comparisons) is Some,
    ensures
        all_hold(a, flow_comparisons(columns, comparisons)->0) == all_hold(
            b,
            flow_comparisons(columns, comparisons)->0,
        ),
    decreases comparisons.len(),
{
    if comparisons.len() > 0 {
        lemma_same_comparisons(a, b, columns, comparisons.drop_last());
        let last = comparisons.last();
        lemma_same_over(a, b, columns, last.left.places());
        lemma_same_over(a, b, columns, last.right.places());
        lemma_same_arithmetic(a, b, last.left, flow_over(columns, last.left.places())->0);
        lemma_same_arithmetic(a, b, last.right, flow_over(columns, last.right.places())->0);
        let front = flow_comparisons(columns, comparisons.drop_last())->0;
        assert(flow_comparisons(columns, comparisons)->0.drop_last() =~= front);
    }
}

/// What is put out goes by the values of the columns that are there.
proof fn lemma_same_results(
    reach: Reach,
    inputs: InputsModel,
    keys: Seq<AtomArgumentSignature>,
    left_values: Seq<AtomArgumentSignature>,
    right_values: Seq<AtomArgumentSignature>,
    output_keys: Seq<AtomArgumentSignature>,
    output_values: Seq<AtomArgumentSignature>,
    comparisons: Seq<PlacedComparisonModel<AtomArgumentSignature>>,
    key: Seq<i64>,
    left: Seq<i64>,
    right: Seq<i64>,
)
    requires
        jn_flow(
            keys,
            left_values,
            right_values,
            output_keys,
            output_values,
            comparisons,
        ) is Some,
        same_at(
            inputs,
            joined_rows(Some(key), Some(left), Some(right)),
            jn_columns(keys, left_values, right_values),
        ),
        reach is Values ==> keys.len() == 0,
        reach is Key ==> left_values.len() == 0 && right_values.len() == 0,
    ensures
        ({
            let flow = jn_flow(
                keys,
                left_values,
                right_values,
                output_keys,
                output_values,
                comparisons,
            )->0;
            let all = joined_rows(Some(key), Some(left), Some(right));
            &&& join_result(flow, reach, inputs) == join_result(flow, Reach::All, all)
            &&& flat_result(flow, reach, inputs) == flat_result(flow, Reach::All, all)
        }),
{
    let columns = jn_columns(keys, left_values, right_values);
    let all = joined_rows(Some(key), Some(left), Some(right));
    let k = flow_over(columns, output_keys)->0;
    let v = flow_over(columns, output_values)->0;
    lemma_same_over(inputs, all, columns, output_keys);
    lemma_same_over(inputs, all, columns, output_values);
    lemma_same_comparisons(inputs, all, columns, comparisons);
    lemma_all_read(Reach::All, keys, left_values, right_values, output_keys);
    lemma_all_read(Reach::All, keys, left_values, right_values, output_values);
    if !(reach is LeftAndKey) {
        lemma_all_read(reach, keys, left_values, right_values, output_keys);
        lemma_all_read(reach, keys, left_values, right_values, output_values);
    }
    let both = k + v;
    assert forall|i: int| 0 <= i < both.len() implies reads(reach, #[trigger] both[i]) && reads(
        Reach::All,
        both[i],
    ) && value_at(inputs, both[i]) == value_at(all, both[i]) by {
        if i < k.len() {
            assert(both[i] == k[i]);
        } else {
            assert(both[i] == v[i - k.len()]);
        }
    }
    lemma_read_whole(reach, both);
    lemma_read_whole(Reach::All, both);
    lemma_same_project(inputs, all, both);
}

/// The columns of a join without some that are not there.
proof fn lemma_columns_there(
    keys: Seq<AtomArgumentSignature>,
    left_values: Seq<AtomArgumentSignature>,
    right_values: Seq<AtomArgumentSignature>,
    inputs: InputsModel,
    key: Seq<i64>,
    left: Seq<i64>,
    right: Seq<i64>,
)
    requires
        inputs.key == Some(key) || keys.len() == 0,
        inputs.left == Some(left) || left_values.len() == 0,
        inputs.right == Some(right) || right_values.len() == 0,
    ensures
        same_at(
            inputs,
            joined_rows(Some(key), Some(left), Some(right)),
            jn_columns(keys, left_values, right_values),
        ),
{
    let columns = jn_columns(keys, left_values, right_values);
    let all = joined_rows(Some(key), Some(left), Some(right));
    assert forall|k: int| 0 <= k < columns.len() implies value_at(inputs, (#[trigger] columns[k]).1)
        == value_at(all, columns[k].1) by {
        let n = keys.len();
        let m = left_values.len();
        if k < n {
            assert(columns[k].1 == TransformationArgument::Jn((false, false, k as usize)));
        } else if k < n + m {
            assert(columns[k].1 == TransformationArgument::Jn((false, true, (k - n) as usize)));
        } else {
            assert(columns[k].1 == TransformationArgument::Jn((true, true, (k - n - m) as usize)));
        }
    }
}

/// The operator for a join puts out what the join does, also where its inputs
/// change places: the larger one comes first, and takes the columns of the flow
/// with it.
pub proof fn law_operators_join(
    left: CollectionModel,
    right: CollectionModel,
    output_keys: Seq<AtomArgumentSignature>,
    output_values: Seq<AtomArgumentSignature>,
    comparisons: Seq<PlacedComparisonModel<AtomArgumentSignature>>,
    key: Seq<i64>,
    left_value: Seq<i64>,
    right_value: Seq<i64>,
)
    requires
        jn_step(left, right, output_keys, output_values, comparisons) is Some,
    ensures
        ({
            let step = jn_step(left, right, output_keys, output_values, comparisons)->0;
            let result = join_result(
                step.flow,
                Reach::All,
                joined_rows(Some(key), Some(left_value), Some(right_value)),
            );
            if left.values.len() < right.values.len() {
                operator_result(
                    operator_for(step.kind),
                    flip_flow(step.flow),
                    key,
                    right_value,
                    left_value,
                ) == result
            } else {
                operator_result(
                    operator_for(step.kind),
                    step.flow,
                    key,
                    left_value,
                    right_value,
                ) == result
            }
        }),
{
    let step = jn_step(left, right, output_keys, output_values, comparisons)->0;
    let turned = left.values.len() < right.values.len();
    let operator = operator_for(step.kind);
    let reach = match operator {
        Operator::KvJnKv => Reach::All,
        Operator::KvJnK => Reach::LeftAndKey,
        Operator::KJnK => Reach::Key,
        _ => Reach::Values,
    };
    let inputs = match operator {
        Operator::KvJnKv => joined_rows(Some(key), Some(left_value), Some(right_value)),
        Operator::KvJnK => if turned {
            joined_rows(Some(key), None, Some(right_value))
        } else {
            joined_rows(Some(key), Some(left_value), None)
        },
        Operator::KJnK => joined_rows(Some(key), None, None),
        _ => joined_rows(None, Some(left_value), Some(right_value)),
    };
    lemma_columns_there(
        left.keys,
        left.values,
        right.values,
        inputs,
        key,
        left_value,
        right_value,
    );
    lemma_same_results(
        reach,
        inputs,
        left.keys,
        left.values,
        right.values,
        output_keys,
        output_values,
        comparisons,
        key,
        left_value,
        right_value,
    );
    if turned {
        law_flip_join(step.flow, reach, inputs);
    }
}

/// The operator for an antijoin puts out what the antijoin does for a row that it
/// keeps.
pub proof fn law_operators_antijoin(
    left: CollectionModel,
    right: CollectionModel,
    output_keys: Seq<AtomArgumentSignature>,
    output_values: Seq<AtomArgumentSignature>,
    key: Seq<i64>,
    left_value: Seq<i64>,
)
    requires
        aj_step(left, right, output_keys, output_values) is Some,
    ensures
        ({
            let step = aj_step(left, right, output_keys, output_values)->0;
            operator_result(
                operator_for(step.kind),
                step.flow,
                key,
                left_value,
                Seq::empty(),
            ) == match flat_result(
                step.flow,
                Reach::All,
                joined_rows(Some(key), Some(left_value), Some(Seq::empty())),
            ) {
                Some(row) => Some(Some(row)),
                None => None,
            }
        }),
{
    let step = aj_step(left, right, output_keys, output_values)->0;
    let is_key_only = left.values.len() == 0;
    let reach = if is_key_only {
        Reach::Key
    } else {
        Reach::LeftAndKey
    };
    let inputs = if is_key_only {
        joined_rows(Some(key), None, None)
    } else {
        joined_rows(Some(key), Some(left_value), None)
    };
    lemma_columns_there(
        left.keys,
        left.values,
        right.values,
        inputs,
        key,
        left_value,
        Seq::empty(),
    );
    lemma_same_results(
        reach,
        inputs,
        left.keys,
        left.values,
        right.values,
        output_keys,
        output_values,
        Seq::empty(),
        key,
        left_value,
        Seq::empty(),
    );
}

} // verus!
