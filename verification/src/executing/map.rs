//! What steps on one collection put out for a row.
use vstd::prelude::*;
use crate::executing::compare::{all_hold, one_row, project, value_at, Inputs, InputsModel};
use crate::lists::group_take;
use crate::parsing::rule::{Const, ConstModel};
use crate::planning::arguments::TransformationArgument;
use crate::planning::flow::{TransformationFlow, TransformationFlowModel};
use crate::reading::row::Array;

verus! {

/// Whether columns equal constants, one after the other up to the first that does
/// not; no answer where a column is missing or a constant is no number.
pub open spec fn consts_hold(
    inputs: InputsModel,
    pairs: Seq<(TransformationArgument, ConstModel)>,
) -> Option<bool>
    decreases pairs.len(),
{
    if pairs.len() == 0 {
        Some(true)
    } else {
        match consts_hold(inputs, pairs.drop_last()) {
            Some(true) => match (value_at(inputs, pairs.last().0), pairs.last().1) {
                (Some(value), ConstModel::Integer(number)) => Some(value == number),
                _ => None,
            },
            other => other,
        }
    }
}

/// Whether columns equal each other, one pair after the other up to the first that
/// does not; no answer where a column is missing.
pub open spec fn aliases_hold(
    inputs: InputsModel,
    pairs: Seq<(TransformationArgument, TransformationArgument)>,
) -> Option<bool>
    decreases pairs.len(),
{
    if pairs.len() == 0 {
        Some(true)
    } else {
        match aliases_hold(inputs, pairs.drop_last()) {
            Some(true) => match (
                value_at(inputs, pairs.last().0),
                value_at(inputs, pairs.last().1),
            ) {
                (Some(left), Some(right)) => Some(left == right),
                _ => None,
            },
            other => other,
        }
    }
}

/// Whether a row meets the constraints and comparisons of a flow.
pub open spec fn is_kept(flow: TransformationFlowModel, inputs: InputsModel) -> Option<bool> {
    let constraints = flow->constraints;
    match consts_hold(inputs, constraints.constant_eq_constraints) {
        Some(true) => match aliases_hold(inputs, constraints.variable_eq_constraints) {
            Some(true) => all_hold(inputs, flow.compares()),
            other => other,
        },
        other => other,
    }
}

/// What a step on one collection puts out for a row, the key before the value:
/// nothing where the row is not kept. No result at all where a column is missing
/// or a comparison has no value.
pub open spec fn kv_result(flow: TransformationFlowModel, row: Seq<i64>) -> Option<
    Option<(Seq<i64>, Seq<i64>)>,
> {
    let inputs = one_row(row);
    match is_kept(flow, inputs) {
        Some(true) => match (project(inputs, flow.key()), project(inputs, flow.value())) {
            (Some(key), Some(value)) => Some(Some((key, value))),
            _ => None,
        },
        Some(false) => Some(None),
        None => None,
    }
}

fn try_consts<A: Array>(
    inputs: &Inputs<A>,
    pairs: &Vec<(TransformationArgument, Const)>,
) -> (answer: Option<bool>)
    ensures
        answer == consts_hold(inputs.model(), pairs.deep_view()),
{
    broadcast use group_take;

    let ghost model = pairs.deep_view();
    let mut answer: Option<bool> = Some(true);
    let mut i: usize = 0;
    while i < pairs.len()
        invariant
            i <= pairs.len(),
            model == pairs.deep_view(),
            answer == consts_hold(inputs.model(), model.take(i as int)),
        decreases pairs.len() - i,
    {
        assert(model.take(i + 1).drop_last() == model.take(i as int));
        assert(model[i as int] == pairs@[i as int].deep_view());
        match answer {
            Some(true) => {
                answer =
                match (inputs.value(&pairs[i].0), &pairs[i].1) {
                    (Some(value), Const::Integer(number)) => Some(value == *number as i64),
                    _ => None,
                };
            },
            _ => {},
        }
        i += 1;
    }
    answer
}

fn try_aliases<A: Array>(
    inputs: &Inputs<A>,
    pairs: &Vec<(TransformationArgument, TransformationArgument)>,
) -> (answer: Option<bool>)
    ensures
        answer == aliases_hold(inputs.model(), pairs.deep_view()),
{
    broadcast use group_take;

    let ghost model = pairs.deep_view();
    let mut answer: Option<bool> = Some(true);
    let mut i: usize = 0;
    while i < pairs.len()
        invariant
            i <= pairs.len(),
            model == pairs.deep_view(),
            answer == aliases_hold(inputs.model(), model.take(i as int)),
        decreases pairs.len() - i,
    {
        assert(model.take(i + 1).drop_last() == model.take(i as int));
        assert(model[i as int] == pairs@[i as int].deep_view());
        match answer {
            Some(true) => {
                answer =
                match (inputs.value(&pairs[i].0), inputs.value(&pairs[i].1)) {
                    (Some(left), Some(right)) => Some(left == right),
                    _ => None,
                };
            },
            _ => {},
        }
        i += 1;
    }
    answer
}

/// What a step puts out as key and value for a row.
pub fn row_kv<A: Array>(flow: &TransformationFlow, row: &A) -> (out: Option<Option<(A, A)>>)
    requires
        flow.deep_view() is KVToKV,
        flow.deep_view().key().len() + flow.deep_view().value().len() <= A::limit(),
    ensures
        kv_result(flow.deep_view(), row.columns()) == match out {
            Some(Some((key, value))) => Some(Some((key.columns(), value.columns()))),
            Some(None) => Some(None),
            None => None,
        },
{
    let inputs = Inputs::of_row(row);
    let constraints = flow.constraints();
    let mut kept = try_consts(&inputs, constraints.constant_eq_constraints());
    if let Some(true) = kept {
        kept = try_aliases(&inputs, constraints.variable_eq_constraints());
        if let Some(true) = kept {
            kept = inputs.all(flow.compares());
        }
    }
    proof {
        assert(flow.deep_view().key().len() <= A::limit());
        assert(flow.deep_view().value().len() <= A::limit());
    }
    match kept {
        Some(true) => {
            let keys = flow.key();
            let values = flow.value();
            assert(keys@.len() == keys.deep_view().len());
            assert(values@.len() == values.deep_view().len());
            match (inputs.project(keys), inputs.project(values)) {
                (Some(key), Some(value)) => Some(Some((key, value))),
                _ => None,
            }
        },
        Some(false) => Some(None),
        None => None,
    }
}

/// What a step puts out as a row for a row.
pub fn row_row<A: Array>(flow: &TransformationFlow, row: &A) -> (out: Option<Option<A>>)
    requires
        flow.deep_view() is KVToKV,
        flow.deep_view().key().len() + flow.deep_view().value().len() <= A::limit(),
    ensures
        match kv_result(flow.deep_view(), row.columns()) {
            Some(Some((key, value))) => out matches Some(Some(made)) && made.columns() == key
                + value,
            Some(None) => out == Some(None::<A>),
            None => out is None,
        },
{
    match row_kv(flow, row) {
        Some(Some((key, value))) => {
            let mut made = key;
            let upto: usize = value.arity();
            proof {
                lemma_project(one_row(row.columns()), flow.deep_view().key());
                lemma_project(one_row(row.columns()), flow.deep_view().value());
            }
            crate::reading::row::append_columns(&mut made, &value, 0, upto);
            assert(value.columns().subrange(0, upto as int) =~= value.columns());
            Some(Some(made))
        },
        Some(None) => Some(None),
        None => None,
    }
}

pub proof fn lemma_project(inputs: InputsModel, arguments: Seq<TransformationArgument>)
    ensures
        project(inputs, arguments) matches Some(values) ==> values.len() == arguments.len(),
    decreases arguments.len(),
{
    if arguments.len() > 0 {
        lemma_project(inputs, arguments.drop_last());
    }
}

} // verus!
