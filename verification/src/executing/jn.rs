//! What joins and antijoins put out for rows that meet.
use vstd::prelude::*;
use crate::executing::compare::{
    all_hold, flip_inputs, joined_rows, lemma_flip_all, lemma_flip_project, project, Inputs,
    InputsModel,
};
use crate::lists::{empty, group_take, push};
use crate::planning::arguments::{flipped, TransformationArgument};
use crate::planning::flow::{flip_flow, TransformationFlow, TransformationFlowModel};
use crate::reading::row::Array;

verus! {

/// Which columns of a join a kind of join reads.
#[derive(Debug, Clone, Copy, PartialEq, Eq, Structural)]
pub enum Reach {
    /// columns of the key and of both values
    All,
    /// columns of the values
    Values,
    /// columns of the key and of the left value
    LeftAndKey,
    /// columns of the key, taken from the left
    Key,
}

/// Whether a kind of join reads a column.
pub open spec fn reads(reach: Reach, argument: TransformationArgument) -> bool {
    match argument {
        TransformationArgument::KV(_) => false,
        TransformationArgument::Jn((right, value, _)) => match reach {
            Reach::All => true,
            Reach::Values => value,
            Reach::LeftAndKey => true,
            Reach::Key => !right && !value,
        },
    }
}

/// The columns that a kind of join reads, out of some columns.
pub open spec fn read_columns(reach: Reach, arguments: Seq<TransformationArgument>) -> Seq<
    TransformationArgument,
>
    decreases arguments.len(),
{
    if arguments.len() == 0 {
        Seq::empty()
    } else {
        let front = read_columns(reach, arguments.drop_last());
        if reads(reach, arguments.last()) {
            front.push(arguments.last())
        } else {
            front
        }
    }
}

/// What a join puts out for rows that meet: nothing where a comparison does not
/// hold. No result at all where a comparison has no value or a column is missing.
pub open spec fn join_result(
    flow: TransformationFlowModel,
    reach: Reach,
    inputs: InputsModel,
) -> Option<Option<Seq<i64>>> {
    match all_hold(inputs, flow.compares()) {
        Some(true) => match project(inputs, read_columns(reach, flow.key() + flow.value())) {
            Some(values) => Some(Some(values)),
            None => None,
        },
        Some(false) => Some(None),
        None => None,
    }
}

/// What an antijoin puts out for a row that stays.
pub open spec fn flat_result(
    flow: TransformationFlowModel,
    reach: Reach,
    inputs: InputsModel,
) -> Option<Seq<i64>> {
    project(inputs, read_columns(reach, flow.key() + flow.value()))
}

proof fn lemma_read_columns(reach: Reach, arguments: Seq<TransformationArgument>)
    ensures
        read_columns(reach, arguments).len() <= arguments.len(),
    decreases arguments.len(),
{
    if arguments.len() > 0 {
        lemma_read_columns(reach, arguments.drop_last());
    }
}

/// The columns of a flow that a kind of join reads.
pub fn jn_deconstructor(flow: &TransformationFlow, reach: Reach) -> (columns: Vec<
    TransformationArgument,
>)
    ensures
        columns.deep_view() == read_columns(
            reach,
            flow.deep_view().key() + flow.deep_view().value(),
        ),
        columns@.len() <= flow.deep_view().key().len() + flow.deep_view().value().len(),
{
    broadcast use group_take;

    let mut all = crate::lists::clone_list(flow.key());
    crate::lists::extend(&mut all, crate::lists::clone_list(flow.value()));
    let ghost model = all.deep_view();
    let mut columns: Vec<TransformationArgument> = empty();
    let mut i: usize = 0;
    while i < all.len()
        invariant
            i <= all.len(),
            model == all.deep_view(),
            columns.deep_view() == read_columns(reach, model.take(i as int)),
        decreases all.len() - i,
    {
        assert(model.take(i + 1).drop_last() == model.take(i as int));
        assert(model[i as int] == all@[i as int]);
        let argument = all[i];
        let is_read = match argument {
            TransformationArgument::KV(_) => false,
            TransformationArgument::Jn((right, value, _)) => match reach {
                Reach::All => true,
                Reach::Values => value,
                Reach::LeftAndKey => true,
                Reach::Key => !right && !value,
            },
        };
        if is_read {
            push(&mut columns, argument);
        }
        i += 1;
    }
    proof {
        lemma_read_columns(reach, model);
        assert(columns@.len() == columns.deep_view().len());
    }
    columns
}

fn run_join<A: Array>(flow: &TransformationFlow, reach: Reach, inputs: &Inputs<A>) -> (out: Option<
    Option<A>,
>)
    requires
        flow.deep_view().key().len() + flow.deep_view().value().len() <= A::limit(),
    ensures
        join_result(flow.deep_view(), reach, inputs.model()) == match out {
            Some(Some(row)) => Some(Some(row.columns())),
            Some(None) => Some(None),
            None => None,
        },
{
    match inputs.all(flow.compares()) {
        Some(true) => {
            let columns = jn_deconstructor(flow, reach);
            match inputs.project(&columns) {
                Some(row) => Some(Some(row)),
                None => None,
            }
        },
        Some(false) => Some(None),
        None => None,
    }
}

fn run_flat<A: Array>(flow: &TransformationFlow, reach: Reach, inputs: &Inputs<A>) -> (out: Option<A>)
    requires
        flow.deep_view().key().len() + flow.deep_view().value().len() <= A::limit(),
    ensures
        match out {
            Some(row) => flat_result(flow.deep_view(), reach, inputs.model()) == Some(
                row.columns(),
            ),
            None => flat_result(flow.deep_view(), reach, inputs.model()) is None,
        },
{
    let columns = jn_deconstructor(flow, reach);
    inputs.project(&columns)
}

/// The row of a join of keys and values on both sides; none where a comparison
/// does not hold. No result at all where a value is missing.
pub fn jn_logic<A: Array>(flow: &TransformationFlow, k: &A, v1: &A, v2: &A) -> (out: Option<
    Option<A>,
>)
    requires
        flow.deep_view() is JnToKV,
        flow.deep_view().key().len() + flow.deep_view().value().len() <= A::limit(),
    ensures
        join_result(
            flow.deep_view(),
            Reach::All,
            joined_rows(Some(k.columns()), Some(v1.columns()), Some(v2.columns())),
        ) == match out {
            Some(Some(row)) => Some(Some(row.columns())),
            Some(None) => Some(None),
            None => None,
        },
{
    run_join(flow, Reach::All, &Inputs::of_join(Some(k), Some(v1), Some(v2)))
}

/// The row of a pair of rows.
pub fn cartesian_logic<A: Array>(flow: &TransformationFlow, v1: &A, v2: &A) -> (out: Option<
    Option<A>,
>)
    requires
        flow.deep_view() is JnToKV,
        flow.deep_view().key().len() + flow.deep_view().value().len() <= A::limit(),
    ensures
        join_result(
            flow.deep_view(),
            Reach::Values,
            joined_rows(None, Some(v1.columns()), Some(v2.columns())),
        ) == match out {
            Some(Some(row)) => Some(Some(row.columns())),
            Some(None) => Some(None),
            None => None,
        },
{
    run_join(flow, Reach::Values, &Inputs::of_join(None, Some(v1), Some(v2)))
}

/// The row of a join of keys and values with keys.
pub fn v1_jn_logic<A: Array>(flow: &TransformationFlow, k: &A, v1: &A) -> (out: Option<Option<A>>)
    requires
        flow.deep_view() is JnToKV,
        flow.deep_view().key().len() + flow.deep_view().value().len() <= A::limit(),
    ensures
        join_result(
            flow.deep_view(),
            Reach::LeftAndKey,
            joined_rows(Some(k.columns()), Some(v1.columns()), None),
        ) == match out {
            Some(Some(row)) => Some(Some(row.columns())),
            Some(None) => Some(None),
            None => None,
        },
{
    run_join(flow, Reach::LeftAndKey, &Inputs::of_join(Some(k), Some(v1), None))
}

/// The row of a join of keys with keys.
pub fn v2_jn_logic<A: Array>(flow: &TransformationFlow, k: &A) -> (out: Option<Option<A>>)
    requires
        flow.deep_view() is JnToKV,
        flow.deep_view().key().len() + flow.deep_view().value().len() <= A::limit(),
    ensures
        join_result(
            flow.deep_view(),
            Reach::Key,
            joined_rows(Some(k.columns()), None, None),
        ) == match out {
            Some(Some(row)) => Some(Some(row.columns())),
            Some(None) => Some(None),
            None => None,
        },
{
    run_join(flow, Reach::Key, &Inputs::of_join(Some(k), None, None))
}

/// The row of a key and value that an antijoin keeps.
pub fn aj_flatten<A: Array>(flow: &TransformationFlow, k: &A, v: &A) -> (out: Option<A>)
    requires
        flow.deep_view() is JnToKV,
        flow.deep_view().key().len() + flow.deep_view().value().len() <= A::limit(),
    ensures
        match out {
            Some(row) => flat_result(
                flow.deep_view(),
                Reach::LeftAndKey,
                joined_rows(Some(k.columns()), Some(v.columns()), None),
            ) == Some(row.columns()),
            None => flat_result(
                flow.deep_view(),
                Reach::LeftAndKey,
                joined_rows(Some(k.columns()), Some(v.columns()), None),
            ) is None,
        },
{
    run_flat(flow, Reach::LeftAndKey, &Inputs::of_join(Some(k), Some(v), None))
}

/// The row of a key that an antijoin keeps.
pub fn v1_aj_flatten<A: Array>(flow: &TransformationFlow, k: &A) -> (out: Option<A>)
    requires
        flow.deep_view() is JnToKV,
        flow.deep_view().key().len() + flow.deep_view().value().len() <= A::limit(),
    ensures
        match out {
            Some(row) => flat_result(
                flow.deep_view(),
                Reach::Key,
                joined_rows(Some(k.columns()), None, None),
            ) == Some(row.columns()),
            None => flat_result(
                flow.deep_view(),
                Reach::Key,
                joined_rows(Some(k.columns()), None, None),
            ) is None,
        },
{
    run_flat(flow, Reach::Key, &Inputs::of_join(Some(k), None, None))
}

proof fn lemma_read_flipped(reach: Reach, arguments: Seq<TransformationArgument>)
    requires
        reach is All || reach is Values || reach is LeftAndKey,
    ensures
        read_columns(reach, arguments.map_values(|a: TransformationArgument| flipped(a)))
            == read_columns(reach, arguments).map_values(|a: TransformationArgument| flipped(a)),
    decreases arguments.len(),
{
    let f = |a: TransformationArgument| flipped(a);
    if arguments.len() > 0 {
        lemma_read_flipped(reach, arguments.drop_last());
        assert(arguments.map_values(f).drop_last() =~= arguments.drop_last().map_values(f));
        assert(read_columns(reach, arguments.map_values(f)) =~= read_columns(
            reach,
            arguments,
        ).map_values(f));
    } else {
        assert(arguments.map_values(f) =~= arguments);
        assert(read_columns(reach, arguments).map_values(f) =~= read_columns(reach, arguments));
    }
}

/// A join with left and right exchanged, of the flow and of the rows, puts out the
/// same.
pub proof fn law_flip_join(flow: TransformationFlowModel, reach: Reach, inputs: InputsModel)
    requires
        reach is All || reach is Values || reach is LeftAndKey,
    ensures
        join_result(flip_flow(flow), reach, flip_inputs(inputs)) == join_result(
            flow,
            reach,
            inputs,
        ),
{
    let f = |a: TransformationArgument| flipped(a);
    let columns = flow.key() + flow.value();
    lemma_flip_all(inputs, flow.compares());
    lemma_read_flipped(reach, columns);
    lemma_flip_project(inputs, read_columns(reach, columns));
    assert(flip_flow(flow).key() + flip_flow(flow).value() =~= columns.map_values(f));
}

} // verus!
