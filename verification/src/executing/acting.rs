//! What the operations of a dataflow do to what is kept.
use vstd::prelude::*;
use crate::catalog::atoms::AtomArgumentSignature;
use crate::catalog::compare::PlacedComparisonModel;
use crate::executing::columns::{law_no_op_keeps_rows, lemma_read_whole};
use crate::executing::compare::{joined_rows, one_row, project, InputsModel};
use crate::executing::dataflow::{
    large_table, operator_for, small_table, step_action, table_for, ActionModel, Operator,
    ScopeModel, Table, TablesModel,
};
use crate::executing::jn::{flat_result, join_result, reads, Reach};
use crate::executing::map::kv_result;
use crate::executing::meaning::{is_derived, is_joined, is_kept_as, Database};
use crate::executing::operators::{law_operators_antijoin, law_operators_join, operator_result};
use crate::executing::running::{after_step, step_output, Holdings};
use crate::executing::shapes::is_made;
use crate::parsing::rule::ConstModel;
use crate::planning::arguments::TransformationArgument;
use crate::planning::collections::{CollectionModel, CollectionSignatureModel};
use crate::planning::flow::TransformationFlowModel;
use crate::planning::sharing::put_out;
use crate::planning::transformations::{
    is_join_step, is_row_step, jn_step, kv_step, TransformationModel,
};

verus! {

/// Which keys and values are kept under which signature: rows are values without a
/// key.
pub type Store = spec_fn(Table, CollectionSignatureModel, Seq<i64>, Seq<i64>) -> bool;

/// The rows of the variables of a loop.
pub type Variables = spec_fn(CollectionSignatureModel, Seq<i64>) -> bool;

/// What a key and a value are kept as: rows and keys hold both, one behind the other.
pub open spec fn is_filed(
    table: Table,
    made_key: Seq<i64>,
    made_value: Seq<i64>,
    key: Seq<i64>,
    value: Seq<i64>,
) -> bool {
    match table {
        Table::Row => key.len() == 0 && value == made_key + made_value,
        Table::Key => key == made_key + made_value && value.len() == 0,
        Table::KeyValue => key == made_key && value == made_value,
    }
}

/// What is made of a row, and what that is kept as.
pub open spec fn is_filed_from(
    flow: TransformationFlowModel,
    table: Table,
    row: Seq<i64>,
    key: Seq<i64>,
    value: Seq<i64>,
) -> bool {
    match kv_result(flow, row) {
        Some(Some((made_key, made_value))) => is_filed(table, made_key, made_value, key, value),
        _ => false,
    }
}

/// What a row is kept as: where there are keys with values, its first columns are the
/// key.
pub open spec fn is_cut(
    table: Table,
    key_arity: nat,
    row: Seq<i64>,
    key: Seq<i64>,
    value: Seq<i64>,
) -> bool {
    match table {
        Table::Row => key.len() == 0 && value == row,
        Table::Key => key == row && value.len() == 0,
        Table::KeyValue => row == key + value && key.len() == key_arity,
    }
}

/// Whether an operator puts out a row for what is kept: a join for a key that both
/// inputs have, an antijoin for one that only the larger has.
pub open spec fn puts_out_row(
    store: Store,
    operator: Operator,
    large: CollectionSignatureModel,
    small: CollectionSignatureModel,
    flow: TransformationFlowModel,
    row: Seq<i64>,
) -> bool {
    if operator is KvAjK || operator is KAjK {
        exists|key: Seq<i64>, value: Seq<i64>|
            store(large_table(operator), large, key, value) && !store(
                small_table(operator),
                small,
                key,
                Seq::empty(),
            ) && #[trigger] operator_result(operator, flow, key, value, Seq::empty()) == Some(
                Some(row),
            )
    } else {
        exists|key: Seq<i64>, value: Seq<i64>, other: Seq<i64>|
            store(large_table(operator), large, key, value) && store(
                small_table(operator),
                small,
                key,
                other,
            ) && #[trigger] operator_result(operator, flow, key, value, other) == Some(Some(row))
    }
}

/// Whether an operation puts out a key and a value for what is kept.
pub open spec fn puts_out(
    store: Store,
    variables: Variables,
    action: ActionModel,
    key: Seq<i64>,
    value: Seq<i64>,
) -> bool {
    match action {
        ActionModel::Share { input, output, table } => exists|row: Seq<i64>|
            store(Table::Row, input, Seq::empty(), row) && #[trigger] is_filed(
                table,
                Seq::empty(),
                row,
                key,
                value,
            ),
        ActionModel::Derive { input, from_variable, output, table, flow, .. } => exists|
            row: Seq<i64>,
        |
            (if from_variable {
                variables(input, row)
            } else {
                store(Table::Row, input, Seq::empty(), row)
            }) && #[trigger] is_filed_from(flow, table, row, key, value),
        ActionModel::Join { operator, large, small, flow, output, table, key_arity, .. } => exists|
            row: Seq<i64>,
        |
            #[trigger] puts_out_row(store, operator, large, small, flow, row) && is_cut(
                table,
                key_arity,
                row,
                key,
                value,
            ),
    }
}

/// What is kept after an operation: what it puts out, under the signature of its
/// output; a join keeps its rows under the signatures of its copies, too.
pub open spec fn after_acting(store: Store, variables: Variables, action: ActionModel) -> Store {
    |table: Table, signature: CollectionSignatureModel, key: Seq<i64>, value: Seq<i64>|
        if table == action.table() && signature == action.output() {
            puts_out(store, variables, action, key, value)
        } else if table == Table::Row && action.copies().contains(signature) {
            key.len() == 0 && puts_out_row(
                store,
                action->operator,
                action->large,
                action->small,
                action->Join_flow,
                value,
            )
        } else {
            store(table, signature, key, value)
        }
}

/// What is kept after operations, one after the other.
pub open spec fn after_acting_all(
    store: Store,
    variables: Variables,
    actions: Seq<ActionModel>,
) -> Store
    decreases actions.len(),
{
    if actions.len() == 0 {
        store
    } else {
        after_acting(
            after_acting_all(store, variables, actions.drop_last()),
            variables,
            actions.last(),
        )
    }
}

/// Whether what is held of a collection is kept as its columns say.
pub open spec fn is_stored(store: Store, held: Holdings, collection: CollectionModel) -> bool {
    &&& forall|row: Seq<i64>| #[trigger]
        held(collection.signature, row) ==> row.len() == collection.keys.len()
            + collection.values.len()
    &&& forall|key: Seq<i64>, value: Seq<i64>| #[trigger]
        store(table_for(collection), collection.signature, key, value) <==> key.len()
            == collection.keys.len() && value.len() == collection.values.len() && held(
            collection.signature,
            key + value,
        )
}

/// Whether a step finds the rows of its relation, in what is kept or in a variable of
/// the loop, and all of them have its columns.
pub open spec fn finds_relation(
    db: Database,
    store: Store,
    variables: Variables,
    tables: TablesModel,
    step: TransformationModel,
) -> bool {
    let input = step.input.signature;
    &&& step.input.values.no_duplicates()
    &&& step.input.values.len() <= usize::MAX
    &&& forall|row: Seq<i64>| #[trigger]
        db(input.name(), row) ==> row.len() == step.input.values.len()
    &&& if tables.rows.contains(input) {
        forall|row: Seq<i64>|
            store(Table::Row, input, Seq::empty(), row) <==> #[trigger] db(input.name(), row)
    } else {
        forall|row: Seq<i64>| variables(input, row) <==> #[trigger] db(input.name(), row)
    }
}

proof fn lemma_project_len(inputs: InputsModel, arguments: Seq<TransformationArgument>)
    ensures
        project(inputs, arguments) matches Some(values) ==> values.len() == arguments.len(),
    decreases arguments.len(),
{
    if arguments.len() > 0 {
        lemma_project_len(inputs, arguments.drop_last());
    }
}

/// What a step on rows puts out has the columns of its output.
proof fn lemma_kv_lens(step: TransformationModel, row: Seq<i64>)
    requires
        is_row_step(step),
    ensures
        kv_result(step.flow, row) matches Some(Some((key, value))) ==> key.len()
            == step.output.keys.len() && value.len() == step.output.values.len(),
{
    lemma_project_len(one_row(row), step.flow.key());
    lemma_project_len(one_row(row), step.flow.value());
}

/// What a step on two collections puts out has the columns of its output.
proof fn lemma_join_len(step: TransformationModel, inputs: InputsModel)
    requires
        is_join_step(step),
    ensures
        join_result(step.flow, Reach::All, inputs) matches Some(Some(row)) ==> row.len()
            == step.output.keys.len() + step.output.values.len(),
        flat_result(step.flow, Reach::All, inputs) matches Some(row) ==> row.len()
            == step.output.keys.len() + step.output.values.len(),
{
    let arguments = step.flow.key() + step.flow.value();
    assert forall|i: int| 0 <= i < arguments.len() implies reads(
        Reach::All,
        #[trigger] arguments[i],
    ) by {
        if i < step.flow.key().len() {
            assert(arguments[i] == step.flow.key()[i]);
        } else {
            assert(arguments[i] == step.flow.value()[i - step.flow.key().len()]);
        }
    }
    lemma_read_whole(Reach::All, arguments);
    lemma_project_len(inputs, arguments);
}

proof fn lemma_same_pair(a: Seq<i64>, b: Seq<i64>, c: Seq<i64>, d: Seq<i64>)
    requires
        a.len() == c.len(),
        a + b == c + d,
    ensures
        a == c,
        b == d,
{
    assert(a =~= (a + b).take(a.len() as int));
    assert(c =~= (c + d).take(c.len() as int));
    assert(b =~= (a + b).skip(a.len() as int));
    assert(d =~= (c + d).skip(c.len() as int));
}

/// What a step on a relation puts out.
proof fn lemma_row_output(
    db: Database,
    held: Holdings,
    step: TransformationModel,
    key: Seq<i64>,
    value: Seq<i64>,
)
    requires
        is_row_step(step),
        forall|row: Seq<i64>| #[trigger]
            db(step.input.signature.name(), row) ==> row.len() == step.input.values.len(),
        key.len() == step.output.keys.len(),
        value.len() == step.output.values.len(),
    ensures
        step_output(db, held, step, key + value) <==> exists|row: Seq<i64>| #[trigger]
            db(step.input.signature.name(), row) && kv_result(step.flow, row) == Some(
                Some((key, value)),
            ),
{
    let name = step.input.signature.name();
    if step_output(db, held, step, key + value) {
        let (input, k, v) = choose|input: Seq<i64>, k: Seq<i64>, v: Seq<i64>|
            db(name, input) && #[trigger] is_derived(step, input, k, v, key + value);
        lemma_kv_lens(step, input);
        lemma_same_pair(key, value, k, v);
        assert(db(name, input) && kv_result(step.flow, input) == Some(Some((key, value))));
    }
    if exists|row: Seq<i64>| #[trigger]
        db(name, row) && kv_result(step.flow, row) == Some(Some((key, value))) {
        let row = choose|row: Seq<i64>| #[trigger]
            db(name, row) && kv_result(step.flow, row) == Some(Some((key, value)));
        assert(is_derived(step, row, key, value, key + value));
    }
}

/// How what a step on rows makes is kept.
proof fn lemma_filed(
    step: TransformationModel,
    made_key: Seq<i64>,
    made_value: Seq<i64>,
    key: Seq<i64>,
    value: Seq<i64>,
)
    requires
        made_key.len() == step.output.keys.len(),
        made_value.len() == step.output.values.len(),
    ensures
        is_filed(table_for(step.output), made_key, made_value, key, value) <==> key == made_key
            && value == made_value,
{
    if step.output.keys.len() == 0 {
        assert(made_key + made_value =~= made_value);
        if key.len() == 0 {
            assert(key =~= made_key);
        }
    } else if step.output.values.len() == 0 {
        assert(made_key + made_value =~= made_key);
        if value.len() == 0 {
            assert(value =~= made_value);
        }
    }
}

/// The operation for a step on a relation does what the step says.
proof fn lemma_row_acts(
    db: Database,
    store: Store,
    variables: Variables,
    held: Holdings,
    tables: TablesModel,
    scope: ScopeModel,
    step: TransformationModel,
    action: ActionModel,
    key: Seq<i64>,
    value: Seq<i64>,
)
    requires
        is_made(step),
        is_row_step(step),
        finds_relation(db, store, variables, tables, step),
        step_action(tables, scope, step) == Ok::<ActionModel, CollectionSignatureModel>(action),
    ensures
        action.table() == table_for(step.output),
        action.output() == put_out(step),
        action.copies().len() == 0,
        puts_out(store, variables, action, key, value) <==> key.len() == step.output.keys.len()
            && value.len() == step.output.values.len() && step_output(
            db,
            held,
            step,
            key + value,
        ),
{
    let name = step.input.signature.name();
    let table = table_for(step.output);
    assert(action.table() == table);
    if key.len() == step.output.keys.len() && value.len() == step.output.values.len() {
        lemma_row_output(db, held, step, key, value);
    }
    match action {
        ActionModel::Share { input, .. } => {
            if puts_out(store, variables, action, key, value) {
                let row = choose|row: Seq<i64>|
                    store(Table::Row, input, Seq::empty(), row) && #[trigger] is_filed(
                        table,
                        Seq::empty(),
                        row,
                        key,
                        value,
                    );
                assert(db(name, row));
                lemma_shared(step, row);
                let (k, v) = kv_result(step.flow, row)->0->0;
                assert(Seq::<i64>::empty() + row =~= row);
                assert(is_filed(table, k, v, key, value));
                lemma_kv_lens(step, row);
                lemma_filed(step, k, v, key, value);
            }
            if key.len() == step.output.keys.len() && value.len() == step.output.values.len()
                && step_output(db, held, step, key + value) {
                let row = choose|row: Seq<i64>| #[trigger]
                    db(name, row) && kv_result(step.flow, row) == Some(Some((key, value)));
                lemma_shared(step, row);
                lemma_filed(step, key, value, key, value);
                assert(Seq::<i64>::empty() + row =~= row);
                assert(is_filed(table, Seq::empty(), row, key, value));
            }
        },
        ActionModel::Derive { input, from_variable, flow, .. } => {
            if puts_out(store, variables, action, key, value) {
                let row = choose|row: Seq<i64>|
                    (if from_variable {
                        variables(input, row)
                    } else {
                        store(Table::Row, input, Seq::empty(), row)
                    }) && #[trigger] is_filed_from(flow, table, row, key, value);
                let (k, v) = kv_result(flow, row)->0->0;
                assert(db(name, row));
                lemma_kv_lens(step, row);
                lemma_filed(step, k, v, key, value);
            }
            if key.len() == step.output.keys.len() && value.len() == step.output.values.len()
                && step_output(db, held, step, key + value) {
                let row = choose|row: Seq<i64>| #[trigger]
                    db(name, row) && kv_result(step.flow, row) == Some(Some((key, value)));
                lemma_filed(step, key, value, key, value);
                assert(is_filed_from(flow, table, row, key, value));
            }
        },
        ActionModel::Join { .. } => {},
    }
}

/// A step that changes nothing keeps rows as they are.
proof fn lemma_shared(step: TransformationModel, row: Seq<i64>)
    requires
        is_made(step),
        is_row_step(step),
        step.is_no_op,
        step.input.values.no_duplicates(),
        step.input.values.len() <= usize::MAX,
        row.len() == step.input.values.len(),
    ensures
        kv_result(step.flow, row) matches Some(Some((key, value))) && key + value == row,
{
    reveal(is_made);
    let (consts, aliases, compares) = choose|
        consts: Seq<(AtomArgumentSignature, ConstModel)>,
        aliases: Seq<(AtomArgumentSignature, AtomArgumentSignature)>,
        compares: Seq<PlacedComparisonModel<AtomArgumentSignature>>,
    | #[trigger]
        kv_step(
            step.input,
            step.output.keys,
            step.output.values,
            consts,
            aliases,
            compares,
        ) == Some(step);
    law_no_op_keeps_rows(
        step.input,
        step.output.keys,
        step.output.values,
        consts,
        aliases,
        compares,
        row,
    );
}

/// The operation for a join does what the join says.
proof fn lemma_join_acts(
    db: Database,
    store: Store,
    held: Holdings,
    tables: TablesModel,
    scope: ScopeModel,
    step: TransformationModel,
    action: ActionModel,
    row: Seq<i64>,
)
    requires
        is_made(step),
        is_join_step(step),
        !(step.kind is NjKvK || step.kind is NjKK),
        is_stored(store, held, step.input),
        is_stored(store, held, step.second->0),
        step_action(tables, scope, step) == Ok::<ActionModel, CollectionSignatureModel>(action),
    ensures
        puts_out_row(
            store,
            action->operator,
            action->large,
            action->small,
            action->Join_flow,
            row,
        ) <==> step_output(db, held, step, row),
{
    reveal(is_made);
    let left = step.input;
    let right = step.second->0;
    let turned = left.values.len() < right.values.len();
    let operator = operator_for(step.kind);
    let flow = action->Join_flow;
    let compares = choose|compares: Seq<PlacedComparisonModel<AtomArgumentSignature>>| #[trigger]
        jn_step(left, right, step.output.keys, step.output.values, compares) == Some(step);
    assert(large_table(operator) == table_for(if turned {
        right
    } else {
        left
    }));
    assert(small_table(operator) == table_for(if turned {
        left
    } else {
        right
    }));
    if puts_out_row(store, operator, action->large, action->small, flow, row) {
        let (key, value, other) = choose|key: Seq<i64>, value: Seq<i64>, other: Seq<i64>|
            store(large_table(operator), action->large, key, value) && store(
                small_table(operator),
                action->small,
                key,
                other,
            ) && #[trigger] operator_result(operator, flow, key, value, other) == Some(Some(row));
        let left_value = if turned {
            other
        } else {
            value
        };
        let right_value = if turned {
            value
        } else {
            other
        };
        law_operators_join(
            left,
            right,
            step.output.keys,
            step.output.values,
            compares,
            key,
            left_value,
            right_value,
        );
        assert(is_joined(step, key, left_value, right_value, row));
    }
    if step_output(db, held, step, row) {
        let (key, left_value, right_value) = choose|
            key: Seq<i64>,
            left_value: Seq<i64>,
            right_value: Seq<i64>,
        |
            held(left.signature, key + left_value) && held(right.signature, key + right_value)
                && #[trigger] is_joined(step, key, left_value, right_value, row);
        law_operators_join(
            left,
            right,
            step.output.keys,
            step.output.values,
            compares,
            key,
            left_value,
            right_value,
        );
        assert(store(table_for(left), left.signature, key, left_value));
        assert(store(table_for(right), right.signature, key, right_value));
        if turned {
            assert(operator_result(operator, flow, key, right_value, left_value) == Some(
                Some(row),
            ));
        } else {
            assert(operator_result(operator, flow, key, left_value, right_value) == Some(
                Some(row),
            ));
        }
    }
}

/// The operation for an antijoin does what the antijoin says.
proof fn lemma_antijoin_acts(
    db: Database,
    store: Store,
    held: Holdings,
    tables: TablesModel,
    scope: ScopeModel,
    step: TransformationModel,
    action: ActionModel,
    row: Seq<i64>,
)
    requires
        is_made(step),
        is_join_step(step),
        step.kind is NjKvK || step.kind is NjKK,
        is_stored(store, held, step.input),
        is_stored(store, held, step.second->0),
        step_action(tables, scope, step) == Ok::<ActionModel, CollectionSignatureModel>(action),
    ensures
        puts_out_row(
            store,
            action->operator,
            action->large,
            action->small,
            action->Join_flow,
            row,
        ) <==> step_output(db, held, step, row),
{
    reveal(is_made);
    let left = step.input;
    let right = step.second->0;
    let operator = operator_for(step.kind);
    let flow = action->Join_flow;
    let none = Seq::<i64>::empty();
    assert(flow == step.flow);
    assert(large_table(operator) == table_for(left));
    assert(small_table(operator) == table_for(right));
    assert forall|key: Seq<i64>| key.len() == left.keys.len() implies #[trigger] store(
        table_for(right),
        right.signature,
        key,
        none,
    ) == held(right.signature, key) by {
        assert(key + none =~= key);
    }
    if puts_out_row(store, operator, action->large, action->small, flow, row) {
        let (key, value) = choose|key: Seq<i64>, value: Seq<i64>|
            store(large_table(operator), action->large, key, value) && !store(
                small_table(operator),
                action->small,
                key,
                Seq::empty(),
            ) && #[trigger] operator_result(operator, flow, key, value, Seq::empty()) == Some(
                Some(row),
            );
        law_operators_antijoin(
            left,
            right,
            step.output.keys,
            step.output.values,
            key,
            value,
        );
        assert(!store(table_for(right), right.signature, key, none));
        assert(is_kept_as(step, key, value, row));
    }
    if step_output(db, held, step, row) {
        let (key, value) = choose|key: Seq<i64>, value: Seq<i64>|
            held(left.signature, key + value) && !held(right.signature, key)
                && #[trigger] is_kept_as(step, key, value, row);
        law_operators_antijoin(
            left,
            right,
            step.output.keys,
            step.output.values,
            key,
            value,
        );
        assert(store(table_for(left), left.signature, key, value));
        assert(!store(table_for(right), right.signature, key, none));
        assert(operator_result(operator, flow, key, value, Seq::empty()) == Some(Some(row)));
    }
}

/// The rows that a step on two collections puts out have its columns.
proof fn lemma_output_len(
    db: Database,
    held: Holdings,
    step: TransformationModel,
    row: Seq<i64>,
)
    requires
        is_row_step(step) || is_join_step(step),
        step_output(db, held, step, row),
    ensures
        row.len() == step.output.keys.len() + step.output.values.len(),
{
    let left = step.input.signature;
    let right = step.second->0.signature;
    if step.is_unary() {
        let (input, key, value) = choose|input: Seq<i64>, key: Seq<i64>, value: Seq<i64>|
            db(left.name(), input) && #[trigger] is_derived(step, input, key, value, row);
        lemma_kv_lens(step, input);
    } else if step.kind is NjKvK || step.kind is NjKK {
        let (key, value) = choose|key: Seq<i64>, value: Seq<i64>|
            held(left, key + value) && !held(right, key) && #[trigger] is_kept_as(
                step,
                key,
                value,
                row,
            );
        lemma_join_len(step, joined_rows(Some(key), Some(value), Some(Seq::empty())));
    } else {
        let (key, left_value, right_value) = choose|
            key: Seq<i64>,
            left_value: Seq<i64>,
            right_value: Seq<i64>,
        |
            held(left, key + left_value) && held(right, key + right_value)
                && #[trigger] is_joined(step, key, left_value, right_value, row);
        lemma_join_len(step, joined_rows(Some(key), Some(left_value), Some(right_value)));
    }
}

/// How what a join makes is kept.
proof fn lemma_cut(
    step: TransformationModel,
    row: Seq<i64>,
    key: Seq<i64>,
    value: Seq<i64>,
)
    requires
        row.len() == step.output.keys.len() + step.output.values.len(),
    ensures
        is_cut(table_for(step.output), step.output.keys.len(), row, key, value) <==> key.len()
            == step.output.keys.len() && row == key + value,
{
    if step.output.keys.len() == 0 {
        if key.len() == 0 {
            assert(key + value =~= value);
        }
    } else if step.output.values.len() == 0 {
        if value.len() == 0 {
            assert(key + value =~= key);
        }
    }
}

/// Whether the inputs of a step are kept as its columns say.
pub open spec fn finds_inputs(
    db: Database,
    store: Store,
    variables: Variables,
    held: Holdings,
    tables: TablesModel,
    step: TransformationModel,
) -> bool {
    if step.is_unary() {
        finds_relation(db, store, variables, tables, step)
    } else {
        is_stored(store, held, step.input) && is_stored(store, held, step.second->0)
    }
}

/// The operation for a step does what the step says: what it puts out is kept as the
/// columns of the output say.
pub proof fn law_actions_do_what_steps_say(
    db: Database,
    store: Store,
    variables: Variables,
    held: Holdings,
    tables: TablesModel,
    scope: ScopeModel,
    step: TransformationModel,
    action: ActionModel,
)
    requires
        is_made(step),
        if step.is_unary() {
            is_row_step(step)
        } else {
            is_join_step(step)
        },
        finds_inputs(db, store, variables, held, tables, step),
        step_action(tables, scope, step) == Ok::<ActionModel, CollectionSignatureModel>(action),
    ensures
        action.table() == table_for(step.output),
        action.output() == put_out(step),
        is_stored(
            after_acting(store, variables, action),
            after_step(db, held, step),
            step.output,
        ),
{
    let after = after_acting(store, variables, action);
    let now = after_step(db, held, step);
    assert(action.table() == table_for(step.output));
    assert(action.output() == put_out(step));
    assert forall|row: Seq<i64>| #[trigger] now(step.output.signature, row) implies row.len()
        == step.output.keys.len() + step.output.values.len() by {
        lemma_output_len(db, held, step, row);
    }
    assert forall|key: Seq<i64>, value: Seq<i64>| #[trigger]
        after(table_for(step.output), step.output.signature, key, value) <==> key.len()
            == step.output.keys.len() && value.len() == step.output.values.len() && now(
            step.output.signature,
            key + value,
        ) by {
        assert(after(table_for(step.output), step.output.signature, key, value) <==> puts_out(
            store,
            variables,
            action,
            key,
            value,
        ));
        if step.is_unary() {
            lemma_row_acts(
                db,
                store,
                variables,
                held,
                tables,
                scope,
                step,
                action,
                key,
                value,
            );
        } else {
            lemma_join_puts_out(
                db,
                store,
                variables,
                held,
                tables,
                scope,
                step,
                action,
                key,
                value,
            );
        }
    }
}

proof fn lemma_join_puts_out(
    db: Database,
    store: Store,
    variables: Variables,
    held: Holdings,
    tables: TablesModel,
    scope: ScopeModel,
    step: TransformationModel,
    action: ActionModel,
    key: Seq<i64>,
    value: Seq<i64>,
)
    requires
        is_made(step),
        !step.is_unary(),
        is_join_step(step),
        is_stored(store, held, step.input),
        is_stored(store, held, step.second->0),
        step_action(tables, scope, step) == Ok::<ActionModel, CollectionSignatureModel>(action),
    ensures
        puts_out(store, variables, action, key, value) <==> key.len() == step.output.keys.len()
            && value.len() == step.output.values.len() && step_output(
            db,
            held,
            step,
            key + value,
        ),
{
    let table = table_for(step.output);
    let key_arity = step.output.keys.len();
    let (operator, large, small, flow) = (
        action->operator,
        action->large,
        action->small,
        action->Join_flow,
    );
    assert forall|row: Seq<i64>| #[trigger] puts_out_row(
        store,
        operator,
        large,
        small,
        flow,
        row,
    ) <==> step_output(db, held, step, row) by {
        if step.kind is NjKvK || step.kind is NjKK {
            lemma_antijoin_acts(db, store, held, tables, scope, step, action, row);
        } else {
            lemma_join_acts(db, store, held, tables, scope, step, action, row);
        }
    }
    if puts_out(store, variables, action, key, value) {
        let row = choose|row: Seq<i64>| #[trigger]
            puts_out_row(store, operator, large, small, flow, row) && is_cut(
                table,
                key_arity,
                row,
                key,
                value,
            );
        lemma_output_len(db, held, step, row);
        lemma_cut(step, row, key, value);
    }
    if key.len() == step.output.keys.len() && value.len() == step.output.values.len()
        && step_output(db, held, step, key + value) {
        let row = key + value;
        lemma_cut(step, row, key, value);
        assert(puts_out_row(store, operator, large, small, flow, row));
    }
}

} // verus!
