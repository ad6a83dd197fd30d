//! How a plan is put together as a dataflow, as instructions to be carried out.
use vstd::prelude::*;
use vstd::string::*;
use crate::lists::{clone_list, contains_same, empty, group_take, push};
use crate::planning::collections::{CollectionModel, CollectionSignature, CollectionSignatureModel};
use crate::planning::flow::{flip_flow, TransformationFlow, TransformationFlowModel};
use crate::planning::sharing::{are_runnable, enter, enter_all, set_of};
use crate::planning::transformations::{
    is_join_step, is_row_step, Transformation, TransformationKind, TransformationModel,
};

verus! {

/// How a collection is kept: as rows, as keys, or as keys with values.
#[derive(Debug, Clone, Copy, PartialEq, Eq, Structural)]
pub enum Table {
    Row,
    Key,
    KeyValue,
}

/// How two collections are brought together.
#[derive(Debug, Clone, Copy, PartialEq, Eq, Structural)]
pub enum Operator {
    KvJnKv,
    KvJnK,
    KJnK,
    Cartesian,
    KvAjK,
    KAjK,
}

/// One operation of a dataflow.
#[derive(Debug)]
pub enum Action {
    /// the output is the input, under another name
    Share { input: CollectionSignature, output: CollectionSignature, table: Table },
    /// the output comes from the rows of the input one by one
    Derive {
        input: CollectionSignature,
        from_variable: bool,
        output: CollectionSignature,
        table: Table,
        flow: TransformationFlow,
        key_arity: usize,
        /// rows that have been put out are not put out again
        is_distinct: bool,
    },
    /// the output comes from two inputs
    Join {
        operator: Operator,
        /// the input with more values
        large: CollectionSignature,
        small: CollectionSignature,
        flow: TransformationFlow,
        output: CollectionSignature,
        table: Table,
        key_arity: usize,
        /// relations that the output is known as, too
        copies: Vec<CollectionSignature>,
    },
}

#[verifier::ext_equal]
pub enum ActionModel {
    Share { input: CollectionSignatureModel, output: CollectionSignatureModel, table: Table },
    Derive {
        input: CollectionSignatureModel,
        from_variable: bool,
        output: CollectionSignatureModel,
        table: Table,
        flow: TransformationFlowModel,
        key_arity: nat,
        is_distinct: bool,
    },
    Join {
        operator: Operator,
        large: CollectionSignatureModel,
        small: CollectionSignatureModel,
        flow: TransformationFlowModel,
        output: CollectionSignatureModel,
        table: Table,
        key_arity: nat,
        copies: Seq<CollectionSignatureModel>,
    },
}

impl DeepView for Action {
    type V = ActionModel;

    open spec fn deep_view(&self) -> ActionModel {
        match self {
            Action::Share { input, output, table } => ActionModel::Share {
                input: input.deep_view(),
                output: output.deep_view(),
                table: *table,
            },
            Action::Derive { input, from_variable, output, table, flow, key_arity, is_distinct } =>
            ActionModel::Derive {
                input: input.deep_view(),
                from_variable: *from_variable,
                output: output.deep_view(),
                table: *table,
                flow: flow.deep_view(),
                key_arity: *key_arity as nat,
                is_distinct: *is_distinct,
            },
            Action::Join { operator, large, small, flow, output, table, key_arity, copies } =>
            ActionModel::Join {
                operator: *operator,
                large: large.deep_view(),
                small: small.deep_view(),
                flow: flow.deep_view(),
                output: output.deep_view(),
                table: *table,
                key_arity: *key_arity as nat,
                copies: copies.deep_view(),
            },
        }
    }
}

impl ActionModel {
    pub open spec fn output(self) -> CollectionSignatureModel {
        match self {
            ActionModel::Share { output, .. } => output,
            ActionModel::Derive { output, .. } => output,
            ActionModel::Join { output, .. } => output,
        }
    }

    pub open spec fn table(self) -> Table {
        match self {
            ActionModel::Share { table, .. } => table,
            ActionModel::Derive { table, .. } => table,
            ActionModel::Join { table, .. } => table,
        }
    }

    pub open spec fn copies(self) -> Seq<CollectionSignatureModel> {
        match self {
            ActionModel::Join { copies, .. } => copies,
            _ => Seq::empty(),
        }
    }
}

/// What is known in a scope, and how it is kept.
#[derive(Debug)]
pub struct Tables {
    pub rows: Vec<CollectionSignature>,
    pub keys: Vec<CollectionSignature>,
    pub key_values: Vec<CollectionSignature>,
}

#[verifier::ext_equal]
pub struct TablesModel {
    pub rows: Set<CollectionSignatureModel>,
    pub keys: Set<CollectionSignatureModel>,
    pub key_values: Set<CollectionSignatureModel>,
}

impl DeepView for Tables {
    type V = TablesModel;

    open spec fn deep_view(&self) -> TablesModel {
        TablesModel {
            rows: set_of(self.rows),
            keys: set_of(self.keys),
            key_values: set_of(self.key_values),
        }
    }
}

pub open spec fn no_tables() -> TablesModel {
    TablesModel { rows: Set::empty(), keys: Set::empty(), key_values: Set::empty() }
}

impl TablesModel {
    pub open spec fn of(self, table: Table) -> Set<CollectionSignatureModel> {
        match table {
            Table::Row => self.rows,
            Table::Key => self.keys,
            Table::KeyValue => self.key_values,
        }
    }

    pub open spec fn with(self, table: Table, signature: CollectionSignatureModel) -> TablesModel {
        match table {
            Table::Row => TablesModel { rows: self.rows.insert(signature), ..self },
            Table::Key => TablesModel { keys: self.keys.insert(signature), ..self },
            Table::KeyValue => TablesModel { key_values: self.key_values.insert(signature), ..self },
        }
    }
}

/// The scope of a group: outside of recursion, or inside of it with the variables
/// that stand for the relations of the group and what their rules put out last.
pub struct Scope<'a> {
    pub is_recursive: bool,
    pub variables: &'a Vec<CollectionSignature>,
    pub last_signatures: &'a Vec<(CollectionSignature, Vec<CollectionSignature>)>,
}

#[verifier::ext_equal]
pub struct ScopeModel {
    pub is_recursive: bool,
    pub variables: Set<CollectionSignatureModel>,
    pub last_signatures: Seq<(CollectionSignatureModel, Seq<CollectionSignatureModel>)>,
}

impl<'a> Scope<'a> {
    pub open spec fn model(&self) -> ScopeModel {
        ScopeModel {
            is_recursive: self.is_recursive,
            variables: set_of(*self.variables),
            last_signatures: self.last_signatures.deep_view(),
        }
    }
}

/// Whether a text stands in another from a place on.
pub open spec fn stands_at(text: Seq<char>, part: Seq<char>, i: int) -> bool {
    0 <= i && i + part.len() <= text.len() && text.subrange(i, i + part.len()) == part
}

/// Whether a relation was made by rewriting a rule sideways.
pub open spec fn is_sideways(name: Seq<char>) -> bool {
    exists|i: int| #[trigger] stands_at(name, "_sip"@, i)
}

/// How a collection is kept, by its columns.
pub open spec fn table_for(collection: CollectionModel) -> Table {
    if collection.keys.len() == 0 {
        Table::Row
    } else if collection.values.len() == 0 {
        Table::Key
    } else {
        Table::KeyValue
    }
}

/// How a step on two collections is carried out.
pub open spec fn operator_for(kind: TransformationKind) -> Operator {
    match kind {
        TransformationKind::JnKvKv => Operator::KvJnKv,
        TransformationKind::JnKvK | TransformationKind::JnKKv => Operator::KvJnK,
        TransformationKind::JnKK => Operator::KJnK,
        TransformationKind::NjKvK => Operator::KvAjK,
        TransformationKind::NjKK => Operator::KAjK,
        _ => Operator::Cartesian,
    }
}

/// How the larger input of an operation is kept.
pub open spec fn large_table(operator: Operator) -> Table {
    match operator {
        Operator::KvJnKv | Operator::KvJnK | Operator::KvAjK => Table::KeyValue,
        Operator::KJnK | Operator::KAjK => Table::Key,
        Operator::Cartesian => Table::Row,
    }
}

/// How the smaller input of an operation is kept.
pub open spec fn small_table(operator: Operator) -> Table {
    match operator {
        Operator::KvJnKv => Table::KeyValue,
        Operator::KvJnK | Operator::KvAjK | Operator::KJnK | Operator::KAjK => Table::Key,
        Operator::Cartesian => Table::Row,
    }
}

/// The heads for which a collection is put out last.
pub open spec fn heads_of(
    last_signatures: Seq<(CollectionSignatureModel, Seq<CollectionSignatureModel>)>,
    output: CollectionSignatureModel,
) -> Seq<CollectionSignatureModel>
    decreases last_signatures.len(),
{
    if last_signatures.len() == 0 {
        Seq::empty()
    } else {
        let front = heads_of(last_signatures.drop_last(), output);
        if last_signatures.last().1.contains(output) {
            front.push(last_signatures.last().0)
        } else {
            front
        }
    }
}

/// Those of some heads that were made by rewriting rules sideways.
pub open spec fn sideways_heads(heads: Seq<CollectionSignatureModel>) -> Seq<
    CollectionSignatureModel,
>
    decreases heads.len(),
{
    if heads.len() == 0 {
        Seq::empty()
    } else {
        let front = sideways_heads(heads.drop_last());
        if is_sideways(heads.last().name()) {
            front.push(heads.last())
        } else {
            front
        }
    }
}

/// The other ones.
pub open spec fn plain_heads(heads: Seq<CollectionSignatureModel>) -> Seq<CollectionSignatureModel>
    decreases heads.len(),
{
    if heads.len() == 0 {
        Seq::empty()
    } else {
        let front = plain_heads(heads.drop_last());
        if is_sideways(heads.last().name()) {
            front
        } else {
            front.push(heads.last())
        }
    }
}

/// The operation for a step on one collection, or the input that is not there.
/// Where the output is the input as it stands, it is shared; but a variable of a
/// recursive group cannot be.
pub open spec fn row_action(
    tables: TablesModel,
    scope: ScopeModel,
    step: TransformationModel,
) -> Result<ActionModel, CollectionSignatureModel> {
    let input = step.input.signature;
    let is_here = tables.rows.contains(input);
    let table = match step.kind {
        TransformationKind::RowToRow => Table::Row,
        TransformationKind::RowToK => Table::Key,
        _ => Table::KeyValue,
    };
    if !is_here && !(scope.is_recursive && scope.variables.contains(input)) {
        Err(input)
    } else if step.is_no_op && is_here && !(step.kind is RowToKv) {
        Ok(ActionModel::Share { input, output: step.output.signature, table })
    } else {
        Ok(
            ActionModel::Derive {
                input,
                from_variable: !is_here,
                output: step.output.signature,
                table,
                flow: step.flow,
                key_arity: step.output.keys.len(),
                is_distinct: scope.is_recursive && step.kind is RowToK,
            },
        )
    }
}

/// The operation for a step on two collections, or an input that is not there. The
/// input with more values comes first; inputs that change places take the columns
/// of the flow with them. Inside of recursion the result of a rule that was made
/// by rewriting is known by the name of the relation, too; a result of rows that
/// no rule of the group puts out last is given back.
pub open spec fn join_action(
    tables: TablesModel,
    scope: ScopeModel,
    step: TransformationModel,
) -> Result<ActionModel, CollectionSignatureModel> {
    let right = step.second->0;
    let turned = step.input.values.len() < right.values.len();
    let large = if turned {
        right.signature
    } else {
        step.input.signature
    };
    let small = if turned {
        step.input.signature
    } else {
        right.signature
    };
    let operator = operator_for(step.kind);
    let output = step.output.signature;
    let heads = heads_of(scope.last_signatures, output);
    let is_row = step.output.keys.len() == 0;
    if !tables.of(large_table(operator)).contains(large) {
        Err(large)
    } else if !tables.of(small_table(operator)).contains(small) {
        Err(small)
    } else if scope.is_recursive && is_row && heads.len() == 0 {
        Err(output)
    } else {
        Ok(
            ActionModel::Join {
                operator,
                large,
                small,
                flow: if turned {
                    flip_flow(step.flow)
                } else {
                    step.flow
                },
                output,
                table: table_for(step.output),
                key_arity: step.output.keys.len(),
                copies: if scope.is_recursive && is_row {
                    sideways_heads(heads)
                } else {
                    Seq::empty()
                },
            },
        )
    }
}

pub open spec fn step_action(
    tables: TablesModel,
    scope: ScopeModel,
    step: TransformationModel,
) -> Result<ActionModel, CollectionSignatureModel> {
    if step.is_unary() {
        row_action(tables, scope, step)
    } else {
        join_action(tables, scope, step)
    }
}

/// What is known after an operation.
pub open spec fn after_action(tables: TablesModel, action: ActionModel) -> TablesModel {
    let with = tables.with(action.table(), action.output());
    TablesModel { rows: with.rows.union(action.copies().to_set()), ..with }
}

/// The operations for steps, one after the other, and what is known after them; or
/// a collection that is not there.
pub open spec fn step_actions(
    tables: TablesModel,
    scope: ScopeModel,
    steps: Seq<TransformationModel>,
) -> Result<(Seq<ActionModel>, TablesModel), CollectionSignatureModel>
    decreases steps.len(),
{
    if steps.len() == 0 {
        Ok((Seq::empty(), tables))
    } else {
        match step_actions(tables, scope, steps.drop_last()) {
            Err(absent) => Err(absent),
            Ok((actions, known)) => match step_action(known, scope, steps.last()) {
                Err(absent) => Err(absent),
                Ok(action) => Ok((actions.push(action), after_action(known, action))),
            },
        }
    }
}

fn has_part_at(text: &str, part: &str, i: usize) -> (answer: bool)
    ensures
        answer == stands_at(text@, part@, i as int),
{
    let text_len: usize = text.unicode_len();
    let part_len: usize = part.unicode_len();
    if part_len > text_len || i > text_len - part_len {
        return false;
    }
    let mut k: usize = 0;
    while k < part_len
        invariant
            k <= part_len,
            part_len == part@.len(),
            text_len == text@.len(),
            i + part_len <= text_len,
            forall|j: int| 0 <= j < k ==> text@[i + j] == part@[j],
        decreases part_len - k,
    {
        if text.get_char(i + k) != part.get_char(k) {
            assert(text@.subrange(i as int, i + part_len)[k as int] != part@[k as int]);
            return false;
        }
        k += 1;
    }
    assert(text@.subrange(i as int, i + part_len) =~= part@);
    true
}

/// Whether a relation was made by rewriting a rule sideways.
pub fn is_sideways_name(name: &str) -> (answer: bool)
    ensures
        answer == is_sideways(name@),
{
    let len: usize = name.unicode_len();
    let mut i: usize = 0;
    while i < len
        invariant
            i <= len,
            len == name@.len(),
            forall|j: int| 0 <= j < i ==> !#[trigger] stands_at(name@, "_sip"@, j),
        decreases len - i,
    {
        if has_part_at(name, "_sip", i) {
            return true;
        }
        i += 1;
    }
    proof {
        reveal_strlit("_sip");
        assert forall|j: int| !#[trigger] stands_at(name@, "_sip"@, j) by {
            if j >= len {
                assert("_sip"@.len() > 0);
            }
        }
    }
    false
}

fn is_in(list: &Vec<CollectionSignature>, signature: &CollectionSignature) -> (answer: bool)
    ensures
        answer == set_of(*list).contains(signature.deep_view()),
{
    contains_same(list, signature)
}

impl Tables {
    pub fn new() -> (tables: Self)
        ensures
            tables.deep_view() == no_tables(),
    {
        let tables = Tables { rows: empty(), keys: empty(), key_values: empty() };
        assert(set_of(tables.rows) =~= Set::empty());
        assert(set_of(tables.keys) =~= Set::empty());
        assert(set_of(tables.key_values) =~= Set::empty());
        tables
    }

    pub fn has(&self, table: Table, signature: &CollectionSignature) -> (answer: bool)
        ensures
            answer == self.deep_view().of(table).contains(signature.deep_view()),
    {
        match table {
            Table::Row => is_in(&self.rows, signature),
            Table::Key => is_in(&self.keys, signature),
            Table::KeyValue => is_in(&self.key_values, signature),
        }
    }

    pub fn note(&mut self, table: Table, signature: CollectionSignature)
        ensures
            final(self).deep_view() == old(self).deep_view().with(table, signature.deep_view()),
    {
        match table {
            Table::Row => {
                enter(&mut self.rows, signature);
            },
            Table::Key => {
                enter(&mut self.keys, signature);
            },
            Table::KeyValue => {
                enter(&mut self.key_values, signature);
            },
        }
    }
}

fn find_heads(
    last_signatures: &Vec<(CollectionSignature, Vec<CollectionSignature>)>,
    output: &CollectionSignature,
) -> (heads: Vec<CollectionSignature>)
    ensures
        heads.deep_view() == heads_of(last_signatures.deep_view(), output.deep_view()),
{
    broadcast use group_take;

    let ghost model = last_signatures.deep_view();
    let mut heads: Vec<CollectionSignature> = empty();
    let mut i: usize = 0;
    while i < last_signatures.len()
        invariant
            i <= last_signatures.len(),
            model == last_signatures.deep_view(),
            heads.deep_view() == heads_of(model.take(i as int), output.deep_view()),
        decreases last_signatures.len() - i,
    {
        assert(model.take(i + 1).drop_last() == model.take(i as int));
        assert(model[i as int] == last_signatures@[i as int].deep_view());
        if contains_same(&last_signatures[i].1, output) {
            push(&mut heads, last_signatures[i].0.clone());
        }
        i += 1;
    }
    heads
}

/// The heads that were made by rewriting rules sideways, and the other ones.
pub fn part_heads(heads: &Vec<CollectionSignature>) -> (parts: (
    Vec<CollectionSignature>,
    Vec<CollectionSignature>,
))
    ensures
        parts.0.deep_view() == sideways_heads(heads.deep_view()),
        parts.1.deep_view() == plain_heads(heads.deep_view()),
{
    broadcast use group_take;

    let ghost model = heads.deep_view();
    let mut sideways: Vec<CollectionSignature> = empty();
    let mut plain: Vec<CollectionSignature> = empty();
    let mut i: usize = 0;
    while i < heads.len()
        invariant
            i <= heads.len(),
            model == heads.deep_view(),
            sideways.deep_view() == sideways_heads(model.take(i as int)),
            plain.deep_view() == plain_heads(model.take(i as int)),
        decreases heads.len() - i,
    {
        assert(model.take(i + 1).drop_last() == model.take(i as int));
        assert(model[i as int] == heads@[i as int].deep_view());
        if is_sideways_name(heads[i].name()) {
            push(&mut sideways, heads[i].clone());
        } else {
            push(&mut plain, heads[i].clone());
        }
        i += 1;
    }
    (sideways, plain)
}

fn make_row_action(tables: &Tables, scope: &Scope, step: &Transformation) -> (action: Result<
    Action,
    CollectionSignature,
>)
    requires
        is_row_step(step.deep_view()),
    ensures
        match action {
            Ok(action) => row_action(tables.deep_view(), scope.model(), step.deep_view()) == Ok::<
                ActionModel,
                CollectionSignatureModel,
            >(action.deep_view()),
            Err(absent) => row_action(tables.deep_view(), scope.model(), step.deep_view()) == Err::<
                ActionModel,
                CollectionSignatureModel,
            >(absent.deep_view()),
        },
{
    let input = step.unary().signature();
    let is_here = is_in(&tables.rows, input);
    if !is_here && !(scope.is_recursive && is_in(scope.variables, input)) {
        return Err(input.clone());
    }
    let kind = step.kind();
    let table = match kind {
        TransformationKind::RowToRow => Table::Row,
        TransformationKind::RowToK => Table::Key,
        _ => Table::KeyValue,
    };
    let output = step.output();
    if step.is_no_op() && is_here && kind != TransformationKind::RowToKv {
        Ok(Action::Share { input: input.clone(), output: output.signature().clone(), table })
    } else {
        let (key_arity, _) = output.arity();
        Ok(
            Action::Derive {
                input: input.clone(),
                from_variable: !is_here,
                output: output.signature().clone(),
                table,
                flow: step.flow().clone(),
                key_arity,
                is_distinct: scope.is_recursive && kind == TransformationKind::RowToK,
            },
        )
    }
}

fn make_operator(kind: TransformationKind) -> (operator: Operator)
    ensures
        operator == operator_for(kind),
{
    match kind {
        TransformationKind::JnKvKv => Operator::KvJnKv,
        TransformationKind::JnKvK | TransformationKind::JnKKv => Operator::KvJnK,
        TransformationKind::JnKK => Operator::KJnK,
        TransformationKind::NjKvK => Operator::KvAjK,
        TransformationKind::NjKK => Operator::KAjK,
        _ => Operator::Cartesian,
    }
}

fn make_join_action(tables: &Tables, scope: &Scope, step: &Transformation) -> (action: Result<
    Action,
    CollectionSignature,
>)
    requires
        is_join_step(step.deep_view()),
    ensures
        match action {
            Ok(action) => join_action(tables.deep_view(), scope.model(), step.deep_view()) == Ok::<
                ActionModel,
                CollectionSignatureModel,
            >(action.deep_view()),
            Err(absent) => join_action(tables.deep_view(), scope.model(), step.deep_view()) == Err::<
                ActionModel,
                CollectionSignatureModel,
            >(absent.deep_view()),
        },
{
    let (left, right) = step.binary();
    let (_, left_values) = left.arity();
    let (_, right_values) = right.arity();
    let turned = left_values < right_values;
    let (large, small) = if turned {
        (right.signature(), left.signature())
    } else {
        (left.signature(), right.signature())
    };
    let operator = make_operator(step.kind());
    let large_in = match operator {
        Operator::KvJnKv | Operator::KvJnK | Operator::KvAjK => Table::KeyValue,
        Operator::KJnK | Operator::KAjK => Table::Key,
        Operator::Cartesian => Table::Row,
    };
    let small_in = match operator {
        Operator::KvJnKv => Table::KeyValue,
        Operator::KvJnK | Operator::KvAjK | Operator::KJnK | Operator::KAjK => Table::Key,
        Operator::Cartesian => Table::Row,
    };
    if !tables.has(large_in, large) {
        return Err(large.clone());
    }
    if !tables.has(small_in, small) {
        return Err(small.clone());
    }
    let output = step.output();
    let (key_arity, value_arity) = output.arity();
    let mut copies: Vec<CollectionSignature> = empty();
    if scope.is_recursive && key_arity == 0 {
        let heads = find_heads(scope.last_signatures, output.signature());
        assert(heads.len() == heads.deep_view().len());
        if heads.len() == 0 {
            return Err(output.signature().clone());
        }
        copies = part_heads(&heads).0;
    }
    Ok(
        Action::Join {
            operator,
            large: large.clone(),
            small: small.clone(),
            flow: if turned {
                step.flow().jn_flip()
            } else {
                step.flow().clone()
            },
            output: output.signature().clone(),
            table: if key_arity == 0 {
                Table::Row
            } else if value_arity == 0 {
                Table::Key
            } else {
                Table::KeyValue
            },
            key_arity,
            copies,
        },
    )
}

impl Action {
    pub fn output(&self) -> (output: &CollectionSignature)
        ensures
            output.deep_view() == self.deep_view().output(),
    {
        match self {
            Action::Share { output, .. } => output,
            Action::Derive { output, .. } => output,
            Action::Join { output, .. } => output,
        }
    }

    pub fn table(&self) -> (table: Table)
        ensures
            table == self.deep_view().table(),
    {
        match self {
            Action::Share { table, .. } => *table,
            Action::Derive { table, .. } => *table,
            Action::Join { table, .. } => *table,
        }
    }

    pub fn copies(&self) -> (copies: Vec<CollectionSignature>)
        ensures
            copies.deep_view() == self.deep_view().copies(),
    {
        match self {
            Action::Join { copies, .. } => clone_list(copies),
            _ => empty(),
        }
    }
}

/// Builds the operations for steps; notes what they put out.
pub fn make_step_actions(tables: &mut Tables, scope: &Scope, steps: &Vec<&Transformation>) -> (out:
    Result<Vec<Action>, CollectionSignature>)
    requires
        are_runnable(steps.deep_view()),
    ensures
        match out {
            Ok(actions) => step_actions(
                old(tables).deep_view(),
                scope.model(),
                steps.deep_view(),
            ) == Ok::<(Seq<ActionModel>, TablesModel), CollectionSignatureModel>(
                (actions.deep_view(), final(tables).deep_view()),
            ),
            Err(absent) => step_actions(
                old(tables).deep_view(),
                scope.model(),
                steps.deep_view(),
            ) == Err::<(Seq<ActionModel>, TablesModel), CollectionSignatureModel>(
                absent.deep_view(),
            ),
        },
{
    broadcast use group_take;

    let ghost start = tables.deep_view();
    let ghost models = steps.deep_view();
    let mut actions: Vec<Action> = empty();
    let mut i: usize = 0;
    while i < steps.len()
        invariant
            i <= steps.len(),
            start == old(tables).deep_view(),
            models == steps.deep_view(),
            are_runnable(models),
            step_actions(start, scope.model(), models.take(i as int)) == Ok::<
                (Seq<ActionModel>, TablesModel),
                CollectionSignatureModel,
            >((actions.deep_view(), tables.deep_view())),
        decreases steps.len() - i,
    {
        proof {
            assert(models.take(i + 1).drop_last() == models.take(i as int));
            assert(models[i as int] == steps@[i as int].deep_view());
        }
        let step = steps[i];
        let made = if step.is_unary() {
            make_row_action(tables, scope, step)
        } else {
            make_join_action(tables, scope, step)
        };
        match made {
            Ok(action) => {
                tables.note(action.table(), action.output().clone());
                let copies = action.copies();
                enter_all(&mut tables.rows, copies);
                push(&mut actions, action);
            },
            Err(absent) => {
                proof {
                    lemma_stays_absent(start, scope.model(), models, i + 1);
                }
                return Err(absent);
            },
        }
        i += 1;
    }
    Ok(actions)
}

proof fn lemma_stays_absent(
    tables: TablesModel,
    scope: ScopeModel,
    steps: Seq<TransformationModel>,
    n: int,
)
    requires
        0 <= n <= steps.len(),
        step_actions(tables, scope, steps.take(n)) is Err,
    ensures
        step_actions(tables, scope, steps) == step_actions(tables, scope, steps.take(n)),
    decreases steps.len() - n,
{
    broadcast use group_take;

    if n < steps.len() {
        assert(steps.take(n + 1).drop_last() == steps.take(n));
        lemma_stays_absent(tables, scope, steps, n + 1);
    }
}

} // verus!
