//! Where the collections of a plan are kept, and which relations they belong to.
use vstd::prelude::*;
use vstd::string::*;
use crate::executing::assembly::{
    entry_heads, first_absent, heads_for, input_tables, with_arities,
};
use crate::executing::dataflow::{
    after_action, heads_of, is_sideways, large_table, no_tables, operator_for, plain_heads,
    sideways_heads, small_table, stands_at, step_action, step_actions, table_for, ActionModel,
    ScopeModel, Table, TablesModel,
};
use crate::executing::jn::{read_columns, reads, Reach};
use crate::parsing::decl::RelDeclModel;
use crate::parsing::rule::FLRuleModel;
use crate::planning::arguments::TransformationArgument;
use crate::planning::collections::{CollectionModel, CollectionSignatureModel};
use crate::planning::flow::flip_flow;
use crate::planning::strata::head_arities;
use crate::planning::transformations::TransformationModel;

verus! {

/// At the start exactly the relations that are given are there, as rows.
pub proof fn law_given_relations_are_there(edbs: Seq<RelDeclModel>, name: Seq<char>)
    ensures
        input_tables(edbs).rows.contains(CollectionSignatureModel::Atom { name }) <==> exists|
            i: int,
        |
            0 <= i < edbs.len() && (#[trigger] edbs[i]).name == name,
        input_tables(edbs).keys.is_empty(),
        input_tables(edbs).key_values.is_empty(),
{
    let rows = Seq::new(
        edbs.len(),
        |i: int| CollectionSignatureModel::Atom { name: edbs[i].name },
    );
    let atom = CollectionSignatureModel::Atom { name };
    if rows.contains(atom) {
        let i = choose|i: int| 0 <= i < rows.len() && rows[i] == atom;
        assert(edbs[i].name == name);
    }
    if exists|i: int| 0 <= i < edbs.len() && (#[trigger] edbs[i]).name == name {
        let i = choose|i: int| 0 <= i < edbs.len() && (#[trigger] edbs[i]).name == name;
        assert(rows[i] == atom);
    }
}

/// What is noted in a table is there, and what was there before stays.
pub proof fn law_noted_collections_are_there(
    tables: TablesModel,
    table: Table,
    signature: CollectionSignatureModel,
    other: Table,
    another: CollectionSignatureModel,
)
    ensures
        tables.with(table, signature).of(other).contains(another) <==> tables.of(other).contains(
            another,
        ) || (table == other && signature == another),
        !no_tables().of(other).contains(another),
{
}

/// A collection without keys is kept as rows, one with nothing else as keys, and any
/// other as keys with values.
pub proof fn law_tables_fit_their_collections(collection: CollectionModel)
    ensures
        table_for(collection) == Table::Row <==> collection.keys.len() == 0,
        table_for(collection) == Table::Key <==> collection.keys.len() > 0
            && collection.values.len() == 0,
        table_for(collection) == Table::KeyValue <==> collection.keys.len() > 0
            && collection.values.len() > 0,
{
}

/// A relation is known to pass values sideways by its name, wherever in it the mark
/// stands.
pub proof fn law_sideways_relations_are_known_by_name(before: Seq<char>, behind: Seq<char>)
    ensures
        is_sideways(before + "_sip"@ + behind),
        !before.contains('_') ==> !is_sideways(before),
{
    reveal_strlit("_sip");
    let name = before + "_sip"@ + behind;
    let n = before.len() as int;
    assert(name.subrange(n, n + "_sip"@.len()) =~= "_sip"@);
    assert(stands_at(name, "_sip"@, n));
    if is_sideways(before) {
        let i = choose|i: int| #[trigger] stands_at(before, "_sip"@, i);
        assert(before.subrange(i, i + "_sip"@.len())[0] == '_');
        assert(before[i] == '_');
    }
}

/// Heads that pass values sideways are parted from the others. Each head is among one of
/// them, and both keep the order of the heads.
pub proof fn law_heads_are_parted(
    heads: Seq<CollectionSignatureModel>,
    head: CollectionSignatureModel,
)
    ensures
        sideways_heads(heads.push(head)) == if is_sideways(head.name()) {
            sideways_heads(heads).push(head)
        } else {
            sideways_heads(heads)
        },
        plain_heads(heads.push(head)) == if is_sideways(head.name()) {
            plain_heads(heads)
        } else {
            plain_heads(heads).push(head)
        },
        sideways_heads(heads).len() + plain_heads(heads).len() == heads.len(),
    decreases heads.len(),
{
    assert(heads.push(head).drop_last() =~= heads);
    if heads.len() > 0 {
        law_heads_are_parted(heads.drop_last(), head);
    }
}

/// The heads of a collection are the relations that it is a last output for, in order.
pub proof fn law_heads_of_outputs(
    last_signatures: Seq<(CollectionSignatureModel, Seq<CollectionSignatureModel>)>,
    head: CollectionSignatureModel,
    parts: Seq<CollectionSignatureModel>,
    output: CollectionSignatureModel,
)
    ensures
        heads_of(Seq::empty(), output) == Seq::<CollectionSignatureModel>::empty(),
        heads_of(last_signatures.push((head, parts)), output) == if parts.contains(output) {
            heads_of(last_signatures, output).push(head)
        } else {
            heads_of(last_signatures, output)
        },
        entry_heads(last_signatures.push((head, parts))) == entry_heads(last_signatures).push(
            head,
        ),
{
    let more = last_signatures.push((head, parts));
    assert(more.drop_last() =~= last_signatures);
    assert(entry_heads(more) =~= entry_heads(last_signatures).push(head));
}

/// The heads of the rules for a relation are those with its name, in their order.
pub proof fn law_heads_of_rules(rules: Seq<FLRuleModel>, rule: FLRuleModel, name: Seq<char>)
    ensures
        heads_for(Seq::empty(), name).len() == 0,
        heads_for(rules.push(rule), name) == if rule.head.name == name {
            heads_for(rules, name).push(rule.head)
        } else {
            heads_for(rules, name)
        },
{
    assert(rules.push(rule).drop_last() =~= rules);
}

/// What is missing first is not known, and everything before it is; nothing is missing
/// exactly if everything is known.
pub proof fn law_first_absent_part(
    parts: Seq<CollectionSignatureModel>,
    known: Set<CollectionSignatureModel>,
)
    ensures
        first_absent(parts, known) is None <==> forall|i: int|
            0 <= i < parts.len() ==> known.contains(#[trigger] parts[i]),
        first_absent(parts, known) matches Some(absent) ==> exists|i: int|
            0 <= i < parts.len() && #[trigger] parts[i] == absent && !known.contains(absent)
                && forall|j: int| 0 <= j < i ==> known.contains(#[trigger] parts[j]),
    decreases parts.len(),
{
    if parts.len() > 0 {
        let front = parts.drop_last();
        let n = parts.len() - 1;
        law_first_absent_part(front, known);
        assert(parts[n] == parts.last());
        assert(forall|i: int| 0 <= i < front.len() ==> front[i] == parts[i]);
        if let Some(absent) = first_absent(front, known) {
            let i = choose|i: int|
                0 <= i < front.len() && #[trigger] front[i] == absent && !known.contains(absent)
                    && forall|j: int| 0 <= j < i ==> known.contains(#[trigger] front[j]);
            assert(parts[i] == absent);
            assert forall|j: int| 0 <= j < i implies known.contains(#[trigger] parts[j]) by {
                assert(front[j] == parts[j]);
            }
        } else {
            assert forall|j: int| 0 <= j < n implies known.contains(#[trigger] parts[j]) by {
                assert(front[j] == parts[j]);
            }
        }
    }
}

/// Each variable of a loop has the number of columns that the rules give its relation.
pub proof fn law_loop_variables_have_columns(
    heads: Seq<CollectionSignatureModel>,
    rules: Seq<FLRuleModel>,
    i: int,
)
    requires
        0 <= i < heads.len(),
    ensures
        with_arities(heads, rules).len() == heads.len(),
        with_arities(heads, rules)[i].0 == heads[i],
        head_arities(rules).contains_key(heads[i].name()) ==> with_arities(heads, rules)[i].1
            == head_arities(rules)[heads[i].name()],
{
}

/// What a join reads of the columns that are asked for keeps their order. A join of all
/// rows reads every column of a join, one without a key the values, and one without
/// values the key.
pub proof fn law_columns_that_are_read(
    reach: Reach,
    arguments: Seq<TransformationArgument>,
    argument: TransformationArgument,
)
    ensures
        read_columns(reach, Seq::empty()) == Seq::<TransformationArgument>::empty(),
        read_columns(reach, arguments.push(argument)) == if reads(reach, argument) {
            read_columns(reach, arguments).push(argument)
        } else {
            read_columns(reach, arguments)
        },
        reads(Reach::All, argument) <==> argument is Jn,
        reads(Reach::LeftAndKey, argument) <==> argument is Jn,
        reads(Reach::Values, argument) <==> (argument matches TransformationArgument::Jn(
            (_, value, _),
        ) && value),
        reads(Reach::Key, argument) <==> (argument matches TransformationArgument::Jn(
            (right, value, _),
        ) && !value && !right),
{
    assert(arguments.push(argument).drop_last() =~= arguments);
}

/// A step over rows can be done exactly if its input is there as rows, or is a variable of
/// the loop that it stands in. It reads the variable where the rows are not there, shares
/// rows only where it does nothing to them, and takes repetitions away only where it puts
/// out keys in a loop.
pub proof fn law_actions_of_row_steps(
    tables: TablesModel,
    scope: ScopeModel,
    step: TransformationModel,
)
    requires
        step.is_unary(),
    ensures
        ({
            let input = step.input.signature;
            let is_here = tables.rows.contains(input);
            let action = step_action(tables, scope, step);
            &&& action is Ok <==> is_here || (scope.is_recursive && scope.variables.contains(input))
            &&& action matches Err(absent) ==> absent == input
            &&& action matches Ok(action) ==> {
                &&& action.output() == step.output.signature
                &&& action.copies().len() == 0
                &&& action.table() == Table::Row <==> step.kind is RowToRow
                &&& action.table() == Table::Key <==> step.kind is RowToK
            }
            &&& action matches Ok(ActionModel::Share { input: from, .. }) ==> from == input
                && is_here && step.is_no_op && !(step.kind is RowToKv)
            &&& is_here && step.is_no_op && !(step.kind is RowToKv) ==> action->Ok_0 is Share
            &&& action matches Ok(
                ActionModel::Derive {
                    input: from,
                    from_variable,
                    flow,
                    key_arity,
                    is_distinct,
                    ..
                },
            ) ==> {
                &&& from == input
                &&& from_variable <==> !is_here
                &&& flow == step.flow
                &&& key_arity == step.output.keys.len()
                &&& is_distinct <==> scope.is_recursive && step.kind is RowToK
            }
        }),
{
}

/// A join can be done exactly if both its inputs are where its operator reads them, and,
/// where it puts out rows in a loop, these belong to a head. The side with more values is
/// the large one; the left one where they have as many. What it puts out in a loop is
/// copied to the heads that pass values sideways.
pub proof fn law_actions_of_joins(
    tables: TablesModel,
    scope: ScopeModel,
    step: TransformationModel,
)
    requires
        !step.is_unary(),
        step.second is Some,
    ensures
        ({
            let right = step.second->0;
            let operator = operator_for(step.kind);
            let is_turned = step.input.values.len() < right.values.len();
            let action = step_action(tables, scope, step);
            let heads = heads_of(scope.last_signatures, step.output.signature);
            let is_row = step.output.keys.len() == 0;
            &&& action is Ok <==> {
                &&& tables.of(large_table(operator)).contains(
                    if is_turned {
                        right.signature
                    } else {
                        step.input.signature
                    },
                )
                &&& tables.of(small_table(operator)).contains(
                    if is_turned {
                        step.input.signature
                    } else {
                        right.signature
                    },
                )
                &&& scope.is_recursive && is_row ==> heads.len() > 0
            }
            &&& action matches Ok(action) ==> {
                &&& action.output() == step.output.signature
                &&& action.table() == table_for(step.output)
                &&& scope.is_recursive && is_row ==> action.copies() == sideways_heads(heads)
                &&& !(scope.is_recursive && is_row) ==> action.copies().len() == 0
            }
            &&& action matches Ok(
                ActionModel::Join { operator: done_by, large, small, flow, key_arity, .. },
            ) ==> {
                &&& done_by == operator
                &&& key_arity == step.output.keys.len()
                &&& is_turned ==> large == right.signature && small == step.input.signature && flow
                    == flip_flow(step.flow)
                &&& !is_turned ==> large == step.input.signature && small == right.signature
                    && flow == step.flow
            }
        }),
{
}

/// What an action puts out is there afterwards, in its table, and so are its copies, as
/// rows. Everything else is there as before.
pub proof fn law_tables_after_actions(
    tables: TablesModel,
    action: ActionModel,
    table: Table,
    signature: CollectionSignatureModel,
)
    ensures
        after_action(tables, action).of(table).contains(signature) <==> {
            ||| tables.of(table).contains(signature)
            ||| table == action.table() && signature == action.output()
            ||| table == Table::Row && action.copies().contains(signature)
        },
{
}

/// Steps are done one after the other, each with what is there after those before it; the
/// first that cannot be done ends them.
pub proof fn law_steps_are_done_in_turn(
    tables: TablesModel,
    scope: ScopeModel,
    steps: Seq<TransformationModel>,
    step: TransformationModel,
)
    ensures
        step_actions(tables, scope, Seq::empty()) == Ok::<
            (Seq<ActionModel>, TablesModel),
            CollectionSignatureModel,
        >((Seq::empty(), tables)),
        match (
            step_actions(tables, scope, steps),
            step_actions(tables, scope, steps.push(step)),
        ) {
            (Err(absent), after) => after == Err::<
                (Seq<ActionModel>, TablesModel),
                CollectionSignatureModel,
            >(absent),
            (Ok((actions, known)), Ok((more, after))) => {
                &&& step_action(known, scope, step) is Ok
                &&& more == actions.push(step_action(known, scope, step)->Ok_0)
                &&& after == after_action(known, step_action(known, scope, step)->Ok_0)
            },
            (Ok((_, known)), Err(absent)) => step_action(known, scope, step) == Err::<
                ActionModel,
                CollectionSignatureModel,
            >(absent),
        },
{
    assert(steps.push(step).drop_last() =~= steps);
}

} // verus!
