//! What the stages of a dataflow come to.
use vstd::prelude::*;
use crate::executing::acting::{
    after_acting, after_acting_all, finds_inputs, is_stored, law_actions_do_what_steps_say, Store,
    Variables,
};
use crate::executing::assembly::CollectModel;
use crate::executing::dataflow::{
    after_action, heads_of, sideways_heads, step_action, step_actions, ActionModel, ScopeModel,
    Table, TablesModel,
};
use crate::executing::evaluating::{gathered, RowSet};
use crate::executing::heads::head_row_of;
use crate::executing::meaning::Database;
use crate::executing::names::{is_clear, law_names_tell_steps_apart, Arities};
use crate::executing::running::{after_step, after_steps, Holdings};
use crate::executing::shapes::{is_made, is_named};
use crate::executing::wiring::{is_placed, is_told, lemma_told};
use crate::parsing::head::HeadModel;
use crate::parsing::rule::FLRuleModel;
use crate::planning::collections::CollectionSignatureModel;
use crate::planning::sharing::{is_ordered, is_ready, outputs, put_out};
use crate::planning::transformations::TransformationModel;

verus! {

/// Whether what is held of some collections is kept as their columns say.
#[verifier::opaque]
pub open spec fn agrees(
    arities: Arities,
    store: Store,
    held: Holdings,
    done: Set<CollectionSignatureModel>,
) -> bool {
    forall|step: TransformationModel| #[trigger]
        is_told(arities, step) && done.contains(put_out(step)) ==> is_stored(
            store,
            held,
            step.output,
        )
}

/// Whether the rows of all relations have as many columns as the relation, and these
/// can be counted by the machine.
pub open spec fn fits(db: Database, arities: Arities) -> bool {
    &&& forall|name: Seq<char>, row: Seq<i64>| #[trigger]
        db(name, row) ==> row.len() == arities(name)
    &&& forall|name: Seq<char>| #[trigger] arities(name) <= usize::MAX
}

/// Whether relations that are known are kept, and the others are variables of the
/// loop.
pub open spec fn shows(
    db: Database,
    store: Store,
    variables: Variables,
    tables: TablesModel,
    scope: ScopeModel,
) -> bool {
    forall|name: Seq<char>, row: Seq<i64>|
        {
            let s = CollectionSignatureModel::Atom { name };
            &&& tables.rows.contains(s) ==> (store(Table::Row, s, Seq::empty(), row)
                <==> #[trigger] db(name, row))
            &&& !tables.rows.contains(s) && scope.is_recursive && scope.variables.contains(s) ==> (
            variables(s, row) <==> db(name, row))
        }
}

/// Whether a step that reads a relation reads each of its columns once.
pub open spec fn reads_once(step: TransformationModel) -> bool {
    step.is_unary() ==> step.input.values.no_duplicates()
}

/// Whether nothing in a scope was made by rewriting rules.
pub open spec fn has_no_copies(scope: ScopeModel) -> bool {
    scope.is_recursive ==> forall|s: CollectionSignatureModel|
        (#[trigger] sideways_heads(heads_of(scope.last_signatures, s))).len() == 0
}

/// What is known of a step that can be told, beyond its inputs.
proof fn lemma_told_is_made(arities: Arities, step: TransformationModel)
    requires
        is_told(arities, step),
    ensures
        is_made(step),
        step.is_unary() ==> step.input.values.len() == arities(step.input.signature.name()),
{
    reveal(is_named);
    let (rule, tree) = choose|
        rule: FLRuleModel,
        tree: Map<TransformationModel, (TransformationModel, TransformationModel)>,
    | #[trigger]
        is_placed(arities, rule, tree, step);
    assert(is_clear(arities, step));
}

/// Steps that put out one collection put out as many columns.
proof fn lemma_same_columns(arities: Arities, a: TransformationModel, b: TransformationModel)
    requires
        is_told(arities, a),
        is_told(arities, b),
        put_out(a) == put_out(b),
    ensures
        a.output.keys.len() == b.output.keys.len(),
        a.output.values.len() == b.output.values.len(),
{
    let (a_rule, a_tree) = choose|
        rule: FLRuleModel,
        tree: Map<TransformationModel, (TransformationModel, TransformationModel)>,
    | #[trigger]
        is_placed(arities, rule, tree, a);
    let (b_rule, b_tree) = choose|
        rule: FLRuleModel,
        tree: Map<TransformationModel, (TransformationModel, TransformationModel)>,
    | #[trigger]
        is_placed(arities, rule, tree, b);
    let db: Database = |name: Seq<char>, row: Seq<i64>| false;
    law_names_tell_steps_apart(db, arities, a_rule, a_tree, a, b_rule, b_tree, b);
}

/// A step that can be told finds its inputs.
proof fn lemma_finds(
    db: Database,
    arities: Arities,
    store: Store,
    variables: Variables,
    held: Holdings,
    tables: TablesModel,
    scope: ScopeModel,
    step: TransformationModel,
    done: Set<CollectionSignatureModel>,
)
    requires
        is_told(arities, step),
        reads_once(step),
        is_ready(step, done),
        agrees(arities, store, held, done),
        fits(db, arities),
        shows(db, store, variables, tables, scope),
        step_action(tables, scope, step) is Ok,
    ensures
        finds_inputs(db, store, variables, held, tables, step),
{
    reveal(agrees);
    lemma_told(arities, step);
    lemma_told_is_made(arities, step);
    if step.is_unary() {
        let input = step.input.signature;
        let name = input.name();
        assert(input == CollectionSignatureModel::Atom { name });
        assert forall|row: Seq<i64>| #[trigger] db(name, row) implies row.len()
            == step.input.values.len() by {}
        assert(arities(name) <= usize::MAX);
        if tables.rows.contains(input) {
            assert forall|row: Seq<i64>|
                store(Table::Row, input, Seq::empty(), row) <==> #[trigger] db(name, row) by {}
        } else {
            assert forall|row: Seq<i64>| variables(input, row) <==> #[trigger] db(name, row) by {}
        }
    } else {
        let (left, right) = choose|left: TransformationModel, right: TransformationModel|
            #[trigger] is_told(arities, left) && #[trigger] is_told(arities, right)
                && left.output == step.input && Some(right.output) == step.second;
        assert(done.contains(put_out(left)));
        assert(done.contains(put_out(right)));
    }
}

/// One operation: what is kept agrees with what is held after the step.
proof fn lemma_one_acts(
    db: Database,
    arities: Arities,
    store: Store,
    variables: Variables,
    held: Holdings,
    tables: TablesModel,
    scope: ScopeModel,
    step: TransformationModel,
    action: ActionModel,
    done: Set<CollectionSignatureModel>,
)
    requires
        is_told(arities, step),
        reads_once(step),
        is_ready(step, done),
        agrees(arities, store, held, done),
        fits(db, arities),
        shows(db, store, variables, tables, scope),
        has_no_copies(scope),
        step_action(tables, scope, step) == Ok::<ActionModel, CollectionSignatureModel>(action),
    ensures
        agrees(
            arities,
            after_acting(store, variables, action),
            after_step(db, held, step),
            done.insert(put_out(step)),
        ),
        forall|name: Seq<char>| #[trigger]
            after_action(tables, action).rows.contains(CollectionSignatureModel::Atom { name })
                <==> tables.rows.contains(CollectionSignatureModel::Atom { name }),
        forall|name: Seq<char>, key: Seq<i64>, value: Seq<i64>| #[trigger]
            after_acting(store, variables, action)(
                Table::Row,
                CollectionSignatureModel::Atom { name },
                key,
                value,
            ) == store(Table::Row, CollectionSignatureModel::Atom { name }, key, value),
{
    reveal(agrees);
    let after = after_acting(store, variables, action);
    let now = after_step(db, held, step);
    lemma_told(arities, step);
    lemma_told_is_made(arities, step);
    lemma_finds(db, arities, store, variables, held, tables, scope, step, done);
    law_actions_do_what_steps_say(db, store, variables, held, tables, scope, step, action);
    assert(action.copies() =~= Seq::empty()) by {
        if !step.is_unary() && scope.is_recursive {
            assert(sideways_heads(heads_of(scope.last_signatures, step.output.signature)).len()
                == 0);
        }
    }
    assert forall|other: TransformationModel| #[trigger]
        is_told(arities, other) && done.insert(put_out(step)).contains(
            put_out(other),
        ) implies is_stored(after, now, other.output) by {
        if put_out(other) == put_out(step) {
            lemma_same_columns(arities, other, step);
        } else {
            assert(is_stored(store, held, other.output));
            assert forall|row: Seq<i64>| #[trigger]
                now(other.output.signature, row) == held(other.output.signature, row) by {}
        }
    }
}

/// Operations for steps: what is kept agrees with what is held after the steps, and
/// relations stay as they were.
pub proof fn lemma_all_act(
    db: Database,
    arities: Arities,
    store: Store,
    variables: Variables,
    held: Holdings,
    tables: TablesModel,
    scope: ScopeModel,
    steps: Seq<TransformationModel>,
    done: Set<CollectionSignatureModel>,
)
    requires
        step_actions(tables, scope, steps) is Ok,
        forall|i: int|
            0 <= i < steps.len() ==> is_told(arities, #[trigger] steps[i]) && reads_once(steps[i]),
        is_ordered(steps, done),
        agrees(arities, store, held, done),
        fits(db, arities),
        shows(db, store, variables, tables, scope),
        has_no_copies(scope),
    ensures
        ({
            let acted = step_actions(tables, scope, steps)->Ok_0;
            let after = after_acting_all(store, variables, acted.0);
            &&& agrees(
                arities,
                after,
                after_steps(db, held, steps),
                done.union(outputs(steps)),
            )
            &&& forall|name: Seq<char>| #[trigger]
                acted.1.rows.contains(CollectionSignatureModel::Atom { name })
                    <==> tables.rows.contains(CollectionSignatureModel::Atom { name })
            &&& forall|name: Seq<char>, key: Seq<i64>, value: Seq<i64>| #[trigger]
                after(Table::Row, CollectionSignatureModel::Atom { name }, key, value) == store(
                    Table::Row,
                    CollectionSignatureModel::Atom { name },
                    key,
                    value,
                )
        }),
    decreases steps.len(),
{
    let acted = step_actions(tables, scope, steps)->Ok_0;
    if steps.len() == 0 {
        assert(acted.0 =~= Seq::empty());
        assert(done.union(outputs(steps)) =~= done);
    } else {
        let front = steps.drop_last();
        let n = front.len() as int;
        let before = step_actions(tables, scope, front)->Ok_0;
        assert forall|i: int| 0 <= i < front.len() implies is_told(arities, #[trigger] front[i])
            && reads_once(front[i]) by {
            assert(front[i] == steps[i]);
        }
        assert(is_ordered(front, done)) by {
            assert forall|i: int| 0 <= i < front.len() implies is_ready(
                #[trigger] front[i],
                done.union(outputs(front.take(i))),
            ) by {
                assert(front[i] == steps[i]);
                assert(front.take(i) =~= steps.take(i));
            }
        }
        lemma_all_act(db, arities, store, variables, held, tables, scope, front, done);
        let store_before = after_acting_all(store, variables, before.0);
        let held_before = after_steps(db, held, front);
        let action = step_action(before.1, scope, steps.last())->Ok_0;
        let so_far = done.union(outputs(front));
        assert(steps.take(n) =~= front);
        assert(is_ready(steps[n], done.union(outputs(steps.take(n)))));
        assert(shows(db, store_before, variables, before.1, scope));
        lemma_one_acts(
            db,
            arities,
            store_before,
            variables,
            held_before,
            before.1,
            scope,
            steps.last(),
            action,
            so_far,
        );
        assert(acted.0 == before.0.push(action));
        assert(acted.0.drop_last() =~= before.0);
        assert(done.union(outputs(steps)) =~= so_far.insert(put_out(steps.last()))) by {
            assert forall|s: CollectionSignatureModel| #[trigger]
                done.union(outputs(steps)).contains(s) <==> so_far.insert(
                    put_out(steps.last()),
                ).contains(s) by {
                if outputs(steps).contains(s) {
                    let i = choose|i: int| 0 <= i < steps.len() && put_out(#[trigger] steps[i]) == s;
                    if i < n {
                        assert(put_out(front[i]) == s);
                    }
                }
                if outputs(front).contains(s) {
                    let i = choose|i: int| 0 <= i < front.len() && put_out(#[trigger] front[i]) == s;
                    assert(put_out(steps[i]) == s);
                }
                if s == put_out(steps.last()) {
                    assert(put_out(steps[n]) == s);
                }
            }
        }
    }
}

/// Whether a row is what a head stands for on rows that are kept under a signature.
pub open spec fn stands_in(
    store: Store,
    signature: CollectionSignatureModel,
    head: HeadModel,
    row: Seq<i64>,
) -> bool {
    exists|values: Seq<i64>| #[trigger]
        store(Table::Row, signature, Seq::empty(), values) && head_row_of(head, values) == Some(
            row,
        )
}

/// The rows that are put together for a relation: what its parts stand for, and where
/// the relation has rows to start with, these.
pub open spec fn put_in(store: Store, start: Store, collect: CollectModel) -> RowSet {
    |row: Seq<i64>|
        (exists|i: int|
            0 <= i < collect.parts.len() && stands_in(
                store,
                #[trigger] collect.parts[i],
                collect.heads[i],
                row,
            )) || (collect.with_head && start(Table::Row, collect.head, Seq::empty(), row))
}

/// What is kept after relations have been put together, one after the other.
pub open spec fn after_collecting(
    store: Store,
    start: Store,
    collects: Seq<CollectModel>,
) -> Store
    decreases collects.len(),
{
    if collects.len() == 0 {
        store
    } else {
        let before = after_collecting(store, start, collects.drop_last());
        let collect = collects.last();
        |table: Table, signature: CollectionSignatureModel, key: Seq<i64>, value: Seq<i64>|
            if table == Table::Row && signature == collect.head {
                key.len() == 0 && gathered(collect.gather, put_in(before, start, collect), value)
            } else {
                before(table, signature, key, value)
            }
    }
}

/// Whether relations are put together, each once, out of what steps put out.
pub open spec fn are_apart(collects: Seq<CollectModel>) -> bool {
    &&& forall|i: int| 0 <= i < collects.len() ==> (#[trigger] collects[i]).head is Atom
    &&& forall|i: int, j: int|
        0 <= i < collects.len() && 0 <= j < collects[i].parts.len() ==> !((
        #[trigger] collects[i].parts[j]) is Atom)
    &&& forall|i: int, j: int|
        0 <= i < j < collects.len() ==> (#[trigger] collects[i]).head != (
        #[trigger] collects[j]).head
}

/// What comes of putting relations together, each once.
pub proof fn lemma_collecting(
    store: Store,
    start: Store,
    collects: Seq<CollectModel>,
)
    requires
        are_apart(collects),
    ensures
        forall|i: int, row: Seq<i64>|
            0 <= i < collects.len() ==> (#[trigger] after_collecting(store, start, collects)(
                Table::Row,
                collects[i].head,
                Seq::empty(),
                row,
            ) <==> gathered(collects[i].gather, put_in(store, start, collects[i]), row)),
        forall|table: Table, s: CollectionSignatureModel, key: Seq<i64>, value: Seq<i64>|
            (forall|i: int| 0 <= i < collects.len() ==> (#[trigger] collects[i]).head != s) ==> (
            #[trigger] after_collecting(store, start, collects)(table, s, key, value) <==> store(
                table,
                s,
                key,
                value,
            )),
    decreases collects.len(),
{
    if collects.len() > 0 {
        let front = collects.drop_last();
        let n = front.len() as int;
        let last = collects.last();
        let before = after_collecting(store, start, front);
        let after = after_collecting(store, start, collects);
        assert(collects[n] == last);
        assert(are_apart(front)) by {
            assert forall|i: int, j: int|
                0 <= i < front.len() && 0 <= j < front[i].parts.len() implies !((
            #[trigger] front[i].parts[j]) is Atom) by {
                assert(front[i].parts[j] == collects[i].parts[j]);
            }
        }
        lemma_collecting(store, start, front);
        lemma_put_in_same(before, store, start, last);
        assert forall|i: int, row: Seq<i64>| 0 <= i < collects.len() implies (#[trigger] after(
            Table::Row,
            collects[i].head,
            Seq::empty(),
            row,
        ) <==> gathered(collects[i].gather, put_in(store, start, collects[i]), row)) by {
            if i < n {
                assert(front[i] == collects[i]);
                assert(collects[i].head != collects[n].head);
                assert(after(Table::Row, collects[i].head, Seq::empty(), row) <==> before(
                    Table::Row,
                    front[i].head,
                    Seq::empty(),
                    row,
                ));
            }
        }
        assert forall|table: Table, s: CollectionSignatureModel, key: Seq<i64>, value: Seq<i64>|
            (forall|i: int| 0 <= i < collects.len() ==> (#[trigger] collects[i]).head
                != s) implies (#[trigger] after(table, s, key, value) <==> store(
            table,
            s,
            key,
            value,
        )) by {
            assert(collects[n].head != s);
            assert forall|i: int| 0 <= i < front.len() implies (#[trigger] front[i]).head != s by {
                assert(front[i] == collects[i]);
            }
            assert(before(table, s, key, value) <==> store(table, s, key, value));
        }
    }
}

/// The rows that are put together are the same where the parts are.
proof fn lemma_put_in_same(a: Store, b: Store, start: Store, collect: CollectModel)
    requires
        forall|j: int, values: Seq<i64>|
            0 <= j < collect.parts.len() ==> (#[trigger] a(
                Table::Row,
                collect.parts[j],
                Seq::empty(),
                values,
            ) <==> b(Table::Row, collect.parts[j], Seq::empty(), values)),
    ensures
        put_in(a, start, collect) == put_in(b, start, collect),
{
    let f = put_in(a, start, collect);
    let g = put_in(b, start, collect);
    assert forall|row: Seq<i64>| #[trigger] f(row) == g(row) by {
        assert forall|i: int| 0 <= i < collect.parts.len() implies stands_in(
            a,
            #[trigger] collect.parts[i],
            collect.heads[i],
            row,
        ) == stands_in(b, collect.parts[i], collect.heads[i], row) by {
            let s = collect.parts[i];
            if stands_in(a, s, collect.heads[i], row) {
                let values = choose|values: Seq<i64>| #[trigger]
                    a(Table::Row, s, Seq::empty(), values) && head_row_of(
                        collect.heads[i],
                        values,
                    ) == Some(row);
                assert(b(Table::Row, s, Seq::empty(), values));
            }
            if stands_in(b, s, collect.heads[i], row) {
                let values = choose|values: Seq<i64>| #[trigger]
                    b(Table::Row, s, Seq::empty(), values) && head_row_of(
                        collect.heads[i],
                        values,
                    ) == Some(row);
                assert(a(Table::Row, s, Seq::empty(), values));
            }
        }
    }
    assert(f =~= g);
}

} // verus!
