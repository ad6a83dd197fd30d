//! Stages can be put together: what a step needs is there.
use vstd::prelude::*;
use crate::executing::dataflow::{
    after_action, heads_of, sideways_heads, step_action, step_actions, table_for, ScopeModel,
    Table, TablesModel,
};
use crate::executing::meaning::Database;
use crate::executing::names::{is_clear, is_clear_tree, law_names_tell_steps_apart, Arities};
use crate::executing::shapes::is_named;
use crate::parsing::rule::FLRuleModel;
use crate::planning::collections::{CollectionModel, CollectionSignatureModel};
use crate::planning::linking::{is_fed, is_leaf, is_link, is_linked, is_linked_to};
use crate::planning::rule::RulePlanModel;
use crate::planning::sharing::{
    is_ordered, is_ready, law_nested_steps_come_in_order, law_steps_come_in_order,
    lemma_nested_is_plain, lemma_ordered_add, lemma_ordered_more, lemma_outputs_add, lemma_unseen,
    nested_plan_of, outputs, plan_of, put_out, unseen,
};
use crate::planning::strata::{flat, nested_rows_of, rows_of};
use crate::planning::transformations::{is_join_step, is_row_step, TransformationModel};
use crate::strata::dependencies::mentions;

verus! {

/// Whether a step stands in a plan of a rule whose steps can be told by their names.
pub open spec fn is_placed(
    arities: Arities,
    rule: FLRuleModel,
    tree: Map<TransformationModel, (TransformationModel, TransformationModel)>,
    step: TransformationModel,
) -> bool {
    &&& is_linked_to(rule, tree, Set::empty())
    &&& is_fed(rule, tree, Set::empty(), step)
    &&& is_clear_tree(arities, tree)
    &&& is_clear(arities, step)
}

/// Whether a step stands in some such plan.
pub open spec fn is_told(arities: Arities, step: TransformationModel) -> bool {
    exists|
        rule: FLRuleModel,
        tree: Map<TransformationModel, (TransformationModel, TransformationModel)>,
    | #[trigger]
        is_placed(arities, rule, tree, step)
}

/// Whether a collection is known, kept as its columns say.
pub open spec fn is_kept(tables: TablesModel, collection: CollectionModel) -> bool {
    tables.of(table_for(collection)).contains(collection.signature)
}

/// Whether the steps that put out some collections find them kept as their columns
/// say.
pub open spec fn are_kept(
    arities: Arities,
    tables: TablesModel,
    done: Set<CollectionSignatureModel>,
) -> bool {
    forall|step: TransformationModel| #[trigger]
        is_told(arities, step) && done.contains(put_out(step)) ==> is_kept(tables, step.output)
}

/// Whether no collection that a step puts out is kept otherwise than its columns
/// say.
pub open spec fn are_filed(arities: Arities, tables: TablesModel) -> bool {
    forall|step: TransformationModel, table: Table| #[trigger]
        is_told(arities, step) && #[trigger] tables.of(table).contains(put_out(step)) ==> table
            == table_for(step.output)
}

/// Whether all that is known in one place is known in another.
pub open spec fn is_within(a: TablesModel, b: TablesModel) -> bool {
    forall|table: Table| (#[trigger] a.of(table)).subset_of(b.of(table))
}

/// What is wanted of a step on a relation: the relation has rows, or it is one that
/// grows in the loop.
pub open spec fn finds_rows(
    tables: TablesModel,
    scope: ScopeModel,
    step: TransformationModel,
) -> bool {
    let input = step.input.signature;
    step.is_unary() ==> tables.rows.contains(input) || (scope.is_recursive
        && scope.variables.contains(input))
}

/// What is wanted of a join in a loop: where it puts out rows, a rule of the group
/// puts them out last.
pub open spec fn is_last_of_rows(scope: ScopeModel, step: TransformationModel) -> bool {
    scope.is_recursive && !step.is_unary() && step.output.keys.len() == 0 ==> heads_of(
        scope.last_signatures,
        put_out(step),
    ).len() > 0
}

/// Steps that put out one collection keep it in one way.
proof fn lemma_same_table(arities: Arities, a: TransformationModel, b: TransformationModel)
    requires
        is_told(arities, a),
        is_told(arities, b),
        put_out(a) == put_out(b),
    ensures
        table_for(a.output) == table_for(b.output),
{
    let (a_rule, a_tree) = choose|
        rule: FLRuleModel,
        tree: Map<TransformationModel, (TransformationModel, TransformationModel)>,
    | #[trigger]
        is_placed(arities, rule, tree, a);
    let (b_rule, b_tree) = choose|
        rule: FLRuleModel,
        tree: Map<TransformationModel, (TransformationModel, TransformationModel)>,
    | #[trigger]
        is_placed(arities, rule, tree, b);
    let db: Database = |name: Seq<char>, row: Seq<i64>| false;
    law_names_tell_steps_apart(db, arities, a_rule, a_tree, a, b_rule, b_tree, b);
}

/// What is known of a step that can be told.
pub proof fn lemma_told(arities: Arities, step: TransformationModel)
    requires
        is_told(arities, step),
    ensures
        !(put_out(step) is Atom),
        step.is_unary() ==> is_row_step(step) && step.input.signature is Atom,
        !step.is_unary() ==> is_join_step(step) && exists|
            left: TransformationModel,
            right: TransformationModel,
        |
            #[trigger] is_told(arities, left) && #[trigger] is_told(arities, right) && left.output
                == step.input && Some(right.output) == step.second,
{
    reveal(is_named);
    let (rule, tree) = choose|
        rule: FLRuleModel,
        tree: Map<TransformationModel, (TransformationModel, TransformationModel)>,
    | #[trigger]
        is_placed(arities, rule, tree, step);
    if tree.contains_key(step) {
        assert(is_link(rule, tree, Set::empty(), step));
        let (left, right) = tree[step];
        assert(is_placed(arities, rule, tree, left));
        assert(is_placed(arities, rule, tree, right));
        assert(is_told(arities, left) && is_told(arities, right));
    } else {
        assert(is_leaf(rule, step));
    }
}

/// What is kept stays kept where more is known.
pub proof fn lemma_still_kept(
    arities: Arities,
    before: TablesModel,
    after: TablesModel,
    done: Set<CollectionSignatureModel>,
)
    requires
        is_within(before, after),
        are_kept(arities, before, done),
    ensures
        are_kept(arities, after, done),
{
    assert forall|step: TransformationModel| #[trigger]
        is_told(arities, step) && done.contains(put_out(step)) implies is_kept(
        after,
        step.output,
    ) by {
        assert(is_kept(before, step.output));
        assert(before.of(table_for(step.output)).subset_of(after.of(table_for(step.output))));
    }
}

/// A step that finds what it needs becomes an operation, and its output is kept as
/// its columns say.
proof fn lemma_step_is_wired(
    arities: Arities,
    tables: TablesModel,
    scope: ScopeModel,
    step: TransformationModel,
    done: Set<CollectionSignatureModel>,
)
    requires
        is_told(arities, step),
        are_kept(arities, tables, done),
        is_ready(step, done),
        finds_rows(tables, scope, step),
        is_last_of_rows(scope, step),
    ensures
        step_action(tables, scope, step) is Ok,
        ({
            let action = step_action(tables, scope, step)->Ok_0;
            &&& action.output() == put_out(step)
            &&& action.table() == table_for(step.output)
            &&& action.copies().len() > 0 ==> action.copies() == sideways_copies(scope, step)
        }),
{
    lemma_told(arities, step);
    if !step.is_unary() {
        let (left, right) = choose|left: TransformationModel, right: TransformationModel|
            #[trigger] is_told(arities, left) && #[trigger] is_told(arities, right) && left.output
                == step.input && Some(right.output) == step.second;
        assert(is_kept(tables, left.output));
        assert(is_kept(tables, right.output));
    }
}

/// The relations that the rows of a step are known as, too.
pub open spec fn sideways_copies(scope: ScopeModel, step: TransformationModel) -> Seq<
    CollectionSignatureModel,
> {
    sideways_heads(heads_of(scope.last_signatures, put_out(step)))
}

/// Whether all heads of some entries are relations.
pub open spec fn are_relations(
    entries: Seq<(CollectionSignatureModel, Seq<CollectionSignatureModel>)>,
) -> bool {
    forall|i: int| 0 <= i < entries.len() ==> (#[trigger] entries[i]).0 is Atom
}

proof fn lemma_heads_are_relations(
    entries: Seq<(CollectionSignatureModel, Seq<CollectionSignatureModel>)>,
    output: CollectionSignatureModel,
)
    requires
        are_relations(entries),
    ensures
        forall|i: int|
            0 <= i < heads_of(entries, output).len() ==> (#[trigger] heads_of(
                entries,
                output,
            )[i]) is Atom,
    decreases entries.len(),
{
    if entries.len() > 0 {
        assert(entries[entries.len() - 1].0 is Atom);
        assert forall|i: int| 0 <= i < entries.drop_last().len() implies (
        #[trigger] entries.drop_last()[i]).0 is Atom by {
            assert(entries.drop_last()[i] == entries[i]);
        }
        lemma_heads_are_relations(entries.drop_last(), output);
    }
}

proof fn lemma_sideways_are_relations(heads: Seq<CollectionSignatureModel>)
    requires
        forall|i: int| 0 <= i < heads.len() ==> (#[trigger] heads[i]) is Atom,
    ensures
        forall|i: int|
            0 <= i < sideways_heads(heads).len() ==> (#[trigger] sideways_heads(heads)[i]) is Atom,
    decreases heads.len(),
{
    if heads.len() > 0 {
        assert(heads[heads.len() - 1] is Atom);
        assert forall|i: int| 0 <= i < heads.drop_last().len() implies (
        #[trigger] heads.drop_last()[i]) is Atom by {
            assert(heads.drop_last()[i] == heads[i]);
        }
        lemma_sideways_are_relations(heads.drop_last());
    }
}

/// What is known after the operation of a step.
proof fn lemma_after_step(
    arities: Arities,
    tables: TablesModel,
    scope: ScopeModel,
    step: TransformationModel,
    done: Set<CollectionSignatureModel>,
)
    requires
        is_told(arities, step),
        are_kept(arities, tables, done),
        are_filed(arities, tables),
        are_relations(scope.last_signatures),
        is_ready(step, done),
        finds_rows(tables, scope, step),
        is_last_of_rows(scope, step),
    ensures
        ({
            let after = after_action(tables, step_action(tables, scope, step)->Ok_0);
            &&& is_within(tables, after)
            &&& is_kept(after, step.output)
            &&& are_kept(arities, after, done.insert(put_out(step)))
            &&& are_filed(arities, after)
        }),
{
    lemma_step_is_wired(arities, tables, scope, step, done);
    let action = step_action(tables, scope, step)->Ok_0;
    let after = after_action(tables, action);
    assert forall|table: Table| (#[trigger] tables.of(table)).subset_of(after.of(table)) by {}
    assert(is_kept(after, step.output));
    lemma_still_kept(arities, tables, after, done);
    assert forall|other: TransformationModel| #[trigger]
        is_told(arities, other) && done.insert(put_out(step)).contains(
            put_out(other),
        ) implies is_kept(after, other.output) by {
        if put_out(other) == put_out(step) {
            lemma_same_table(arities, step, other);
        }
    }
    lemma_heads_are_relations(scope.last_signatures, put_out(step));
    lemma_sideways_are_relations(heads_of(scope.last_signatures, put_out(step)));
    assert forall|other: TransformationModel, table: Table| #[trigger]
        is_told(arities, other) && #[trigger] after.of(table).contains(
            put_out(other),
        ) implies table == table_for(other.output) by {
        if !tables.of(table).contains(put_out(other)) {
            lemma_told(arities, other);
            if put_out(other) == put_out(step) && table == action.table() {
                lemma_same_table(arities, step, other);
            } else {
                assert(action.copies().to_set().contains(put_out(other)));
                let copies = action.copies();
                assert(copies.contains(put_out(other)));
                let i = choose|i: int| 0 <= i < copies.len() && copies[i] == put_out(other);
                assert(copies[i] is Atom);
            }
        }
    }
}

/// Steps that come in an order in which they can be carried out become operations.
/// Afterwards all that they put out is kept as its columns say.
pub proof fn lemma_steps_are_wired(
    arities: Arities,
    tables: TablesModel,
    scope: ScopeModel,
    plan: Seq<TransformationModel>,
    done: Set<CollectionSignatureModel>,
)
    requires
        forall|i: int|
            0 <= i < plan.len() ==> is_told(arities, #[trigger] plan[i]) && finds_rows(
                tables,
                scope,
                plan[i],
            ) && is_last_of_rows(scope, plan[i]),
        is_ordered(plan, done),
        are_kept(arities, tables, done),
        are_filed(arities, tables),
        are_relations(scope.last_signatures),
    ensures
        step_actions(tables, scope, plan) is Ok,
        ({
            let after = step_actions(tables, scope, plan)->Ok_0.1;
            &&& is_within(tables, after)
            &&& are_kept(arities, after, done.union(outputs(plan)))
            &&& are_filed(arities, after)
        }),
    decreases plan.len(),
{
    if plan.len() == 0 {
        assert(done.union(outputs(plan)) =~= done);
    } else {
        let front = plan.drop_last();
        let step = plan.last();
        let n = front.len() as int;
        assert(plan.take(n) =~= front);
        assert forall|i: int| 0 <= i < front.len() implies is_told(arities, #[trigger] front[i])
            && finds_rows(tables, scope, front[i]) && is_last_of_rows(scope, front[i]) by {
            assert(front[i] == plan[i]);
        }
        assert(is_ordered(front, done)) by {
            assert forall|i: int| 0 <= i < front.len() implies is_ready(
                #[trigger] front[i],
                done.union(outputs(front.take(i))),
            ) by {
                assert(front[i] == plan[i]);
                assert(front.take(i) =~= plan.take(i));
            }
        }
        lemma_steps_are_wired(arities, tables, scope, front, done);
        let known = step_actions(tables, scope, front)->Ok_0.1;
        let so_far = done.union(outputs(front));
        assert(plan[n] == step);
        assert(is_ready(plan[n], done.union(outputs(plan.take(n)))));
        assert(tables.of(Table::Row).subset_of(known.of(Table::Row)));
        assert(finds_rows(known, scope, step));
        lemma_step_is_wired(arities, known, scope, step, so_far);
        lemma_after_step(arities, known, scope, step, so_far);
        let after = step_actions(tables, scope, plan)->Ok_0.1;
        assert(outputs(plan) =~= outputs(front).insert(put_out(step))) by {
            assert forall|s: CollectionSignatureModel| outputs(plan).contains(s) <==> outputs(
                front,
            ).insert(put_out(step)).contains(s) by {
                if outputs(plan).contains(s) {
                    let i = choose|i: int| 0 <= i < plan.len() && put_out(#[trigger] plan[i]) == s;
                    if i < n {
                        assert(put_out(front[i]) == s);
                    }
                }
                if outputs(front).contains(s) {
                    let i = choose|i: int|
                        0 <= i < front.len() && put_out(#[trigger] front[i]) == s;
                    assert(put_out(plan[i]) == s);
                }
                assert(put_out(plan[n]) == put_out(step));
            }
        }
        assert(done.union(outputs(plan)) =~= so_far.insert(put_out(step)));
        assert forall|table: Table| (#[trigger] tables.of(table)).subset_of(after.of(table)) by {
            assert(tables.of(table).subset_of(known.of(table)));
            assert(known.of(table).subset_of(after.of(table)));
        }
    }
}

/// Whether a rule is planned by steps that can be told by their names, and puts out
/// rows.
pub open spec fn is_clear_plan(arities: Arities, plan: RulePlanModel) -> bool {
    &&& is_linked(plan.rule, plan.steps)
    &&& is_clear_tree(arities, plan.steps.tree)
    &&& is_clear(arities, plan.steps.last)
    &&& plan.steps.last.output.keys.len() == 0
}

pub open spec fn are_clear_plans(arities: Arities, plans: Seq<RulePlanModel>) -> bool {
    forall|i: int| 0 <= i < plans.len() ==> is_clear_plan(arities, #[trigger] plans[i])
}

/// Whether a step stands in one of some plans.
pub open spec fn is_of_plans(
    arities: Arities,
    plans: Seq<RulePlanModel>,
    step: TransformationModel,
) -> bool {
    exists|k: int|
        0 <= k < plans.len() && is_placed(
            arities,
            (#[trigger] plans[k]).rule,
            plans[k].steps.tree,
            step,
        )
}

/// The steps of a plan stand in its tree.
proof fn lemma_plan_is_placed(
    arities: Arities,
    rule: FLRuleModel,
    tree: Map<TransformationModel, (TransformationModel, TransformationModel)>,
    root: TransformationModel,
    seen: Set<CollectionSignatureModel>,
)
    requires
        is_placed(arities, rule, tree, root),
    ensures
        forall|i: int|
            0 <= i < plan_of(tree, root, seen).0.len() ==> is_placed(
                arities,
                rule,
                tree,
                #[trigger] plan_of(tree, root, seen).0[i],
            ),
    decreases unseen(tree, seen),
{
    if !seen.contains(put_out(root)) && tree.contains_key(root) {
        let marked = seen.insert(put_out(root));
        let (l, r) = tree[root];
        let left = plan_of(tree, l, marked);
        let right = plan_of(tree, r, marked.union(left.1));
        let plan = plan_of(tree, root, seen).0;
        assert(is_link(rule, tree, Set::empty(), root));
        lemma_unseen(tree, root, seen, marked);
        lemma_unseen(tree, root, seen, marked.union(left.1));
        lemma_plan_is_placed(arities, rule, tree, l, marked);
        lemma_plan_is_placed(arities, rule, tree, r, marked.union(left.1));
        assert forall|i: int| 0 <= i < plan.len() implies is_placed(
            arities,
            rule,
            tree,
            #[trigger] plan[i],
        ) by {
            if i < left.0.len() {
                assert(plan[i] == left.0[i]);
            } else if i < left.0.len() + right.0.len() {
                assert(plan[i] == right.0[i - left.0.len()]);
            } else {
                assert(plan[i] == root);
            }
        }
    }
}

proof fn lemma_clear_front(arities: Arities, plans: Seq<RulePlanModel>)
    requires
        are_clear_plans(arities, plans),
        plans.len() > 0,
    ensures
        are_clear_plans(arities, plans.drop_last()),
        is_clear_plan(arities, plans.last()),
        is_placed(
            arities,
            plans.last().rule,
            plans.last().steps.tree,
            plans.last().steps.last,
        ),
{
    assert(is_clear_plan(arities, plans[plans.len() - 1]));
    assert forall|i: int| 0 <= i < plans.drop_last().len() implies is_clear_plan(
        arities,
        #[trigger] plans.drop_last()[i],
    ) by {
        assert(plans.drop_last()[i] == plans[i]);
    }
}

/// Whether all steps stand in some plans.
pub open spec fn are_of_plans(
    arities: Arities,
    plans: Seq<RulePlanModel>,
    steps: Seq<TransformationModel>,
) -> bool {
    forall|i: int| 0 <= i < steps.len() ==> is_of_plans(arities, plans, #[trigger] steps[i])
}

/// Steps of plans in front and of the last plan stand in the plans.
proof fn lemma_of_plans(
    arities: Arities,
    plans: Seq<RulePlanModel>,
    front: Seq<TransformationModel>,
    row: Seq<TransformationModel>,
)
    requires
        plans.len() > 0,
        are_of_plans(arities, plans.drop_last(), front),
        forall|i: int|
            0 <= i < row.len() ==> is_placed(
                arities,
                plans.last().rule,
                plans.last().steps.tree,
                #[trigger] row[i],
            ),
    ensures
        are_of_plans(arities, plans, front + row),
{
    let all = front + row;
    assert forall|i: int| 0 <= i < all.len() implies is_of_plans(
        arities,
        plans,
        #[trigger] all[i],
    ) by {
        if i < front.len() {
            assert(all[i] == front[i]);
            let k = choose|k: int|
                0 <= k < plans.drop_last().len() && is_placed(
                    arities,
                    (#[trigger] plans.drop_last()[k]).rule,
                    plans.drop_last()[k].steps.tree,
                    front[i],
                );
            assert(plans[k] == plans.drop_last()[k]);
        } else {
            assert(all[i] == row[i - front.len()]);
            assert(plans[plans.len() - 1] == plans.last());
        }
    }
}

/// The steps of a group without recursion, whether steps are shared or not.
pub proof fn lemma_rows(
    arities: Arities,
    plans: Seq<RulePlanModel>,
    seen: Set<CollectionSignatureModel>,
    disable_sharing: bool,
)
    requires
        are_clear_plans(arities, plans),
    ensures
        ({
            let (rows, after) = rows_of(plans, seen, disable_sharing);
            &&& is_ordered(flat(rows), seen)
            &&& are_of_plans(arities, plans, flat(rows))
            &&& after.subset_of(seen.union(outputs(flat(rows))))
            &&& forall|k: int|
                0 <= k < plans.len() ==> seen.union(outputs(flat(rows))).contains(
                    put_out((#[trigger] plans[k]).steps.last),
                )
        }),
    decreases plans.len(),
{
    let (rows, after) = rows_of(plans, seen, disable_sharing);
    if plans.len() == 0 {
        assert(flat(rows) =~= Seq::empty());
    } else {
        lemma_clear_front(arities, plans);
        lemma_rows(arities, plans.drop_last(), seen, disable_sharing);
        let front = rows_of(plans.drop_last(), seen, disable_sharing);
        let steps = plans.last().steps;
        let from = if disable_sharing {
            Set::empty()
        } else {
            front.1
        };
        let row = plan_of(steps.tree, steps.last, from);
        law_steps_come_in_order(plans.last().rule, steps, from);
        lemma_plan_is_placed(arities, plans.last().rule, steps.tree, steps.last, from);
        assert(rows.drop_last() =~= front.0);
        assert(flat(rows) == flat(front.0) + row.0);
        let done = seen.union(outputs(flat(front.0)));
        lemma_ordered_more(row.0, from, done);
        lemma_ordered_add(flat(front.0), row.0, seen);
        lemma_outputs_add(flat(front.0), row.0);
        lemma_of_plans(arities, plans, flat(front.0), row.0);
        let all = seen.union(outputs(flat(rows)));
        assert forall|k: int| 0 <= k < plans.len() implies all.contains(
            put_out((#[trigger] plans[k]).steps.last),
        ) by {
            if k < plans.len() - 1 {
                assert(plans.drop_last()[k] == plans[k]);
                assert(done.contains(put_out(plans[k].steps.last)));
            } else {
                assert(row.1.contains(put_out(steps.last)));
            }
        }
    }
}

/// Whether a step puts out a collection.
pub open spec fn is_output(arities: Arities, s: CollectionSignatureModel) -> bool {
    exists|step: TransformationModel| #[trigger] is_told(arities, step) && put_out(step) == s
}

/// What is brought in for the steps of a plan was seen outside, or is a relation
/// that the rule mentions.
proof fn lemma_scope(
    arities: Arities,
    rule: FLRuleModel,
    tree: Map<TransformationModel, (TransformationModel, TransformationModel)>,
    root: TransformationModel,
    seen: Set<CollectionSignatureModel>,
    nested: Set<CollectionSignatureModel>,
)
    requires
        is_placed(arities, rule, tree, root),
    ensures
        forall|s: CollectionSignatureModel| #[trigger]
            nested_plan_of(tree, root, seen, nested).1.contains(s) ==> (seen.contains(s)
                && is_output(arities, s)) || (s is Atom && mentions(rule, s.name())),
    decreases unseen(tree, nested),
{
    assert(is_told(arities, root));
    if !seen.contains(put_out(root)) && !nested.contains(put_out(root)) {
        if tree.contains_key(root) {
            let marked = nested.insert(put_out(root));
            let (l, r) = tree[root];
            let left = nested_plan_of(tree, l, seen, marked);
            assert(is_link(rule, tree, Set::empty(), root));
            lemma_unseen(tree, root, nested, marked);
            lemma_unseen(tree, root, nested, marked.union(left.2));
            lemma_scope(arities, rule, tree, l, seen, marked);
            lemma_scope(arities, rule, tree, r, seen, marked.union(left.2));
            let right = nested_plan_of(tree, r, seen, marked.union(left.2));
            assert forall|s: CollectionSignatureModel| #[trigger]
                nested_plan_of(tree, root, seen, nested).1.contains(s) implies (seen.contains(s)
                && is_output(arities, s)) || (s is Atom && mentions(rule, s.name())) by {
                assert(left.1.contains(s) || right.1.contains(s));
            }
        } else {
            assert(is_leaf(rule, root));
        }
    }
}

/// Whether one of some rules mentions a relation.
pub open spec fn is_mentioned(plans: Seq<RulePlanModel>, name: Seq<char>) -> bool {
    exists|k: int| 0 <= k < plans.len() && mentions((#[trigger] plans[k]).rule, name)
}

/// The steps of a recursive group, whether steps are shared or not.
pub proof fn lemma_nested_rows(
    arities: Arities,
    plans: Seq<RulePlanModel>,
    seen: Set<CollectionSignatureModel>,
    disable_sharing: bool,
)
    requires
        are_clear_plans(arities, plans),
    ensures
        ({
            let (rows, scope, nested) = nested_rows_of(plans, seen, disable_sharing);
            let all = flat(rows);
            &&& is_ordered(all, scope)
            &&& are_of_plans(arities, plans, all)
            &&& nested.subset_of(outputs(all))
            &&& forall|k: int|
                0 <= k < plans.len() ==> scope.union(outputs(all)).contains(
                    put_out((#[trigger] plans[k]).steps.last),
                )
            &&& forall|s: CollectionSignatureModel| #[trigger]
                scope.contains(s) ==> (seen.contains(s) && is_output(arities, s)) || (s is Atom
                    && is_mentioned(plans, s.name()))
            &&& forall|i: int|
                0 <= i < all.len() && (#[trigger] all[i]).is_unary() ==> scope.contains(
                    all[i].input.signature,
                )
        }),
    decreases plans.len(),
{
    let (rows, scope, nested) = nested_rows_of(plans, seen, disable_sharing);
    let all = flat(rows);
    if plans.len() == 0 {
        assert(all =~= Seq::empty());
    } else {
        lemma_clear_front(arities, plans);
        lemma_nested_rows(arities, plans.drop_last(), seen, disable_sharing);
        let front = nested_rows_of(plans.drop_last(), seen, disable_sharing);
        let first = flat(front.0);
        let rule = plans.last().rule;
        let steps = plans.last().steps;
        let (outside, inside) = if disable_sharing {
            (Set::empty(), Set::empty())
        } else {
            (seen, front.2)
        };
        let row = nested_plan_of(steps.tree, steps.last, outside, inside);
        law_nested_steps_come_in_order(rule, steps, outside, inside);
        lemma_scope(arities, rule, steps.tree, steps.last, outside, inside);
        lemma_nested_is_plain(steps.tree, steps.last, outside, inside);
        lemma_plan_is_placed(arities, rule, steps.tree, steps.last, outside.union(inside));
        assert(rows.drop_last() =~= front.0);
        assert(all == first + row.0);
        lemma_ordered_more(first, front.1, scope);
        lemma_ordered_more(row.0, row.1.union(inside), scope.union(outputs(first)));
        lemma_ordered_add(first, row.0, scope);
        lemma_outputs_add(first, row.0);
        lemma_of_plans(arities, plans, first, row.0);
        let known = scope.union(outputs(all));
        assert forall|k: int| 0 <= k < plans.len() implies known.contains(
            put_out((#[trigger] plans[k]).steps.last),
        ) by {
            if k < plans.len() - 1 {
                assert(plans.drop_last()[k] == plans[k]);
                assert(front.1.union(outputs(first)).contains(put_out(plans[k].steps.last)));
            } else {
                assert(row.1.union(row.2).contains(put_out(steps.last)));
            }
        }
        assert forall|s: CollectionSignatureModel| #[trigger] scope.contains(s) implies (
        seen.contains(s) && is_output(arities, s)) || (s is Atom && is_mentioned(
            plans,
            s.name(),
        )) by {
            if front.1.contains(s) {
                if !(seen.contains(s) && is_output(arities, s)) {
                    let k = choose|k: int|
                        0 <= k < plans.drop_last().len() && mentions(
                            (#[trigger] plans.drop_last()[k]).rule,
                            s.name(),
                        );
                    assert(plans[k] == plans.drop_last()[k]);
                }
            } else {
                assert(row.1.contains(s));
                assert(plans[plans.len() - 1] == plans.last());
            }
        }
        assert forall|i: int| 0 <= i < all.len() && (
        #[trigger] all[i]).is_unary() implies scope.contains(all[i].input.signature) by {
            if i < first.len() {
                assert(all[i] == first[i]);
                assert(front.1.contains(first[i].input.signature));
            } else {
                assert(all[i] == row.0[i - first.len()]);
                assert(row.1.contains(row.0[i - first.len()].input.signature));
            }
        }
    }
}

} // verus!
