//! Running the steps of a plan one after the other.
use vstd::prelude::*;
use crate::catalog::body::{are_positions_small, atoms_of, comparisons};
use crate::catalog::query::head_vars;
use crate::catalog::rule::is_core;
use crate::executing::deriving::can_run;
use crate::executing::heads::head_row_of;
use crate::executing::meaning::{is_answer, is_derived, is_joined, is_kept_as, makes, Database};
use crate::executing::names::{is_clear, is_clear_tree, law_names_tell_steps_apart, Arities};
use crate::executing::plans::{is_derived_row, law_plan_derives_the_rule};
use crate::executing::shapes::{ids_in, is_shaped, lemma_tree_steps_shape, name_len};
use crate::optimizing::covering::joins_core;
use crate::optimizing::join_tree::JoinTree;
use crate::parsing::head::HeadModel;
use crate::parsing::rule::FLRuleModel;
use crate::planning::collections::CollectionSignatureModel;
use crate::planning::linking::{
    is_fed, is_leaf, is_link, is_linked, is_linked_to, law_plan_is_linked,
};
use crate::planning::reading_flows::is_plain_flow;
use crate::planning::rule::rule_steps;
use crate::planning::sharing::{
    law_steps_come_in_order, lemma_nested_is_plain, lemma_unseen, nested_plan_of, outputs, plan_of,
    put_out, unseen,
};
use crate::planning::steps::StepsModel;
use crate::planning::transformations::TransformationModel;

verus! {

/// Which rows are held under which signature.
pub type Holdings = spec_fn(CollectionSignatureModel, Seq<i64>) -> bool;

/// Whether a step puts out a row, by what is held.
pub open spec fn step_output(
    db: Database,
    held: Holdings,
    step: TransformationModel,
    row: Seq<i64>,
) -> bool {
    let left = step.input.signature;
    let right = step.second->0.signature;
    if step.is_unary() {
        exists|input: Seq<i64>, key: Seq<i64>, value: Seq<i64>|
            db(left.name(), input) && #[trigger] is_derived(step, input, key, value, row)
    } else if step.kind is NjKvK || step.kind is NjKK {
        exists|key: Seq<i64>, value: Seq<i64>|
            held(left, key + value) && !held(right, key) && #[trigger] is_kept_as(
                step,
                key,
                value,
                row,
            )
    } else {
        exists|key: Seq<i64>, left_value: Seq<i64>, right_value: Seq<i64>|
            held(left, key + left_value) && held(right, key + right_value)
                && #[trigger] is_joined(step, key, left_value, right_value, row)
    }
}

/// What is held after a step: what it puts out, under the signature of its output.
pub open spec fn after_step(db: Database, held: Holdings, step: TransformationModel) -> Holdings {
    |signature: CollectionSignatureModel, row: Seq<i64>|
        if signature == put_out(step) {
            step_output(db, held, step, row)
        } else {
            held(signature, row)
        }
}

/// What is held after steps, one after the other.
pub open spec fn after_steps(
    db: Database,
    held: Holdings,
    steps: Seq<TransformationModel>,
) -> Holdings
    decreases steps.len(),
{
    if steps.len() == 0 {
        held
    } else {
        after_step(db, after_steps(db, held, steps.drop_last()), steps.last())
    }
}

pub proof fn lemma_after_both(
    db: Database,
    held: Holdings,
    a: Seq<TransformationModel>,
    b: Seq<TransformationModel>,
)
    ensures
        after_steps(db, held, a + b) == after_steps(db, after_steps(db, held, a), b),
    decreases b.len(),
{
    if b.len() == 0 {
        assert(a + b =~= a);
    } else {
        lemma_after_both(db, held, a, b.drop_last());
        assert((a + b).drop_last() =~= a + b.drop_last());
        assert((a + b).last() == b.last());
    }
}

/// Whether a step belongs to a tree: its root, a step of the tree, or one that
/// brings about an input of a step of the tree.
pub open spec fn is_node(
    tree: Map<TransformationModel, (TransformationModel, TransformationModel)>,
    root: TransformationModel,
    step: TransformationModel,
) -> bool {
    step == root || tree.contains_key(step) || exists|above: TransformationModel|
        tree.contains_key(above) && (step == (#[trigger] tree[above]).0 || step == tree[above].1)
}

/// Whether steps of a tree that share a signature put out the same rows.
pub open spec fn tells_apart(
    db: Database,
    tree: Map<TransformationModel, (TransformationModel, TransformationModel)>,
    root: TransformationModel,
) -> bool {
    forall|a: TransformationModel, b: TransformationModel, row: Seq<i64>|
        is_node(tree, root, a) && is_node(tree, root, b) && put_out(a) == put_out(b)
            ==> #[trigger] makes(db, tree, a, row) == #[trigger] makes(db, tree, b, row)
}

/// Whether the rows of a step are held under the signature of its output.
pub open spec fn is_held(
    db: Database,
    held: Holdings,
    tree: Map<TransformationModel, (TransformationModel, TransformationModel)>,
    step: TransformationModel,
) -> bool {
    forall|row: Seq<i64>| #[trigger]
        makes(db, tree, step, row) <==> held(put_out(step), row)
}

/// Whether the rows of all steps that have been seen, up to a length of names, are
/// held.
spec fn are_held(
    db: Database,
    held: Holdings,
    tree: Map<TransformationModel, (TransformationModel, TransformationModel)>,
    root: TransformationModel,
    seen: Set<CollectionSignatureModel>,
    upto: nat,
) -> bool {
    forall|step: TransformationModel| #[trigger]
        is_node(tree, root, step) && seen.contains(put_out(step)) && name_len(step) <= upto
            ==> is_held(db, held, tree, step)
}

/// Whether what is held under some signatures has not changed.
spec fn is_unchanged(
    before: Holdings,
    after: Holdings,
    seen: Set<CollectionSignatureModel>,
) -> bool {
    forall|signature: CollectionSignatureModel, row: Seq<i64>|
        seen.contains(signature) ==> #[trigger] after(signature, row) == before(signature, row)
}

/// What running the steps of a plan comes to.
spec fn has_run(
    db: Database,
    held: Holdings,
    tree: Map<TransformationModel, (TransformationModel, TransformationModel)>,
    top: TransformationModel,
    root: TransformationModel,
    seen: Set<CollectionSignatureModel>,
) -> bool {
    let plan = plan_of(tree, root, seen).0;
    let after = after_steps(db, held, plan);
    &&& is_unchanged(held, after, seen)
    &&& forall|i: int|
        0 <= i < plan.len() ==> is_node(tree, top, #[trigger] plan[i]) && name_len(plan[i])
            <= name_len(root) && is_held(db, after, tree, plan[i])
    &&& is_held(db, after, tree, root)
}

/// What was held is held where it has not changed.
proof fn lemma_still_held(
    db: Database,
    before: Holdings,
    after: Holdings,
    tree: Map<TransformationModel, (TransformationModel, TransformationModel)>,
    seen: Set<CollectionSignatureModel>,
    step: TransformationModel,
)
    requires
        is_unchanged(before, after, seen),
        seen.contains(put_out(step)),
        is_held(db, before, tree, step),
    ensures
        is_held(db, after, tree, step),
{
    assert forall|row: Seq<i64>| #[trigger] makes(db, tree, step, row) <==> after(
        put_out(step),
        row,
    ) by {
        assert(after(put_out(step), row) == before(put_out(step), row));
    }
}

/// The last step of a plan, on what the steps for its inputs put out.
proof fn lemma_root_runs(
    rule: FLRuleModel,
    db: Database,
    held: Holdings,
    tree: Map<TransformationModel, (TransformationModel, TransformationModel)>,
    root: TransformationModel,
)
    requires
        is_linked_to(rule, tree, Set::empty()),
        tree.contains_key(root),
        is_held(db, held, tree, tree[root].0),
        is_held(db, held, tree, tree[root].1),
    ensures
        is_held(db, after_step(db, held, root), tree, root),
{
    let (left, right) = tree[root];
    assert(is_link(rule, tree, Set::empty(), root));
    assert(!root.is_unary());
    let after = after_step(db, held, root);
    assert forall|row: Seq<i64>| #[trigger] makes(db, tree, root, row) <==> after(
        put_out(root),
        row,
    ) by {
        if root.kind is NjKvK || root.kind is NjKK {
            if makes(db, tree, root, row) {
                let (key, value) = choose|key: Seq<i64>, value: Seq<i64>|
                    makes(db, tree, left, key + value) && !makes(db, tree, right, key)
                        && #[trigger] is_kept_as(root, key, value, row);
                assert(held(put_out(left), key + value));
                assert(!held(put_out(right), key));
            }
            if step_output(db, held, root, row) {
                let (key, value) = choose|key: Seq<i64>, value: Seq<i64>|
                    held(put_out(left), key + value) && !held(put_out(right), key)
                        && #[trigger] is_kept_as(root, key, value, row);
                assert(makes(db, tree, left, key + value));
                assert(!makes(db, tree, right, key));
            }
        } else {
            if makes(db, tree, root, row) {
                let (key, a, b) = choose|key: Seq<i64>, a: Seq<i64>, b: Seq<i64>|
                    makes(db, tree, left, key + a) && makes(db, tree, right, key + b)
                        && #[trigger] is_joined(root, key, a, b, row);
                assert(held(put_out(left), key + a));
                assert(held(put_out(right), key + b));
            }
            if step_output(db, held, root, row) {
                let (key, a, b) = choose|key: Seq<i64>, a: Seq<i64>, b: Seq<i64>|
                    held(put_out(left), key + a) && held(put_out(right), key + b)
                        && #[trigger] is_joined(root, key, a, b, row);
                assert(makes(db, tree, left, key + a));
                assert(makes(db, tree, right, key + b));
            }
        }
    }
}

/// A step on a relation that is run on its own.
proof fn lemma_leaf_runs(
    rule: FLRuleModel,
    db: Database,
    held: Holdings,
    tree: Map<TransformationModel, (TransformationModel, TransformationModel)>,
    root: TransformationModel,
)
    requires
        is_leaf(rule, root),
        !tree.contains_key(root),
    ensures
        is_held(db, after_step(db, held, root), tree, root),
{
}

/// Running the steps of a plan holds the rows of its root.
proof fn lemma_plan_runs(
    rule: FLRuleModel,
    db: Database,
    held: Holdings,
    tree: Map<TransformationModel, (TransformationModel, TransformationModel)>,
    top: TransformationModel,
    root: TransformationModel,
    seen: Set<CollectionSignatureModel>,
)
    requires
        is_linked_to(rule, tree, Set::empty()),
        is_fed(rule, tree, Set::empty(), root),
        is_node(tree, top, root),
        tells_apart(db, tree, top),
        are_held(db, held, tree, top, seen, name_len(root)),
    ensures
        has_run(db, held, tree, top, root, seen),
    decreases unseen(tree, seen),
{
    let plan = plan_of(tree, root, seen).0;
    if seen.contains(put_out(root)) {
        assert(plan =~= Seq::empty());
        assert(is_held(db, held, tree, root));
    } else if !tree.contains_key(root) {
        assert(plan =~= seq![root]);
        assert(plan.drop_last() =~= Seq::empty());
        assert(is_leaf(rule, root));
        assert(after_steps(db, held, plan.drop_last()) == held);
        assert(after_steps(db, held, plan) == after_step(db, held, root));
        lemma_leaf_runs(rule, db, held, tree, root);
    } else {
        let marked = seen.insert(put_out(root));
        let (l, r) = tree[root];
        let left = plan_of(tree, l, marked);
        let right = plan_of(tree, r, marked.union(left.1));
        assert(is_link(rule, tree, Set::empty(), root));
        lemma_unseen(tree, root, seen, marked);
        lemma_unseen(tree, root, seen, marked.union(left.1));
        assert(is_node(tree, top, l));
        assert(is_node(tree, top, r));
        assert(are_held(db, held, tree, top, marked, name_len(l))) by {
            assert forall|step: TransformationModel| #[trigger]
                is_node(tree, top, step) && marked.contains(put_out(step)) && name_len(step)
                    <= name_len(l) implies is_held(db, held, tree, step) by {
                assert(put_out(step) != put_out(root));
                assert(seen.contains(put_out(step)));
            }
        }
        lemma_plan_runs(rule, db, held, tree, top, l, marked);
        let first = after_steps(db, held, left.0);
        law_steps_come_in_order(rule, StepsModel { last: l, tree }, marked);
        let both = marked.union(left.1);
        assert(are_held(db, first, tree, top, both, name_len(r))) by {
            assert forall|step: TransformationModel| #[trigger]
                is_node(tree, top, step) && both.contains(put_out(step)) && name_len(step)
                    <= name_len(r) implies is_held(db, first, tree, step) by {
                assert(put_out(step) != put_out(root));
                if seen.contains(put_out(step)) {
                    assert(is_held(db, held, tree, step));
                    lemma_still_held(db, held, first, tree, marked, step);
                } else {
                    assert(outputs(left.0).contains(put_out(step)));
                    let i = choose|i: int|
                        0 <= i < left.0.len() && put_out(#[trigger] left.0[i]) == put_out(step);
                    lemma_same_rows(db, first, tree, top, left.0[i], step);
                }
            }
        }
        lemma_plan_runs(rule, db, first, tree, top, r, both);
        let second = after_steps(db, first, right.0);
        law_steps_come_in_order(rule, StepsModel { last: r, tree }, both);
        lemma_still_held(db, first, second, tree, both, l);
        lemma_root_runs(rule, db, second, tree, root);
        let after = after_step(db, second, root);
        assert(plan == left.0 + right.0 + seq![root]);
        lemma_after_both(db, held, left.0, right.0);
        lemma_after_both(db, held, left.0 + right.0, seq![root]);
        assert(seq![root].drop_last() =~= Seq::empty());
        assert(after_steps(db, second, Seq::empty()) == second);
        assert(after_steps(db, second, seq![root]) == after);
        assert(after_steps(db, held, plan) == after);
        assert(is_unchanged(held, after, seen)) by {
            assert forall|signature: CollectionSignatureModel, row: Seq<i64>|
                seen.contains(signature) implies #[trigger] after(signature, row) == held(
                signature,
                row,
            ) by {
                assert(first(signature, row) == held(signature, row));
                assert(second(signature, row) == first(signature, row));
            }
        }
        assert forall|i: int| 0 <= i < plan.len() implies is_node(tree, top, #[trigger] plan[i])
            && name_len(plan[i]) <= name_len(root) && is_held(db, after, tree, plan[i]) by {
            if i < left.0.len() {
                assert(plan[i] == left.0[i]);
                assert(!marked.contains(put_out(left.0[i])));
                assert(outputs(left.0).contains(put_out(left.0[i])));
                assert(left.1.contains(put_out(left.0[i])));
                lemma_still_held(db, first, second, tree, both, plan[i]);
                lemma_apart(db, second, tree, root, plan[i]);
            } else if i < left.0.len() + right.0.len() {
                let k = i - left.0.len();
                assert(plan[i] == right.0[k]);
                assert(!both.contains(put_out(right.0[k])));
                lemma_apart(db, second, tree, root, plan[i]);
            } else {
                assert(plan[i] == root);
            }
        }
    }
}

/// Steps that share a signature hold the same rows.
proof fn lemma_same_rows(
    db: Database,
    held: Holdings,
    tree: Map<TransformationModel, (TransformationModel, TransformationModel)>,
    top: TransformationModel,
    a: TransformationModel,
    b: TransformationModel,
)
    requires
        tells_apart(db, tree, top),
        is_node(tree, top, a),
        is_node(tree, top, b),
        put_out(a) == put_out(b),
        is_held(db, held, tree, a),
    ensures
        is_held(db, held, tree, b),
{
    assert forall|row: Seq<i64>| #[trigger] makes(db, tree, b, row) <==> held(put_out(b), row) by {
        assert(makes(db, tree, a, row) == makes(db, tree, b, row));
    }
}

/// One more step keeps what is held under other signatures.
proof fn lemma_apart(
    db: Database,
    held: Holdings,
    tree: Map<TransformationModel, (TransformationModel, TransformationModel)>,
    root: TransformationModel,
    step: TransformationModel,
)
    requires
        put_out(step) != put_out(root),
        is_held(db, held, tree, step),
    ensures
        is_held(db, after_step(db, held, root), tree, step),
{
    let after = after_step(db, held, root);
    assert forall|row: Seq<i64>| #[trigger] makes(db, tree, step, row) <==> after(
        put_out(step),
        row,
    ) by {}
}

/// Whether the constants of a step are numbers, and a relation that it reads has a
/// name without closing brackets and the columns that the relation has.
pub open spec fn is_readable(arities: Arities, step: TransformationModel) -> bool {
    &&& is_plain_flow(step.flow)
    &&& step.is_unary() ==> !step.input.signature.name().contains(')')
        && step.input.values.len() == arities(step.input.signature.name())
}

/// Whether all steps of a plan are readable.
pub open spec fn are_readable(arities: Arities, steps: StepsModel) -> bool {
    forall|step: TransformationModel| #[trigger]
        is_node(steps.tree, steps.last, step) ==> is_readable(arities, step)
}

/// Whether what is held under a signature are the rows of a step of some plan with
/// this signature.
pub open spec fn is_accounted(
    db: Database,
    arities: Arities,
    held: Holdings,
    signature: CollectionSignatureModel,
) -> bool {
    exists|
        rule: FLRuleModel,
        tree: Map<TransformationModel, (TransformationModel, TransformationModel)>,
        step: TransformationModel,
    | #[trigger]
        is_source(db, arities, held, signature, rule, tree, step)
}

pub open spec fn is_source(
    db: Database,
    arities: Arities,
    held: Holdings,
    signature: CollectionSignatureModel,
    rule: FLRuleModel,
    tree: Map<TransformationModel, (TransformationModel, TransformationModel)>,
    step: TransformationModel,
) -> bool {
    &&& is_linked_to(rule, tree, Set::empty())
    &&& is_fed(rule, tree, Set::empty(), step)
    &&& is_clear_tree(arities, tree)
    &&& is_clear(arities, step)
    &&& put_out(step) == signature
    &&& is_held(db, held, tree, step)
}

/// The steps of a plan that is readable are clear.
pub proof fn lemma_clear(arities: Arities, rule: FLRuleModel, steps: StepsModel, ids: Set<usize>)
    requires
        is_linked(rule, steps),
        is_shaped(steps, ids),
        are_readable(arities, steps),
    ensures
        is_clear_tree(arities, steps.tree),
        forall|step: TransformationModel| #[trigger]
            is_node(steps.tree, steps.last, step) ==> is_clear(arities, step) && is_fed(
                rule,
                steps.tree,
                Set::empty(),
                step,
            ),
{
    let tree = steps.tree;
    let last = steps.last;
    assert forall|step: TransformationModel| #[trigger] is_node(tree, last, step) implies is_clear(
        arities,
        step,
    ) && is_fed(rule, tree, Set::empty(), step) by {
        if step != last && !tree.contains_key(step) {
            let above = choose|above: TransformationModel|
                tree.contains_key(above) && (step == (#[trigger] tree[above]).0 || step
                    == tree[above].1);
            assert(is_link(rule, tree, Set::empty(), above));
        }
    }
    assert forall|step: TransformationModel| #[trigger] tree.contains_key(step) implies is_clear(
        arities,
        step,
    ) && is_clear(arities, tree[step].0) && is_clear(arities, tree[step].1) by {
        assert(is_link(rule, tree, Set::empty(), step));
        assert(is_node(tree, last, step));
        assert(is_node(tree, last, tree[step].0));
        assert(is_node(tree, last, tree[step].1));
    }
}

/// Whether a row is what a head stands for on values that are held under a
/// signature.
pub open spec fn stands_for(
    held: Holdings,
    signature: CollectionSignatureModel,
    head: HeadModel,
    row: Seq<i64>,
) -> bool {
    exists|values: Seq<i64>| #[trigger]
        held(signature, values) && head_row_of(head, values) == Some(row)
}

/// Running the steps of the plan of a rule one after the other leaves, under the
/// signature of the last step, the values for which the head stands for the answers
/// of the rule. Steps that have been run before, for this rule or for others, are not
/// run again, and nothing is lost by that; what is held after the steps is accounted
/// for as it was before them. This is said of plans whose joins read rows with
/// columns, of constants that are numbers, of relations whose names have no closing
/// brackets, and of relations that have one number of columns.
pub proof fn law_shared_steps_derive_the_rule(
    db: Database,
    arities: Arities,
    rule: FLRuleModel,
    shape: JoinTree,
    seen: Set<CollectionSignatureModel>,
    held: Holdings,
    row: Seq<i64>,
)
    requires
        are_positions_small(rule),
        comparisons(rule.rhs).len() <= usize::MAX,
        joins_core(rule, shape),
        rule_steps(rule, shape) is Some,
        can_run(rule_steps(rule, shape)->0.tree),
        are_readable(arities, rule_steps(rule, shape)->0),
        forall|signature: CollectionSignatureModel| #[trigger]
            seen.contains(signature) ==> is_accounted(db, arities, held, signature),
    ensures
        ({
            let steps = rule_steps(rule, shape)->0;
            let (plan, seen_after) = plan_of(steps.tree, steps.last, seen);
            let after = after_steps(db, held, plan);
            &&& stands_for(after, put_out(steps.last), rule.head, row) <==> is_answer(
                db,
                rule,
                row,
            )
            &&& forall|signature: CollectionSignatureModel| #[trigger]
                seen_after.contains(signature) ==> is_accounted(db, arities, after, signature)
        }),
{
    let steps = rule_steps(rule, shape)->0;
    let tree = steps.tree;
    let last = steps.last;
    let plan = plan_of(tree, last, seen).0;
    let after = after_steps(db, held, plan);
    law_plan_is_linked(rule, shape);
    lemma_rule_shape(rule, shape);
    lemma_clear(arities, rule, steps, ids_in(shape));
    assert(is_node(tree, last, last));
    assert(tells_apart(db, tree, last)) by {
        assert forall|a: TransformationModel, b: TransformationModel, row: Seq<i64>|
            is_node(tree, last, a) && is_node(tree, last, b) && put_out(a) == put_out(b) implies
        #[trigger] makes(db, tree, a, row) == #[trigger] makes(db, tree, b, row) by {
            law_names_tell_steps_apart(db, arities, rule, tree, a, rule, tree, b);
        }
    }
    assert(are_held(db, held, tree, last, seen, name_len(last))) by {
        assert forall|step: TransformationModel| #[trigger]
            is_node(tree, last, step) && seen.contains(put_out(step)) && name_len(step)
                <= name_len(last) implies is_held(db, held, tree, step) by {
            lemma_accounted_held(db, arities, held, rule, tree, step);
        }
    }
    lemma_plan_runs(rule, db, held, tree, last, last, seen);
    law_plan_derives_the_rule(db, rule, shape, row);
    assert(stands_for(after, put_out(last), rule.head, row) <==> is_derived_row(
        db,
        steps,
        rule.head,
        row,
    )) by {
        if stands_for(after, put_out(last), rule.head, row) {
            let values = choose|values: Seq<i64>| #[trigger]
                after(put_out(last), values) && head_row_of(rule.head, values) == Some(row);
            assert(makes(db, tree, last, values));
        }
        if is_derived_row(db, steps, rule.head, row) {
            let values = choose|values: Seq<i64>| #[trigger]
                makes(db, tree, last, values) && head_row_of(rule.head, values) == Some(row);
            assert(after(put_out(last), values));
        }
    }
    law_steps_come_in_order(rule, steps, seen);
    assert forall|signature: CollectionSignatureModel| #[trigger]
        plan_of(tree, last, seen).1.contains(signature) implies is_accounted(
        db,
        arities,
        after,
        signature,
    ) by {
        if seen.contains(signature) {
            let (other_rule, other, step) = choose|
                other_rule: FLRuleModel,
                other: Map<TransformationModel, (TransformationModel, TransformationModel)>,
                step: TransformationModel,
            | #[trigger]
                is_source(db, arities, held, signature, other_rule, other, step);
            lemma_still_held(db, held, after, other, seen, step);
            assert(is_source(db, arities, after, signature, other_rule, other, step));
        } else {
            let i = choose|i: int| 0 <= i < plan.len() && put_out(#[trigger] plan[i]) == signature;
            assert(is_node(tree, last, plan[i]));
            assert(is_source(db, arities, after, signature, rule, tree, plan[i]));
        }
    }
}

/// The same in each round of a recursive group, on the rows that the relations have
/// in that round: what was seen outside is not computed again but brought in, and
/// what was seen inside is there from the steps of other rules of the group.
pub proof fn law_nested_steps_derive_the_rule(
    db: Database,
    arities: Arities,
    rule: FLRuleModel,
    shape: JoinTree,
    seen: Set<CollectionSignatureModel>,
    nested: Set<CollectionSignatureModel>,
    held: Holdings,
    row: Seq<i64>,
)
    requires
        are_positions_small(rule),
        comparisons(rule.rhs).len() <= usize::MAX,
        joins_core(rule, shape),
        rule_steps(rule, shape) is Some,
        can_run(rule_steps(rule, shape)->0.tree),
        are_readable(arities, rule_steps(rule, shape)->0),
        forall|signature: CollectionSignatureModel| #[trigger]
            seen.contains(signature) ==> is_accounted(db, arities, held, signature),
        forall|signature: CollectionSignatureModel| #[trigger]
            nested.contains(signature) ==> is_accounted(db, arities, held, signature),
    ensures
        ({
            let steps = rule_steps(rule, shape)->0;
            let (plan, scope, nested_after) = nested_plan_of(steps.tree, steps.last, seen, nested);
            let after = after_steps(db, held, plan);
            &&& stands_for(after, put_out(steps.last), rule.head, row) <==> is_answer(
                db,
                rule,
                row,
            )
            &&& forall|signature: CollectionSignatureModel| #[trigger]
                seen.contains(signature) ==> is_accounted(db, arities, after, signature)
            &&& forall|signature: CollectionSignatureModel| #[trigger]
                nested_after.contains(signature) ==> is_accounted(db, arities, after, signature)
        }),
{
    let steps = rule_steps(rule, shape)->0;
    let all = seen.union(nested);
    let (plan, scope, nested_after) = nested_plan_of(steps.tree, steps.last, seen, nested);
    law_plan_is_linked(rule, shape);
    lemma_nested_is_plain(steps.tree, steps.last, seen, nested);
    law_shared_steps_derive_the_rule(db, arities, rule, shape, all, held, row);
    let after = after_steps(db, held, plan);
    assert forall|signature: CollectionSignatureModel| #[trigger]
        seen.contains(signature) implies is_accounted(db, arities, after, signature) by {
        assert(seen.union(nested_after).contains(signature));
    }
    assert forall|signature: CollectionSignatureModel| #[trigger]
        nested_after.contains(signature) implies is_accounted(db, arities, after, signature) by {
        assert(seen.union(nested_after).contains(signature));
    }
}

/// What is held under the signature of a step of a plan are its rows, where it is
/// accounted for.
pub proof fn lemma_accounted_held(
    db: Database,
    arities: Arities,
    held: Holdings,
    rule: FLRuleModel,
    tree: Map<TransformationModel, (TransformationModel, TransformationModel)>,
    step: TransformationModel,
)
    requires
        is_linked_to(rule, tree, Set::empty()),
        is_fed(rule, tree, Set::empty(), step),
        is_clear_tree(arities, tree),
        is_clear(arities, step),
        is_accounted(db, arities, held, put_out(step)),
    ensures
        is_held(db, held, tree, step),
{
    let (other_rule, other, source) = choose|
        other_rule: FLRuleModel,
        other: Map<TransformationModel, (TransformationModel, TransformationModel)>,
        source: TransformationModel,
    | #[trigger]
        is_source(db, arities, held, put_out(step), other_rule, other, source);
    law_names_tell_steps_apart(db, arities, other_rule, other, source, rule, tree, step);
    assert forall|row: Seq<i64>| #[trigger] makes(db, tree, step, row) <==> held(
        put_out(step),
        row,
    ) by {
        assert(makes(db, other, source, row) <==> makes(db, tree, step, row));
        assert(makes(db, other, source, row) <==> held(put_out(source), row));
    }
}

/// The steps of the plan of a rule are named by what they do.
pub proof fn lemma_rule_shape(rule: FLRuleModel, shape: JoinTree)
    requires
        joins_core(rule, shape),
        rule_steps(rule, shape) is Some,
    ensures
        is_shaped(rule_steps(rule, shape)->0, ids_in(shape)),
{
    lemma_tree_steps_shape(
        rule,
        shape,
        shape.preorder(),
        Seq::empty(),
        head_vars(rule.head.head_arguments),
        Seq::new(atoms_of(rule, false).len(), |i: int| true),
        Seq::new(atoms_of(rule, true).len(), |i: int| !is_core(rule, i)),
        Seq::new(comparisons(rule.rhs).len(), |i: int| i as usize),
    );
}

} // verus!
