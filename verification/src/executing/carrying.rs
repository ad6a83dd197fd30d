//! Carrying out the steps of groups of rules.
use vstd::prelude::*;
use crate::catalog::body::{are_positions_small, comparisons};
use crate::executing::deriving::can_run;
use crate::executing::heads::head_row_of;
use crate::executing::meaning::{is_answer, makes, Database};
use crate::executing::names::Arities;
use crate::executing::plans::{is_derived_row, law_plan_derives_the_rule};
use crate::executing::running::{
    after_steps, are_readable, is_accounted, is_node, is_source, lemma_accounted_held,
    lemma_after_both, lemma_clear, lemma_rule_shape, law_shared_steps_derive_the_rule, stands_for,
    Holdings,
};
use crate::executing::shapes::ids_in;
use crate::optimizing::covering::joins_core;
use crate::optimizing::join_tree::JoinTree;
use crate::parsing::rule::FLRuleModel;
use crate::planning::collections::CollectionSignatureModel;
use crate::planning::linking::law_plan_is_linked;
use crate::planning::rule::{rule_steps, RulePlanModel};
use crate::planning::sharing::{
    law_steps_come_in_order, lemma_nested_is_plain, lemma_outputs_add, nested_plan_of, outputs,
    plan_of, put_out,
};
use crate::planning::strata::{flat, nested_rows_of, rows_of};
use crate::planning::transformations::TransformationModel;

verus! {

/// Whether a rule is planned by a tree of its atoms, with steps that can be run and
/// read.
pub open spec fn is_planned_by(
    arities: Arities,
    plan: RulePlanModel,
    shape: JoinTree,
) -> bool {
    &&& are_positions_small(plan.rule)
    &&& comparisons(plan.rule.rhs).len() <= usize::MAX
    &&& joins_core(plan.rule, shape)
    &&& rule_steps(plan.rule, shape) == Some(plan.steps)
    &&& can_run(plan.steps.tree)
    &&& are_readable(arities, plan.steps)
}

/// Whether a rule is planned by some tree of its atoms.
#[verifier::opaque]
pub open spec fn is_runnable_plan(arities: Arities, plan: RulePlanModel) -> bool {
    exists|shape: JoinTree| #[trigger] is_planned_by(arities, plan, shape)
}

pub open spec fn are_runnable_plans(arities: Arities, plans: Seq<RulePlanModel>) -> bool {
    forall|i: int| 0 <= i < plans.len() ==> is_runnable_plan(arities, #[trigger] plans[i])
}

/// Whether what is held under some signatures is accounted for.
#[verifier::opaque]
pub open spec fn are_accounted(
    db: Database,
    arities: Arities,
    held: Holdings,
    signatures: Set<CollectionSignatureModel>,
) -> bool {
    forall|signature: CollectionSignatureModel| #[trigger]
        signatures.contains(signature) ==> is_accounted(db, arities, held, signature)
}

/// Steps change only what they put out.
proof fn lemma_others_stay(
    db: Database,
    held: Holdings,
    steps: Seq<TransformationModel>,
    signature: CollectionSignatureModel,
    row: Seq<i64>,
)
    requires
        !outputs(steps).contains(signature),
    ensures
        after_steps(db, held, steps)(signature, row) == held(signature, row),
    decreases steps.len(),
{
    if steps.len() > 0 {
        let front = steps.drop_last();
        assert(!outputs(front).contains(signature)) by {
            if outputs(front).contains(signature) {
                let i = choose|i: int|
                    0 <= i < front.len() && put_out(#[trigger] front[i]) == signature;
                assert(put_out(steps[i]) == signature);
            }
        }
        lemma_others_stay(db, held, front, signature, row);
        assert(put_out(steps[steps.len() - 1]) != signature);
    }
}

/// Running the steps of one more rule keeps what is accounted for.
proof fn lemma_one_more_rule(
    db: Database,
    arities: Arities,
    held: Holdings,
    plan: RulePlanModel,
    from: Set<CollectionSignatureModel>,
    all: Set<CollectionSignatureModel>,
)
    requires
        is_runnable_plan(arities, plan),
        are_accounted(db, arities, held, all),
        from.subset_of(all),
    ensures
        ({
            let row = plan_of(plan.steps.tree, plan.steps.last, from);
            &&& are_accounted(
                db,
                arities,
                after_steps(db, held, row.0),
                all.union(outputs(row.0)),
            )
            &&& row.1 == from.union(outputs(row.0))
            &&& row.1.contains(put_out(plan.steps.last))
        }),
{
    reveal(are_accounted);
    reveal(is_runnable_plan);
    let shape = choose|shape: JoinTree| #[trigger] is_planned_by(arities, plan, shape);
    let row = plan_of(plan.steps.tree, plan.steps.last, from);
    let after = after_steps(db, held, row.0);
    law_plan_is_linked(plan.rule, shape);
    law_steps_come_in_order(plan.rule, plan.steps, from);
    law_shared_steps_derive_the_rule(
        db,
        arities,
        plan.rule,
        shape,
        from,
        held,
        Seq::empty(),
    );
    assert forall|signature: CollectionSignatureModel| #[trigger]
        all.union(outputs(row.0)).contains(signature) implies is_accounted(
        db,
        arities,
        after,
        signature,
    ) by {
        if row.1.contains(signature) {
        } else {
            let (rule, tree, step) = choose|
                rule: FLRuleModel,
                tree: Map<TransformationModel, (TransformationModel, TransformationModel)>,
                step: TransformationModel,
            | #[trigger]
                is_source(db, arities, held, signature, rule, tree, step);
            assert forall|row: Seq<i64>| #[trigger] makes(db, tree, step, row) <==> after(
                put_out(step),
                row,
            ) by {
                lemma_others_stay(
                    db,
                    held,
                    plan_of(plan.steps.tree, plan.steps.last, from).0,
                    signature,
                    row,
                );
                assert(makes(db, tree, step, row) <==> held(put_out(step), row));
            }
            assert(is_source(db, arities, after, signature, rule, tree, step));
        }
    }
}

proof fn lemma_runnable_front(arities: Arities, plans: Seq<RulePlanModel>)
    requires
        are_runnable_plans(arities, plans),
        plans.len() > 0,
    ensures
        are_runnable_plans(arities, plans.drop_last()),
        is_runnable_plan(arities, plans.last()),
{
    assert(plans[plans.len() - 1] == plans.last());
    assert forall|i: int| 0 <= i < plans.drop_last().len() implies is_runnable_plan(
        arities,
        #[trigger] plans.drop_last()[i],
    ) by {
        assert(plans.drop_last()[i] == plans[i]);
    }
}

/// Running the steps of one more rule behind others.
proof fn lemma_steps_behind(
    db: Database,
    arities: Arities,
    held: Holdings,
    plan: RulePlanModel,
    front: Seq<TransformationModel>,
    from: Set<CollectionSignatureModel>,
    seen: Set<CollectionSignatureModel>,
)
    requires
        is_runnable_plan(arities, plan),
        are_accounted(
            db,
            arities,
            after_steps(db, held, front),
            seen.union(outputs(front)),
        ),
        from.subset_of(seen.union(outputs(front))),
    ensures
        ({
            let row = plan_of(plan.steps.tree, plan.steps.last, from);
            let all = seen.union(outputs(front + row.0));
            &&& are_accounted(db, arities, after_steps(db, held, front + row.0), all)
            &&& row.1.subset_of(all)
            &&& all.contains(put_out(plan.steps.last))
            &&& seen.union(outputs(front)).subset_of(all)
        }),
{
    let row = plan_of(plan.steps.tree, plan.steps.last, from);
    let done = seen.union(outputs(front));
    lemma_one_more_rule(db, arities, after_steps(db, held, front), plan, from, done);
    lemma_after_both(db, held, front, row.0);
    lemma_outputs_add(front, row.0);
    assert(seen.union(outputs(front + row.0)) =~= done.union(outputs(row.0)));
}

/// Whether the last steps of rules put out some collections.
pub open spec fn are_last_in(
    plans: Seq<RulePlanModel>,
    all: Set<CollectionSignatureModel>,
) -> bool {
    forall|k: int|
        0 <= k < plans.len() ==> all.contains(put_out((#[trigger] plans[k]).steps.last))
}

proof fn lemma_last_in(
    plans: Seq<RulePlanModel>,
    before: Set<CollectionSignatureModel>,
    all: Set<CollectionSignatureModel>,
)
    requires
        plans.len() > 0,
        are_last_in(plans.drop_last(), before),
        before.subset_of(all),
        all.contains(put_out(plans.last().steps.last)),
    ensures
        are_last_in(plans, all),
{
    assert forall|k: int| 0 <= k < plans.len() implies all.contains(
        put_out((#[trigger] plans[k]).steps.last),
    ) by {
        if k < plans.len() - 1 {
            assert(plans.drop_last()[k] == plans[k]);
        }
    }
}

/// Running the steps of rules one after the other keeps what is accounted for.
proof fn lemma_rows_run(
    db: Database,
    arities: Arities,
    held: Holdings,
    plans: Seq<RulePlanModel>,
    seen: Set<CollectionSignatureModel>,
    disable_sharing: bool,
)
    requires
        are_runnable_plans(arities, plans),
        are_accounted(db, arities, held, seen),
    ensures
        ({
            let rows = rows_of(plans, seen, disable_sharing);
            let all = seen.union(outputs(flat(rows.0)));
            &&& are_accounted(db, arities, after_steps(db, held, flat(rows.0)), all)
            &&& rows.1.subset_of(all)
            &&& are_last_in(plans, all)
        }),
    decreases plans.len(),
{
    let rows = rows_of(plans, seen, disable_sharing);
    if plans.len() == 0 {
        assert(flat(rows.0) =~= Seq::empty());
        assert(seen.union(outputs(flat(rows.0))) =~= seen);
    } else {
        lemma_runnable_front(arities, plans);
        lemma_rows_run(db, arities, held, plans.drop_last(), seen, disable_sharing);
        let front = rows_of(plans.drop_last(), seen, disable_sharing);
        let from = if disable_sharing {
            Set::empty()
        } else {
            front.1
        };
        let steps = plans.last().steps;
        let row = plan_of(steps.tree, steps.last, from);
        lemma_steps_behind(db, arities, held, plans.last(), flat(front.0), from, seen);
        assert(rows.0 == front.0.push(row.0));
        assert(rows.0.drop_last() =~= front.0);
        assert(flat(rows.0) == flat(front.0) + row.0);
        assert(rows.1.subset_of(seen.union(outputs(flat(rows.0))))) by {
            if disable_sharing {
                assert(rows.1 == seen);
            } else {
                assert(rows.1 == row.1);
            }
        }
        lemma_last_in(
            plans,
            seen.union(outputs(flat(front.0))),
            seen.union(outputs(flat(rows.0))),
        );
    }
}

/// The same in a recursive group.
proof fn lemma_nested_rows_run(
    db: Database,
    arities: Arities,
    held: Holdings,
    plans: Seq<RulePlanModel>,
    seen: Set<CollectionSignatureModel>,
    disable_sharing: bool,
)
    requires
        are_runnable_plans(arities, plans),
        are_accounted(db, arities, held, seen),
    ensures
        ({
            let rows = nested_rows_of(plans, seen, disable_sharing);
            let all = seen.union(outputs(flat(rows.0)));
            &&& are_accounted(db, arities, after_steps(db, held, flat(rows.0)), all)
            &&& rows.2.subset_of(all)
            &&& are_last_in(plans, all)
        }),
    decreases plans.len(),
{
    let rows = nested_rows_of(plans, seen, disable_sharing);
    if plans.len() == 0 {
        assert(flat(rows.0) =~= Seq::empty());
        assert(seen.union(outputs(flat(rows.0))) =~= seen);
    } else {
        lemma_runnable_front(arities, plans);
        lemma_nested_rows_run(db, arities, held, plans.drop_last(), seen, disable_sharing);
        let front = nested_rows_of(plans.drop_last(), seen, disable_sharing);
        let outside = if disable_sharing {
            Set::empty()
        } else {
            seen
        };
        let inside = if disable_sharing {
            Set::empty()
        } else {
            front.2
        };
        lemma_nested_as_plain(arities, plans.last(), outside, inside);
        lemma_steps_behind(
            db,
            arities,
            held,
            plans.last(),
            flat(front.0),
            outside.union(inside),
            seen,
        );
        assert(rows.0.drop_last() =~= front.0);
        lemma_last_in(
            plans,
            seen.union(outputs(flat(front.0))),
            seen.union(outputs(flat(rows.0))),
        );
    }
}

proof fn lemma_nested_as_plain(
    arities: Arities,
    plan: RulePlanModel,
    outside: Set<CollectionSignatureModel>,
    inside: Set<CollectionSignatureModel>,
)
    requires
        is_runnable_plan(arities, plan),
    ensures
        ({
            let own = nested_plan_of(plan.steps.tree, plan.steps.last, outside, inside);
            let plain = plan_of(plan.steps.tree, plan.steps.last, outside.union(inside));
            own.0 == plain.0 && own.2.subset_of(plain.1)
        }),
{
    reveal(is_runnable_plan);
    let shape = choose|shape: JoinTree| #[trigger] is_planned_by(arities, plan, shape);
    law_plan_is_linked(plan.rule, shape);
    lemma_nested_is_plain(plan.steps.tree, plan.steps.last, outside, inside);
    let own = nested_plan_of(plan.steps.tree, plan.steps.last, outside, inside);
    assert(own.2.subset_of(outside.union(own.2)));
}

/// What is held under the signature of the last step of a rule, where it is accounted
/// for, are the values for which the head stands for the answers of the rule.
pub proof fn lemma_last_stands_for(
    db: Database,
    arities: Arities,
    held: Holdings,
    plan: RulePlanModel,
    row: Seq<i64>,
)
    requires
        is_runnable_plan(arities, plan),
        is_accounted(db, arities, held, put_out(plan.steps.last)),
    ensures
        stands_for(held, put_out(plan.steps.last), plan.rule.head, row) <==> is_answer(
            db,
            plan.rule,
            row,
        ),
{
    reveal(is_runnable_plan);
    let shape = choose|shape: JoinTree| #[trigger] is_planned_by(arities, plan, shape);
    let (rule, tree, last) = (plan.rule, plan.steps.tree, plan.steps.last);
    law_plan_is_linked(rule, shape);
    lemma_rule_shape(rule, shape);
    lemma_clear(arities, rule, plan.steps, ids_in(shape));
    assert(is_node(tree, last, last));
    lemma_accounted_held(db, arities, held, rule, tree, last);
    law_plan_derives_the_rule(db, rule, shape, row);
    if stands_for(held, put_out(last), rule.head, row) {
        let values = choose|values: Seq<i64>| #[trigger]
            held(put_out(last), values) && head_row_of(rule.head, values) == Some(row);
        assert(makes(db, tree, last, values));
        assert(is_derived_row(db, plan.steps, rule.head, row));
    }
    if is_derived_row(db, plan.steps, rule.head, row) {
        let values = choose|values: Seq<i64>| #[trigger]
            makes(db, tree, last, values) && head_row_of(rule.head, values) == Some(row);
        assert(held(put_out(last), values));
    }
}

/// Whether for each rule what is held of its last step are the values for which its
/// head stands for its answers.
#[verifier::opaque]
pub open spec fn gives_answers(
    db: Database,
    held: Holdings,
    plans: Seq<RulePlanModel>,
) -> bool {
    forall|k: int, row: Seq<i64>|
        0 <= k < plans.len() ==> (#[trigger] stands_for(
            held,
            put_out(plans[k].steps.last),
            plans[k].rule.head,
            row,
        ) <==> is_answer(db, plans[k].rule, row))
}

/// Running the steps of the rules of a group, with steps shared among them and with
/// those before them or not, leaves for each rule the values for which its head
/// stands for its answers; what was held and accounted for before still is.
pub proof fn law_group_steps_derive_the_rules(
    db: Database,
    arities: Arities,
    held: Holdings,
    plans: Seq<RulePlanModel>,
    seen: Set<CollectionSignatureModel>,
    disable_sharing: bool,
    is_recursive: bool,
)
    requires
        are_runnable_plans(arities, plans),
        are_accounted(db, arities, held, seen),
    ensures
        ({
            let rows = if is_recursive {
                nested_rows_of(plans, seen, disable_sharing).0
            } else {
                rows_of(plans, seen, disable_sharing).0
            };
            let after = after_steps(db, held, flat(rows));
            &&& gives_answers(db, after, plans)
            &&& are_accounted(db, arities, after, seen.union(outputs(flat(rows))))
        }),
{
    let rows = if is_recursive {
        lemma_nested_rows_run(db, arities, held, plans, seen, disable_sharing);
        nested_rows_of(plans, seen, disable_sharing).0
    } else {
        lemma_rows_run(db, arities, held, plans, seen, disable_sharing);
        rows_of(plans, seen, disable_sharing).0
    };
    let after = after_steps(db, held, flat(rows));
    reveal(gives_answers);
    assert forall|k: int, row: Seq<i64>| 0 <= k < plans.len() implies (#[trigger] stands_for(
        after,
        put_out(plans[k].steps.last),
        plans[k].rule.head,
        row,
    ) <==> is_answer(db, plans[k].rule, row)) by {
        reveal(are_accounted);
        assert(seen.union(outputs(flat(rows))).contains(put_out(plans[k].steps.last)));
        lemma_last_stands_for(db, arities, after, plans[k], row);
    }
}

} // verus!
