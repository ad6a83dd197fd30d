//! The stages of a dataflow evaluate the strata of a program.
use vstd::prelude::*;
use crate::catalog::head::{first_heads, HeadIDBModel};
use crate::executing::acting::{after_acting_all, is_stored, Store, Variables};
use crate::executing::assembly::{
    collects_of, enters_of, entry_heads, flat_stage, gather_for, heads_for, loop_heads, loop_stage,
    CollectModel, EnterAs, EnterModel, GroupListing, StageModel,
};
use crate::executing::carrying::{
    are_accounted, are_runnable_plans, gives_answers, is_planned_by, is_runnable_plan,
    law_group_steps_derive_the_rules,
};
use crate::executing::dataflow::{
    heads_of, is_sideways, sideways_heads, step_actions, table_for, ActionModel, ScopeModel, Table,
    TablesModel,
};
use crate::executing::evaluating::{
    gather_of, gathered, has_rule, is_added, is_evaluated, law_rounds_evaluate_the_stratum,
    put_together, rounds,
};
use crate::executing::heads::head_row_of;
use crate::executing::meaning::{is_answer, Database};
use crate::executing::names::Arities;
use crate::executing::order::{by_title, law_by_title};
use crate::executing::performing::{
    after_collecting, agrees, are_apart, fits, has_no_copies, lemma_all_act, lemma_collecting, put_in,
    reads_once, shows, stands_in,
};
use crate::executing::running::{
    after_steps, is_node, lemma_clear, lemma_rule_shape, stands_for, Holdings,
};
use crate::executing::shapes::ids_in;
use crate::executing::staging::{
    is_head, is_listing_of, is_sound, lemma_by_title_items, lemma_entries, lemma_last_outputs,
    lemma_variables,
};
use crate::executing::wiring::{
    are_clear_plans, are_of_plans, is_clear_plan, is_kept, is_of_plans, is_placed, is_told,
    lemma_nested_rows, lemma_rows, lemma_told,
};
use crate::lists::{entries_map, lemma_unique_entries, unique_keys};
use crate::optimizing::join_tree::JoinTree;
use crate::parsing::head::HeadModel;
use crate::parsing::rule::FLRuleModel;
use crate::planning::collections::CollectionSignatureModel;
use crate::planning::linking::law_plan_is_linked;
use crate::planning::rule::RulePlanModel;
use crate::planning::sharing::{is_ordered, outputs, put_out};
use crate::planning::strata::{flat, group_plan, head_of, last_outputs, nested_rows_of, rows_of};
use crate::planning::transformations::TransformationModel;

verus! {

/// The rows of relations that are kept.
pub open spec fn rows_in(store: Store) -> Database {
    |name: Seq<char>, row: Seq<i64>|
        store(Table::Row, CollectionSignatureModel::Atom { name }, Seq::empty(), row)
}

/// The rules of plans.
pub open spec fn rules_of(plans: Seq<RulePlanModel>) -> Seq<FLRuleModel> {
    Seq::new(plans.len(), |i: int| plans[i].rule)
}

/// Whether a rule puts out a part last that stands for a head.
pub open spec fn is_part(
    plans: Seq<RulePlanModel>,
    head: CollectionSignatureModel,
    k: int,
    part: CollectionSignatureModel,
    own: HeadModel,
) -> bool {
    &&& 0 <= k < plans.len()
    &&& head_of(plans[k]) == head
    &&& put_out(plans[k].steps.last) == part
    &&& plans[k].rule.head == own
}

/// Whether a rule puts out a part last that stands for a head.
pub open spec fn has_part(
    plans: Seq<RulePlanModel>,
    head: CollectionSignatureModel,
    part: CollectionSignatureModel,
    own: HeadModel,
) -> bool {
    exists|k: int| #[trigger] is_part(plans, head, k, part, own)
}

/// Whether what a rule puts out last is one of the parts.
pub open spec fn is_among(
    plans: Seq<RulePlanModel>,
    head: CollectionSignatureModel,
    k: int,
    parts: Seq<CollectionSignatureModel>,
    heads: Seq<HeadModel>,
) -> bool {
    exists|i: int| 0 <= i < parts.len() && #[trigger] is_part(plans, head, k, parts[i], heads[i])
}

/// Whether parts and heads go together as the rules for a relation have them.
pub open spec fn are_paired(
    plans: Seq<RulePlanModel>,
    head: CollectionSignatureModel,
    parts: Seq<CollectionSignatureModel>,
    heads: Seq<HeadModel>,
) -> bool {
    &&& parts.len() == heads.len()
    &&& forall|i: int|
        0 <= i < parts.len() ==> has_part(plans, head, #[trigger] parts[i], heads[i])
    &&& forall|k: int|
        0 <= k < plans.len() && head_of(#[trigger] plans[k]) == head ==> is_among(
            plans,
            head,
            k,
            parts,
            heads,
        )
}

/// One more rule, for this relation or for another.
proof fn lemma_paired_with(
    plans: Seq<RulePlanModel>,
    head: CollectionSignatureModel,
    parts: Seq<CollectionSignatureModel>,
    heads: Seq<HeadModel>,
)
    requires
        plans.len() > 0,
        are_paired(plans.drop_last(), head, parts, heads),
    ensures
        head_of(plans.last()) != head ==> are_paired(plans, head, parts, heads),
        head_of(plans.last()) == head ==> are_paired(
            plans,
            head,
            parts.push(put_out(plans.last().steps.last)),
            heads.push(plans.last().rule.head),
        ),
{
    let front = plans.drop_last();
    let n = front.len() as int;
    let is_own = head_of(plans.last()) == head;
    let all = if is_own {
        parts.push(put_out(plans.last().steps.last))
    } else {
        parts
    };
    let own = if is_own {
        heads.push(plans.last().rule.head)
    } else {
        heads
    };
    assert(plans[n] == plans.last());
    assert forall|i: int| 0 <= i < all.len() implies has_part(
        plans,
        head,
        #[trigger] all[i],
        own[i],
    ) by {
        if i < parts.len() {
            assert(has_part(front, head, parts[i], heads[i]));
            let k = choose|k: int| #[trigger] is_part(front, head, k, parts[i], heads[i]);
            assert(plans[k] == front[k]);
            assert(is_part(plans, head, k, all[i], own[i]));
        } else {
            assert(is_part(plans, head, n, all[i], own[i]));
        }
    }
    assert forall|k: int| 0 <= k < plans.len() && head_of(#[trigger] plans[k])
        == head implies is_among(plans, head, k, all, own) by {
        if k == n {
            assert(is_part(plans, head, k, all[parts.len() as int], own[parts.len() as int]));
        } else {
            assert(front[k] == plans[k]);
            assert(is_among(front, head, k, parts, heads));
            let i = choose|i: int|
                0 <= i < parts.len() && #[trigger] is_part(front, head, k, parts[i], heads[i]);
            assert(all[i] == parts[i] && own[i] == heads[i]);
            assert(is_part(plans, head, k, all[i], own[i]));
        }
    }
}

/// What the rules for a relation put out last.
pub open spec fn parts_for(
    plans: Seq<RulePlanModel>,
    head: CollectionSignatureModel,
) -> Seq<CollectionSignatureModel> {
    if last_outputs(plans).contains_key(head) {
        last_outputs(plans)[head]
    } else {
        Seq::empty()
    }
}

/// The parts of a relation go with the heads of its rules.
proof fn lemma_parts(plans: Seq<RulePlanModel>, name: Seq<char>)
    ensures
        are_paired(
            plans,
            CollectionSignatureModel::Atom { name },
            parts_for(plans, CollectionSignatureModel::Atom { name }),
            heads_for(rules_of(plans), name),
        ),
    decreases plans.len(),
{
    let head = CollectionSignatureModel::Atom { name };
    let rules = rules_of(plans);
    if plans.len() > 0 {
        let front = plans.drop_last();
        assert(rules.drop_last() =~= rules_of(front));
        assert(rules.last() == plans.last().rule);
        lemma_parts(front, name);
        lemma_paired_with(
            plans,
            head,
            parts_for(front, head),
            heads_for(rules_of(front), name),
        );
    }
}

/// Whether these are the relations of a group as they are put together: those that
/// have rows to start with are among some.
pub open spec fn are_collects_of(
    collects: Seq<CollectModel>,
    plans: Seq<RulePlanModel>,
    idbs: Seq<(Seq<char>, HeadIDBModel)>,
    base: Set<CollectionSignatureModel>,
) -> bool {
    &&& are_apart(collects)
    &&& forall|i: int|
        0 <= i < collects.len() ==> {
            let collect = #[trigger] collects[i];
            &&& is_head(plans, collect.head)
            &&& collect.parts == last_outputs(plans)[collect.head]
            &&& collect.heads == heads_for(rules_of(plans), collect.head.name())
            &&& collect.gather == gather_for(idbs, collect.head)
            &&& collect.with_head == base.contains(collect.head)
        }
    &&& forall|k: int|
        0 <= k < plans.len() ==> exists|i: int|
            0 <= i < collects.len() && (#[trigger] collects[i]).head == head_of(
                #[trigger] plans[k],
            )
}

/// Putting together the relations of entries, none of them made by rewriting where
/// they grow in a loop.
proof fn lemma_collects_list(
    rows: Set<CollectionSignatureModel>,
    start: Option<Set<CollectionSignatureModel>>,
    rules: Seq<FLRuleModel>,
    idbs: Seq<(Seq<char>, HeadIDBModel)>,
    entries: Seq<(CollectionSignatureModel, Seq<CollectionSignatureModel>)>,
)
    requires
        collects_of(rows, start, rules, idbs, entries) is Ok,
        unique_keys(entries),
        start is Some ==> forall|i: int|
            0 <= i < entries.len() ==> !is_sideways((#[trigger] entries[i]).0.name()),
    ensures
        ({
            let (collects, known) = collects_of(rows, start, rules, idbs, entries)->Ok_0;
            let base = match start {
                Some(start) => start,
                None => rows,
            };
            &&& collects.len() == entries.len()
            &&& forall|i: int|
                0 <= i < collects.len() ==> (#[trigger] collects[i]) == (CollectModel {
                    head: entries[i].0,
                    parts: entries[i].1,
                    heads: heads_for(rules, entries[i].0.name()),
                    with_head: base.contains(entries[i].0),
                    gather: gather_for(idbs, entries[i].0),
                })
            &&& forall|s: CollectionSignatureModel| #[trigger]
                known.contains(s) <==> base.contains(s) || exists|i: int|
                    0 <= i < entries.len() && (#[trigger] entries[i]).0 == s
        }),
    decreases entries.len(),
{
    if entries.len() > 0 {
        let front = entries.drop_last();
        let n = front.len() as int;
        assert forall|i: int, j: int| 0 <= i < j < front.len() implies (#[trigger] front[i]).0 != (
        #[trigger] front[j]).0 by {
            assert(entries[i].0 != entries[j].0);
        }
        if start is Some {
            assert forall|i: int| 0 <= i < front.len() implies !is_sideways(
                (#[trigger] front[i]).0.name(),
            ) by {
                assert(front[i] == entries[i]);
            }
            assert(!is_sideways(entries[n].0.name()));
        }
        lemma_collects_list(rows, start, rules, idbs, front);
        let (before, known) = collects_of(rows, start, rules, idbs, front)->Ok_0;
        let (collects, after) = collects_of(rows, start, rules, idbs, entries)->Ok_0;
        let base = match start {
            Some(start) => start,
            None => rows,
        };
        let head = entries.last().0;
        assert(entries[n] == entries.last());
        assert(known.contains(head) <==> base.contains(head)) by {
            if known.contains(head) && !base.contains(head) {
                let i = choose|i: int| 0 <= i < front.len() && (#[trigger] front[i]).0 == head;
                assert(entries[i].0 != entries[n].0);
            }
        }
        assert(collects.len() == before.len() + 1);
        assert forall|i: int| 0 <= i < collects.len() implies (#[trigger] collects[i]) == (
        CollectModel {
            head: entries[i].0,
            parts: entries[i].1,
            heads: heads_for(rules, entries[i].0.name()),
            with_head: base.contains(entries[i].0),
            gather: gather_for(idbs, entries[i].0),
        }) by {
            if i < n {
                assert(collects[i] == before[i]);
                assert(front[i] == entries[i]);
            }
        }
        assert forall|s: CollectionSignatureModel| #[trigger] after.contains(
            s,
        ) <==> base.contains(s) || exists|i: int|
            0 <= i < entries.len() && (#[trigger] entries[i]).0 == s by {
            if known.contains(s) && !base.contains(s) {
                let i = choose|i: int| 0 <= i < front.len() && (#[trigger] front[i]).0 == s;
                assert(entries[i].0 == s);
            }
            if exists|i: int| 0 <= i < entries.len() && (#[trigger] entries[i]).0 == s {
                let i = choose|i: int| 0 <= i < entries.len() && (#[trigger] entries[i]).0 == s;
                if i < n {
                    assert(front[i].0 == s);
                }
            }
        }
    }
}

/// Entries in the order of their names have unique keys where they had them before.
proof fn lemma_sorted_keys(
    entries: Seq<(CollectionSignatureModel, Seq<CollectionSignatureModel>)>,
)
    requires
        unique_keys(entries),
    ensures
        unique_keys(by_title(entries)),
{
    broadcast use vstd::seq_lib::group_to_multiset_ensures;

    let sorted = by_title(entries);
    law_by_title(entries);
    lemma_by_title_items(entries);
    assert(entries.no_duplicates()) by {
        assert forall|i: int, j: int| 0 <= i < entries.len() && 0 <= j < entries.len() && i
            != j implies entries[i] != entries[j] by {
            if i < j {
                assert(entries[i].0 != entries[j].0);
            } else {
                assert(entries[j].0 != entries[i].0);
            }
        }
    }
    entries.lemma_multiset_has_no_duplicates();
    sorted.lemma_multiset_has_no_duplicates_conv();
    assert forall|i: int, j: int| 0 <= i < j < sorted.len() implies (#[trigger] sorted[i]).0 != (
    #[trigger] sorted[j]).0 by {
        assert(entries.contains(sorted[i]) && entries.contains(sorted[j]));
        let a = choose|a: int| 0 <= a < entries.len() && entries[a] == sorted[i];
        let b = choose|b: int| 0 <= b < entries.len() && entries[b] == sorted[j];
        if sorted[i].0 == sorted[j].0 {
            if a < b {
                assert(entries[a].0 != entries[b].0);
            } else if b < a {
                assert(entries[b].0 != entries[a].0);
            }
            assert(sorted[i] == sorted[j]);
        }
    }
}

/// The relations of a group are put together as they should be.
pub proof fn lemma_group_collects(
    rows: Set<CollectionSignatureModel>,
    start: Option<Set<CollectionSignatureModel>>,
    idbs: Seq<(Seq<char>, HeadIDBModel)>,
    listing: GroupListing,
    plans: Seq<RulePlanModel>,
)
    requires
        listing.rules == rules_of(plans),
        unique_keys(listing.last_signatures),
        entries_map(listing.last_signatures) == last_outputs(plans),
        collects_of(rows, start, listing.rules, idbs, by_title(listing.last_signatures)) is Ok,
        forall|k: int| 0 <= k < plans.len() ==> !(put_out((#[trigger] plans[k]).steps.last) is Atom),
        start is Some ==> forall|k: int|
            0 <= k < plans.len() ==> !is_sideways((#[trigger] plans[k]).rule.head.name),
    ensures
        are_collects_of(
            collects_of(
                rows,
                start,
                listing.rules,
                idbs,
                by_title(listing.last_signatures),
            )->Ok_0.0,
            plans,
            idbs,
            match start {
                Some(start) => start,
                None => rows,
            },
        ),
{
    let entries = listing.last_signatures;
    let sorted = by_title(entries);
    lemma_sorted_keys(entries);
    lemma_by_title_items(entries);
    lemma_unique_entries(entries);
    lemma_last_outputs(plans);
    assert forall|i: int| 0 <= i < sorted.len() implies is_head(plans, (#[trigger] sorted[i]).0)
        && sorted[i].1 == last_outputs(plans)[sorted[i].0] by {
        assert(entries.contains(sorted[i]));
        let a = choose|a: int| 0 <= a < entries.len() && entries[a] == sorted[i];
        assert(entries_map(entries).contains_key(entries[a].0));
    }
    lemma_collects_list(rows, start, listing.rules, idbs, sorted);
    let collects = collects_of(rows, start, listing.rules, idbs, sorted)->Ok_0.0;
    assert forall|i: int, j: int|
        0 <= i < collects.len() && 0 <= j < collects[i].parts.len() implies !((
    #[trigger] collects[i].parts[j]) is Atom) by {
        let head = sorted[i].0;
        assert(is_head(plans, head));
        assert(collects[i].parts[j] == last_outputs(plans)[head][j]);
    }
    assert forall|i: int, j: int| 0 <= i < j < collects.len() implies (#[trigger] collects[i]).head
        != (#[trigger] collects[j]).head by {
        assert(sorted[i].0 != sorted[j].0);
    }
    assert forall|k: int| 0 <= k < plans.len() implies exists|i: int|
        0 <= i < collects.len() && (#[trigger] collects[i]).head == head_of(#[trigger] plans[k]) by {
        let head = head_of(plans[k]);
        assert(last_outputs(plans).contains_key(head));
        let a = choose|a: int| 0 <= a < entries.len() && (#[trigger] entries[a]).0 == head;
        assert(sorted.contains(entries[a]));
        let i = choose|i: int| 0 <= i < sorted.len() && sorted[i] == entries[a];
        assert(collects[i].head == head);
    }
}

/// Whether these are the rules of a stratum, in order.
pub open spec fn are_plans_of(
    plans: Seq<RulePlanModel>,
    rules: Seq<FLRuleModel>,
    stratum: Seq<usize>,
) -> bool {
    &&& plans.len() == stratum.len()
    &&& forall|k: int|
        0 <= k < plans.len() ==> stratum[k] < rules.len() && (#[trigger] plans[k]).rule
            == rules[stratum[k] as int]
}

/// Whether for each rule what is kept of its last step are the values for which its
/// head stands for its answers.
pub open spec fn stand_for_answers(
    db: Database,
    store: Store,
    plans: Seq<RulePlanModel>,
) -> bool {
    forall|k: int, row: Seq<i64>|
        0 <= k < plans.len() ==> (#[trigger] stands_in(
            store,
            put_out(plans[k].steps.last),
            plans[k].rule.head,
            row,
        ) <==> is_answer(db, plans[k].rule, row))
}

/// What is put together for a relation are the rows that it starts with and those that
/// the rules of the stratum derive.
proof fn lemma_put_in(
    db: Database,
    before: Database,
    store: Store,
    start: Store,
    plans: Seq<RulePlanModel>,
    rules: Seq<FLRuleModel>,
    stratum: Seq<usize>,
    collect: CollectModel,
    name: Seq<char>,
)
    requires
        are_plans_of(plans, rules, stratum),
        stand_for_answers(db, store, plans),
        collect.head == (CollectionSignatureModel::Atom { name }),
        are_paired(plans, collect.head, collect.parts, collect.heads),
        forall|row: Seq<i64>|
            collect.with_head && start(Table::Row, collect.head, Seq::empty(), row)
                <==> #[trigger] before(name, row),
    ensures
        put_in(store, start, collect) == put_together(before, db, rules, stratum, name),
{
    let head = collect.head;
    let parts = collect.parts;
    let heads = collect.heads;
    let f = put_in(store, start, collect);
    let g = put_together(before, db, rules, stratum, name);
    assert forall|row: Seq<i64>| #[trigger] f(row) == g(row) by {
        assert(collect.with_head && start(Table::Row, head, Seq::empty(), row) <==> before(
            name,
            row,
        ));
        if exists|i: int|
            0 <= i < parts.len() && stands_in(store, #[trigger] parts[i], heads[i], row) {
            let i = choose|i: int|
                0 <= i < parts.len() && stands_in(store, #[trigger] parts[i], heads[i], row);
            assert(has_part(plans, head, parts[i], heads[i]));
            let k = choose|k: int| #[trigger] is_part(plans, head, k, parts[i], heads[i]);
            assert(is_answer(db, plans[k].rule, row));
            assert(stratum.contains(stratum[k]));
            assert(is_added(db, rules, stratum, name, row));
        }
        if is_added(db, rules, stratum, name, row) {
            let r = choose|r: usize| #[trigger]
                stratum.contains(r) && rules[r as int].head.name == name && is_answer(
                    db,
                    rules[r as int],
                    row,
                );
            let k = choose|k: int| 0 <= k < stratum.len() && stratum[k] == r;
            assert(head_of(plans[k]) == head);
            assert(is_among(plans, head, k, parts, heads));
            let i = choose|i: int|
                0 <= i < parts.len() && #[trigger] is_part(plans, head, k, parts[i], heads[i]);
            assert(stands_in(store, put_out(plans[k].steps.last), plans[k].rule.head, row));
            assert(stands_in(store, parts[i], heads[i], row));
        }
    }
    assert(f =~= g);
}

/// Putting together the relations of a group gives what the rules of the stratum say.
pub proof fn lemma_collected(
    db: Database,
    before: Database,
    store: Store,
    start: Store,
    plans: Seq<RulePlanModel>,
    rules: Seq<FLRuleModel>,
    stratum: Seq<usize>,
    collects: Seq<CollectModel>,
    base: Set<CollectionSignatureModel>,
    name: Seq<char>,
    row: Seq<i64>,
)
    requires
        are_plans_of(plans, rules, stratum),
        stand_for_answers(db, store, plans),
        are_collects_of(collects, plans, first_heads(rules), base),
        has_rule(rules, stratum, name) ==> forall|row: Seq<i64>|
            base.contains(CollectionSignatureModel::Atom { name }) && start(
                Table::Row,
                CollectionSignatureModel::Atom { name },
                Seq::empty(),
                row,
            ) <==> #[trigger] before(name, row),
    ensures
        rows_in(after_collecting(store, start, collects))(name, row) <==> if has_rule(
            rules,
            stratum,
            name,
        ) {
            gathered(
                gather_of(rules, name),
                put_together(before, db, rules, stratum, name),
                row,
            )
        } else {
            rows_in(store)(name, row)
        },
{
    let head = CollectionSignatureModel::Atom { name };
    let after = after_collecting(store, start, collects);
    lemma_collecting(store, start, collects);
    if has_rule(rules, stratum, name) {
        let r = choose|r: usize| #[trigger]
            stratum.contains(r) && rules[r as int].head.name == name;
        let k = choose|k: int| 0 <= k < stratum.len() && stratum[k] == r;
        assert(head_of(plans[k]) == head);
        let i = choose|i: int|
            0 <= i < collects.len() && (#[trigger] collects[i]).head == head_of(plans[k]);
        lemma_parts(plans, name);
        lemma_last_outputs(plans);
        assert(last_outputs(plans).contains_key(head_of(plans[k])));
        lemma_put_in(db, before, store, start, plans, rules, stratum, collects[i], name);
        assert(after(Table::Row, collects[i].head, Seq::empty(), row) <==> gathered(
            collects[i].gather,
            put_in(store, start, collects[i]),
            row,
        ));
    } else {
        assert forall|i: int| 0 <= i < collects.len() implies (#[trigger] collects[i]).head
            != head by {
            if collects[i].head == head {
                assert(is_head(plans, head));
                let k = choose|k: int| 0 <= k < plans.len() && head_of(#[trigger] plans[k]) == head;
                assert(stratum.contains(stratum[k]));
            }
        }
        assert(after(Table::Row, head, Seq::empty(), row) <==> store(
            Table::Row,
            head,
            Seq::empty(),
            row,
        ));
    }
}

/// Plans that can be run are clear.
pub proof fn lemma_runnable_is_clear(arities: Arities, plans: Seq<RulePlanModel>)
    requires
        are_runnable_plans(arities, plans),
    ensures
        are_clear_plans(arities, plans),
        forall|k: int|
            0 <= k < plans.len() ==> is_told(arities, (#[trigger] plans[k]).steps.last),
{
    assert forall|k: int| 0 <= k < plans.len() implies is_clear_plan(arities, #[trigger] plans[k])
        && is_told(arities, plans[k].steps.last) by {
        reveal(is_runnable_plan);
        let plan = plans[k];
        assert(is_runnable_plan(arities, plan));
        let shape = choose|shape: JoinTree| #[trigger] is_planned_by(arities, plan, shape);
        law_plan_is_linked(plan.rule, shape);
        lemma_rule_shape(plan.rule, shape);
        lemma_clear(arities, plan.rule, plan.steps, ids_in(shape));
        assert(is_node(plan.steps.tree, plan.steps.last, plan.steps.last));
        assert(is_placed(arities, plan.rule, plan.steps.tree, plan.steps.last));
    }
}

/// What is kept of last steps stands for what is held of them.
pub proof fn lemma_kept_answers(
    db: Database,
    arities: Arities,
    store: Store,
    held: Holdings,
    plans: Seq<RulePlanModel>,
    done: Set<CollectionSignatureModel>,
)
    requires
        are_runnable_plans(arities, plans),
        agrees(arities, store, held, done),
        forall|k: int|
            0 <= k < plans.len() ==> done.contains(put_out((#[trigger] plans[k]).steps.last)),
        forall|k: int, row: Seq<i64>|
            0 <= k < plans.len() ==> (#[trigger] stands_for(
                held,
                put_out(plans[k].steps.last),
                plans[k].rule.head,
                row,
            ) <==> is_answer(db, plans[k].rule, row)),
    ensures
        stand_for_answers(db, store, plans),
{
    reveal(agrees);
    lemma_runnable_is_clear(arities, plans);
    assert forall|k: int, row: Seq<i64>| 0 <= k < plans.len() implies (#[trigger] stands_in(
        store,
        put_out(plans[k].steps.last),
        plans[k].rule.head,
        row,
    ) <==> is_answer(db, plans[k].rule, row)) by {
        let last = plans[k].steps.last;
        let s = put_out(last);
        let head = plans[k].rule.head;
        let none = Seq::<i64>::empty();
        assert(is_told(arities, last));
        assert(is_clear_plan(arities, plans[k]));
        assert(is_stored(store, held, last.output));
        assert forall|values: Seq<i64>| #[trigger] store(Table::Row, s, none, values) <==> held(
            s,
            values,
        ) by {
            assert(none + values =~= values);
        }
        assert(stands_in(store, s, head, row) <==> stands_for(held, s, head, row)) by {
            if stands_in(store, s, head, row) {
                let values = choose|values: Seq<i64>| #[trigger]
                    store(Table::Row, s, Seq::empty(), values) && head_row_of(head, values)
                        == Some(row);
                assert(held(s, values));
            }
            if stands_for(held, s, head, row) {
                let values = choose|values: Seq<i64>| #[trigger]
                    held(s, values) && head_row_of(head, values) == Some(row);
                assert(store(Table::Row, s, none, values));
            }
        }
    }
}

/// What is kept after a stage without a loop.
pub open spec fn after_flat(
    store: Store,
    actions: Seq<ActionModel>,
    collects: Seq<CollectModel>,
) -> Store {
    let acted = after_acting_all(
        store,
        |s: CollectionSignatureModel, row: Seq<i64>| false,
        actions,
    );
    after_collecting(acted, acted, collects)
}

/// Whether only relations that are known have rows.
pub open spec fn are_known(store: Store, tables: TablesModel) -> bool {
    forall|name: Seq<char>, row: Seq<i64>| #[trigger]
        rows_in(store)(name, row) ==> tables.rows.contains(CollectionSignatureModel::Atom { name })
}

/// Whether the steps of a group read each column of a relation once.
pub open spec fn all_read_once(steps: Seq<TransformationModel>) -> bool {
    forall|i: int| 0 <= i < steps.len() ==> reads_once(#[trigger] steps[i])
}

/// The steps of plans can be told.
proof fn lemma_steps_told(
    arities: Arities,
    plans: Seq<RulePlanModel>,
    steps: Seq<TransformationModel>,
)
    requires
        are_of_plans(arities, plans, steps),
    ensures
        forall|i: int| 0 <= i < steps.len() ==> is_told(arities, #[trigger] steps[i]),
{
    assert forall|i: int| 0 <= i < steps.len() implies is_told(arities, #[trigger] steps[i]) by {
        assert(is_of_plans(arities, plans, steps[i]));
        let k = choose|k: int|
            0 <= k < plans.len() && is_placed(
                arities,
                (#[trigger] plans[k]).rule,
                plans[k].steps.tree,
                steps[i],
            );
        assert(is_placed(arities, plans[k].rule, plans[k].steps.tree, steps[i]));
    }
}

/// Whether steps stand in plans, and come in an order in which they can be carried out
/// and in which all rules come to their last steps.
#[verifier::opaque]
pub open spec fn is_in_order(
    arities: Arities,
    plans: Seq<RulePlanModel>,
    steps: Seq<TransformationModel>,
    done: Set<CollectionSignatureModel>,
) -> bool {
    &&& are_of_plans(arities, plans, steps)
    &&& is_ordered(steps, done)
    &&& forall|k: int|
        0 <= k < plans.len() ==> done.union(outputs(steps)).contains(
            put_out((#[trigger] plans[k]).steps.last),
        )
}

proof fn lemma_flat_order(
    arities: Arities,
    plans: Seq<RulePlanModel>,
    seen: Set<CollectionSignatureModel>,
    disable_sharing: bool,
)
    requires
        are_runnable_plans(arities, plans),
    ensures
        is_in_order(arities, plans, flat(rows_of(plans, seen, disable_sharing).0), seen),
{
    reveal(is_in_order);
    lemma_runnable_is_clear(arities, plans);
    lemma_rows(arities, plans, seen, disable_sharing);
}

proof fn lemma_flat_answers(
    db: Database,
    arities: Arities,
    held: Holdings,
    plans: Seq<RulePlanModel>,
    seen: Set<CollectionSignatureModel>,
    disable_sharing: bool,
)
    requires
        are_runnable_plans(arities, plans),
        are_accounted(db, arities, held, seen),
    ensures
        gives_answers(
            db,
            after_steps(db, held, flat(rows_of(plans, seen, disable_sharing).0)),
            plans,
        ),
{
    law_group_steps_derive_the_rules(db, arities, held, plans, seen, disable_sharing, false);
}

/// What the operations of a group leave.
proof fn lemma_group_acts(
    db: Database,
    arities: Arities,
    store: Store,
    variables: Variables,
    held: Holdings,
    tables: TablesModel,
    scope: ScopeModel,
    plans: Seq<RulePlanModel>,
    steps: Seq<TransformationModel>,
    done: Set<CollectionSignatureModel>,
)
    requires
        are_runnable_plans(arities, plans),
        is_in_order(arities, plans, steps, done),
        gives_answers(db, after_steps(db, held, steps), plans),
        all_read_once(steps),
        agrees(arities, store, held, done),
        fits(db, arities),
        shows(db, store, variables, tables, scope),
        has_no_copies(scope),
        step_actions(tables, scope, steps) is Ok,
    ensures
        ({
            let acted = step_actions(tables, scope, steps)->Ok_0;
            let after = after_acting_all(store, variables, acted.0);
            &&& stand_for_answers(db, after, plans)
            &&& forall|name: Seq<char>, row: Seq<i64>| #[trigger]
                rows_in(after)(name, row) <==> rows_in(store)(name, row)
            &&& forall|name: Seq<char>| #[trigger]
                acted.1.rows.contains(CollectionSignatureModel::Atom { name })
                    <==> tables.rows.contains(CollectionSignatureModel::Atom { name })
        }),
{
    reveal(is_in_order);
    reveal(gives_answers);
    lemma_steps_told(arities, plans, steps);
    lemma_all_act(db, arities, store, variables, held, tables, scope, steps, done);
    let acted = step_actions(tables, scope, steps)->Ok_0;
    let after = after_acting_all(store, variables, acted.0);
    lemma_kept_answers(
        db,
        arities,
        after,
        after_steps(db, held, steps),
        plans,
        done.union(outputs(steps)),
    );
    assert forall|name: Seq<char>, row: Seq<i64>| #[trigger] rows_in(after)(
        name,
        row,
    ) <==> rows_in(store)(name, row) by {
        assert(after(
            Table::Row,
            CollectionSignatureModel::Atom { name },
            Seq::empty(),
            row,
        ) == store(Table::Row, CollectionSignatureModel::Atom { name }, Seq::empty(), row));
    }
}

/// What the operations of a group without recursion leave.
proof fn lemma_flat_acts(
    arities: Arities,
    tables: TablesModel,
    listing: GroupListing,
    plans: Seq<RulePlanModel>,
    seen: Set<CollectionSignatureModel>,
    disable_sharing: bool,
    store: Store,
    held: Holdings,
)
    requires
        is_listing_of(listing, group_plan(false, plans, seen, disable_sharing).0),
        are_runnable_plans(arities, plans),
        all_read_once(listing.steps),
        agrees(arities, store, held, seen),
        are_accounted(rows_in(store), arities, held, seen),
        fits(rows_in(store), arities),
        step_actions(tables, flat_scope(listing), listing.steps) is Ok,
    ensures
        ({
            let acted = step_actions(tables, flat_scope(listing), listing.steps)->Ok_0;
            let after = after_acting_all(
                store,
                |s: CollectionSignatureModel, row: Seq<i64>| false,
                acted.0,
            );
            &&& stand_for_answers(rows_in(store), after, plans)
            &&& forall|name: Seq<char>, row: Seq<i64>| #[trigger]
                rows_in(after)(name, row) <==> rows_in(store)(name, row)
            &&& forall|name: Seq<char>| #[trigger]
                acted.1.rows.contains(CollectionSignatureModel::Atom { name })
                    <==> tables.rows.contains(CollectionSignatureModel::Atom { name })
        }),
{
    let db = rows_in(store);
    let steps = listing.steps;
    let scope = flat_scope(listing);
    let variables: Variables = |s: CollectionSignatureModel, row: Seq<i64>| false;
    let rows = rows_of(plans, seen, disable_sharing);
    assert(steps == flat(rows.0));
    lemma_flat_order(arities, plans, seen, disable_sharing);
    lemma_flat_answers(db, arities, held, plans, seen, disable_sharing);
    assert(shows(db, store, variables, tables, scope));
    lemma_group_acts(
        db,
        arities,
        store,
        variables,
        held,
        tables,
        scope,
        plans,
        steps,
        seen,
    );
}

/// The scope of a group without recursion.
pub open spec fn flat_scope(listing: GroupListing) -> ScopeModel {
    ScopeModel {
        is_recursive: false,
        variables: Set::empty(),
        last_signatures: listing.last_signatures,
    }
}

/// A stage without a loop evaluates its stratum: its operations and what they are put
/// together to leave in the relations of the stratum what its rules say, and all other
/// relations as they were. This is said of rules whose plans can be run and read, on
/// rows that have the columns of their relations, where what has been kept of steps
/// before is accounted for.
pub proof fn law_flat_stages_evaluate_their_stratum(
    arities: Arities,
    tables: TablesModel,
    listing: GroupListing,
    plans: Seq<RulePlanModel>,
    seen: Set<CollectionSignatureModel>,
    disable_sharing: bool,
    store: Store,
    held: Holdings,
    rules: Seq<FLRuleModel>,
    stratum: Seq<usize>,
)
    requires
        is_listing_of(listing, group_plan(false, plans, seen, disable_sharing).0),
        flat_stage(tables, first_heads(rules), listing) is Ok,
        are_plans_of(plans, rules, stratum),
        are_runnable_plans(arities, plans),
        all_read_once(listing.steps),
        agrees(arities, store, held, seen),
        are_accounted(rows_in(store), arities, held, seen),
        fits(rows_in(store), arities),
        are_known(store, tables),
    ensures
        flat_stage(tables, first_heads(rules), listing)->Ok_0.0 matches StageModel::Flat {
            actions,
            collects,
        } && is_evaluated(
            rows_in(store),
            rows_in(after_flat(store, actions, collects)),
            rules,
            stratum,
            false,
        ),
{
    let db = rows_in(store);
    let idbs = first_heads(rules);
    let acted = step_actions(tables, flat_scope(listing), listing.steps)->Ok_0;
    let kept = after_acting_all(
        store,
        |s: CollectionSignatureModel, row: Seq<i64>| false,
        acted.0,
    );
    lemma_flat_acts(
        arities,
        tables,
        listing,
        plans,
        seen,
        disable_sharing,
        store,
        held,
    );
    lemma_runnable_is_clear(arities, plans);
    assert forall|k: int| 0 <= k < plans.len() implies !(put_out(
        (#[trigger] plans[k]).steps.last,
    ) is Atom) by {
        lemma_told(arities, plans[k].steps.last);
    }
    assert(listing.rules =~= rules_of(plans));
    lemma_group_collects(acted.1.rows, None, idbs, listing, plans);
    let collects = collects_of(
        acted.1.rows,
        None,
        listing.rules,
        idbs,
        by_title(listing.last_signatures),
    )->Ok_0.0;
    let after = after_flat(store, acted.0, collects);
    assert forall|name: Seq<char>, row: Seq<i64>| #[trigger] rows_in(after)(
        name,
        row,
    ) <==> if has_rule(rules, stratum, name) {
        gathered(gather_of(rules, name), put_together(db, db, rules, stratum, name), row)
    } else {
        db(name, row)
    } by {
        let head = CollectionSignatureModel::Atom { name };
        assert forall|row: Seq<i64>|
            acted.1.rows.contains(head) && kept(Table::Row, head, Seq::empty(), row)
                <==> #[trigger] db(name, row) by {
            assert(rows_in(kept)(name, row) <==> rows_in(store)(name, row));
            assert(acted.1.rows.contains(CollectionSignatureModel::Atom { name })
                <==> tables.rows.contains(CollectionSignatureModel::Atom { name }));
        }
        lemma_collected(
            db,
            db,
            kept,
            kept,
            plans,
            rules,
            stratum,
            collects,
            acted.1.rows,
            name,
            row,
        );
        assert(rows_in(kept)(name, row) <==> rows_in(store)(name, row));
    }
}

/// What is kept inside of a loop of what is kept outside: what is brought in.
pub open spec fn entered(outside: Store, enters: Seq<EnterModel>) -> Store {
    |table: Table, signature: CollectionSignatureModel, key: Seq<i64>, value: Seq<i64>|
        enters.contains(EnterModel { signature, enter_as: EnterAs::Kept(table) }) && outside(
            table,
            signature,
            key,
            value,
        )
}

/// The rows of the variables of a loop after one more round.
pub open spec fn after_round(
    outside: Store,
    enters: Seq<EnterModel>,
    actions: Seq<ActionModel>,
    collects: Seq<CollectModel>,
    variables: Variables,
) -> Variables {
    let acted = after_acting_all(entered(outside, enters), variables, actions);
    |signature: CollectionSignatureModel, row: Seq<i64>|
        after_collecting(acted, outside, collects)(Table::Row, signature, Seq::empty(), row)
}

/// The rows of relations in a round: those of the variables where the relation is one,
/// else those from outside.
pub open spec fn rows_in_round(
    outside: Store,
    variables: Variables,
    rules: Seq<FLRuleModel>,
    stratum: Seq<usize>,
) -> Database {
    |name: Seq<char>, row: Seq<i64>|
        if has_rule(rules, stratum, name) {
            variables(CollectionSignatureModel::Atom { name }, row)
        } else {
            rows_in(outside)(name, row)
        }
}

/// How a collection outside is brought in.
spec fn table_outside(tables: TablesModel, s: CollectionSignatureModel) -> Table {
    if tables.rows.contains(s) {
        Table::Row
    } else if tables.key_values.contains(s) {
        Table::KeyValue
    } else {
        Table::Key
    }
}

/// What is brought in.
proof fn lemma_enters_list(
    outside: TablesModel,
    heads: Set<CollectionSignatureModel>,
    variables: Set<CollectionSignatureModel>,
    scope: Seq<CollectionSignatureModel>,
)
    requires
        enters_of(outside, heads, variables, scope) is Ok,
        forall|i: int| 0 <= i < scope.len() ==> !is_sideways((#[trigger] scope[i]).name()),
    ensures
        ({
            let (enters, inside, start) = enters_of(outside, heads, variables, scope)->Ok_0;
            &&& forall|s: CollectionSignatureModel| #[trigger]
                scope.contains(s) && !heads.contains(s) && outside.of(
                    table_outside(outside, s),
                ).contains(s) ==> enters.contains(
                    EnterModel { signature: s, enter_as: EnterAs::Kept(table_outside(outside, s)) },
                )
            &&& forall|s: CollectionSignatureModel| #[trigger]
                inside.rows.contains(s) ==> outside.rows.contains(s) && !heads.contains(s)
                    && enters.contains(
                    EnterModel { signature: s, enter_as: EnterAs::Kept(Table::Row) },
                )
            &&& forall|s: CollectionSignatureModel| #[trigger]
                start.contains(s) <==> scope.contains(s) && outside.rows.contains(s)
                    && heads.contains(s)
        }),
    decreases scope.len(),
{
    if scope.len() > 0 {
        let front = scope.drop_last();
        let n = front.len() as int;
        let last = scope.last();
        assert(scope[n] == last);
        assert forall|i: int| 0 <= i < front.len() implies !is_sideways(
            (#[trigger] front[i]).name(),
        ) by {
            assert(front[i] == scope[i]);
        }
        lemma_enters_list(outside, heads, variables, front);
        let before = enters_of(outside, heads, variables, front)->Ok_0;
        let after = enters_of(outside, heads, variables, scope)->Ok_0;
        assert forall|e: EnterModel| #[trigger] before.0.contains(e) implies after.0.contains(e) by {
            let i = choose|i: int| 0 <= i < before.0.len() && before.0[i] == e;
            assert(after.0[i] == e);
        }
        assert forall|s: CollectionSignatureModel| #[trigger] scope.contains(s) <==> front.contains(
            s,
        ) || s == last by {
            if scope.contains(s) {
                let i = choose|i: int| 0 <= i < scope.len() && scope[i] == s;
                if i < n {
                    assert(front[i] == s);
                }
            }
            if front.contains(s) {
                let i = choose|i: int| 0 <= i < front.len() && front[i] == s;
                assert(scope[i] == s);
            }
        }
        if after.0.len() > before.0.len() {
            assert(after.0[before.0.len() as int] == after.0.last());
            assert(after.0.contains(after.0.last()));
        }
    } else {
        assert(scope =~= Seq::empty());
    }
}

/// What is brought into a loop agrees with what is held, as outside.
proof fn lemma_entered_agrees(
    arities: Arities,
    tables: TablesModel,
    heads: Set<CollectionSignatureModel>,
    variables: Set<CollectionSignatureModel>,
    scope: Seq<CollectionSignatureModel>,
    seen: Set<CollectionSignatureModel>,
    store: Store,
    held: Holdings,
)
    requires
        enters_of(tables, heads, variables, scope) is Ok,
        forall|i: int| 0 <= i < scope.len() ==> !is_sideways((#[trigger] scope[i]).name()),
        forall|s: CollectionSignatureModel| #[trigger]
            scope.to_set().contains(s) ==> seen.contains(s) || s is Atom,
        forall|s: CollectionSignatureModel| #[trigger] heads.contains(s) ==> s is Atom,
        is_sound(arities, tables, seen),
        agrees(arities, store, held, seen),
    ensures
        agrees(
            arities,
            entered(store, enters_of(tables, heads, variables, scope)->Ok_0.0),
            held,
            scope.to_set(),
        ),
{
    reveal(agrees);
    let enters = enters_of(tables, heads, variables, scope)->Ok_0.0;
    let inside = entered(store, enters);
    lemma_enters_list(tables, heads, variables, scope);
    assert forall|step: TransformationModel| #[trigger]
        is_told(arities, step) && scope.to_set().contains(put_out(step)) implies is_stored(
        inside,
        held,
        step.output,
    ) by {
        let s = put_out(step);
        let table = table_for(step.output);
        lemma_told(arities, step);
        assert(seen.contains(s));
        assert(is_kept(tables, step.output));
        assert(tables.of(table).contains(s));
        assert(tables.of(Table::Row).contains(s) ==> table == Table::Row);
        assert(tables.of(Table::KeyValue).contains(s) ==> table == Table::KeyValue);
        assert(table_outside(tables, s) == table);
        assert(scope.contains(s));
        assert(enters.contains(EnterModel { signature: s, enter_as: EnterAs::Kept(table) }));
        assert(is_stored(store, held, step.output));
        assert forall|key: Seq<i64>, value: Seq<i64>| #[trigger]
            inside(table, step.output.signature, key, value) == store(
                table,
                step.output.signature,
                key,
                value,
            ) by {}
    }
}

/// Nothing is copied where no head was made by rewriting.
proof fn lemma_no_copies(
    entries: Seq<(CollectionSignatureModel, Seq<CollectionSignatureModel>)>,
    s: CollectionSignatureModel,
)
    requires
        forall|i: int| 0 <= i < entries.len() ==> !is_sideways((#[trigger] entries[i]).0.name()),
    ensures
        sideways_heads(heads_of(entries, s)).len() == 0,
    decreases entries.len(),
{
    if entries.len() > 0 {
        let front = entries.drop_last();
        assert forall|i: int| 0 <= i < front.len() implies !is_sideways(
            (#[trigger] front[i]).0.name(),
        ) by {
            assert(front[i] == entries[i]);
        }
        lemma_no_copies(front, s);
        assert(!is_sideways(entries[entries.len() - 1].0.name()));
        let before = heads_of(front, s);
        assert(before.push(entries.last().0).drop_last() =~= before);
    }
}

/// The scope of a recursive group.
pub open spec fn loop_scope(listing: GroupListing) -> ScopeModel {
    ScopeModel {
        is_recursive: true,
        variables: loop_heads(listing).to_set(),
        last_signatures: listing.last_signatures,
    }
}

/// Whether a recursive group can be carried out in rounds on what is kept outside: none
/// of its relations, and nothing that is brought in, was made by rewriting; what is
/// kept agrees with what is held; and the relations of the group that have rows outside
/// are brought in with them.
pub open spec fn can_go_round(
    arities: Arities,
    tables: TablesModel,
    listing: GroupListing,
    plans: Seq<RulePlanModel>,
    seen: Set<CollectionSignatureModel>,
    disable_sharing: bool,
    store: Store,
    held: Holdings,
    rules: Seq<FLRuleModel>,
    stratum: Seq<usize>,
) -> bool {
    &&& is_listing_of(listing, group_plan(true, plans, seen, disable_sharing).0)
    &&& loop_stage(tables, first_heads(rules), listing) is Ok
    &&& are_plans_of(plans, rules, stratum)
    &&& are_runnable_plans(arities, plans)
    &&& all_read_once(listing.steps)
    &&& forall|k: int| 0 <= k < plans.len() ==> !is_sideways((#[trigger] plans[k]).rule.head.name)
    &&& forall|i: int|
        0 <= i < listing.scope.len() ==> !is_sideways((#[trigger] listing.scope[i]).name())
    &&& is_sound(arities, tables, seen)
    &&& agrees(arities, store, held, seen)
    &&& forall|name: Seq<char>, row: Seq<i64>| #[trigger]
        rows_in(store)(name, row) && has_rule(rules, stratum, name) ==> {
            let s = CollectionSignatureModel::Atom { name };
            tables.rows.contains(s) && listing.scope.contains(s)
        }
}

/// What is brought in and known in a round.
proof fn lemma_round_starts(
    arities: Arities,
    tables: TablesModel,
    listing: GroupListing,
    plans: Seq<RulePlanModel>,
    seen: Set<CollectionSignatureModel>,
    disable_sharing: bool,
    store: Store,
    held: Holdings,
    rules: Seq<FLRuleModel>,
    stratum: Seq<usize>,
    variables: Variables,
)
    requires
        can_go_round(
            arities,
            tables,
            listing,
            plans,
            seen,
            disable_sharing,
            store,
            held,
            rules,
            stratum,
        ),
    ensures
        ({
            let heads = entry_heads(listing.last_signatures).to_set();
            let scope = loop_scope(listing);
            let (enters, inside, start) = enters_of(
                tables,
                heads,
                scope.variables,
                by_title(listing.scope),
            )->Ok_0;
            let db = rows_in_round(store, variables, rules, stratum);
            &&& shows(db, entered(store, enters), variables, inside, scope)
            &&& has_no_copies(scope)
            &&& agrees(
                arities,
                entered(store, enters),
                held,
                nested_rows_of(plans, seen, disable_sharing).1,
            )
            &&& forall|name: Seq<char>, row: Seq<i64>|
                has_rule(rules, stratum, name) ==> (start.contains(
                    CollectionSignatureModel::Atom { name },
                ) && store(Table::Row, CollectionSignatureModel::Atom { name }, Seq::empty(), row)
                    <==> #[trigger] rows_in(store)(name, row))
        }),
{
    let heads = entry_heads(listing.last_signatures).to_set();
    let scope = loop_scope(listing);
    let sorted = by_title(listing.scope);
    let (enters, inside, start) = enters_of(tables, heads, scope.variables, sorted)->Ok_0;
    let db = rows_in_round(store, variables, rules, stratum);
    let brought = nested_rows_of(plans, seen, disable_sharing).1;
    lemma_runnable_is_clear(arities, plans);
    lemma_nested_rows(arities, plans, seen, disable_sharing);
    lemma_variables(listing, plans);
    lemma_entries(listing, plans);
    lemma_by_title_items(listing.scope);
    assert forall|i: int| 0 <= i < sorted.len() implies !is_sideways(
        (#[trigger] sorted[i]).name(),
    ) by {
        assert(listing.scope.contains(sorted[i]));
        let j = choose|j: int| 0 <= j < listing.scope.len() && listing.scope[j] == sorted[i];
        assert(!is_sideways(listing.scope[j].name()));
    }
    assert forall|s: CollectionSignatureModel| #[trigger] sorted.contains(s)
        <==> listing.scope.contains(s) by {
        if sorted.contains(s) {
            let i = choose|i: int| 0 <= i < sorted.len() && sorted[i] == s;
            assert(listing.scope.contains(sorted[i]));
        }
        if listing.scope.contains(s) {
            let i = choose|i: int| 0 <= i < listing.scope.len() && listing.scope[i] == s;
            assert(sorted.contains(listing.scope[i]));
        }
    }
    assert(sorted.to_set() =~= brought) by {
        assert(listing.scope.to_set() == brought);
        assert forall|s: CollectionSignatureModel| #[trigger] sorted.to_set().contains(s)
            <==> brought.contains(s) by {
            assert(sorted.contains(s) <==> listing.scope.contains(s));
            assert(listing.scope.contains(s) <==> listing.scope.to_set().contains(s));
        }
    }
    assert forall|s: CollectionSignatureModel| #[trigger] heads.contains(s) implies s is Atom by {
        assert(is_head(plans, s));
    }
    lemma_entered_agrees(
        arities,
        tables,
        heads,
        scope.variables,
        sorted,
        seen,
        store,
        held,
    );
    lemma_enters_list(tables, heads, scope.variables, sorted);
    assert forall|i: int| 0 <= i < listing.last_signatures.len() implies !is_sideways(
        (#[trigger] listing.last_signatures[i]).0.name(),
    ) by {
        assert(is_head(plans, listing.last_signatures[i].0));
    }
    assert forall|s: CollectionSignatureModel| (#[trigger] sideways_heads(
        heads_of(scope.last_signatures, s),
    )).len() == 0 by {
        lemma_no_copies(listing.last_signatures, s);
    }
    assert forall|name: Seq<char>| #[trigger] has_rule(rules, stratum, name) <==> is_head(
        plans,
        CollectionSignatureModel::Atom { name },
    ) by {
        lemma_rule_is_head(plans, rules, stratum, name);
    }
    assert forall|name: Seq<char>, row: Seq<i64>|
        {
            let s = CollectionSignatureModel::Atom { name };
            &&& inside.rows.contains(s) ==> (entered(store, enters)(
                Table::Row,
                s,
                Seq::empty(),
                row,
            ) <==> #[trigger] db(name, row))
            &&& !inside.rows.contains(s) && scope.is_recursive && scope.variables.contains(s) ==> (
            variables(s, row) <==> db(name, row))
        } by {
        let s = CollectionSignatureModel::Atom { name };
        assert(has_rule(rules, stratum, name) <==> is_head(plans, s));
        assert(heads.contains(s) <==> is_head(plans, s));
        assert(scope.variables.contains(s) <==> is_head(plans, s));
    }
    assert forall|name: Seq<char>, row: Seq<i64>| has_rule(rules, stratum, name) implies (
    start.contains(CollectionSignatureModel::Atom { name }) && store(
        Table::Row,
        CollectionSignatureModel::Atom { name },
        Seq::empty(),
        row,
    ) <==> #[trigger] rows_in(store)(name, row)) by {
        let s = CollectionSignatureModel::Atom { name };
        assert(heads.contains(s) <==> is_head(plans, s));
        assert(sorted.contains(s) <==> listing.scope.contains(s));
    }
}

proof fn lemma_rule_is_head(
    plans: Seq<RulePlanModel>,
    rules: Seq<FLRuleModel>,
    stratum: Seq<usize>,
    name: Seq<char>,
)
    requires
        are_plans_of(plans, rules, stratum),
    ensures
        has_rule(rules, stratum, name) <==> is_head(plans, CollectionSignatureModel::Atom { name }),
{
    let s = CollectionSignatureModel::Atom { name };
    if has_rule(rules, stratum, name) {
        let r = choose|r: usize| #[trigger]
            stratum.contains(r) && rules[r as int].head.name == name;
        let k = choose|k: int| 0 <= k < stratum.len() && stratum[k] == r;
        assert(head_of(plans[k]) == s);
    }
    if is_head(plans, s) {
        let k = choose|k: int| 0 <= k < plans.len() && head_of(#[trigger] plans[k]) == s;
        assert(stratum.contains(stratum[k]));
    }
}

proof fn lemma_nested_order(
    arities: Arities,
    plans: Seq<RulePlanModel>,
    seen: Set<CollectionSignatureModel>,
    disable_sharing: bool,
)
    requires
        are_runnable_plans(arities, plans),
    ensures
        is_in_order(
            arities,
            plans,
            flat(nested_rows_of(plans, seen, disable_sharing).0),
            nested_rows_of(plans, seen, disable_sharing).1,
        ),
{
    reveal(is_in_order);
    lemma_runnable_is_clear(arities, plans);
    lemma_nested_rows(arities, plans, seen, disable_sharing);
}

/// A round of a loop puts into each relation of its stratum what the rules derive from
/// the rows of the round, together with the rows that the relation had outside.
pub proof fn law_rounds_apply_the_rules(
    arities: Arities,
    tables: TablesModel,
    listing: GroupListing,
    plans: Seq<RulePlanModel>,
    seen: Set<CollectionSignatureModel>,
    disable_sharing: bool,
    store: Store,
    held: Holdings,
    rules: Seq<FLRuleModel>,
    stratum: Seq<usize>,
    variables: Variables,
)
    requires
        can_go_round(
            arities,
            tables,
            listing,
            plans,
            seen,
            disable_sharing,
            store,
            held,
            rules,
            stratum,
        ),
        are_accounted(rows_in_round(store, variables, rules, stratum), arities, held, seen),
        fits(rows_in_round(store, variables, rules, stratum), arities),
    ensures
        loop_stage(tables, first_heads(rules), listing)->Ok_0.0 matches StageModel::Loop {
            enters,
            actions,
            collects,
            ..
        } && forall|name: Seq<char>, row: Seq<i64>|
            has_rule(rules, stratum, name) ==> (#[trigger] after_round(
                store,
                enters,
                actions,
                collects,
                variables,
            )(CollectionSignatureModel::Atom { name }, row) <==> gathered(
                gather_of(rules, name),
                put_together(
                    rows_in(store),
                    rows_in_round(store, variables, rules, stratum),
                    rules,
                    stratum,
                    name,
                ),
                row,
            )),
{
    let idbs = first_heads(rules);
    let db = rows_in_round(store, variables, rules, stratum);
    let heads = entry_heads(listing.last_signatures).to_set();
    let scope = loop_scope(listing);
    let (enters, inside, start) = enters_of(
        tables,
        heads,
        scope.variables,
        by_title(listing.scope),
    )->Ok_0;
    lemma_round_starts(
        arities,
        tables,
        listing,
        plans,
        seen,
        disable_sharing,
        store,
        held,
        rules,
        stratum,
        variables,
    );
    lemma_nested_order(arities, plans, seen, disable_sharing);
    law_group_steps_derive_the_rules(db, arities, held, plans, seen, disable_sharing, true);
    let acted = step_actions(inside, scope, listing.steps)->Ok_0;
    lemma_group_acts(
        db,
        arities,
        entered(store, enters),
        variables,
        held,
        inside,
        scope,
        plans,
        listing.steps,
        nested_rows_of(plans, seen, disable_sharing).1,
    );
    let kept = after_acting_all(entered(store, enters), variables, acted.0);
    lemma_runnable_is_clear(arities, plans);
    assert forall|k: int| 0 <= k < plans.len() implies !(put_out(
        (#[trigger] plans[k]).steps.last,
    ) is Atom) by {
        lemma_told(arities, plans[k].steps.last);
    }
    assert(listing.rules =~= rules_of(plans));
    lemma_group_collects(acted.1.rows, Some(start), idbs, listing, plans);
    let collects = collects_of(
        acted.1.rows,
        Some(start),
        listing.rules,
        idbs,
        by_title(listing.last_signatures),
    )->Ok_0.0;
    assert forall|name: Seq<char>, row: Seq<i64>| has_rule(rules, stratum, name) implies (
    #[trigger] after_round(store, enters, acted.0, collects, variables)(
        CollectionSignatureModel::Atom { name },
        row,
    ) <==> gathered(
        gather_of(rules, name),
        put_together(rows_in(store), db, rules, stratum, name),
        row,
    )) by {
        lemma_collected(
            db,
            rows_in(store),
            kept,
            store,
            plans,
            rules,
            stratum,
            collects,
            start,
            name,
            row,
        );
    }
}

/// The rows of the variables of a loop after some rounds, the relations empty at first.
pub open spec fn after_rounds(
    outside: Store,
    enters: Seq<EnterModel>,
    actions: Seq<ActionModel>,
    collects: Seq<CollectModel>,
    n: nat,
) -> Variables
    decreases n,
{
    if n == 0 {
        |s: CollectionSignatureModel, row: Seq<i64>| false
    } else {
        after_round(
            outside,
            enters,
            actions,
            collects,
            after_rounds(outside, enters, actions, collects, (n - 1) as nat),
        )
    }
}

/// Whether in all rounds the rows have the columns of their relations, and what is held
/// of steps outside is accounted for.
pub open spec fn goes_on(
    arities: Arities,
    seen: Set<CollectionSignatureModel>,
    held: Holdings,
    before: Database,
    rules: Seq<FLRuleModel>,
    stratum: Seq<usize>,
) -> bool {
    forall|n: nat|
        are_accounted(#[trigger] rounds(before, rules, stratum, n), arities, held, seen) && fits(
            rounds(before, rules, stratum, n),
            arities,
        )
}

/// A stage with a loop goes through the rounds in which its stratum is evaluated.
proof fn lemma_loop_rounds(
    arities: Arities,
    tables: TablesModel,
    listing: GroupListing,
    plans: Seq<RulePlanModel>,
    seen: Set<CollectionSignatureModel>,
    disable_sharing: bool,
    store: Store,
    held: Holdings,
    rules: Seq<FLRuleModel>,
    stratum: Seq<usize>,
    enters: Seq<EnterModel>,
    actions: Seq<ActionModel>,
    collects: Seq<CollectModel>,
    n: nat,
)
    requires
        can_go_round(
            arities,
            tables,
            listing,
            plans,
            seen,
            disable_sharing,
            store,
            held,
            rules,
            stratum,
        ),
        goes_on(arities, seen, held, rows_in(store), rules, stratum),
        loop_stage(tables, first_heads(rules), listing)->Ok_0.0 matches StageModel::Loop {
            enters: e,
            actions: a,
            collects: c,
            ..
        } && e == enters && a == actions && c == collects,
    ensures
        rows_in_round(
            store,
            after_rounds(store, enters, actions, collects, n),
            rules,
            stratum,
        ) == rounds(rows_in(store), rules, stratum, n),
    decreases n,
{
    let now = rows_in_round(
        store,
        after_rounds(store, enters, actions, collects, n),
        rules,
        stratum,
    );
    let wanted = rounds(rows_in(store), rules, stratum, n);
    if n > 0 {
        let m = (n - 1) as nat;
        lemma_loop_rounds(
            arities,
            tables,
            listing,
            plans,
            seen,
            disable_sharing,
            store,
            held,
            rules,
            stratum,
            enters,
            actions,
            collects,
            m,
        );
        assert(fits(rounds(rows_in(store), rules, stratum, m), arities));
        law_rounds_apply_the_rules(
            arities,
            tables,
            listing,
            plans,
            seen,
            disable_sharing,
            store,
            held,
            rules,
            stratum,
            after_rounds(store, enters, actions, collects, m),
        );
    }
    assert forall|name: Seq<char>, row: Seq<i64>| #[trigger] now(name, row) == wanted(name, row) by {
        if n > 0 && has_rule(rules, stratum, name) {
            let before = after_rounds(store, enters, actions, collects, (n - 1) as nat);
            assert(now(name, row) == after_round(store, enters, actions, collects, before)(
                CollectionSignatureModel::Atom { name },
                row,
            ));
        }
    }
    assert(now =~= wanted);
}

/// A stage with a loop evaluates its stratum: where a round changes nothing any more,
/// the relations of the stratum hold what its rules say, and no more than they must
/// where the rules are monotone; all other relations are as they were. This is said of
/// groups without rewriting whose plans can be run and read.
pub proof fn law_loop_stages_evaluate_their_stratum(
    arities: Arities,
    tables: TablesModel,
    listing: GroupListing,
    plans: Seq<RulePlanModel>,
    seen: Set<CollectionSignatureModel>,
    disable_sharing: bool,
    store: Store,
    held: Holdings,
    rules: Seq<FLRuleModel>,
    stratum: Seq<usize>,
    enters: Seq<EnterModel>,
    actions: Seq<ActionModel>,
    collects: Seq<CollectModel>,
    n: nat,
)
    requires
        can_go_round(
            arities,
            tables,
            listing,
            plans,
            seen,
            disable_sharing,
            store,
            held,
            rules,
            stratum,
        ),
        goes_on(arities, seen, held, rows_in(store), rules, stratum),
        loop_stage(tables, first_heads(rules), listing)->Ok_0.0 matches StageModel::Loop {
            enters: e,
            actions: a,
            collects: c,
            ..
        } && e == enters && a == actions && c == collects,
        after_rounds(store, enters, actions, collects, n + 1) == after_rounds(
            store,
            enters,
            actions,
            collects,
            n,
        ),
    ensures
        is_evaluated(
            rows_in(store),
            rows_in_round(
                store,
                after_rounds(store, enters, actions, collects, n),
                rules,
                stratum,
            ),
            rules,
            stratum,
            true,
        ),
{
    lemma_loop_rounds(
        arities,
        tables,
        listing,
        plans,
        seen,
        disable_sharing,
        store,
        held,
        rules,
        stratum,
        enters,
        actions,
        collects,
        n,
    );
    lemma_loop_rounds(
        arities,
        tables,
        listing,
        plans,
        seen,
        disable_sharing,
        store,
        held,
        rules,
        stratum,
        enters,
        actions,
        collects,
        n + 1,
    );
    law_rounds_evaluate_the_stratum(rows_in(store), rules, stratum, n);
}

} // verus!
