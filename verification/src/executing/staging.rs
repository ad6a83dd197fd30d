//! Planned programs can be put together as stages: no collection is absent.
use vstd::prelude::*;
use crate::catalog::body::{are_positions_small, atoms_of};
use crate::catalog::cores::core_ids;
use crate::catalog::handing::{comes_from, law_rewritten_rules_build_up};
use crate::catalog::head::HeadIDBModel;
use crate::catalog::sideways::sideways_rules;
use crate::executing::assembly::{
    collects_of, enters_of, entry_heads, first_absent, flat_stage, input_tables, listings,
    loop_heads, loop_stage, stages_of, GroupListing,
};
use crate::executing::dataflow::{
    heads_of, is_sideways, plain_heads, step_actions, table_for, ScopeModel, Table, TablesModel,
};
use crate::executing::names::Arities;
use crate::executing::order::{by_title, law_by_title, Titled};
use crate::executing::running::{are_readable, is_node, lemma_clear, lemma_rule_shape};
use crate::executing::shapes::ids_in;
use crate::executing::wiring::{
    are_clear_plans, are_filed, are_kept, are_relations, finds_rows, is_clear_plan, is_kept,
    is_last_of_rows, is_mentioned, is_of_plans, is_output, is_placed, is_told, is_within,
    lemma_nested_rows, lemma_rows, lemma_steps_are_wired, lemma_still_kept, lemma_told,
};
use crate::lists::{entries_map, lemma_unique_entries, unique_keys};
use crate::optimizing::covering::law_join_tree_covers;
use crate::optimizing::join_tree::JoinTree;
use crate::optimizing::optimizer::PlanTree;
use crate::parsing::decl::RelDeclModel;
use crate::parsing::rule::FLRuleModel;
use crate::planning::collections::CollectionSignatureModel;
use crate::planning::linking::{is_leaf, is_link, law_plan_is_linked};
use crate::planning::program::{
    all_groups, are_group_plans, are_rule_plans, expand_rule, expand_stratum, groups_of, groups_plan,
    has_sip, is_rule_plan, rules_at, ProgramQueryPlan,
};
use crate::planning::rule::{is_join_tree, rule_steps, RulePlanModel};
use crate::planning::sharing::{outputs, put_out};
use crate::planning::strata::{
    flat, group_plan, head_of, last_outputs, nested_rows_of, rows_of, GroupPlanModel,
};
use crate::planning::transformations::TransformationModel;
use crate::strata::components::{in_some, lists};
use crate::strata::dependencies::{dependencies, mentions};
use crate::strata::graph::edge;
use crate::strata::stratification::{law_dependencies_come_first, Strata};

verus! {

/// Whether one of some rules puts out a collection last.
pub open spec fn is_last(plans: Seq<RulePlanModel>, s: CollectionSignatureModel) -> bool {
    exists|k: int| 0 <= k < plans.len() && put_out((#[trigger] plans[k]).steps.last) == s
}

/// Whether one of some rules adds to a relation.
pub open spec fn is_head(plans: Seq<RulePlanModel>, s: CollectionSignatureModel) -> bool {
    exists|k: int| 0 <= k < plans.len() && head_of(#[trigger] plans[k]) == s
}

/// Whether these lists hold what a group holds.
pub open spec fn is_listing_of(listing: GroupListing, group: GroupPlanModel) -> bool {
    &&& listing.is_recursive == group.is_recursive
    &&& listing.rules == group.rules
    &&& listing.steps == flat(group.strata_plan)
    &&& listing.scope.to_set() == group.enter_scope
    &&& unique_keys(listing.last_signatures)
    &&& entries_map(listing.last_signatures) == group.last_signatures
}

pub proof fn lemma_last_outputs(plans: Seq<RulePlanModel>)
    ensures
        forall|head: CollectionSignatureModel| #[trigger]
            last_outputs(plans).contains_key(head) ==> is_head(plans, head),
        forall|head: CollectionSignatureModel, i: int|
            last_outputs(plans).contains_key(head) && 0 <= i < last_outputs(plans)[head].len()
                ==> is_last(plans, #[trigger] last_outputs(plans)[head][i]),
        forall|k: int|
            0 <= k < plans.len() ==> last_outputs(plans).contains_key(head_of(#[trigger] plans[k]))
                && last_outputs(plans)[head_of(plans[k])].contains(put_out(plans[k].steps.last)),
    decreases plans.len(),
{
    if plans.len() > 0 {
        let front = plans.drop_last();
        let last = plans.last();
        let n = plans.len() - 1;
        lemma_last_outputs(front);
        let map = last_outputs(plans);
        assert(plans[n] == last);
        assert forall|head: CollectionSignatureModel| #[trigger] map.contains_key(
            head,
        ) implies is_head(plans, head) by {
            if head != head_of(last) {
                assert(last_outputs(front).contains_key(head));
                let k = choose|k: int| 0 <= k < front.len() && head_of(#[trigger] front[k]) == head;
                assert(plans[k] == front[k]);
            }
        }
        assert forall|head: CollectionSignatureModel, i: int|
            map.contains_key(head) && 0 <= i < map[head].len() implies is_last(
            plans,
            #[trigger] map[head][i],
        ) by {
            if head == head_of(last) && i == map[head].len() - 1 {
                assert(map[head][i] == put_out(last.steps.last));
            } else {
                assert(last_outputs(front).contains_key(head));
                assert(map[head][i] == last_outputs(front)[head][i]);
                let k = choose|k: int|
                    0 <= k < front.len() && put_out((#[trigger] front[k]).steps.last)
                        == map[head][i];
                assert(plans[k] == front[k]);
            }
        }
        assert forall|k: int| 0 <= k < plans.len() implies map.contains_key(
            head_of(#[trigger] plans[k]),
        ) && map[head_of(plans[k])].contains(put_out(plans[k].steps.last)) by {
            let head = head_of(plans[k]);
            let output = put_out(plans[k].steps.last);
            if k == n {
                assert(map[head][map[head].len() - 1] == output);
            } else {
                assert(plans[k] == front[k]);
                let before = last_outputs(front)[head];
                let i = choose|i: int| 0 <= i < before.len() && before[i] == output;
                assert(map[head][i] == output);
            }
        }
    }
}

/// The entries of a group: its relations, each with what its rules put out last.
pub proof fn lemma_entries(listing: GroupListing, plans: Seq<RulePlanModel>)
    requires
        unique_keys(listing.last_signatures),
        entries_map(listing.last_signatures) == last_outputs(plans),
    ensures
        are_relations(listing.last_signatures),
        forall|i: int|
            0 <= i < listing.last_signatures.len() ==> is_head(
                plans,
                (#[trigger] listing.last_signatures[i]).0,
            ),
        forall|i: int, j: int|
            0 <= i < listing.last_signatures.len() && 0 <= j < listing.last_signatures[i].1.len()
                ==> is_last(plans, #[trigger] listing.last_signatures[i].1[j]),
        forall|k: int|
            0 <= k < plans.len() ==> exists|i: int|
                0 <= i < listing.last_signatures.len() && (
                #[trigger] listing.last_signatures[i]).0 == head_of(#[trigger] plans[k])
                    && listing.last_signatures[i].1.contains(put_out(plans[k].steps.last)),
{
    let entries = listing.last_signatures;
    let map = last_outputs(plans);
    lemma_last_outputs(plans);
    lemma_unique_entries(entries);
    assert forall|i: int, j: int|
        0 <= i < entries.len() && 0 <= j < entries[i].1.len() implies is_last(
        plans,
        #[trigger] entries[i].1[j],
    ) by {
        assert(map.contains_key(entries[i].0));
        assert(map[entries[i].0] == entries[i].1);
        assert(is_last(plans, map[entries[i].0][j]));
    }
    assert forall|i: int| 0 <= i < entries.len() implies is_head(
        plans,
        (#[trigger] entries[i]).0,
    ) by {
        assert(map.contains_key(entries[i].0));
    }
    assert forall|k: int| 0 <= k < plans.len() implies exists|i: int|
        0 <= i < entries.len() && (#[trigger] entries[i]).0 == head_of(#[trigger] plans[k])
            && entries[i].1.contains(put_out(plans[k].steps.last)) by {
        let head = head_of(plans[k]);
        assert(map.contains_key(head));
        let i = choose|i: int| 0 <= i < entries.len() && (#[trigger] entries[i]).0 == head;
        assert(map[entries[i].0] == entries[i].1);
    }
}

/// The items in the order of their names are the items.
pub proof fn lemma_by_title_items<M: Titled>(items: Seq<M>)
    ensures
        forall|i: int|
            0 <= i < by_title(items).len() ==> items.contains(#[trigger] by_title(items)[i]),
        forall|i: int| 0 <= i < items.len() ==> by_title(items).contains(#[trigger] items[i]),
{
    broadcast use vstd::seq_lib::group_to_multiset_ensures;

    law_by_title(items);
    let sorted = by_title(items);
    assert forall|i: int| 0 <= i < sorted.len() implies items.contains(#[trigger] sorted[i]) by {
        assert(sorted.contains(sorted[i]));
        assert(sorted.to_multiset().count(sorted[i]) > 0);
        assert(items.to_multiset().count(sorted[i]) > 0);
    }
    assert forall|i: int| 0 <= i < items.len() implies sorted.contains(#[trigger] items[i]) by {
        assert(items.contains(items[i]));
        assert(items.to_multiset().count(items[i]) > 0);
        assert(sorted.to_multiset().count(items[i]) > 0);
    }
}

proof fn lemma_none_absent(
    parts: Seq<CollectionSignatureModel>,
    known: Set<CollectionSignatureModel>,
)
    requires
        forall|i: int| 0 <= i < parts.len() ==> known.contains(#[trigger] parts[i]),
    ensures
        first_absent(parts, known) is None,
    decreases parts.len(),
{
    if parts.len() > 0 {
        assert(known.contains(parts[parts.len() - 1]));
        assert forall|i: int| 0 <= i < parts.drop_last().len() implies known.contains(
            #[trigger] parts.drop_last()[i],
        ) by {
            assert(parts.drop_last()[i] == parts[i]);
        }
        lemma_none_absent(parts.drop_last(), known);
    }
}

/// Relations whose parts are known can be put together.
proof fn lemma_collects(
    rows: Set<CollectionSignatureModel>,
    start: Option<Set<CollectionSignatureModel>>,
    rules: Seq<FLRuleModel>,
    idbs: Seq<(Seq<char>, HeadIDBModel)>,
    entries: Seq<(CollectionSignatureModel, Seq<CollectionSignatureModel>)>,
)
    requires
        forall|i: int, j: int|
            0 <= i < entries.len() && 0 <= j < entries[i].1.len() ==> rows.contains(
                #[trigger] entries[i].1[j],
            ),
    ensures
        collects_of(rows, start, rules, idbs, entries) is Ok,
        start is None ==> ({
            let known = collects_of(rows, start, rules, idbs, entries)->Ok_0.1;
            &&& rows.subset_of(known)
            &&& forall|i: int|
                0 <= i < entries.len() ==> known.contains((#[trigger] entries[i]).0)
            &&& forall|s: CollectionSignatureModel| #[trigger]
                known.contains(s) ==> rows.contains(s) || exists|i: int|
                    0 <= i < entries.len() && (#[trigger] entries[i]).0 == s
        }),
    decreases entries.len(),
{
    if entries.len() > 0 {
        let front = entries.drop_last();
        let n = entries.len() - 1;
        assert forall|i: int, j: int|
            0 <= i < front.len() && 0 <= j < front[i].1.len() implies rows.contains(
            #[trigger] front[i].1[j],
        ) by {
            assert(front[i].1[j] == entries[i].1[j]);
        }
        lemma_collects(rows, start, rules, idbs, front);
        let (before, known) = collects_of(rows, start, rules, idbs, front)->Ok_0;
        let parts = entries.last().1;
        let parts_in = if start is Some {
            rows
        } else {
            known
        };
        assert forall|j: int| 0 <= j < parts.len() implies parts_in.contains(
            #[trigger] parts[j],
        ) by {
            assert(parts[j] == entries[n].1[j]);
        }
        lemma_none_absent(parts, parts_in);
        if start is None {
            let after = collects_of(rows, start, rules, idbs, entries)->Ok_0.1;
            assert(after == known.insert(entries.last().0));
            assert forall|i: int| 0 <= i < entries.len() implies after.contains(
                (#[trigger] entries[i]).0,
            ) by {
                if i < n {
                    assert(entries[i] == front[i]);
                }
            }
            assert forall|s: CollectionSignatureModel| #[trigger]
                after.contains(s) implies rows.contains(s) || exists|i: int|
                0 <= i < entries.len() && (#[trigger] entries[i]).0 == s by {
                if s == entries.last().0 {
                    assert(entries[n].0 == s);
                } else if !rows.contains(s) {
                    assert(known.contains(s));
                    let i = choose|i: int| 0 <= i < front.len() && (#[trigger] front[i]).0 == s;
                    assert(entries[i].0 == s);
                }
            }
        }
    }
}

/// Whether a collection can be brought in: it is known outside, or it is a relation
/// that grows in the loop.
pub open spec fn can_enter(
    outside: TablesModel,
    variables: Set<CollectionSignatureModel>,
    s: CollectionSignatureModel,
) -> bool {
    &&& !is_sideways(s.name())
    &&& outside.rows.contains(s) || outside.key_values.contains(s) || outside.keys.contains(s)
        || variables.contains(s)
}

/// What is known in a loop of a collection that has been brought in.
spec fn has_entered(
    outside: TablesModel,
    inside: TablesModel,
    heads: Set<CollectionSignatureModel>,
    s: CollectionSignatureModel,
) -> bool {
    if outside.rows.contains(s) {
        heads.contains(s) || inside.rows.contains(s)
    } else if outside.key_values.contains(s) {
        inside.key_values.contains(s)
    } else {
        outside.keys.contains(s) ==> inside.keys.contains(s)
    }
}

proof fn lemma_enters(
    outside: TablesModel,
    heads: Set<CollectionSignatureModel>,
    variables: Set<CollectionSignatureModel>,
    scope: Seq<CollectionSignatureModel>,
)
    requires
        forall|i: int| 0 <= i < scope.len() ==> can_enter(outside, variables, #[trigger] scope[i]),
    ensures
        enters_of(outside, heads, variables, scope) is Ok,
        ({
            let inside = enters_of(outside, heads, variables, scope)->Ok_0.1;
            &&& is_within(inside, outside)
            &&& forall|i: int|
                0 <= i < scope.len() ==> has_entered(outside, inside, heads, #[trigger] scope[i])
        }),
    decreases scope.len(),
{
    if scope.len() > 0 {
        let front = scope.drop_last();
        let n = scope.len() - 1;
        let s = scope.last();
        assert(scope[n] == s);
        assert forall|i: int| 0 <= i < front.len() implies can_enter(
            outside,
            variables,
            #[trigger] front[i],
        ) by {
            assert(front[i] == scope[i]);
        }
        lemma_enters(outside, heads, variables, front);
        let before = enters_of(outside, heads, variables, front)->Ok_0.1;
        let inside = enters_of(outside, heads, variables, scope)->Ok_0.1;
        assert forall|table: Table| (#[trigger] inside.of(table)).subset_of(outside.of(table)) by {
            assert(before.of(table).subset_of(outside.of(table)));
        }
        assert forall|i: int| 0 <= i < scope.len() implies has_entered(
            outside,
            inside,
            heads,
            #[trigger] scope[i],
        ) by {
            if i < n {
                assert(scope[i] == front[i]);
                assert(has_entered(outside, before, heads, front[i]));
            }
        }
    }
}

/// What is known where nothing is absent from a stage.
pub open spec fn is_sound(
    arities: Arities,
    tables: TablesModel,
    seen: Set<CollectionSignatureModel>,
) -> bool {
    are_kept(arities, tables, seen) && are_filed(arities, tables)
}

/// A group without recursion becomes a stage where the relations that its rules
/// mention are known.
proof fn lemma_flat_stage(
    arities: Arities,
    tables: TablesModel,
    idbs: Seq<(Seq<char>, HeadIDBModel)>,
    listing: GroupListing,
    plans: Seq<RulePlanModel>,
    seen: Set<CollectionSignatureModel>,
    disable_sharing: bool,
)
    requires
        is_listing_of(listing, group_plan(false, plans, seen, disable_sharing).0),
        are_clear_plans(arities, plans),
        is_sound(arities, tables, seen),
        forall|name: Seq<char>| #[trigger]
            is_mentioned(plans, name) ==> tables.rows.contains(
                CollectionSignatureModel::Atom { name },
            ),
    ensures
        flat_stage(tables, idbs, listing) is Ok,
        ({
            let after = flat_stage(tables, idbs, listing)->Ok_0.1;
            &&& is_within(tables, after)
            &&& is_sound(arities, after, group_plan(false, plans, seen, disable_sharing).1)
            &&& forall|k: int|
                0 <= k < plans.len() ==> after.rows.contains(head_of(#[trigger] plans[k]))
        }),
{
    let scope = ScopeModel {
        is_recursive: false,
        variables: Set::empty(),
        last_signatures: listing.last_signatures,
    };
    let (rows, seen_after) = rows_of(plans, seen, disable_sharing);
    let steps = listing.steps;
    assert(steps == flat(rows));
    lemma_rows(arities, plans, seen, disable_sharing);
    lemma_entries(listing, plans);
    assert forall|i: int| 0 <= i < steps.len() implies is_told(arities, #[trigger] steps[i])
        && finds_rows(tables, scope, steps[i]) && is_last_of_rows(scope, steps[i]) by {
        lemma_step_reads(arities, plans, steps[i]);
    }
    lemma_steps_are_wired(arities, tables, scope, steps, seen);
    let known = step_actions(tables, scope, steps)->Ok_0.1;
    let all = seen.union(outputs(steps));
    let entries = by_title(listing.last_signatures);
    lemma_parts_are_rows(arities, known, listing, plans, all);
    lemma_collects(known.rows, None, listing.rules, idbs, entries);
    let after = flat_stage(tables, idbs, listing)->Ok_0.1;
    lemma_by_title_items(listing.last_signatures);
    assert(is_within(known, after)) by {
        assert forall|table: Table| (#[trigger] known.of(table)).subset_of(after.of(table)) by {}
    }
    assert(is_within(tables, after)) by {
        assert forall|table: Table| (#[trigger] tables.of(table)).subset_of(after.of(table)) by {
            assert(tables.of(table).subset_of(known.of(table)));
            assert(known.of(table).subset_of(after.of(table)));
        }
    }
    lemma_still_kept(arities, known, after, all);
    assert(are_kept(arities, after, seen_after));
    assert forall|step: TransformationModel, table: Table| #[trigger]
        is_told(arities, step) && #[trigger] after.of(table).contains(
            put_out(step),
        ) implies table == table_for(step.output) by {
        if !known.of(table).contains(put_out(step)) {
            lemma_told(arities, step);
            let i = choose|i: int|
                0 <= i < entries.len() && (#[trigger] entries[i]).0 == put_out(step);
            assert(listing.last_signatures.contains(entries[i]));
        }
    }
    assert forall|k: int| 0 <= k < plans.len() implies after.rows.contains(
        head_of(#[trigger] plans[k]),
    ) by {
        let i = choose|i: int|
            0 <= i < listing.last_signatures.len() && (#[trigger] listing.last_signatures[i]).0
                == head_of(plans[k]);
        assert(entries.contains(listing.last_signatures[i]));
        let j = choose|j: int| 0 <= j < entries.len() && entries[j] == listing.last_signatures[i];
        assert(entries[j].0 == head_of(plans[k]));
    }
}

/// A step of some plans can be told, and a step on a relation reads one that a rule
/// mentions.
proof fn lemma_step_reads(
    arities: Arities,
    plans: Seq<RulePlanModel>,
    step: TransformationModel,
)
    requires
        is_of_plans(arities, plans, step),
    ensures
        is_told(arities, step),
        step.is_unary() ==> step.input.signature is Atom && is_mentioned(
            plans,
            step.input.signature.name(),
        ),
{
    let k = choose|k: int|
        0 <= k < plans.len() && is_placed(
            arities,
            (#[trigger] plans[k]).rule,
            plans[k].steps.tree,
            step,
        );
    assert(is_placed(arities, plans[k].rule, plans[k].steps.tree, step));
    lemma_told(arities, step);
    if step.is_unary() {
        if plans[k].steps.tree.contains_key(step) {
            assert(is_link(plans[k].rule, plans[k].steps.tree, Set::empty(), step));
        } else {
            assert(is_leaf(plans[k].rule, step));
        }
    }
}

/// What rules put out last is known as rows.
proof fn lemma_parts_are_rows(
    arities: Arities,
    known: TablesModel,
    listing: GroupListing,
    plans: Seq<RulePlanModel>,
    all: Set<CollectionSignatureModel>,
)
    requires
        are_clear_plans(arities, plans),
        are_kept(arities, known, all),
        forall|k: int|
            0 <= k < plans.len() ==> all.contains(put_out((#[trigger] plans[k]).steps.last)),
        forall|i: int, j: int|
            0 <= i < listing.last_signatures.len() && 0 <= j < listing.last_signatures[i].1.len()
                ==> is_last(plans, #[trigger] listing.last_signatures[i].1[j]),
    ensures
        forall|i: int, j: int|
            0 <= i < by_title(listing.last_signatures).len() && 0 <= j < by_title(
                listing.last_signatures,
            )[i].1.len() ==> known.rows.contains(
                #[trigger] by_title(listing.last_signatures)[i].1[j],
            ),
{
    let entries = by_title(listing.last_signatures);
    lemma_by_title_items(listing.last_signatures);
    assert forall|i: int, j: int|
        0 <= i < entries.len() && 0 <= j < entries[i].1.len() implies known.rows.contains(
        #[trigger] entries[i].1[j],
    ) by {
        assert(listing.last_signatures.contains(entries[i]));
        let m = choose|m: int|
            0 <= m < listing.last_signatures.len() && listing.last_signatures[m] == entries[i];
        assert(is_last(plans, listing.last_signatures[m].1[j]));
        let k = choose|k: int|
            0 <= k < plans.len() && put_out((#[trigger] plans[k]).steps.last) == entries[i].1[j];
        let step = plans[k].steps.last;
        assert(is_clear_plan(arities, plans[k]));
        assert(is_placed(arities, plans[k].rule, plans[k].steps.tree, step));
        assert(is_told(arities, step));
        assert(is_kept(known, step.output));
    }
}

/// Whether a group can be carried out in a loop: neither its relations nor what is
/// brought in are made by rewriting, and joins that put out rows are the last ones
/// of rules.
pub open spec fn can_loop(
    plans: Seq<RulePlanModel>,
    seen: Set<CollectionSignatureModel>,
    disable_sharing: bool,
) -> bool {
    let (rows, scope, _) = nested_rows_of(plans, seen, disable_sharing);
    &&& forall|k: int| 0 <= k < plans.len() ==> !is_sideways((#[trigger] plans[k]).rule.head.name)
    &&& forall|s: CollectionSignatureModel| #[trigger] scope.contains(s) ==> !is_sideways(s.name())
    &&& forall|i: int|
        0 <= i < flat(rows).len() && !(#[trigger] flat(rows)[i]).is_unary()
            && flat(rows)[i].output.keys.len() == 0 ==> is_last(plans, put_out(flat(rows)[i]))
}

proof fn lemma_plain_heads(heads: Seq<CollectionSignatureModel>)
    requires
        forall|i: int| 0 <= i < heads.len() ==> !is_sideways((#[trigger] heads[i]).name()),
    ensures
        plain_heads(heads) == heads,
    decreases heads.len(),
{
    if heads.len() > 0 {
        let front = heads.drop_last();
        assert(!is_sideways(heads[heads.len() - 1].name()));
        assert forall|i: int| 0 <= i < front.len() implies !is_sideways(
            (#[trigger] front[i]).name(),
        ) by {
            assert(front[i] == heads[i]);
        }
        lemma_plain_heads(front);
        assert(front.push(heads.last()) =~= heads);
    } else {
        assert(plain_heads(heads) =~= heads);
    }
}

proof fn lemma_has_head(
    entries: Seq<(CollectionSignatureModel, Seq<CollectionSignatureModel>)>,
    output: CollectionSignatureModel,
    i: int,
)
    requires
        0 <= i < entries.len(),
        entries[i].1.contains(output),
    ensures
        heads_of(entries, output).len() > 0,
    decreases entries.len(),
{
    if i < entries.len() - 1 {
        assert(entries.drop_last()[i] == entries[i]);
        lemma_has_head(entries.drop_last(), output, i);
    }
}

/// The relations of a group grow in its loop.
pub proof fn lemma_variables(listing: GroupListing, plans: Seq<RulePlanModel>)
    requires
        unique_keys(listing.last_signatures),
        entries_map(listing.last_signatures) == last_outputs(plans),
        forall|k: int|
            0 <= k < plans.len() ==> !is_sideways((#[trigger] plans[k]).rule.head.name),
    ensures
        forall|s: CollectionSignatureModel| #[trigger]
            loop_heads(listing).to_set().contains(s) <==> is_head(plans, s),
        forall|s: CollectionSignatureModel| #[trigger]
            entry_heads(listing.last_signatures).to_set().contains(s) <==> is_head(plans, s),
{
    let entries = listing.last_signatures;
    let sorted = by_title(entries);
    let all = entry_heads(sorted);
    lemma_entries(listing, plans);
    lemma_by_title_items(entries);
    assert forall|i: int| 0 <= i < sorted.len() implies is_head(plans, (#[trigger] sorted[i]).0) by {
        assert(entries.contains(sorted[i]));
    }
    assert forall|i: int| 0 <= i < all.len() implies !is_sideways((#[trigger] all[i]).name()) by {
        assert(is_head(plans, sorted[i].0));
    }
    lemma_plain_heads(all);
    assert forall|s: CollectionSignatureModel| #[trigger] all.to_set().contains(s) <==> is_head(
        plans,
        s,
    ) by {
        if all.contains(s) {
            let i = choose|i: int| 0 <= i < all.len() && all[i] == s;
            assert(sorted[i].0 == s);
        }
        if is_head(plans, s) {
            let k = choose|k: int| 0 <= k < plans.len() && head_of(#[trigger] plans[k]) == s;
            let i = choose|i: int|
                0 <= i < entries.len() && (#[trigger] entries[i]).0 == head_of(plans[k]);
            assert(sorted.contains(entries[i]));
            let j = choose|j: int| 0 <= j < sorted.len() && sorted[j] == entries[i];
            assert(all[j] == s);
        }
    }
    let heads = entry_heads(entries);
    assert forall|s: CollectionSignatureModel| #[trigger] heads.to_set().contains(s) <==> is_head(
        plans,
        s,
    ) by {
        if heads.contains(s) {
            let i = choose|i: int| 0 <= i < heads.len() && heads[i] == s;
            assert(entries[i].0 == s);
        }
        if is_head(plans, s) {
            let k = choose|k: int| 0 <= k < plans.len() && head_of(#[trigger] plans[k]) == s;
            let i = choose|i: int|
                0 <= i < entries.len() && (#[trigger] entries[i]).0 == head_of(plans[k]);
            assert(heads[i] == s);
        }
    }
}

/// A recursive group becomes a stage where the relations that its rules mention are
/// known or grow in its loop.
proof fn lemma_loop_stage(
    arities: Arities,
    tables: TablesModel,
    idbs: Seq<(Seq<char>, HeadIDBModel)>,
    listing: GroupListing,
    plans: Seq<RulePlanModel>,
    seen: Set<CollectionSignatureModel>,
    disable_sharing: bool,
)
    requires
        is_listing_of(listing, group_plan(true, plans, seen, disable_sharing).0),
        are_clear_plans(arities, plans),
        can_loop(plans, seen, disable_sharing),
        is_sound(arities, tables, seen),
        forall|name: Seq<char>| #[trigger]
            is_mentioned(plans, name) ==> tables.rows.contains(
                CollectionSignatureModel::Atom { name },
            ) || is_head(plans, CollectionSignatureModel::Atom { name }),
    ensures
        loop_stage(tables, idbs, listing) is Ok,
        ({
            let after = loop_stage(tables, idbs, listing)->Ok_0.1;
            &&& is_within(tables, after)
            &&& is_sound(arities, after, seen)
            &&& forall|k: int|
                0 <= k < plans.len() ==> after.rows.contains(head_of(#[trigger] plans[k]))
        }),
{
    let heads = entry_heads(listing.last_signatures).to_set();
    let variables = loop_heads(listing).to_set();
    let scope = ScopeModel {
        is_recursive: true,
        variables,
        last_signatures: listing.last_signatures,
    };
    let (rows, brought, nested) = nested_rows_of(plans, seen, disable_sharing);
    let steps = listing.steps;
    let sorted = by_title(listing.scope);
    lemma_nested_rows(arities, plans, seen, disable_sharing);
    lemma_entries(listing, plans);
    lemma_variables(listing, plans);
    lemma_by_title_items(listing.scope);
    assert forall|i: int| 0 <= i < sorted.len() implies can_enter(
        tables,
        variables,
        #[trigger] sorted[i],
    ) by {
        let s = sorted[i];
        assert(listing.scope.contains(s));
        assert(brought.contains(s));
        if seen.contains(s) && is_output(arities, s) {
            let step = choose|step: TransformationModel| #[trigger]
                is_told(arities, step) && put_out(step) == s;
            assert(is_kept(tables, step.output));
        } else {
            assert(s == CollectionSignatureModel::Atom { name: s.name() });
            assert(is_mentioned(plans, s.name()));
        }
    }
    lemma_enters(tables, heads, variables, sorted);
    let inside = enters_of(tables, heads, variables, sorted)->Ok_0.1;
    assert forall|s: CollectionSignatureModel| #[trigger] brought.contains(s) implies has_entered(
        tables,
        inside,
        heads,
        s,
    ) by {
        assert(listing.scope.to_set().contains(s));
        let i = choose|i: int| 0 <= i < listing.scope.len() && listing.scope[i] == s;
        assert(sorted.contains(listing.scope[i]));
        let j = choose|j: int| 0 <= j < sorted.len() && sorted[j] == s;
        assert(has_entered(tables, inside, heads, sorted[j]));
    }
    lemma_kept_inside(arities, tables, inside, heads, plans, seen, brought);
    assert forall|i: int| 0 <= i < steps.len() implies is_told(arities, #[trigger] steps[i])
        && finds_rows(inside, scope, steps[i]) && is_last_of_rows(scope, steps[i]) by {
        let step = steps[i];
        lemma_step_reads(arities, plans, step);
        if step.is_unary() {
            let s = step.input.signature;
            assert(brought.contains(s));
            assert(has_entered(tables, inside, heads, s));
            assert(s == CollectionSignatureModel::Atom { name: s.name() });
            assert(is_mentioned(plans, s.name()));
        } else if step.output.keys.len() == 0 {
            assert(is_last(plans, put_out(step)));
            let k = choose|k: int|
                0 <= k < plans.len() && put_out((#[trigger] plans[k]).steps.last) == put_out(step);
            let m = choose|m: int|
                0 <= m < listing.last_signatures.len() && (
                #[trigger] listing.last_signatures[m]).0 == head_of(plans[k])
                    && listing.last_signatures[m].1.contains(put_out(plans[k].steps.last));
            lemma_has_head(listing.last_signatures, put_out(step), m);
        }
    }
    lemma_steps_are_wired(arities, inside, scope, steps, brought);
    let known = step_actions(inside, scope, steps)->Ok_0.1;
    let all = brought.union(outputs(steps));
    let start = enters_of(tables, heads, variables, sorted)->Ok_0.2;
    lemma_parts_are_rows(arities, known, listing, plans, all);
    lemma_collects(known.rows, Some(start), listing.rules, idbs, by_title(listing.last_signatures));
    let after = loop_stage(tables, idbs, listing)->Ok_0.1;
    assert(is_within(tables, after)) by {
        assert forall|table: Table| (#[trigger] tables.of(table)).subset_of(after.of(table)) by {}
    }
    lemma_still_kept(arities, tables, after, seen);
    assert forall|step: TransformationModel, table: Table| #[trigger]
        is_told(arities, step) && #[trigger] after.of(table).contains(
            put_out(step),
        ) implies table == table_for(step.output) by {
        if !tables.of(table).contains(put_out(step)) {
            lemma_told(arities, step);
            assert(variables.contains(put_out(step)));
            assert(is_head(plans, put_out(step)));
        }
    }
    assert forall|k: int| 0 <= k < plans.len() implies after.rows.contains(
        head_of(#[trigger] plans[k]),
    ) by {
        assert(is_head(plans, head_of(plans[k])));
        assert(variables.contains(head_of(plans[k])));
    }
}

/// What was seen outside is kept inside as outside.
proof fn lemma_kept_inside(
    arities: Arities,
    tables: TablesModel,
    inside: TablesModel,
    heads: Set<CollectionSignatureModel>,
    plans: Seq<RulePlanModel>,
    seen: Set<CollectionSignatureModel>,
    brought: Set<CollectionSignatureModel>,
)
    requires
        is_sound(arities, tables, seen),
        is_within(inside, tables),
        forall|s: CollectionSignatureModel| heads.contains(s) ==> #[trigger] is_head(plans, s),
        forall|s: CollectionSignatureModel| #[trigger]
            brought.contains(s) ==> has_entered(tables, inside, heads, s),
        forall|s: CollectionSignatureModel| #[trigger]
            brought.contains(s) ==> (seen.contains(s) && is_output(arities, s)) || s is Atom,
    ensures
        is_sound(arities, inside, brought),
{
    assert forall|step: TransformationModel| #[trigger]
        is_told(arities, step) && brought.contains(put_out(step)) implies is_kept(
        inside,
        step.output,
    ) by {
        let s = put_out(step);
        lemma_told(arities, step);
        assert(seen.contains(s));
        assert(is_kept(tables, step.output));
        assert(has_entered(tables, inside, heads, s));
        assert(!heads.contains(s)) by {
            if heads.contains(s) {
                assert(is_head(plans, s));
            }
        }
        assert(tables.of(Table::Row).contains(s) ==> table_for(step.output) == Table::Row);
        assert(tables.of(Table::KeyValue).contains(s) ==> table_for(step.output)
            == Table::KeyValue);
        assert(tables.of(Table::Key).contains(s) ==> table_for(step.output) == Table::Key);
    }
    assert forall|step: TransformationModel, table: Table| #[trigger]
        is_told(arities, step) && #[trigger] inside.of(table).contains(
            put_out(step),
        ) implies table == table_for(step.output) by {
        assert(inside.of(table).subset_of(tables.of(table)));
        assert(tables.of(table).contains(put_out(step)));
    }
}

/// Whether a relation is at hand for a group: it is known from the start, a group
/// before adds to it, or the group is recursive and adds to it.
pub open spec fn is_at_hand(
    inputs: Set<CollectionSignatureModel>,
    plans: Seq<(bool, Seq<RulePlanModel>)>,
    i: int,
    s: CollectionSignatureModel,
) -> bool {
    ||| inputs.contains(s)
    ||| exists|j: int| 0 <= j < i && is_head((#[trigger] plans[j]).1, s)
    ||| plans[i].0 && is_head(plans[i].1, s)
}

/// Whether the relations that the rules of groups mention are at hand.
pub open spec fn are_at_hand(
    inputs: Set<CollectionSignatureModel>,
    plans: Seq<(bool, Seq<RulePlanModel>)>,
) -> bool {
    forall|i: int, name: Seq<char>|
        0 <= i < plans.len() && #[trigger] is_mentioned(plans[i].1, name) ==> is_at_hand(
            inputs,
            plans,
            i,
            CollectionSignatureModel::Atom { name },
        )
}

/// Whether the recursive ones of some groups can be carried out in loops.
pub open spec fn can_all_loop(
    plans: Seq<(bool, Seq<RulePlanModel>)>,
    disable_sharing: bool,
) -> bool {
    forall|i: int|
        0 <= i < plans.len() && (#[trigger] plans[i]).0 ==> can_loop(
            plans[i].1,
            groups_plan(plans.take(i), disable_sharing).1,
            disable_sharing,
        )
}

/// Whether these lists hold what groups hold.
pub open spec fn are_listings_of(
    groups: Seq<GroupListing>,
    models: Seq<GroupPlanModel>,
) -> bool {
    &&& groups.len() == models.len()
    &&& forall|i: int| 0 <= i < groups.len() ==> is_listing_of(#[trigger] groups[i], models[i])
}

proof fn lemma_groups_len(plans: Seq<(bool, Seq<RulePlanModel>)>, disable_sharing: bool)
    ensures
        groups_plan(plans, disable_sharing).0.len() == plans.len(),
    decreases plans.len(),
{
    if plans.len() > 0 {
        lemma_groups_len(plans.drop_last(), disable_sharing);
    }
}

/// Groups become stages, one after the other.
proof fn lemma_stages(
    arities: Arities,
    tables: TablesModel,
    idbs: Seq<(Seq<char>, HeadIDBModel)>,
    groups: Seq<GroupListing>,
    plans: Seq<(bool, Seq<RulePlanModel>)>,
    disable_sharing: bool,
)
    requires
        are_listings_of(groups, groups_plan(plans, disable_sharing).0),
        forall|i: int| 0 <= i < plans.len() ==> are_clear_plans(arities, (#[trigger] plans[i]).1),
        can_all_loop(plans, disable_sharing),
        are_at_hand(tables.rows, plans),
        is_sound(arities, tables, Set::empty()),
    ensures
        stages_of(tables, idbs, groups) is Ok,
        ({
            let after = stages_of(tables, idbs, groups)->Ok_0.1;
            &&& is_within(tables, after)
            &&& is_sound(arities, after, groups_plan(plans, disable_sharing).1)
            &&& forall|i: int, s: CollectionSignatureModel|
                0 <= i < plans.len() && #[trigger] is_head(plans[i].1, s) ==> after.rows.contains(s)
        }),
    decreases plans.len(),
{
    lemma_groups_len(plans, disable_sharing);
    if plans.len() > 0 {
        let front = plans.drop_last();
        let n = plans.len() - 1;
        let before = groups_plan(front, disable_sharing);
        let (is_recursive, rules) = plans.last();
        assert(plans[n] == plans.last());
        lemma_groups_len(front, disable_sharing);
        assert(are_listings_of(groups.drop_last(), before.0)) by {
            assert forall|i: int| 0 <= i < groups.drop_last().len() implies is_listing_of(
                #[trigger] groups.drop_last()[i],
                before.0[i],
            ) by {
                assert(is_listing_of(groups[i], groups_plan(plans, disable_sharing).0[i]));
            }
        }
        assert forall|i: int| 0 <= i < front.len() implies are_clear_plans(
            arities,
            (#[trigger] front[i]).1,
        ) by {
            assert(front[i] == plans[i]);
        }
        assert(can_all_loop(front, disable_sharing)) by {
            assert forall|i: int| 0 <= i < front.len() && (#[trigger] front[i]).0 implies can_loop(
                front[i].1,
                groups_plan(front.take(i), disable_sharing).1,
                disable_sharing,
            ) by {
                assert(front[i] == plans[i]);
                assert(front.take(i) =~= plans.take(i));
            }
        }
        assert(are_at_hand(tables.rows, front)) by {
            assert forall|i: int, name: Seq<char>|
                0 <= i < front.len() && #[trigger] is_mentioned(front[i].1, name) implies is_at_hand(
                tables.rows,
                front,
                i,
                CollectionSignatureModel::Atom { name },
            ) by {
                let s = CollectionSignatureModel::Atom { name };
                assert(front[i] == plans[i]);
                assert(is_at_hand(tables.rows, plans, i, s));
                if exists|j: int| 0 <= j < i && is_head((#[trigger] plans[j]).1, s) {
                    let j = choose|j: int| 0 <= j < i && is_head((#[trigger] plans[j]).1, s);
                    assert(front[j] == plans[j]);
                }
            }
        }
        lemma_stages(arities, tables, idbs, groups.drop_last(), front, disable_sharing);
        let known = stages_of(tables, idbs, groups.drop_last())->Ok_0.1;
        let group = groups.last();
        assert(groups[n] == group);
        assert(is_listing_of(groups[n], groups_plan(plans, disable_sharing).0[n]));
        assert(is_listing_of(
            group,
            group_plan(is_recursive, rules, before.1, disable_sharing).0,
        ));
        assert(tables.of(Table::Row).subset_of(known.of(Table::Row)));
        assert forall|name: Seq<char>| #[trigger] is_mentioned(rules, name) implies {
            let s = CollectionSignatureModel::Atom { name };
            known.rows.contains(s) || (is_recursive && is_head(rules, s))
        } by {
            let s = CollectionSignatureModel::Atom { name };
            assert(is_mentioned(plans[n].1, name));
            assert(is_at_hand(tables.rows, plans, n, s));
            if exists|j: int| 0 <= j < n && is_head((#[trigger] plans[j]).1, s) {
                let j = choose|j: int| 0 <= j < n && is_head((#[trigger] plans[j]).1, s);
                assert(front[j] == plans[j]);
                assert(is_head(front[j].1, s));
            }
        }
        assert(are_clear_plans(arities, plans[n].1));
        if is_recursive {
            assert(plans.take(n) =~= front);
            assert(can_loop(rules, before.1, disable_sharing));
            lemma_loop_stage(arities, known, idbs, group, rules, before.1, disable_sharing);
        } else {
            lemma_flat_stage(arities, known, idbs, group, rules, before.1, disable_sharing);
        }
        let after = stages_of(tables, idbs, groups)->Ok_0.1;
        assert(is_within(known, after));
        assert forall|table: Table| (#[trigger] tables.of(table)).subset_of(after.of(table)) by {
            assert(tables.of(table).subset_of(known.of(table)));
            assert(known.of(table).subset_of(after.of(table)));
        }
        assert forall|i: int, s: CollectionSignatureModel|
            0 <= i < plans.len() && #[trigger] is_head(plans[i].1, s) implies after.rows.contains(
            s,
        ) by {
            if i < n {
                assert(front[i] == plans[i]);
                assert(is_head(front[i].1, s));
                assert(known.of(Table::Row).subset_of(after.of(Table::Row)));
            } else {
                let k = choose|k: int| 0 <= k < rules.len() && head_of(#[trigger] rules[k]) == s;
                assert(after.rows.contains(head_of(rules[k])));
            }
        }
    } else {
        assert(groups_plan(plans, disable_sharing).1 =~= Set::empty());
    }
}

/// How much the rules before a place of a stratum are planned as.
spec fn expanded_before(rules: Seq<FLRuleModel>, p: int) -> int {
    expand_stratum(rules.take(p)).len() as int
}

/// What a rule of a stratum is planned as stands among what the stratum is planned as.
proof fn lemma_expanded_at(rules: Seq<FLRuleModel>, p: int, j: int)
    requires
        0 <= p < rules.len(),
        0 <= j < expand_rule(rules[p], p as usize).len(),
    ensures
        0 <= expanded_before(rules, p) + j < expand_stratum(rules).len(),
        expand_stratum(rules)[expanded_before(rules, p) + j] == expand_rule(
            rules[p],
            p as usize,
        )[j],
    decreases rules.len(),
{
    let front = rules.drop_last();
    let before = expand_stratum(front);
    if p == rules.len() - 1 {
        assert(rules.take(p) =~= front);
    } else {
        assert(front[p] == rules[p]);
        assert(front.take(p) =~= rules.take(p));
        lemma_expanded_at(front, p, j);
    }
}

/// All that a stratum is planned as, a rule of it is planned as.
proof fn lemma_expanded_from(rules: Seq<FLRuleModel>, m: int) -> (out: (int, int))
    requires
        0 <= m < expand_stratum(rules).len(),
    ensures
        0 <= out.0 < rules.len(),
        0 <= out.1 < expand_rule(rules[out.0], out.0 as usize).len(),
        m == expanded_before(rules, out.0) + out.1,
        expand_stratum(rules)[m] == expand_rule(rules[out.0], out.0 as usize)[out.1],
    decreases rules.len(),
{
    let front = rules.drop_last();
    let before = expand_stratum(front);
    if m < before.len() {
        let out = lemma_expanded_from(front, m);
        assert(front[out.0] == rules[out.0]);
        assert(front.take(out.0) =~= rules.take(out.0));
        out
    } else {
        assert(rules.take(rules.len() - 1) =~= front);
        (rules.len() - 1, m - before.len())
    }
}

/// What is mentioned in what a stratum is planned as, a rule of the stratum mentions;
/// or something that a rule is rewritten into, and that stands before it, adds to it.
proof fn lemma_expanded_mentions(rules: Seq<FLRuleModel>, m: int, name: Seq<char>)
    requires
        0 <= m < expand_stratum(rules).len(),
        forall|p: int| 0 <= p < rules.len() ==> are_positions_small(#[trigger] rules[p]),
        mentions(expand_stratum(rules)[m].0, name),
    ensures
        (exists|p: int| 0 <= p < rules.len() && mentions(#[trigger] rules[p], name)) || (has_sip(
            rules,
        ) && exists|n: int|
            0 <= n < m && (#[trigger] expand_stratum(rules)[n]).0.head.name == name),
{
    let (p, j) = lemma_expanded_from(rules, m);
    let rule = rules[p];
    if rule.is_sip {
        let made = sideways_rules(rule, p as usize);
        law_rewritten_rules_build_up(rule, p as usize);
        assert(expand_rule(rule, p as usize)[j].0 == made[j]);
        assert(comes_from(rule, made, j, name));
        if !mentions(rule, name) {
            let i = choose|i: int| 0 <= i < j && (#[trigger] made[i]).head.name == name;
            lemma_expanded_at(rules, p, i);
            let n = expanded_before(rules, p) + i;
            assert(expand_stratum(rules)[n].0 == made[i]);
        }
    } else {
        assert(expand_rule(rule, p as usize)[j].0 == rule);
    }
}

/// The relation of a rule is one that what the stratum is planned as adds to.
proof fn lemma_expanded_heads(rules: Seq<FLRuleModel>, p: int) -> (m: int)
    requires
        0 <= p < rules.len(),
        are_positions_small(rules[p]),
    ensures
        0 <= m < expand_stratum(rules).len(),
        expand_stratum(rules)[m].0.head == rules[p].head,
{
    let rule = rules[p];
    let own = expand_rule(rule, p as usize);
    if rule.is_sip {
        law_rewritten_rules_build_up(rule, p as usize);
    }
    let j = own.len() - 1;
    assert(own[j].0.head == rule.head);
    lemma_expanded_at(rules, p, j);
    expanded_before(rules, p) + j
}

/// How many groups stand before those of a stratum.
spec fn groups_before(strata: Seq<Seq<FLRuleModel>>, flags: Seq<bool>, k: int) -> int {
    all_groups(strata.take(k), flags).len() as int
}

/// The groups of a stratum stand among all groups, behind those of the strata before.
proof fn lemma_groups_at(strata: Seq<Seq<FLRuleModel>>, flags: Seq<bool>, k: int, c: int)
    requires
        0 <= k < strata.len(),
        0 <= c < groups_of(strata[k], flags[k]).len(),
    ensures
        0 <= groups_before(strata, flags, k) + c < all_groups(strata, flags).len(),
        all_groups(strata, flags)[groups_before(strata, flags, k) + c] == groups_of(
            strata[k],
            flags[k],
        )[c],
        k + 1 < strata.len() ==> groups_before(strata, flags, k) + c < groups_before(
            strata,
            flags,
            k + 1,
        ),
    decreases strata.len(),
{
    let front = strata.drop_last();
    let before = all_groups(front, flags);
    if k == strata.len() - 1 {
        assert(strata.take(k) =~= front);
    } else {
        assert(front[k] == strata[k]);
        assert(front.take(k) =~= strata.take(k));
        lemma_groups_at(front, flags, k, c);
        if k + 1 < front.len() {
            assert(front.take(k + 1) =~= strata.take(k + 1));
        } else {
            assert(front =~= strata.take(k + 1));
        }
    }
}

/// Each group is one of a stratum.
proof fn lemma_groups_from(strata: Seq<Seq<FLRuleModel>>, flags: Seq<bool>, i: int) -> (out: (
    int,
    int,
))
    requires
        0 <= i < all_groups(strata, flags).len(),
    ensures
        0 <= out.0 < strata.len(),
        0 <= out.1 < groups_of(strata[out.0], flags[out.0]).len(),
        i == groups_before(strata, flags, out.0) + out.1,
        all_groups(strata, flags)[i] == groups_of(strata[out.0], flags[out.0])[out.1],
    decreases strata.len(),
{
    let front = strata.drop_last();
    let before = all_groups(front, flags);
    if i < before.len() {
        let out = lemma_groups_from(front, flags, i);
        assert(front[out.0] == strata[out.0]);
        assert(front.take(out.0) =~= strata.take(out.0));
        out
    } else {
        assert(strata.take(strata.len() - 1) =~= front);
        (strata.len() - 1, i - before.len())
    }
}

/// The groups of earlier strata stand before those of later ones.
proof fn lemma_groups_in_order(strata: Seq<Seq<FLRuleModel>>, flags: Seq<bool>, j: int, k: int)
    requires
        0 <= j <= k <= strata.len(),
    ensures
        groups_before(strata, flags, j) <= groups_before(strata, flags, k),
    decreases k - j,
{
    if j < k {
        lemma_groups_in_order(strata, flags, j, k - 1);
        let upto = strata.take(k);
        assert(upto.drop_last() =~= strata.take(k - 1));
    }
}

/// Whether a relation is declared as input or has a rule.
pub open spec fn is_supplied(
    edbs: Seq<RelDeclModel>,
    rules: Seq<FLRuleModel>,
    name: Seq<char>,
) -> bool {
    ||| exists|i: int| 0 <= i < edbs.len() && (#[trigger] edbs[i]).name == name
    ||| exists|i: int| 0 <= i < rules.len() && (#[trigger] rules[i]).head.name == name
}

/// The rule at a place of the strata.
pub open spec fn rule_at(strata: Strata, i: int, k: int) -> FLRuleModel {
    strata.fl_program.deep_view().rules[strata.strata@[i]@[k] as int]
}

/// The numbers in the strata are those of rules.
proof fn lemma_numbers(strata: Strata, i: int, k: int)
    requires
        strata.wf(),
        0 <= i < strata.strata@.len(),
        0 <= k < strata.strata@[i]@.len(),
    ensures
        strata.strata@[i]@[k] < strata.fl_program.deep_view().rules.len(),
{
    let r = strata.strata@[i]@[k];
    let all = lists(strata.strata@);
    assert(all[i][k] == r);
    assert(all[i].contains(r));
    assert(in_some(all, r));
}

/// What the rules of strata are at an optimization level has the heads and bodies of
/// the rules.
proof fn lemma_rule_at_level(strata: Strata, opt_level: Option<u8>, i: int, k: int)
    requires
        0 <= i < strata.strata@.len(),
        0 <= k < strata.strata@[i]@.len(),
    ensures
        rules_at(strata, opt_level).len() == strata.strata@.len(),
        rules_at(strata, opt_level)[i].len() == strata.strata@[i]@.len(),
        rules_at(strata, opt_level)[i][k].head == rule_at(strata, i, k).head,
        rules_at(strata, opt_level)[i][k].rhs == rule_at(strata, i, k).rhs,
{
}

/// The groups of a stratum hold all that it is planned as: one group each outside of
/// recursion where rules are rewritten, else all in one.
proof fn lemma_group_holds(
    strata: Seq<Seq<FLRuleModel>>,
    flags: Seq<bool>,
    plans: Seq<(bool, Seq<RulePlanModel>)>,
    k: int,
    m: int,
) -> (c: int)
    requires
        are_group_plans(all_groups(strata, flags), plans),
        0 <= k < strata.len(),
        0 <= m < expand_stratum(strata[k]).len(),
    ensures
        0 <= c < groups_of(strata[k], flags[k]).len(),
        c == if !flags[k] && has_sip(strata[k]) {
            m
        } else {
            0
        },
        0 <= groups_before(strata, flags, k) + c < plans.len(),
        is_head(
            plans[groups_before(strata, flags, k) + c].1,
            CollectionSignatureModel::Atom { name: expand_stratum(strata[k])[m].0.head.name },
        ),
{
    let expanded = expand_stratum(strata[k]);
    let own = groups_of(strata[k], flags[k]);
    let is_apart = !flags[k] && has_sip(strata[k]);
    let c = if is_apart {
        m
    } else {
        0
    };
    let at = if is_apart {
        0
    } else {
        m
    };
    lemma_groups_at(strata, flags, k, c);
    let i = groups_before(strata, flags, k) + c;
    assert(plans[i].0 == own[c].0 && are_rule_plans(own[c].1, plans[i].1));
    assert(own[c].1[at] == expanded[m]);
    assert(is_rule_plan(own[c].1[at].0, own[c].1[at].1, plans[i].1[at]));
    assert(head_of(plans[i].1[at]) == CollectionSignatureModel::Atom {
        name: expanded[m].0.head.name,
    });
    c
}

/// What a rule mentions and another adds to, the other adds to in a stratum before, or
/// in the same one where it is recursive.
proof fn lemma_dependency_place(strata: Strata, k: int, p: int, d: int) -> (out: (int, int))
    requires
        strata.wf(),
        0 <= k < strata.strata@.len(),
        0 <= p < strata.strata@[k]@.len(),
        0 <= d < strata.fl_program.deep_view().rules.len(),
        mentions(rule_at(strata, k, p), strata.fl_program.deep_view().rules[d].head.name),
    ensures
        0 <= out.0 <= k,
        out.0 < k || strata.is_recursive_strata_bitmap@[k],
        0 <= out.1 < strata.strata@[out.0]@.len(),
        strata.strata@[out.0]@[out.1] == d,
{
    let rules = strata.fl_program.deep_view().rules;
    let all = lists(strata.strata@);
    let flags = strata.is_recursive_strata_bitmap@;
    let g = dependencies(rules);
    let r = strata.strata@[k]@[p];
    assert(strata.fl_program.rules.len() == rules.len());
    lemma_numbers(strata, k, p);
    let target = d as usize;
    assert(edge(g, r, target));
    assert(all[k][p] == r);
    assert(all[k].contains(r));
    law_dependencies_come_first(g, rules.len(), all, flags, k, r, target);
    let j = choose|j: int|
        0 <= j <= k && #[trigger] all[j].contains(target) && (j < k || flags[k]);
    let q = choose|q: int| 0 <= q < all[j].len() && all[j][q] == target;
    assert(strata.strata@[j]@[q] == target);
    (j, q)
}

/// The relation of a rule is at hand for the groups of later strata, and for that of
/// its own stratum where it is recursive.
proof fn lemma_head_at_hand(
    strata: Seq<Seq<FLRuleModel>>,
    flags: Seq<bool>,
    plans: Seq<(bool, Seq<RulePlanModel>)>,
    inputs: Set<CollectionSignatureModel>,
    k: int,
    c: int,
    j: int,
    q: int,
)
    requires
        are_group_plans(all_groups(strata, flags), plans),
        0 <= j <= k < strata.len(),
        j < k || flags[k],
        0 <= c < groups_of(strata[k], flags[k]).len(),
        0 <= q < strata[j].len(),
        are_positions_small(strata[j][q]),
    ensures
        is_at_hand(
            inputs,
            plans,
            groups_before(strata, flags, k) + c,
            CollectionSignatureModel::Atom { name: strata[j][q].head.name },
        ),
{
    let s = CollectionSignatureModel::Atom { name: strata[j][q].head.name };
    let m = lemma_expanded_heads(strata[j], q);
    let b = lemma_group_holds(strata, flags, plans, j, m);
    let from = groups_before(strata, flags, j) + b;
    let at = groups_before(strata, flags, k) + c;
    lemma_groups_at(strata, flags, k, c);
    lemma_groups_at(strata, flags, j, b);
    assert(is_head(plans[from].1, s));
    if j < k {
        lemma_groups_in_order(strata, flags, j + 1, k);
        assert(from < at);
    } else {
        assert(flags[k]);
        assert(from == at);
        assert(plans[at].0 == groups_of(strata[k], flags[k])[c].0);
    }
}

proof fn lemma_same_positions(a: FLRuleModel, b: FLRuleModel)
    requires
        a.rhs == b.rhs,
        are_positions_small(a),
    ensures
        are_positions_small(b),
{
    assert(atoms_of(a, true) == atoms_of(b, true));
    assert(atoms_of(a, false) == atoms_of(b, false));
}

/// What a rule of a group mentions, a rule of the stratum mentions; or it is at hand,
/// as a rule that another one is rewritten into adds to it.
proof fn lemma_group_mentions(
    strata: Seq<Seq<FLRuleModel>>,
    flags: Seq<bool>,
    plans: Seq<(bool, Seq<RulePlanModel>)>,
    inputs: Set<CollectionSignatureModel>,
    k: int,
    c: int,
    name: Seq<char>,
)
    requires
        are_group_plans(all_groups(strata, flags), plans),
        0 <= k < strata.len(),
        0 <= c < groups_of(strata[k], flags[k]).len(),
        forall|p: int| 0 <= p < strata[k].len() ==> are_positions_small(#[trigger] strata[k][p]),
        0 <= groups_before(strata, flags, k) + c < plans.len(),
        is_mentioned(plans[groups_before(strata, flags, k) + c].1, name),
    ensures
        (exists|p: int| 0 <= p < strata[k].len() && mentions(#[trigger] strata[k][p], name))
            || is_at_hand(
            inputs,
            plans,
            groups_before(strata, flags, k) + c,
            CollectionSignatureModel::Atom { name },
        ),
{
    let i = groups_before(strata, flags, k) + c;
    let own = groups_of(strata[k], flags[k]);
    let expanded = expand_stratum(strata[k]);
    let is_apart = !flags[k] && has_sip(strata[k]);
    lemma_groups_at(strata, flags, k, c);
    assert(plans[i].0 == own[c].0 && are_rule_plans(own[c].1, plans[i].1));
    let a = choose|a: int|
        0 <= a < plans[i].1.len() && mentions((#[trigger] plans[i].1[a]).rule, name);
    assert(is_rule_plan(own[c].1[a].0, own[c].1[a].1, plans[i].1[a]));
    let m = if is_apart {
        c
    } else {
        a
    };
    assert(own[c].1[a] == expanded[m]);
    lemma_expanded_mentions(strata[k], m, name);
    if !(exists|p: int| 0 <= p < strata[k].len() && mentions(#[trigger] strata[k][p], name)) {
        let n = choose|n: int| 0 <= n < m && (#[trigger] expanded[n]).0.head.name == name;
        let b = lemma_group_holds(strata, flags, plans, k, n);
        let from = groups_before(strata, flags, k) + b;
        assert(is_head(plans[from].1, CollectionSignatureModel::Atom { name }));
        if is_apart {
            assert(from < i);
        } else {
            assert(flags[k]);
            assert(from == i);
        }
    }
}

/// A relation that is declared as input is at hand.
proof fn lemma_input_at_hand(
    plans: Seq<(bool, Seq<RulePlanModel>)>,
    edbs: Seq<RelDeclModel>,
    i: int,
    e: int,
)
    requires
        0 <= e < edbs.len(),
    ensures
        is_at_hand(
            input_tables(edbs).rows,
            plans,
            i,
            CollectionSignatureModel::Atom { name: edbs[e].name },
        ),
{
    let names = Seq::new(
        edbs.len(),
        |i: int| CollectionSignatureModel::Atom { name: edbs[i].name },
    );
    assert(names[e] == CollectionSignatureModel::Atom { name: edbs[e].name });
    assert(names.to_set().contains(names[e]));
}

/// What a rule of a stratum mentions is at hand for the groups of the stratum.
proof fn lemma_mentioned_at_hand(
    strata: Strata,
    opt_level: Option<u8>,
    plans: Seq<(bool, Seq<RulePlanModel>)>,
    edbs: Seq<RelDeclModel>,
    k: int,
    c: int,
    p: int,
    name: Seq<char>,
)
    requires
        strata.wf(),
        are_group_plans(
            all_groups(rules_at(strata, opt_level), strata.is_recursive_strata_bitmap@),
            plans,
        ),
        forall|r: int|
            0 <= r < strata.fl_program.deep_view().rules.len() ==> are_positions_small(
                #[trigger] strata.fl_program.deep_view().rules[r],
            ),
        0 <= k < strata.strata@.len(),
        0 <= c < groups_of(
            rules_at(strata, opt_level)[k],
            strata.is_recursive_strata_bitmap@[k],
        ).len(),
        0 <= p < strata.strata@[k]@.len(),
        mentions(rule_at(strata, k, p), name),
        is_supplied(edbs, strata.fl_program.deep_view().rules, name),
    ensures
        is_at_hand(
            input_tables(edbs).rows,
            plans,
            groups_before(
                rules_at(strata, opt_level),
                strata.is_recursive_strata_bitmap@,
                k,
            ) + c,
            CollectionSignatureModel::Atom { name },
        ),
{
    let rules = strata.fl_program.deep_view().rules;
    let stated = rules_at(strata, opt_level);
    let flags = strata.is_recursive_strata_bitmap@;
    let i = groups_before(stated, flags, k) + c;
    if exists|e: int| 0 <= e < edbs.len() && (#[trigger] edbs[e]).name == name {
        let e = choose|e: int| 0 <= e < edbs.len() && (#[trigger] edbs[e]).name == name;
        lemma_input_at_hand(plans, edbs, i, e);
    } else {
        let d = choose|d: int| 0 <= d < rules.len() && (#[trigger] rules[d]).head.name == name;
        let (j, q) = lemma_dependency_place(strata, k, p, d);
        lemma_rule_at_level(strata, opt_level, j, q);
        assert(rule_at(strata, j, q) == rules[d]);
        lemma_same_positions(rules[d], stated[j][q]);
        lemma_head_at_hand(stated, flags, plans, input_tables(edbs).rows, k, c, j, q);
    }
}

proof fn lemma_same_mentions(a: FLRuleModel, b: FLRuleModel, name: Seq<char>)
    requires
        a.rhs == b.rhs,
    ensures
        mentions(a, name) == mentions(b, name),
{
    if mentions(a, name) {
        let at = choose|at: int|
            0 <= at < a.rhs.len() && (#[trigger] a.rhs[at]).atom() is Some
                && a.rhs[at].atom()->0.name == name;
        assert(b.rhs[at].atom() is Some);
    }
    if mentions(b, name) {
        let at = choose|at: int|
            0 <= at < b.rhs.len() && (#[trigger] b.rhs[at]).atom() is Some
                && b.rhs[at].atom()->0.name == name;
        assert(a.rhs[at].atom() is Some);
    }
}

/// The relations that the rules of a group mention are at hand, as strata come in an
/// order in which they can be evaluated, and rewritten rules in the order in which
/// they build on each other.
proof fn lemma_group_at_hand(
    strata: Strata,
    opt_level: Option<u8>,
    plans: Seq<(bool, Seq<RulePlanModel>)>,
    edbs: Seq<RelDeclModel>,
    i: int,
    name: Seq<char>,
)
    requires
        strata.wf(),
        are_group_plans(
            all_groups(rules_at(strata, opt_level), strata.is_recursive_strata_bitmap@),
            plans,
        ),
        forall|r: int|
            0 <= r < strata.fl_program.deep_view().rules.len() ==> are_positions_small(
                #[trigger] strata.fl_program.deep_view().rules[r],
            ),
        forall|r: int, name: Seq<char>|
            0 <= r < strata.fl_program.deep_view().rules.len() && #[trigger] mentions(
                strata.fl_program.deep_view().rules[r],
                name,
            ) ==> is_supplied(edbs, strata.fl_program.deep_view().rules, name),
        0 <= i < plans.len(),
        is_mentioned(plans[i].1, name),
    ensures
        is_at_hand(
            input_tables(edbs).rows,
            plans,
            i,
            CollectionSignatureModel::Atom { name },
        ),
{
    let rules = strata.fl_program.deep_view().rules;
    let stated = rules_at(strata, opt_level);
    let flags = strata.is_recursive_strata_bitmap@;
    let inputs = input_tables(edbs).rows;
    let (k, c) = lemma_groups_from(stated, flags, i);
    assert forall|p: int| 0 <= p < stated[k].len() implies are_positions_small(
        #[trigger] stated[k][p],
    ) by {
        lemma_numbers(strata, k, p);
        lemma_rule_at_level(strata, opt_level, k, p);
        lemma_same_positions(rule_at(strata, k, p), stated[k][p]);
    }
    lemma_group_mentions(stated, flags, plans, inputs, k, c, name);
    if exists|p: int| 0 <= p < stated[k].len() && mentions(#[trigger] stated[k][p], name) {
        let p = choose|p: int| 0 <= p < stated[k].len() && mentions(#[trigger] stated[k][p], name);
        lemma_numbers(strata, k, p);
        lemma_rule_at_level(strata, opt_level, k, p);
        lemma_same_mentions(rule_at(strata, k, p), stated[k][p], name);
        assert(mentions(rules[strata.strata@[k]@[p] as int], name));
        lemma_mentioned_at_hand(strata, opt_level, plans, edbs, k, c, p, name);
    }
}

/// The plan of a rule has steps that can be told by their names, where they are
/// readable.
proof fn lemma_rule_plan_is_clear(
    arities: Arities,
    rule: FLRuleModel,
    is_optimized: bool,
    plan: RulePlanModel,
)
    requires
        are_positions_small(rule),
        core_ids(rule).len() > 0,
        is_rule_plan(rule, is_optimized, plan),
        are_readable(arities, plan.steps),
    ensures
        is_clear_plan(arities, plan),
{
    let shape = choose|shape: JoinTree| #[trigger]
        is_join_tree(rule, is_optimized, shape) && rule_steps(rule, shape) == Some(plan.steps);
    let found = choose|found: PlanTree| #[trigger]
        found.describes(rule, is_optimized) && found.shape == shape;
    law_join_tree_covers(rule, is_optimized, found);
    law_plan_is_linked(rule, shape);
    lemma_rule_shape(rule, shape);
    lemma_clear(arities, rule, plan.steps, ids_in(shape));
    assert(is_node(plan.steps.tree, plan.steps.last, plan.steps.last));
}

/// A planned program can be put together as stages: no collection is absent where it
/// is needed. This is said of programs at every optimization level, their rules
/// rewritten or not, whose relations are declared as input or have rules, whose steps
/// are readable, and whose recursive groups can be carried out in loops.
pub proof fn law_planned_programs_become_stages(
    arities: Arities,
    strata: Strata,
    opt_level: Option<u8>,
    disable_sharing: bool,
    plans: Seq<(bool, Seq<RulePlanModel>)>,
    program: ProgramQueryPlan,
    edbs: Seq<RelDeclModel>,
    idbs: Seq<(Seq<char>, HeadIDBModel)>,
)
    requires
        strata.wf(),
        program.wf(),
        are_group_plans(
            all_groups(rules_at(strata, opt_level), strata.is_recursive_strata_bitmap@),
            plans,
        ),
        program.program_plan.deep_view() == groups_plan(plans, disable_sharing).0,
        forall|r: int|
            0 <= r < strata.fl_program.deep_view().rules.len() ==> are_positions_small(
                #[trigger] strata.fl_program.deep_view().rules[r],
            ),
        forall|r: int, name: Seq<char>|
            0 <= r < strata.fl_program.deep_view().rules.len() && #[trigger] mentions(
                strata.fl_program.deep_view().rules[r],
                name,
            ) ==> is_supplied(edbs, strata.fl_program.deep_view().rules, name),
        forall|i: int, k: int|
            0 <= i < plans.len() && 0 <= k < plans[i].1.len() ==> {
                let plan = #[trigger] plans[i].1[k];
                &&& are_positions_small(plan.rule)
                &&& core_ids(plan.rule).len() > 0
                &&& are_readable(arities, plan.steps)
            },
        can_all_loop(plans, disable_sharing),
    ensures
        stages_of(input_tables(edbs), idbs, listings(program.program_plan@)) is Ok,
{
    let stated = rules_at(strata, opt_level);
    let flags = strata.is_recursive_strata_bitmap@;
    let tables = input_tables(edbs);
    let groups = listings(program.program_plan@);
    let models = groups_plan(plans, disable_sharing).0;
    assert(are_listings_of(groups, models)) by {
        assert forall|i: int| 0 <= i < groups.len() implies is_listing_of(
            #[trigger] groups[i],
            models[i],
        ) by {
            assert(models[i] == program.program_plan@[i].deep_view());
            assert(unique_keys(program.program_plan@[i].last_signatures_map.deep_view()));
        }
    }
    assert forall|i: int| 0 <= i < plans.len() implies are_clear_plans(
        arities,
        (#[trigger] plans[i]).1,
    ) by {
        let expected = all_groups(stated, flags)[i].1;
        assert forall|k: int| 0 <= k < plans[i].1.len() implies is_clear_plan(
            arities,
            #[trigger] plans[i].1[k],
        ) by {
            assert(are_rule_plans(expected, plans[i].1));
            assert(is_rule_plan(expected[k].0, expected[k].1, plans[i].1[k]));
            lemma_rule_plan_is_clear(
                arities,
                expected[k].0,
                expected[k].1,
                plans[i].1[k],
            );
        }
    }
    assert forall|i: int, name: Seq<char>|
        0 <= i < plans.len() && #[trigger] is_mentioned(plans[i].1, name) implies is_at_hand(
        tables.rows,
        plans,
        i,
        CollectionSignatureModel::Atom { name },
    ) by {
        lemma_group_at_hand(strata, opt_level, plans, edbs, i, name);
    }
    assert(is_sound(arities, tables, Set::empty())) by {
        assert forall|step: TransformationModel, table: Table| #[trigger]
            is_told(arities, step) && #[trigger] tables.of(table).contains(
                put_out(step),
            ) implies table == table_for(step.output) by {
            lemma_told(arities, step);
            let names = Seq::new(
                edbs.len(),
                |i: int| CollectionSignatureModel::Atom { name: edbs[i].name },
            );
            assert(names.contains(put_out(step)));
        }
    }
    lemma_stages(arities, tables, idbs, groups, plans, disable_sharing);
}

} // verus!
