//! The plan of a group of rules that is carried out as one.
use vstd::prelude::*;
use vstd::string::*;
use crate::lists::{
    clone_list, empty, entries_map, find, group_take, lemma_entries_lookup, push, put, unique_keys,
};
use crate::parsing::rule::{FLRule, FLRuleModel};
use crate::planning::collections::{CollectionSignature, CollectionSignatureModel};
use crate::planning::rule::{RulePlanModel, RuleQueryPlan};
use crate::planning::linking::is_linked;
use crate::planning::sharing::{
    are_runnable, construct_non_recursive, construct_recursive, enter_all, is_closed, is_ordered,
    law_nested_steps_come_in_order, law_steps_come_in_order, lemma_nested_runnable, lemma_ordered_add,
    lemma_ordered_more, lemma_outputs_add, lemma_plan_runnable, nested_plan_of, outputs, plan_of,
    put_out, set_of,
};
use crate::planning::transformations::{
    is_join_step, is_row_step, Transformation, TransformationModel,
};
use crate::text::{join, join_text, Render, Written};

verus! {

/// The plan of a group of rules: strata without recursion, or one with.
#[derive(Debug)]
pub struct GroupStrataQueryPlan {
    pub is_recursive: bool,
    pub rules: Vec<FLRule>,
    /// what is brought into the scope of a recursive group
    pub enter_scope: Vec<CollectionSignature>,
    /// for each head what the rules for it put out last
    pub last_signatures_map: Vec<(CollectionSignature, Vec<CollectionSignature>)>,
    /// the steps of each rule
    pub strata_plan: Vec<Vec<Transformation>>,
}

#[verifier::ext_equal]
pub struct GroupPlanModel {
    pub is_recursive: bool,
    pub rules: Seq<FLRuleModel>,
    pub enter_scope: Set<CollectionSignatureModel>,
    pub last_signatures: Map<CollectionSignatureModel, Seq<CollectionSignatureModel>>,
    pub strata_plan: Seq<Seq<TransformationModel>>,
}

impl DeepView for GroupStrataQueryPlan {
    type V = GroupPlanModel;

    open spec fn deep_view(&self) -> GroupPlanModel {
        GroupPlanModel {
            is_recursive: self.is_recursive,
            rules: self.rules.deep_view(),
            enter_scope: set_of(self.enter_scope),
            last_signatures: entries_map(self.last_signatures_map.deep_view()),
            strata_plan: self.strata_plan.deep_view(),
        }
    }
}

/// The relation that a rule adds to.
pub open spec fn head_of(plan: RulePlanModel) -> CollectionSignatureModel {
    CollectionSignatureModel::Atom { name: plan.rule.head.name }
}

/// For each head what the rules for it put out last, in the order of the rules.
pub open spec fn last_outputs(plans: Seq<RulePlanModel>) -> Map<
    CollectionSignatureModel,
    Seq<CollectionSignatureModel>,
>
    decreases plans.len(),
{
    if plans.len() == 0 {
        Map::empty()
    } else {
        let front = last_outputs(plans.drop_last());
        let head = head_of(plans.last());
        let so_far = if front.contains_key(head) {
            front[head]
        } else {
            Seq::empty()
        };
        front.insert(head, so_far.push(put_out(plans.last().steps.last)))
    }
}

/// The steps of each rule, and what has been seen after them. Where nothing is
/// shared every rule starts afresh.
pub open spec fn rows_of(
    plans: Seq<RulePlanModel>,
    seen: Set<CollectionSignatureModel>,
    disable_sharing: bool,
) -> (Seq<Seq<TransformationModel>>, Set<CollectionSignatureModel>)
    decreases plans.len(),
{
    if plans.len() == 0 {
        (Seq::empty(), seen)
    } else {
        let front = rows_of(plans.drop_last(), seen, disable_sharing);
        let steps = plans.last().steps;
        if disable_sharing {
            (front.0.push(plan_of(steps.tree, steps.last, Set::empty()).0), seen)
        } else {
            let row = plan_of(steps.tree, steps.last, front.1);
            (front.0.push(row.0), row.1)
        }
    }
}

/// The steps of each rule of a recursive group, what is brought in, and what has
/// been seen inside after them.
pub open spec fn nested_rows_of(
    plans: Seq<RulePlanModel>,
    seen: Set<CollectionSignatureModel>,
    disable_sharing: bool,
) -> (
    Seq<Seq<TransformationModel>>,
    Set<CollectionSignatureModel>,
    Set<CollectionSignatureModel>,
)
    decreases plans.len(),
{
    if plans.len() == 0 {
        (Seq::empty(), Set::empty(), Set::empty())
    } else {
        let front = nested_rows_of(plans.drop_last(), seen, disable_sharing);
        let steps = plans.last().steps;
        let row = if disable_sharing {
            nested_plan_of(steps.tree, steps.last, Set::empty(), Set::empty())
        } else {
            nested_plan_of(steps.tree, steps.last, seen, front.2)
        };
        (front.0.push(row.0), front.1.union(row.1), row.2)
    }
}

/// The plan of a group of rules, and what has been seen after it.
pub open spec fn group_plan(
    is_recursive: bool,
    plans: Seq<RulePlanModel>,
    seen: Set<CollectionSignatureModel>,
    disable_sharing: bool,
) -> (GroupPlanModel, Set<CollectionSignatureModel>) {
    let rules = Seq::new(plans.len(), |i: int| plans[i].rule);
    if is_recursive {
        let rows = nested_rows_of(plans, seen, disable_sharing);
        (
            GroupPlanModel {
                is_recursive,
                rules,
                enter_scope: rows.1,
                last_signatures: last_outputs(plans),
                strata_plan: rows.0,
            },
            seen,
        )
    } else {
        let rows = rows_of(plans, seen, disable_sharing);
        (
            GroupPlanModel {
                is_recursive,
                rules,
                enter_scope: Set::empty(),
                last_signatures: last_outputs(plans),
                strata_plan: rows.0,
            },
            rows.1,
        )
    }
}

/// All items of all lists, in order.
pub open spec fn flat<A>(lists: Seq<Seq<A>>) -> Seq<A>
    decreases lists.len(),
{
    if lists.len() == 0 {
        Seq::empty()
    } else {
        flat(lists.drop_last()) + lists.last()
    }
}

/// The heads of rules with their arities; a later rule has the last word.
pub open spec fn head_arities(rules: Seq<FLRuleModel>) -> Map<Seq<char>, usize>
    decreases rules.len(),
{
    if rules.len() == 0 {
        Map::empty()
    } else {
        head_arities(rules.drop_last()).insert(
            rules.last().head.name,
            rules.last().head.head_arguments.len() as usize,
        )
    }
}

/// The steps of one rule, one to a line.
pub open spec fn step_lines(steps: Seq<TransformationModel>) -> Seq<Seq<char>> {
    Seq::new(
        steps.len(),
        |i: int|
            (if i == steps.len() - 1 {
                "  └── "@
            } else {
                "  ├── "@
            }) + steps[i].text(),
    )
}

/// Each rule above its steps.
pub open spec fn rule_blocks(
    rules: Seq<FLRuleModel>,
    rows: Seq<Seq<TransformationModel>>,
) -> Seq<Seq<char>> {
    Seq::new(
        rows.len(),
        |i: int| rules[i].text() + "\n"@ + join_text(step_lines(rows[i]), "\n"@),
    )
}

/// The plan of a group written out; what is brought in stands in the given order.
pub open spec fn group_text(group: GroupPlanModel, scope: Seq<CollectionSignatureModel>) -> Seq<char> {
    (if scope.len() == 0 {
        ""@
    } else {
        "[ent] "@ + join_text(crate::text::texts(scope), " && "@) + "\n"@
    }) + (if group.strata_plan.len() == 0 {
        "[∅]"@
    } else {
        join_text(rule_blocks(group.rules, group.strata_plan), "\n"@)
    })
}

proof fn lemma_rows_keep_seen(plans: Seq<RulePlanModel>, seen: Set<CollectionSignatureModel>)
    ensures
        rows_of(plans, seen, true).1 == seen,
    decreases plans.len(),
{
}

fn render_steps(steps: &Vec<Transformation>) -> (out: String)
    ensures
        out@ == join_text(step_lines(steps.deep_view()), "\n"@),
{
    let mut lines: Vec<String> = Vec::new();
    let mut i: usize = 0;
    while i < steps.len()
        invariant
            i <= steps.len(),
            lines.len() == i,
            forall|k: int|
                0 <= k < i ==> (#[trigger] lines@[k])@ == step_lines(steps.deep_view())[k],
        decreases steps.len() - i,
    {
        assert(steps.deep_view()[i as int] == steps@[i as int].deep_view());
        let mut line = (if i == steps.len() - 1 {
            "  └── "
        } else {
            "  ├── "
        }).to_owned();
        line.append(steps[i].to_string().as_str());
        lines.push(line);
        i += 1;
    }
    assert(lines.deep_view() =~= step_lines(steps.deep_view()));
    join(&lines, "\n")
}

impl GroupStrataQueryPlan {
    /// Enters what a rule puts out last under the head of the rule.
    fn note_last(
        map: &mut Vec<(CollectionSignature, Vec<CollectionSignature>)>,
        head: CollectionSignature,
        last: CollectionSignature,
    )
        requires
            unique_keys(old(map).deep_view()),
        ensures
            unique_keys(final(map).deep_view()),
            ({
                let before = entries_map(old(map).deep_view());
                let so_far = if before.contains_key(head.deep_view()) {
                    before[head.deep_view()]
                } else {
                    Seq::empty()
                };
                entries_map(final(map).deep_view()) == before.insert(
                    head.deep_view(),
                    so_far.push(last.deep_view()),
                )
            }),
    {
        proof {
            lemma_entries_lookup(map.deep_view(), head.deep_view());
        }
        let mut list = match find(map, &head) {
            Some(list) => clone_list(list),
            None => empty(),
        };
        push(&mut list, last);
        put(map, head, list);
    }

    /// For each head what the rules for it put out last.
    fn last_map(rule_plans: &Vec<RuleQueryPlan>) -> (map: Vec<
        (CollectionSignature, Vec<CollectionSignature>),
    >)
        ensures
            unique_keys(map.deep_view()),
            entries_map(map.deep_view()) == last_outputs(rule_plans.deep_view()),
    {
        broadcast use group_take;

        let ghost plans = rule_plans.deep_view();
        let mut map: Vec<(CollectionSignature, Vec<CollectionSignature>)> = empty();
        let mut i: usize = 0;
        while i < rule_plans.len()
            invariant
                i <= rule_plans.len(),
                plans == rule_plans.deep_view(),
                unique_keys(map.deep_view()),
                entries_map(map.deep_view()) == last_outputs(plans.take(i as int)),
            decreases rule_plans.len() - i,
        {
            assert(plans.take(i + 1).drop_last() == plans.take(i as int));
            assert(plans[i as int] == rule_plans@[i as int].deep_view());
            let rule_plan = &rule_plans[i];
            let head = CollectionSignature::new_atom(rule_plan.rule.head().name().as_str());
            let last = rule_plan.steps.last.output().signature().clone();
            Self::note_last(&mut map, head, last);
            i += 1;
        }
        map
    }

    /// The steps of each rule of a group without recursion.
    fn flat_rows(
        rule_plans: &Vec<RuleQueryPlan>,
        seen_set: &mut Vec<CollectionSignature>,
        disable_sharing: bool,
    ) -> (rows: Vec<Vec<Transformation>>)
        ensures
            (rows.deep_view(), set_of(*final(seen_set))) == rows_of(
                rule_plans.deep_view(),
                set_of(*old(seen_set)),
                disable_sharing,
            ),
    {
        broadcast use group_take;

        let ghost plans = rule_plans.deep_view();
        let ghost seen = set_of(*seen_set);
        let mut rows: Vec<Vec<Transformation>> = empty();
        let mut i: usize = 0;
        while i < rule_plans.len()
            invariant
                i <= rule_plans.len(),
                plans == rule_plans.deep_view(),
                (rows.deep_view(), set_of(*seen_set)) == rows_of(
                    plans.take(i as int),
                    seen,
                    disable_sharing,
                ),
            decreases rule_plans.len() - i,
        {
            assert(plans.take(i + 1).drop_last() == plans.take(i as int));
            assert(plans[i as int] == rule_plans@[i as int].deep_view());
            let steps = &rule_plans[i].steps;
            let row = if disable_sharing {
                let mut afresh: Vec<CollectionSignature> = empty();
                assert(set_of(afresh) =~= Set::empty());
                proof {
                    lemma_rows_keep_seen(plans.take(i as int), seen);
                }
                construct_non_recursive(&mut afresh, &steps.last, &steps.tree)
            } else {
                construct_non_recursive(seen_set, &steps.last, &steps.tree)
            };
            push(&mut rows, row);
            i += 1;
        }
        rows
    }

    /// The steps of each rule of a recursive group, and what is brought in.
    fn nested_rows(
        rule_plans: &Vec<RuleQueryPlan>,
        seen_set: &Vec<CollectionSignature>,
        disable_sharing: bool,
    ) -> (parts: (Vec<Vec<Transformation>>, Vec<CollectionSignature>))
        requires
            forall|i: int|
                0 <= i < rule_plans.deep_view().len() ==> is_closed(
                    (#[trigger] rule_plans.deep_view()[i]).steps.tree,
                    rule_plans.deep_view()[i].steps.last,
                ),
        ensures
            parts.0.deep_view() == nested_rows_of(
                rule_plans.deep_view(),
                set_of(*seen_set),
                disable_sharing,
            ).0,
            set_of(parts.1) == nested_rows_of(
                rule_plans.deep_view(),
                set_of(*seen_set),
                disable_sharing,
            ).1,
            parts.1.deep_view().no_duplicates(),
    {
        broadcast use group_take;

        let ghost plans = rule_plans.deep_view();
        let ghost seen = set_of(*seen_set);
        let mut rows: Vec<Vec<Transformation>> = empty();
        let mut enter_scope: Vec<CollectionSignature> = empty();
        let mut nested_seen: Vec<CollectionSignature> = empty();
        let outside: Vec<CollectionSignature> = empty();
        assert(set_of(enter_scope) =~= Set::empty());
        assert(set_of(nested_seen) =~= Set::empty());
        assert(set_of(outside) =~= Set::empty());
        let mut i: usize = 0;
        while i < rule_plans.len()
            invariant
                i <= rule_plans.len(),
                plans == rule_plans.deep_view(),
                seen == set_of(*seen_set),
                set_of(outside) == Set::<CollectionSignatureModel>::empty(),
                forall|i: int|
                    0 <= i < plans.len() ==> is_closed(
                        (#[trigger] plans[i]).steps.tree,
                        plans[i].steps.last,
                    ),
                enter_scope.deep_view().no_duplicates(),
                (rows.deep_view(), set_of(enter_scope), set_of(nested_seen)) == nested_rows_of(
                    plans.take(i as int),
                    seen,
                    disable_sharing,
                ),
            decreases rule_plans.len() - i,
        {
            assert(plans.take(i + 1).drop_last() == plans.take(i as int));
            assert(plans[i as int] == rule_plans@[i as int].deep_view());
            let steps = &rule_plans[i].steps;
            let (row, scope) = if disable_sharing {
                nested_seen = empty();
                assert(set_of(nested_seen) =~= Set::empty());
                construct_recursive(&outside, &mut nested_seen, &steps.last, &steps.tree)
            } else {
                construct_recursive(seen_set, &mut nested_seen, &steps.last, &steps.tree)
            };
            push(&mut rows, row);
            enter_all(&mut enter_scope, scope);
            i += 1;
        }
        (rows, enter_scope)
    }

    /// Plans a group of rules from the plans of the rules. `seen_set` lists what
    /// groups before it put out, and afterwards what this group puts out, too.
    pub fn new(
        is_recursive: bool,
        rule_plans: Vec<RuleQueryPlan>,
        seen_set: &mut Vec<CollectionSignature>,
        disable_sharing: bool,
    ) -> (group: Self)
        requires
            forall|i: int|
                0 <= i < rule_plans.deep_view().len() ==> is_closed(
                    (#[trigger] rule_plans.deep_view()[i]).steps.tree,
                    rule_plans.deep_view()[i].steps.last,
                ),
        ensures
            (group.deep_view(), set_of(*final(seen_set))) == group_plan(
                is_recursive,
                rule_plans.deep_view(),
                set_of(*old(seen_set)),
                disable_sharing,
            ),
            group.enter_scope.deep_view().no_duplicates(),
            unique_keys(group.last_signatures_map.deep_view()),
    {
        let ghost plans = rule_plans.deep_view();
        let mut rules: Vec<FLRule> = Vec::new();
        let mut i: usize = 0;
        while i < rule_plans.len()
            invariant
                i <= rule_plans.len(),
                plans == rule_plans.deep_view(),
                rules.len() == i,
                forall|k: int| 0 <= k < i ==> (#[trigger] rules@[k]).deep_view() == plans[k].rule,
            decreases rule_plans.len() - i,
        {
            assert(plans[i as int] == rule_plans@[i as int].deep_view());
            rules.push(rule_plans[i].rule.clone());
            i += 1;
        }
        assert(rules.deep_view() =~= Seq::new(plans.len(), |i: int| plans[i].rule));
        let last_signatures_map = Self::last_map(&rule_plans);
        let (strata_plan, enter_scope) = if is_recursive {
            Self::nested_rows(&rule_plans, seen_set, disable_sharing)
        } else {
            let none: Vec<CollectionSignature> = empty();
            assert(set_of(none) =~= Set::empty());
            (Self::flat_rows(&rule_plans, seen_set, disable_sharing), none)
        };
        GroupStrataQueryPlan { is_recursive, rules, enter_scope, last_signatures_map, strata_plan }
    }

    pub fn is_recursive(&self) -> (answer: bool)
        ensures
            answer == self.deep_view().is_recursive,
    {
        self.is_recursive
    }

    pub fn rules(&self) -> (rules: &Vec<FLRule>)
        ensures
            rules.deep_view() == self.deep_view().rules,
    {
        &self.rules
    }

    /// The steps of all rules, in order.
    pub fn strata_plan(&self) -> (steps: Vec<&Transformation>)
        ensures
            steps.deep_view() == flat(self.deep_view().strata_plan),
    {
        broadcast use group_take;

        let ghost rows = self.strata_plan.deep_view();
        let mut steps: Vec<&Transformation> = empty();
        let mut i: usize = 0;
        while i < self.strata_plan.len()
            invariant
                i <= self.strata_plan.len(),
                rows == self.strata_plan.deep_view(),
                steps.deep_view() == flat(rows.take(i as int)),
            decreases self.strata_plan.len() - i,
        {
            let row = &self.strata_plan[i];
            assert(rows[i as int] == row.deep_view());
            assert(rows.take(i + 1).drop_last() == rows.take(i as int));
            let ghost before = steps.deep_view();
            assert(before + row.deep_view().take(0) =~= before);
            let mut j: usize = 0;
            while j < row.len()
                invariant
                    j <= row.len(),
                    steps.deep_view() == before + row.deep_view().take(j as int),
                decreases row.len() - j,
            {
                assert(row.deep_view()[j as int] == row@[j as int].deep_view());
                push(&mut steps, &row[j]);
                assert(before + row.deep_view().take(j + 1) =~= (before + row.deep_view().take(
                    j as int,
                )).push(row.deep_view()[j as int]));
                j += 1;
            }
            assert(row.deep_view().take(row.len() as int) =~= row.deep_view());
            i += 1;
        }
        steps
    }

    /// The relations that the rules of the group add to, each once.
    pub fn head_signatures_set(&self) -> (heads: Vec<CollectionSignature>)
        requires
            unique_keys(self.last_signatures_map.deep_view()),
        ensures
            set_of(heads) == self.deep_view().last_signatures.dom(),
            heads.deep_view().no_duplicates(),
    {
        let ghost entries = self.last_signatures_map.deep_view();
        let mut heads: Vec<CollectionSignature> = Vec::new();
        let mut i: usize = 0;
        while i < self.last_signatures_map.len()
            invariant
                i <= self.last_signatures_map.len(),
                entries == self.last_signatures_map.deep_view(),
                heads.len() == i,
                forall|k: int| 0 <= k < i ==> (#[trigger] heads@[k]).deep_view() == entries[k].0,
            decreases self.last_signatures_map.len() - i,
        {
            assert(entries[i as int] == self.last_signatures_map@[i as int].deep_view());
            heads.push(self.last_signatures_map[i].0.clone());
            i += 1;
        }
        proof {
            crate::lists::lemma_unique_entries(entries);
            let all = heads.deep_view();
            assert forall|k: int| 0 <= k < all.len() implies #[trigger] all[k] == entries[k].0 by {
                assert(heads@[k].deep_view() == entries[k].0);
            }
            assert forall|s: CollectionSignatureModel| all.to_set().contains(
                s,
            ) implies entries_map(entries).dom().contains(s) by {
                let k = choose|k: int| 0 <= k < all.len() && all[k] == s;
                assert(entries[k].0 == s);
            }
            assert forall|s: CollectionSignatureModel| entries_map(entries).dom().contains(
                s,
            ) implies all.to_set().contains(s) by {
                assert(entries_map(entries).contains_key(s));
                let k = choose|k: int| 0 <= k < entries.len() && (#[trigger] entries[k]).0 == s;
                assert(all[k] == s);
            }
            assert(all.to_set() =~= entries_map(entries).dom());
            assert forall|i: int, j: int|
                0 <= i < all.len() && 0 <= j < all.len() && i != j implies all[i] != all[j] by {
                if i < j {
                    assert(entries[i].0 != entries[j].0);
                } else {
                    assert(entries[j].0 != entries[i].0);
                }
            }
        }
        heads
    }

    /// The heads of the rules of the group with their arities.
    pub fn heads(&self) -> (heads: Vec<(String, usize)>)
        ensures
            entries_map(heads.deep_view()) == head_arities(self.deep_view().rules),
            unique_keys(heads.deep_view()),
    {
        broadcast use group_take;

        let ghost rules = self.rules.deep_view();
        let mut heads: Vec<(String, usize)> = empty();
        let mut i: usize = 0;
        while i < self.rules.len()
            invariant
                i <= self.rules.len(),
                rules == self.rules.deep_view(),
                unique_keys(heads.deep_view()),
                entries_map(heads.deep_view()) == head_arities(rules.take(i as int)),
            decreases self.rules.len() - i,
        {
            assert(rules.take(i + 1).drop_last() == rules.take(i as int));
            assert(rules[i as int] == self.rules@[i as int].deep_view());
            let head = self.rules[i].head();
            put(&mut heads, head.name().clone(), head.arity());
            i += 1;
        }
        heads
    }

    pub fn last_signatures_map(&self) -> (map: &Vec<(CollectionSignature, Vec<CollectionSignature>)>)
        ensures
            *map == self.last_signatures_map,
    {
        &self.last_signatures_map
    }

    pub fn enter_scope_set(&self) -> (scope: &Vec<CollectionSignature>)
        ensures
            *scope == self.enter_scope,
    {
        &self.enter_scope
    }

    /// The plan written out.
    pub fn to_string(&self) -> (out: String)
        requires
            self.rules@.len() == self.strata_plan@.len(),
        ensures
            out@ == group_text(self.deep_view(), self.enter_scope.deep_view()),
    {
        let ghost group = self.deep_view();
        proof {
            reveal_strlit("");
            assert(self.enter_scope.len() == self.enter_scope.deep_view().len());
            assert(self.strata_plan.len() == self.strata_plan.deep_view().len());
        }
        let mut out = String::new();
        assert(out@ =~= ""@);
        if self.enter_scope.len() > 0 {
            out = "[ent] ".to_owned();
            out.append(join(&crate::text::render_all(&self.enter_scope), " && ").as_str());
            out.append("\n");
        }
        if self.strata_plan.len() == 0 {
            out.append("[∅]");
            return out;
        }
        let mut blocks: Vec<String> = Vec::new();
        let mut i: usize = 0;
        while i < self.strata_plan.len()
            invariant
                i <= self.strata_plan.len(),
                self.rules@.len() == self.strata_plan@.len(),
                group == self.deep_view(),
                blocks.len() == i,
                forall|k: int|
                    0 <= k < i ==> (#[trigger] blocks@[k])@ == rule_blocks(
                        group.rules,
                        group.strata_plan,
                    )[k],
            decreases self.strata_plan.len() - i,
        {
            assert(group.rules[i as int] == self.rules@[i as int].deep_view());
            assert(group.strata_plan[i as int] == self.strata_plan@[i as int].deep_view());
            let mut block = self.rules[i].to_string();
            block.append("\n");
            block.append(render_steps(&self.strata_plan[i]).as_str());
            blocks.push(block);
            i += 1;
        }
        assert(blocks.deep_view() =~= rule_blocks(group.rules, group.strata_plan));
        out.append(join(&blocks, "\n").as_str());
        out
    }
}

/// Whether the steps of every plan reach down to relations without a gap.
pub open spec fn all_linked(plans: Seq<RulePlanModel>) -> bool {
    forall|i: int|
        0 <= i < plans.len() ==> is_linked((#[trigger] plans[i]).rule, plans[i].steps)
}

proof fn lemma_all_linked_front(plans: Seq<RulePlanModel>)
    requires
        all_linked(plans),
        plans.len() > 0,
    ensures
        all_linked(plans.drop_last()),
        is_linked(plans.last().rule, plans.last().steps),
{
    assert(is_linked(plans[plans.len() - 1].rule, plans[plans.len() - 1].steps));
    assert forall|i: int| 0 <= i < plans.drop_last().len() implies is_linked(
        (#[trigger] plans.drop_last()[i]).rule,
        plans.drop_last()[i].steps,
    ) by {
        assert(plans.drop_last()[i] == plans[i]);
    }
}

/// The steps of a group without recursion come in an order in which they can be
/// carried out, on top of what groups before it put out; afterwards all that they
/// put out is known.
pub proof fn law_rows_come_in_order(
    plans: Seq<RulePlanModel>,
    seen: Set<CollectionSignatureModel>,
)
    requires
        all_linked(plans),
    ensures
        is_ordered(flat(rows_of(plans, seen, false).0), seen),
        rows_of(plans, seen, false).1 == seen.union(outputs(flat(rows_of(plans, seen, false).0))),
        forall|i: int|
            0 <= i < plans.len() ==> rows_of(plans, seen, false).1.contains(
                put_out((#[trigger] plans[i]).steps.last),
            ),
    decreases plans.len(),
{
    let rows = rows_of(plans, seen, false);
    if plans.len() == 0 {
        assert(flat(rows.0) =~= Seq::empty());
        assert(seen =~= seen.union(outputs(flat(rows.0))));
    } else {
        lemma_all_linked_front(plans);
        law_rows_come_in_order(plans.drop_last(), seen);
        let front = rows_of(plans.drop_last(), seen, false);
        let steps = plans.last().steps;
        law_steps_come_in_order(plans.last().rule, steps, front.1);
        let row = plan_of(steps.tree, steps.last, front.1);
        assert(rows.0.drop_last() =~= front.0);
        assert(flat(rows.0) == flat(front.0) + row.0);
        lemma_ordered_add(flat(front.0), row.0, seen);
        lemma_outputs_add(flat(front.0), row.0);
        assert(rows.1 =~= seen.union(outputs(flat(rows.0))));
        assert forall|i: int| 0 <= i < plans.len() implies rows.1.contains(
            put_out((#[trigger] plans[i]).steps.last),
        ) by {
            if i < plans.len() - 1 {
                assert(plans.drop_last()[i] == plans[i]);
                assert(front.1.contains(put_out(plans[i].steps.last)));
            }
        }
    }
}

/// The steps of a recursive group come in an order in which they can be carried
/// out, on top of what is brought in.
pub proof fn law_nested_rows_come_in_order(
    plans: Seq<RulePlanModel>,
    seen: Set<CollectionSignatureModel>,
)
    requires
        all_linked(plans),
    ensures
        is_ordered(flat(nested_rows_of(plans, seen, false).0), nested_rows_of(plans, seen, false).1),
        nested_rows_of(plans, seen, false).2 == outputs(flat(nested_rows_of(plans, seen, false).0)),
    decreases plans.len(),
{
    let rows = nested_rows_of(plans, seen, false);
    if plans.len() == 0 {
        assert(flat(rows.0) =~= Seq::empty());
        assert(outputs(flat(rows.0)) =~= Set::empty());
    } else {
        lemma_all_linked_front(plans);
        law_nested_rows_come_in_order(plans.drop_last(), seen);
        let front = nested_rows_of(plans.drop_last(), seen, false);
        let steps = plans.last().steps;
        law_nested_steps_come_in_order(plans.last().rule, steps, seen, front.2);
        let row = nested_plan_of(steps.tree, steps.last, seen, front.2);
        assert(rows.0.drop_last() =~= front.0);
        assert(flat(rows.0) == flat(front.0) + row.0);
        lemma_ordered_more(flat(front.0), front.1, rows.1);
        lemma_ordered_more(row.0, row.1.union(front.2), rows.1.union(outputs(flat(front.0))));
        lemma_ordered_add(flat(front.0), row.0, rows.1);
        lemma_outputs_add(flat(front.0), row.0);
        assert(rows.2 =~= outputs(flat(rows.0)));
    }
}

proof fn lemma_runnable_two(a: Seq<TransformationModel>, b: Seq<TransformationModel>)
    requires
        are_runnable(a),
        are_runnable(b),
    ensures
        are_runnable(a + b),
{
    let all = a + b;
    assert forall|i: int| 0 <= i < all.len() implies is_row_step(
        #[trigger] all[i],
    ) || is_join_step(all[i]) by {
        if i < a.len() {
            assert(all[i] == a[i]);
        } else {
            assert(all[i] == b[i - a.len()]);
        }
    }
}

pub proof fn lemma_rows_runnable(
    plans: Seq<RulePlanModel>,
    seen: Set<CollectionSignatureModel>,
    disable_sharing: bool,
)
    requires
        all_linked(plans),
    ensures
        are_runnable(flat(rows_of(plans, seen, disable_sharing).0)),
        are_runnable(flat(nested_rows_of(plans, seen, disable_sharing).0)),
        rows_of(plans, seen, disable_sharing).0.len() == plans.len(),
        nested_rows_of(plans, seen, disable_sharing).0.len() == plans.len(),
    decreases plans.len(),
{
    if plans.len() > 0 {
        lemma_all_linked_front(plans);
        lemma_rows_runnable(plans.drop_last(), seen, disable_sharing);
        let rule = plans.last().rule;
        let steps = plans.last().steps;
        let front = rows_of(plans.drop_last(), seen, disable_sharing);
        let nested = nested_rows_of(plans.drop_last(), seen, disable_sharing);
        let first = if disable_sharing {
            Set::empty()
        } else {
            front.1
        };
        lemma_plan_runnable(rule, steps.tree, steps.last, first);
        lemma_runnable_two(flat(front.0), plan_of(steps.tree, steps.last, first).0);
        let rows = rows_of(plans, seen, disable_sharing);
        assert(rows.0.drop_last() =~= front.0);
        let (outside, inside) = if disable_sharing {
            (Set::empty(), Set::empty())
        } else {
            (seen, nested.2)
        };
        lemma_nested_runnable(rule, steps.tree, steps.last, outside, inside);
        lemma_runnable_two(
            flat(nested.0),
            nested_plan_of(steps.tree, steps.last, outside, inside).0,
        );
        let nested_rows = nested_rows_of(plans, seen, disable_sharing);
        assert(nested_rows.0.drop_last() =~= nested.0);
    }
}

} // verus!
