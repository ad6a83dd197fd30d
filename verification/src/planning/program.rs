//! The plan of a program.
use vstd::prelude::*;
use vstd::string::*;
use crate::catalog::body::is_safe;
use crate::catalog::rule::Catalog;
use crate::catalog::sideways::sideways_rules;
use crate::lists::{empty, extend, group_take, push, take_first, unique_keys};
use crate::parsing::rule::{FLRule, FLRuleModel};
use crate::planning::collections::{
    without_flows, CollectionModel, CollectionSignature, CollectionSignatureModel,
};
use crate::planning::linking::is_linked;
use crate::planning::rule::{is_join_tree, is_plannable, rule_steps, RulePlanModel, RuleQueryPlan};
use crate::planning::sharing::{are_runnable, lemma_linked_is_closed, set_of};
use crate::planning::strata::{
    all_linked, flat, group_plan, group_text, lemma_rows_runnable, GroupPlanModel,
    GroupStrataQueryPlan,
};
use crate::planning::transformations::{
    is_join_step, is_row_step, Transformation, TransformationModel,
};
use crate::strata::stratification::Strata;
use crate::text::{nat_text, usize_to_text};

verus! {

/// The plan of a program: the plans of groups of rules, to be carried out in order.
#[derive(Debug)]
pub struct ProgramQueryPlan {
    pub program_plan: Vec<GroupStrataQueryPlan>,
}

/// The rules of each stratum.
pub open spec fn strata_rules(strata: Strata) -> Seq<Seq<FLRuleModel>> {
    Seq::new(
        strata.strata@.len(),
        |k: int|
            Seq::new(
                strata.strata@[k]@.len(),
                |i: int| strata.fl_program.deep_view().rules[strata.strata@[k]@[i] as int],
            ),
    )
}

/// A rule as it is planned at an optimization level: at level 0 as it stands, at 1
/// with values passed sideways, at 2 with its joins put in order, at 3 with both.
/// Without a level a rule is planned as its marks say.
pub open spec fn at_level(rule: FLRuleModel, opt_level: Option<u8>) -> FLRuleModel {
    match opt_level {
        Some(level) => FLRuleModel {
            is_planning: level == 2 || level == 3,
            is_sip: level == 1 || level == 3,
            ..rule
        },
        None => rule,
    }
}

/// The rules of each stratum as they are planned at an optimization level.
pub open spec fn rules_at(strata: Strata, opt_level: Option<u8>) -> Seq<Seq<FLRuleModel>> {
    Seq::new(
        strata_rules(strata).len(),
        |k: int| strata_rules(strata)[k].map_values(|r: FLRuleModel| at_level(r, opt_level)),
    )
}

/// What a rule is planned as: itself, or the rules that it is rewritten into; and
/// whether the order of joins is to be optimised.
pub open spec fn expand_rule(rule: FLRuleModel, rule_loc: usize) -> Seq<(FLRuleModel, bool)> {
    let rules = if rule.is_sip {
        sideways_rules(rule, rule_loc)
    } else {
        seq![rule]
    };
    rules.map_values(|r: FLRuleModel| (r, rule.is_planning))
}

/// What the rules of a stratum are planned as.
pub open spec fn expand_stratum(rules: Seq<FLRuleModel>) -> Seq<(FLRuleModel, bool)>
    decreases rules.len(),
{
    if rules.len() == 0 {
        Seq::empty()
    } else {
        expand_stratum(rules.drop_last()) + expand_rule(
            rules.last(),
            (rules.len() - 1) as usize,
        )
    }
}

/// Whether a rule of a stratum is to be rewritten.
pub open spec fn has_sip(rules: Seq<FLRuleModel>) -> bool {
    exists|i: int| 0 <= i < rules.len() && (#[trigger] rules[i]).is_sip
}

/// The groups that the rules of a stratum are carried out in. Rewritten rules
/// build on each other, so outside of recursion each forms a group of its own.
pub open spec fn groups_of(rules: Seq<FLRuleModel>, is_recursive: bool) -> Seq<
    (bool, Seq<(FLRuleModel, bool)>),
> {
    let expanded = expand_stratum(rules);
    if !is_recursive && has_sip(rules) {
        Seq::new(expanded.len(), |i: int| (false, seq![expanded[i]]))
    } else {
        seq![(is_recursive, expanded)]
    }
}

/// The groups of all strata, in order.
pub open spec fn all_groups(strata: Seq<Seq<FLRuleModel>>, is_recursive: Seq<bool>) -> Seq<
    (bool, Seq<(FLRuleModel, bool)>),
>
    decreases strata.len(),
{
    if strata.len() == 0 {
        Seq::empty()
    } else {
        all_groups(strata.drop_last(), is_recursive) + groups_of(
            strata.last(),
            is_recursive[strata.len() - 1],
        )
    }
}

/// Whether this is a plan of a rule.
pub open spec fn is_rule_plan(rule: FLRuleModel, is_optimized: bool, plan: RulePlanModel) -> bool {
    &&& plan.rule == rule
    &&& exists|shape: crate::optimizing::join_tree::JoinTree| #[trigger]
        is_join_tree(rule, is_optimized, shape) && rule_steps(rule, shape) == Some(plan.steps)
}

/// Whether these are plans of rules, in order.
pub open spec fn are_rule_plans(
    expected: Seq<(FLRuleModel, bool)>,
    plans: Seq<RulePlanModel>,
) -> bool {
    &&& plans.len() == expected.len()
    &&& forall|i: int|
        0 <= i < plans.len() ==> is_rule_plan(expected[i].0, expected[i].1, #[trigger] plans[i])
}

/// Whether these are plans of the rules of groups, in order.
pub open spec fn are_group_plans(
    expected: Seq<(bool, Seq<(FLRuleModel, bool)>)>,
    plans: Seq<(bool, Seq<RulePlanModel>)>,
) -> bool {
    &&& plans.len() == expected.len()
    &&& forall|i: int|
        0 <= i < plans.len() ==> (#[trigger] plans[i]).0 == expected[i].0 && are_rule_plans(
            expected[i].1,
            plans[i].1,
        )
}

/// The plans of groups, each on top of what those before it put out.
pub open spec fn groups_plan(
    plans: Seq<(bool, Seq<RulePlanModel>)>,
    disable_sharing: bool,
) -> (Seq<GroupPlanModel>, Set<CollectionSignatureModel>)
    decreases plans.len(),
{
    if plans.len() == 0 {
        (Seq::empty(), Set::empty())
    } else {
        let front = groups_plan(plans.drop_last(), disable_sharing);
        let last = group_plan(plans.last().0, plans.last().1, front.1, disable_sharing);
        (front.0.push(last.0), last.1)
    }
}

/// Whether every rule is safe, and everything that it is planned as can be planned.
pub open spec fn is_strata_plannable(strata: Seq<Seq<FLRuleModel>>) -> bool {
    forall|k: int, i: int|
        0 <= k < strata.len() && 0 <= i < strata[k].len() ==> is_expandable(
            #[trigger] strata[k][i],
            i as usize,
        )
}

pub open spec fn is_expandable(rule: FLRuleModel, rule_loc: usize) -> bool {
    &&& is_safe(rule)
    &&& forall|j: int|
        0 <= j < expand_rule(rule, rule_loc).len() ==> is_plannable(
            (#[trigger] expand_rule(rule, rule_loc)[j]).0,
            rule.is_planning,
        )
}

/// The arities of keys and values of a collection.
pub open spec fn arity_of(collection: CollectionModel) -> (usize, usize) {
    (collection.keys.len() as usize, collection.values.len() as usize)
}

/// The arities of what a step reads.
pub open spec fn input_arities(step: TransformationModel) -> Seq<(usize, usize)> {
    if step.is_unary() {
        seq![arity_of(step.input)]
    } else {
        seq![arity_of(step.input), arity_of(step.second->0)]
    }
}

/// The arities of all that steps put out and read.
pub open spec fn arities(steps: Seq<TransformationModel>) -> Seq<(usize, usize)>
    decreases steps.len(),
{
    if steps.len() == 0 {
        Seq::empty()
    } else {
        arities(steps.drop_last()) + seq![arity_of(steps.last().output)] + input_arities(
            steps.last(),
        )
    }
}

/// The steps of all groups, in order.
pub open spec fn all_steps(groups: Seq<GroupPlanModel>) -> Seq<TransformationModel>
    decreases groups.len(),
{
    if groups.len() == 0 {
        Seq::empty()
    } else {
        all_steps(groups.drop_last()) + flat(groups.last().strata_plan)
    }
}

/// The greatest number in some pairs, 0 if there are none.
pub open spec fn greatest(pairs: Seq<(usize, usize)>) -> usize
    decreases pairs.len(),
{
    if pairs.len() == 0 {
        0
    } else {
        let front = greatest(pairs.drop_last());
        let (k, v) = pairs.last();
        let here = if k > v {
            k
        } else {
            v
        };
        if here > front {
            here
        } else {
            front
        }
    }
}

/// Whether the second pair is nowhere smaller than the first, and somewhere greater.
pub open spec fn is_dominated_by(pair: (usize, usize), other: (usize, usize)) -> bool {
    other.0 >= pair.0 && other.1 >= pair.1 && (other.0 > pair.0 || other.1 > pair.1)
}

pub open spec fn is_dominated(pair: (usize, usize), pairs: Seq<(usize, usize)>) -> bool {
    exists|i: int| 0 <= i < pairs.len() && is_dominated_by(pair, #[trigger] pairs[i])
}

/// The first `upto` pairs that no pair dominates, each once.
pub open spec fn maximal_pairs(pairs: Seq<(usize, usize)>, upto: nat) -> Seq<(usize, usize)>
    decreases upto,
{
    if upto == 0 {
        Seq::empty()
    } else {
        let front = maximal_pairs(pairs, (upto - 1) as nat);
        let pair = pairs[upto - 1];
        if front.contains(pair) || is_dominated(pair, pairs) {
            front
        } else {
            front.push(pair)
        }
    }
}

/// Whether a number of a pair is greater than a bound.
pub open spec fn exceeds(pairs: Seq<(usize, usize)>, bound: usize) -> bool {
    exists|i: int| 0 <= i < pairs.len() && ((#[trigger] pairs[i]).0 > bound || pairs[i].1 > bound)
}

/// What is told of a step: the name of what it puts out, and the arities.
pub open spec fn step_arities(step: TransformationModel) -> (
    Seq<char>,
    Seq<(usize, usize)>,
    (usize, usize),
) {
    (without_flows(step.output.signature.name()), input_arities(step), arity_of(step.output))
}

proof fn lemma_maximal(pairs: Seq<(usize, usize)>, upto: nat)
    requires
        upto <= pairs.len(),
    ensures
        forall|i: int|
            0 <= i < upto && !is_dominated(#[trigger] pairs[i], pairs) ==> maximal_pairs(
                pairs,
                upto,
            ).contains(pairs[i]),
        forall|p: (usize, usize)| #[trigger]
            maximal_pairs(pairs, upto).contains(p) ==> pairs.contains(p) && !is_dominated(p, pairs),
        maximal_pairs(pairs, upto).no_duplicates(),
    decreases upto,
{
    if upto > 0 {
        lemma_maximal(pairs, (upto - 1) as nat);
        let front = maximal_pairs(pairs, (upto - 1) as nat);
        let all = maximal_pairs(pairs, upto);
        let pair = pairs[upto - 1];
        assert forall|i: int| 0 <= i < upto && !is_dominated(#[trigger] pairs[i], pairs) implies all.contains(
            pairs[i],
        ) by {
            if i < upto - 1 {
                let k = choose|k: int| 0 <= k < front.len() && front[k] == pairs[i];
                assert(front.contains(pairs[i]));
                assert(all[k] == pairs[i]);
            } else if !front.contains(pair) {
                assert(all[front.len() as int] == pair);
            }
        }
        assert forall|p: (usize, usize)| #[trigger] all.contains(p) implies pairs.contains(p)
            && !is_dominated(p, pairs) by {
            let k = choose|k: int| 0 <= k < all.len() && all[k] == p;
            if k < front.len() {
                assert(front[k] == p);
                assert(front.contains(p));
            } else {
                assert(pairs[upto - 1] == p);
            }
        }
    }
}

/// No maximal pair dominates another, each stands once, and every pair is a
/// maximal one or dominated by one.
pub proof fn law_maximal_pairs(pairs: Seq<(usize, usize)>)
    ensures
        maximal_pairs(pairs, pairs.len()).no_duplicates(),
        forall|p: (usize, usize), q: (usize, usize)|
            #![trigger maximal_pairs(pairs, pairs.len()).contains(p), maximal_pairs(pairs, pairs.len()).contains(q)]
            maximal_pairs(pairs, pairs.len()).contains(p) && maximal_pairs(
                pairs,
                pairs.len(),
            ).contains(q) ==> !is_dominated_by(p, q),
        forall|p: (usize, usize)| #[trigger]
            pairs.contains(p) ==> maximal_pairs(pairs, pairs.len()).contains(p) || is_dominated(
                p,
                maximal_pairs(pairs, pairs.len()),
            ),
{
    let kept = maximal_pairs(pairs, pairs.len());
    lemma_maximal(pairs, pairs.len());
    assert forall|p: (usize, usize), q: (usize, usize)|
        #![trigger kept.contains(p), kept.contains(q)]
        kept.contains(p) && kept.contains(q) implies !is_dominated_by(p, q) by {
        let k = choose|k: int| 0 <= k < pairs.len() && pairs[k] == q;
        assert(pairs.contains(q));
        assert(!is_dominated(p, pairs));
    }
    assert forall|p: (usize, usize)| #[trigger] pairs.contains(p) implies kept.contains(p)
        || is_dominated(p, kept) by {
        lemma_below_maximal(pairs, p);
    }
}

proof fn lemma_below_maximal(pairs: Seq<(usize, usize)>, p: (usize, usize))
    requires
        pairs.contains(p),
    ensures
        maximal_pairs(pairs, pairs.len()).contains(p) || is_dominated(
            p,
            maximal_pairs(pairs, pairs.len()),
        ),
    decreases (usize::MAX - p.0) + (usize::MAX - p.1),
{
    let kept = maximal_pairs(pairs, pairs.len());
    lemma_maximal(pairs, pairs.len());
    let k = choose|k: int| 0 <= k < pairs.len() && pairs[k] == p;
    if is_dominated(p, pairs) {
        let i = choose|i: int| 0 <= i < pairs.len() && is_dominated_by(p, #[trigger] pairs[i]);
        let q = pairs[i];
        assert(pairs.contains(q));
        lemma_below_maximal(pairs, q);
        if kept.contains(q) {
            let m = choose|m: int| 0 <= m < kept.len() && kept[m] == q;
            assert(is_dominated_by(p, kept[m]));
        } else {
            let m = choose|m: int| 0 <= m < kept.len() && is_dominated_by(q, #[trigger] kept[m]);
            assert(is_dominated_by(p, kept[m]));
        }
    } else {
        assert(kept.contains(pairs[k]));
    }
}

proof fn lemma_greatest(pairs: Seq<(usize, usize)>, bound: usize)
    ensures
        greatest(pairs) > bound <==> exceeds(pairs, bound),
    decreases pairs.len(),
{
    if pairs.len() > 0 {
        let front = pairs.drop_last();
        lemma_greatest(front, bound);
        if exceeds(front, bound) {
            let i = choose|i: int|
                0 <= i < front.len() && ((#[trigger] front[i]).0 > bound || front[i].1 > bound);
            assert(pairs[i] == front[i]);
        }
        if exceeds(pairs, bound) {
            let i = choose|i: int|
                0 <= i < pairs.len() && ((#[trigger] pairs[i]).0 > bound || pairs[i].1 > bound);
            if i < front.len() {
                assert(front[i] == pairs[i]);
            }
        }
        if greatest(pairs) > bound && !exceeds(front, bound) {
            assert(pairs[pairs.len() - 1].0 > bound || pairs[pairs.len() - 1].1 > bound);
        }
    }
}

/// A bound is exceeded by a maximal pair exactly if the greatest arity exceeds it.
pub proof fn law_bound_by_greatest(pairs: Seq<(usize, usize)>, bound: usize)
    ensures
        exceeds(maximal_pairs(pairs, pairs.len()), bound) <==> greatest(pairs) > bound,
{
    let kept = maximal_pairs(pairs, pairs.len());
    lemma_greatest(pairs, bound);
    lemma_maximal(pairs, pairs.len());
    if exceeds(kept, bound) {
        let i = choose|i: int|
            0 <= i < kept.len() && ((#[trigger] kept[i]).0 > bound || kept[i].1 > bound);
        assert(kept.contains(kept[i]));
        let k = choose|k: int| 0 <= k < pairs.len() && pairs[k] == kept[i];
        assert(pairs[k].0 > bound || pairs[k].1 > bound);
    }
    if exceeds(pairs, bound) {
        let i = choose|i: int|
            0 <= i < pairs.len() && ((#[trigger] pairs[i]).0 > bound || pairs[i].1 > bound);
        let p = pairs[i];
        assert(pairs.contains(p));
        lemma_below_maximal(pairs, p);
        if kept.contains(p) {
            let m = choose|m: int| 0 <= m < kept.len() && kept[m] == p;
            assert(kept[m].0 > bound || kept[m].1 > bound);
        } else {
            let m = choose|m: int| 0 <= m < kept.len() && is_dominated_by(p, #[trigger] kept[m]);
            assert(kept[m].0 > bound || kept[m].1 > bound);
        }
    }
}

/// The plan written out, group by group.
pub open spec fn program_text(
    groups: Seq<GroupPlanModel>,
    scopes: Seq<Seq<CollectionSignatureModel>>,
) -> Seq<char>
    decreases groups.len(),
{
    if groups.len() == 0 {
        Seq::empty()
    } else {
        program_text(groups.drop_last(), scopes) + "#"@ + nat_text((groups.len() - 1) as nat)
            + "\n"@ + group_text(groups.last(), scopes[groups.len() - 1]) + "\n"@ + "\n"@
    }
}

/// What is brought into each group, in the order in which it is listed.
pub open spec fn scopes_of(groups: Seq<GroupStrataQueryPlan>) -> Seq<
    Seq<CollectionSignatureModel>,
> {
    Seq::new(groups.len(), |i: int| groups[i].enter_scope.deep_view())
}

/// The plans of a rule, or of the rules that it is rewritten into.
#[verifier::spinoff_prover]
#[verifier::rlimit(40)]
fn plan_rule(rule: &FLRule, rule_loc: usize) -> (plans: Option<Vec<RuleQueryPlan>>)
    ensures
        match plans {
            Some(plans) => are_rule_plans(
                expand_rule(rule.deep_view(), rule_loc),
                plans.deep_view(),
            ) && all_linked(plans.deep_view()),
            None => !is_expandable(rule.deep_view(), rule_loc),
        },
{
    let ghost model = rule.deep_view();
    let ghost expected = expand_rule(model, rule_loc);
    let catalog = match Catalog::try_from_strata(rule) {
        Some(catalog) => catalog,
        None => {
            return None;
        },
    };
    let catalogs = if rule.is_sip() {
        catalog.sideways(rule_loc)
    } else {
        vec![catalog]
    };
    let mut plans: Vec<RuleQueryPlan> = Vec::new();
    let mut i: usize = 0;
    while i < catalogs.len()
        invariant
            i <= catalogs.len(),
            model == rule.deep_view(),
            expected == expand_rule(model, rule_loc),
            catalogs@.len() == expected.len(),
            forall|k: int|
                0 <= k < catalogs@.len() ==> (#[trigger] catalogs@[k]).wf()
                    && catalogs@[k].rule.deep_view() == expected[k].0,
            plans.len() == i,
            forall|k: int|
                0 <= k < i ==> is_rule_plan(
                    expected[k].0,
                    expected[k].1,
                    (#[trigger] plans@[k]).deep_view(),
                ) && is_linked(plans@[k].deep_view().rule, plans@[k].deep_view().steps),
        decreases catalogs.len() - i,
    {
        assert(catalogs@[i as int].wf());
        assert(expected[i as int].1 == model.is_planning);
        match RuleQueryPlan::try_from_catalog(&catalogs[i], rule.is_planning()) {
            Some(plan) => {
                assert(is_join_tree(expected[i as int].0, model.is_planning, plan.plan.shape));
                plans.push(plan);
            },
            None => {
                assert(!is_plannable(expected[i as int].0, model.is_planning));
                return None;
            },
        }
        i += 1;
    }
    proof {
        let all = plans.deep_view();
        assert forall|k: int| 0 <= k < all.len() implies is_rule_plan(
            expected[k].0,
            expected[k].1,
            #[trigger] all[k],
        ) by {
            assert(all[k] == plans@[k].deep_view());
        }
        assert forall|k: int| 0 <= k < all.len() implies is_linked(
            (#[trigger] all[k]).rule,
            all[k].steps,
        ) by {
            assert(all[k] == plans@[k].deep_view());
        }
    }
    Some(plans)
}

/// The plans of the rules of a stratum.
fn plan_stratum(rules: &Vec<FLRule>) -> (plans: Option<Vec<RuleQueryPlan>>)
    ensures
        match plans {
            Some(plans) => are_rule_plans(expand_stratum(rules.deep_view()), plans.deep_view())
                && all_linked(plans.deep_view()),
            None => exists|i: int|
                0 <= i < rules@.len() && !is_expandable(
                    #[trigger] rules.deep_view()[i],
                    i as usize,
                ),
        },
{
    broadcast use group_take;

    let ghost models = rules.deep_view();
    let mut plans: Vec<RuleQueryPlan> = empty();
    let mut i: usize = 0;
    while i < rules.len()
        invariant
            i <= rules.len(),
            models == rules.deep_view(),
            are_rule_plans(expand_stratum(models.take(i as int)), plans.deep_view()),
            all_linked(plans.deep_view()),
        decreases rules.len() - i,
    {
        proof {
            assert(models.take(i + 1).drop_last() == models.take(i as int));
            assert(models[i as int] == rules@[i as int].deep_view());
        }
        match plan_rule(&rules[i], i) {
            Some(more) => {
                let ghost before = plans.deep_view();
                let ghost added = more.deep_view();
                extend(&mut plans, more);
                proof {
                    let expected = expand_stratum(models.take(i as int));
                    let extra = expand_rule(models[i as int], i);
                    let all = plans.deep_view();
                    assert forall|k: int| 0 <= k < all.len() implies is_rule_plan(
                        (expected + extra)[k].0,
                        (expected + extra)[k].1,
                        #[trigger] all[k],
                    ) by {
                        if k < before.len() {
                            assert(all[k] == before[k]);
                        } else {
                            assert(all[k] == added[k - before.len()]);
                        }
                    }
                    assert forall|k: int| 0 <= k < all.len() implies is_linked(
                        (#[trigger] all[k]).rule,
                        all[k].steps,
                    ) by {
                        if k < before.len() {
                            assert(all[k] == before[k]);
                        } else {
                            assert(all[k] == added[k - before.len()]);
                        }
                    }
                }
            },
            None => {
                assert(!is_expandable(models[i as int], i));
                return None;
            },
        }
        i += 1;
    }
    Some(plans)
}

/// Each plan as a group of its own.
pub open spec fn singly<M>(plans: Seq<M>) -> Seq<(bool, Seq<M>)> {
    Seq::new(plans.len(), |i: int| (false, seq![plans[i]]))
}

fn singles<T: DeepView>(plans: Vec<T>) -> (groups: Vec<(bool, Vec<T>)>)
    ensures
        groups.deep_view() == singly(plans.deep_view()),
{
    let ghost all = plans.deep_view();
    let mut plans = plans;
    let mut groups: Vec<(bool, Vec<T>)> = empty();
    let ghost mut done: int = 0;
    assert(plans.deep_view() =~= all.skip(0));
    assert(groups.deep_view() =~= singly(all.take(0)));
    while plans.len() > 0
        invariant
            0 <= done <= all.len(),
            done + plans@.len() == all.len(),
            plans.deep_view() == all.skip(done),
            groups.deep_view() == singly(all.take(done)),
        decreases plans@.len(),
    {
        assert(plans.deep_view()[0] == all[done]);
        let plan = take_first(&mut plans);
        assert(all.skip(done).skip(1) =~= all.skip(done + 1));
        let mut one: Vec<T> = empty();
        push(&mut one, plan);
        assert(one.deep_view() =~= seq![all[done]]);
        push(&mut groups, (false, one));
        assert(singly(all.take(done + 1)) =~= singly(all.take(done)).push(
            (false, seq![all[done]]),
        ));
        proof {
            done = done + 1;
        }
    }
    assert(all.take(done) =~= all);
    groups
}

/// Whether a rule of the list is to be rewritten.
fn any_sip(rules: &Vec<FLRule>) -> (answer: bool)
    ensures
        answer == has_sip(rules.deep_view()),
{
    let mut i: usize = 0;
    while i < rules.len()
        invariant
            i <= rules.len(),
            forall|k: int| 0 <= k < i ==> !(#[trigger] rules.deep_view()[k]).is_sip,
        decreases rules.len() - i,
    {
        assert(rules.deep_view()[i as int] == rules@[i as int].deep_view());
        if rules[i].is_sip() {
            return true;
        }
        i += 1;
    }
    false
}

pub open spec fn all_groups_linked(plans: Seq<(bool, Seq<RulePlanModel>)>) -> bool {
    forall|i: int| 0 <= i < plans.len() ==> all_linked((#[trigger] plans[i]).1)
}

/// The rules of a stratum as they are planned at an optimization level.
fn put_at_level(rules: &Vec<&FLRule>, opt_level: Option<u8>) -> (out: Vec<FLRule>)
    ensures
        out.deep_view() == rules.deep_view().map_values(|r: FLRuleModel| at_level(r, opt_level)),
{
    let ghost f = |r: FLRuleModel| at_level(r, opt_level);
    let ghost models = rules.deep_view();
    let mut out: Vec<FLRule> = Vec::new();
    let mut i: usize = 0;
    while i < rules.len()
        invariant
            i <= rules.len(),
            models == rules.deep_view(),
            out.len() == i,
            forall|k: int|
                0 <= k < i ==> (#[trigger] out@[k]).deep_view() == at_level(models[k], opt_level),
        decreases rules.len() - i,
    {
        assert(models[i as int] == rules@[i as int].deep_view());
        let mut rule = rules[i].clone();
        if let Some(level) = opt_level {
            rule = FLRule::new(rule.head, rule.rhs, level == 2 || level == 3, level == 1 || level == 3);
        }
        out.push(rule);
        i += 1;
    }
    assert(out.deep_view() =~= models.map_values(f));
    out
}

/// The plans of the groups that the rules of a stratum are carried out in.
fn plan_one(rules: &Vec<FLRule>, is_recursive: bool) -> (groups: Option<
    Vec<(bool, Vec<RuleQueryPlan>)>,
>)
    ensures
        match groups {
            Some(groups) => are_group_plans(
                groups_of(rules.deep_view(), is_recursive),
                groups.deep_view(),
            ) && all_groups_linked(groups.deep_view()),
            None => exists|i: int|
                0 <= i < rules@.len() && !is_expandable(
                    #[trigger] rules.deep_view()[i],
                    i as usize,
                ),
        },
{
    let plans = match plan_stratum(rules) {
        Some(plans) => plans,
        None => {
            return None;
        },
    };
    let ghost row = plans.deep_view();
    let ghost expected = expand_stratum(rules.deep_view());
    let ghost extra = groups_of(rules.deep_view(), is_recursive);
    let groups = if !is_recursive && any_sip(rules) {
        singles(plans)
    } else {
        let mut one: Vec<(bool, Vec<RuleQueryPlan>)> = empty();
        push(&mut one, (is_recursive, plans));
        assert(one.deep_view() =~= seq![(is_recursive, row)]);
        one
    };
    proof {
        let added = groups.deep_view();
        assert(added.len() == extra.len());
        assert forall|i: int| 0 <= i < added.len() implies (#[trigger] added[i]).0 == extra[i].0
            && are_rule_plans(extra[i].1, added[i].1) && all_linked(added[i].1) by {
            if !is_recursive && has_sip(rules.deep_view()) {
                assert(added[i].1 == seq![row[i]]);
                assert(extra[i].1 == seq![expected[i]]);
                assert(is_rule_plan(expected[i].0, expected[i].1, row[i]));
                assert(is_linked(row[i].rule, row[i].steps));
            } else {
                assert(added[i].1 == row);
            }
        }
    }
    Some(groups)
}

/// Plans of groups and of groups behind them are plans of all of them.
proof fn lemma_group_plans_add(
    front: Seq<(bool, Seq<(FLRuleModel, bool)>)>,
    extra: Seq<(bool, Seq<(FLRuleModel, bool)>)>,
    before: Seq<(bool, Seq<RulePlanModel>)>,
    added: Seq<(bool, Seq<RulePlanModel>)>,
)
    requires
        are_group_plans(front, before),
        are_group_plans(extra, added),
        all_groups_linked(before),
        all_groups_linked(added),
    ensures
        are_group_plans(front + extra, before + added),
        all_groups_linked(before + added),
{
    let all = before + added;
    assert forall|i: int| 0 <= i < all.len() implies (#[trigger] all[i]).0 == (front + extra)[i].0
        && are_rule_plans((front + extra)[i].1, all[i].1) && all_linked(all[i].1) by {
        if i < before.len() {
            assert(all[i] == before[i]);
        } else {
            assert(all[i] == added[i - before.len()]);
        }
    }
}

/// The plans of the rules of all groups.
fn plan_groups(strata: &Strata, opt_level: Option<u8>) -> (groups: Option<
    Vec<(bool, Vec<RuleQueryPlan>)>,
>)
    requires
        strata.wf(),
    ensures
        match groups {
            Some(groups) => are_group_plans(
                all_groups(rules_at(*strata, opt_level), strata.is_recursive_strata_bitmap@),
                groups.deep_view(),
            ) && all_groups_linked(groups.deep_view()),
            None => !is_strata_plannable(rules_at(*strata, opt_level)),
        },
{
    broadcast use group_take;

    let lists = strata.strata();
    let ghost stated = strata_rules(*strata);
    let ghost models = rules_at(*strata, opt_level);
    let ghost bitmap = strata.is_recursive_strata_bitmap@;
    proof {
        assert forall|k: int| 0 <= k < lists@.len() implies (#[trigger] lists@[k]).deep_view()
            == stated[k] by {
            assert forall|i: int| 0 <= i < lists@[k]@.len() implies lists@[k].deep_view()[i]
                == stated[k][i] by {
                assert(lists@[k]@[i].deep_view() == stated[k][i]);
            }
            assert(lists@[k].deep_view() =~= stated[k]);
        }
        assert(bitmap.len() == models.len());
    }
    let mut groups: Vec<(bool, Vec<RuleQueryPlan>)> = empty();
    let mut k: usize = 0;
    while k < lists.len()
        invariant
            k <= lists.len(),
            lists@.len() == models.len(),
            stated == strata_rules(*strata),
            models == rules_at(*strata, opt_level),
            bitmap == strata.is_recursive_strata_bitmap@,
            bitmap.len() == models.len(),
            forall|k: int|
                0 <= k < lists@.len() ==> (#[trigger] lists@[k]).deep_view() == stated[k],
            are_group_plans(all_groups(models.take(k as int), bitmap), groups.deep_view()),
            all_groups_linked(groups.deep_view()),
        decreases lists.len() - k,
    {
        proof {
            assert(models.take(k + 1).drop_last() == models.take(k as int));
            assert(lists@[k as int].deep_view() == stated[k as int]);
        }
        let rules = put_at_level(&lists[k], opt_level);
        assert(rules.deep_view() == models[k as int]);
        let is_recursive = strata.is_recursive_strata_bitmap[k];
        let more = match plan_one(&rules, is_recursive) {
            Some(more) => more,
            None => {
                proof {
                    let i = choose|i: int|
                        0 <= i < rules@.len() && !is_expandable(
                            #[trigger] rules.deep_view()[i],
                            i as usize,
                        );
                    assert(!is_expandable(models[k as int][i], i as usize));
                }
                return None;
            },
        };
        proof {
            lemma_group_plans_add(
                all_groups(models.take(k as int), bitmap),
                groups_of(models[k as int], is_recursive),
                groups.deep_view(),
                more.deep_view(),
            );
        }
        extend(&mut groups, more);
        k += 1;
    }
    Some(groups)
}

impl ProgramQueryPlan {
    /// Whether every step reads rows or joins two collections, and every group has
    /// one row of steps for each of its rules, and its relations once each.
    pub open spec fn wf(&self) -> bool {
        forall|i: int|
            0 <= i < self.program_plan@.len() ==> {
                &&& are_runnable(flat((#[trigger] self.program_plan@[i]).deep_view().strata_plan))
                &&& self.program_plan@[i].rules@.len() == self.program_plan@[i].strata_plan@.len()
                &&& unique_keys(self.program_plan@[i].last_signatures_map.deep_view())
            }
    }

    pub fn program_plan(&self) -> (groups: &Vec<GroupStrataQueryPlan>)
        ensures
            *groups == self.program_plan,
    {
        &self.program_plan
    }

    pub fn new(program_plan: Vec<GroupStrataQueryPlan>) -> (program: Self)
        ensures
            program.program_plan == program_plan,
    {
        ProgramQueryPlan { program_plan }
    }

    /// Plans a program at an optimization level, if all its rules can be planned.
    pub fn try_from_strata(
        strata: &Strata,
        disable_sharing: bool,
        opt_level: Option<u8>,
    ) -> (program: Option<Self>)
        requires
            strata.wf(),
        ensures
            match program {
                Some(program) => program.wf() && exists|plans: Seq<(bool, Seq<RulePlanModel>)>|
                    are_group_plans(
                        all_groups(rules_at(*strata, opt_level), strata.is_recursive_strata_bitmap@),
                        plans,
                    ) && program.program_plan.deep_view() == (#[trigger] groups_plan(
                        plans,
                        disable_sharing,
                    )).0,
                None => !is_strata_plannable(rules_at(*strata, opt_level)),
            },
    {
        broadcast use group_take;

        let mut groups = match plan_groups(strata, opt_level) {
            Some(groups) => groups,
            None => {
                return None;
            },
        };
        let ghost plans = groups.deep_view();
        let mut seen_set: Vec<CollectionSignature> = empty();
        let mut program_plan: Vec<GroupStrataQueryPlan> = empty();
        assert(set_of(seen_set) =~= Set::empty());
        assert(groups.deep_view() =~= plans.skip(0));
        while groups.len() > 0
            invariant
                program_plan@.len() + groups@.len() == plans.len(),
                groups.deep_view() == plans.skip(program_plan@.len() as int),
                all_groups_linked(plans),
                (program_plan.deep_view(), set_of(seen_set)) == groups_plan(
                    plans.take(program_plan@.len() as int),
                    disable_sharing,
                ),
                forall|i: int|
                    0 <= i < program_plan@.len() ==> {
                        &&& are_runnable(
                            flat((#[trigger] program_plan@[i]).deep_view().strata_plan),
                        )
                        &&& program_plan@[i].rules@.len() == program_plan@[i].strata_plan@.len()
                        &&& unique_keys(program_plan@[i].last_signatures_map.deep_view())
                    },
            decreases groups@.len(),
        {
            let ghost done = program_plan@.len() as int;
            let ghost before = groups.deep_view();
            proof {
                assert(before[0] == plans[done]);
                assert(before[0] == groups@[0].deep_view());
                assert(all_linked(plans[done].1));
                assert(plans.take(done + 1).drop_last() == plans.take(done));
                assert forall|i: int| 0 <= i < plans[done].1.len() implies {
                    let plan = #[trigger] plans[done].1[i];
                    crate::planning::sharing::is_closed(plan.steps.tree, plan.steps.last)
                } by {
                    lemma_linked_is_closed(plans[done].1[i].rule, plans[done].1[i].steps);
                }
            }
            let (is_recursive, rule_plans) = take_first(&mut groups);
            assert(groups.deep_view() =~= plans.skip(done + 1));
            let ghost seen = set_of(seen_set);
            let group = GroupStrataQueryPlan::new(
                is_recursive,
                rule_plans,
                &mut seen_set,
                disable_sharing,
            );
            proof {
                lemma_rows_runnable(plans[done].1, seen, disable_sharing);
                assert(group.rules@.len() == group.rules.deep_view().len());
                assert(group.strata_plan@.len() == group.strata_plan.deep_view().len());
            }
            push(&mut program_plan, group);
        }
        assert(plans.take(plans.len() as int) =~= plans);
        assert(program_plan.deep_view() == groups_plan(plans, disable_sharing).0);
        Some(Self::new(program_plan))
    }

    /// Plans a program at an optimization level.
    pub fn from_strata(
        strata: &Strata,
        disable_sharing: bool,
        opt_level: Option<u8>,
    ) -> (program: Self)
        requires
            strata.wf(),
            is_strata_plannable(rules_at(*strata, opt_level)),
        ensures
            program.wf(),
            exists|plans: Seq<(bool, Seq<RulePlanModel>)>|
                are_group_plans(
                    all_groups(rules_at(*strata, opt_level), strata.is_recursive_strata_bitmap@),
                    plans,
                ) && program.program_plan.deep_view() == (#[trigger] groups_plan(
                    plans,
                    disable_sharing,
                )).0,
    {
        Self::try_from_strata(strata, disable_sharing, opt_level).unwrap()
    }

    /// The steps of all groups, in order.
    fn steps(&self) -> (steps: Vec<&Transformation>)
        requires
            self.wf(),
        ensures
            steps.deep_view() == all_steps(self.program_plan.deep_view()),
            are_runnable(steps.deep_view()),
    {
        broadcast use group_take;

        let ghost groups = self.program_plan.deep_view();
        let mut steps: Vec<&Transformation> = empty();
        let mut i: usize = 0;
        while i < self.program_plan.len()
            invariant
                i <= self.program_plan.len(),
                self.wf(),
                groups == self.program_plan.deep_view(),
                steps.deep_view() == all_steps(groups.take(i as int)),
                are_runnable(steps.deep_view()),
            decreases self.program_plan.len() - i,
        {
            proof {
                assert(groups.take(i + 1).drop_last() == groups.take(i as int));
                assert(groups[i as int] == self.program_plan@[i as int].deep_view());
                assert(are_runnable(flat(self.program_plan@[i as int].deep_view().strata_plan)));
            }
            let more = self.program_plan[i].strata_plan();
            let ghost before = steps.deep_view();
            let ghost added = more.deep_view();
            extend(&mut steps, more);
            proof {
                let all = steps.deep_view();
                assert forall|k: int| 0 <= k < all.len() implies is_row_step(
                    #[trigger] all[k],
                ) || is_join_step(all[k]) by {
                    if k < before.len() {
                        assert(all[k] == before[k]);
                    } else {
                        assert(all[k] == added[k - before.len()]);
                    }
                }
            }
            i += 1;
        }
        steps
    }

    /// The arities of what a step reads.
    fn inputs_of(step: &Transformation) -> (out: Vec<(usize, usize)>)
        requires
            is_row_step(step.deep_view()) || is_join_step(step.deep_view()),
        ensures
            out@ == input_arities(step.deep_view()),
    {
        let mut out: Vec<(usize, usize)> = Vec::new();
        if step.is_unary() {
            out.push(step.unary().arity());
        } else {
            let (left, right) = step.binary();
            out.push(left.arity());
            out.push(right.arity());
        }
        assert(out@ =~= input_arities(step.deep_view()));
        out
    }

    /// The arities of all that the steps put out and read.
    fn pairs(&self) -> (pairs: Vec<(usize, usize)>)
        requires
            self.wf(),
        ensures
            pairs@ == arities(all_steps(self.program_plan.deep_view())),
    {
        broadcast use group_take;

        let steps = self.steps();
        let ghost models = steps.deep_view();
        let mut pairs: Vec<(usize, usize)> = Vec::new();
        let mut i: usize = 0;
        while i < steps.len()
            invariant
                i <= steps.len(),
                models == steps.deep_view(),
                are_runnable(models),
                pairs@ == arities(models.take(i as int)),
            decreases steps.len() - i,
        {
            proof {
                assert(models.take(i + 1).drop_last() == models.take(i as int));
                assert(models[i as int] == steps@[i as int].deep_view());
            }
            let ghost before = pairs@;
            pairs.push(steps[i].output().arity());
            let mut more = Self::inputs_of(steps[i]);
            pairs.append(&mut more);
            assert(pairs@ =~= before + seq![arity_of(models[i as int].output)] + input_arities(
                models[i as int],
            ));
            i += 1;
        }
        pairs
    }

    /// The greatest arity of a key or value.
    pub fn max_arity(&self) -> (arity: usize)
        requires
            self.wf(),
        ensures
            arity == greatest(arities(all_steps(self.program_plan.deep_view()))),
    {
        broadcast use group_take;

        let pairs = self.pairs();
        let mut arity: usize = 0;
        let mut i: usize = 0;
        while i < pairs.len()
            invariant
                i <= pairs.len(),
                arity == greatest(pairs@.take(i as int)),
            decreases pairs.len() - i,
        {
            assert(pairs@.take(i + 1).drop_last() == pairs@.take(i as int));
            let (k, v) = pairs[i];
            let here: usize = if k > v {
                k
            } else {
                v
            };
            if here > arity {
                arity = here;
            }
            i += 1;
        }
        arity
    }

    fn dominated(pair: (usize, usize), pairs: &Vec<(usize, usize)>) -> (answer: bool)
        ensures
            answer == is_dominated(pair, pairs@),
    {
        let mut i: usize = 0;
        while i < pairs.len()
            invariant
                i <= pairs.len(),
                forall|k: int| 0 <= k < i ==> !is_dominated_by(pair, #[trigger] pairs@[k]),
            decreases pairs.len() - i,
        {
            let (k, v) = pairs[i];
            if k >= pair.0 && v >= pair.1 && (k > pair.0 || v > pair.1) {
                assert(is_dominated_by(pair, pairs@[i as int]));
                return true;
            }
            i += 1;
        }
        false
    }

    fn contains_pair(pairs: &Vec<(usize, usize)>, pair: (usize, usize)) -> (found: bool)
        ensures
            found == pairs@.contains(pair),
    {
        let mut i: usize = 0;
        while i < pairs.len()
            invariant
                i <= pairs.len(),
                forall|k: int| 0 <= k < i ==> pairs@[k] != pair,
            decreases pairs.len() - i,
        {
            if pairs[i].0 == pair.0 && pairs[i].1 == pair.1 {
                assert(pairs@[i as int] == pair);
                return true;
            }
            i += 1;
        }
        false
    }

    /// The arities that no other arities dominate, each once.
    pub fn maximal_arity_pairs(&self) -> (kept: Vec<(usize, usize)>)
        requires
            self.wf(),
        ensures
            kept@ == maximal_pairs(
                arities(all_steps(self.program_plan.deep_view())),
                arities(all_steps(self.program_plan.deep_view())).len(),
            ),
    {
        let pairs = self.pairs();
        let mut kept: Vec<(usize, usize)> = Vec::new();
        let mut i: usize = 0;
        while i < pairs.len()
            invariant
                i <= pairs.len(),
                kept@ == maximal_pairs(pairs@, i as nat),
            decreases pairs.len() - i,
        {
            let pair = pairs[i];
            if !Self::contains_pair(&kept, pair) && !Self::dominated(pair, &pairs) {
                kept.push(pair);
            }
            i += 1;
        }
        kept
    }

    /// Whether rows have to be of any size: where an arity exceeds what rows of a
    /// fixed size are made for, or where it is asked for.
    pub fn should_use_fat_mode(&self, user_requested_fat_mode: bool, fallback_arity: usize) -> (answer:
        bool)
        requires
            self.wf(),
        ensures
            answer == (user_requested_fat_mode || greatest(
                arities(all_steps(self.program_plan.deep_view())),
            ) > fallback_arity),
    {
        let kept = self.maximal_arity_pairs();
        proof {
            law_bound_by_greatest(
                arities(all_steps(self.program_plan.deep_view())),
                fallback_arity,
            );
        }
        let mut i: usize = 0;
        while i < kept.len()
            invariant
                i <= kept.len(),
                forall|k: int|
                    0 <= k < i ==> (#[trigger] kept@[k]).0 <= fallback_arity && kept@[k].1
                        <= fallback_arity,
                exceeds(kept@, fallback_arity) <==> greatest(
                    arities(all_steps(self.program_plan.deep_view())),
                ) > fallback_arity,
            decreases kept.len() - i,
        {
            if kept[i].0 > fallback_arity || kept[i].1 > fallback_arity {
                assert(exceeds(kept@, fallback_arity));
                return true;
            }
            i += 1;
        }
        user_requested_fat_mode
    }

    /// What is told of each step: the name of what it puts out, and the arities.
    pub fn arity_analysis(&self) -> (analysis: Vec<(String, Vec<(usize, usize)>, (usize, usize))>)
        requires
            self.wf(),
        ensures
            analysis@.len() == all_steps(self.program_plan.deep_view()).len(),
            forall|i: int|
                0 <= i < analysis@.len() ==> (
                    (#[trigger] analysis@[i]).0@,
                    analysis@[i].1@,
                    analysis@[i].2,
                ) == step_arities(all_steps(self.program_plan.deep_view())[i]),
    {
        let steps = self.steps();
        let ghost models = steps.deep_view();
        let mut analysis: Vec<(String, Vec<(usize, usize)>, (usize, usize))> = Vec::new();
        let mut i: usize = 0;
        while i < steps.len()
            invariant
                i <= steps.len(),
                models == steps.deep_view(),
                are_runnable(models),
                analysis.len() == i,
                forall|k: int|
                    0 <= k < i ==> (
                        (#[trigger] analysis@[k]).0@,
                        analysis@[k].1@,
                        analysis@[k].2,
                    ) == step_arities(models[k]),
            decreases steps.len() - i,
        {
            assert(models[i as int] == steps@[i as int].deep_view());
            let name = steps[i].output().signature().debug_name();
            let inputs = Self::inputs_of(steps[i]);
            analysis.push((name, inputs, steps[i].output().arity()));
            i += 1;
        }
        assert(steps.len() == models.len());
        analysis
    }

    /// The plan written out.
    pub fn to_string(&self) -> (out: String)
        requires
            self.wf(),
        ensures
            out@ == program_text(self.program_plan.deep_view(), scopes_of(self.program_plan@)),
    {
        broadcast use group_take;

        let ghost groups = self.program_plan.deep_view();
        let ghost scopes = scopes_of(self.program_plan@);
        let mut out = String::new();
        assert(out@ =~= program_text(groups.take(0), scopes));
        let mut i: usize = 0;
        while i < self.program_plan.len()
            invariant
                i <= self.program_plan.len(),
                self.wf(),
                groups == self.program_plan.deep_view(),
                scopes == scopes_of(self.program_plan@),
                out@ == program_text(groups.take(i as int), scopes),
            decreases self.program_plan.len() - i,
        {
            assert(groups.take(i + 1).drop_last() == groups.take(i as int));
            assert(groups[i as int] == self.program_plan@[i as int].deep_view());
            out.append("#");
            out.append(usize_to_text(i).as_str());
            out.append("\n");
            out.append(self.program_plan[i].to_string().as_str());
            out.append("\n");
            out.append("\n");
            i += 1;
        }
        out
    }
}

} // verus!
