//! The plan of a rule.
use vstd::prelude::*;
use vstd::string::*;
use crate::catalog::atoms::{AtomArgumentSignature, AtomSignature};
use crate::catalog::body::{atoms_of, comparisons};
use crate::catalog::cores::{core_atoms, core_ids};
use crate::catalog::open::{is_any_open, none_open, are_atoms, ids_of, rhs_ids};
use crate::catalog::query::{
    across_ids, comps_across, comps_covered, comps_vars, comps_within, head_vars, still_open, trace,
    vars_of,
};
use crate::catalog::rule::{atom_names_of, distinct_texts, is_core, Catalog};
use crate::lists::{clone_list, empty, extend, group_take, push};
use crate::optimizing::join_tree::{common, common_texts, is_over, lemma_is_over_parts, JoinTree};
use crate::optimizing::optimizer::PlanTree;
use crate::parsing::arithmetic::distinct;
use crate::parsing::rule::{FLRule, FLRuleModel};
use crate::planning::linking::{is_linked, law_plan_is_linked};
use crate::planning::steps::{
    antijoins, assemble_comparisons, assembled, atom_steps, filters_of, key_arguments, key_vars,
    per_atom_recursive_semijoins_and_antijoins, recursive_antijoins, together, without,
    without_texts, Steps, StepsModel, TransformationTree,
};
use crate::planning::transformations::{jn_step, Transformation};

verus! {

/// The atoms at the given places among the positive atoms.
pub open spec fn atoms_at(ids: Seq<usize>) -> Seq<AtomSignature> {
    Seq::new(ids.len(), |i: int| AtomSignature { is_positive: true, rhs_id: ids[i] })
}

/// What is handed around while a rule is planned: steps, and which negated atoms
/// and which atoms that are no core atoms are still open.
#[verifier::ext_equal]
pub struct PlannedModel {
    pub steps: StepsModel,
    pub open_negated: Seq<bool>,
    pub open_subs: Seq<bool>,
}

/// What a join of two sides has to carry from one of them: variables that the
/// other side lacks and something asks for.
pub open spec fn side_values(
    vars: Seq<Seq<char>>,
    other: Seq<Seq<char>>,
    wanted: Seq<Seq<char>>,
) -> Seq<Seq<char>> {
    common(without(vars, other), wanted)
}

/// The step that joins two sides, and the steps that take negated atoms away from
/// what it puts out.
pub open spec fn join_steps(
    rule: FLRuleModel,
    left: StepsModel,
    right: StepsModel,
    atoms: Seq<AtomSignature>,
    negated: Seq<AtomSignature>,
    sides: Seq<Seq<char>>,
    keys: Seq<Seq<char>>,
    values: Seq<Seq<char>>,
    compares: Option<
        Seq<crate::catalog::compare::PlacedComparisonModel<AtomArgumentSignature>>,
    >,
    comps: Seq<usize>,
) -> Option<StepsModel> {
    let join_keys = if negated.len() == 0 {
        keys
    } else {
        key_vars(rule, negated[0])
    };
    let join_values = if negated.len() == 0 {
        values
    } else {
        distinct(without(sides, join_keys))
    };
    match (compares, trace(rule, join_keys, atoms), trace(rule, join_values, atoms)) {
        (Some(compares), Some(key_columns), Some(value_columns)) => match jn_step(
            left.last.output,
            right.last.output,
            key_columns,
            value_columns,
            compares,
        ) {
            Some(join) => match antijoins(rule, atoms, join, negated, keys, values, comps) {
                Some(top) => Some(
                    StepsModel {
                        last: top.last,
                        tree: top.tree.insert(join, (left.last, right.last)).union_prefer_right(
                            left.tree,
                        ).union_prefer_right(right.tree),
                    },
                ),
                None => None,
            },
            None => None,
        },
        _ => None,
    }
}

/// The steps for a tree of atoms. At the root of the tree `full` lists the atoms
/// of the whole subtree there, those that were split off included.
pub open spec fn tree_steps(
    rule: FLRuleModel,
    tree: JoinTree,
    full: Seq<usize>,
    keys: Seq<Seq<char>>,
    values: Seq<Seq<char>>,
    open_negated: Seq<bool>,
    open_subs: Seq<bool>,
    comps: Seq<usize>,
) -> Option<PlannedModel>
    decreases tree,
{
    match tree {
        JoinTree::Atom(id) => {
            let atom = AtomSignature { is_positive: true, rhs_id: id };
            let filters = filters_of(rule, atom, open_negated, open_subs);
            match atom_steps(rule, atom, filters.0.0, filters.1.0, keys, values, comps) {
                Some(steps) => Some(
                    PlannedModel { steps, open_negated: filters.1.1, open_subs: filters.0.1 },
                ),
                None => None,
            }
        },
        JoinTree::Join(rest, last) => {
            let rest_vars = distinct(vars_of(rule, true, rest.preorder()));
            let last_vars = distinct(vars_of(rule, true, last.preorder()));
            let across = comps_across(rule, rest_vars, last_vars, comps);
            let negated = across_ids(
                rule,
                rest_vars,
                last_vars,
                open_negated,
                atoms_of(rule, false).len(),
            );
            let wanted = keys + values + comps_vars(rule, across) + vars_of(
                rule,
                false,
                ids_of(negated),
            );
            let join_keys = common(last_vars, rest_vars);
            let last_values = side_values(last_vars, rest_vars, wanted);
            let rest_values = side_values(rest_vars, last_vars, wanted);
            if !comps_covered(rule, rest_vars, last_vars, comps) {
                None
            } else {
                match tree_steps(
                    rule,
                    *last,
                    last.preorder(),
                    join_keys,
                    last_values,
                    still_open(rule, rest_vars, last_vars, open_negated),
                    open_subs,
                    comps_within(rule, last_vars, comps),
                ) {
                    Some(right) => match tree_steps(
                        rule,
                        *rest,
                        full,
                        join_keys,
                        rest_values,
                        right.open_negated,
                        right.open_subs,
                        comps_within(rule, rest_vars, comps),
                    ) {
                        Some(left) => match join_steps(
                            rule,
                            left.steps,
                            right.steps,
                            atoms_at(full),
                            negated,
                            join_keys + rest_values + last_values,
                            keys,
                            values,
                            assembled(rule, across, atoms_at(full), rest_vars + last_vars),
                            comps,
                        ) {
                            Some(steps) => Some(
                                PlannedModel {
                                    steps,
                                    open_negated: left.open_negated,
                                    open_subs: left.open_subs,
                                },
                            ),
                            None => None,
                        },
                        None => None,
                    },
                    None => None,
                }
            }
        },
    }
}

/// The steps of a rule whose atoms are joined as a tree says; none where the tree
/// leaves an atom out or a step cannot be built.
pub open spec fn rule_steps(rule: FLRuleModel, shape: JoinTree) -> Option<StepsModel> {
    match tree_steps(
        rule,
        shape,
        shape.preorder(),
        Seq::empty(),
        head_vars(rule.head.head_arguments),
        Seq::new(atoms_of(rule, false).len(), |i: int| true),
        Seq::new(atoms_of(rule, true).len(), |i: int| !is_core(rule, i)),
        Seq::new(comparisons(rule.rhs).len(), |i: int| i as usize),
    ) {
        Some(planned) => if none_open(planned.open_negated) && none_open(planned.open_subs) {
            Some(planned.steps)
        } else {
            None
        },
        None => None,
    }
}

fn positive_signatures(ids: &Vec<usize>) -> (atoms: Vec<AtomSignature>)
    ensures
        atoms@ == atoms_at(ids@),
{
    let mut atoms: Vec<AtomSignature> = Vec::new();
    let mut i: usize = 0;
    while i < ids.len()
        invariant
            i <= ids.len(),
            atoms.len() == i,
            forall|k: int|
                0 <= k < i ==> #[trigger] atoms@[k] == (AtomSignature {
                    is_positive: true,
                    rhs_id: ids@[k],
                }),
        decreases ids.len() - i,
    {
        atoms.push(AtomSignature::new(true, ids[i]));
        i += 1;
    }
    assert(atoms@ =~= atoms_at(ids@));
    atoms
}

proof fn lemma_across(
    rule: FLRuleModel,
    left: Seq<Seq<char>>,
    right: Seq<Seq<char>>,
    open: Seq<bool>,
    upto: nat,
)
    requires
        upto <= atoms_of(rule, false).len(),
        atoms_of(rule, false).len() <= usize::MAX,
    ensures
        are_atoms(rule, across_ids(rule, left, right, open, upto), false),
    decreases upto,
{
    if upto > 0 {
        lemma_across(rule, left, right, open, (upto - 1) as nat);
    }
}

proof fn lemma_comps_across(
    rule: FLRuleModel,
    left: Seq<Seq<char>>,
    right: Seq<Seq<char>>,
    ids: Seq<usize>,
)
    ensures
        forall|k: int|
            0 <= k < comps_across(rule, left, right, ids).len() ==> ids.contains(
                #[trigger] comps_across(rule, left, right, ids)[k],
            ),
    decreases ids.len(),
{
    if ids.len() > 0 {
        let front = comps_across(rule, left, right, ids.drop_last());
        let all = comps_across(rule, left, right, ids);
        lemma_comps_across(rule, left, right, ids.drop_last());
        assert forall|k: int| 0 <= k < all.len() implies ids.contains(#[trigger] all[k]) by {
            if k < front.len() {
                assert(all[k] == front[k]);
                assert(ids.drop_last().contains(front[k]));
                let j = choose|j: int|
                    0 <= j < ids.drop_last().len() && ids.drop_last()[j] == front[k];
                assert(ids[j] == all[k]);
            } else {
                assert(ids[ids.len() - 1] == all[k]);
            }
        }
    }
}

fn make_join_steps(
    catalog: &Catalog,
    left: Steps,
    right: Steps,
    atoms: &Vec<AtomSignature>,
    negated: &Vec<AtomSignature>,
    sides: &Vec<String>,
    keys: &Vec<String>,
    values: &Vec<String>,
    compares: Option<
        Vec<crate::catalog::compare::PlacedComparison<AtomArgumentSignature>>,
    >,
    comps: &Vec<usize>,
) -> (steps: Option<Steps>)
    requires
        catalog.wf(),
        are_atoms(catalog.rule.deep_view(), negated@, false),
    ensures
        steps.deep_view() == join_steps(
            catalog.rule.deep_view(),
            left.deep_view(),
            right.deep_view(),
            atoms@,
            negated@,
            sides.deep_view(),
            keys.deep_view(),
            values.deep_view(),
            compares.deep_view(),
            comps@,
        ),
{
    broadcast use group_take;

    let join_keys = if negated.len() == 0 {
        clone_list(keys)
    } else {
        assert(!negated@[0].is_positive);
        key_arguments(catalog, &negated[0])
    };
    let join_values = if negated.len() == 0 {
        clone_list(values)
    } else {
        distinct_texts(&without_texts(sides, &join_keys))
    };
    match (
        compares,
        catalog.try_top_down_trace(&join_keys, atoms),
        catalog.try_top_down_trace(&join_values, atoms),
    ) {
        (Some(compares), Some(key_columns), Some(value_columns)) => match Transformation::try_join(
            (left.last.output().clone(), right.last.output().clone()),
            &key_columns,
            &value_columns,
            &compares,
        ) {
            Some(join) => match recursive_antijoins(
                catalog,
                atoms,
                join.clone(),
                negated,
                negated.len(),
                keys,
                values,
                comps,
            ) {
                Some(top) => {
                    let mut tree = top.tree;
                    tree.insert(join, (left.last, right.last));
                    tree.extend(left.tree);
                    tree.extend(right.tree);
                    Some(Steps { last: top.last, tree })
                },
                None => None,
            },
            None => None,
        },
        _ => None,
    }
}

/// The steps for a tree of atoms.
fn recursive_transformations(
    catalog: &Catalog,
    tree: &JoinTree,
    full: &Vec<usize>,
    head_key_arguments: &Vec<String>,
    head_value_arguments: &Vec<String>,
    is_active_negation_bitmap: &mut Vec<bool>,
    is_active_non_core_atom_bitmap: &mut Vec<bool>,
    active_comparison_predicates: &Vec<usize>,
) -> (steps: Option<Steps>)
    requires
        catalog.wf(),
        is_over(catalog.rule.deep_view(), *tree),
        old(is_active_negation_bitmap)@.len() == atoms_of(catalog.rule.deep_view(), false).len(),
        old(is_active_non_core_atom_bitmap)@.len() == atoms_of(catalog.rule.deep_view(), true).len(),
    ensures
        final(is_active_negation_bitmap)@.len() == old(is_active_negation_bitmap)@.len(),
        final(is_active_non_core_atom_bitmap)@.len() == old(is_active_non_core_atom_bitmap)@.len(),
        tree_steps(
            catalog.rule.deep_view(),
            *tree,
            full@,
            head_key_arguments.deep_view(),
            head_value_arguments.deep_view(),
            old(is_active_negation_bitmap)@,
            old(is_active_non_core_atom_bitmap)@,
            active_comparison_predicates@,
        ) == match steps {
            Some(steps) => Some(
                PlannedModel {
                    steps: steps.deep_view(),
                    open_negated: final(is_active_negation_bitmap)@,
                    open_subs: final(is_active_non_core_atom_bitmap)@,
                },
            ),
            None => None,
        },
    decreases tree,
{
    let ghost rule = catalog.rule.deep_view();
    let ghost comps = active_comparison_predicates@;
    match tree {
        JoinTree::Atom(id) => {
            assert(tree.preorder()[0] == *id);
            per_atom_recursive_semijoins_and_antijoins(
                catalog,
                &AtomSignature::new(true, *id),
                head_key_arguments,
                head_value_arguments,
                is_active_negation_bitmap,
                is_active_non_core_atom_bitmap,
                active_comparison_predicates,
            )
        },
        JoinTree::Join(rest, last) => {
            proof {
                lemma_is_over_parts(rule, **rest, **last);
                catalog.lemma_parts();
                assert(catalog.negated_atom_names.len() == catalog.negated_atom_names@.len());
            }
            let last_atoms = last.atoms();
            let rest_vars = catalog.vars_set(&rest.atoms());
            let last_vars = catalog.vars_set(&last_atoms);
            let ghost rv = rest_vars.deep_view();
            let ghost lv = last_vars.deep_view();
            if !catalog.comparisons_are_covered(
                &rest_vars,
                &last_vars,
                active_comparison_predicates,
            ) {
                return None;
            }
            let (across, rest_comps, last_comps) = catalog.partition_comparison_predicates(
                &rest_vars,
                &last_vars,
                active_comparison_predicates,
            );
            proof {
                lemma_comps_across(rule, rv, lv, comps);
                assert forall|k: int| 0 <= k < across@.len() implies (#[trigger] across@[k])
                    < comparisons(rule.rhs).len() by {
                    assert(comps.contains(across@[k]));
                    let j = choose|j: int| 0 <= j < comps.len() && comps[j] == across@[k];
                    assert(comps[j] < comparisons(rule.rhs).len());
                }
                lemma_across(
                    rule,
                    rv,
                    lv,
                    is_active_negation_bitmap@,
                    atoms_of(rule, false).len(),
                );
            }
            let negated = catalog.attach_negated_atoms_on_joins(
                &rest_vars,
                &last_vars,
                is_active_negation_bitmap,
            );
            assert(negated.deep_view() =~= negated@);
            let mut wanted = together(head_key_arguments, head_value_arguments);
            extend(&mut wanted, catalog.comparison_predicates_vars_set(&across));
            let ids = rhs_ids(&negated);
            assert forall|k: int| 0 <= k < ids@.len() implies (#[trigger] ids@[k]) < atoms_of(
                rule,
                false,
            ).len() by {
                assert(negated@[k].rhs_id == ids@[k]);
            }
            extend(&mut wanted, catalog.negated_vars(&ids));
            let join_keys = common_texts(&last_vars, &rest_vars);
            let last_values = common_texts(&without_texts(&last_vars, &rest_vars), &wanted);
            let rest_values = common_texts(&without_texts(&rest_vars, &last_vars), &wanted);
            let right = recursive_transformations(
                catalog,
                last,
                &last_atoms,
                &join_keys,
                &last_values,
                is_active_negation_bitmap,
                is_active_non_core_atom_bitmap,
                &last_comps,
            );
            let right = match right {
                Some(right) => right,
                None => {
                    return None;
                },
            };
            let left = recursive_transformations(
                catalog,
                rest,
                full,
                &join_keys,
                &rest_values,
                is_active_negation_bitmap,
                is_active_non_core_atom_bitmap,
                &rest_comps,
            );
            let left = match left {
                Some(left) => left,
                None => {
                    return None;
                },
            };
            let atoms = positive_signatures(full);
            let both = together(&rest_vars, &last_vars);
            let compares = assemble_comparisons(catalog, &across, &atoms, &both);
            let mut sides = join_keys;
            extend(&mut sides, rest_values);
            extend(&mut sides, last_values);
            make_join_steps(
                catalog,
                left,
                right,
                &atoms,
                &negated,
                &sides,
                head_key_arguments,
                head_value_arguments,
                compares,
                active_comparison_predicates,
            )
        },
    }
}

/// The plan of a rule.
#[derive(Debug)]
pub struct RuleQueryPlan {
    pub rule: FLRule,
    pub dependent_atom_names: Vec<String>,
    pub plan: PlanTree,
    pub steps: Steps,
}

/// A rule and the steps that compute it.
#[verifier::ext_equal]
pub struct RulePlanModel {
    pub rule: FLRuleModel,
    pub steps: StepsModel,
}

impl DeepView for RuleQueryPlan {
    type V = RulePlanModel;

    open spec fn deep_view(&self) -> RulePlanModel {
        RulePlanModel { rule: self.rule.deep_view(), steps: self.steps.deep_view() }
    }
}

/// Whether a tree is one that the atoms of a rule may be joined by.
pub open spec fn is_join_tree(rule: FLRuleModel, is_optimized: bool, shape: JoinTree) -> bool {
    exists|plan: PlanTree| #[trigger]
        plan.describes(rule, is_optimized) && plan.shape == shape
}

/// Whether every tree that the atoms of a rule may be joined by leads to a plan.
pub open spec fn is_plannable(rule: FLRuleModel, is_optimized: bool) -> bool {
    &&& core_ids(rule).len() > 0
    &&& forall|shape: JoinTree| #[trigger]
        is_join_tree(rule, is_optimized, shape) ==> rule_steps(rule, shape) is Some
}

impl RuleQueryPlan {
    /// Whether this is the plan of a rule.
    pub open spec fn describes(&self, rule: FLRuleModel, is_optimized: bool) -> bool {
        &&& self.rule.deep_view() == rule
        &&& self.dependent_atom_names.deep_view() == distinct(
            atom_names_of(rule, true) + atom_names_of(rule, false),
        )
        &&& self.plan.describes(rule, is_optimized)
        &&& Some(self.steps.deep_view()) == rule_steps(rule, self.plan.shape)
    }

    pub fn rule(&self) -> (rule: &FLRule)
        ensures
            *rule == self.rule,
    {
        &self.rule
    }

    /// The last step and the steps below it.
    pub fn rule_plan(&self) -> (plan: (&Transformation, &TransformationTree))
        ensures
            *plan.0 == self.steps.last,
            *plan.1 == self.steps.tree,
    {
        (&self.steps.last, &self.steps.tree)
    }

    /// The names of the relations that the rule reads, each once.
    pub fn dependent_atom_names(&self) -> (names: &Vec<String>)
        ensures
            *names == self.dependent_atom_names,
    {
        &self.dependent_atom_names
    }

    /// Plans a rule, if its atoms can be joined and every step can be built.
    pub fn try_from_catalog(catalog: &Catalog, is_optimized: bool) -> (plan: Option<Self>)
        requires
            catalog.wf(),
        ensures
            match plan {
                Some(plan) => plan.describes(catalog.rule.deep_view(), is_optimized) && is_linked(
                    catalog.rule.deep_view(),
                    plan.steps.deep_view(),
                ),
                None => !is_plannable(catalog.rule.deep_view(), is_optimized),
            },
    {
        let ghost rule = catalog.rule.deep_view();
        let core = core_atoms(catalog);
        if core.len() == 0 {
            return None;
        }
        let plan = PlanTree::from_catalog(catalog, is_optimized);
        assert(is_join_tree(rule, is_optimized, plan.shape));
        proof {
            catalog.lemma_parts();
            catalog.lemma_positions_small();
            law_plan_is_linked(rule, plan.shape);
        }
        let mut open_negated: Vec<bool> = Vec::new();
        while open_negated.len() < catalog.negated_atom_names.len()
            invariant
                open_negated@.len() <= catalog.negated_atom_names@.len(),
                forall|k: int| 0 <= k < open_negated@.len() ==> #[trigger] open_negated@[k],
            decreases catalog.negated_atom_names@.len() - open_negated@.len(),
        {
            open_negated.push(true);
        }
        assert(open_negated@ =~= Seq::new(atoms_of(rule, false).len(), |i: int| true));
        let mut open_subs: Vec<bool> = Vec::new();
        let mut i: usize = 0;
        while i < catalog.is_core_atom_bitmap.len()
            invariant
                i <= catalog.is_core_atom_bitmap.len(),
                catalog.wf(),
                rule == catalog.rule.deep_view(),
                open_subs.len() == i,
                forall|k: int| 0 <= k < i ==> #[trigger] open_subs@[k] == !is_core(rule, k),
            decreases catalog.is_core_atom_bitmap.len() - i,
        {
            open_subs.push(!catalog.is_core_atom_bitmap[i]);
            i += 1;
        }
        assert(open_subs@ =~= Seq::new(atoms_of(rule, true).len(), |i: int| !is_core(rule, i)));
        let mut comps: Vec<usize> = Vec::new();
        let mut i: usize = 0;
        while i < catalog.comparison_predicates.len()
            invariant
                i <= catalog.comparison_predicates.len(),
                comps.len() == i,
                forall|k: int| 0 <= k < i ==> #[trigger] comps@[k] == k,
            decreases catalog.comparison_predicates.len() - i,
        {
            comps.push(i);
            i += 1;
        }
        assert(comps@ =~= Seq::new(comparisons(rule.rhs).len(), |i: int| i as usize));
        let steps = recursive_transformations(
            catalog,
            &plan.shape,
            &plan.shape.atoms(),
            &empty(),
            &catalog.head_arguments_strs(),
            &mut open_negated,
            &mut open_subs,
            &comps,
        );
        match steps {
            Some(steps) => {
                if is_any_open(&open_negated) || is_any_open(&open_subs) {
                    return None;
                }
                Some(
                    RuleQueryPlan {
                        rule: catalog.rule.clone(),
                        dependent_atom_names: catalog.dependent_atom_names(),
                        plan,
                        steps,
                    },
                )
            },
            None => None,
        }
    }

    /// Plans a rule.
    pub fn from_catalog(catalog: &Catalog, is_optimized: bool) -> (plan: Self)
        requires
            catalog.wf(),
            is_plannable(catalog.rule.deep_view(), is_optimized),
        ensures
            plan.describes(catalog.rule.deep_view(), is_optimized),
            is_linked(catalog.rule.deep_view(), plan.steps.deep_view()),
    {
        Self::try_from_catalog(catalog, is_optimized).unwrap()
    }
}

} // verus!
