//! Catalogs, join trees, flows and plans.
use flowlog::catalog::arithmetic::{PlacedArithmetic, PlacedFactor};
use flowlog::catalog::atoms::{AtomArgumentSignature, AtomSignature};
use flowlog::catalog::compare::PlacedComparison;
use flowlog::catalog::cores::core_atoms;
use flowlog::catalog::head::{idb_catalog_from_program, HeadIDB};
use flowlog::catalog::rule::Catalog;
use flowlog::executing::order::{is_before, sort_by_title};
use flowlog::lists::Same;
use flowlog::optimizing::growing::{arrangements, Link};
use flowlog::optimizing::optimizer::PlanTree;
use flowlog::parsing::aggregation::{Aggregation, AggregationOperator};
use flowlog::parsing::arithmetic::{Arithmetic, Factor};
use flowlog::parsing::compare::{ComparisonExpr, ComparisonOperator};
use flowlog::parsing::head::{Head, HeadArg};
use flowlog::parsing::parser::Program;
use flowlog::parsing::rule::{Atom, AtomArg, Const, FLRule, Predicate};
use flowlog::planning::arguments::TransformationArgument;
use flowlog::planning::collections::{Collection, CollectionSignature};
use flowlog::planning::flow::TransformationFlow;
use flowlog::planning::program::ProgramQueryPlan;
use flowlog::planning::rule::RuleQueryPlan;
use flowlog::planning::transformations::{Transformation, TransformationKind};
use flowlog::strata::stratification::Strata;
use flowlog::text::Render;

fn arg(s: &str) -> AtomArg {
    if s == "_" {
        AtomArg::Placeholder
    } else if let Ok(number) = s.parse::<i32>() {
        AtomArg::Const(Const::Integer(number))
    } else {
        AtomArg::Var(s.to_string())
    }
}

fn atom(name: &str, args: &[&str]) -> Atom {
    Atom::from_str(name, args.iter().map(|s| arg(s)).collect())
}

fn has(name: &str, args: &[&str]) -> Predicate {
    Predicate::AtomPredicate(atom(name, args))
}

fn not(name: &str, args: &[&str]) -> Predicate {
    Predicate::NegatedAtomPredicate(atom(name, args))
}

fn less(left: &str, right: &str) -> Predicate {
    let side = |s: &str| Arithmetic { init: Factor::Var(s.to_string()), rest: vec![] };
    Predicate::ComparePredicate(ComparisonExpr {
        left: side(left),
        operator: ComparisonOperator::LessThan,
        right: side(right),
    })
}

fn rule(name: &str, head: &[&str], rhs: Vec<Predicate>) -> FLRule {
    let arguments = head.iter().map(|s| HeadArg::Var(s.to_string())).collect();
    FLRule::new(Head::new(name.to_string(), arguments), rhs, false, false)
}

fn at(is_positive: bool, rhs_id: usize, argument_id: usize) -> AtomArgumentSignature {
    AtomArgumentSignature::new(AtomSignature::new(is_positive, rhs_id), argument_id)
}

fn sample() -> Catalog {
    Catalog::from_strata(&rule(
        "q",
        &["X", "Z"],
        vec![
            has("r", &["X", "Y", "X", "3", "_"]),
            has("s", &["Y", "Z"]),
            has("t", &["Y"]),
            not("u", &["Z"]),
            less("X", "Z"),
        ],
    ))
}

#[test]
fn a_catalog_of_a_rule() {
    let catalog = sample();
    assert_eq!(catalog.head_name(), "q");
    assert_eq!(catalog.head_arguments_strs(), vec!["X", "Z"]);
    assert_eq!(catalog.atom_names(), &vec!["r".to_string(), "s".to_string(), "t".to_string()]);
    assert_eq!(catalog.negated_atom_names(), &vec!["u".to_string()]);
    assert_eq!(catalog.is_core_atom_bitmap(), &vec![true, true, false]);
    assert_eq!(core_atoms(&catalog), vec![0, 1]);
    assert_eq!(catalog.vars_set(&vec![0, 1]), vec!["X", "Y", "Z"]);
    assert_eq!(catalog.negated_vars(&vec![0]), vec!["Z"]);
    assert_eq!(catalog.comparison_predicates().len(), 1);
    assert_eq!(catalog.dependent_atom_names(), vec!["r", "s", "t", "u"]);
    let columns = &catalog.atom_argument_signatures()[0];
    assert!(catalog.is_const_or_var_eq_or_placeholder(&columns[2]));
    assert!(catalog.is_const_or_var_eq_or_placeholder(&columns[3]));
    assert!(catalog.is_const_or_var_eq_or_placeholder(&columns[4]));
    assert_eq!(catalog.var_signatures(columns).len(), 2);
    assert_eq!(catalog.const_signatures(columns).len(), 1);
    assert_eq!(catalog.var_eq_signatures(columns), vec![(at(true, 0, 0), at(true, 0, 2))]);
    assert_eq!(catalog.sub_atoms(columns), vec![AtomSignature::new(true, 2)]);
    assert!(catalog.sub_negated_atoms(columns).is_empty());
    assert_eq!(
        catalog.sub_negated_atoms(&catalog.atom_argument_signatures()[1]),
        vec![AtomSignature::new(false, 0)]
    );
    assert!(!catalog.to_string().is_empty());
}

#[test]
fn variables_are_traced_to_atoms() {
    let catalog = sample();
    let atoms = vec![AtomSignature::new(true, 0), AtomSignature::new(true, 1)];
    let vars: Vec<String> = ["Z", "Y"].iter().map(|s| s.to_string()).collect();
    assert_eq!(catalog.top_down_trace(&vars, &atoms), vec![at(true, 1, 1), at(true, 0, 1)]);
    let unknown = vec!["W".to_string()];
    assert!(catalog.try_top_down_trace(&unknown, &atoms).is_none());
    let negated = vec![AtomSignature::new(false, 0)];
    let z = vec!["Z".to_string()];
    assert_eq!(catalog.top_down_trace_negated(&z, &negated), vec![at(false, 0, 0)]);
    assert!(catalog.try_top_down_trace(&z, &negated).is_none());
}

#[test]
fn a_negated_variable_needs_an_atom() {
    let unsafe_rule = rule("q", &["X"], vec![has("r", &["X"]), not("s", &["Y"])]);
    assert!(!Catalog::is_safe(&unsafe_rule));
    assert!(Catalog::try_from_strata(&unsafe_rule).is_none());
    let safe_rule = rule("q", &["X"], vec![has("r", &["X"]), not("s", &["_"])]);
    assert!(Catalog::try_from_strata(&safe_rule).is_some());
}

#[test]
fn comparisons_go_to_a_side_or_wait() {
    let catalog = Catalog::from_strata(&rule(
        "q",
        &["A"],
        vec![
            has("r", &["A", "B"]),
            has("s", &["B", "C"]),
            less("A", "B"),
            less("B", "C"),
            less("A", "C"),
        ],
    ));
    let left = catalog.vars_set(&vec![0]);
    let right = catalog.vars_set(&vec![1]);
    let (across, on_left, on_right) =
        catalog.partition_comparison_predicates(&left, &right, &vec![0, 1, 2]);
    assert_eq!(on_left, vec![0]);
    assert_eq!(on_right, vec![1]);
    assert_eq!(across, vec![2]);
}

#[test]
fn heads_of_a_program() {
    let count = HeadArg::Aggregation(Aggregation {
        operator: AggregationOperator::Count,
        arithmetic: Arithmetic { init: Factor::Var("Y".to_string()), rest: vec![] },
    });
    let folded = FLRule::new(
        Head::new("n".to_string(), vec![HeadArg::Var("X".to_string()), count]),
        vec![has("r", &["X", "Y"])],
        false,
        false,
    );
    let plain = rule("n", &["X", "Y"], vec![has("r", &["X", "Y"])]);
    let idb = HeadIDB::from_rule(folded.head());
    assert!(idb.is_aggregation() && idb.is_group_by());
    assert_eq!(*idb.aggregation().operator(), AggregationOperator::Count);
    assert_eq!((idb.name(), idb.arity()), ("n", 2));
    // the first rule of a relation decides
    let idbs = idb_catalog_from_program(&Program::new(vec![], vec![], vec![folded, plain]));
    assert_eq!(idbs.len(), 1);
    assert!(idbs[0].1.is_aggregation());
}

#[test]
fn rules_are_rewritten() {
    let catalog = Catalog::from_strata(&rule(
        "q",
        &["A", "C"],
        vec![has("r", &["A", "B"]), has("s", &["B", "C"]), has("t", &["B"]), not("u", &["C"])],
    ));
    let texts: Vec<String> =
        catalog.sideways(7).iter().map(|made| made.rule().to_string()).collect();
    assert_eq!(
        texts,
        vec![
            "r_sip7f0(A, B) :- r(A, B), t(B).",
            "s_sip7f1(B, C) :- s(B, C), !u(C), r_sip7f0(_, B).",
            "r_sip7f0_sip7b1(A, B) :- r_sip7f0(A, B), s_sip7f1(B, _).",
            "q(A, C) :- r_sip7f0_sip7b1(A, B), s_sip7f1(B, C).",
        ]
    );
}

#[test]
fn all_orders_of_subtrees() {
    let link = |id: usize, parent: usize, depth: usize| Link { id, parent, depth, overlap: 1 };
    let star = vec![link(5, 0, 0), link(1, 0, 1), link(2, 0, 1), link(3, 0, 1)];
    let trees = arrangements(&star, 0);
    assert_eq!(trees.len(), 6);
    let mut orders: Vec<Vec<usize>> = trees.iter().map(|tree| tree.atoms()).collect();
    orders.sort();
    orders.dedup();
    assert_eq!(orders.len(), 6);
    for order in orders {
        assert_eq!(order[0], 5);
        assert_eq!(order.len(), 4);
    }
    let path = vec![link(5, 0, 0), link(1, 0, 1), link(2, 1, 2)];
    let trees = arrangements(&path, 0);
    assert_eq!(trees.len(), 1);
    assert_eq!(trees[0].atoms(), vec![5, 1, 2]);
    assert_eq!(trees[0].height(), 2);
    assert_eq!(trees[0].root(), 5);
    assert_eq!(trees[0].children(), vec![1]);
}

#[test]
fn join_trees_hold_the_core_atoms() {
    let catalog = Catalog::from_strata(&rule(
        "q",
        &["A", "D"],
        vec![
            has("r", &["A", "B"]),
            has("s", &["B", "C"]),
            has("t", &["C", "D"]),
            has("u", &["B"]),
        ],
    ));
    for is_optimized in [false, true] {
        let plan = PlanTree::from_catalog(&catalog, is_optimized);
        let mut atoms = plan.shape.atoms();
        assert_eq!(atoms[0], plan.root());
        atoms.sort();
        assert_eq!(atoms, vec![0, 1, 2]);
        assert_eq!(plan.tree().len(), 3);
        assert!(plan.is_acyclic());
        let leaf = plan.shape.atoms()[2];
        assert!(plan.is_leaf(leaf) || plan.children(leaf).len() > 0);
        assert!(plan.tree_width() > 0);
        assert_eq!(plan.sub_trees().len(), 3);
        assert!(!plan.to_string().is_empty());
    }
    let chain = PlanTree::from_catalog(&catalog, false);
    assert_eq!(chain.shape.atoms(), vec![2, 1, 0]);
}

#[test]
fn join_trees_of_rules_in_circles() {
    let circle = Catalog::from_strata(&rule(
        "r",
        &["X", "Y", "Z"],
        vec![has("a", &["X", "Y"]), has("b", &["Y", "Z"]), has("c", &["Z", "X"])],
    ));
    let line = Catalog::from_strata(&rule(
        "r",
        &["X", "Z"],
        vec![has("a", &["X", "Y"]), has("b", &["Y", "Z"])],
    ));
    for is_optimized in [false, true] {
        let plan = PlanTree::from_catalog(&circle, is_optimized);
        assert!(!plan.is_acyclic());
        assert_eq!((plan.overlap, plan.max_overlap), (2, 3));
        let plan = PlanTree::from_catalog(&line, is_optimized);
        assert!(plan.is_acyclic());
        assert_eq!((plan.overlap, plan.max_overlap), (1, 1));
    }
}

#[test]
fn join_trees_that_do_not_follow_the_links() {
    let star = Catalog::from_strata(&rule(
        "r",
        &["X", "Y", "Z"],
        vec![has("a", &["C", "D", "X"]), has("b", &["D", "Y"]), has("c", &["C", "Z"])],
    ));
    let chain = PlanTree::from_catalog(&star, false);
    assert!(!chain.is_acyclic());
    assert_eq!((chain.overlap, chain.max_overlap), (1, 2));
    assert!(PlanTree::from_catalog(&star, true).is_acyclic());
}

#[test]
fn columns_change_sides_twice() {
    let left = TransformationArgument::Jn((false, true, 3));
    assert_eq!(left.jn_flip(), TransformationArgument::Jn((true, true, 3)));
    assert_eq!(left.jn_flip().jn_flip(), left);
    assert_eq!(left.jn_indices(), (false, true, 3));
    assert_eq!(TransformationArgument::KV((true, 2)).kv_indices(), (true, 2));
}

fn place(argument: AtomArgumentSignature) -> PlacedArithmetic<AtomArgumentSignature> {
    PlacedArithmetic { init: PlacedFactor::Var(argument), rest: vec![] }
}

#[test]
fn flows_follow_columns() {
    let (a, b, c, d) = (at(true, 0, 0), at(true, 0, 1), at(true, 1, 1), at(true, 1, 2));
    let flow = TransformationFlow::kv_to_kv(
        &vec![],
        &vec![a, b],
        &vec![b],
        &vec![a],
        &vec![],
        &vec![],
        &vec![],
    );
    assert_eq!(flow.key(), &vec![TransformationArgument::KV((true, 1))]);
    assert_eq!(flow.value(), &vec![TransformationArgument::KV((true, 0))]);
    assert!(!flow.is_constrainted() && !flow.is_key_empty());
    assert!(flow.constraints().is_empty());
    let less = PlacedComparison {
        left: place(a),
        operator: ComparisonOperator::LessThan,
        right: place(c),
    };
    let join = TransformationFlow::join_to_kv(
        &vec![b],
        &vec![a],
        &vec![b],
        &vec![c],
        &vec![],
        &vec![c, b, a],
        &vec![less],
    );
    assert_eq!(
        join.value(),
        &vec![
            TransformationArgument::Jn((true, true, 0)),
            TransformationArgument::Jn((false, false, 0)),
            TransformationArgument::Jn((false, true, 0)),
        ]
    );
    assert!(join.is_constrainted() && join.is_key_empty());
    assert_eq!(join.compares().len(), 1);
    assert!(join.jn_flip().jn_flip().same(&join));
    assert!(!join.jn_flip().same(&join));
    assert!(TransformationFlow::try_kv_to_kv(
        &vec![],
        &vec![a],
        &vec![d],
        &vec![],
        &vec![],
        &vec![],
        &vec![]
    )
    .is_none());
}

fn base(name: &str, columns: &[AtomArgumentSignature]) -> Collection {
    Collection::new(CollectionSignature::new_atom(name), &vec![], &columns.to_vec())
}

#[test]
fn kinds_of_steps() {
    let (a, b, c) = (at(true, 0, 0), at(true, 0, 1), at(true, 1, 1));
    let step = |keys: Vec<AtomArgumentSignature>, values: Vec<AtomArgumentSignature>| {
        Transformation::try_kv_to_kv(base("r", &[a, b]), &keys, &values, &vec![], &vec![], &vec![])
    };
    let rows = step(vec![], vec![a, b]).unwrap();
    assert_eq!(rows.kind(), TransformationKind::RowToRow);
    assert!(rows.is_no_op() && rows.is_unary());
    assert_eq!(rows.unary().arity(), (0, 2));
    let turned = step(vec![], vec![b, a]).unwrap();
    assert!(!turned.is_no_op());
    let keys = step(vec![a], vec![]).unwrap();
    assert_eq!(keys.kind(), TransformationKind::RowToK);
    assert!(keys.output().is_k_only());
    let pairs = step(vec![b], vec![a]).unwrap();
    assert_eq!(pairs.kind(), TransformationKind::RowToKv);
    assert!(pairs.output().is_kv());
    assert!(step(vec![], vec![]).is_none());
    let right = Transformation::kv_to_kv(
        base("s", &[at(true, 1, 0), c]),
        &vec![at(true, 1, 0)],
        &vec![c],
        &vec![],
        &vec![],
        &vec![],
    );
    let join = Transformation::join(
        (pairs.output().clone(), right.output().clone()),
        &vec![],
        &vec![a, c],
        &vec![],
    );
    assert_eq!(join.kind(), TransformationKind::JnKvKv);
    assert!(!join.is_unary());
    assert!(join.binary().0.same(pairs.output()));
    assert_eq!(join.output().arity(), (0, 2));
    let lone = Transformation::antijoin(
        (pairs.output().clone(), keys.output().clone()),
        &vec![],
        &vec![a],
    );
    assert_eq!(lone.kind(), TransformationKind::NjKvK);
    assert!(Transformation::try_antijoin(
        (pairs.output().clone(), right.output().clone()),
        &vec![],
        &vec![a]
    )
    .is_none());
}

#[test]
fn plans_of_rules() {
    let catalog = sample();
    let plan = RuleQueryPlan::from_catalog(&catalog, false);
    let (last, tree) = plan.rule_plan();
    assert_eq!(last.output().arity(), (0, 2));
    assert!(tree.get(last).is_some());
    assert_eq!(plan.dependent_atom_names().len(), 4);
    assert_eq!(plan.rule().head().name(), "q");
    assert!(!plan.to_string().is_empty());
    // a rule without a positive atom with variables cannot be planned
    let empty = Catalog::from_strata(&rule("q", &[], vec![has("r", &["1"])]));
    assert!(RuleQueryPlan::try_from_catalog(&empty, false).is_none());
}

/// Walks down from a step to relations and counts the steps.
fn walk(plan: &RuleQueryPlan, step: &Transformation) -> usize {
    let (_, tree) = plan.rule_plan();
    match tree.get(step) {
        Some((left, right)) => {
            assert!(step.binary().0.same(left.output()));
            assert!(step.binary().1.same(right.output()));
            assert_eq!(left.output().arity().0, right.output().arity().0);
            1 + walk(plan, left) + walk(plan, right)
        }
        None => {
            assert!(step.is_unary() && step.unary().signature().is_atom());
            1
        }
    }
}

#[test]
fn plans_reach_down_to_relations() {
    let catalog = sample();
    for is_optimized in [false, true] {
        let plan = RuleQueryPlan::from_catalog(&catalog, is_optimized);
        let (last, _) = plan.rule_plan();
        // four relations, and a step that brings each but one in
        assert_eq!(walk(&plan, last), 7);
    }
}

#[test]
fn steps_come_behind_what_they_need() {
    let strata = Strata::from_parser(two_rules());
    for no_sharing in [false, true] {
        let plan = ProgramQueryPlan::from_strata(&strata, no_sharing, None);
        let mut done: Vec<String> = vec![];
        for group in plan.program_plan() {
            for step in group.strata_plan() {
                if !step.is_unary() {
                    assert!(done.contains(&step.binary().0.signature().to_string()));
                    assert!(done.contains(&step.binary().1.signature().to_string()));
                }
                done.push(step.output().signature().to_string());
            }
        }
        let count = done.len();
        done.sort();
        done.dedup();
        assert_eq!(done.len() == count, !no_sharing);
    }
}

#[test]
fn different_flows_are_written_differently() {
    let (a, b) = (at(true, 0, 0), at(true, 0, 1));
    let flow = |keys: &[AtomArgumentSignature],
                values: &[AtomArgumentSignature],
                consts: Vec<(AtomArgumentSignature, Const)>,
                aliases: Vec<(AtomArgumentSignature, AtomArgumentSignature)>| {
        TransformationFlow::kv_to_kv(
            &vec![],
            &vec![a, b],
            &keys.to_vec(),
            &values.to_vec(),
            &consts,
            &aliases,
            &vec![],
        )
        .to_string()
    };
    let texts = vec![
        flow(&[], &[a, b], vec![], vec![]),
        flow(&[a], &[b], vec![], vec![]),
        flow(&[a, b], &[], vec![], vec![]),
        flow(&[], &[b, a], vec![], vec![]),
        flow(&[], &[a, b], vec![(a, Const::Integer(1))], vec![]),
        flow(&[], &[a, b], vec![(a, Const::Integer(11))], vec![]),
        flow(&[], &[a, b], vec![], vec![(a, b)]),
        flow(&[], &[a, b], vec![(a, Const::Integer(1))], vec![(a, b)]),
    ];
    for (i, one) in texts.iter().enumerate() {
        for (k, other) in texts.iter().enumerate() {
            assert_eq!(one == other, i == k);
        }
    }
}

fn two_rules() -> Program {
    Program::new(
        vec![],
        vec![],
        vec![
            rule("p", &["A", "C"], vec![has("r", &["A", "B"]), has("s", &["B", "C"])]),
            rule("q", &["C", "A"], vec![has("r", &["A", "B"]), has("s", &["B", "C"])]),
        ],
    )
}

#[test]
fn shared_steps_are_done_once() {
    let strata = Strata::from_parser(two_rules());
    let count = |no_sharing: bool| {
        let plan = ProgramQueryPlan::from_strata(&strata, no_sharing, None);
        plan.program_plan().iter().map(|group| group.strata_plan().len()).sum::<usize>()
    };
    assert!(count(false) < count(true));
    assert_eq!(count(true), 6);
    assert_eq!(count(false), 4);
}

#[test]
fn arities_of_plans() {
    let strata = Strata::from_parser(two_rules());
    let plan = ProgramQueryPlan::from_strata(&strata, false, None);
    assert_eq!(plan.max_arity(), 2);
    let pairs = plan.maximal_arity_pairs();
    assert!(pairs.contains(&(1, 1)) && pairs.contains(&(0, 2)));
    assert_eq!(pairs.len(), 2);
    assert!(!plan.should_use_fat_mode(false, 8));
    assert!(plan.should_use_fat_mode(true, 8));
    assert!(plan.should_use_fat_mode(false, 1));
    assert_eq!(plan.arity_analysis().len(), 4);
    assert!(!plan.to_string().is_empty());
    let group = &plan.program_plan()[0];
    assert!(!group.is_recursive());
    assert_eq!(group.rules().len(), group.strata_plan().len().min(group.rules().len()));
}

#[test]
fn rules_of_one_atom_can_be_planned() {
    let planned = |rule: FLRule| {
        let catalog = Catalog::from_strata(&rule);
        [false, true].map(|is_optimized| {
            RuleQueryPlan::try_from_catalog(&catalog, is_optimized).is_some()
        })
    };
    let body = || has("a", &["X", "1", "Y", "X", "_"]);
    assert_eq!(planned(rule("r", &["Y", "X"], vec![body(), less("X", "Y")])), [true, true]);
    assert_eq!(planned(rule("r", &["Y"], vec![body()])), [true, true]);
    // an atom that hands nothing on cannot be planned
    let apart = rule("r", &["X"], vec![has("a", &["X"]), has("b", &["Y"])]);
    assert_eq!(planned(apart), [false, false]);
    assert_eq!(planned(rule("r", &[], vec![body()])), [false, false]);
}

#[test]
fn names_are_put_in_order() {
    assert!(is_before("a", "b") && is_before("a", "ab") && !is_before("b", "a"));
    assert!(!is_before("a", "a"));
    let items: Vec<(String, Vec<String>)> =
        ["c", "a", "b", "a"].iter().map(|s| (s.to_string(), vec![])).collect();
    let sorted: Vec<String> = sort_by_title(items).into_iter().map(|item| item.0).collect();
    assert_eq!(sorted, vec!["a", "a", "b", "c"]);
}
