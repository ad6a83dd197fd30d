//! Rules in strata.
use flowlog::parsing::decl::RelDecl;
use flowlog::parsing::head::{Head, HeadArg};
use flowlog::parsing::parser::Program;
use flowlog::parsing::rule::{Atom, AtomArg, FLRule, Predicate};
use flowlog::strata::dependencies::DependencyGraph;
use flowlog::strata::stratification::Strata;

fn atom(name: &str) -> Atom {
    Atom::from_str(name, vec![AtomArg::Var("X".to_string())])
}

fn rule(head: &str, positive: &[&str], negated: &[&str]) -> FLRule {
    let mut rhs: Vec<Predicate> =
        positive.iter().map(|name| Predicate::AtomPredicate(atom(name))).collect();
    rhs.extend(negated.iter().map(|name| Predicate::NegatedAtomPredicate(atom(name))));
    FLRule::new(
        Head::new(head.to_string(), vec![HeadArg::Var("X".to_string())]),
        rhs,
        false,
        false,
    )
}

fn program(rules: Vec<FLRule>) -> Program {
    let decl = RelDecl { name: "e".to_string(), attributes: vec![], path: None };
    Program::new(vec![decl], vec![], rules)
}

fn strata_of(rules: Vec<FLRule>) -> Vec<Vec<String>> {
    let strata = Strata::from_parser(program(rules));
    strata
        .strata()
        .iter()
        .map(|stratum| stratum.iter().map(|rule| rule.head().name().clone()).collect())
        .collect()
}

#[test]
fn dependencies_of_rules() {
    let rules = vec![rule("a", &["e"], &[]), rule("b", &["a", "e"], &[]), rule("c", &["e"], &["b"])];
    let graph = DependencyGraph::from_parser(&program(rules));
    assert_eq!(graph.rule_idb_names(), &vec!["a".to_string(), "b".to_string(), "c".to_string()]);
    assert!(graph.rule_dependency_map()[&0].is_empty());
    assert!(graph.rule_dependency_map()[&1].contains(&0));
    assert!(graph.rule_dependency_map()[&2].contains(&1));
    assert!(graph.negation_dependency_map()[&2].contains(&1));
    assert!(graph.negation_dependency_map()[&1].is_empty());
}

#[test]
fn what_is_read_comes_first() {
    let strata = strata_of(vec![
        rule("c", &["b"], &["a"]),
        rule("b", &["a"], &[]),
        rule("a", &["e"], &[]),
    ]);
    let place = |name: &str| strata.iter().position(|s| s.contains(&name.to_string())).unwrap();
    assert!(place("a") < place("b"));
    assert!(place("b") < place("c"));
    let total: usize = strata.iter().map(|s| s.len()).sum();
    assert_eq!(total, 3);
}

#[test]
fn rules_that_need_each_other_share_a_stratum() {
    let strata = Strata::from_parser(program(vec![
        rule("a", &["e"], &[]),
        rule("b", &["a", "c"], &[]),
        rule("c", &["b"], &[]),
        rule("d", &["c"], &[]),
        rule("f", &["f"], &[]),
    ]));
    let names: Vec<Vec<&str>> = strata
        .strata()
        .iter()
        .map(|stratum| stratum.iter().map(|rule| rule.head().name().as_str()).collect())
        .collect();
    for (i, stratum) in names.iter().enumerate() {
        let is_recursive = stratum.contains(&"b") || stratum.contains(&"f");
        assert_eq!(strata.is_recursive_stratum(i), is_recursive);
        assert_eq!(strata.is_recursive_strata_bitmap()[i], is_recursive);
        if stratum.contains(&"b") {
            assert!(stratum.contains(&"c"));
            assert_eq!(stratum.len(), 2);
        }
    }
    assert_eq!(strata.program().rules().len(), 5);
    assert!(!strata.to_string().is_empty());
    assert!(!strata.dependency_graph().to_string().is_empty());
}

#[test]
fn no_rules_no_strata() {
    assert!(strata_of(vec![]).is_empty());
}
