//! Parse trees read as programs, and programs written out.
use flowlog::parsing::aggregation::{Aggregation, AggregationOperator};
use flowlog::parsing::arithmetic::{Arithmetic, ArithmeticOperator, Factor};
use flowlog::parsing::compare::{ComparisonExpr, ComparisonOperator};
use flowlog::parsing::decl::{Attribute, DataType, RelDecl};
use flowlog::parsing::head::{Head, HeadArg};
use flowlog::parsing::parser::{FlowLogParser, Lexeme, ParseNode, Rule};
use flowlog::parsing::rule::{Atom, AtomArg, Const, FLRule, Predicate};
use flowlog::text::{
    contains_text, i32_to_text, i64_to_text, join, parse_i32, same_text, split_str, u64_to_text,
    usize_to_text, Render,
};

fn leaf(rule: Rule, text: &str) -> ParseNode {
    ParseNode { rule, text: text.to_string(), inner: vec![] }
}

fn tree(rule: Rule, inner: Vec<ParseNode>) -> ParseNode {
    ParseNode { rule, text: String::new(), inner }
}

fn other(inner: Vec<ParseNode>) -> ParseNode {
    tree(Rule::Other, inner)
}

fn name(text: &str) -> ParseNode {
    leaf(Rule::Other, text)
}

fn variable(text: &str) -> ParseNode {
    leaf(Rule::Variable, text)
}

fn integer(text: &str) -> ParseNode {
    tree(Rule::Constant, vec![leaf(Rule::Integer, text)])
}

fn factor(inner: ParseNode) -> ParseNode {
    other(vec![inner])
}

fn arith(first: ParseNode, rest: Vec<(Rule, ParseNode)>) -> ParseNode {
    let mut inner = vec![factor(first)];
    for (op, next) in rest {
        inner.push(other(vec![leaf(op, "")]));
        inner.push(factor(next));
    }
    tree(Rule::Arithmics, inner)
}

fn attribute(text: &str, data_type: &str) -> ParseNode {
    other(vec![name(text), name(data_type)])
}

fn decl(text: &str, attributes: Vec<ParseNode>) -> ParseNode {
    other(vec![name(text), other(attributes)])
}

fn atom(text: &str, args: Vec<ParseNode>) -> ParseNode {
    let mut inner = vec![name(text)];
    for arg in args {
        inner.push(other(vec![arg]));
    }
    tree(Rule::Atom, inner)
}

fn head(text: &str, args: Vec<ParseNode>) -> ParseNode {
    let mut inner = vec![name(text)];
    inner.extend(args);
    other(inner)
}

fn rule(head: ParseNode, predicates: Vec<ParseNode>, option: Option<&str>) -> ParseNode {
    let body = other(predicates.into_iter().map(|p| other(vec![p])).collect());
    let mut inner = vec![head, body];
    if let Some(text) = option {
        inner.push(name(text));
    }
    other(inner)
}

#[test]
fn a_program_is_read_off_its_tree() {
    let root = other(vec![
        tree(
            Rule::EdbDecl,
            vec![
                decl("edge", vec![attribute("x", "number"), attribute("y", "string")]),
                other(vec![
                    name("node"),
                    other(vec![attribute("x", "number")]),
                    other(vec![name("nodes.csv")]),
                ]),
            ],
        ),
        tree(Rule::IdbDecl, vec![decl("far", vec![attribute("x", "number")])]),
        tree(
            Rule::RuleDecl,
            vec![
                rule(
                    head("far", vec![arith(variable("X"), vec![])]),
                    vec![
                        atom("edge", vec![variable("X"), integer("3"), leaf(Rule::Placeholder, "_")]),
                        tree(Rule::NegAtom, vec![atom("node", vec![variable("X")])]),
                        tree(
                            Rule::CompareExpr,
                            vec![
                                arith(variable("X"), vec![(Rule::Plus, integer("1"))]),
                                other(vec![leaf(Rule::LessThan, "<")]),
                                arith(integer("-7"), vec![]),
                            ],
                        ),
                    ],
                    Some(".optimize"),
                ),
                rule(
                    head(
                        "far",
                        vec![tree(
                            Rule::Aggregate,
                            vec![
                                other(vec![leaf(Rule::Sum, "sum")]),
                                arith(variable("Y"), vec![(Rule::Times, variable("Z"))]),
                            ],
                        )],
                    ),
                    vec![atom("edge", vec![variable("Y"), variable("Z")])],
                    None,
                ),
            ],
        ),
        leaf(Rule::Other, ""),
    ]);
    let program = FlowLogParser::program(&root).unwrap();
    assert_eq!(program.edbs().len(), 2);
    assert_eq!(program.edbs()[0].to_string(), "edge(x: number, y: string)");
    assert_eq!(program.edbs()[1].to_string(), "node(x: number) read as nodes.csv");
    assert_eq!(program.edbs()[1].path(), Some("nodes.csv".to_string()));
    assert_eq!(program.idbs()[0].arity(), 1);
    let rules = program.rules();
    assert_eq!(rules[0].to_string(), "far(X) :- edge(X, 3, _), !node(X), [X + 1 < -7].");
    assert!(rules[0].is_planning() && rules[0].is_sip());
    assert_eq!(rules[1].to_string(), "far(sum(Y * Z)) :- edge(Y, Z).");
    assert!(!rules[1].is_planning() && !rules[1].is_sip());
    assert_eq!(
        program.to_string(),
        ".in \nedge(x: number, y: string)\nnode(x: number) read as nodes.csv\n.printsize \n\
         far(x: number)\n.rule \nfar(X) :- edge(X, 3, _), !node(X), [X + 1 < -7].\n\
         far(sum(Y * Z)) :- edge(Y, Z)."
    );
}

#[test]
fn trees_that_are_no_program() {
    let wrong_type = other(vec![tree(
        Rule::EdbDecl,
        vec![decl("edge", vec![attribute("x", "float")])],
    )]);
    assert!(FlowLogParser::program(&wrong_type).is_none());
    let wrong_number = integer("2147483648");
    assert!(Const::read(&wrong_number).is_none());
    assert!(matches!(Const::read(&integer("2147483647")), Some(Const::Integer(2147483647))));
    let wrong_option = rule(head("a", vec![]), vec![], Some(".fast"));
    assert!(FLRule::read(&wrong_option).is_none());
    assert!(Predicate::read(&name("x")).is_none());
    assert!(AtomArg::read(&name("x")).is_none());
    assert!(ArithmeticOperator::read(&other(vec![leaf(Rule::Equals, "=")])).is_none());
    assert!(AggregationOperator::read(&other(vec![leaf(Rule::Plus, "+")])).is_none());
    assert!(ComparisonOperator::read(&other(vec![leaf(Rule::Plus, "+")])).is_none());
    assert!(HeadArg::read(&variable("X")).is_none());
    assert!(DataType::named("float").is_none());
}

#[test]
fn options_of_rules() {
    for (text, is_planning, is_sip) in
        [(".plan", true, false), (".sip", false, true), (".optimize", true, true)]
    {
        let read = FLRule::from_parsed_rule(&rule(head("a", vec![]), vec![], Some(text)));
        assert_eq!((read.is_planning(), read.is_sip()), (is_planning, is_sip));
    }
}

#[test]
fn a_single_variable_is_no_expression() {
    let read = HeadArg::from_parsed_rule(&arith(variable("X"), vec![]));
    assert!(matches!(read, HeadArg::Var(_)));
    let read = HeadArg::from_parsed_rule(&arith(integer("4"), vec![]));
    assert!(matches!(read, HeadArg::Arith(_)));
}

fn var(text: &str) -> Factor {
    Factor::Var(text.to_string())
}

#[test]
fn variables_of_expressions() {
    let sum = Arithmetic {
        init: var("X"),
        rest: vec![
            (ArithmeticOperator::Minus, Factor::Const(Const::Integer(2))),
            (ArithmeticOperator::Modulo, var("Y")),
            (ArithmeticOperator::Divide, var("X")),
        ],
    };
    assert_eq!(sum.to_string(), "X - 2 % Y / X");
    assert_eq!(sum.vars(), vec!["X", "Y", "X"]);
    assert_eq!(sum.vars_set().len(), 2);
    assert!(!sum.is_var());
    let one = Arithmetic { init: var("Z"), rest: vec![] };
    assert!(one.is_var());
    assert!(one.init().is_var());
    assert!(one.rest().is_empty());
    let compare = ComparisonExpr {
        left: sum,
        operator: ComparisonOperator::GreaterEqualThan,
        right: one,
    };
    assert_eq!(compare.to_string(), "[X - 2 % Y / X ≥ Z]");
    assert_eq!(compare.left_vars().len(), 3);
    assert_eq!(compare.right_vars(), vec!["Z"]);
    assert_eq!(compare.vars_set().len(), 3);
    assert!(!compare.operator().is_equals());
    assert_eq!(compare.left().vars().len() + compare.right().vars().len(), 4);
}

#[test]
fn parts_of_rules() {
    let mut decl = RelDecl { name: "r".to_string(), attributes: vec![], path: None };
    decl.push_attr(Attribute { name: "x".to_string(), data_type: DataType::Integer });
    assert_eq!(decl.arity(), 1);
    assert_eq!(*decl.attributes()[0].data_type(), DataType::Integer);
    let mut atom = Atom::from_str("r", vec![]);
    atom.push_arg(AtomArg::Var("X".to_string()));
    atom.push_arg(AtomArg::Const(Const::Text("\"a\"".to_string())));
    atom.push_arg(AtomArg::Placeholder);
    assert_eq!(atom.arity(), 3);
    assert!(atom.arguments()[0].is_var() && !atom.arguments()[0].is_const());
    assert_eq!(atom.arguments()[0].as_var(), "X");
    assert!(atom.arguments()[1].is_const());
    assert!(atom.arguments()[2].is_placeholder());
    assert_eq!(atom.to_string(), "r(X, \"a\", _)");
    assert_eq!(Const::Integer(5).integer(), 5);
    let positive = Predicate::AtomPredicate(atom.clone());
    assert_eq!(positive.name(), "r");
    assert_eq!(positive.arguments().len(), 3);
    assert!(positive.atom().is_some());
    let fold = Aggregation {
        operator: AggregationOperator::Count,
        arithmetic: Arithmetic { init: var("X"), rest: vec![] },
    };
    assert_eq!(fold.to_string(), "count(X)");
    assert_eq!(fold.vars(), vec!["X"]);
    assert_eq!(*fold.operator(), AggregationOperator::Count);
    assert!(fold.arithmetic().is_var());
    let head = Head::new("h".to_string(), vec![HeadArg::Aggregation(fold)]);
    assert_eq!(head.arity(), 1);
    assert_eq!(head.head_arguments()[0].vars(), vec!["X"]);
    let rule = FLRule::new(head, vec![positive], true, false);
    assert_eq!(rule.get(0).name(), "r");
    assert_eq!(rule.head().name(), "h");
    assert_eq!(rule.rhs().len(), 1);
}

#[test]
fn operators_are_written() {
    let arithmetic = [
        (ArithmeticOperator::Plus, "+"),
        (ArithmeticOperator::Minus, "-"),
        (ArithmeticOperator::Multiply, "*"),
        (ArithmeticOperator::Divide, "/"),
        (ArithmeticOperator::Modulo, "%"),
    ];
    for (op, text) in arithmetic {
        assert_eq!(op.to_string(), text);
    }
    let compare = [
        (ComparisonOperator::Equals, "=="),
        (ComparisonOperator::NotEquals, "≠"),
        (ComparisonOperator::GreaterThan, ">"),
        (ComparisonOperator::GreaterEqualThan, "≥"),
        (ComparisonOperator::LessThan, "<"),
        (ComparisonOperator::LessEqualThan, "≤"),
    ];
    for (op, text) in compare {
        assert_eq!(op.to_string(), text);
    }
    let fold = [
        (AggregationOperator::Min, "min"),
        (AggregationOperator::Max, "max"),
        (AggregationOperator::Count, "count"),
        (AggregationOperator::Sum, "sum"),
    ];
    for (op, text) in fold {
        assert_eq!(op.to_string(), text);
    }
}

#[test]
fn numbers_are_written_and_read() {
    for number in [0, 7, -7, 10, 1234567890, i32::MIN, i32::MAX] {
        assert_eq!(i32_to_text(number), number.to_string());
        assert_eq!(parse_i32(&i32_to_text(number)), Some(number));
    }
    assert_eq!(parse_i32("+12"), Some(12));
    assert_eq!(parse_i32("007"), Some(7));
    for text in ["", "-", "1-", "2147483648", "-2147483649", "99999999999999999999", " 1"] {
        assert_eq!(parse_i32(text), None);
    }
    assert_eq!(i64_to_text(i64::MIN), "-9223372036854775808");
    assert_eq!(u64_to_text(u64::MAX), "18446744073709551615");
    assert_eq!(usize_to_text(42), "42");
}

#[test]
fn texts_are_joined_and_cut() {
    let parts = vec!["a".to_string(), String::new(), "bc".to_string()];
    assert_eq!(join(&parts, ", "), "a, , bc");
    assert_eq!(join(&vec![], ", "), "");
    assert_eq!(split_str(&join(&parts, "/"), '/'), parts);
    assert!(same_text("ab", "ab") && !same_text("ab", "abc"));
    assert!(contains_text(&parts, "bc") && !contains_text(&parts, "b"));
}
