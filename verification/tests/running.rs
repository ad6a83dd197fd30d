//! Programs planned, put together as stages, and run on sets of rows.
use std::collections::{BTreeMap, BTreeSet};

use flowlog::catalog::head::idb_catalog_from_program;
use flowlog::compiler::outputs::{show_file, show_tuples};
use flowlog::compiler::{compile, emit_datalog, StringTable};
use flowlog::executing::aggregation::{
    aggregation_merge_kv, aggregation_reduce_logic, aggregation_separate_kv,
};
use flowlog::executing::assembly::{assemble, Collect, EnterAs, Gather, Stage};
use flowlog::executing::dataflow::{Action, Operator, Table};
use flowlog::executing::heads::head_row;
use flowlog::executing::jn::{
    aj_flatten, cartesian_logic, jn_logic, v1_aj_flatten, v1_jn_logic, v2_jn_logic,
};
use flowlog::executing::map::{row_kv, row_row};
use flowlog::hcl_types::{HclExpr, HclOutput, HclProgram, HclResource, HclValue, Reference};
use flowlog::ordered::Ordered;
use flowlog::parsing::aggregation::{Aggregation, AggregationOperator};
use flowlog::parsing::arithmetic::{Arithmetic, ArithmeticOperator, Factor};
use flowlog::parsing::compare::{ComparisonExpr, ComparisonOperator};
use flowlog::parsing::decl::{Attribute, DataType, RelDecl};
use flowlog::parsing::head::{Head, HeadArg};
use flowlog::parsing::parser::Program;
use flowlog::parsing::rule::{Atom, AtomArg, Const, FLRule, Predicate};
use flowlog::planning::collections::CollectionSignature;
use flowlog::planning::program::ProgramQueryPlan;
use flowlog::reading::interner::{code_program, decode_row, types_of};
use flowlog::reading::reader::read_rows;
use flowlog::reading::row::{row_chop, FatRow};
use flowlog::strata::stratification::Strata;
use flowlog::text::Render;

type Rows = BTreeSet<Vec<i64>>;

fn to_row(values: &[i64]) -> FatRow {
    FatRow { values: values.to_vec() }
}

#[derive(Default, Clone)]
struct Kept {
    rows: BTreeMap<String, Rows>,
    keys: BTreeMap<String, Rows>,
    key_values: BTreeMap<String, BTreeSet<(Vec<i64>, Vec<i64>)>>,
}

fn name_of(signature: &CollectionSignature) -> String {
    signature.to_string()
}

impl Kept {
    fn put(&mut self, table: Table, name: String, out: Rows, key_arity: usize) {
        match table {
            Table::Row => {
                self.rows.insert(name, out);
            }
            Table::Key => {
                self.keys.insert(name, out);
            }
            Table::KeyValue => {
                let pairs = out
                    .iter()
                    .map(|values| {
                        let (key, value) = row_chop(&to_row(values), key_arity);
                        (key.values, value.values)
                    })
                    .collect();
                self.key_values.insert(name, pairs);
            }
        }
    }

    fn run(&mut self, action: &Action, variables: &BTreeMap<String, Rows>) {
        match action {
            Action::Share { input, output, table } => {
                let rows = self.rows[&name_of(input)].clone();
                self.put(*table, name_of(output), rows, 0);
            }
            Action::Derive { input, from_variable, output, table, flow, .. } => {
                let rows = if *from_variable {
                    variables[&name_of(input)].clone()
                } else {
                    self.rows[&name_of(input)].clone()
                };
                match table {
                    Table::KeyValue => {
                        let mut pairs = BTreeSet::new();
                        for values in &rows {
                            if let Some((k, v)) = row_kv(flow, &to_row(values)).unwrap() {
                                pairs.insert((k.values, v.values));
                            }
                        }
                        self.key_values.insert(name_of(output), pairs);
                    }
                    _ => {
                        let mut out = Rows::new();
                        for values in &rows {
                            if let Some(row) = row_row(flow, &to_row(values)).unwrap() {
                                out.insert(row.values);
                            }
                        }
                        self.put(*table, name_of(output), out, 0);
                    }
                }
            }
            Action::Join { operator, large, small, flow, output, table, key_arity, copies } => {
                let (large, small) = (name_of(large), name_of(small));
                let mut out = Rows::new();
                let mut keep = |row: Option<FatRow>| {
                    if let Some(row) = row {
                        out.insert(row.values);
                    }
                };
                match operator {
                    Operator::KvJnKv => {
                        for (k, v1) in &self.key_values[&large] {
                            for (k2, v2) in &self.key_values[&small] {
                                if k == k2 {
                                    keep(jn_logic(flow, &to_row(k), &to_row(v1), &to_row(v2)).unwrap());
                                }
                            }
                        }
                    }
                    Operator::KvJnK => {
                        for (k, v) in &self.key_values[&large] {
                            if self.keys[&small].contains(k) {
                                keep(v1_jn_logic(flow, &to_row(k), &to_row(v)).unwrap());
                            }
                        }
                    }
                    Operator::KJnK => {
                        for k in &self.keys[&large] {
                            if self.keys[&small].contains(k) {
                                keep(v2_jn_logic(flow, &to_row(k)).unwrap());
                            }
                        }
                    }
                    Operator::Cartesian => {
                        for v1 in &self.rows[&large] {
                            for v2 in &self.rows[&small] {
                                keep(cartesian_logic(flow, &to_row(v1), &to_row(v2)).unwrap());
                            }
                        }
                    }
                    Operator::KvAjK => {
                        for (k, v) in &self.key_values[&large] {
                            if !self.keys[&small].contains(k) {
                                keep(Some(aj_flatten(flow, &to_row(k), &to_row(v)).unwrap()));
                            }
                        }
                    }
                    Operator::KAjK => {
                        for k in &self.keys[&large] {
                            if !self.keys[&small].contains(k) {
                                keep(Some(v1_aj_flatten(flow, &to_row(k)).unwrap()));
                            }
                        }
                    }
                }
                for copy in copies {
                    self.rows.insert(name_of(copy), out.clone());
                }
                self.put(*table, name_of(output), out, *key_arity);
            }
        }
    }
}

fn gather(gather: Gather, rows: Rows) -> Rows {
    let operator = match gather {
        Gather::Plain => return rows,
        Gather::Least { .. } => AggregationOperator::Min,
        Gather::Reduce { operator, .. } => operator,
    };
    let mut groups: BTreeMap<Vec<i64>, Vec<FatRow>> = BTreeMap::new();
    for values in &rows {
        let (key, value) = aggregation_separate_kv(&to_row(values));
        groups.entry(key.values).or_default().push(value);
    }
    groups
        .iter()
        .map(|(key, values)| {
            let value = aggregation_reduce_logic(&operator, values).unwrap();
            aggregation_merge_kv(&to_row(key), &value).values
        })
        .collect()
}

fn collect(collect: &Collect, parts: &BTreeMap<String, Rows>, start: Option<&Rows>) -> Rows {
    let mut rows = Rows::new();
    assert_eq!(collect.parts.len(), collect.heads.len());
    for (part, head) in collect.parts.iter().zip(&collect.heads) {
        rows.extend(parts[&name_of(part)].iter().map(|values| head_row(head, values).unwrap()));
    }
    if collect.with_head {
        rows.extend(start.unwrap().iter().cloned());
    }
    gather(collect.gather, rows)
}

fn run_stage(kept: &mut Kept, stage: &Stage) {
    match stage {
        Stage::Flat { actions, collects } => {
            for action in actions {
                kept.run(action, &BTreeMap::new());
            }
            for c in collects {
                let head = name_of(&c.head);
                let rows = collect(c, &kept.rows, kept.rows.get(&head));
                kept.rows.insert(head, rows);
            }
        }
        Stage::Loop { variables, enters, actions, collects } => {
            let mut start: BTreeMap<String, Rows> = BTreeMap::new();
            let mut entered = Kept::default();
            for enter in enters {
                let name = name_of(&enter.signature);
                match enter.enter_as {
                    EnterAs::Start => {
                        start.insert(name.clone(), kept.rows[&name].clone());
                    }
                    EnterAs::Kept(Table::Row) => {
                        entered.rows.insert(name.clone(), kept.rows[&name].clone());
                    }
                    EnterAs::Kept(Table::Key) => {
                        entered.keys.insert(name.clone(), kept.keys[&name].clone());
                    }
                    EnterAs::Kept(Table::KeyValue) => {
                        entered.key_values.insert(name.clone(), kept.key_values[&name].clone());
                    }
                }
            }
            let mut current: BTreeMap<String, Rows> =
                variables.iter().map(|(v, _)| (name_of(v), Rows::new())).collect();
            loop {
                let mut inside = entered.clone();
                for action in actions {
                    inside.run(action, &current);
                }
                let mut next = current.clone();
                for c in collects {
                    let head = name_of(&c.head);
                    let rows = collect(c, &inside.rows, start.get(&head));
                    next.insert(head, rows);
                }
                if next == current {
                    break;
                }
                current = next;
            }
            for (name, rows) in current {
                kept.rows.insert(name, rows);
            }
        }
    }
}

fn run(
    program: &Program,
    facts: &[(&str, Vec<Vec<i64>>)],
    no_sharing: bool,
    opt_level: Option<u8>,
) -> BTreeMap<String, Rows> {
    let strata = Strata::from_parser(program.clone());
    let plan = ProgramQueryPlan::try_from_strata(&strata, no_sharing, opt_level)
        .expect("the program can be planned");
    let idbs = idb_catalog_from_program(program);
    let stages = match assemble(program.edbs(), &idbs, &plan) {
        Ok(stages) => stages,
        Err(absent) => panic!("{} is absent", name_of(&absent)),
    };
    let mut kept = Kept::default();
    for (name, rows) in facts {
        kept.rows.insert(name_of(&CollectionSignature::new_atom(name)), rows.iter().cloned().collect());
    }
    for stage in &stages {
        run_stage(&mut kept, stage);
    }
    program
        .idbs()
        .iter()
        .map(|idb| {
            let name = name_of(&CollectionSignature::new_atom(idb.name()));
            (idb.name().to_string(), kept.rows[&name].clone())
        })
        .collect()
}

/// Runs a program with and without shared steps, as it stands, with planned joins and
/// with rules rewritten; all of them give the same rows.
fn run_all(program: &Program, facts: &[(&str, Vec<Vec<i64>>)]) -> BTreeMap<String, Rows> {
    let result = run(program, facts, false, None);
    assert_eq!(result, run(program, facts, true, None));
    for (is_planning, is_sip) in [(true, false), (false, true), (true, true)] {
        let rules = program
            .rules()
            .iter()
            .map(|rule| FLRule { is_planning, is_sip, ..rule.clone() })
            .collect();
        let changed = Program::new(program.edbs().clone(), program.idbs().clone(), rules);
        assert_eq!(result, run(&changed, facts, false, None));
        assert_eq!(result, run(&changed, facts, true, None));
    }
    for level in 0..4 {
        assert_eq!(result, run(program, facts, false, Some(level)));
    }
    result
}

fn decl(name: &str, arity: usize) -> RelDecl {
    let attributes = (0..arity)
        .map(|i| Attribute { name: format!("x{}", i), data_type: DataType::Integer })
        .collect();
    RelDecl { name: name.to_string(), attributes, path: None }
}

/// An argument: a number, `_`, or a variable.
fn arg(s: &str) -> AtomArg {
    if s == "_" {
        AtomArg::Placeholder
    } else if let Ok(number) = s.parse::<i32>() {
        AtomArg::Const(Const::Integer(number))
    } else {
        AtomArg::Var(s.to_string())
    }
}

fn atom(name: &str, args: &[&str]) -> Atom {
    Atom::from_str(name, args.iter().map(|s| arg(s)).collect())
}

fn has(name: &str, args: &[&str]) -> Predicate {
    Predicate::AtomPredicate(atom(name, args))
}

fn not(name: &str, args: &[&str]) -> Predicate {
    Predicate::NegatedAtomPredicate(atom(name, args))
}

fn factor(s: &str) -> Factor {
    match s.parse::<i32>() {
        Ok(number) => Factor::Const(Const::Integer(number)),
        Err(_) => Factor::Var(s.to_string()),
    }
}

fn value(s: &str) -> Arithmetic {
    Arithmetic { init: factor(s), rest: vec![] }
}

fn sum_of(a: &str, b: &str) -> Arithmetic {
    Arithmetic { init: factor(a), rest: vec![(ArithmeticOperator::Plus, factor(b))] }
}

fn compare(left: Arithmetic, operator: ComparisonOperator, right: Arithmetic) -> Predicate {
    Predicate::ComparePredicate(ComparisonExpr { left, operator, right })
}

fn var(s: &str) -> HeadArg {
    HeadArg::Var(s.to_string())
}

fn fold(operator: AggregationOperator, s: &str) -> HeadArg {
    HeadArg::Aggregation(Aggregation { operator, arithmetic: value(s) })
}

fn rule(name: &str, head: Vec<HeadArg>, rhs: Vec<Predicate>) -> FLRule {
    FLRule::new(Head::new(name.to_string(), head), rhs, false, false)
}

fn set(rows: &[&[i64]]) -> Rows {
    rows.iter().map(|row| row.to_vec()).collect()
}

fn edges() -> Vec<Vec<i64>> {
    vec![vec![1, 2], vec![2, 3], vec![3, 4], vec![4, 2], vec![5, 5]]
}

fn closure_rules() -> Vec<FLRule> {
    vec![
        rule("tc", vec![var("X"), var("Y")], vec![has("edge", &["X", "Y"])]),
        rule(
            "tc",
            vec![var("X"), var("Z")],
            vec![has("tc", &["X", "Y"]), has("edge", &["Y", "Z"])],
        ),
    ]
}

#[test]
fn transitive_closure() {
    let program = Program::new(vec![decl("edge", 2)], vec![decl("tc", 2)], closure_rules());
    let result = run_all(&program, &[("edge", edges())]);
    assert_eq!(
        result["tc"],
        set(&[
            &[1, 2], &[1, 3], &[1, 4], &[2, 2], &[2, 3], &[2, 4], &[3, 2], &[3, 3], &[3, 4],
            &[4, 2], &[4, 3], &[4, 4], &[5, 5],
        ])
    );
}

#[test]
fn levels_decide_how_rules_are_planned() {
    let mut rules = closure_rules();
    rules[0].is_sip = true;
    rules.push(rule(
        "two",
        vec![var("X"), var("Z")],
        vec![has("edge", &["X", "Y"]), has("edge", &["Y", "Z"])],
    ));
    let program = Program::new(vec![decl("edge", 2)], vec![decl("tc", 2), decl("two", 2)], rules);
    let strata = Strata::from_parser(program.clone());
    let heads = |opt_level: Option<u8>| -> BTreeSet<String> {
        let plan = ProgramQueryPlan::try_from_strata(&strata, false, opt_level).unwrap();
        plan.program_plan
            .iter()
            .flat_map(|group| group.rules().iter().map(|rule| rule.head().name().to_string()))
            .collect()
    };
    let plain: BTreeSet<String> = ["tc", "two"].iter().map(|s| s.to_string()).collect();
    assert_eq!(heads(Some(0)), plain);
    assert_eq!(heads(Some(2)), plain);
    assert!(heads(Some(1)).iter().any(|name| name.contains("_sip")));
    assert!(heads(Some(3)).iter().any(|name| name.contains("_sip")));
    assert_eq!(heads(Some(1)), heads(Some(3)));
    run_all(&program, &[("edge", edges())]);
}

#[test]
fn closure_by_itself() {
    let mut rules = closure_rules();
    rules[1] = rule(
        "tc",
        vec![var("X"), var("Z")],
        vec![has("tc", &["X", "Y"]), has("tc", &["Y", "Z"])],
    );
    let program = Program::new(vec![decl("edge", 2)], vec![decl("tc", 2)], rules);
    let result = run_all(&program, &[("edge", edges())]);
    assert_eq!(result["tc"].len(), 13);
    assert!(result["tc"].contains(&vec![3, 2]));
}

#[test]
fn rows_that_are_not_there() {
    let mut rules = closure_rules();
    rules.push(rule("node", vec![var("X")], vec![has("edge", &["X", "_"])]));
    rules.push(rule("node", vec![var("Y")], vec![has("edge", &["_", "Y"])]));
    rules.push(rule(
        "apart",
        vec![var("X"), var("Y")],
        vec![has("node", &["X"]), has("node", &["Y"]), not("tc", &["X", "Y"])],
    ));
    rules.push(rule("first", vec![var("X")], vec![has("node", &["X"]), not("edge", &["_", "X"])]));
    let program = Program::new(
        vec![decl("edge", 2)],
        vec![decl("tc", 2), decl("node", 1), decl("apart", 2), decl("first", 1)],
        rules,
    );
    let facts = vec![vec![1, 2], vec![2, 3]];
    let result = run_all(&program, &[("edge", facts)]);
    assert_eq!(result["node"], set(&[&[1], &[2], &[3]]));
    assert_eq!(
        result["apart"],
        set(&[&[1, 1], &[2, 1], &[2, 2], &[3, 1], &[3, 2], &[3, 3]])
    );
    assert_eq!(result["first"], set(&[&[1]]));
}

#[test]
fn rows_that_are_left_out() {
    let program = Program::new(
        vec![decl("edge", 2)],
        vec![decl("loops", 1), decl("from_one", 1), decl("up", 2), decl("next", 2)],
        vec![
            rule("loops", vec![var("X")], vec![has("edge", &["X", "X"])]),
            rule("from_one", vec![var("Y")], vec![has("edge", &["1", "Y"])]),
            rule(
                "up",
                vec![var("Y"), var("X")],
                vec![
                    has("edge", &["X", "Y"]),
                    compare(value("X"), ComparisonOperator::LessThan, value("Y")),
                    compare(value("X"), ComparisonOperator::NotEquals, value("2")),
                ],
            ),
            rule(
                "next",
                vec![var("X"), var("Z")],
                vec![
                    has("edge", &["X", "Y"]),
                    has("edge", &["Y", "Z"]),
                    compare(sum_of("X", "2"), ComparisonOperator::Equals, value("Z")),
                ],
            ),
        ],
    );
    let result = run_all(&program, &[("edge", edges())]);
    assert_eq!(result["loops"], set(&[&[5]]));
    assert_eq!(result["from_one"], set(&[&[2]]));
    assert_eq!(result["up"], set(&[&[2, 1], &[4, 3]]));
    assert_eq!(result["next"], set(&[&[1, 3], &[2, 4]]));
}

#[test]
fn joins_of_several_atoms() {
    let program = Program::new(
        vec![decl("r", 2), decl("s", 2), decl("t", 2), decl("u", 1)],
        vec![decl("q", 3), decl("tri", 3)],
        vec![
            rule(
                "q",
                vec![var("D"), var("A"), var("B")],
                vec![
                    has("r", &["A", "B"]),
                    has("s", &["B", "C"]),
                    has("t", &["C", "D"]),
                    has("u", &["B"]),
                    not("u", &["D"]),
                ],
            ),
            rule(
                "tri",
                vec![var("A"), var("B"), var("C")],
                vec![has("r", &["A", "B"]), has("s", &["B", "C"]), has("t", &["C", "A"])],
            ),
        ],
    );
    let facts = [
        ("r", vec![vec![1, 2], vec![1, 3], vec![4, 2]]),
        ("s", vec![vec![2, 5], vec![3, 5], vec![2, 6]]),
        ("t", vec![vec![5, 1], vec![6, 2], vec![5, 7], vec![6, 4]]),
        ("u", vec![vec![2]]),
    ];
    let result = run_all(&program, &facts);
    assert_eq!(
        result["q"],
        set(&[&[1, 1, 2], &[1, 4, 2], &[7, 1, 2], &[7, 4, 2], &[4, 1, 2], &[4, 4, 2]])
    );
    assert_eq!(result["tri"], set(&[&[1, 2, 5], &[1, 3, 5], &[4, 2, 6]]));
}

#[test]
fn values_put_together() {
    let program = Program::new(
        vec![decl("edge", 2)],
        vec![decl("degree", 2), decl("total", 1), decl("least", 2), decl("most", 1)],
        vec![
            rule(
                "degree",
                vec![var("X"), fold(AggregationOperator::Count, "Y")],
                vec![has("edge", &["X", "Y"])],
            ),
            rule(
                "total",
                vec![fold(AggregationOperator::Sum, "Y")],
                vec![has("edge", &["_", "Y"])],
            ),
            rule(
                "least",
                vec![var("X"), fold(AggregationOperator::Min, "Y")],
                vec![has("edge", &["X", "Y"])],
            ),
            rule(
                "most",
                vec![fold(AggregationOperator::Max, "Y")],
                vec![has("edge", &["_", "Y"])],
            ),
        ],
    );
    let facts = vec![vec![1, 9], vec![1, 4], vec![2, 6]];
    let result = run_all(&program, &[("edge", facts)]);
    assert_eq!(result["degree"], set(&[&[1, 2], &[2, 1]]));
    assert_eq!(result["total"], set(&[&[19]]));
    assert_eq!(result["least"], set(&[&[1, 4], &[2, 6]]));
    assert_eq!(result["most"], set(&[&[9]]));
}

#[test]
fn relations_that_need_each_other() {
    let program = Program::new(
        vec![decl("zero", 1), decl("succ", 2)],
        vec![decl("even", 1), decl("odd", 1)],
        vec![
            rule("even", vec![var("X")], vec![has("zero", &["X"])]),
            rule("odd", vec![var("Y")], vec![has("even", &["X"]), has("succ", &["X", "Y"])]),
            rule("even", vec![var("Y")], vec![has("odd", &["X"]), has("succ", &["X", "Y"])]),
        ],
    );
    let succ: Vec<Vec<i64>> = (0..7).map(|i| vec![i, i + 1]).collect();
    let result = run_all(&program, &[("zero", vec![vec![0]]), ("succ", succ)]);
    assert_eq!(result["even"], set(&[&[0], &[2], &[4], &[6]]));
    assert_eq!(result["odd"], set(&[&[1], &[3], &[5], &[7]]));
}

#[test]
fn labels_of_components() {
    // the least node that reaches a node, kept as the least value in a loop
    let program = Program::new(
        vec![decl("edge", 2)],
        vec![decl("label", 2)],
        vec![
            rule(
                "label",
                vec![var("X"), fold(AggregationOperator::Min, "X")],
                vec![has("edge", &["X", "_"])],
            ),
            rule(
                "label",
                vec![var("Y"), fold(AggregationOperator::Min, "L")],
                vec![has("label", &["X", "L"]), has("edge", &["X", "Y"])],
            ),
        ],
    );
    let both: Vec<Vec<i64>> =
        vec![vec![1, 2], vec![2, 1], vec![2, 3], vec![3, 2], vec![7, 8], vec![8, 7]];
    let result = run(&program, &[("edge", both)], false, None);
    assert_eq!(result["label"], set(&[&[1, 1], &[2, 1], &[3, 1], &[7, 7], &[8, 7]]));
}

#[test]
fn a_relation_with_rules_in_several_strata() {
    // `far` has a rule before and a rule behind the closure; `near` reads it after both
    let mut rules = vec![
        rule(
            "near",
            vec![var("X"), var("Y")],
            vec![has("edge", &["X", "Y"]), not("far", &["X", "Y"])],
        ),
        rule("far", vec![var("X"), var("Y")], vec![has("blocked", &["X", "Y"])]),
        rule("far", vec![var("X"), var("Y")], vec![has("tc", &["Y", "X"])]),
    ];
    rules.extend(closure_rules());
    let program = Program::new(
        vec![decl("edge", 2), decl("blocked", 2)],
        vec![decl("near", 2), decl("far", 2), decl("tc", 2)],
        rules,
    );
    let arcs = vec![vec![1, 2], vec![2, 3], vec![3, 2], vec![3, 4]];
    let result = run_all(&program, &[("edge", arcs), ("blocked", vec![vec![1, 2]])]);
    let far = &result["far"];
    assert!(far.contains(&vec![1, 2]) && far.contains(&vec![2, 3]) && far.contains(&vec![3, 2]));
    assert!(!far.contains(&vec![3, 4]));
    assert_eq!(result["near"], set(&[&[3, 4]]));
}

fn arith(a: &str, operator: ArithmeticOperator, b: &str) -> HeadArg {
    HeadArg::Arith(Arithmetic { init: factor(a), rest: vec![(operator, factor(b))] })
}

/// Runs `out(N, A op B) :- data(N, A, C)` on some facts.
fn run_head(operator: ArithmeticOperator, right: &str, facts: &[[i64; 3]]) -> Rows {
    let program = Program::new(
        vec![decl("data", 3)],
        vec![decl("out", 2)],
        vec![rule(
            "out",
            vec![var("N"), arith("A", operator, right)],
            vec![has("data", &["N", "A", "C"])],
        )],
    );
    let facts: Vec<Vec<i64>> = facts.iter().map(|row| row.to_vec()).collect();
    run_all(&program, &[("data", facts)])["out"].clone()
}

#[test]
fn head_arithmetic() {
    let out = run_head(ArithmeticOperator::Plus, "C", &[[1, 100, 20], [2, 200, 50]]);
    assert_eq!(out, set(&[&[1, 120], &[2, 250]]));
}

#[test]
fn head_arithmetic_subtraction() {
    let out = run_head(ArithmeticOperator::Minus, "C", &[[1, 500, 200], [2, 300, 150]]);
    assert_eq!(out, set(&[&[1, 300], &[2, 150]]));
}

#[test]
fn head_arithmetic_modulo() {
    let out = run_head(ArithmeticOperator::Modulo, "4", &[[1, 10, 0], [2, 7, 0], [3, 15, 0]]);
    assert_eq!(out, set(&[&[1, 2], &[2, 3], &[3, 3]]));
}

#[test]
fn head_arithmetic_multiplication() {
    let out = run_head(ArithmeticOperator::Multiply, "C", &[[1, 3, 100], [2, 5, 50]]);
    assert_eq!(out, set(&[&[1, 300], &[2, 250]]));
}

#[test]
fn heads_of_one_body() {
    // the rules share all their steps, and their heads make different rows of them
    let program = Program::new(
        vec![decl("q", 2)],
        vec![decl("p", 1), decl("total", 1), decl("twice", 2)],
        vec![
            rule("p", vec![arith("X", ArithmeticOperator::Plus, "Y")], vec![has("q", &["X", "Y"])]),
            rule("p", vec![arith("X", ArithmeticOperator::Minus, "Y")], vec![has("q", &["X", "Y"])]),
            rule(
                "total",
                vec![HeadArg::Aggregation(Aggregation {
                    operator: AggregationOperator::Sum,
                    arithmetic: sum_of("X", "Y"),
                })],
                vec![has("q", &["X", "Y"])],
            ),
            rule(
                "twice",
                vec![var("X"), arith("X", ArithmeticOperator::Plus, "X")],
                vec![has("q", &["X", "_"])],
            ),
        ],
    );
    let result = run_all(&program, &[("q", vec![vec![7, 2], vec![10, 4]])]);
    assert_eq!(result["p"], set(&[&[5], &[6], &[9], &[14]]));
    assert_eq!(result["total"], set(&[&[23]]));
    assert_eq!(result["twice"], set(&[&[7, 14], &[10, 20]]));
}

#[test]
fn lengths_of_paths() {
    // an expression in the head of a rule in recursion
    let program = Program::new(
        vec![decl("edge", 3)],
        vec![decl("path", 3)],
        vec![
            rule(
                "path",
                vec![var("X"), var("Y"), var("L")],
                vec![has("edge", &["X", "Y", "L"])],
            ),
            rule(
                "path",
                vec![var("X"), var("Z"), arith("L", ArithmeticOperator::Plus, "M")],
                vec![has("path", &["X", "Y", "L"]), has("edge", &["Y", "Z", "M"])],
            ),
        ],
    );
    let edges = vec![vec![1, 2, 5], vec![2, 3, 7], vec![3, 4, 1]];
    let result = run_all(&program, &[("edge", edges)]);
    assert_eq!(
        result["path"],
        set(&[&[1, 2, 5], &[2, 3, 7], &[3, 4, 1], &[1, 3, 12], &[2, 4, 8], &[1, 4, 13]])
    );
}

#[test]
fn rows_of_heads() {
    let head = Head::new(
        "p".to_string(),
        vec![
            HeadArg::Arith(Arithmetic {
                init: factor("A"),
                rest: vec![
                    (ArithmeticOperator::Minus, factor("B")),
                    (ArithmeticOperator::Multiply, factor("2")),
                ],
            }),
            var("C"),
        ],
    );
    // from left to right: (9 - 4) * 2
    assert_eq!(head_row(&head, &vec![9, 4, 8]), Some(vec![10, 8]));
    assert_eq!(head_row(&head, &vec![9, 4]), None);
    assert_eq!(head_row(&head, &vec![9, 4, 8, 1]), None);
    assert_eq!(head_row(&head, &vec![i64::MIN, 1, 8]), None);
    let division =
        Head::new("p".to_string(), vec![arith("A", ArithmeticOperator::Divide, "B")]);
    assert_eq!(head_row(&division, &vec![7, 2]), Some(vec![3]));
    assert_eq!(head_row(&division, &vec![7, 0]), None);
}

// programs made of blocks, run to the end

fn word(s: &str) -> HclExpr {
    HclExpr::Literal(HclValue::String(s.to_string()))
}

fn whole(i: i32) -> HclExpr {
    HclExpr::Literal(HclValue::Integer(i))
}

fn field(block_type: &str, label: &str, field: &str) -> HclExpr {
    HclExpr::Reference(Reference {
        block_type: block_type.to_string(),
        block_label: label.to_string(),
        field: field.to_string(),
    })
}

fn named(name: &str) -> HclExpr {
    HclExpr::VarRef(name.to_string())
}

fn resource(block_type: &str, label: &str, attributes: &[(&str, HclExpr)]) -> HclResource {
    let mut map: Ordered<HclExpr> = Ordered::new();
    for (name, value) in attributes {
        map.insert(name.to_string(), value.clone());
    }
    HclResource { block_type: block_type.to_string(), label: label.to_string(), attributes: map }
}

fn blocks(
    variables: &[(&str, &str)],
    resources: Vec<HclResource>,
    outputs: &[(&str, HclExpr)],
) -> HclProgram {
    let mut map: Ordered<HclValue> = Ordered::new();
    for (name, value) in variables {
        map.insert(name.to_string(), HclValue::String(value.to_string()));
    }
    let outputs = outputs
        .iter()
        .map(|(name, value)| HclOutput { name: name.to_string(), value: value.clone() })
        .collect();
    HclProgram { variables: map, resources, outputs }
}

/// What a program made of blocks shows, or what is wrong with it.
fn show(program: HclProgram) -> Result<String, String> {
    let mut result = compile(program)?;
    let coded = code_program(&result.program, &mut result.string_table);
    let facts: Vec<(String, Vec<Vec<i64>>)> = coded
        .edbs()
        .iter()
        .map(|decl| {
            let tuples = result.edb_facts.get(decl.name()).unwrap();
            let rows = tuples.iter().map(|t| t.iter().map(|v| *v as i64).collect()).collect();
            (decl.name().to_string(), rows)
        })
        .collect();
    let facts: Vec<(&str, Vec<Vec<i64>>)> =
        facts.iter().map(|(name, rows)| (name.as_str(), rows.clone())).collect();
    let derived = run_all(&coded, &facts);
    let mut out = String::new();
    for output in &result.outputs {
        match result.edb_facts.get(&output.relation_name) {
            Some(tuples) => out.push_str(&show_tuples(output, tuples, &result.string_table)),
            None => {
                let lines: Vec<String> = derived[&output.relation_name]
                    .iter()
                    .map(|row| row.iter().map(|v| v.to_string()).collect::<Vec<_>>().join(", "))
                    .collect();
                let content = lines.join("\n");
                out.push_str(&show_file(output, Some(&content), &result.string_table));
            }
        }
    }
    Ok(out)
}

fn shown(resources: Vec<HclResource>, outputs: &[(&str, HclExpr)]) -> String {
    show(blocks(&[], resources, outputs)).unwrap()
}

fn refused(resources: Vec<HclResource>, outputs: &[(&str, HclExpr)]) -> String {
    show(blocks(&[], resources, outputs)).unwrap_err()
}

#[test]
fn e2e_literal_output() {
    assert_eq!(shown(vec![], &[("greeting", word("hello"))]), "output \"greeting\": hello\n");
}

#[test]
fn e2e_integer_output() {
    assert_eq!(shown(vec![], &[("port", whole(8080))]), "output \"port\": 8080\n");
}

#[test]
fn e2e_boolean_output() {
    let value = HclExpr::Literal(HclValue::Bool(true));
    assert_eq!(shown(vec![], &[("flag", value)]), "output \"flag\": 1\n");
}

#[test]
fn e2e_edb_with_output() {
    let out = shown(
        vec![resource("server", "w1", &[("ip", word("10.0.0.5"))])],
        &[("server_ip", field("server", "w1", "ip"))],
    );
    assert_eq!(out, "output \"server_ip\": 10.0.0.5\n");
}

#[test]
fn e2e_idb_with_output() {
    let out = shown(
        vec![
            resource("server", "w1", &[("ip", word("10.0.0.5"))]),
            resource("monitor", "m1", &[("target_ip", field("server", "w1", "ip"))]),
        ],
        &[("monitored_ip", field("monitor", "m1", "target_ip"))],
    );
    assert_eq!(out, "output \"monitored_ip\": 10.0.0.5\n");
}

#[test]
fn e2e_variable_substitution() {
    let program = blocks(
        &[("addr", "192.168.1.1")],
        vec![resource("host", "h1", &[("ip", named("addr"))])],
        &[("host_ip", field("host", "h1", "ip"))],
    );
    assert_eq!(show(program).unwrap(), "output \"host_ip\": 192.168.1.1\n");
}

#[test]
fn e2e_multiple_outputs() {
    let out = shown(
        vec![resource("server", "w1", &[("ip", word("10.0.0.5")), ("dc", word("us-west"))])],
        &[("ip", field("server", "w1", "ip")), ("dc", field("server", "w1", "dc"))],
    );
    assert_eq!(out, "output \"ip\": 10.0.0.5\noutput \"dc\": us-west\n");
}

#[test]
fn e2e_emit_dl_flag() {
    let result = compile(blocks(
        &[],
        vec![resource("server", "w1", &[("ip", word("10.0.0.5"))])],
        &[("server_ip", field("server", "w1", "ip"))],
    ))
    .unwrap();
    let text = emit_datalog(&result);
    assert!(text.contains(".in"));
    assert!(text.contains(".decl server("));
    assert!(text.contains("hcl_output_server_ip"));
    assert!(!text.contains("output \"server_ip\":"));
}

#[test]
fn e2e_deep_acyclic_chain() {
    let out = shown(
        vec![
            resource("origin", "o1", &[("val", word("deep"))]),
            resource("relay", "r1", &[("val", field("origin", "o1", "val"))]),
            resource("sink", "s1", &[("val", field("relay", "r1", "val"))]),
        ],
        &[("result", field("sink", "s1", "val"))],
    );
    assert_eq!(out, "output \"result\": deep\n");
}

#[test]
fn e2e_diamond_dependency() {
    let out = shown(
        vec![
            resource("source", "s1", &[("val", word("diamond"))]),
            resource("left", "l1", &[("val", field("source", "s1", "val"))]),
            resource("right", "r1", &[("val", field("source", "s1", "val"))]),
        ],
        &[("lout", field("left", "l1", "val")), ("rout", field("right", "r1", "val"))],
    );
    assert_eq!(out, "output \"lout\": diamond\noutput \"rout\": diamond\n");
}

#[test]
fn e2e_multiple_edb_same_type() {
    let out = shown(
        vec![
            resource("node", "a1", &[("val", word("alpha"))]),
            resource("node", "a2", &[("val", word("beta"))]),
        ],
        &[("out1", field("node", "a1", "val")), ("out2", field("node", "a2", "val"))],
    );
    assert_eq!(out, "output \"out1\": alpha\noutput \"out2\": beta\n");
}

#[test]
fn e2e_mutual_recursion_no_base() {
    let out = shown(
        vec![
            resource("a", "r", &[("link", field("b", "r", "link"))]),
            resource("b", "r", &[("link", field("a", "r", "link"))]),
        ],
        &[("result", field("a", "r", "link"))],
    );
    assert_eq!(out, "output \"result\": (empty)\n");
}

#[test]
fn e2e_cascade_same_type_edb_idb() {
    let out = shown(
        vec![
            resource("a", "base", &[("val", word("start"))]),
            resource("b", "mid", &[("val", field("a", "base", "val"))]),
            resource("a", "end", &[("val", field("b", "mid", "val"))]),
        ],
        &[("result", field("a", "end", "val"))],
    );
    assert_eq!(out, "output \"result\": start\n");
}

#[test]
fn e2e_self_reference() {
    let out = shown(
        vec![resource("loop", "r", &[("val", field("loop", "r", "val"))])],
        &[("result", field("loop", "r", "val"))],
    );
    assert_eq!(out, "output \"result\": (empty)\n");
}

#[test]
fn e2e_duplicate_output_rejected() {
    let text = refused(
        vec![resource("server", "w1", &[("ip", word("10.0.0.1"))])],
        &[("name", field("server", "w1", "ip")), ("name", field("server", "w1", "ip"))],
    );
    assert!(text.contains("duplicate output name"));
}

#[test]
fn e2e_unresolved_variable_output() {
    let text = refused(vec![], &[("result", named("undefined_var"))]);
    assert!(text.contains("unresolved") && text.contains("variable"));
}

#[test]
fn e2e_output_unknown_resource_type() {
    let text = refused(
        vec![resource("server", "w1", &[("ip", word("10.0.0.1"))])],
        &[("result", field("nonexistent", "w1", "ip"))],
    );
    assert!(text.contains("unknown") && text.contains("reference"));
}

#[test]
fn e2e_output_unknown_field() {
    let text = refused(
        vec![resource("server", "w1", &[("ip", word("10.0.0.1"))])],
        &[("result", field("server", "w1", "nonexistent_field"))],
    );
    assert!(text.contains("unknown") && text.contains("field"));
}

#[test]
fn e2e_empty_output_when_no_match() {
    let out = shown(
        vec![
            resource("source", "s1", &[("val", word("hello"))]),
            resource("derived", "d1", &[("val", field("source", "s2", "val"))]),
        ],
        &[("result", field("derived", "d1", "val"))],
    );
    assert_eq!(out, "output \"result\": (empty)\n");
}

#[test]
fn e2e_multiple_outputs_same_resource() {
    let out = shown(
        vec![resource(
            "server",
            "w1",
            &[("ip", word("10.0.0.1")), ("port", whole(8080)), ("region", word("us-west"))],
        )],
        &[
            ("ip", field("server", "w1", "ip")),
            ("port", field("server", "w1", "port")),
            ("region", field("server", "w1", "region")),
        ],
    );
    assert_eq!(
        out,
        "output \"ip\": 10.0.0.1\noutput \"port\": 8080\noutput \"region\": us-west\n"
    );
}

#[test]
fn e2e_duplicate_resource_rejected() {
    let text = refused(
        vec![
            resource("server", "web1", &[("ip", word("10.0.0.1"))]),
            resource("server", "web1", &[("ip", word("10.0.0.2"))]),
        ],
        &[("out", field("server", "web1", "ip"))],
    );
    assert!(text.contains("duplicate resource"));
}

#[test]
fn e2e_duplicate_resource_different_labels_allowed() {
    let out = shown(
        vec![
            resource("server", "web1", &[("ip", word("10.0.0.1"))]),
            resource("server", "web2", &[("ip", word("10.0.0.2"))]),
        ],
        &[("out1", field("server", "web1", "ip")), ("out2", field("server", "web2", "ip"))],
    );
    assert_eq!(out, "output \"out1\": 10.0.0.1\noutput \"out2\": 10.0.0.2\n");
}

const SAFE: [&str; 5] = ["a", "0", "some.text-1", "_", "w1"];

#[test]
fn prop_literal_string_roundtrip() {
    for value in SAFE {
        assert_eq!(shown(vec![], &[("out", word(value))]), format!("output \"out\": {}\n", value));
    }
}

#[test]
fn prop_literal_int_roundtrip() {
    for value in [0, 1, 99_999] {
        assert_eq!(shown(vec![], &[("out", whole(value))]), format!("output \"out\": {}\n", value));
    }
}

#[test]
fn prop_edb_string_roundtrip() {
    for value in SAFE {
        let out = shown(
            vec![resource("w", "w1", &[("attr", word(value))])],
            &[("out", field("w", "w1", "attr"))],
        );
        assert_eq!(out, format!("output \"out\": {}\n", value));
    }
}

#[test]
fn prop_idb_chain_roundtrip() {
    for value in SAFE {
        let out = shown(
            vec![
                resource("src", "s1", &[("data", word(value))]),
                resource("dst", "d1", &[("data", field("src", "s1", "data"))]),
            ],
            &[("out", field("dst", "d1", "data"))],
        );
        assert_eq!(out, format!("output \"out\": {}\n", value));
    }
}

#[test]
fn prop_variable_roundtrip() {
    for value in SAFE {
        let program = blocks(
            &[("v", value)],
            vec![resource("host", "h1", &[("data", named("v"))])],
            &[("out", field("host", "h1", "data"))],
        );
        assert_eq!(show(program).unwrap(), format!("output \"out\": {}\n", value));
    }
}

#[test]
fn prop_multiple_attrs_roundtrip() {
    for (a, b) in [("x", "y"), ("same", "same"), ("n1", "beta")] {
        let out = shown(
            vec![resource("node", "n1", &[("alpha", word(a)), ("beta", word(b))])],
            &[("outa", field("node", "n1", "alpha")), ("outb", field("node", "n1", "beta"))],
        );
        assert_eq!(out, format!("output \"outa\": {}\noutput \"outb\": {}\n", a, b));
    }
}

#[test]
fn blocks_that_refer_and_hold_values() {
    let out = shown(
        vec![
            resource("server", "w1", &[("ip", word("10.0.0.5")), ("port", whole(80))]),
            resource("host", "h1", &[("name", word("w1"))]),
            resource(
                "monitor",
                "m1",
                &[
                    ("mode", word("fast")),
                    ("ip", field("server", "w1", "ip")),
                    ("limit", whole(-3)),
                    ("port", field("server", "w1", "port")),
                    ("host", field("host", "h1", "name")),
                ],
            ),
        ],
        &[
            ("mode", field("monitor", "m1", "mode")),
            ("ip", field("monitor", "m1", "ip")),
            ("limit", field("monitor", "m1", "limit")),
            ("port", field("monitor", "m1", "port")),
            ("host", field("monitor", "m1", "host")),
        ],
    );
    assert_eq!(
        out,
        "output \"mode\": fast\noutput \"ip\": 10.0.0.5\noutput \"limit\": -3\n\
         output \"port\": 80\noutput \"host\": w1\n"
    );
}

#[test]
fn texts_in_rules_and_lines() {
    let text = |s: &str| AtomArg::Const(Const::Text(format!("\"{}\"", s)));
    let columns = |types: &[DataType]| -> Vec<Attribute> {
        types
            .iter()
            .map(|t| Attribute { name: "x".to_string(), data_type: *t })
            .collect()
    };
    let types = [DataType::String, DataType::String, DataType::Integer];
    let node = RelDecl { name: "node".to_string(), attributes: columns(&types), path: None };
    let func = RelDecl { name: "func".to_string(), attributes: columns(&types[1..]), path: None };
    let body = Atom::from_str(
        "node",
        vec![AtomArg::Var("File".to_string()), text("function_item"), AtomArg::Var("N".to_string())],
    );
    let program = Program::new(
        vec![node],
        vec![func],
        vec![rule(
            "func",
            vec![var("File"), var("N")],
            vec![
                Predicate::AtomPredicate(body),
                compare(
                    value("File"),
                    ComparisonOperator::NotEquals,
                    Arithmetic {
                        init: Factor::Const(Const::Text("\"b.rs\"".to_string())),
                        rest: vec![],
                    },
                ),
            ],
        )],
    );
    let mut table = StringTable::default();
    let coded = code_program(&program, &mut table);
    let content = b"a.rs,function_item,3\nb.rs,function_item,4\na.rs,identifier,5\n".to_vec();
    let rows =
        read_rows(&content, b',', &types_of(&coded.edbs()[0]), &mut table, 0, 1).unwrap();
    assert_eq!(rows.len(), 3);
    let result = run_all(&coded, &[("node", rows)]);
    let lines: Vec<String> = result["func"]
        .iter()
        .map(|row| decode_row(row, &types_of(&coded.idbs()[0]), &table))
        .collect();
    assert_eq!(lines, ["a.rs, 3"]);
}
