//! Programs made of blocks: facts, rules, and what is written of them.
use flowlog::compiler::emit::facts_content;
use flowlog::compiler::outputs::{show_file, show_tuples};
use flowlog::compiler::translate::{infer_data_type, value_to_i32};
use flowlog::compiler::{
    compile, decode_csv_line, decode_value, emit_datalog, to_datalog_var, write_facts,
    CompileResult, OutputInfo, StringTable,
};
use flowlog::hcl_types::{HclExpr, HclOutput, HclProgram, HclResource, HclValue, Reference};
use flowlog::ordered::Ordered;
use flowlog::parsing::decl::DataType;
use flowlog::parsing::rule::Predicate;
use flowlog::reference::{analyze_dependencies, resolve_variables, BlockKind};
use flowlog::text::{split_str, Render};

fn text(s: &str) -> HclExpr {
    HclExpr::Literal(HclValue::String(s.to_string()))
}

fn number(i: i32) -> HclExpr {
    HclExpr::Literal(HclValue::Integer(i))
}

fn refer(block_type: &str, block_label: &str, field: &str) -> HclExpr {
    HclExpr::Reference(Reference {
        block_type: block_type.to_string(),
        block_label: block_label.to_string(),
        field: field.to_string(),
    })
}

fn variable(name: &str) -> HclExpr {
    HclExpr::VarRef(name.to_string())
}

fn block(block_type: &str, label: &str, attributes: Vec<(&str, HclExpr)>) -> HclResource {
    let mut map: Ordered<HclExpr> = Ordered::new();
    for (name, value) in attributes {
        map.insert(name.to_string(), value);
    }
    HclResource { block_type: block_type.to_string(), label: label.to_string(), attributes: map }
}

fn program(variables: Vec<(&str, HclValue)>, resources: Vec<HclResource>) -> HclProgram {
    let mut map: Ordered<HclValue> = Ordered::new();
    for (name, value) in variables {
        map.insert(name.to_string(), value);
    }
    HclProgram { variables: map, resources, outputs: vec![] }
}

fn server() -> HclResource {
    block("server", "web1", vec![("ip", text("10.0.0.5")), ("dc", text("us-west"))])
}

fn monitor() -> HclResource {
    block("monitor", "m1", vec![("target_ip", refer("server", "web1", "ip"))])
}

fn refusal(program: HclProgram) -> String {
    match compile(program) {
        Ok(_) => panic!("the program was translated"),
        Err(text) => text,
    }
}

#[test]
fn test_compile_edb_only() {
    let result = compile(program(vec![], vec![server()])).unwrap();
    assert_eq!(result.program.edbs().len(), 1);
    assert_eq!(result.program.edbs()[0].name(), "server");
    assert_eq!(result.program.edbs()[0].arity(), 3);
    assert_eq!(result.program.idbs().len(), 0);
    assert_eq!(result.program.rules().len(), 0);
    assert_eq!(result.edb_facts.get("server").unwrap().len(), 1);
}

#[test]
fn test_compile_edb_and_idb() {
    let result = compile(program(vec![], vec![server(), monitor()])).unwrap();
    assert_eq!(result.program.edbs().len(), 1);
    assert_eq!(result.program.idbs().len(), 1);
    assert_eq!(result.program.rules().len(), 1);

    let rule = &result.program.rules()[0];
    assert_eq!(rule.head().name(), "monitor");
    assert_eq!(rule.rhs().len(), 1);
}

#[test]
fn test_variable_substitution() {
    let config = block("config", "main", vec![("limit", variable("threshold"))]);
    let result = compile(program(vec![("threshold", HclValue::Integer(80))], vec![config])).unwrap();
    assert_eq!(result.program.edbs().len(), 1);
    assert_eq!(result.edb_facts.get("config").unwrap().len(), 1);
    let tuple = &result.edb_facts.get("config").unwrap()[0];
    assert_eq!(tuple[1], 80);
}

#[test]
fn test_emit_datalog() {
    let result = compile(program(vec![], vec![server(), monitor()])).unwrap();
    let dl = emit_datalog(&result);
    assert!(dl.contains(".in"));
    assert!(dl.contains(".decl server(label: string, ip: string, dc: string)"));
    assert!(dl.contains(".printsize"));
    assert!(dl.contains(".decl monitor(label: string, target_ip: string)"));
    assert!(dl.contains("monitor"));
    assert!(dl.contains("server"));
}

#[test]
fn emitted_text_in_full() {
    let result = compile(program(vec![], vec![server(), monitor()])).unwrap();
    assert_eq!(
        emit_datalog(&result),
        ".in\n\
         .decl server(label: string, ip: string, dc: string)\n\
         \n\
         // server(\"web1\", \"10.0.0.5\", \"us-west\").\n\
         \n\
         .printsize\n\
         .decl monitor(label: string, target_ip: string)\n\
         \n\
         monitor(\"m1\", TargetIp) :- server(\"web1\", TargetIp, _).\n"
    );
    let nothing = compile(program(vec![], vec![])).unwrap();
    assert_eq!(emit_datalog(&nothing), "");
}

#[test]
fn rules_have_one_atom_for_each_block_that_is_referred_to() {
    let other = block("server", "web2", vec![("ip", text("10.0.0.6")), ("dc", text("eu"))]);
    let link = block(
        "link",
        "l",
        vec![
            ("a", refer("server", "web1", "ip")),
            ("b", refer("server", "web2", "ip")),
            ("c", refer("server", "web1", "dc")),
            ("d", refer("server", "web1", "dc")),
            ("e", number(3)),
        ],
    );
    let result = compile(program(vec![], vec![link, server(), other])).unwrap();
    let rule = &result.program.rules()[0];
    assert_eq!(
        rule.to_string(),
        "link(\"l\", A, B, C, D, 3) :- server(\"web1\", A, C), server(\"web2\", B, _)."
    );
    assert!(matches!(&rule.rhs()[0], Predicate::AtomPredicate(_)));
    // what is referred to is done first, and a fact for each of the two servers is there
    assert_eq!(result.analysis.topo_order[2], ("link".to_string(), "l".to_string()));
    assert_eq!(result.edb_facts.get("server").unwrap().len(), 2);
}

#[test]
fn blocks_that_cannot_be_translated() {
    let short = block("server", "web2", vec![("ip", text("10.0.0.6"))]);
    assert_eq!(
        refusal(program(vec![], vec![server(), short])),
        "resource server.web2 missing attribute 'dc'"
    );
    let open = block("config", "main", vec![("limit", variable("threshold"))]);
    assert_eq!(
        refusal(program(vec![], vec![open])),
        "EDB block config.main has non-literal value for 'limit'"
    );
    let mixed = block(
        "monitor",
        "m",
        vec![("target_ip", refer("server", "web1", "ip")), ("limit", variable("threshold"))],
    );
    assert_eq!(
        refusal(program(vec![], vec![server(), mixed])),
        "unresolved variable reference in monitor.m.limit"
    );
    assert_eq!(
        refusal(program(vec![], vec![monitor()])),
        "referenced type 'server' not found in schema"
    );
    let partial = block("monitor", "m2", vec![("other", refer("server", "web1", "ip"))]);
    assert_eq!(
        refusal(program(vec![], vec![server(), monitor(), partial])),
        "resource monitor.m1 missing attribute 'other'"
    );
}

#[test]
fn blocks_under_one_name_and_in_circles() {
    let first = block("a", "x", vec![("n", number(1))]);
    let second = block("a", "x", vec![("n", number(2))]);
    let other = block("a", "y", vec![("n", number(2))]);
    assert_eq!(
        refusal(program(vec![], vec![first, other, second])),
        "duplicate resource 'a.x'"
    );
    // blocks that refer to each other are done in the order in which they stand
    let one = block("a", "x", vec![("n", refer("b", "y", "m"))]);
    let two = block("b", "y", vec![("m", refer("a", "x", "n"))]);
    let result = compile(program(vec![], vec![one, two])).unwrap();
    assert_eq!(result.analysis.topo_order[0].0, "a");
    assert_eq!(result.program.rules().len(), 2);
}

#[test]
fn columns_have_the_type_of_the_value() {
    assert_eq!(infer_data_type(&number(3)), DataType::Integer);
    assert_eq!(infer_data_type(&text("a")), DataType::String);
    assert_eq!(infer_data_type(&HclExpr::Literal(HclValue::Bool(true))), DataType::Integer);
    assert_eq!(infer_data_type(&refer("a", "b", "c")), DataType::String);
    assert_eq!(infer_data_type(&variable("v")), DataType::String);
}

#[test]
fn values_are_numbers() {
    let mut table = StringTable::new();
    assert_eq!(value_to_i32(&HclValue::Integer(-7), &mut table), -7);
    assert_eq!(value_to_i32(&HclValue::Bool(true), &mut table), 1);
    assert_eq!(value_to_i32(&HclValue::Bool(false), &mut table), 0);
    assert_eq!(value_to_i32(&HclValue::String("a".to_string()), &mut table), 0);
    assert_eq!(value_to_i32(&HclValue::String("b".to_string()), &mut table), 1);
    assert_eq!(value_to_i32(&HclValue::String("a".to_string()), &mut table), 0);
}

#[test]
fn tables_are_empty_at_first() {
    assert_eq!(StringTable::default().decode(0), None);
    assert_eq!(StringTable::default().number("a"), 0);
}

#[test]
fn string_table_intern_then_decode() {
    let mut table = StringTable::new();
    let id = table.intern("us west");
    let other = table.intern("");
    assert_eq!(table.decode(id), Some("us west"));
    assert_eq!(table.decode(other), Some(""));
    assert_eq!(table.decode(-1), None);
    assert_eq!(table.decode(2), None);
}

#[test]
fn string_table_intern_idempotent() {
    let mut table = StringTable::new();
    let id = table.intern("a");
    assert_eq!(table.intern("a"), id);
    assert_eq!(table.intern("a"), 0);
}

#[test]
fn string_table_distinct_strings_distinct_ids() {
    let mut table = StringTable::new();
    assert_ne!(table.intern("a"), table.intern("b"));
}

#[test]
fn variables_are_named_by_words() {
    assert_eq!(to_datalog_var("target_ip"), "TargetIp");
    assert_eq!(to_datalog_var("dc"), "Dc");
    assert_eq!(to_datalog_var("a_1b"), "A1b");
    assert_eq!(to_datalog_var("_x__y_"), "XY");
    assert_eq!(to_datalog_var(""), "");
    assert_eq!(to_datalog_var("TargetIp"), "TargetIp");
    // characters that are not ASCII, one of them with an uppercase of two characters
    assert_eq!(to_datalog_var("\u{e4}rger_\u{df}a"), "\u{c4}rgerSSa");
}

const NAMES: [&str; 6] = ["a", "a_b", "a__b9", "z_", "target_ip", "dc"];

#[test]
fn datalog_var_non_empty() {
    for name in NAMES {
        assert!(!to_datalog_var(name).is_empty());
    }
}

#[test]
fn datalog_var_starts_uppercase() {
    for name in NAMES {
        assert!(to_datalog_var(name).chars().next().unwrap().is_uppercase());
    }
}

#[test]
fn datalog_var_no_underscores() {
    for name in NAMES {
        assert!(!to_datalog_var(name).contains('_'));
    }
}

#[test]
fn datalog_var_idempotent() {
    for name in NAMES {
        let once = to_datalog_var(name);
        assert_eq!(to_datalog_var(&once), once);
    }
}

fn given_blocks() -> Vec<HclResource> {
    vec![
        block("a0", "l0", vec![("x", number(i32::MIN)), ("y", text("some text"))]),
        block("b1", "l1", vec![("flag", HclExpr::Literal(HclValue::Bool(true)))]),
        block("c2", "l2", vec![("x", text("")), ("y", text("l0")), ("z", number(7))]),
    ]
}

#[test]
fn edb_only_program_all_edb() {
    let analysis = analyze_dependencies(&program(vec![], given_blocks()));
    assert_eq!(analysis.block_kinds.len(), 3);
    assert!(analysis.block_kinds.iter().all(|(_, kind)| *kind == BlockKind::Edb));
}

#[test]
fn mixed_program_classification() {
    let base = block("edb", "base", vec![("attr", text("v"))]);
    let derived = block("idb", "derived", vec![("attr", refer("edb", "base", "attr"))]);
    let analysis = analyze_dependencies(&program(vec![], vec![base, derived]));
    let kinds: Vec<BlockKind> = analysis.block_kinds.iter().map(|(_, kind)| *kind).collect();
    assert_eq!(kinds, [BlockKind::Edb, BlockKind::Idb]);
}

#[test]
fn topo_order_contains_all_blocks() {
    let prog = program(vec![], given_blocks());
    let analysis = analyze_dependencies(&prog);
    for resource in &prog.resources {
        let id = (resource.block_type.clone(), resource.label.clone());
        assert!(analysis.topo_order.contains(&id));
    }
    assert_eq!(analysis.topo_order.len(), prog.resources.len());
}

#[test]
fn resolve_variables_replaces_varrefs() {
    for value in [HclValue::Integer(3), HclValue::String("s".to_string()), HclValue::Bool(false)] {
        let b = block("test", "t0", vec![("attr", variable("v"))]);
        let mut prog = program(vec![("v", value)], vec![b]);
        resolve_variables(&mut prog);
        assert!(matches!(prog.resources[0].attributes.get("attr"), Some(HclExpr::Literal(_))));
    }
}

#[test]
fn resolve_variables_preserves_literals() {
    for value in [number(3), text("s"), HclExpr::Literal(HclValue::Bool(false))] {
        let mut prog = program(vec![], vec![block("test", "t0", vec![("attr", value)])]);
        resolve_variables(&mut prog);
        assert!(matches!(prog.resources[0].attributes.get("attr"), Some(HclExpr::Literal(_))));
    }
}

fn all_facts(result: &CompileResult) -> Vec<(String, Vec<Vec<i32>>)> {
    given_blocks()
        .iter()
        .map(|b| (b.block_type.clone(), result.edb_facts.get(&b.block_type).unwrap().clone()))
        .collect()
}

#[test]
fn compile_edb_fact_count() {
    let result = compile(program(vec![], given_blocks())).unwrap();
    let total: usize = all_facts(&result).iter().map(|(_, tuples)| tuples.len()).sum();
    assert_eq!(total, 3);
}

#[test]
fn compile_edb_tuple_arity() {
    let result = compile(program(vec![], given_blocks())).unwrap();
    let arities: Vec<usize> = all_facts(&result).iter().map(|(_, t)| t[0].len()).collect();
    assert_eq!(arities, [3, 2, 4]);
}

#[test]
fn compile_edb_first_element_is_label() {
    let result = compile(program(vec![], given_blocks())).unwrap();
    for (b, (_, tuples)) in given_blocks().iter().zip(all_facts(&result)) {
        assert_eq!(result.string_table.decode(tuples[0][0]), Some(b.label.as_str()));
    }
}

#[test]
fn write_facts_roundtrip() {
    let result = compile(program(vec![], given_blocks())).unwrap();
    let files = write_facts(&result.edb_facts);
    assert_eq!(files.len(), 3);
    for ((name, content), (block_type, tuples)) in files.iter().zip(all_facts(&result)) {
        assert_eq!(*name, format!("{}.facts", block_type));
        let read: Vec<Vec<i32>> = content
            .lines()
            .map(|line| line.split('\t').map(|v| v.parse().unwrap()).collect())
            .collect();
        assert_eq!(read, tuples);
    }
}

#[test]
fn blocks_are_given_or_derived() {
    let prog = program(vec![], vec![server(), monitor()]);
    let analysis = analyze_dependencies(&prog);
    assert_eq!(analysis.block_kinds.len(), 2);
    assert_eq!(analysis.block_kinds[0].1, BlockKind::Edb);
    assert_eq!(analysis.block_kinds[1].1, BlockKind::Idb);
    assert_eq!(analysis.topo_order.len(), 2);
}

#[test]
fn references_come_first() {
    let chain = vec![
        block("c", "z", vec![("v", refer("b", "y", "v"))]),
        block("b", "y", vec![("v", refer("a", "x", "v"))]),
        block("a", "x", vec![("v", number(1))]),
    ];
    let analysis = analyze_dependencies(&program(vec![], chain));
    let names: Vec<&str> = analysis.topo_order.iter().map(|id| id.0.as_str()).collect();
    assert_eq!(names, vec!["a", "b", "c"]);
}

#[test]
fn variables_are_put_in() {
    let b = block(
        "test",
        "t0",
        vec![("attr", variable("v")), ("other", variable("w")), ("lit", number(4))],
    );
    let mut prog = program(vec![("v", HclValue::Bool(true))], vec![b]);
    resolve_variables(&mut prog);
    let attributes = &prog.resources[0].attributes;
    assert!(matches!(attributes.get("attr").unwrap(), HclExpr::Literal(HclValue::Bool(true))));
    assert!(matches!(attributes.get("other").unwrap(), HclExpr::VarRef(_)));
    assert!(matches!(attributes.get("lit").unwrap(), HclExpr::Literal(HclValue::Integer(4))));
}

fn some_facts() -> CompileResult {
    compile(program(
        vec![],
        vec![
            block("a0", "l0", vec![("x", number(-5)), ("y", text("t"))]),
            block("b1", "l1", vec![("x", HclExpr::Literal(HclValue::Bool(true)))]),
            block("c2", "l2", vec![("p", text("l0")), ("q", number(i32::MAX)), ("r", number(0))]),
        ],
    ))
    .unwrap()
}

#[test]
fn facts_of_given_blocks() {
    let result = some_facts();
    let mut total = 0;
    for i in 0..result.edb_facts.len() {
        total += result.edb_facts.value_at(i).len();
    }
    assert_eq!(total, 3);
    for (name, label, arity) in [("a0", "l0", 3), ("b1", "l1", 2), ("c2", "l2", 4)] {
        let tuple = &result.edb_facts.get(name).unwrap()[0];
        assert_eq!(tuple.len(), arity);
        assert_eq!(result.string_table.decode(tuple[0]), Some(label));
    }
    // the text "l0" has one number, as a label and as a value
    assert_eq!(result.edb_facts.get("c2").unwrap()[0][1], result.edb_facts.get("a0").unwrap()[0][0]);
}

#[test]
fn facts_are_found_again_in_files() {
    let result = some_facts();
    let files = write_facts(&result.edb_facts);
    assert_eq!(files.len(), 3);
    assert_eq!(files[0], ("a0.facts".to_string(), "0\t-5\t1\n".to_string()));
    for (name, content) in &files {
        let relation = &name[..name.len() - ".facts".len()];
        let facts = result.edb_facts.get(relation).unwrap();
        let lines: Vec<&str> = content.lines().collect();
        assert_eq!(lines.len(), facts.len());
        for (line, tuple) in lines.iter().zip(facts.iter()) {
            let values: Vec<i32> = line.split('\t').map(|v| v.parse().unwrap()).collect();
            assert_eq!(&values, tuple);
        }
    }
    assert_eq!(facts_content(&vec![vec![1, 2], vec![i32::MIN]]), "1\t2\n-2147483648\n");
    assert_eq!(facts_content(&vec![]), "");
    assert_eq!(split_str("1\t2", '\t'), vec!["1", "2"]);
    assert_eq!(split_str("", '\t'), vec![""]);
}

#[test]
fn values_are_decoded_by_their_columns() {
    let mut table = StringTable::new();
    table.intern("zero");
    table.intern("one");
    let types = vec![DataType::String, DataType::Integer];
    assert_eq!(decode_value(1, &types, 0, &table), "one");
    assert_eq!(decode_value(1, &types, 1, &table), "1");
    assert_eq!(decode_value(1, &types, 2, &table), "1");
    assert_eq!(decode_value(9, &types, 0, &table), "9");
    assert_eq!(decode_csv_line("1, 1", &types, &table), vec!["one", "1"]);
    // white space at the ends is dropped, and what is no number counts as zero
    assert_eq!(decode_csv_line(" 1\u{a0}, x", &types, &table), vec!["one", "0"]);
    assert_eq!(decode_csv_line("1,1", &types, &table), vec!["zero"]);
    assert_eq!(decode_csv_line("", &types, &table), vec!["zero"]);
    assert_eq!(decode_csv_line("0, 2, ", &types, &table), vec!["zero", "2", "0"]);
    assert_eq!(decode_csv_line("0, , 3", &types, &table), vec!["zero", "0", "3"]);
}

#[test]
fn outputs_are_shown() {
    let mut table = StringTable::new();
    table.intern("zero");
    table.intern("one");
    let single = OutputInfo {
        name: "o".to_string(),
        relation_name: "output_o".to_string(),
        column_types: vec![DataType::String],
    };
    assert_eq!(show_file(&single, None, &table), "output \"o\": (no results)\n");
    assert_eq!(show_file(&single, Some("\n\r\n"), &table), "output \"o\": (empty)\n");
    assert_eq!(show_file(&single, Some("1\n"), &table), "output \"o\": one\n");
    assert_eq!(show_file(&single, Some("1\r\n0"), &table), "output \"o\":\n  one\n  zero\n");
    let double = OutputInfo {
        name: "p".to_string(),
        relation_name: "output_p".to_string(),
        column_types: vec![DataType::String, DataType::Integer],
    };
    assert_eq!(show_file(&double, Some("1, 1\n"), &table), "output \"p\":\n  one, 1\n");
    assert_eq!(
        show_tuples(&double, &vec![vec![0, 5], vec![1, 6]], &table),
        "output \"p\": zero, 5\noutput \"p\": one, 6\n"
    );
    assert_eq!(show_tuples(&double, &vec![], &table), "");
}

fn asking(
    variables: Vec<(&str, HclValue)>,
    resources: Vec<HclResource>,
    outputs: Vec<(&str, HclExpr)>,
) -> HclProgram {
    let outputs = outputs
        .into_iter()
        .map(|(name, value)| HclOutput { name: name.to_string(), value })
        .collect();
    HclProgram { outputs, ..program(variables, resources) }
}

#[test]
fn outputs_that_are_written_down() {
    let result = compile(asking(
        vec![("limit", HclValue::Integer(7))],
        vec![],
        vec![("greeting", text("hello")), ("port", number(8080)), ("most", variable("limit"))],
    ))
    .unwrap();
    assert_eq!(result.outputs.len(), 3);
    assert_eq!(result.program.rules().len(), 0);
    let shown: Vec<String> = result
        .outputs
        .iter()
        .map(|info| {
            let facts = result.edb_facts.get(&info.relation_name).unwrap();
            show_tuples(info, facts, &result.string_table)
        })
        .collect();
    assert_eq!(
        shown,
        ["output \"greeting\": hello\n", "output \"port\": 8080\n", "output \"most\": 7\n"]
    );
    assert_eq!(result.outputs[0].relation_name, "hcl_output_greeting");
    assert_eq!(result.outputs[0].column_types, [DataType::String]);
    assert_eq!(result.outputs[1].column_types, [DataType::Integer]);
}

#[test]
fn outputs_that_refer_to_blocks() {
    let result = compile(asking(
        vec![],
        vec![server(), monitor(), block("limit", "l", vec![("most", number(3))])],
        vec![
            ("server_ip", refer("server", "web1", "ip")),
            ("monitored_ip", refer("monitor", "m1", "target_ip")),
            ("most", refer("limit", "l", "most")),
        ],
    ))
    .unwrap();
    let names: Vec<&str> = result.outputs.iter().map(|info| info.name.as_str()).collect();
    assert_eq!(names, ["server_ip", "monitored_ip", "most"]);
    let rules: Vec<String> = result.program.rules().iter().map(|rule| rule.to_string()).collect();
    assert_eq!(rules.len(), 4);
    assert_eq!(rules[1], "hcl_output_server_ip(Ip) :- server(\"web1\", Ip, _).");
    assert_eq!(rules[2], "hcl_output_monitored_ip(TargetIp) :- monitor(\"m1\", TargetIp).");
    assert_eq!(rules[3], "hcl_output_most(Most) :- limit(\"l\", Most).");
    assert_eq!(result.outputs[0].column_types, [DataType::String]);
    assert_eq!(result.outputs[2].column_types, [DataType::Integer]);
    assert!(emit_datalog(&result).contains("hcl_output_server_ip"));
    let idbs: Vec<&str> = result.program.idbs().iter().map(|decl| decl.name()).collect();
    assert_eq!(
        idbs,
        ["monitor", "hcl_output_server_ip", "hcl_output_monitored_ip", "hcl_output_most"]
    );
}

#[test]
fn heads_hold_what_is_written_down() {
    let mixed = block(
        "monitor",
        "m1",
        vec![
            ("target_ip", refer("server", "web1", "ip")),
            ("mode", text("fast")),
            ("limit", number(-3)),
            ("on", HclExpr::Literal(HclValue::Bool(true))),
        ],
    );
    let result = compile(program(vec![], vec![server(), mixed])).unwrap();
    assert_eq!(
        result.program.rules()[0].to_string(),
        "monitor(\"m1\", TargetIp, \"fast\", -3, 1) :- server(\"web1\", TargetIp, _)."
    );
}

#[test]
fn outputs_have_the_type_that_they_come_to() {
    let result = compile(asking(
        vec![],
        vec![
            block("a", "x", vec![("n", number(5))]),
            block("b", "y", vec![("n", refer("a", "x", "n"))]),
            block("c", "z", vec![("n", refer("c", "z", "n"))]),
        ],
        vec![("n", refer("b", "y", "n")), ("circle", refer("c", "z", "n"))],
    ))
    .unwrap();
    assert_eq!(result.outputs[0].column_types, [DataType::Integer]);
    assert_eq!(result.outputs[1].column_types, [DataType::String]);
}

#[test]
fn outputs_that_cannot_be_translated() {
    assert_eq!(
        refusal(asking(vec![], vec![], vec![("a", number(1)), ("a", number(2))])),
        "duplicate output name 'a'"
    );
    assert_eq!(
        refusal(asking(vec![], vec![server()], vec![("a", refer("client", "c", "ip"))])),
        "output 'a' has a reference to unknown type 'client'"
    );
    assert_eq!(
        refusal(asking(vec![], vec![server()], vec![("a", refer("server", "web1", "port"))])),
        "output 'a' has a reference to unknown field 'port' of 'server'"
    );
    assert_eq!(
        refusal(asking(vec![], vec![server()], vec![("a", variable("nowhere"))])),
        "unresolved variable reference 'nowhere' in output 'a'"
    );
}

#[test]
fn names_keep_their_order() {
    let mut map: Ordered<HclValue> = Ordered::new();
    for (name, value) in [("b", 1), ("a", 2), ("c", 3), ("a", 4)] {
        map.insert(name.to_string(), HclValue::Integer(value));
    }
    assert_eq!(map.len(), 3);
    assert_eq!(map.name_at(0), "b");
    assert_eq!(map.name_at(1), "a");
    assert_eq!(map.name_at(2), "c");
    assert!(matches!(map.get("a"), Some(HclValue::Integer(4))));
    assert!(matches!(map.value_at(1), HclValue::Integer(4)));
    assert!(map.get("d").is_none());
}
