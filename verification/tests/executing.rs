//! What steps do to rows, arguments of runs, and what is shown.
use flowlog::catalog::arithmetic::{PlacedArithmetic, PlacedFactor};
use flowlog::catalog::compare::PlacedComparison;
use flowlog::debugging::display_info;
use flowlog::executing::aggregation::{
    aggregate_ints, aggregation_merge_kv, aggregation_reduce_logic, aggregation_separate_kv,
};
use flowlog::executing::arg::{csv_path, fact_path, file_stem, size_path, time_path, Args};
use flowlog::executing::compare::{
    arithmetic_ints, arithmetic_row, compare_ints, compare_row, factor_row, jn_arithmetic,
    jn_compare, jn_compare_extractor, jn_factor, try_arithmetic_ints,
};
use flowlog::executing::dataflow::is_sideways_name;
use flowlog::executing::jn::{
    aj_flatten, cartesian_logic, jn_deconstructor, jn_logic, v1_aj_flatten, v1_jn_logic,
    v2_jn_logic, Reach,
};
use flowlog::executing::map::{row_kv, row_row};
use flowlog::parsing::aggregation::AggregationOperator;
use flowlog::parsing::arithmetic::ArithmeticOperator;
use flowlog::parsing::compare::ComparisonOperator;
use flowlog::parsing::decl::RelDecl;
use flowlog::parsing::rule::Const;
use flowlog::planning::arguments::TransformationArgument;
use flowlog::planning::constraints::BaseConstraints;
use flowlog::planning::flow::TransformationFlow;
use flowlog::reading::row::{Array, FatRow, Row};

#[test]
fn agg_empty_count_sum_zero() {
    let empty: Vec<i64> = vec![];
    assert_eq!(aggregate_ints(&empty, &AggregationOperator::Count), Some(0));
    assert_eq!(aggregate_ints(&empty, &AggregationOperator::Sum), Some(0));
}

#[test]
fn agg_empty_min_max_none() {
    let empty: Vec<i64> = vec![];
    assert_eq!(aggregate_ints(&empty, &AggregationOperator::Min), None);
    assert_eq!(aggregate_ints(&empty, &AggregationOperator::Max), None);
}

const OPERATORS: [AggregationOperator; 4] = [
    AggregationOperator::Count,
    AggregationOperator::Sum,
    AggregationOperator::Min,
    AggregationOperator::Max,
];

#[test]
fn values_are_aggregated() {
    let values = vec![4, -9, 4, i64::MAX, 0];
    assert_eq!(aggregate_ints(&values, &AggregationOperator::Count), Some(5));
    assert_eq!(aggregate_ints(&values, &AggregationOperator::Min), Some(-9));
    assert_eq!(aggregate_ints(&values, &AggregationOperator::Max), Some(i64::MAX));
    // a sum that is too large wraps around
    let sum = 4i64.wrapping_sub(9).wrapping_add(4).wrapping_add(i64::MAX);
    assert_eq!(aggregate_ints(&values, &AggregationOperator::Sum), Some(sum));
    assert_eq!(aggregate_ints(&vec![i64::MAX, 1], &AggregationOperator::Sum), Some(i64::MIN));
    for op in OPERATORS {
        let mut reversed = values.clone();
        reversed.reverse();
        assert_eq!(aggregate_ints(&values, &op), aggregate_ints(&reversed, &op));
    }
    for x in [i64::MIN, -1, 0, 7] {
        assert_eq!(aggregate_ints(&vec![x], &AggregationOperator::Count), Some(1));
        for op in [AggregationOperator::Sum, AggregationOperator::Min, AggregationOperator::Max] {
            assert_eq!(aggregate_ints(&vec![x], &op), Some(x));
        }
    }
}

fn row(values: &[i64]) -> FatRow {
    FatRow { values: values.to_vec() }
}

#[test]
fn rows_are_aggregated() {
    let (key, value) = aggregation_separate_kv(&row(&[1, 2, 3]));
    assert_eq!((key.values.clone(), value.values.clone()), (vec![1, 2], vec![3]));
    assert_eq!(aggregation_merge_kv(&key, &value).values, vec![1, 2, 3]);
    let input = vec![row(&[5]), row(&[2])];
    let least = aggregation_reduce_logic(&AggregationOperator::Min, &input).unwrap();
    assert_eq!(least.values, vec![2]);
    let none: Vec<FatRow> = vec![];
    assert!(aggregation_reduce_logic(&AggregationOperator::Max, &none).is_none());
    let mut small: Row = Row::new();
    small.push(8);
    let (key, value) = aggregation_separate_kv(&small);
    assert_eq!((key.arity(), value.column(0)), (0, 8));
}

#[test]
fn numbers_are_compared() {
    let cases = [
        (ComparisonOperator::Equals, [false, true, false]),
        (ComparisonOperator::NotEquals, [true, false, true]),
        (ComparisonOperator::GreaterThan, [false, false, true]),
        (ComparisonOperator::GreaterEqualThan, [false, true, true]),
        (ComparisonOperator::LessThan, [true, false, false]),
        (ComparisonOperator::LessEqualThan, [true, true, false]),
    ];
    for (op, expected) in cases {
        for (x, answer) in [-1, 0, 1].iter().zip(expected) {
            assert_eq!(compare_ints(*x, &op, 0), answer);
        }
    }
}

#[test]
fn expressions_are_worked_out_from_left_to_right() {
    use_operators();
    let rest = vec![
        (ArithmeticOperator::Minus, 2),
        (ArithmeticOperator::Multiply, 5),
        (ArithmeticOperator::Modulo, 4),
    ];
    assert_eq!(arithmetic_ints(9, &rest), 3);
    assert_eq!(arithmetic_ints(-7, &vec![(ArithmeticOperator::Divide, 2)]), -3);
    assert_eq!(arithmetic_ints(-7, &vec![(ArithmeticOperator::Modulo, 2)]), -1);
    assert_eq!(arithmetic_ints(7, &vec![(ArithmeticOperator::Divide, -2)]), -3);
    assert_eq!(try_arithmetic_ints(1, &vec![(ArithmeticOperator::Divide, 0)]), None);
    assert_eq!(try_arithmetic_ints(1, &vec![(ArithmeticOperator::Modulo, 0)]), None);
    assert_eq!(try_arithmetic_ints(i64::MAX, &vec![(ArithmeticOperator::Plus, 1)]), None);
    assert_eq!(try_arithmetic_ints(i64::MIN, &vec![(ArithmeticOperator::Divide, -1)]), None);
    assert_eq!(try_arithmetic_ints(6, &vec![]), Some(6));
}

fn use_operators() {
    for (x, y) in [(3, 4), (-5, 11), (0, 0)] {
        let plus = |a, b| arithmetic_ints(a, &vec![(ArithmeticOperator::Plus, b)]);
        let times = |a, b| arithmetic_ints(a, &vec![(ArithmeticOperator::Multiply, b)]);
        assert_eq!(plus(x, y), plus(y, x));
        assert_eq!(times(x, y), times(y, x));
        assert_eq!(arithmetic_ints(plus(x, y), &vec![(ArithmeticOperator::Minus, y)]), x);
    }
}

fn kv(id: usize) -> TransformationArgument {
    TransformationArgument::KV((true, id))
}

fn jn(right: bool, value: bool, id: usize) -> TransformationArgument {
    TransformationArgument::Jn((right, value, id))
}

fn place(argument: TransformationArgument) -> PlacedArithmetic<TransformationArgument> {
    PlacedArithmetic { init: PlacedFactor::Var(argument), rest: vec![] }
}

fn less(
    left: TransformationArgument,
    right: TransformationArgument,
) -> PlacedComparison<TransformationArgument> {
    PlacedComparison {
        left: place(left),
        operator: ComparisonOperator::LessThan,
        right: place(right),
    }
}

#[test]
fn conditions_on_rows() {
    let values = row(&[4, 9]);
    assert_eq!(factor_row(&values, &PlacedFactor::Var(kv(1))), 9);
    assert_eq!(factor_row(&values, &PlacedFactor::Const(Const::Integer(-2))), -2);
    let sum = PlacedArithmetic {
        init: PlacedFactor::Var(kv(0)),
        rest: vec![(ArithmeticOperator::Plus, PlacedFactor::Var(kv(1)))],
    };
    assert_eq!(arithmetic_row(&values, &sum), 13);
    assert!(compare_row(&values, &less(kv(0), kv(1))));
    assert!(!compare_row(&values, &less(kv(1), kv(0))));
    let (k, l, r) = (row(&[1]), row(&[2]), row(&[3]));
    let (k, l, r) = (Some(&k), Some(&l), Some(&r));
    assert_eq!(jn_compare_extractor(k, l, r, &(false, false, 0)), 1);
    assert_eq!(jn_compare_extractor(k, l, r, &(false, true, 0)), 2);
    assert_eq!(jn_compare_extractor(k, l, r, &(true, true, 0)), 3);
    assert_eq!(jn_factor(k, l, r, &PlacedFactor::Var(jn(true, true, 0))), 3);
    assert_eq!(jn_arithmetic(k, l, r, &place(jn(false, true, 0))), 2);
    assert!(jn_compare(k, l, r, &less(jn(false, true, 0), jn(true, true, 0))));
}

fn flow(
    key: Vec<TransformationArgument>,
    value: Vec<TransformationArgument>,
    consts: Vec<(TransformationArgument, Const)>,
    aliases: Vec<(TransformationArgument, TransformationArgument)>,
    compares: Vec<PlacedComparison<TransformationArgument>>,
) -> TransformationFlow {
    TransformationFlow::KVToKV {
        key,
        value,
        constraints: BaseConstraints::new(consts, aliases),
        compares,
    }
}

#[test]
fn steps_on_rows() {
    let turned = flow(vec![kv(1)], vec![kv(0)], vec![], vec![], vec![]);
    let (key, value) = row_kv(&turned, &row(&[7, 8])).unwrap().unwrap();
    assert_eq!((key.values, value.values), (vec![8], vec![7]));
    assert_eq!(row_row(&turned, &row(&[7, 8])).unwrap().unwrap().values, vec![8, 7]);
    let constant = flow(vec![], vec![kv(1)], vec![(kv(0), Const::Integer(7))], vec![], vec![]);
    assert_eq!(row_row(&constant, &row(&[7, 8])).unwrap().unwrap().values, vec![8]);
    assert!(row_row(&constant, &row(&[6, 8])).unwrap().is_none());
    let equal = flow(vec![], vec![kv(0)], vec![], vec![(kv(0), kv(1))], vec![]);
    assert!(row_row(&equal, &row(&[5, 5])).unwrap().is_some());
    assert!(row_row(&equal, &row(&[5, 6])).unwrap().is_none());
    let ordered = flow(vec![], vec![kv(0)], vec![], vec![], vec![less(kv(0), kv(1))]);
    assert!(row_row(&ordered, &row(&[5, 6])).unwrap().is_some());
    assert!(row_row(&ordered, &row(&[6, 5])).unwrap().is_none());
    // a column that is not there, and a constant that is no number
    assert!(row_row(&ordered, &row(&[6])).is_none());
    let text = flow(
        vec![],
        vec![kv(0)],
        vec![(kv(0), Const::Text("\"a\"".to_string()))],
        vec![],
        vec![],
    );
    assert!(row_row(&text, &row(&[6])).is_none());
}

#[test]
fn a_step_that_does_nothing() {
    let same = flow(vec![], vec![kv(0), kv(1)], vec![], vec![], vec![]);
    assert_eq!(row_row(&same, &row(&[7, 8])).unwrap().unwrap().values, vec![7, 8]);
    let as_key = flow(vec![kv(0), kv(1)], vec![], vec![], vec![], vec![]);
    let (key, value) = row_kv(&as_key, &row(&[7, 8])).unwrap().unwrap();
    assert_eq!((key.values, value.values), (vec![7, 8], vec![]));
}

#[test]
fn rows_that_meet() {
    let all = TransformationFlow::JnToKV {
        key: vec![jn(true, true, 0)],
        value: vec![jn(false, false, 0), jn(false, true, 0)],
        compares: vec![less(jn(false, true, 0), jn(true, true, 0))],
    };
    let (k, l, r) = (row(&[1]), row(&[2]), row(&[3]));
    let out = jn_logic(&all, &k, &l, &r).unwrap().unwrap();
    assert_eq!(out.values, vec![3, 1, 2]);
    assert!(jn_logic(&all, &k, &r, &l).unwrap().is_none());
    // with both sides exchanged the same comes out
    let turned = jn_logic(&all.jn_flip(), &k, &r, &l).unwrap().unwrap();
    assert_eq!(turned.values, out.values);
    let product = TransformationFlow::JnToKV {
        key: vec![],
        value: vec![jn(true, true, 0), jn(false, true, 0)],
        compares: vec![],
    };
    assert_eq!(cartesian_logic(&product, &l, &r).unwrap().unwrap().values, vec![3, 2]);
    let left = TransformationFlow::JnToKV {
        key: vec![jn(false, true, 0)],
        value: vec![jn(false, false, 0)],
        compares: vec![],
    };
    assert_eq!(v1_jn_logic(&left, &k, &l).unwrap().unwrap().values, vec![2, 1]);
    assert_eq!(aj_flatten(&left, &k, &l).unwrap().values, vec![2, 1]);
    let keys = TransformationFlow::JnToKV {
        key: vec![],
        value: vec![jn(false, false, 0)],
        compares: vec![],
    };
    assert_eq!(v2_jn_logic(&keys, &k).unwrap().unwrap().values, vec![1]);
    assert_eq!(v1_aj_flatten(&keys, &k).unwrap().values, vec![1]);
    assert_eq!(jn_deconstructor(&all, Reach::Values).len(), 2);
    assert_eq!(jn_deconstructor(&all, Reach::All).len(), 3);
    assert_eq!(jn_deconstructor(&all, Reach::Key).len(), 1);
}

#[test]
fn arguments_of_runs() {
    let args = Args::new(
        "examples/tc.dl".to_string(),
        "facts/big".to_string(),
        Some("out".to_string()),
        "\t".to_string(),
        4,
    );
    assert_eq!(args.program(), "examples/tc.dl");
    assert_eq!(args.program_name(), "tc");
    assert_eq!(args.facts(), "facts/big");
    assert_eq!(args.csvs(), Some("out".to_string()));
    assert_eq!(args.delimiter(), "\t");
    assert!(!args.fat_mode() && !args.no_sharing());
    assert_eq!(args.timely_args(), vec!["-w", "4"]);
    assert_eq!(args.opt_level(), None);
    let unnamed = Args::new("..".to_string(), String::new(), None, ",".to_string(), 1);
    assert_eq!(unnamed.program_name(), "unknown_program");
}

#[test]
fn stems_of_paths() {
    for path in ["a/b.dl", "b.dl", "b", ".hidden", "a/b.c.d", "a/b.dl/", "a/.", "..", "/", "", "a/.."] {
        let expected = std::path::Path::new(path)
            .file_stem()
            .and_then(|stem| stem.to_str())
            .map(|stem| stem.to_string());
        assert_eq!(file_stem(path), expected, "{}", path);
    }
}

#[test]
fn paths_of_runs() {
    let mut decl = RelDecl { name: "edge".to_string(), attributes: vec![], path: None };
    assert_eq!(fact_path("facts", &decl), "facts/edge.facts");
    decl.path = Some("e.csv".to_string());
    assert_eq!(fact_path("facts", &decl), "facts/e.csv");
    assert_eq!(csv_path("out", "tc"), "out/csvs/tc.csv");
    assert_eq!(size_path("out"), "out/csvs/size.txt");
    assert_eq!(time_path("tc", "big", Some(3)), "result/time/tc_big_3.txt");
    assert_eq!(time_path("tc", "big", None), "result/time/tc_big_none.txt");
}

#[test]
fn names_made_by_rewriting() {
    assert!(is_sideways_name("r_sip3f0"));
    assert!(!is_sideways_name("sip"));
    assert!(!is_sideways_name("r_si"));
}

#[test]
fn titles_of_what_is_shown() {
    assert_eq!(display_info("", false, "x"), "x\n");
    assert_eq!(display_info("abc", false, "x"), "\n---\nabc\n---\nx\n");
    let line = "-".repeat(32);
    assert_eq!(display_info("abc", true, "x"), format!("\n{} abc {}\nx\n", line, line));
    // a title is framed by as many dashes as it has bytes
    assert_eq!(display_info("\u{e4}", false, "x"), "\n--\n\u{e4}\n--\nx\n");
}
