//! Least values, times, rows and lines.
use flowlog::reading::config::CodegenLimits;
use flowlog::reading::epoch::Epoch;
use flowlog::reading::inspect::{merge_parts, part_path, size_prefix};
use flowlog::compiler::StringTable;
use flowlog::parsing::decl::{Attribute, DataType, RelDecl};
use flowlog::reading::interner::{decode_row, types_of};
use flowlog::reading::reader::{parse_number, read_line, read_rows, reader, split, Line};
use flowlog::reading::row::{append_columns, row_chop, row_to_string, Array, FatRow, Row};
use flowlog::reading::semiring::Min;

#[test]
fn test_min_semigroup() {
    let mut a = Min::new(5);
    let b = Min::new(3);
    a.plus_equals(&b);
    assert_eq!(a.value, 3);

    let mut inf = Min::infinity();
    inf.plus_equals(&Min::new(42));
    assert_eq!(inf.value, 42);
}

#[test]
fn test_min_zero() {
    let zero = Min::zero();
    assert!(zero.is_zero());
    assert!(zero.is_infinity());
    assert_eq!(zero.value, u32::MAX);
}

#[test]
fn least_values_in_any_order() {
    let plus = |x: u32, y: u32| {
        let mut sum = Min::new(x);
        sum.plus_equals(&Min::new(y));
        sum.value
    };
    for (x, y, z) in [(1, 2, 3), (7, 7, 0), (u32::MAX, 4, 9)] {
        assert_eq!(plus(x, y), plus(y, x));
        assert_eq!(plus(plus(x, y), z), plus(x, plus(y, z)));
        assert_eq!(plus(x, x), x);
        assert_eq!(plus(x, Min::zero().value), x);
    }
    assert_eq!(Min::new(6).multiply(&-3).value, 6);
    assert_eq!(Min::from(8).value, 8);
    assert!(!Min::new(0).is_zero());
    assert!(Min::new(1) < Min::new(2));
    assert_eq!(Min::new(1).max(Min::new(2)).value, 2);
}

#[test]
fn times_are_ordered() {
    let (a, b) = (Epoch(3), Epoch(5));
    assert!(a.less_than(&b));
    assert!(!a.less_than(&a));
    assert!(a.less_equal(&a));
    assert!(!b.less_equal(&a));
    assert_eq!(a.join(&b).0, 5);
    assert_eq!(a.meet(&b).0, 3);
    assert_eq!(Epoch::minimum().0, 0);
    assert_eq!(Epoch::default().0, 0);
    assert_eq!(a.results_in(&b).unwrap().0, 8);
    assert!(Epoch(u64::MAX).results_in(&Epoch(1)).is_none());
    assert_eq!(a.followed_by(&b).unwrap().0, 8);
    assert!(Epoch(u64::MAX).followed_by(&Epoch(1)).is_none());
    assert_eq!(b.to_string(), "5");
}

fn filled<A: Array>(values: &[i64]) -> A {
    let mut row = A::empty_row();
    for v in values {
        row.push(*v);
    }
    row
}

fn columns<A: Array>(row: &A) -> Vec<i64> {
    let mut values = Vec::new();
    for i in 0..row.arity() {
        values.push(row.column(i));
    }
    values
}

#[test]
fn rows_keep_their_columns() {
    let row: Row = filled(&[4, -1, i64::MAX]);
    assert_eq!(row.arity(), 3);
    assert_eq!(columns(&row), vec![4, -1, i64::MAX]);
    assert_eq!(row_to_string(&row), "4, -1, 9223372036854775807");
    assert_eq!(columns(&row.clone()), vec![4, -1, i64::MAX]);
    let fat: FatRow = filled(&[1, 2, 3, 4, 5, 6, 7, 8, 9, 10]);
    assert_eq!(fat.arity(), 10);
    assert_eq!(fat.column(9), 10);
    assert_eq!(columns(&fat.clone()).len(), 10);
    assert_eq!(row_to_string(&FatRow::new()), "");
    assert_eq!(Row::new().arity(), 0);
}

#[test]
fn rows_are_cut_and_put_together() {
    let row: Row = filled(&[1, 2, 3, 4]);
    let (key, value) = row_chop(&row, 1);
    assert_eq!(columns(&key), vec![1]);
    assert_eq!(columns(&value), vec![2, 3, 4]);
    let mut out: Row = filled(&[9]);
    append_columns(&mut out, &row, 1, 3);
    assert_eq!(columns(&out), vec![9, 2, 3]);
    let (all, none) = row_chop(&row, 4);
    assert_eq!(columns(&all).len(), 4);
    assert_eq!(none.arity(), 0);
}

fn bytes(s: &str) -> Vec<u8> {
    s.as_bytes().to_vec()
}

#[test]
fn numbers_in_lines() {
    assert_eq!(parse_number(&bytes("42")), Some(42));
    assert_eq!(parse_number(&bytes("-42")), Some(-42));
    assert_eq!(parse_number(&bytes("+7")), Some(7));
    assert_eq!(parse_number(&bytes("")), None);
    assert_eq!(parse_number(&bytes("-")), None);
    assert_eq!(parse_number(&bytes("4x")), None);
    assert_eq!(parse_number(&bytes("9223372036854775807")), Some(i64::MAX));
    assert_eq!(parse_number(&bytes("-9223372036854775808")), Some(i64::MIN));
    assert_eq!(parse_number(&bytes("9223372036854775808")), None);
    assert_eq!(split(&bytes("1\t\t2"), b'\t'), vec![bytes("1"), bytes(""), bytes("2")]);
}

#[test]
fn each_line_is_read_by_one_worker() {
    for line in ["3\t4", "-7\t1", "0\t0", "8\t9"] {
        let mut readers = 0;
        for id in 0..3 {
            match read_line(&bytes(line), b'\t', &numbers(2), &mut StringTable::default(), id, 3) {
                Line::Row(values) => {
                    assert_eq!(values.len(), 2);
                    readers += 1;
                }
                Line::Skipped => {}
                Line::WrongArity(_) => panic!("the arity is right"),
            }
        }
        assert_eq!(readers, 1);
    }
}

fn numbers(arity: usize) -> Vec<DataType> {
    vec![DataType::Integer; arity]
}

#[test]
fn lines_that_are_no_rows() {
    let mut table = StringTable::default();
    let mut line = |s: &str| read_line(&bytes(s), b'\t', &numbers(2), &mut table, 0, 1);
    assert!(matches!(line("x\ty"), Line::Skipped));
    assert!(matches!(line("1\t2\t3"), Line::WrongArity(3)));
    assert_eq!(reader(&bytes("1\n\n2\n")), vec![bytes("1"), bytes("2")]);
    let mut rows = |s: &str| read_rows(&bytes(s), b',', &numbers(2), &mut table, 0, 1);
    assert_eq!(rows("1,2\n3,4\n"), Ok(vec![vec![1, 2], vec![3, 4]]));
    assert_eq!(rows("1,2\n3\n"), Err(1));
    assert_eq!(table.decode(0), None);
}

#[test]
fn texts_are_read_as_numbers_and_shown_as_texts() {
    let decl = RelDecl {
        name: "files".to_string(),
        attributes: vec![
            Attribute { name: "path".to_string(), data_type: DataType::String },
            Attribute { name: "size".to_string(), data_type: DataType::Integer },
            Attribute { name: "ext".to_string(), data_type: DataType::String },
        ],
        path: None,
    };
    let types = types_of(&decl);
    assert_eq!(types, [DataType::String, DataType::Integer, DataType::String]);
    let mut table = StringTable::default();
    let content = bytes("src/lib.rs,12,rs\nrs,7,\u{e4}\na,x,b\n");
    let rows = read_rows(&content, b',', &types, &mut table, 0, 1).unwrap();
    assert_eq!(rows, vec![vec![0, 12, 1], vec![1, 7, 2]]);
    assert_eq!(decode_row(&rows[0], &types, &table), "src/lib.rs, 12, rs");
    assert_eq!(decode_row(&rows[1], &types, &table), "rs, 7, \u{e4}");
    // numbers that no text has, and columns that hold numbers, are shown as numbers
    assert_eq!(decode_row(&vec![99, 1, -1, 0], &types, &table), "99, 1, -1, 0");
    // bytes that encode no text
    assert!(matches!(
        read_line(&vec![0xff, b',', b'1', b',', b'a'], b',', &types, &mut table, 0, 1),
        Line::Skipped
    ));
    // the worker goes by the number of the first text
    assert!(matches!(
        read_line(&bytes("rs,7,rs"), b',', &types, &mut table, 1, 2),
        Line::Row(values) if values == [1, 7, 1]
    ));
    assert!(matches!(
        read_line(&bytes("rs,7,rs"), b',', &types, &mut table, 0, 2),
        Line::Skipped
    ));
}

#[test]
fn files_of_workers() {
    assert_eq!(size_prefix("edge", false), "Size of (non-recursive) edge");
    assert_eq!(size_prefix("tc", true), "Delta of (recursive) tc");
    assert_eq!(part_path("out/tc.csv", 2), "out/tc.csv2");
    let parts = vec![Some("1, 2\n".to_string()), None, Some("3, 4\n".to_string())];
    assert_eq!(merge_parts(&parts), "1, 2\n3, 4\n");
}

#[test]
fn limits_of_rows() {
    assert!(CodegenLimits::KV_MAX <= CodegenLimits::ROW_MAX);
    assert!(CodegenLimits::FALLBACK_ARITY > 0);
}
