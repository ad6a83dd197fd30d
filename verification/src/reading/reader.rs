//! Reading rows from lines of bytes.
use vstd::prelude::*;
use vstd::utf8::{decode_utf8, valid_utf8};
use crate::compiler::string_table::{number_of, table_with, StringTable};
use crate::lists::{empty, group_take, push};
use crate::parsing::decl::DataType;
use crate::text::{all_digits, digits_value, int_value, is_digit};

verus! {

/// The byte that ends a line.
pub const LINE_END: u8 = 10;

const MINUS: u8 = 45;

const PLUS: u8 = 43;

const ZERO: u8 = 48;

const NINE: u8 = 57;

/// The pieces of a sequence of bytes between separators.
pub open spec fn split_bytes(bytes: Seq<u8>, separator: u8) -> Seq<Seq<u8>>
    decreases bytes.len(),
{
    if bytes.len() == 0 {
        seq![Seq::empty()]
    } else {
        let front = split_bytes(bytes.drop_last(), separator);
        if bytes.last() == separator {
            front.push(Seq::empty())
        } else {
            front.drop_last().push(front.last().push(bytes.last()))
        }
    }
}

/// Bytes as characters.
pub open spec fn as_chars(bytes: Seq<u8>) -> Seq<char> {
    Seq::new(bytes.len(), |i: int| bytes[i] as char)
}

/// The number that bytes denote: digits with an optional sign.
pub open spec fn number_in(bytes: Seq<u8>) -> Option<i64> {
    match int_value(as_chars(bytes)) {
        Some(v) if i64::MIN <= v <= i64::MAX => Some(v as i64),
        _ => None,
    }
}

/// What a field of a line holds.
#[derive(Debug)]
pub enum Field {
    Number(i64),
    Text(String),
}

#[verifier::ext_equal]
pub enum FieldModel {
    Number(i64),
    Text(Seq<char>),
}

impl DeepView for Field {
    type V = FieldModel;

    open spec fn deep_view(&self) -> FieldModel {
        match self {
            Field::Number(number) => FieldModel::Number(*number),
            Field::Text(text) => FieldModel::Text(text@),
        }
    }
}

/// What a field of a column holds: a number, or where the column holds texts the text
/// that the bytes encode.
pub open spec fn field_in(piece: Seq<u8>, data_type: DataType) -> Option<FieldModel> {
    match data_type {
        DataType::Integer => match number_in(piece) {
            Some(number) => Some(FieldModel::Number(number)),
            None => None,
        },
        DataType::String => if valid_utf8(piece) {
            Some(FieldModel::Text(decode_utf8(piece)))
        } else {
            None
        },
    }
}

/// The type of a column; columns that are not declared hold numbers.
pub open spec fn type_at(types: Seq<DataType>, i: int) -> DataType {
    if 0 <= i < types.len() {
        types[i]
    } else {
        DataType::Integer
    }
}

/// What all fields hold, if each holds something.
pub open spec fn fields_in(pieces: Seq<Seq<u8>>, types: Seq<DataType>) -> Option<Seq<FieldModel>>
    decreases pieces.len(),
{
    if pieces.len() == 0 {
        Some(Seq::empty())
    } else {
        match (
            fields_in(pieces.drop_last(), types),
            field_in(pieces.last(), type_at(types, pieces.len() - 1)),
        ) {
            (Some(front), Some(field)) => Some(front.push(field)),
            _ => None,
        }
    }
}

/// A field as a number: a text by its number in a table.
pub open spec fn field_number(field: FieldModel, table: Seq<Seq<char>>) -> i64 {
    match field {
        FieldModel::Number(number) => number,
        FieldModel::Text(text) => number_of(table, text) as i64,
    }
}

/// The table after a field was made a number.
pub open spec fn field_table(field: FieldModel, table: Seq<Seq<char>>) -> Seq<Seq<char>> {
    match field {
        FieldModel::Number(_) => table,
        FieldModel::Text(text) => table_with(table, text),
    }
}

/// The row of some fields, and the table after it.
pub open spec fn row_of(fields: Seq<FieldModel>, table: Seq<Seq<char>>) -> (
    Seq<i64>,
    Seq<Seq<char>>,
)
    decreases fields.len(),
{
    if fields.len() == 0 {
        (Seq::empty(), table)
    } else {
        let (front, known) = row_of(fields.drop_last(), table);
        (front.push(field_number(fields.last(), known)), field_table(fields.last(), known))
    }
}

/// What comes of a line.
#[derive(Debug)]
pub enum Line {
    /// it is not for this worker, or holds something else than its columns do
    Skipped,
    /// a row
    Row(Vec<i64>),
    /// it holds a wrong number of fields
    WrongArity(usize),
}

#[verifier::ext_equal]
pub enum LineModel {
    Skipped,
    Row(Seq<i64>),
    WrongArity(nat),
}

impl DeepView for Line {
    type V = LineModel;

    open spec fn deep_view(&self) -> LineModel {
        match self {
            Line::Skipped => LineModel::Skipped,
            Line::Row(values) => LineModel::Row(values@),
            Line::WrongArity(got) => LineModel::WrongArity(*got as nat),
        }
    }
}

/// The worker that a row belongs to, by its first value.
pub open spec fn worker_of(first: i64, peers: usize) -> usize {
    (first as usize) % peers
}

/// What comes of a line for the worker `id` out of `peers`, and the table after it.
pub open spec fn line_reading(
    line: Seq<u8>,
    delimiter: u8,
    types: Seq<DataType>,
    table: Seq<Seq<char>>,
    id: usize,
    peers: usize,
) -> (LineModel, Seq<Seq<char>>) {
    let pieces = split_bytes(line, delimiter);
    match field_in(pieces[0], type_at(types, 0)) {
        Some(first) => {
            let known = field_table(first, table);
            if worker_of(field_number(first, table), peers) != id {
                (LineModel::Skipped, known)
            } else {
                match fields_in(pieces, types) {
                    Some(fields) => if fields.len() == types.len() {
                        let (row, after) = row_of(fields, known);
                        (LineModel::Row(row), after)
                    } else {
                        (LineModel::WrongArity(fields.len()), known)
                    },
                    None => (LineModel::Skipped, known),
                }
            }
        },
        None => (LineModel::Skipped, table),
    }
}

/// The pieces that hold something.
pub open spec fn filled(pieces: Seq<Seq<u8>>) -> Seq<Seq<u8>>
    decreases pieces.len(),
{
    if pieces.len() == 0 {
        Seq::empty()
    } else if pieces.last().len() == 0 {
        filled(pieces.drop_last())
    } else {
        filled(pieces.drop_last()).push(pieces.last())
    }
}

/// The rows in some lines, and the table after them; stops at the first line with a
/// wrong number of fields, which is then given.
pub open spec fn rows_in(
    lines: Seq<Seq<u8>>,
    delimiter: u8,
    types: Seq<DataType>,
    table: Seq<Seq<char>>,
    id: usize,
    peers: usize,
) -> (Result<Seq<Seq<i64>>, nat>, Seq<Seq<char>>)
    decreases lines.len(),
{
    if lines.len() == 0 {
        (Ok(Seq::empty()), table)
    } else {
        let (front, known) = rows_in(lines.drop_last(), delimiter, types, table, id, peers);
        match front {
            Err(got) => (Err(got), known),
            Ok(front) => {
                let (line, after) = line_reading(
                    lines.last(),
                    delimiter,
                    types,
                    known,
                    id,
                    peers,
                );
                match line {
                    LineModel::Skipped => (Ok(front), after),
                    LineModel::Row(values) => (Ok(front.push(values)), after),
                    LineModel::WrongArity(got) => (Err(got), after),
                }
            },
        }
    }
}

pub proof fn lemma_split(bytes: Seq<u8>, separator: u8)
    ensures
        split_bytes(bytes, separator).len() > 0,
    decreases bytes.len(),
{
    if bytes.len() > 0 {
        lemma_split(bytes.drop_last(), separator);
    }
}

/// Cuts bytes into the pieces between separators.
pub fn split(bytes: &Vec<u8>, separator: u8) -> (pieces: Vec<Vec<u8>>)
    ensures
        pieces.deep_view() == split_bytes(bytes@, separator),
{
    broadcast use group_take;

    let mut pieces: Vec<Vec<u8>> = empty();
    let mut piece: Vec<u8> = Vec::new();
    let ghost done = pieces.deep_view();
    assert(pieces.deep_view().push(piece@) =~= seq![Seq::empty()]);
    let mut i: usize = 0;
    while i < bytes.len()
        invariant
            i <= bytes.len(),
            pieces.deep_view().push(piece@) == split_bytes(bytes@.take(i as int), separator),
        decreases bytes.len() - i,
    {
        assert(bytes@.take(i + 1).drop_last() == bytes@.take(i as int));
        let ghost before = pieces.deep_view().push(piece@);
        let b: u8 = bytes[i];
        if b == separator {
            assert(piece.deep_view() =~= piece@);
            push(&mut pieces, piece);
            piece = Vec::new();
            assert(pieces.deep_view().push(piece@) =~= before.push(Seq::empty()));
        } else {
            let ghost old_piece = piece@;
            piece.push(b);
            assert(pieces.deep_view().push(piece@) =~= before.drop_last().push(
                before.last().push(b),
            ));
        }
        i += 1;
    }
    assert(piece.deep_view() =~= piece@);
    push(&mut pieces, piece);
    pieces
}

/// The number that bytes denote.
pub fn parse_number(bytes: &Vec<u8>) -> (number: Option<i64>)
    ensures
        number == number_in(bytes@),
{
    broadcast use group_take;

    let ghost s = as_chars(bytes@);
    let len: usize = bytes.len();
    if len == 0 {
        return None;
    }
    let first: u8 = bytes[0];
    let signed = first == MINUS || first == PLUS;
    assert(s[0] == first as char);
    let start: usize = if signed {
        1
    } else {
        0
    };
    let ghost digits = if signed {
        s.subrange(1, s.len() as int)
    } else {
        s
    };
    assert(digits =~= s.subrange(start as int, len as int));
    if start == len {
        return None;
    }
    let mut value: i128 = 0;
    let mut i: usize = start;
    while i < len
        invariant
            start <= i <= len,
            start <= 1,
            len == bytes@.len(),
            s == as_chars(bytes@),
            digits == s.subrange(start as int, len as int),
            signed == (s[0] == '-' || s[0] == '+'),
            digits == (if signed {
                s.subrange(1, s.len() as int)
            } else {
                s
            }),
            all_digits(digits.take(i - start)),
            digits_value(digits.take(i - start)) <= 9223372036854775808 ==> value == digits_value(
                digits.take(i - start),
            ),
            digits_value(digits.take(i - start)) > 9223372036854775808 ==> value
                == 9223372036854775809,
            0 <= value <= 9223372036854775809,
        decreases len - i,
    {
        let b: u8 = bytes[i];
        assert(digits[i - start] == b as char);
        if b < ZERO || b > NINE {
            assert(!all_digits(digits)) by {
                assert(!is_digit(digits[i - start]));
            }
            return None;
        }
        let d: i128 = (b - ZERO) as i128;
        assert(digits.take(i - start + 1).drop_last() == digits.take(i - start));
        assert(digits.take(i - start + 1).last() == b as char);
        value = value * 10 + d;
        if value > 9223372036854775808 {
            value = 9223372036854775809;
        }
        i += 1;
    }
    assert(digits.take(i - start) == digits);
    assert(int_value(s) is Some);
    if first == MINUS {
        let v: i128 = -value;
        if v >= -9223372036854775808 {
            Some(v as i64)
        } else {
            None
        }
    } else if value <= 9223372036854775807 {
        Some(value as i64)
    } else {
        None
    }
}

/// The text that bytes encode, by std's `String::from_utf8`: there is one exactly where
/// the bytes are valid UTF-8.
#[verifier::external_body]
fn text_of(bytes: Vec<u8>) -> (text: Option<String>)
    ensures
        match text {
            Some(text) => valid_utf8(bytes@) && text@ == decode_utf8(bytes@),
            None => !valid_utf8(bytes@),
        },
{
    String::from_utf8(bytes).ok()
}

/// What a field of a column holds.
fn parse_field(piece: &Vec<u8>, data_type: DataType) -> (field: Option<Field>)
    ensures
        field.deep_view() == field_in(piece@, data_type),
{
    match data_type {
        DataType::Integer => match parse_number(piece) {
            Some(number) => Some(Field::Number(number)),
            None => None,
        },
        DataType::String => {
            let bytes = piece.clone();
            assert(bytes@ =~= piece@);
            match text_of(bytes) {
                Some(text) => Some(Field::Text(text)),
                None => None,
            }
        },
    }
}

fn find_type(types: &Vec<DataType>, i: usize) -> (data_type: DataType)
    ensures
        data_type == type_at(types@, i as int),
{
    if i < types.len() {
        types[i]
    } else {
        DataType::Integer
    }
}

/// What all fields hold, if each holds something.
fn parse_fields(pieces: &Vec<Vec<u8>>, types: &Vec<DataType>) -> (fields: Option<Vec<Field>>)
    ensures
        match fields {
            Some(fields) => fields_in(pieces.deep_view(), types@) == Some(fields.deep_view()),
            None => fields_in(pieces.deep_view(), types@) is None,
        },
{
    broadcast use group_take;

    let ghost model = pieces.deep_view();
    let mut fields: Vec<Field> = empty();
    let mut missing = false;
    let mut i: usize = 0;
    while i < pieces.len()
        invariant
            i <= pieces.len(),
            model == pieces.deep_view(),
            fields_in(model.take(i as int), types@) == if missing {
                None
            } else {
                Some(fields.deep_view())
            },
        decreases pieces.len() - i,
    {
        assert(model.take(i + 1).drop_last() == model.take(i as int));
        assert(model[i as int] == pieces@[i as int].deep_view());
        assert(pieces@[i as int].deep_view() =~= pieces@[i as int]@);
        match parse_field(&pieces[i], find_type(types, i)) {
            Some(field) => {
                push(&mut fields, field);
            },
            None => {
                missing = true;
            },
        }
        i += 1;
    }
    if missing {
        None
    } else {
        Some(fields)
    }
}

/// A field as a number; a text is entered into the table.
fn number_field(field: &Field, table: &mut StringTable) -> (number: i64)
    requires
        old(table).wf(),
    ensures
        final(table).wf(),
        number == field_number(field.deep_view(), old(table).table()),
        final(table).table() == field_table(field.deep_view(), old(table).table()),
{
    match field {
        Field::Number(number) => *number,
        Field::Text(text) => table.intern(text.as_str()) as i64,
    }
}

fn make_row(fields: &Vec<Field>, table: &mut StringTable) -> (row: Vec<i64>)
    requires
        old(table).wf(),
    ensures
        final(table).wf(),
        row_of(fields.deep_view(), old(table).table()) == (row@, final(table).table()),
{
    broadcast use group_take;

    let ghost before = table.table();
    let ghost model = fields.deep_view();
    let mut row: Vec<i64> = Vec::new();
    let mut i: usize = 0;
    while i < fields.len()
        invariant
            i <= fields.len(),
            model == fields.deep_view(),
            table.wf(),
            row_of(model.take(i as int), before) == (row@, table.table()),
        decreases fields.len() - i,
    {
        assert(model.take(i + 1).drop_last() == model.take(i as int));
        assert(model[i as int] == fields@[i as int].deep_view());
        let number = number_field(&fields[i], table);
        row.push(number);
        i += 1;
    }
    row
}

/// Reads a line for the worker `id` out of `peers`.
pub fn read_line(
    line: &Vec<u8>,
    delimiter: u8,
    types: &Vec<DataType>,
    table: &mut StringTable,
    id: usize,
    peers: usize,
) -> (out: Line)
    requires
        peers > 0,
        old(table).wf(),
    ensures
        final(table).wf(),
        line_reading(line@, delimiter, types@, old(table).table(), id, peers) == (
            out.deep_view(),
            final(table).table(),
        ),
{
    let pieces = split(line, delimiter);
    let ghost model = pieces.deep_view();
    proof {
        lemma_split(line@, delimiter);
        assert(pieces.len() == model.len());
        assert(model[0] == pieces@[0].deep_view());
        assert(pieces@[0].deep_view() =~= pieces@[0]@);
    }
    match parse_field(&pieces[0], find_type(types, 0)) {
        Some(first) => {
            let number = number_field(&first, table);
            let worker: usize = (#[verifier::truncate]
            (number as usize)) % peers;
            if worker != id {
                return Line::Skipped;
            }
            match parse_fields(&pieces, types) {
                Some(fields) => {
                    assert(fields.len() == fields.deep_view().len());
                    if fields.len() == types.len() {
                        Line::Row(make_row(&fields, table))
                    } else {
                        Line::WrongArity(fields.len())
                    }
                },
                None => Line::Skipped,
            }
        },
        None => Line::Skipped,
    }
}

/// The lines of a file that hold something.
pub fn reader(content: &Vec<u8>) -> (lines: Vec<Vec<u8>>)
    ensures
        lines.deep_view() == filled(split_bytes(content@, LINE_END)),
{
    broadcast use group_take;

    let pieces = split(content, LINE_END);
    let ghost model = pieces.deep_view();
    let mut lines: Vec<Vec<u8>> = empty();
    let mut i: usize = 0;
    while i < pieces.len()
        invariant
            i <= pieces.len(),
            model == pieces.deep_view(),
            lines.deep_view() == filled(model.take(i as int)),
        decreases pieces.len() - i,
    {
        assert(model.take(i + 1).drop_last() == model.take(i as int));
        assert(model[i as int] == pieces@[i as int].deep_view());
        assert(pieces@[i as int].deep_view() =~= pieces@[i as int]@);
        if pieces[i].len() > 0 {
            let line = pieces[i].clone();
            assert(line.deep_view() =~= pieces@[i as int].deep_view());
            push(&mut lines, line);
        }
        i += 1;
    }
    lines
}

/// Reads the rows of a file for the worker `id` out of `peers`. A line with a
/// wrong number of fields ends the reading; its number of fields is given.
pub fn read_rows(
    content: &Vec<u8>,
    delimiter: u8,
    types: &Vec<DataType>,
    table: &mut StringTable,
    id: usize,
    peers: usize,
) -> (rows: Result<Vec<Vec<i64>>, usize>)
    requires
        peers > 0,
        old(table).wf(),
    ensures
        final(table).wf(),
        rows_in(
            filled(split_bytes(content@, LINE_END)),
            delimiter,
            types@,
            old(table).table(),
            id,
            peers,
        ) == (
            match rows {
                Ok(rows) => Ok::<Seq<Seq<i64>>, nat>(rows.deep_view()),
                Err(got) => Err::<Seq<Seq<i64>>, nat>(got as nat),
            },
            final(table).table(),
        ),
{
    broadcast use group_take;

    let ghost before = table.table();
    let lines = reader(content);
    let ghost model = lines.deep_view();
    let mut rows: Vec<Vec<i64>> = empty();
    let mut i: usize = 0;
    while i < lines.len()
        invariant
            i <= lines.len(),
            peers > 0,
            before == old(table).table(),
            table.wf(),
            model == lines.deep_view(),
            model == filled(split_bytes(content@, LINE_END)),
            rows_in(model.take(i as int), delimiter, types@, before, id, peers) == (
                Ok::<Seq<Seq<i64>>, nat>(rows.deep_view()),
                table.table(),
            ),
        decreases lines.len() - i,
    {
        proof {
            assert(model.take(i + 1).drop_last() == model.take(i as int));
            assert(model[i as int] == lines@[i as int].deep_view());
            assert(lines@[i as int].deep_view() =~= lines@[i as int]@);
        }
        match read_line(&lines[i], delimiter, types, table, id, peers) {
            Line::Skipped => {},
            Line::Row(values) => {
                assert(values.deep_view() =~= values@);
                push(&mut rows, values);
            },
            Line::WrongArity(got) => {
                proof {
                    lemma_stays_wrong(model, delimiter, types@, before, id, peers, i + 1);
                }
                return Err(got);
            },
        }
        i += 1;
    }
    Ok(rows)
}

proof fn lemma_stays_wrong(
    lines: Seq<Seq<u8>>,
    delimiter: u8,
    types: Seq<DataType>,
    table: Seq<Seq<char>>,
    id: usize,
    peers: usize,
    n: int,
)
    requires
        0 <= n <= lines.len(),
        rows_in(lines.take(n), delimiter, types, table, id, peers).0 is Err,
    ensures
        rows_in(lines, delimiter, types, table, id, peers) == rows_in(
            lines.take(n),
            delimiter,
            types,
            table,
            id,
            peers,
        ),
    decreases lines.len() - n,
{
    broadcast use group_take;

    if n < lines.len() {
        assert(lines.take(n + 1).drop_last() == lines.take(n));
        lemma_stays_wrong(lines, delimiter, types, table, id, peers, n + 1);
    }
}

/// A line that holds a row is taken in by one worker, and by no other.
pub proof fn law_one_worker_reads_a_line(
    line: Seq<u8>,
    delimiter: u8,
    types: Seq<DataType>,
    table: Seq<Seq<char>>,
    fields: Seq<FieldModel>,
    peers: usize,
)
    requires
        peers > 0,
        fields_in(split_bytes(line, delimiter), types) == Some(fields),
        fields.len() == types.len(),
    ensures
        worker_of(field_number(fields[0], table), peers) < peers,
        forall|id: usize| #[trigger]
            line_reading(line, delimiter, types, table, id, peers).0 == if id == worker_of(
                field_number(fields[0], table),
                peers,
            ) {
                LineModel::Row(row_of(fields, field_table(fields[0], table)).0)
            } else {
                LineModel::Skipped
            },
{
    let pieces = split_bytes(line, delimiter);
    lemma_split(line, delimiter);
    lemma_fields(pieces, types, 0);
}

pub proof fn lemma_fields(pieces: Seq<Seq<u8>>, types: Seq<DataType>, k: int)
    requires
        fields_in(pieces, types) is Some,
        0 <= k < pieces.len(),
    ensures
        fields_in(pieces, types)->0.len() == pieces.len(),
        field_in(pieces[k], type_at(types, k)) == Some(fields_in(pieces, types)->0[k]),
    decreases pieces.len(),
{
    let front = pieces.drop_last();
    if front.len() > 0 {
        if k < front.len() {
            lemma_fields(front, types, k);
            assert(front[k] == pieces[k]);
        } else {
            lemma_fields(front, types, 0);
        }
    } else {
        assert(fields_in(front, types) == Some(Seq::<FieldModel>::empty()));
    }
}

} // verus!
