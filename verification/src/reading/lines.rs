//! What the rows that were read say of the lines that they were read from.
use vstd::prelude::*;
use vstd::utf8::{decode_utf8, valid_utf8};
use crate::parsing::decl::DataType;
use crate::reading::interner::lemma_numbers_differ;
use crate::reading::reader::{
    as_chars, field_in, field_number, field_table, fields_in, filled, lemma_fields, lemma_split,
    line_reading, number_in, row_of, rows_in, split_bytes, type_at, worker_of, FieldModel,
    LineModel, LINE_END,
};
use crate::text::{int_text, law_int_text_round_trip};

verus! {

/// Bytes without a separator are one piece, and a separator between bytes is where their
/// pieces part.
pub proof fn law_pieces_part_at_separators(a: Seq<u8>, b: Seq<u8>, separator: u8)
    ensures
        !a.contains(separator) ==> split_bytes(a, separator) == seq![a],
        split_bytes(a.push(separator) + b, separator) == split_bytes(a, separator) + split_bytes(
            b,
            separator,
        ),
{
    if !a.contains(separator) {
        lemma_whole(a, separator);
    }
    lemma_part(a, b, separator);
}

proof fn lemma_whole(a: Seq<u8>, separator: u8)
    requires
        !a.contains(separator),
    ensures
        split_bytes(a, separator) == seq![a],
    decreases a.len(),
{
    if a.len() == 0 {
        assert(a =~= Seq::empty());
    } else {
        let front = a.drop_last();
        assert(a[a.len() - 1] != separator);
        assert forall|i: int| 0 <= i < front.len() implies front[i] != separator by {
            assert(a[i] == front[i]);
        }
        lemma_whole(front, separator);
        assert(seq![front].drop_last().push(front.push(a.last())) =~= seq![a]) by {
            assert(front.push(a.last()) =~= a);
        }
    }
}

proof fn lemma_part(a: Seq<u8>, b: Seq<u8>, separator: u8)
    ensures
        split_bytes(a.push(separator) + b, separator) == split_bytes(a, separator) + split_bytes(
            b,
            separator,
        ),
    decreases b.len(),
{
    let all = a.push(separator) + b;
    let first = split_bytes(a, separator);
    if b.len() == 0 {
        assert(all =~= a.push(separator));
        assert(all.drop_last() =~= a);
        assert(split_bytes(all, separator) =~= first + split_bytes(b, separator));
    } else {
        let front = b.drop_last();
        lemma_part(a, front, separator);
        lemma_split(front, separator);
        assert(all.drop_last() =~= a.push(separator) + front);
        assert(all.last() == b.last());
        let second = split_bytes(front, separator);
        assert((first + second).last() == second.last());
        assert(split_bytes(all, separator) =~= first + split_bytes(b, separator));
    }
}

/// The lines of two files that a line end joins are the lines of the one and then those
/// of the other. Lines that hold nothing do not count.
pub proof fn law_files_add_up(a: Seq<u8>, b: Seq<u8>)
    ensures
        filled(split_bytes(Seq::empty(), LINE_END)) == Seq::<Seq<u8>>::empty(),
        a.len() > 0 && !a.contains(LINE_END) ==> filled(split_bytes(a, LINE_END)) == seq![a],
        filled(split_bytes(a.push(LINE_END) + b, LINE_END)) == filled(split_bytes(a, LINE_END))
            + filled(split_bytes(b, LINE_END)),
{
    lemma_filled_one(Seq::empty());
    lemma_filled_one(a);
    law_pieces_part_at_separators(a, b, LINE_END);
    lemma_filled_parts(split_bytes(a, LINE_END), split_bytes(b, LINE_END));
}

proof fn lemma_filled_one(piece: Seq<u8>)
    ensures
        filled(seq![piece]) == if piece.len() == 0 {
            Seq::empty()
        } else {
            seq![piece]
        },
{
    assert(seq![piece].drop_last() =~= Seq::empty());
    assert(filled(seq![piece].drop_last()) =~= Seq::empty());
    assert(Seq::empty().push(piece) =~= seq![piece]);
}

proof fn lemma_filled_parts(a: Seq<Seq<u8>>, b: Seq<Seq<u8>>)
    ensures
        filled(a + b) == filled(a) + filled(b),
    decreases b.len(),
{
    if b.len() == 0 {
        assert(a + b =~= a);
        assert(filled(a) + filled(b) =~= filled(a));
    } else {
        lemma_filled_parts(a, b.drop_last());
        assert((a + b).drop_last() =~= a + b.drop_last());
        assert(filled(a + b) =~= filled(a) + filled(b));
    }
}

/// Whether bytes are a text, each byte the code of its character.
pub open spec fn spells(bytes: Seq<u8>, text: Seq<char>) -> bool {
    &&& bytes.len() == text.len()
    &&& forall|i: int| 0 <= i < bytes.len() ==> #[trigger] bytes[i] as int == text[i] as int
}

/// The bytes of a written number denote the number, with its sign.
pub proof fn law_numbers_are_read(bytes: Seq<u8>, number: i64)
    requires
        spells(bytes, int_text(number as int)),
    ensures
        number_in(bytes) == Some(number),
{
    law_int_text_round_trip(number as int);
    let text = int_text(number as int);
    assert forall|i: int| 0 <= i < bytes.len() implies #[trigger] as_chars(bytes)[i] == text[i] by {
        assert(bytes[i] as int == text[i] as int);
    }
    assert(as_chars(bytes) =~= text);
}

/// Whether a piece of a line holds something that a column of a type can hold.
pub open spec fn piece_fits(piece: Seq<u8>, data_type: DataType) -> bool {
    match data_type {
        DataType::Integer => number_in(piece) is Some,
        DataType::String => valid_utf8(piece),
    }
}

/// Whether a value is what a piece of a line holds: the number that it denotes, or the
/// number under which a table holds its text.
pub open spec fn value_of_piece(
    value: i64,
    piece: Seq<u8>,
    data_type: DataType,
    table: Seq<Seq<char>>,
) -> bool {
    match data_type {
        DataType::Integer => number_in(piece) == Some(value),
        DataType::String => valid_utf8(piece) && 0 <= value < table.len() && table[value as int]
            == decode_utf8(piece),
    }
}

/// Whether a table is another one with more texts behind it.
pub open spec fn grown(table: Seq<Seq<char>>, after: Seq<Seq<char>>) -> bool {
    &&& table.len() <= after.len()
    &&& forall|i: int| 0 <= i < table.len() ==> #[trigger] table[i] == after[i]
}

proof fn lemma_entered(field: FieldModel, table: Seq<Seq<char>>)
    requires
        table.no_duplicates(),
        table.len() < i32::MAX,
    ensures
        grown(table, field_table(field, table)),
        field_table(field, table).len() <= table.len() + 1,
        field_table(field, table).no_duplicates(),
        field matches FieldModel::Number(number) ==> field_number(field, table) == number,
        field matches FieldModel::Text(text) ==> {
            let number = field_number(field, table);
            &&& 0 <= number < field_table(field, table).len()
            &&& field_table(field, table)[number as int] == text
        },
{
    if let FieldModel::Text(text) = field {
        if table.contains(text) {
            lemma_numbers_differ(table, text, text);
        } else {
            let after = table.push(text);
            assert forall|i: int, j: int|
                0 <= i < after.len() && 0 <= j < after.len() && i != j implies after[i]
                != after[j] by {
                if i < table.len() {
                    assert(table.contains(table[i]));
                }
                if j < table.len() {
                    assert(table.contains(table[j]));
                }
            }
        }
    }
}

proof fn lemma_row(fields: Seq<FieldModel>, table: Seq<Seq<char>>)
    requires
        table.no_duplicates(),
        table.len() + fields.len() <= i32::MAX,
    ensures
        ({
            let (row, after) = row_of(fields, table);
            &&& row.len() == fields.len()
            &&& grown(table, after)
            &&& after.len() <= table.len() + fields.len()
            &&& after.no_duplicates()
            &&& forall|i: int|
                0 <= i < fields.len() ==> match #[trigger] fields[i] {
                    FieldModel::Number(number) => row[i] == number,
                    FieldModel::Text(text) => 0 <= row[i] < after.len() && after[row[i] as int]
                        == text,
                }
        }),
    decreases fields.len(),
{
    if fields.len() > 0 {
        let front = fields.drop_last();
        let (row, known) = row_of(front, table);
        let (all, after) = row_of(fields, table);
        lemma_row(front, table);
        lemma_entered(fields.last(), known);
        assert(fields[fields.len() - 1] == fields.last());
        assert forall|i: int| 0 <= i < table.len() implies #[trigger] table[i] == after[i] by {
            assert(table[i] == known[i]);
        }
        assert forall|i: int| 0 <= i < fields.len() implies match #[trigger] fields[i] {
            FieldModel::Number(number) => all[i] == number,
            FieldModel::Text(text) => 0 <= all[i] < after.len() && after[all[i] as int] == text,
        } by {
            if i < front.len() {
                assert(front[i] == fields[i]);
                assert(all[i] == row[i]);
                if let FieldModel::Text(_) = fields[i] {
                    assert(known[row[i] as int] == after[row[i] as int]);
                }
            }
        }
    }
}

/// A row that was read holds what the line does: as many values as there are pieces
/// between the delimiters and columns, each the number that its piece denotes, or the
/// number under which the table now holds its text. What the table held stays where it
/// was, and no text is in it twice.
pub proof fn law_rows_hold_what_their_lines_do(
    line: Seq<u8>,
    delimiter: u8,
    types: Seq<DataType>,
    table: Seq<Seq<char>>,
    id: usize,
    peers: usize,
)
    requires
        table.no_duplicates(),
        table.len() + types.len() < i32::MAX,
    ensures
        ({
            let pieces = split_bytes(line, delimiter);
            let (out, after) = line_reading(line, delimiter, types, table, id, peers);
            &&& grown(table, after)
            &&& after.no_duplicates()
            &&& out matches LineModel::Row(row) ==> {
                &&& row.len() == types.len()
                &&& pieces.len() == types.len()
                &&& forall|i: int|
                    0 <= i < types.len() ==> value_of_piece(
                        #[trigger] row[i],
                        pieces[i],
                        types[i],
                        after,
                    )
            }
            &&& out matches LineModel::WrongArity(got) ==> got == pieces.len() && got
                != types.len()
        }),
{
    let pieces = split_bytes(line, delimiter);
    lemma_split(line, delimiter);
    let (out, after) = line_reading(line, delimiter, types, table, id, peers);
    if let Some(first) = field_in(pieces[0], type_at(types, 0)) {
        lemma_entered(first, table);
        let known = field_table(first, table);
        if let Some(fields) = fields_in(pieces, types) {
            lemma_fields(pieces, types, 0);
            if let LineModel::Row(row) = out {
                lemma_row(fields, known);
                assert forall|i: int| 0 <= i < table.len() implies #[trigger] table[i]
                    == after[i] by {
                    assert(table[i] == known[i]);
                    assert(known[i] == after[i]);
                }
                assert forall|i: int| 0 <= i < types.len() implies value_of_piece(
                    #[trigger] row[i],
                    pieces[i],
                    types[i],
                    after,
                ) by {
                    lemma_fields(pieces, types, i);
                    assert(type_at(types, i) == types[i]);
                    assert(field_in(pieces[i], types[i]) == Some(fields[i]));
                }
            }
        }
    }
}

proof fn lemma_fields_fit(pieces: Seq<Seq<u8>>, types: Seq<DataType>)
    ensures
        fields_in(pieces, types) is Some <==> forall|i: int|
            0 <= i < pieces.len() ==> piece_fits(#[trigger] pieces[i], type_at(types, i)),
    decreases pieces.len(),
{
    if pieces.len() > 0 {
        let front = pieces.drop_last();
        lemma_fields_fit(front, types);
        assert(forall|i: int| 0 <= i < front.len() ==> front[i] == pieces[i]);
        let n = pieces.len() - 1;
        assert(pieces.last() == pieces[n]);
        if fields_in(front, types) is None {
            let i = choose|i: int|
                0 <= i < front.len() && !piece_fits(#[trigger] front[i], type_at(types, i));
            assert(!piece_fits(pieces[i], type_at(types, i)));
        } else {
            assert(forall|i: int|
                0 <= i < front.len() ==> piece_fits(#[trigger] pieces[i], type_at(types, i))) by {
                assert forall|i: int| 0 <= i < front.len() implies piece_fits(
                    #[trigger] pieces[i],
                    type_at(types, i),
                ) by {
                    assert(piece_fits(front[i], type_at(types, i)));
                }
            }
        }
    }
}

/// A single worker takes a row from every line whose pieces fit their columns, finds the
/// wrong number of pieces where there are more or less of them than columns, and skips
/// the other lines. Pieces beyond the columns are to be numbers.
pub proof fn law_one_worker_reads_every_line(
    line: Seq<u8>,
    delimiter: u8,
    types: Seq<DataType>,
    table: Seq<Seq<char>>,
)
    ensures
        ({
            let pieces = split_bytes(line, delimiter);
            let fit = forall|i: int|
                0 <= i < pieces.len() ==> piece_fits(
                    #[trigger] pieces[i],
                    if i < types.len() {
                        types[i]
                    } else {
                        DataType::Integer
                    },
                );
            let out = line_reading(line, delimiter, types, table, 0, 1).0;
            &&& out is Row <==> fit && pieces.len() == types.len()
            &&& out is WrongArity <==> fit && pieces.len() != types.len()
            &&& out is Skipped <==> !fit
        }),
{
    let pieces = split_bytes(line, delimiter);
    lemma_split(line, delimiter);
    lemma_fields_fit(pieces, types);
    assert forall|i: int| 0 <= i implies #[trigger] type_at(types, i) == (if i < types.len() {
        types[i]
    } else {
        DataType::Integer
    }) by {}
    if fields_in(pieces, types) is Some {
        lemma_fields(pieces, types, 0);
        assert(piece_fits(pieces[0], type_at(types, 0)));
        assert forall|i: int| 0 <= i < pieces.len() implies piece_fits(
            #[trigger] pieces[i],
            if i < types.len() {
                types[i]
            } else {
                DataType::Integer
            },
        ) by {
            assert(piece_fits(pieces[i], type_at(types, i)));
        }
    } else {
        let i = choose|i: int|
            0 <= i < pieces.len() && !piece_fits(#[trigger] pieces[i], type_at(types, i));
        assert(type_at(types, i) == (if i < types.len() {
            types[i]
        } else {
            DataType::Integer
        }));
    }
    if let Some(first) = field_in(pieces[0], type_at(types, 0)) {
        let number = field_number(first, table);
        assert(worker_of(number, 1) == 0);
    }
}

/// Rows are dealt out in turn by their first values: the worker of the next value is the
/// next worker, and the first one behind the last. This holds wherever the value does not
/// cross a multiple of the range of 32 bit integers.
pub proof fn law_workers_take_turns(value: i64, peers: usize)
    requires
        peers > 0,
        value < i64::MAX,
    ensures
        worker_of(0, peers) == 0,
        worker_of(value, peers) < peers,
        (value + 1) % 0x1_0000_0000 != 0 ==> worker_of((value + 1) as i64, peers) == (worker_of(
            value,
            peers,
        ) + 1) % peers as int,
{
    let next: i64 = (value + 1) as i64;
    let now = #[verifier::truncate] (value as usize);
    vstd::arithmetic::div_mod::lemma_small_mod(0, peers as nat);
    if (value + 1) % 0x1_0000_0000 != 0 {
        assert(next as usize == now + 1) by (bit_vector)
            requires
                next == value + 1,
                now == value as usize,
                (value + 1) % 0x1_0000_0000 != 0,
        ;
        vstd::arithmetic::div_mod::lemma_add_mod_noop(now as int, 1, peers as int);
        vstd::arithmetic::div_mod::lemma_add_mod_noop_right(1, now as int, peers as int);
    }
}

/// Lines are read one after the other: the second part of some lines is read with the
/// texts that the first part left, and the rows of both parts are put together. A single
/// line gives its row, or none where it is skipped; one with a wrong number of pieces ends
/// the reading.
pub proof fn law_lines_are_read_in_turn(
    a: Seq<Seq<u8>>,
    b: Seq<Seq<u8>>,
    delimiter: u8,
    types: Seq<DataType>,
    table: Seq<Seq<char>>,
    id: usize,
    peers: usize,
)
    ensures
        ({
            let (first, known) = rows_in(a, delimiter, types, table, id, peers);
            let (second, after) = rows_in(b, delimiter, types, known, id, peers);
            rows_in(a + b, delimiter, types, table, id, peers) == match (first, second) {
                (Err(got), _) => (Err::<Seq<Seq<i64>>, nat>(got), known),
                (Ok(_), Err(got)) => (Err(got), after),
                (Ok(front), Ok(back)) => (Ok(front + back), after),
            }
        }),
        a.len() == 1 ==> ({
            let (line, after) = line_reading(a[0], delimiter, types, table, id, peers);
            let (rows, known) = rows_in(a, delimiter, types, table, id, peers);
            &&& known == after
            &&& line is Skipped ==> rows == Ok::<Seq<Seq<i64>>, nat>(Seq::empty())
            &&& line matches LineModel::Row(row) ==> rows == Ok::<Seq<Seq<i64>>, nat>(seq![row])
            &&& line matches LineModel::WrongArity(got) ==> rows == Err::<Seq<Seq<i64>>, nat>(got)
        }),
    decreases b.len(),
{
    if a.len() == 1 {
        assert(a.last() == a[0]);
        assert(rows_in(a.drop_last(), delimiter, types, table, id, peers) == (
            Ok::<Seq<Seq<i64>>, nat>(Seq::empty()),
            table,
        ));
        if let LineModel::Row(row) = line_reading(
            a[0],
            delimiter,
            types,
            table,
            id,
            peers,
        ).0 {
            assert(Seq::empty().push(row) =~= seq![row]);
        }
    }
    let (first, known) = rows_in(a, delimiter, types, table, id, peers);
    if b.len() == 0 {
        assert(a + b =~= a);
        if let Ok(front) = first {
            assert(front + Seq::empty() =~= front);
        }
    } else {
        let most = b.drop_last();
        law_lines_are_read_in_turn(a, most, delimiter, types, table, id, peers);
        assert((a + b).drop_last() =~= a + most);
        assert((a + b).last() == b.last());
        let (middle, then) = rows_in(most, delimiter, types, known, id, peers);
        if let (Ok(front), Ok(back)) = (first, middle) {
            let (line, _) = line_reading(b.last(), delimiter, types, then, id, peers);
            if let LineModel::Row(row) = line {
                assert((front + back).push(row) =~= front + back.push(row));
            }
        }
    }
}

/// Rows of numbers that were written as lines, each number in decimal with delimiters
/// between them, are what a single worker reads from the lines.
pub proof fn law_written_rows_are_read(
    lines: Seq<Seq<u8>>,
    rows: Seq<Seq<i64>>,
    delimiter: u8,
    types: Seq<DataType>,
    table: Seq<Seq<char>>,
)
    requires
        table.no_duplicates(),
        table.len() + types.len() < i32::MAX,
        forall|i: int| 0 <= i < types.len() ==> #[trigger] types[i] == DataType::Integer,
        lines.len() == rows.len(),
        forall|k: int|
            0 <= k < lines.len() ==> {
                let pieces = split_bytes(#[trigger] lines[k], delimiter);
                &&& pieces.len() == types.len()
                &&& rows[k].len() == types.len()
                &&& forall|i: int|
                    0 <= i < types.len() ==> spells(
                        #[trigger] pieces[i],
                        int_text(rows[k][i] as int),
                    )
            },
    ensures
        rows_in(lines, delimiter, types, table, 0, 1).0 == Ok::<Seq<Seq<i64>>, nat>(rows),
        rows_in(lines, delimiter, types, table, 0, 1).1 == table,
    decreases lines.len(),
{
    if lines.len() == 0 {
        assert(rows =~= Seq::empty());
    } else {
        let n = lines.len() - 1;
        let front = lines.drop_last();
        let most = rows.drop_last();
        assert forall|k: int| 0 <= k < front.len() implies {
            let pieces = split_bytes(#[trigger] front[k], delimiter);
            &&& pieces.len() == types.len()
            &&& most[k].len() == types.len()
            &&& forall|i: int|
                0 <= i < types.len() ==> spells(#[trigger] pieces[i], int_text(most[k][i] as int))
        } by {
            assert(front[k] == lines[k]);
        }
        law_written_rows_are_read(front, most, delimiter, types, table);
        let line = lines[n];
        let pieces = split_bytes(line, delimiter);
        assert forall|i: int| 0 <= i < pieces.len() implies number_in(#[trigger] pieces[i])
            == Some(rows[n][i]) by {
            law_numbers_are_read(pieces[i], rows[n][i]);
        }
        law_one_worker_reads_every_line(line, delimiter, types, table);
        law_rows_hold_what_their_lines_do(line, delimiter, types, table, 0, 1);
        lemma_no_texts(line, delimiter, types, table);
        let row = line_reading(line, delimiter, types, table, 0, 1).0->Row_0;
        assert forall|i: int| 0 <= i < row.len() implies row[i] == rows[n][i] by {
            assert(value_of_piece(row[i], pieces[i], types[i], table));
        }
        assert(row =~= rows[n]);
        assert(most.push(row) =~= rows);
    }
}

/// Reading numbers alone enters no text.
proof fn lemma_no_texts(
    line: Seq<u8>,
    delimiter: u8,
    types: Seq<DataType>,
    table: Seq<Seq<char>>,
)
    requires
        forall|i: int| 0 <= i < types.len() ==> #[trigger] types[i] == DataType::Integer,
    ensures
        line_reading(line, delimiter, types, table, 0, 1).1 == table,
{
    let pieces = split_bytes(line, delimiter);
    lemma_split(line, delimiter);
    assert forall|i: int| #[trigger] type_at(types, i) == DataType::Integer by {
        if 0 <= i < types.len() {
            assert(types[i] == DataType::Integer);
        }
    }
    if let Some(fields) = fields_in(pieces, types) {
        assert forall|i: int| 0 <= i < fields.len() implies #[trigger] fields[i] is Number by {
            lemma_fields(pieces, types, 0);
            lemma_fields(pieces, types, i);
            assert(type_at(types, i) == DataType::Integer);
        }
        lemma_numbers_alone(fields, table);
    }
}

proof fn lemma_numbers_alone(fields: Seq<FieldModel>, table: Seq<Seq<char>>)
    requires
        forall|i: int| 0 <= i < fields.len() ==> #[trigger] fields[i] is Number,
    ensures
        row_of(fields, table).1 == table,
    decreases fields.len(),
{
    if fields.len() > 0 {
        let front = fields.drop_last();
        assert(forall|i: int| 0 <= i < front.len() ==> front[i] == fields[i]);
        lemma_numbers_alone(front, table);
        assert(fields[fields.len() - 1] is Number);
    }
}

proof fn lemma_new_texts(fields: Seq<FieldModel>, table: Seq<Seq<char>>, k: int)
    requires
        table.len() <= k < row_of(fields, table).1.len(),
    ensures
        exists|i: int|
            0 <= i < fields.len() && #[trigger] fields[i] == FieldModel::Text(
                row_of(fields, table).1[k],
            ),
    decreases fields.len(),
{
    if fields.len() > 0 {
        let front = fields.drop_last();
        let known = row_of(front, table).1;
        let after = row_of(fields, table).1;
        if k < known.len() {
            lemma_new_texts(front, table, k);
            let i = choose|i: int|
                0 <= i < front.len() && #[trigger] front[i] == FieldModel::Text(known[k]);
            assert(fields[i] == FieldModel::Text(after[k]));
        } else {
            assert(fields[fields.len() - 1] == FieldModel::Text(after[k]));
        }
    }
}

/// Reading a line enters no text but those of its columns of texts. The text of the first
/// column is entered by every worker, whoever the line is for.
pub proof fn law_only_texts_of_the_line_are_entered(
    line: Seq<u8>,
    delimiter: u8,
    types: Seq<DataType>,
    table: Seq<Seq<char>>,
    id: usize,
    peers: usize,
    k: int,
)
    requires
        table.no_duplicates(),
        table.len() + types.len() < i32::MAX,
    ensures
        ({
            let pieces = split_bytes(line, delimiter);
            let after = line_reading(line, delimiter, types, table, id, peers).1;
            &&& table.len() <= k < after.len() ==> exists|i: int|
                0 <= i < pieces.len() && i < types.len() && #[trigger] types[i] == DataType::String
                    && valid_utf8(pieces[i]) && after[k] == decode_utf8(pieces[i])
            &&& types.len() > 0 && types[0] == DataType::String && valid_utf8(pieces[0])
                ==> after.contains(decode_utf8(pieces[0]))
        }),
{
    let pieces = split_bytes(line, delimiter);
    lemma_split(line, delimiter);
    law_rows_hold_what_their_lines_do(line, delimiter, types, table, id, peers);
    let after = line_reading(line, delimiter, types, table, id, peers).1;
    if let Some(first) = field_in(pieces[0], type_at(types, 0)) {
        let known = field_table(first, table);
        lemma_entered(first, table);
        if types.len() > 0 && types[0] == DataType::String && valid_utf8(pieces[0]) {
            let number = field_number(first, table) as int;
            assert(known[number] == decode_utf8(pieces[0]));
            if let Some(fields) = fields_in(pieces, types) {
                lemma_fields(pieces, types, 0);
                if fields.len() == types.len() {
                    lemma_row(fields, known);
                }
            }
            assert(after[number] == known[number]);
        }
        if table.len() <= k < after.len() {
            if k < known.len() {
                assert(first == FieldModel::Text(known[k]));
                assert(type_at(types, 0) == DataType::String);
                assert(types[0] == DataType::String);
                if let Some(fields) = fields_in(pieces, types) {
                    lemma_fields(pieces, types, 0);
                    if fields.len() == types.len() {
                        lemma_row(fields, known);
                    }
                }
                assert(after[k] == known[k]);
            } else {
                let fields = fields_in(pieces, types)->0;
                lemma_new_texts(fields, known, k);
                let i = choose|i: int|
                    0 <= i < fields.len() && #[trigger] fields[i] == FieldModel::Text(after[k]);
                lemma_fields(pieces, types, 0);
                lemma_fields(pieces, types, i);
                assert(type_at(types, i) == DataType::String);
                assert(types[i] == DataType::String);
            }
        }
    }
}

} // verus!
