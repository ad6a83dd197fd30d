//! The rows of outputs, read back and shown.
use vstd::prelude::*;
use vstd::string::*;
use crate::compiler::string_table::{text_under, StringTable};
use crate::lists::{empty, group_take, push};
use crate::parsing::decl::DataType;
use crate::text::{
    i32_to_text, i32_value, int_text, join, join_text, lemma_split_pieces, parse_i32, split_str,
    split_text,
};

verus! {

/// An output: what it is called, its relation, and the types of its columns.
#[derive(Debug)]
pub struct OutputInfo {
    pub name: String,
    pub relation_name: String,
    pub column_types: Vec<DataType>,
}

#[verifier::ext_equal]
pub struct OutputInfoModel {
    pub name: Seq<char>,
    pub relation_name: Seq<char>,
    pub column_types: Seq<DataType>,
}

impl DeepView for OutputInfo {
    type V = OutputInfoModel;

    open spec fn deep_view(&self) -> OutputInfoModel {
        OutputInfoModel {
            name: self.name@,
            relation_name: self.relation_name@,
            column_types: self.column_types.deep_view(),
        }
    }
}

/// A value of a column: its text where the column holds texts and the table has
/// one, else the number.
pub open spec fn decoded_value(
    value: i32,
    types: Seq<DataType>,
    column: int,
    table: Seq<Seq<char>>,
) -> Seq<char> {
    match text_under(table, value) {
        Some(text) if 0 <= column < types.len() && types[column] == DataType::String => text,
        _ => int_text(value as int),
    }
}

/// The values of a tuple.
pub open spec fn decoded_tuple(
    tuple: Seq<i32>,
    types: Seq<DataType>,
    table: Seq<Seq<char>>,
) -> Seq<Seq<char>> {
    Seq::new(tuple.len(), |i: int| decoded_value(tuple[i], types, i, table))
}

/// Whether a character is white space.
pub open spec fn is_white(c: char) -> bool {
    ||| '\u{9}' <= c <= '\u{d}'
    ||| c == ' '
    ||| c == '\u{85}'
    ||| c == '\u{a0}'
    ||| c == '\u{1680}'
    ||| '\u{2000}' <= c <= '\u{200a}'
    ||| c == '\u{2028}'
    ||| c == '\u{2029}'
    ||| c == '\u{202f}'
    ||| c == '\u{205f}'
    ||| c == '\u{3000}'
}

/// A text without white space in front.
pub open spec fn trimmed_front(s: Seq<char>) -> Seq<char>
    decreases s.len(),
{
    if s.len() > 0 && is_white(s[0]) {
        trimmed_front(s.skip(1))
    } else {
        s
    }
}

/// A text without white space behind.
pub open spec fn trimmed_back(s: Seq<char>) -> Seq<char>
    decreases s.len(),
{
    if s.len() > 0 && is_white(s.last()) {
        trimmed_back(s.drop_last())
    } else {
        s
    }
}

/// The parts of a text between commas that have a space behind them.
pub open spec fn fields_of(s: Seq<char>) -> Seq<Seq<char>>
    decreases s.len(),
{
    if s.len() == 0 {
        seq![Seq::empty()]
    } else if s.len() > 1 && s[s.len() - 2] == ',' && s.last() == ' ' {
        fields_of(s.take(s.len() - 2)).push(Seq::empty())
    } else {
        let front = fields_of(s.drop_last());
        front.drop_last().push(front.last().push(s.last()))
    }
}

/// The number in a field; zero where there is none.
pub open spec fn field_number(field: Seq<char>) -> i32 {
    match i32_value(trimmed_back(trimmed_front(field))) {
        Some(value) => value,
        None => 0,
    }
}

/// The values in a line.
pub open spec fn decoded_line(line: Seq<char>, types: Seq<DataType>, table: Seq<Seq<char>>) -> Seq<
    Seq<char>,
> {
    Seq::new(
        fields_of(line).len(),
        |i: int| decoded_value(field_number(fields_of(line)[i]), types, i, table),
    )
}

/// A value of a column.
pub fn decode_value(
    val: i32,
    column_types: &Vec<DataType>,
    col_idx: usize,
    string_table: &StringTable,
) -> (out: String)
    ensures
        out@ == decoded_value(val, column_types@, col_idx as int, string_table.table()),
{
    if col_idx < column_types.len() && column_types[col_idx] == DataType::String {
        match string_table.decode(val) {
            Some(text) => text.to_owned(),
            None => i32_to_text(val),
        }
    } else {
        i32_to_text(val)
    }
}

fn is_white_space(c: char) -> (white: bool)
    ensures
        white == is_white(c),
{
    ('\u{9}' <= c && c <= '\u{d}') || c == ' ' || c == '\u{85}' || c == '\u{a0}' || c == '\u{1680}'
        || ('\u{2000}' <= c && c <= '\u{200a}') || c == '\u{2028}' || c == '\u{2029}' || c
        == '\u{202f}' || c == '\u{205f}' || c == '\u{3000}'
}

/// A text without white space at its ends.
fn trim(s: &str) -> (out: String)
    ensures
        out@ == trimmed_back(trimmed_front(s@)),
{
    let len: usize = s.unicode_len();
    let mut start: usize = 0;
    assert(s@.skip(0) =~= s@);
    while start < len && is_white_space(s.get_char(start))
        invariant
            start <= len,
            len == s@.len(),
            trimmed_front(s@) == trimmed_front(s@.skip(start as int)),
        decreases len - start,
    {
        assert(s@.skip(start as int).skip(1) =~= s@.skip(start + 1));
        start += 1;
    }
    let ghost front = s@.skip(start as int);
    assert(trimmed_front(s@) == front);
    let mut end: usize = len;
    assert(s@.subrange(start as int, end as int) =~= front);
    while end > start && is_white_space(s.get_char(end - 1))
        invariant
            start <= end <= len,
            len == s@.len(),
            trimmed_back(front) == trimmed_back(s@.subrange(start as int, end as int)),
        decreases end,
    {
        assert(s@.subrange(start as int, end as int).drop_last() =~= s@.subrange(
            start as int,
            end - 1,
        ));
        end -= 1;
    }
    s.substring_char(start, end).to_owned()
}

/// Cuts a text at its commas that have a space behind them.
fn split_fields(s: &str) -> (fields: Vec<String>)
    ensures
        fields.deep_view() == fields_of(s@),
{
    broadcast use group_take;

    let len: usize = s.unicode_len();
    let mut fields: Vec<String> = empty();
    let mut start: usize = 0;
    let mut i: usize = 0;
    assert(fields.deep_view().push(s@.subrange(0, 0)) =~= seq![Seq::empty()]);
    while i < len
        invariant
            start <= i <= len,
            len == s@.len(),
            fields.deep_view().push(s@.subrange(start as int, i as int)) == fields_of(
                s@.take(i as int),
            ),
            start == i && i > 0 ==> s@[i - 1] == ' ',
            i > start ==> fields.deep_view().push(s@.subrange(start as int, i - 1)) == fields_of(
                s@.take(i - 1),
            ),
        decreases len - i,
    {
        let ghost before = fields.deep_view().push(s@.subrange(start as int, i as int));
        assert(s@.take(i + 1).drop_last() == s@.take(i as int));
        if i > start && s.get_char(i - 1) == ',' && s.get_char(i) == ' ' {
            assert(s@.take(i + 1).take(i - 1) =~= s@.take(i - 1));
            push(&mut fields, s.substring_char(start, i - 1).to_owned());
            start = i + 1;
            assert(s@.subrange(start as int, i + 1) =~= Seq::empty());
            assert(fields.deep_view().push(s@.subrange(start as int, i + 1)) =~= fields_of(
                s@.take(i - 1),
            ).push(Seq::empty()));
        } else {
            assert(s@.subrange(start as int, i + 1) =~= before.last().push(s@[i as int]));
            assert(fields.deep_view().push(s@.subrange(start as int, i + 1))
                =~= before.drop_last().push(before.last().push(s@[i as int])));
        }
        i += 1;
    }
    push(&mut fields, s.substring_char(start, len).to_owned());
    fields
}

/// The values in a line.
pub fn decode_csv_line(
    line: &str,
    column_types: &Vec<DataType>,
    string_table: &StringTable,
) -> (out: Vec<String>)
    ensures
        out.deep_view() == decoded_line(line@, column_types@, string_table.table()),
{
    let fields = split_fields(line);
    let ghost model = decoded_line(line@, column_types@, string_table.table());
    assert(fields.len() == fields.deep_view().len());
    let mut out: Vec<String> = Vec::new();
    let mut i: usize = 0;
    while i < fields.len()
        invariant
            i <= fields.len(),
            fields.deep_view() == fields_of(line@),
            fields.len() == fields.deep_view().len(),
            model == decoded_line(line@, column_types@, string_table.table()),
            out.len() == i,
            forall|k: int| 0 <= k < i ==> (#[trigger] out@[k])@ == model[k],
        decreases fields.len() - i,
    {
        assert(fields.deep_view()[i as int] == fields@[i as int]@);
        let val: i32 = match parse_i32(trim(fields[i].as_str()).as_str()) {
            Some(val) => val,
            None => 0,
        };
        out.push(decode_value(val, column_types, i, string_table));
        i += 1;
    }
    assert(out.deep_view() =~= model);
    out
}

/// A line without the carriage return at its end.
pub open spec fn without_return(line: Seq<char>) -> Seq<char> {
    if line.len() > 0 && line.last() == '\r' {
        line.drop_last()
    } else {
        line
    }
}

/// The lines among parts that are not empty. Behind each part comes the end of a
/// line.
pub open spec fn full_lines(parts: Seq<Seq<char>>) -> Seq<Seq<char>>
    decreases parts.len(),
{
    if parts.len() == 0 {
        Seq::empty()
    } else {
        let front = full_lines(parts.drop_last());
        if without_return(parts.last()).len() == 0 {
            front
        } else {
            front.push(without_return(parts.last()))
        }
    }
}

/// The lines of a text that are not empty.
pub open spec fn lines_of(content: Seq<char>) -> Seq<Seq<char>> {
    let parts = split_text(content, '\n');
    let front = full_lines(parts.drop_last());
    if parts.last().len() == 0 {
        front
    } else {
        front.push(parts.last())
    }
}

/// How an output is introduced.
pub open spec fn output_title(name: Seq<char>) -> Seq<char> {
    "output \""@ + name + "\":"@
}

/// The tuples of an output, one in a line.
pub open spec fn output_tuples(
    name: Seq<char>,
    tuples: Seq<Seq<i32>>,
    types: Seq<DataType>,
    table: Seq<Seq<char>>,
) -> Seq<char>
    decreases tuples.len(),
{
    if tuples.len() == 0 {
        Seq::empty()
    } else {
        output_tuples(name, tuples.drop_last(), types, table) + output_title(name) + " "@
            + join_text(decoded_tuple(tuples.last(), types, table), ", "@) + "\n"@
    }
}

/// The rows of an output below its title.
pub open spec fn output_rows(
    lines: Seq<Seq<char>>,
    types: Seq<DataType>,
    table: Seq<Seq<char>>,
) -> Seq<char>
    decreases lines.len(),
{
    if lines.len() == 0 {
        Seq::empty()
    } else {
        output_rows(lines.drop_last(), types, table) + "  "@ + join_text(
            decoded_line(lines.last(), types, table),
            ", "@,
        ) + "\n"@
    }
}

/// What is shown of an output whose rows were written to a file: a single value
/// behind the title, else the rows below it.
pub open spec fn output_lines(
    name: Seq<char>,
    lines: Seq<Seq<char>>,
    types: Seq<DataType>,
    table: Seq<Seq<char>>,
) -> Seq<char> {
    if lines.len() == 0 {
        output_title(name) + " (empty)\n"@
    } else if lines.len() == 1 && types.len() == 1 {
        output_title(name) + " "@ + join_text(decoded_line(lines[0], types, table), ", "@) + "\n"@
    } else {
        output_title(name) + "\n"@ + output_rows(lines, types, table)
    }
}

fn write_title(name: &str) -> (out: String)
    ensures
        out@ == output_title(name@),
{
    let mut out = "output \"".to_owned();
    out.append(name);
    out.append("\":");
    out
}

fn decode_tuple(tuple: &Vec<i32>, column_types: &Vec<DataType>, string_table: &StringTable) -> (out:
    Vec<String>)
    ensures
        out.deep_view() == decoded_tuple(tuple@, column_types@, string_table.table()),
{
    let ghost model = decoded_tuple(tuple@, column_types@, string_table.table());
    let mut out: Vec<String> = Vec::new();
    let mut i: usize = 0;
    while i < tuple.len()
        invariant
            i <= tuple.len(),
            model == decoded_tuple(tuple@, column_types@, string_table.table()),
            out.len() == i,
            forall|k: int| 0 <= k < i ==> (#[trigger] out@[k])@ == model[k],
        decreases tuple.len() - i,
    {
        out.push(decode_value(tuple[i], column_types, i, string_table));
        i += 1;
    }
    assert(out.deep_view() =~= model);
    out
}

/// The lines of a text that are not empty.
pub fn content_lines(content: &str) -> (lines: Vec<String>)
    ensures
        lines.deep_view() == lines_of(content@),
{
    broadcast use group_take;

    let parts = split_str(content, '\n');
    let ghost models = parts.deep_view();
    proof {
        lemma_split_pieces(content@, '\n');
    }
    assert(parts.len() == models.len());
    let ghost front = models.drop_last();
    let mut lines: Vec<String> = empty();
    let mut i: usize = 0;
    while i < parts.len() - 1
        invariant
            i <= parts.len() - 1,
            models == parts.deep_view(),
            front == models.drop_last(),
            lines.deep_view() == full_lines(front.take(i as int)),
        decreases parts.len() - i,
    {
        assert(front.take(i + 1).drop_last() == front.take(i as int));
        assert(front[i as int] == parts@[i as int]@);
        let part = parts[i].as_str();
        let len: usize = part.unicode_len();
        let end: usize = if len > 0 && part.get_char(len - 1) == '\r' {
            len - 1
        } else {
            len
        };
        assert(part@.subrange(0, end as int) =~= without_return(part@));
        if end > 0 {
            push(&mut lines, part.substring_char(0, end).to_owned());
        }
        i += 1;
    }
    assert(front.take(i as int) =~= front);
    assert(models.last() == parts@[i as int]@);
    if parts[i].as_str().unicode_len() > 0 {
        push(&mut lines, parts[i].clone());
    }
    lines
}

/// What is shown of an output that is made of facts.
pub fn show_tuples(output: &OutputInfo, tuples: &Vec<Vec<i32>>, string_table: &StringTable) -> (out:
    String)
    ensures
        out@ == output_tuples(
            output.name@,
            tuples.deep_view(),
            output.column_types@,
            string_table.table(),
        ),
{
    broadcast use group_take;

    let ghost models = tuples.deep_view();
    let mut out = String::new();
    assert(out@ =~= Seq::empty());
    let mut i: usize = 0;
    while i < tuples.len()
        invariant
            i <= tuples.len(),
            models == tuples.deep_view(),
            out@ == output_tuples(
                output.name@,
                models.take(i as int),
                output.column_types@,
                string_table.table(),
            ),
        decreases tuples.len() - i,
    {
        assert(models.take(i + 1).drop_last() == models.take(i as int));
        assert(models[i as int] == tuples@[i as int].deep_view());
        assert(tuples@[i as int].deep_view() =~= tuples@[i as int]@);
        let values = decode_tuple(&tuples[i], &output.column_types, string_table);
        out.append(write_title(output.name.as_str()).as_str());
        out.append(" ");
        out.append(join(&values, ", ").as_str());
        out.append("\n");
        i += 1;
    }
    out
}

/// What is shown of an output, by what stands in the file of its relation. There
/// may be no file.
pub fn show_file(output: &OutputInfo, content: Option<&str>, string_table: &StringTable) -> (out:
    String)
    ensures
        out@ == match content {
            None => output_title(output.name@) + " (no results)\n"@,
            Some(content) => output_lines(
                output.name@,
                lines_of(content@),
                output.column_types@,
                string_table.table(),
            ),
        },
{
    broadcast use group_take;

    let mut out = write_title(output.name.as_str());
    let content = match content {
        Some(content) => content,
        None => {
            out.append(" (no results)\n");
            return out;
        },
    };
    let types = &output.column_types;
    let lines = content_lines(content);
    let ghost models = lines.deep_view();
    assert(lines.len() == models.len());
    if lines.len() == 0 {
        out.append(" (empty)\n");
    } else if lines.len() == 1 && types.len() == 1 {
        assert(models[0] == lines@[0]@);
        out.append(" ");
        out.append(
            join(&decode_csv_line(lines[0].as_str(), types, string_table), ", ").as_str(),
        );
        out.append("\n");
    } else {
        out.append("\n");
        let ghost start = out@;
        assert(start + output_rows(models.take(0), types@, string_table.table()) =~= start);
        let mut i: usize = 0;
        while i < lines.len()
            invariant
                i <= lines.len(),
                models == lines.deep_view(),
                out@ == start + output_rows(
                    models.take(i as int),
                    types@,
                    string_table.table(),
                ),
            decreases lines.len() - i,
        {
            assert(models.take(i + 1).drop_last() == models.take(i as int));
            assert(models[i as int] == lines@[i as int]@);
            out.append("  ");
            out.append(
                join(&decode_csv_line(lines[i].as_str(), types, string_table), ", ").as_str(),
            );
            out.append("\n");
            assert(out@ =~= start + output_rows(
                models.take(i + 1),
                types@,
                string_table.table(),
            ));
            i += 1;
        }
    }
    out
}

} // verus!
