//! What is printed of values, facts and outputs, and what is read from it again.
use vstd::prelude::*;
use vstd::string::*;
use crate::compiler::emit::{
    datalog_text, decl_lines, decl_named, facts_text, files_of, number_texts, rule_lines,
    shown_fact, shown_facts, shown_tuples, shown_value,
};
use crate::compiler::outputs::{
    decoded_line, decoded_tuple, field_number, fields_of, full_lines, is_white, lines_of,
    output_lines, output_rows, output_title, output_tuples, trimmed_back, trimmed_front,
    without_return,
};
use crate::compiler::translate::TranslationModel;
use crate::parsing::decl::{DataType, RelDeclModel};
use crate::parsing::rule::FLRuleModel;
use crate::reading::row::row_text;
use crate::text::{
    int_text, int_value, join_text, law_i32_text_round_trip, law_int_text_round_trip,
    law_only_numerals, law_parts_part_at_separators, lemma_int_text_chars, lemma_split_pieces,
    split_text, Written,
};

verus! {

proof fn lemma_fields_some(s: Seq<char>)
    ensures
        fields_of(s).len() > 0,
    decreases s.len(),
{
    if s.len() == 0 {
    } else if s.len() > 1 && s[s.len() - 2] == ',' && s.last() == ' ' {
        lemma_fields_some(s.take(s.len() - 2));
    } else {
        lemma_fields_some(s.drop_last());
    }
}

/// A text without a comma is one field, and a comma and a space between texts are where
/// their fields part, where no comma stands before them.
pub proof fn law_fields_part_at_commas(a: Seq<char>, b: Seq<char>)
    requires
        !b.contains(','),
    ensures
        fields_of(b) == seq![b],
        fields_of(a + ", "@ + b) == fields_of(a).push(b),
{
    reveal_strlit(", ");
    let start = a + ", "@;
    assert(start.take(start.len() - 2) =~= a);
    assert(start[start.len() - 2] == ',' && start.last() == ' ');
    assert(fields_of(start) == fields_of(a).push(Seq::empty()));
    lemma_field_goes_on(start, b);
    assert(fields_of(a).push(Seq::empty()).drop_last() =~= fields_of(a));
    assert(Seq::<char>::empty() + b =~= b);
    lemma_field_goes_on(Seq::empty(), b);
    assert(Seq::<char>::empty() + b =~= b);
    assert(fields_of(b) =~= seq![b]);
}

/// A text without a comma behind a text that does not end in one goes to the last field.
proof fn lemma_field_goes_on(a: Seq<char>, b: Seq<char>)
    requires
        !b.contains(','),
        a.len() > 0 ==> a.last() != ',',
    ensures
        fields_of(a + b) == fields_of(a).drop_last().push(fields_of(a).last() + b),
    decreases b.len(),
{
    lemma_fields_some(a);
    let before = fields_of(a);
    if b.len() == 0 {
        assert(a + b =~= a);
        assert(before.last() + b =~= before.last());
        assert(before.drop_last().push(before.last()) =~= before);
    } else {
        let front = b.drop_last();
        let all = a + b;
        assert forall|i: int| 0 <= i < front.len() implies front[i] != ',' by {
            assert(b.contains(b[i]));
        }
        lemma_field_goes_on(a, front);
        assert(all.drop_last() =~= a + front);
        assert(all.last() == b.last());
        if all.len() > 1 {
            if b.len() == 1 {
                assert(all[all.len() - 2] == a.last());
            } else {
                assert(b.contains(b[b.len() - 2]));
                assert(all[all.len() - 2] == b[b.len() - 2]);
            }
        }
        let middle = fields_of(a + front);
        assert(middle.drop_last() =~= before.drop_last());
        assert(middle.last().push(b.last()) =~= before.last() + b);
    }
}

proof fn lemma_no_comma(number: int)
    ensures
        !int_text(number).contains(','),
        int_text(number).len() > 0,
{
    if int_text(number).contains(',') {
        lemma_int_text_chars(number, ',');
    }
    law_int_text_round_trip(number);
}

proof fn lemma_fields_joined(parts: Seq<Seq<char>>)
    requires
        parts.len() > 0,
        forall|i: int| 0 <= i < parts.len() ==> !(#[trigger] parts[i]).contains(','),
    ensures
        fields_of(join_text(parts, ", "@)) == parts,
    decreases parts.len(),
{
    if parts.len() == 1 {
        law_fields_part_at_commas(Seq::empty(), parts[0]);
        assert(seq![parts[0]] =~= parts);
    } else {
        let front = parts.drop_last();
        assert forall|i: int| 0 <= i < front.len() implies !(#[trigger] front[i]).contains(',') by {
            assert(front[i] == parts[i]);
        }
        lemma_fields_joined(front);
        assert(!parts[parts.len() - 1].contains(','));
        law_fields_part_at_commas(join_text(front, ", "@), parts.last());
        assert(front.push(parts.last()) =~= parts);
    }
}

/// A row that was written holds its values, one in each field, in their order.
pub proof fn law_written_rows_hold_their_values(columns: Seq<i64>, i: int)
    requires
        0 <= i < columns.len(),
    ensures
        fields_of(row_text(columns)).len() == columns.len(),
        int_value(fields_of(row_text(columns))[i]) == Some(columns[i] as int),
{
    let parts = Seq::new(columns.len(), |i: int| int_text(columns[i] as int));
    assert forall|k: int| 0 <= k < parts.len() implies !(#[trigger] parts[k]).contains(',') by {
        lemma_no_comma(columns[k] as int);
    }
    lemma_fields_joined(parts);
    law_int_text_round_trip(columns[i] as int);
}

proof fn lemma_untrimmed(s: Seq<char>)
    requires
        s.len() > 0,
        !is_white(s[0]),
        !is_white(s.last()),
    ensures
        trimmed_back(trimmed_front(s)) == s,
{
}

/// White space around a number does not count: a field holds the number that is written
/// in it, with any white space before and behind it.
pub proof fn law_white_space_does_not_count(number: i32, before: Seq<char>, behind: Seq<char>)
    requires
        forall|i: int| 0 <= i < before.len() ==> is_white(#[trigger] before[i]),
        forall|i: int| 0 <= i < behind.len() ==> is_white(#[trigger] behind[i]),
    ensures
        field_number(before + int_text(number as int) + behind) == number,
{
    let s = int_text(number as int);
    law_int_text_round_trip(number as int);
    law_only_numerals(s);
    lemma_trimmed_before(before, s + behind);
    lemma_trimmed_behind(s, behind);
    assert(before + s + behind =~= before + (s + behind));
    assert((s + behind)[0] == s[0]);
    assert(trimmed_front(s + behind) == s + behind);
    lemma_untrimmed(s);
    assert(trimmed_back(s) == s);
    law_i32_text_round_trip(number);
}

proof fn lemma_trimmed_before(before: Seq<char>, s: Seq<char>)
    requires
        forall|i: int| 0 <= i < before.len() ==> is_white(#[trigger] before[i]),
    ensures
        trimmed_front(before + s) == trimmed_front(s),
    decreases before.len(),
{
    if before.len() == 0 {
        assert(before + s =~= s);
    } else {
        let rest = before.skip(1);
        assert forall|i: int| 0 <= i < rest.len() implies is_white(#[trigger] rest[i]) by {
            assert(rest[i] == before[i + 1]);
        }
        lemma_trimmed_before(rest, s);
        assert((before + s)[0] == before[0]);
        assert((before + s).skip(1) =~= rest + s);
    }
}

proof fn lemma_trimmed_behind(s: Seq<char>, behind: Seq<char>)
    requires
        forall|i: int| 0 <= i < behind.len() ==> is_white(#[trigger] behind[i]),
    ensures
        trimmed_back(s + behind) == trimmed_back(s),
    decreases behind.len(),
{
    if behind.len() == 0 {
        assert(s + behind =~= s);
    } else {
        let front = behind.drop_last();
        assert forall|i: int| 0 <= i < front.len() implies is_white(#[trigger] front[i]) by {
            assert(front[i] == behind[i]);
        }
        assert(is_white(behind[behind.len() - 1]));
        lemma_trimmed_behind(s, front);
        assert((s + behind).last() == behind.last());
        assert((s + behind).drop_last() =~= s + front);
    }
}

/// A tuple that was written as a line is decoded from the line as it is by itself.
pub proof fn law_lines_are_decoded_as_their_tuples(
    tuple: Seq<i32>,
    types: Seq<DataType>,
    table: Seq<Seq<char>>,
)
    requires
        tuple.len() > 0,
    ensures
        decoded_line(join_text(number_texts(tuple), ", "@), types, table) == decoded_tuple(
            tuple,
            types,
            table,
        ),
{
    let parts = number_texts(tuple);
    let line = join_text(parts, ", "@);
    assert forall|k: int| 0 <= k < parts.len() implies !(#[trigger] parts[k]).contains(',') by {
        lemma_no_comma(tuple[k] as int);
    }
    lemma_fields_joined(parts);
    assert forall|k: int| 0 <= k < tuple.len() implies field_number(#[trigger] parts[k])
        == tuple[k] by {
        law_white_space_does_not_count(tuple[k], Seq::empty(), Seq::empty());
        assert(Seq::<char>::empty() + int_text(tuple[k] as int) + Seq::<char>::empty()
            =~= int_text(tuple[k] as int));
    }
    assert(decoded_line(line, types, table) =~= decoded_tuple(tuple, types, table));
}

/// What is shown of an output is one line under its name for each tuple, in their order.
pub proof fn law_outputs_show_each_tuple(
    name: Seq<char>,
    a: Seq<Seq<i32>>,
    b: Seq<Seq<i32>>,
    types: Seq<DataType>,
    table: Seq<Seq<char>>,
)
    ensures
        output_tuples(name, Seq::empty(), types, table) == Seq::<char>::empty(),
        a.len() == 1 ==> output_tuples(name, a, types, table) == "output \""@ + name + "\":"@
            + " "@ + join_text(decoded_tuple(a[0], types, table), ", "@) + "\n"@,
        output_tuples(name, a + b, types, table) == output_tuples(name, a, types, table)
            + output_tuples(name, b, types, table),
    decreases b.len(),
{
    if a.len() == 1 {
        assert(output_tuples(name, a.drop_last(), types, table) =~= Seq::empty());
        assert(a.last() == a[0]);
        assert(output_tuples(name, a, types, table) =~= "output \""@ + name + "\":"@ + " "@
            + join_text(decoded_tuple(a[0], types, table), ", "@) + "\n"@);
    }
    if b.len() == 0 {
        assert(a + b =~= a);
        assert(output_tuples(name, a, types, table) + Seq::<char>::empty() =~= output_tuples(
            name,
            a,
            types,
            table,
        ));
    } else {
        law_outputs_show_each_tuple(name, a, b.drop_last(), types, table);
        assert((a + b).drop_last() =~= a + b.drop_last());
        assert(output_tuples(name, a + b, types, table) =~= output_tuples(name, a, types, table)
            + output_tuples(name, b, types, table));
    }
}

/// The lines of an output are shown one below the other, indented. A single value stands
/// behind the title, and where there are no lines, the title says so.
pub proof fn law_outputs_show_each_line(
    name: Seq<char>,
    a: Seq<Seq<char>>,
    b: Seq<Seq<char>>,
    types: Seq<DataType>,
    table: Seq<Seq<char>>,
)
    ensures
        output_rows(Seq::empty(), types, table) == Seq::<char>::empty(),
        a.len() == 1 ==> output_rows(a, types, table) == "  "@ + join_text(
            decoded_line(a[0], types, table),
            ", "@,
        ) + "\n"@,
        output_rows(a + b, types, table) == output_rows(a, types, table) + output_rows(
            b,
            types,
            table,
        ),
        a.len() > 1 || (a.len() == 1 && types.len() != 1) ==> output_lines(name, a, types, table)
            == output_title(name) + "\n"@ + output_rows(a, types, table),
        a.len() == 0 ==> output_lines(name, a, types, table) == output_title(name)
            + " (empty)\n"@,
        a.len() == 1 && types.len() == 1 ==> output_lines(name, a, types, table)
            == output_title(name) + " "@ + join_text(decoded_line(a[0], types, table), ", "@)
            + "\n"@,
    decreases b.len(),
{
    if a.len() == 1 {
        assert(output_rows(a.drop_last(), types, table) =~= Seq::empty());
        assert(a.last() == a[0]);
        assert(output_rows(a, types, table) =~= "  "@ + join_text(
            decoded_line(a[0], types, table),
            ", "@,
        ) + "\n"@);
    }
    if b.len() == 0 {
        assert(a + b =~= a);
        assert(output_rows(a, types, table) + Seq::<char>::empty() =~= output_rows(
            a,
            types,
            table,
        ));
    } else {
        law_outputs_show_each_line(name, a, b.drop_last(), types, table);
        assert((a + b).drop_last() =~= a + b.drop_last());
        assert(output_rows(a + b, types, table) =~= output_rows(a, types, table) + output_rows(
            b,
            types,
            table,
        ));
    }
}

/// The lines of a text end at line ends. A carriage return before the end does not
/// belong to a line, and a line that holds nothing is none.
pub proof fn law_lines_end_at_line_ends(line: Seq<char>, rest: Seq<char>)
    requires
        !line.contains('\n'),
        line.len() > 0 ==> line.last() != '\r',
    ensures
        lines_of(Seq::empty()) == Seq::<Seq<char>>::empty(),
        line.len() > 0 ==> lines_of(line) == seq![line],
        line.len() > 0 ==> lines_of(line.push('\n') + rest) == seq![line] + lines_of(rest),
        line.len() > 0 ==> lines_of(line.push('\r').push('\n') + rest) == seq![line] + lines_of(
            rest,
        ),
        line.len() == 0 ==> lines_of(line.push('\n') + rest) == lines_of(rest),
{
    let parts = split_text(rest, '\n');
    lemma_split_pieces(rest, '\n');
    law_parts_part_at_separators(line, rest, '\n');
    law_parts_part_at_separators(line, line, '\n');
    law_parts_part_at_separators(Seq::empty(), rest, '\n');
    assert(split_text(Seq::empty(), '\n') =~= seq![Seq::empty()]);
    assert(seq![Seq::<char>::empty()].drop_last() =~= Seq::empty());
    assert(full_lines(Seq::empty()) =~= Seq::empty());
    assert(seq![line].drop_last() =~= Seq::empty());
    assert(Seq::empty().push(line) =~= seq![line]);
    lemma_first_line(line, parts);
    assert(seq![line] + parts == split_text(line.push('\n') + rest, '\n'));
    if line.len() > 0 {
        assert(lines_of(line.push('\n') + rest) =~= seq![line] + lines_of(rest));
        let returned = line.push('\r');
        assert(!returned.contains('\n')) by {
            assert forall|i: int| 0 <= i < returned.len() implies returned[i] != '\n' by {
                if i < line.len() {
                    assert(line.contains(line[i]));
                }
            }
        }
        law_parts_part_at_separators(returned, rest, '\n');
        lemma_first_line(returned, parts);
        assert(returned.drop_last() =~= line);
        assert(lines_of(returned.push('\n') + rest) =~= seq![line] + lines_of(rest));
    } else {
        assert(line =~= Seq::empty());
        assert(lines_of(line.push('\n') + rest) =~= lines_of(rest));
    }
}

proof fn lemma_first_line(line: Seq<char>, parts: Seq<Seq<char>>)
    requires
        parts.len() > 0,
    ensures
        (seq![line] + parts).last() == parts.last(),
        full_lines((seq![line] + parts).drop_last()) == (if without_return(line).len() == 0 {
            Seq::empty()
        } else {
            seq![without_return(line)]
        }) + full_lines(parts.drop_last()),
{
    let front = parts.drop_last();
    assert((seq![line] + parts).drop_last() =~= seq![line] + front);
    lemma_lines_from(line, front);
}

proof fn lemma_lines_from(line: Seq<char>, parts: Seq<Seq<char>>)
    ensures
        full_lines(seq![line] + parts) == (if without_return(line).len() == 0 {
            Seq::empty()
        } else {
            seq![without_return(line)]
        }) + full_lines(parts),
    decreases parts.len(),
{
    let first = if without_return(line).len() == 0 {
        Seq::empty()
    } else {
        seq![without_return(line)]
    };
    if parts.len() == 0 {
        assert(seq![line] + parts =~= seq![line]);
        assert(seq![line].drop_last() =~= Seq::empty());
        assert(full_lines(seq![line].drop_last()) =~= Seq::empty());
        assert(full_lines(seq![line]) =~= first + full_lines(parts));
    } else {
        lemma_lines_from(line, parts.drop_last());
        assert((seq![line] + parts).drop_last() =~= seq![line] + parts.drop_last());
        assert((seq![line] + parts).last() == parts.last());
        assert(full_lines(seq![line] + parts) =~= first + full_lines(parts));
    }
}

/// Declarations and rules are written one to a line, in their order.
pub proof fn law_programs_are_written_line_by_line(
    decls: Seq<RelDeclModel>,
    more_decls: Seq<RelDeclModel>,
    rules: Seq<FLRuleModel>,
    more_rules: Seq<FLRuleModel>,
)
    ensures
        decl_lines(decls + more_decls) == decl_lines(decls) + decl_lines(more_decls),
        decls.len() == 1 ==> decl_lines(decls) == ".decl "@ + decls[0].text() + "\n"@,
        rule_lines(rules + more_rules) == rule_lines(rules) + rule_lines(more_rules),
        rules.len() == 1 ==> rule_lines(rules) == rules[0].text() + "\n"@,
{
    lemma_decl_lines(decls, more_decls);
    lemma_rule_lines(rules, more_rules);
    if decls.len() == 1 {
        assert(decl_lines(decls.drop_last()) =~= Seq::empty());
        assert(decl_lines(decls) =~= ".decl "@ + decls[0].text() + "\n"@);
    }
    if rules.len() == 1 {
        assert(rule_lines(rules.drop_last()) =~= Seq::empty());
        assert(rule_lines(rules) =~= rules[0].text() + "\n"@);
    }
}

proof fn lemma_decl_lines(a: Seq<RelDeclModel>, b: Seq<RelDeclModel>)
    ensures
        decl_lines(a + b) == decl_lines(a) + decl_lines(b),
    decreases b.len(),
{
    if b.len() == 0 {
        assert(a + b =~= a);
        assert(decl_lines(a) + decl_lines(b) =~= decl_lines(a));
    } else {
        lemma_decl_lines(a, b.drop_last());
        assert((a + b).drop_last() =~= a + b.drop_last());
        assert(decl_lines(a + b) =~= decl_lines(a) + decl_lines(b));
    }
}

proof fn lemma_rule_lines(a: Seq<FLRuleModel>, b: Seq<FLRuleModel>)
    ensures
        rule_lines(a + b) == rule_lines(a) + rule_lines(b),
    decreases b.len(),
{
    if b.len() == 0 {
        assert(a + b =~= a);
        assert(rule_lines(a) + rule_lines(b) =~= rule_lines(a));
    } else {
        lemma_rule_lines(a, b.drop_last());
        assert((a + b).drop_last() =~= a + b.drop_last());
        assert(rule_lines(a + b) =~= rule_lines(a) + rule_lines(b));
    }
}

/// The declaration of a name is the first one with that name.
pub proof fn law_first_declaration_counts(decls: Seq<RelDeclModel>, name: Seq<char>)
    ensures
        decl_named(decls, name) is None <==> forall|i: int|
            0 <= i < decls.len() ==> (#[trigger] decls[i]).name != name,
        decl_named(decls, name) matches Some(decl) ==> decl.name == name && exists|i: int|
            0 <= i < decls.len() && #[trigger] decls[i] == decl && forall|j: int|
                0 <= j < i ==> (#[trigger] decls[j]).name != name,
    decreases decls.len(),
{
    if decls.len() > 0 {
        let front = decls.drop_last();
        let n = decls.len() - 1;
        law_first_declaration_counts(front, name);
        assert(forall|i: int| 0 <= i < front.len() ==> front[i] == decls[i]);
        assert(decls[n] == decls.last());
        if let Some(decl) = decl_named(front, name) {
            let i = choose|i: int|
                0 <= i < front.len() && #[trigger] front[i] == decl && forall|j: int|
                    0 <= j < i ==> (#[trigger] front[j]).name != name;
            assert(decls[i] == decl);
            assert forall|j: int| 0 <= j < i implies (#[trigger] decls[j]).name != name by {
                assert(front[j] == decls[j]);
            }
        } else {
            assert forall|j: int| 0 <= j < n implies (#[trigger] decls[j]).name != name by {
                assert(front[j] == decls[j]);
            }
        }
    }
}

/// A fact is shown as a comment with its values: a text in quotes where the column holds
/// texts, and numbers as they are.
pub proof fn law_facts_are_shown(
    name: Seq<char>,
    decl: RelDeclModel,
    tuple: Seq<i32>,
    value: i32,
    table: Seq<Seq<char>>,
)
    requires
        tuple.len() < decl.attributes.len(),
    ensures
        ({
            let n = tuple.len() as int;
            let shown = shown_value(Some(decl), n, value, table);
            let more = shown_fact(name, Some(decl), tuple.push(value), table);
            &&& decl.attributes[n].data_type == DataType::Integer ==> shown == int_text(
                value as int,
            )
            &&& decl.attributes[n].data_type == DataType::String && 0 <= value < table.len()
                ==> shown == "\""@ + table[value as int] + "\""@
            &&& n == 0 ==> more == "// "@ + name + "("@ + shown + ").\n"@
            &&& n > 0 ==> exists|start: Seq<char>|
                shown_fact(name, Some(decl), tuple, table) == start + ").\n"@ && #[trigger] (start
                    + ", "@ + shown + ").\n"@) == more
        }),
{
    let n = tuple.len() as int;
    let long = tuple.push(value);
    let texts = Seq::new(long.len(), |i: int| shown_value(Some(decl), i, long[i], table));
    let front = Seq::new(tuple.len(), |i: int| shown_value(Some(decl), i, tuple[i], table));
    let shown = shown_value(Some(decl), n, value, table);
    assert(texts.drop_last() =~= front);
    assert(texts.last() == shown);
    if n == 0 {
        assert(texts[0] == shown);
    } else {
        let start = "// "@ + name + "("@ + join_text(front, ", "@);
        assert(shown_fact(name, Some(decl), tuple, table) =~= start + ").\n"@);
        assert(start + ", "@ + shown + ").\n"@ =~= shown_fact(name, Some(decl), long, table));
    }
}

/// The facts of a relation are shown one after the other, and those of the relations one
/// relation after the other, with an empty line before each and by its declaration.
pub proof fn law_facts_are_shown_in_order(
    name: Seq<char>,
    decl: Option<RelDeclModel>,
    tuples: Seq<Seq<i32>>,
    tuple: Seq<i32>,
    facts: Seq<(Seq<char>, Seq<Seq<i32>>)>,
    edbs: Seq<RelDeclModel>,
    table: Seq<Seq<char>>,
)
    ensures
        shown_tuples(name, decl, Seq::empty(), table) == Seq::<char>::empty(),
        shown_tuples(name, decl, tuples.push(tuple), table) == shown_tuples(
            name,
            decl,
            tuples,
            table,
        ) + shown_fact(name, decl, tuple, table),
        shown_facts(Seq::empty(), edbs, table) == Seq::<char>::empty(),
        shown_facts(facts.push((name, tuples)), edbs, table) == shown_facts(facts, edbs, table)
            + "\n"@ + shown_tuples(name, decl_named(edbs, name), tuples, table),
{
    assert(tuples.push(tuple).drop_last() =~= tuples);
    assert(facts.push((name, tuples)).drop_last() =~= facts);
}

/// Each relation of facts has a file of its own, which is named for it and holds its
/// tuples, and the tuples of two parts stand in it one after the other.
pub proof fn law_files_hold_their_facts(
    facts: Seq<(Seq<char>, Seq<Seq<i32>>)>,
    i: int,
    a: Seq<Seq<i32>>,
    b: Seq<Seq<i32>>,
)
    requires
        0 <= i < facts.len(),
    ensures
        files_of(facts).len() == facts.len(),
        files_of(facts)[i].0 == facts[i].0 + ".facts"@,
        files_of(facts)[i].1 == facts_text(facts[i].1),
        facts_text(a + b) == facts_text(a) + facts_text(b),
    decreases b.len(),
{
    if b.len() == 0 {
        assert(a + b =~= a);
        assert(facts_text(a) + facts_text(b) =~= facts_text(a));
    } else {
        law_files_hold_their_facts(facts, i, a, b.drop_last());
        assert((a + b).drop_last() =~= a + b.drop_last());
        assert(facts_text(a + b) =~= facts_text(a) + facts_text(b));
    }
}

/// A program is written as what is given, the facts, what is derived and the rules, in
/// this order. What is given and what is derived stand under titles of their own, and a
/// part that is empty is left out with its title.
pub proof fn law_parts_of_programs_are_written_in_order(result: TranslationModel)
    ensures
        ({
            let rules = TranslationModel { rules: Seq::empty(), ..result };
            let idbs = TranslationModel { idbs: Seq::empty(), ..rules };
            let facts = TranslationModel { facts: Seq::empty(), ..idbs };
            let edbs = TranslationModel { edbs: Seq::empty(), ..facts };
            &&& datalog_text(edbs) == Seq::<char>::empty()
            &&& facts.edbs.len() > 0 ==> datalog_text(facts) == ".in\n"@ + decl_lines(result.edbs)
            &&& datalog_text(idbs) == datalog_text(facts) + shown_facts(
                result.facts,
                result.edbs,
                result.table,
            )
            &&& result.idbs.len() > 0 ==> datalog_text(rules) == datalog_text(idbs)
                + "\n.printsize\n"@ + decl_lines(result.idbs)
            &&& result.idbs.len() == 0 ==> datalog_text(rules) == datalog_text(idbs)
            &&& result.rules.len() > 0 ==> datalog_text(result) == datalog_text(rules) + "\n"@
                + rule_lines(result.rules)
            &&& result.rules.len() == 0 ==> datalog_text(result) == datalog_text(rules)
        }),
{
    let rules = TranslationModel { rules: Seq::empty(), ..result };
    let idbs = TranslationModel { idbs: Seq::empty(), ..rules };
    let facts = TranslationModel { facts: Seq::empty(), ..idbs };
    let edbs = TranslationModel { edbs: Seq::empty(), ..facts };
    assert(shown_facts(Seq::empty(), result.edbs, result.table) =~= Seq::empty());
    assert(shown_facts(Seq::empty(), Seq::empty(), result.table) =~= Seq::empty());
    assert(datalog_text(edbs) =~= Seq::empty());
    if facts.edbs.len() > 0 {
        assert(datalog_text(facts) =~= ".in\n"@ + decl_lines(result.edbs));
    }
    assert(datalog_text(idbs) =~= datalog_text(facts) + shown_facts(
        result.facts,
        result.edbs,
        result.table,
    ));
    if result.idbs.len() > 0 {
        assert(datalog_text(rules) =~= datalog_text(idbs) + "\n.printsize\n"@ + decl_lines(
            result.idbs,
        ));
    } else {
        assert(datalog_text(rules) =~= datalog_text(idbs));
    }
    if result.rules.len() > 0 {
        assert(datalog_text(result) =~= datalog_text(rules) + "\n"@ + rule_lines(result.rules));
    } else {
        assert(datalog_text(result) =~= datalog_text(rules));
    }
}

proof fn lemma_trim_keeps(s: Seq<char>, c: char)
    requires
        s.contains(c),
        !is_white(c),
    ensures
        trimmed_front(s).contains(c),
    decreases s.len(),
{
    if s.len() > 0 && is_white(s[0]) {
        let i = choose|i: int| 0 <= i < s.len() && s[i] == c;
        assert(s.skip(1)[i - 1] == c);
        lemma_trim_keeps(s.skip(1), c);
    }
}

proof fn lemma_trim_back_keeps(s: Seq<char>, c: char)
    requires
        s.contains(c),
        !is_white(c),
    ensures
        trimmed_back(s).contains(c),
    decreases s.len(),
{
    if s.len() > 0 && is_white(s.last()) {
        let i = choose|i: int| 0 <= i < s.len() && s[i] == c;
        assert(s.drop_last()[i] == c);
        lemma_trim_back_keeps(s.drop_last(), c);
    }
}

/// A field that holds anything that belongs to no number counts as zero.
pub proof fn law_other_fields_count_as_zero(field: Seq<char>, c: char)
    requires
        field.contains(c),
        !is_white(c),
        !('0' <= c <= '9'),
        c != '-',
        c != '+',
    ensures
        field_number(field) == 0,
{
    lemma_trim_keeps(field, c);
    lemma_trim_back_keeps(trimmed_front(field), c);
    let text = trimmed_back(trimmed_front(field));
    law_only_numerals(text);
    if int_value(text) is Some {
        let i = choose|i: int| 0 <= i < text.len() && text[i] == c;
        assert(i == 0 || '0' <= text[i] <= '9');
    }
}

} // verus!
