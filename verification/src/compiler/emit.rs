//! Programs and facts written out.
use vstd::prelude::*;
use vstd::string::*;
use crate::compiler::string_table::{text_under, StringTable};
use crate::compiler::translate::{quote, quoted, CompileResult, TranslationModel};
use crate::lists::{empty, group_take, push};
use crate::ordered::Ordered;
use crate::parsing::decl::{DataType, RelDecl, RelDeclModel};
use crate::parsing::rule::{FLRule, FLRuleModel};
use crate::text::{
    i32_to_text, i32_value, int_text, join, join_text, law_i32_text_round_trip,
    law_split_undoes_join, lemma_int_text_chars, lemma_split_whole, split_text, Render, Written,
};

verus! {

/// Declarations, one in a line.
pub open spec fn decl_lines(decls: Seq<RelDeclModel>) -> Seq<char>
    decreases decls.len(),
{
    if decls.len() == 0 {
        Seq::empty()
    } else {
        decl_lines(decls.drop_last()) + ".decl "@ + decls.last().text() + "\n"@
    }
}

/// Rules, one in a line.
pub open spec fn rule_lines(rules: Seq<FLRuleModel>) -> Seq<char>
    decreases rules.len(),
{
    if rules.len() == 0 {
        Seq::empty()
    } else {
        rule_lines(rules.drop_last()) + rules.last().text() + "\n"@
    }
}

/// The first declaration of a relation.
pub open spec fn decl_named(decls: Seq<RelDeclModel>, name: Seq<char>) -> Option<RelDeclModel>
    decreases decls.len(),
{
    if decls.len() == 0 {
        None
    } else {
        match decl_named(decls.drop_last(), name) {
            Some(decl) => Some(decl),
            None => if decls.last().name == name {
                Some(decls.last())
            } else {
                None
            },
        }
    }
}

/// Whether a column of a relation holds texts.
pub open spec fn is_text_column(decl: Option<RelDeclModel>, column: int) -> bool {
    match decl {
        Some(decl) => column < decl.attributes.len() && decl.attributes[column].data_type
            == DataType::String,
        None => false,
    }
}

/// A value of a fact as it is shown: a text in quotes where the column holds
/// texts and the table has one, else the number.
pub open spec fn shown_value(
    decl: Option<RelDeclModel>,
    column: int,
    value: i32,
    table: Seq<Seq<char>>,
) -> Seq<char> {
    match text_under(table, value) {
        Some(text) if is_text_column(decl, column) => quoted(text),
        _ => int_text(value as int),
    }
}

/// A fact as it is shown.
pub open spec fn shown_fact(
    name: Seq<char>,
    decl: Option<RelDeclModel>,
    tuple: Seq<i32>,
    table: Seq<Seq<char>>,
) -> Seq<char> {
    "// "@ + name + "("@ + join_text(
        Seq::new(tuple.len(), |i: int| shown_value(decl, i, tuple[i], table)),
        ", "@,
    ) + ").\n"@
}

/// The facts of a relation as they are shown.
pub open spec fn shown_tuples(
    name: Seq<char>,
    decl: Option<RelDeclModel>,
    tuples: Seq<Seq<i32>>,
    table: Seq<Seq<char>>,
) -> Seq<char>
    decreases tuples.len(),
{
    if tuples.len() == 0 {
        Seq::empty()
    } else {
        shown_tuples(name, decl, tuples.drop_last(), table) + shown_fact(
            name,
            decl,
            tuples.last(),
            table,
        )
    }
}

/// The facts of all relations as they are shown, an empty line before each
/// relation.
pub open spec fn shown_facts(
    facts: Seq<(Seq<char>, Seq<Seq<i32>>)>,
    edbs: Seq<RelDeclModel>,
    table: Seq<Seq<char>>,
) -> Seq<char>
    decreases facts.len(),
{
    if facts.len() == 0 {
        Seq::empty()
    } else {
        let (name, tuples) = facts.last();
        shown_facts(facts.drop_last(), edbs, table) + "\n"@ + shown_tuples(
            name,
            decl_named(edbs, name),
            tuples,
            table,
        )
    }
}

/// A section of a program, which is left out where there is nothing in it.
pub open spec fn section(is_there: bool, title: Seq<char>, lines: Seq<char>) -> Seq<char> {
    if is_there {
        title + lines
    } else {
        Seq::empty()
    }
}

/// A translated program as text: what is given, its facts, what is derived, and
/// the rules.
pub open spec fn datalog_text(result: TranslationModel) -> Seq<char> {
    section(result.edbs.len() > 0, ".in\n"@, decl_lines(result.edbs)) + shown_facts(
        result.facts,
        result.edbs,
        result.table,
    ) + section(result.idbs.len() > 0, "\n.printsize\n"@, decl_lines(result.idbs)) + section(
        result.rules.len() > 0,
        "\n"@,
        rule_lines(result.rules),
    )
}

fn write_decls(out: &mut String, decls: &Vec<RelDecl>)
    ensures
        final(out)@ == old(out)@ + decl_lines(decls.deep_view()),
{
    broadcast use group_take;

    let ghost start = out@;
    let ghost models = decls.deep_view();
    assert(start + decl_lines(models.take(0)) =~= start);
    let mut i: usize = 0;
    while i < decls.len()
        invariant
            i <= decls.len(),
            models == decls.deep_view(),
            out@ == start + decl_lines(models.take(i as int)),
        decreases decls.len() - i,
    {
        assert(models.take(i + 1).drop_last() == models.take(i as int));
        assert(models[i as int] == decls@[i as int].deep_view());
        out.append(".decl ");
        out.append(decls[i].to_string().as_str());
        out.append("\n");
        assert(out@ =~= start + decl_lines(models.take(i + 1)));
        i += 1;
    }
}

fn write_rules(out: &mut String, rules: &Vec<FLRule>)
    ensures
        final(out)@ == old(out)@ + rule_lines(rules.deep_view()),
{
    broadcast use group_take;

    let ghost start = out@;
    let ghost models = rules.deep_view();
    assert(start + rule_lines(models.take(0)) =~= start);
    let mut i: usize = 0;
    while i < rules.len()
        invariant
            i <= rules.len(),
            models == rules.deep_view(),
            out@ == start + rule_lines(models.take(i as int)),
        decreases rules.len() - i,
    {
        assert(models.take(i + 1).drop_last() == models.take(i as int));
        assert(models[i as int] == rules@[i as int].deep_view());
        out.append(rules[i].to_string().as_str());
        out.append("\n");
        assert(out@ =~= start + rule_lines(models.take(i + 1)));
        i += 1;
    }
}

fn find_decl<'a>(decls: &'a Vec<RelDecl>, name: &str) -> (decl: Option<&'a RelDecl>)
    ensures
        decl.deep_view() == decl_named(decls.deep_view(), name@),
{
    broadcast use group_take;

    let ghost models = decls.deep_view();
    let mut decl: Option<&'a RelDecl> = None;
    let mut i: usize = 0;
    while i < decls.len()
        invariant
            i <= decls.len(),
            models == decls.deep_view(),
            decl.deep_view() == decl_named(models.take(i as int), name@),
        decreases decls.len() - i,
    {
        assert(models.take(i + 1).drop_last() == models.take(i as int));
        assert(models[i as int] == decls@[i as int].deep_view());
        if decl.is_none() && crate::text::same_text(decls[i].name(), name) {
            decl = Some(&decls[i]);
        }
        i += 1;
    }
    decl
}

fn show_value(decl: Option<&RelDecl>, column: usize, value: i32, string_table: &StringTable) -> (out:
    String)
    ensures
        out@ == shown_value(decl.deep_view(), column as int, value, string_table.table()),
{
    let is_text = match decl {
        Some(decl) => {
            let attributes = decl.attributes();
            assert(attributes.len() == attributes.deep_view().len());
            if column < attributes.len() {
                assert(attributes.deep_view()[column as int]
                    == attributes@[column as int].deep_view());
                *attributes[column].data_type() == DataType::String
            } else {
                false
            }
        },
        None => false,
    };
    if is_text {
        match string_table.decode(value) {
            Some(text) => quote(text),
            None => i32_to_text(value),
        }
    } else {
        i32_to_text(value)
    }
}

fn show_fact(name: &str, decl: Option<&RelDecl>, tuple: &Vec<i32>, string_table: &StringTable) -> (out:
    String)
    ensures
        out@ == shown_fact(name@, decl.deep_view(), tuple@, string_table.table()),
{
    let ghost shown = Seq::new(
        tuple@.len(),
        |i: int| shown_value(decl.deep_view(), i, tuple@[i], string_table.table()),
    );
    let mut values: Vec<String> = Vec::new();
    let mut i: usize = 0;
    while i < tuple.len()
        invariant
            i <= tuple.len(),
            values.len() == i,
            shown == Seq::new(
                tuple@.len(),
                |i: int| shown_value(decl.deep_view(), i, tuple@[i], string_table.table()),
            ),
            forall|k: int| 0 <= k < i ==> (#[trigger] values@[k])@ == shown[k],
        decreases tuple.len() - i,
    {
        values.push(show_value(decl, i, tuple[i], string_table));
        i += 1;
    }
    assert(values.deep_view() =~= shown);
    let mut out = "// ".to_owned();
    out.append(name);
    out.append("(");
    out.append(join(&values, ", ").as_str());
    out.append(").\n");
    out
}

fn show_tuples(
    name: &str,
    decl: Option<&RelDecl>,
    tuples: &Vec<Vec<i32>>,
    string_table: &StringTable,
) -> (out: String)
    ensures
        out@ == shown_tuples(name@, decl.deep_view(), tuples.deep_view(), string_table.table()),
{
    broadcast use group_take;

    let ghost models = tuples.deep_view();
    let mut out = String::new();
    assert(out@ =~= Seq::empty());
    let mut i: usize = 0;
    while i < tuples.len()
        invariant
            i <= tuples.len(),
            models == tuples.deep_view(),
            out@ == shown_tuples(
                name@,
                decl.deep_view(),
                models.take(i as int),
                string_table.table(),
            ),
        decreases tuples.len() - i,
    {
        assert(models.take(i + 1).drop_last() == models.take(i as int));
        assert(models[i as int] == tuples@[i as int].deep_view());
        assert(tuples@[i as int].deep_view() =~= tuples@[i as int]@);
        out.append(show_fact(name, decl, &tuples[i], string_table).as_str());
        i += 1;
    }
    out
}

fn show_facts(
    facts: &Ordered<Vec<Vec<i32>>>,
    edbs: &Vec<RelDecl>,
    string_table: &StringTable,
) -> (out: String)
    requires
        facts.wf(),
    ensures
        out@ == shown_facts(facts.deep_view(), edbs.deep_view(), string_table.table()),
{
    broadcast use group_take;

    let ghost models = facts.deep_view();
    let mut out = String::new();
    assert(out@ =~= Seq::empty());
    let len: usize = facts.len();
    let mut i: usize = 0;
    while i < len
        invariant
            i <= len,
            len == models.len(),
            facts.wf(),
            models == facts.deep_view(),
            out@ == shown_facts(models.take(i as int), edbs.deep_view(), string_table.table()),
        decreases len - i,
    {
        assert(models.take(i + 1).drop_last() == models.take(i as int));
        let name = facts.name_at(i);
        let decl = find_decl(edbs, name.as_str());
        out.append("\n");
        out.append(show_tuples(name.as_str(), decl, facts.value_at(i), string_table).as_str());
        i += 1;
    }
    out
}

/// A translated program as text.
pub fn emit_datalog(result: &CompileResult) -> (out: String)
    requires
        result.wf(),
    ensures
        out@ == datalog_text(result.model()),
{
    let edbs = result.program.edbs();
    let idbs = result.program.idbs();
    let rules = result.program.rules();
    assert(edbs.len() == edbs.deep_view().len());
    assert(idbs.len() == idbs.deep_view().len());
    assert(rules.len() == rules.deep_view().len());
    let ghost model = result.model();
    let mut out = String::new();
    if edbs.len() > 0 {
        out.append(".in\n");
        write_decls(&mut out, edbs);
    }
    assert(out@ =~= section(model.edbs.len() > 0, ".in\n"@, decl_lines(model.edbs)));
    out.append(show_facts(&result.edb_facts, edbs, &result.string_table).as_str());
    let ghost front = out@;
    if idbs.len() > 0 {
        out.append("\n.printsize\n");
        write_decls(&mut out, idbs);
    }
    assert(out@ =~= front + section(
        model.idbs.len() > 0,
        "\n.printsize\n"@,
        decl_lines(model.idbs),
    ));
    let ghost front = out@;
    if rules.len() > 0 {
        out.append("\n");
        write_rules(&mut out, rules);
    }
    assert(out@ =~= front + section(model.rules.len() > 0, "\n"@, rule_lines(model.rules)));
    out
}

/// The values of a tuple written out.
pub open spec fn number_texts(tuple: Seq<i32>) -> Seq<Seq<char>> {
    Seq::new(tuple.len(), |i: int| int_text(tuple[i] as int))
}

/// Tuples one in a line, with tabs between values.
pub open spec fn facts_text(tuples: Seq<Seq<i32>>) -> Seq<char>
    decreases tuples.len(),
{
    if tuples.len() == 0 {
        Seq::empty()
    } else {
        facts_text(tuples.drop_last()) + join_text(number_texts(tuples.last()), "\t"@) + "\n"@
    }
}

/// The files for facts: the name of each and what is in it.
pub open spec fn files_of(facts: Seq<(Seq<char>, Seq<Seq<i32>>)>) -> Seq<(Seq<char>, Seq<char>)> {
    Seq::new(facts.len(), |i: int| (facts[i].0 + ".facts"@, facts_text(facts[i].1)))
}

fn tuple_line(tuple: &Vec<i32>) -> (out: String)
    ensures
        out@ == join_text(number_texts(tuple@), "\t"@) + "\n"@,
{
    let mut values: Vec<String> = Vec::new();
    let mut i: usize = 0;
    while i < tuple.len()
        invariant
            i <= tuple.len(),
            values.len() == i,
            forall|k: int| 0 <= k < i ==> (#[trigger] values@[k])@ == number_texts(tuple@)[k],
        decreases tuple.len() - i,
    {
        values.push(i32_to_text(tuple[i]));
        i += 1;
    }
    assert(values.deep_view() =~= number_texts(tuple@));
    let mut out = join(&values, "\t");
    out.append("\n");
    out
}

/// What is in the file for the facts of a relation.
pub fn facts_content(tuples: &Vec<Vec<i32>>) -> (out: String)
    ensures
        out@ == facts_text(tuples.deep_view()),
{
    broadcast use group_take;

    let ghost models = tuples.deep_view();
    let mut out = String::new();
    assert(out@ =~= Seq::empty());
    let mut i: usize = 0;
    while i < tuples.len()
        invariant
            i <= tuples.len(),
            models == tuples.deep_view(),
            out@ == facts_text(models.take(i as int)),
        decreases tuples.len() - i,
    {
        assert(models.take(i + 1).drop_last() == models.take(i as int));
        assert(models[i as int] == tuples@[i as int].deep_view());
        assert(tuples@[i as int].deep_view() =~= tuples@[i as int]@);
        let ghost front = out@;
        out.append(tuple_line(&tuples[i]).as_str());
        assert(out@ =~= facts_text(models.take(i + 1)));
        i += 1;
    }
    out
}

/// The files that facts are written to: the name of each and what is in it.
pub fn write_facts(edb_facts: &Ordered<Vec<Vec<i32>>>) -> (files: Vec<(String, String)>)
    requires
        edb_facts.wf(),
    ensures
        files.deep_view() == files_of(edb_facts.deep_view()),
{
    let ghost models = edb_facts.deep_view();
    let mut files: Vec<(String, String)> = Vec::new();
    let len: usize = edb_facts.len();
    let mut i: usize = 0;
    while i < len
        invariant
            i <= len,
            len == models.len(),
            edb_facts.wf(),
            models == edb_facts.deep_view(),
            files.len() == i,
            forall|k: int| 0 <= k < i ==> (#[trigger] files@[k]).deep_view() == files_of(models)[k],
        decreases len - i,
    {
        let mut name = edb_facts.name_at(i).clone();
        name.append(".facts");
        files.push((name, facts_content(edb_facts.value_at(i))));
        i += 1;
    }
    assert(files.deep_view() =~= files_of(models));
    files
}

/// Facts that were written are found again: the lines of the file are those of the
/// tuples, with nothing behind the last one, and the values in a line are those of
/// its tuple.
pub proof fn law_facts_are_found_again(tuples: Seq<Seq<i32>>)
    requires
        forall|i: int| 0 <= i < tuples.len() ==> (#[trigger] tuples[i]).len() > 0,
    ensures
        ({
            let lines = split_text(facts_text(tuples), '\n');
            &&& lines.len() == tuples.len() + 1
            &&& lines.last() == Seq::<char>::empty()
            &&& forall|i: int|
                0 <= i < tuples.len() ==> split_text(#[trigger] lines[i], '\t') == number_texts(
                    tuples[i],
                )
            &&& forall|i: int, k: int|
                0 <= i < tuples.len() && 0 <= k < tuples[i].len() ==> i32_value(
                    #[trigger] number_texts(tuples[i])[k],
                ) == Some(tuples[i][k])
        }),
    decreases tuples.len(),
{
    reveal_strlit("\t");
    reveal_strlit("\n");
    assert forall|i: int, k: int|
        0 <= i < tuples.len() && 0 <= k < tuples[i].len() implies i32_value(
        #[trigger] number_texts(tuples[i])[k],
    ) == Some(tuples[i][k]) by {
        law_i32_text_round_trip(tuples[i][k]);
    }
    if tuples.len() == 0 {
        assert(split_text(facts_text(tuples), '\n') =~= seq![Seq::empty()]);
    } else {
        let front = tuples.drop_last();
        assert forall|i: int| 0 <= i < front.len() implies (#[trigger] front[i]).len() > 0 by {
            assert(front[i] == tuples[i]);
        }
        law_facts_are_found_again(front);
        let parts = number_texts(tuples.last());
        assert("\t"@ =~= seq!['\t']);
        assert("\n"@ =~= seq!['\n']);
        let line = join_text(parts, "\t"@);
        assert forall|i: int| 0 <= i < parts.len() implies !(#[trigger] parts[i]).contains(
            '\t',
        ) && !parts[i].contains('\n') by {
            lemma_number_has_no_ends(tuples.last()[i]);
        }
        law_split_undoes_join(parts, '\t');
        lemma_line_has_no_ends(parts);
        let start = facts_text(front);
        lemma_split_whole(start, line, '\n');
        let before = split_text(start, '\n');
        let middle = split_text(start + line, '\n');
        assert(before.last() + line =~= line);
        assert((start + line + "\n"@).drop_last() =~= start + line);
        let after = split_text(facts_text(tuples), '\n');
        assert(after == middle.push(Seq::empty()));
        assert forall|i: int| 0 <= i < tuples.len() implies split_text(
            #[trigger] after[i],
            '\t',
        ) == number_texts(tuples[i]) by {
            if i < front.len() {
                assert(after[i] == before[i]);
                assert(split_text(before[i], '\t') == number_texts(front[i]));
            } else {
                assert(after[i] == line);
            }
        }
    }
}

proof fn lemma_number_has_no_ends(value: i32)
    ensures
        !int_text(value as int).contains('\t'),
        !int_text(value as int).contains('\n'),
{
    if int_text(value as int).contains('\t') {
        lemma_int_text_chars(value as int, '\t');
    }
    if int_text(value as int).contains('\n') {
        lemma_int_text_chars(value as int, '\n');
    }
}

proof fn lemma_line_has_no_ends(parts: Seq<Seq<char>>)
    requires
        forall|i: int| 0 <= i < parts.len() ==> !(#[trigger] parts[i]).contains('\n'),
    ensures
        !join_text(parts, "\t"@).contains('\n'),
    decreases parts.len(),
{
    reveal_strlit("\t");
    if parts.len() > 1 {
        let front = parts.drop_last();
        assert forall|i: int| 0 <= i < front.len() implies !(#[trigger] front[i]).contains(
            '\n',
        ) by {
            assert(front[i] == parts[i]);
        }
        lemma_line_has_no_ends(front);
        let start = join_text(front, "\t"@);
        let whole = join_text(parts, "\t"@);
        assert forall|k: int| 0 <= k < whole.len() implies whole[k] != '\n' by {
            if k < start.len() {
                assert(start.contains(start[k]));
            } else if k > start.len() {
                assert(parts.last().contains(whole[k]));
            }
        }
    }
}

} // verus!
