//! Texts as numbers: the constants of programs, the fields of lines, and the columns of
//! rows.
use vstd::prelude::*;
use vstd::string::*;
use crate::compiler::string_table::{number_of, place_in, table_with, StringTable};
use crate::executing::meaning::{argument_fits, Valuation};
use crate::lists::{clone_list, group_take};
use crate::parsing::aggregation::{Aggregation, AggregationModel};
use crate::parsing::arithmetic::{
    Arithmetic, ArithmeticModel, ArithmeticOperator, Factor, FactorModel,
};
use crate::parsing::compare::{ComparisonExpr, ComparisonExprModel};
use crate::parsing::decl::{DataType, RelDecl, RelDeclModel};
use crate::parsing::head::{Head, HeadArg, HeadArgModel, HeadModel};
use crate::parsing::parser::{Program, ProgramModel};
use crate::parsing::rule::{
    Atom, AtomArg, AtomArgModel, AtomModel, Const, ConstModel, FLRule, FLRuleModel, Predicate,
    PredicateModel,
};
use crate::reading::reader::{field_number, field_table, type_at, FieldModel};
use crate::text::{i64_to_text, int_text, join, join_text};

verus! {

/// What a text constant stands for: what is between its quotes.
pub open spec fn literal_text(s: Seq<char>) -> Seq<char> {
    if s.len() >= 2 && s[0] == '"' && s.last() == '"' {
        s.subrange(1, s.len() - 1)
    } else {
        s
    }
}

fn without_quotes(s: &str) -> (out: String)
    ensures
        out@ == literal_text(s@),
{
    let len: usize = s.unicode_len();
    if len >= 2 && s.get_char(0) == '"' && s.get_char(len - 1) == '"' {
        s.substring_char(1, len - 1).to_owned()
    } else {
        s.to_owned()
    }
}

/// A table with some texts in it.
pub open spec fn table_with_all(table: Seq<Seq<char>>, texts: Seq<Seq<char>>) -> Seq<Seq<char>>
    decreases texts.len(),
{
    if texts.len() == 0 {
        table
    } else {
        table_with(table_with_all(table, texts.drop_last()), texts.last())
    }
}

pub proof fn lemma_all_add(table: Seq<Seq<char>>, a: Seq<Seq<char>>, b: Seq<Seq<char>>)
    ensures
        table_with_all(table, a + b) == table_with_all(table_with_all(table, a), b),
    decreases b.len(),
{
    if b.len() == 0 {
        assert(a + b =~= a);
    } else {
        assert((a + b).drop_last() =~= a + b.drop_last());
        lemma_all_add(table, a, b.drop_last());
    }
}

/// The texts of a constant.
pub open spec fn const_texts(constant: ConstModel) -> Seq<Seq<char>> {
    match constant {
        ConstModel::Text(s) => seq![literal_text(s)],
        ConstModel::Integer(_) => Seq::empty(),
    }
}

/// A constant as a number: a text by its number in a table.
pub open spec fn coded_const(constant: ConstModel, table: Seq<Seq<char>>) -> ConstModel {
    match constant {
        ConstModel::Text(s) => ConstModel::Integer(number_of(table, literal_text(s))),
        ConstModel::Integer(_) => constant,
    }
}

pub open spec fn factor_texts(factor: FactorModel) -> Seq<Seq<char>> {
    match factor {
        FactorModel::Const(constant) => const_texts(constant),
        FactorModel::Var(_) => Seq::empty(),
    }
}

pub open spec fn coded_factor(factor: FactorModel, table: Seq<Seq<char>>) -> FactorModel {
    match factor {
        FactorModel::Const(constant) => FactorModel::Const(coded_const(constant, table)),
        FactorModel::Var(_) => factor,
    }
}

pub open spec fn rest_texts(rest: Seq<(ArithmeticOperator, FactorModel)>) -> Seq<Seq<char>>
    decreases rest.len(),
{
    if rest.len() == 0 {
        Seq::empty()
    } else {
        rest_texts(rest.drop_last()) + factor_texts(rest.last().1)
    }
}

pub open spec fn arithmetic_texts(arithmetic: ArithmeticModel) -> Seq<Seq<char>> {
    factor_texts(arithmetic.init) + rest_texts(arithmetic.rest)
}

pub open spec fn coded_arithmetic(
    arithmetic: ArithmeticModel,
    table: Seq<Seq<char>>,
) -> ArithmeticModel {
    ArithmeticModel {
        init: coded_factor(arithmetic.init, table),
        rest: Seq::new(
            arithmetic.rest.len(),
            |i: int| (arithmetic.rest[i].0, coded_factor(arithmetic.rest[i].1, table)),
        ),
    }
}

pub open spec fn argument_texts(argument: AtomArgModel) -> Seq<Seq<char>> {
    match argument {
        AtomArgModel::Const(constant) => const_texts(constant),
        _ => Seq::empty(),
    }
}

pub open spec fn coded_argument(argument: AtomArgModel, table: Seq<Seq<char>>) -> AtomArgModel {
    match argument {
        AtomArgModel::Const(constant) => AtomArgModel::Const(coded_const(constant, table)),
        _ => argument,
    }
}

pub open spec fn arguments_texts(arguments: Seq<AtomArgModel>) -> Seq<Seq<char>>
    decreases arguments.len(),
{
    if arguments.len() == 0 {
        Seq::empty()
    } else {
        arguments_texts(arguments.drop_last()) + argument_texts(arguments.last())
    }
}

pub open spec fn coded_atom(atom: AtomModel, table: Seq<Seq<char>>) -> AtomModel {
    AtomModel {
        name: atom.name,
        arguments: Seq::new(
            atom.arguments.len(),
            |i: int| coded_argument(atom.arguments[i], table),
        ),
    }
}

pub open spec fn predicate_texts(predicate: PredicateModel) -> Seq<Seq<char>> {
    match predicate {
        PredicateModel::AtomPredicate(atom) => arguments_texts(atom.arguments),
        PredicateModel::NegatedAtomPredicate(atom) => arguments_texts(atom.arguments),
        PredicateModel::ComparePredicate(comparison) => arithmetic_texts(comparison.left)
            + arithmetic_texts(comparison.right),
    }
}

pub open spec fn coded_predicate(
    predicate: PredicateModel,
    table: Seq<Seq<char>>,
) -> PredicateModel {
    match predicate {
        PredicateModel::AtomPredicate(atom) => PredicateModel::AtomPredicate(
            coded_atom(atom, table),
        ),
        PredicateModel::NegatedAtomPredicate(atom) => PredicateModel::NegatedAtomPredicate(
            coded_atom(atom, table),
        ),
        PredicateModel::ComparePredicate(comparison) => PredicateModel::ComparePredicate(
            ComparisonExprModel {
                left: coded_arithmetic(comparison.left, table),
                operator: comparison.operator,
                right: coded_arithmetic(comparison.right, table),
            },
        ),
    }
}

pub open spec fn head_argument_texts(argument: HeadArgModel) -> Seq<Seq<char>> {
    match argument {
        HeadArgModel::Var(_) => Seq::empty(),
        HeadArgModel::Arith(arithmetic) => arithmetic_texts(arithmetic),
        HeadArgModel::Aggregation(aggregation) => arithmetic_texts(aggregation.arithmetic),
    }
}

pub open spec fn coded_head_argument(
    argument: HeadArgModel,
    table: Seq<Seq<char>>,
) -> HeadArgModel {
    match argument {
        HeadArgModel::Var(_) => argument,
        HeadArgModel::Arith(arithmetic) => HeadArgModel::Arith(coded_arithmetic(arithmetic, table)),
        HeadArgModel::Aggregation(aggregation) => HeadArgModel::Aggregation(
            AggregationModel {
                operator: aggregation.operator,
                arithmetic: coded_arithmetic(aggregation.arithmetic, table),
            },
        ),
    }
}

pub open spec fn head_texts(arguments: Seq<HeadArgModel>) -> Seq<Seq<char>>
    decreases arguments.len(),
{
    if arguments.len() == 0 {
        Seq::empty()
    } else {
        head_texts(arguments.drop_last()) + head_argument_texts(arguments.last())
    }
}

pub open spec fn body_texts(rhs: Seq<PredicateModel>) -> Seq<Seq<char>>
    decreases rhs.len(),
{
    if rhs.len() == 0 {
        Seq::empty()
    } else {
        body_texts(rhs.drop_last()) + predicate_texts(rhs.last())
    }
}

/// A rule with its constants as numbers.
pub open spec fn coded_rule(rule: FLRuleModel, table: Seq<Seq<char>>) -> FLRuleModel {
    FLRuleModel {
        head: HeadModel {
            name: rule.head.name,
            head_arguments: Seq::new(
                rule.head.head_arguments.len(),
                |i: int| coded_head_argument(rule.head.head_arguments[i], table),
            ),
        },
        rhs: Seq::new(rule.rhs.len(), |i: int| coded_predicate(rule.rhs[i], table)),
        is_planning: rule.is_planning,
        is_sip: rule.is_sip,
    }
}

/// The texts of the constants of rules.
pub open spec fn rules_texts(rules: Seq<FLRuleModel>) -> Seq<Seq<char>>
    decreases rules.len(),
{
    if rules.len() == 0 {
        Seq::empty()
    } else {
        rules_texts(rules.drop_last()) + (head_texts(rules.last().head.head_arguments)
            + body_texts(rules.last().rhs))
    }
}

pub open spec fn coded_rules(rules: Seq<FLRuleModel>, table: Seq<Seq<char>>) -> Seq<FLRuleModel> {
    Seq::new(rules.len(), |i: int| coded_rule(rules[i], table))
}

/// A program with its constants as numbers.
pub open spec fn coded_program(program: ProgramModel, table: Seq<Seq<char>>) -> ProgramModel {
    ProgramModel {
        edbs: program.edbs,
        idbs: program.idbs,
        rules: coded_rules(program.rules, table),
    }
}

fn enter_const(constant: &Const, table: &mut StringTable)
    requires
        old(table).wf(),
    ensures
        final(table).wf(),
        final(table).table() == table_with_all(
            old(table).table(),
            const_texts(constant.deep_view()),
        ),
{
    match constant {
        Const::Text(s) => {
            let ghost before = table.table();
            let text = without_quotes(s.as_str());
            let _id: i32 = table.intern(text.as_str());
            proof {
                let texts = seq![literal_text(s@)];
                assert(texts.drop_last() =~= Seq::empty());
                assert(table_with_all(before, texts.drop_last()) == before);
            }
        },
        Const::Integer(_) => {},
    }
}

fn enter_factor(factor: &Factor, table: &mut StringTable)
    requires
        old(table).wf(),
    ensures
        final(table).wf(),
        final(table).table() == table_with_all(old(table).table(), factor_texts(factor.deep_view())),
{
    match factor {
        Factor::Const(constant) => enter_const(constant, table),
        Factor::Var(_) => {},
    }
}

fn enter_arithmetic(arithmetic: &Arithmetic, table: &mut StringTable)
    requires
        old(table).wf(),
    ensures
        final(table).wf(),
        final(table).table() == table_with_all(
            old(table).table(),
            arithmetic_texts(arithmetic.deep_view()),
        ),
{
    broadcast use group_take;

    let ghost before = table.table();
    let ghost init = factor_texts(arithmetic.init.deep_view());
    let ghost rest = arithmetic.rest.deep_view();
    enter_factor(&arithmetic.init, table);
    assert(init + rest_texts(rest.take(0)) =~= init);
    let mut i: usize = 0;
    while i < arithmetic.rest.len()
        invariant
            i <= arithmetic.rest.len(),
            rest == arithmetic.rest.deep_view(),
            table.wf(),
            table.table() == table_with_all(before, init + rest_texts(rest.take(i as int))),
        decreases arithmetic.rest.len() - i,
    {
        proof {
            assert(rest.take(i + 1).drop_last() == rest.take(i as int));
            assert(rest[i as int] == arithmetic.rest@[i as int].deep_view());
            let front = rest_texts(rest.take(i as int));
            let own = factor_texts(rest[i as int].1);
            lemma_all_add(before, init + front, own);
            assert(init + front + own =~= init + (front + own));
        }
        enter_factor(&arithmetic.rest[i].1, table);
        i += 1;
    }
}

fn enter_atom(atom: &Atom, table: &mut StringTable)
    requires
        old(table).wf(),
    ensures
        final(table).wf(),
        final(table).table() == table_with_all(
            old(table).table(),
            arguments_texts(atom.deep_view().arguments),
        ),
{
    broadcast use group_take;

    let ghost before = table.table();
    let ghost arguments = atom.arguments.deep_view();
    let mut i: usize = 0;
    while i < atom.arguments.len()
        invariant
            i <= atom.arguments.len(),
            arguments == atom.arguments.deep_view(),
            table.wf(),
            table.table() == table_with_all(before, arguments_texts(arguments.take(i as int))),
        decreases atom.arguments.len() - i,
    {
        proof {
            assert(arguments.take(i + 1).drop_last() == arguments.take(i as int));
            assert(arguments[i as int] == atom.arguments@[i as int].deep_view());
            lemma_all_add(
                before,
                arguments_texts(arguments.take(i as int)),
                argument_texts(arguments[i as int]),
            );
        }
        match &atom.arguments[i] {
            AtomArg::Const(constant) => enter_const(constant, table),
            _ => {},
        }
        i += 1;
    }
}

fn enter_predicate(predicate: &Predicate, table: &mut StringTable)
    requires
        old(table).wf(),
    ensures
        final(table).wf(),
        final(table).table() == table_with_all(
            old(table).table(),
            predicate_texts(predicate.deep_view()),
        ),
{
    let ghost before = table.table();
    match predicate {
        Predicate::AtomPredicate(atom) => enter_atom(atom, table),
        Predicate::NegatedAtomPredicate(atom) => enter_atom(atom, table),
        Predicate::ComparePredicate(comparison) => {
            enter_arithmetic(&comparison.left, table);
            enter_arithmetic(&comparison.right, table);
            proof {
                lemma_all_add(
                    before,
                    arithmetic_texts(comparison.left.deep_view()),
                    arithmetic_texts(comparison.right.deep_view()),
                );
            }
        },
    }
}

fn enter_head(arguments: &Vec<HeadArg>, table: &mut StringTable)
    requires
        old(table).wf(),
    ensures
        final(table).wf(),
        final(table).table() == table_with_all(
            old(table).table(),
            head_texts(arguments.deep_view()),
        ),
{
    broadcast use group_take;

    let ghost before = table.table();
    let ghost models = arguments.deep_view();
    let mut i: usize = 0;
    while i < arguments.len()
        invariant
            i <= arguments.len(),
            models == arguments.deep_view(),
            table.wf(),
            table.table() == table_with_all(before, head_texts(models.take(i as int))),
        decreases arguments.len() - i,
    {
        proof {
            assert(models.take(i + 1).drop_last() == models.take(i as int));
            assert(models[i as int] == arguments@[i as int].deep_view());
            lemma_all_add(
                before,
                head_texts(models.take(i as int)),
                head_argument_texts(models[i as int]),
            );
        }
        match &arguments[i] {
            HeadArg::Var(_) => {},
            HeadArg::Arith(arithmetic) => enter_arithmetic(arithmetic, table),
            HeadArg::Aggregation(aggregation) => enter_arithmetic(&aggregation.arithmetic, table),
        }
        i += 1;
    }
}

fn enter_body(rhs: &Vec<Predicate>, table: &mut StringTable)
    requires
        old(table).wf(),
    ensures
        final(table).wf(),
        final(table).table() == table_with_all(old(table).table(), body_texts(rhs.deep_view())),
{
    broadcast use group_take;

    let ghost before = table.table();
    let ghost models = rhs.deep_view();
    let mut i: usize = 0;
    while i < rhs.len()
        invariant
            i <= rhs.len(),
            models == rhs.deep_view(),
            table.wf(),
            table.table() == table_with_all(before, body_texts(models.take(i as int))),
        decreases rhs.len() - i,
    {
        proof {
            assert(models.take(i + 1).drop_last() == models.take(i as int));
            assert(models[i as int] == rhs@[i as int].deep_view());
            lemma_all_add(
                before,
                body_texts(models.take(i as int)),
                predicate_texts(models[i as int]),
            );
        }
        enter_predicate(&rhs[i], table);
        i += 1;
    }
}

/// Enters the texts of the constants of rules into a table.
fn enter_rules(rules: &Vec<FLRule>, table: &mut StringTable)
    requires
        old(table).wf(),
    ensures
        final(table).wf(),
        final(table).table() == table_with_all(old(table).table(), rules_texts(rules.deep_view())),
{
    broadcast use group_take;

    let ghost before = table.table();
    let ghost models = rules.deep_view();
    let mut i: usize = 0;
    while i < rules.len()
        invariant
            i <= rules.len(),
            models == rules.deep_view(),
            table.wf(),
            table.table() == table_with_all(before, rules_texts(models.take(i as int))),
        decreases rules.len() - i,
    {
        proof {
            assert(models.take(i + 1).drop_last() == models.take(i as int));
            assert(models[i as int] == rules@[i as int].deep_view());
            let front = rules_texts(models.take(i as int));
            let head = head_texts(models[i as int].head.head_arguments);
            let body = body_texts(models[i as int].rhs);
            lemma_all_add(before, front, head + body);
            lemma_all_add(table_with_all(before, front), head, body);
        }
        enter_head(&rules[i].head.head_arguments, table);
        enter_body(&rules[i].rhs, table);
        i += 1;
    }
}

fn code_const(constant: &Const, table: &StringTable) -> (coded: Const)
    requires
        table.wf(),
    ensures
        coded.deep_view() == coded_const(constant.deep_view(), table.table()),
{
    match constant {
        Const::Text(s) => Const::Integer(table.number(without_quotes(s.as_str()).as_str())),
        Const::Integer(number) => Const::Integer(*number),
    }
}

fn code_factor(factor: &Factor, table: &StringTable) -> (coded: Factor)
    requires
        table.wf(),
    ensures
        coded.deep_view() == coded_factor(factor.deep_view(), table.table()),
{
    match factor {
        Factor::Const(constant) => Factor::Const(code_const(constant, table)),
        Factor::Var(var) => Factor::Var(var.clone()),
    }
}

fn code_arithmetic(arithmetic: &Arithmetic, table: &StringTable) -> (coded: Arithmetic)
    requires
        table.wf(),
    ensures
        coded.deep_view() == coded_arithmetic(arithmetic.deep_view(), table.table()),
{
    let ghost model = coded_arithmetic(arithmetic.deep_view(), table.table());
    let mut rest: Vec<(ArithmeticOperator, Factor)> = Vec::new();
    let mut i: usize = 0;
    while i < arithmetic.rest.len()
        invariant
            i <= arithmetic.rest.len(),
            table.wf(),
            model == coded_arithmetic(arithmetic.deep_view(), table.table()),
            rest@.len() == i,
            forall|k: int| 0 <= k < i ==> (#[trigger] rest@[k]).deep_view() == model.rest[k],
        decreases arithmetic.rest.len() - i,
    {
        assert(arithmetic.deep_view().rest[i as int] == arithmetic.rest@[i as int].deep_view());
        rest.push((arithmetic.rest[i].0, code_factor(&arithmetic.rest[i].1, table)));
        i += 1;
    }
    let coded = Arithmetic { init: code_factor(&arithmetic.init, table), rest };
    assert(coded.deep_view().rest =~= model.rest);
    coded
}

fn code_atom(atom: &Atom, table: &StringTable) -> (coded: Atom)
    requires
        table.wf(),
    ensures
        coded.deep_view() == coded_atom(atom.deep_view(), table.table()),
{
    let ghost model = coded_atom(atom.deep_view(), table.table());
    let mut arguments: Vec<AtomArg> = Vec::new();
    let mut i: usize = 0;
    while i < atom.arguments.len()
        invariant
            i <= atom.arguments.len(),
            table.wf(),
            model == coded_atom(atom.deep_view(), table.table()),
            arguments@.len() == i,
            forall|k: int|
                0 <= k < i ==> (#[trigger] arguments@[k]).deep_view() == model.arguments[k],
        decreases atom.arguments.len() - i,
    {
        assert(atom.deep_view().arguments[i as int] == atom.arguments@[i as int].deep_view());
        arguments.push(
            match &atom.arguments[i] {
                AtomArg::Const(constant) => AtomArg::Const(code_const(constant, table)),
                AtomArg::Var(var) => AtomArg::Var(var.clone()),
                AtomArg::Placeholder => AtomArg::Placeholder,
            },
        );
        i += 1;
    }
    let coded = Atom { name: atom.name.clone(), arguments };
    assert(coded.deep_view().arguments =~= model.arguments);
    coded
}

fn code_predicate(predicate: &Predicate, table: &StringTable) -> (coded: Predicate)
    requires
        table.wf(),
    ensures
        coded.deep_view() == coded_predicate(predicate.deep_view(), table.table()),
{
    match predicate {
        Predicate::AtomPredicate(atom) => Predicate::AtomPredicate(code_atom(atom, table)),
        Predicate::NegatedAtomPredicate(atom) => Predicate::NegatedAtomPredicate(
            code_atom(atom, table),
        ),
        Predicate::ComparePredicate(comparison) => Predicate::ComparePredicate(
            ComparisonExpr {
                left: code_arithmetic(&comparison.left, table),
                operator: comparison.operator,
                right: code_arithmetic(&comparison.right, table),
            },
        ),
    }
}

fn code_head_argument(argument: &HeadArg, table: &StringTable) -> (coded: HeadArg)
    requires
        table.wf(),
    ensures
        coded.deep_view() == coded_head_argument(argument.deep_view(), table.table()),
{
    match argument {
        HeadArg::Var(var) => HeadArg::Var(var.clone()),
        HeadArg::Arith(arithmetic) => HeadArg::Arith(code_arithmetic(arithmetic, table)),
        HeadArg::Aggregation(aggregation) => HeadArg::Aggregation(
            Aggregation {
                operator: aggregation.operator,
                arithmetic: code_arithmetic(&aggregation.arithmetic, table),
            },
        ),
    }
}

fn code_rule(rule: &FLRule, table: &StringTable) -> (coded: FLRule)
    requires
        table.wf(),
    ensures
        coded.deep_view() == coded_rule(rule.deep_view(), table.table()),
{
    let ghost model = coded_rule(rule.deep_view(), table.table());
    let mut arguments: Vec<HeadArg> = Vec::new();
    let mut i: usize = 0;
    while i < rule.head.head_arguments.len()
        invariant
            i <= rule.head.head_arguments.len(),
            table.wf(),
            model == coded_rule(rule.deep_view(), table.table()),
            arguments@.len() == i,
            forall|k: int|
                0 <= k < i ==> (#[trigger] arguments@[k]).deep_view()
                    == model.head.head_arguments[k],
        decreases rule.head.head_arguments.len() - i,
    {
        assert(rule.deep_view().head.head_arguments[i as int]
            == rule.head.head_arguments@[i as int].deep_view());
        arguments.push(code_head_argument(&rule.head.head_arguments[i], table));
        i += 1;
    }
    let mut rhs: Vec<Predicate> = Vec::new();
    let mut i: usize = 0;
    while i < rule.rhs.len()
        invariant
            i <= rule.rhs.len(),
            table.wf(),
            model == coded_rule(rule.deep_view(), table.table()),
            rhs@.len() == i,
            forall|k: int| 0 <= k < i ==> (#[trigger] rhs@[k]).deep_view() == model.rhs[k],
        decreases rule.rhs.len() - i,
    {
        assert(rule.deep_view().rhs[i as int] == rule.rhs@[i as int].deep_view());
        rhs.push(code_predicate(&rule.rhs[i], table));
        i += 1;
    }
    assert(arguments.deep_view() =~= model.head.head_arguments);
    assert(rhs.deep_view() =~= model.rhs);
    FLRule {
        head: Head { name: rule.head.name.clone(), head_arguments: arguments },
        rhs,
        is_planning: rule.is_planning,
        is_sip: rule.is_sip,
    }
}

/// A program with its constants as numbers, so that text constants are compared by the
/// numbers of their texts. The texts are entered into the table first.
pub fn code_program(program: &Program, table: &mut StringTable) -> (coded: Program)
    requires
        old(table).wf(),
    ensures
        final(table).wf(),
        final(table).table() == table_with_all(
            old(table).table(),
            rules_texts(program.deep_view().rules),
        ),
        coded.deep_view() == coded_program(program.deep_view(), final(table).table()),
{
    enter_rules(&program.rules, table);
    let ghost numbers = table.table();
    let mut rules: Vec<FLRule> = Vec::new();
    let mut i: usize = 0;
    while i < program.rules.len()
        invariant
            i <= program.rules.len(),
            table.wf(),
            numbers == table.table(),
            numbers == table_with_all(old(table).table(), rules_texts(program.deep_view().rules)),
            rules@.len() == i,
            forall|k: int|
                0 <= k < i ==> (#[trigger] rules@[k]).deep_view() == coded_rule(
                    program.deep_view().rules[k],
                    numbers,
                ),
        decreases program.rules.len() - i,
    {
        assert(program.deep_view().rules[i as int] == program.rules@[i as int].deep_view());
        rules.push(code_rule(&program.rules[i], table));
        i += 1;
    }
    assert(rules.deep_view() =~= coded_rules(program.deep_view().rules, numbers));
    Program::new(clone_list(&program.edbs), clone_list(&program.idbs), rules)
}

/// The text of a value of a column: its text where the column holds texts and the table
/// has one, else the number.
pub open spec fn column_text(
    value: i64,
    data_type: DataType,
    table: Seq<Seq<char>>,
) -> Seq<char> {
    if data_type == DataType::String && 0 <= value < table.len() {
        table[value as int]
    } else {
        int_text(value as int)
    }
}

/// A row as text, column by column.
pub open spec fn decoded_row(
    values: Seq<i64>,
    types: Seq<DataType>,
    table: Seq<Seq<char>>,
) -> Seq<char> {
    join_text(
        Seq::new(values.len(), |i: int| column_text(values[i], type_at(types, i), table)),
        ", "@,
    )
}

fn show_column(value: i64, data_type: DataType, table: &StringTable) -> (out: String)
    ensures
        out@ == column_text(value, data_type, table.table()),
{
    match data_type {
        DataType::String => {
            assert(table.table().len() == table.id_to_str.len());
            if value >= 0 && (value as u64) < table.id_to_str.len() as u64 {
                let i: usize = value as usize;
                assert(table.table()[i as int] == table.id_to_str@[i as int]@);
                table.id_to_str[i].clone()
            } else {
                i64_to_text(value)
            }
        },
        DataType::Integer => i64_to_text(value),
    }
}

/// A row as text, the columns that hold texts decoded.
pub fn decode_row(values: &Vec<i64>, types: &Vec<DataType>, table: &StringTable) -> (out: String)
    ensures
        out@ == decoded_row(values@, types@, table.table()),
{
    let mut texts: Vec<String> = Vec::new();
    let mut i: usize = 0;
    while i < values.len()
        invariant
            i <= values.len(),
            texts@.len() == i,
            forall|k: int|
                0 <= k < i ==> (#[trigger] texts@[k])@ == column_text(
                    values@[k],
                    type_at(types@, k),
                    table.table(),
                ),
        decreases values.len() - i,
    {
        let data_type = if i < types.len() {
            types[i]
        } else {
            DataType::Integer
        };
        texts.push(show_column(values[i], data_type, table));
        i += 1;
    }
    assert(texts.deep_view() =~= Seq::new(
        values@.len(),
        |i: int| column_text(values@[i], type_at(types@, i), table.table()),
    ));
    join(&texts, ", ")
}

/// The types of the columns of a relation.
pub open spec fn column_types(decl: RelDeclModel) -> Seq<DataType> {
    Seq::new(decl.attributes.len(), |i: int| decl.attributes[i].data_type)
}

pub fn types_of(decl: &RelDecl) -> (types: Vec<DataType>)
    ensures
        types@ == column_types(decl.deep_view()),
{
    let mut types: Vec<DataType> = Vec::new();
    let mut i: usize = 0;
    while i < decl.attributes.len()
        invariant
            i <= decl.attributes.len(),
            types@.len() == i,
            forall|k: int|
                0 <= k < i ==> (#[trigger] types@[k]) == decl.attributes@[k].data_type,
        decreases decl.attributes.len() - i,
    {
        types.push(decl.attributes[i].data_type);
        i += 1;
    }
    assert(types@ =~= column_types(decl.deep_view()));
    types
}

/// Texts that are in a table have different numbers.
pub proof fn lemma_numbers_differ(table: Seq<Seq<char>>, a: Seq<char>, b: Seq<char>)
    requires
        table.no_duplicates(),
        table.len() <= i32::MAX,
        table.contains(a),
        table.contains(b),
    ensures
        number_of(table, a) == number_of(table, b) <==> a == b,
        0 <= number_of(table, a) < table.len(),
        table[number_of(table, a) as int] == a,
{
    let i = place_in(table, a);
    let j = place_in(table, b);
    assert(0 <= i < table.len() && table[i] == a);
    assert(0 <= j < table.len() && table[j] == b);
}

/// A text constant fits a field that holds a text exactly where the two texts are the
/// same, both taken by their numbers.
pub proof fn law_text_constants_fit_their_texts(
    valuation: Valuation,
    constant: Seq<char>,
    text: Seq<char>,
    table: Seq<Seq<char>>,
)
    requires
        table.no_duplicates(),
        table.len() <= i32::MAX,
        table.contains(literal_text(constant)),
        table.contains(text),
    ensures
        argument_fits(
            valuation,
            coded_argument(AtomArgModel::Const(ConstModel::Text(constant)), table),
            field_number(FieldModel::Text(text), table),
        ) <==> literal_text(constant) == text,
{
    lemma_numbers_differ(table, literal_text(constant), text);
}

/// A text that was read into a table comes back when its column is shown.
pub proof fn law_texts_come_back(text: Seq<char>, table: Seq<Seq<char>>)
    requires
        table.no_duplicates(),
        table.len() < i32::MAX,
    ensures
        column_text(
            field_number(FieldModel::Text(text), table),
            DataType::String,
            field_table(FieldModel::Text(text), table),
        ) == text,
{
    if table.contains(text) {
        lemma_numbers_differ(table, text, text);
    }
}

} // verus!
