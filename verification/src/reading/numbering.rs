//! What numbering the texts of a program keeps: everything but the texts.
use vstd::prelude::*;
use crate::parsing::arithmetic::{ArithmeticModel, ArithmeticOperator, FactorModel};
use crate::parsing::decl::{DataType, RelDeclModel};
use crate::parsing::head::HeadArgModel;
use crate::parsing::parser::ProgramModel;
use crate::parsing::rule::{AtomArgModel, AtomModel, ConstModel, FLRuleModel, PredicateModel};
use crate::reading::interner::{
    argument_texts, arguments_texts, arithmetic_texts, body_texts, coded_argument,
    coded_arithmetic, coded_atom, coded_const, coded_factor, coded_head_argument,
    coded_predicate, coded_program, coded_rule, column_text, column_types, const_texts, decoded_row,
    factor_texts, head_argument_texts, head_texts, lemma_numbers_differ, literal_text,
    predicate_texts, rest_texts, rules_texts, table_with_all,
};
use crate::reading::reader::type_at;
use crate::text::{int_value, law_int_text_round_trip};

verus! {

/// Whether a number stands for a constant: an integer for itself, and for a text the
/// place where a table holds it.
pub open spec fn const_alike(a: ConstModel, b: ConstModel, table: Seq<Seq<char>>) -> bool {
    match (a, b) {
        (ConstModel::Integer(n), ConstModel::Integer(m)) => n == m,
        (ConstModel::Text(s), ConstModel::Integer(n)) => 0 <= n < table.len() && table[n as int]
            == literal_text(s),
        _ => false,
    }
}

/// Whether two factors are the same variable, or stand for the same constant.
pub open spec fn factor_alike(a: FactorModel, b: FactorModel, table: Seq<Seq<char>>) -> bool {
    match (a, b) {
        (FactorModel::Var(x), FactorModel::Var(y)) => x == y,
        (FactorModel::Const(x), FactorModel::Const(y)) => const_alike(x, y, table),
        _ => false,
    }
}

/// Whether two expressions have the same operators between factors that are alike.
pub open spec fn arithmetic_alike(
    a: ArithmeticModel,
    b: ArithmeticModel,
    table: Seq<Seq<char>>,
) -> bool {
    &&& factor_alike(a.init, b.init, table)
    &&& a.rest.len() == b.rest.len()
    &&& forall|i: int|
        0 <= i < a.rest.len() ==> (#[trigger] a.rest[i]).0 == b.rest[i].0 && factor_alike(
            a.rest[i].1,
            b.rest[i].1,
            table,
        )
}

/// Whether two arguments are the same variable, both stand for any value, or stand for
/// the same constant.
pub open spec fn argument_alike(a: AtomArgModel, b: AtomArgModel, table: Seq<Seq<char>>) -> bool {
    match (a, b) {
        (AtomArgModel::Var(x), AtomArgModel::Var(y)) => x == y,
        (AtomArgModel::Const(x), AtomArgModel::Const(y)) => const_alike(x, y, table),
        (AtomArgModel::Placeholder, AtomArgModel::Placeholder) => true,
        _ => false,
    }
}

/// Whether two atoms speak of the same relation with arguments that are alike.
pub open spec fn atom_alike(a: AtomModel, b: AtomModel, table: Seq<Seq<char>>) -> bool {
    &&& a.name == b.name
    &&& a.arguments.len() == b.arguments.len()
    &&& forall|i: int|
        0 <= i < a.arguments.len() ==> argument_alike(
            #[trigger] a.arguments[i],
            b.arguments[i],
            table,
        )
}

/// Whether two predicates are of the same kind, atoms, negated atoms or comparisons by
/// the same operator, of parts that are alike.
pub open spec fn predicate_alike(
    a: PredicateModel,
    b: PredicateModel,
    table: Seq<Seq<char>>,
) -> bool {
    match (a, b) {
        (PredicateModel::AtomPredicate(x), PredicateModel::AtomPredicate(y)) => atom_alike(
            x,
            y,
            table,
        ),
        (
            PredicateModel::NegatedAtomPredicate(x),
            PredicateModel::NegatedAtomPredicate(y),
        ) => atom_alike(x, y, table),
        (PredicateModel::ComparePredicate(x), PredicateModel::ComparePredicate(y)) => {
            &&& x.operator == y.operator
            &&& arithmetic_alike(x.left, y.left, table)
            &&& arithmetic_alike(x.right, y.right, table)
        },
        _ => false,
    }
}

/// Whether two arguments of heads are the same variable, or expressions or aggregations
/// that are alike.
pub open spec fn head_argument_alike(
    a: HeadArgModel,
    b: HeadArgModel,
    table: Seq<Seq<char>>,
) -> bool {
    match (a, b) {
        (HeadArgModel::Var(x), HeadArgModel::Var(y)) => x == y,
        (HeadArgModel::Arith(x), HeadArgModel::Arith(y)) => arithmetic_alike(x, y, table),
        (HeadArgModel::Aggregation(x), HeadArgModel::Aggregation(y)) => x.operator == y.operator
            && arithmetic_alike(x.arithmetic, y.arithmetic, table),
        _ => false,
    }
}

/// Whether two rules differ at most in that one has numbers where the other has texts.
pub open spec fn rule_alike(a: FLRuleModel, b: FLRuleModel, table: Seq<Seq<char>>) -> bool {
    &&& a.head.name == b.head.name
    &&& a.head.head_arguments.len() == b.head.head_arguments.len()
    &&& forall|i: int|
        0 <= i < a.head.head_arguments.len() ==> head_argument_alike(
            #[trigger] a.head.head_arguments[i],
            b.head.head_arguments[i],
            table,
        )
    &&& a.rhs.len() == b.rhs.len()
    &&& forall|i: int|
        0 <= i < a.rhs.len() ==> predicate_alike(#[trigger] a.rhs[i], b.rhs[i], table)
    &&& a.is_planning == b.is_planning
    &&& a.is_sip == b.is_sip
}

/// Whether a table can give every text in it a number of its own.
pub open spec fn numbers_fit(table: Seq<Seq<char>>) -> bool {
    table.no_duplicates() && table.len() <= i32::MAX
}

/// Whether a table holds some texts.
pub open spec fn holds_all(table: Seq<Seq<char>>, texts: Seq<Seq<char>>) -> bool {
    forall|i: int| 0 <= i < texts.len() ==> table.contains(#[trigger] texts[i])
}

proof fn lemma_holds_both(table: Seq<Seq<char>>, a: Seq<Seq<char>>, b: Seq<Seq<char>>)
    requires
        holds_all(table, a + b),
    ensures
        holds_all(table, a),
        holds_all(table, b),
{
    assert forall|i: int| 0 <= i < a.len() implies table.contains(#[trigger] a[i]) by {
        assert((a + b)[i] == a[i]);
    }
    assert forall|i: int| 0 <= i < b.len() implies table.contains(#[trigger] b[i]) by {
        assert((a + b)[a.len() + i] == b[i]);
    }
}

/// Entering texts keeps the texts of a table where they are, and enters no text twice;
/// afterwards the table holds the texts, and no others than were there or entered.
pub proof fn law_texts_are_entered(table: Seq<Seq<char>>, texts: Seq<Seq<char>>)
    requires
        table.no_duplicates(),
    ensures
        table_with_all(table, texts).no_duplicates(),
        holds_all(table_with_all(table, texts), texts),
        table.len() <= table_with_all(table, texts).len() <= table.len() + texts.len(),
        forall|i: int|
            0 <= i < table.len() ==> #[trigger] table_with_all(table, texts)[i] == table[i],
        forall|s: Seq<char>|
            table_with_all(table, texts).contains(s) ==> table.contains(s) || texts.contains(s),
    decreases texts.len(),
{
    let after = table_with_all(table, texts);
    if texts.len() > 0 {
        let front = texts.drop_last();
        let before = table_with_all(table, front);
        let last = texts.last();
        law_texts_are_entered(table, front);
        assert(texts[texts.len() - 1] == last);
        if !before.contains(last) {
            assert forall|i: int, j: int|
                0 <= i < after.len() && 0 <= j < after.len() && i != j implies after[i]
                != after[j] by {
                if i < before.len() {
                    assert(before.contains(before[i]));
                }
                if j < before.len() {
                    assert(before.contains(before[j]));
                }
            }
            assert(after[before.len() as int] == last);
        }
        assert(after.contains(last));
        assert forall|s: Seq<char>| before.contains(s) implies after.contains(s) by {
            let k = choose|k: int| 0 <= k < before.len() && before[k] == s;
            assert(after[k] == s);
        }
        assert forall|i: int| 0 <= i < texts.len() implies after.contains(#[trigger] texts[i]) by {
            if i < front.len() {
                assert(front[i] == texts[i]);
                assert(before.contains(front[i]));
            }
        }
        assert forall|s: Seq<char>| after.contains(s) implies table.contains(s) || texts.contains(
            s,
        ) by {
            let k = choose|k: int| 0 <= k < after.len() && after[k] == s;
            if s == last {
                assert(texts.contains(s));
            } else {
                assert(before[k] == s);
                assert(before.contains(s));
                if !table.contains(s) {
                    let j = choose|j: int| 0 <= j < front.len() && front[j] == s;
                    assert(texts[j] == s);
                }
            }
        }
    }
}

/// What a text constant stands for is what its quotes enclose.
pub proof fn law_quotes_come_off(s: Seq<char>)
    ensures
        literal_text(seq!['"'] + s + seq!['"']) == s,
        !s.contains('"') ==> literal_text(s) == s,
{
    let quoted = seq!['"'] + s + seq!['"'];
    assert(quoted.subrange(1, quoted.len() - 1) =~= s);
    if s.len() >= 2 && s[0] == '"' {
        assert(s.contains('"'));
    }
}

proof fn lemma_const(constant: ConstModel, table: Seq<Seq<char>>)
    requires
        numbers_fit(table),
        holds_all(table, const_texts(constant)),
    ensures
        const_alike(constant, coded_const(constant, table), table),
{
    if let ConstModel::Text(s) = constant {
        assert(const_texts(constant)[0] == literal_text(s));
        lemma_numbers_differ(table, literal_text(s), literal_text(s));
    }
}

proof fn lemma_factor(factor: FactorModel, table: Seq<Seq<char>>)
    requires
        numbers_fit(table),
        holds_all(table, factor_texts(factor)),
    ensures
        factor_alike(factor, coded_factor(factor, table), table),
{
    if let FactorModel::Const(constant) = factor {
        lemma_const(constant, table);
    }
}

proof fn lemma_rest_held(
    rest: Seq<(ArithmeticOperator, FactorModel)>,
    table: Seq<Seq<char>>,
    i: int,
)
    requires
        holds_all(table, rest_texts(rest)),
        0 <= i < rest.len(),
    ensures
        holds_all(table, factor_texts(rest[i].1)),
    decreases rest.len(),
{
    let front = rest.drop_last();
    lemma_holds_both(table, rest_texts(front), factor_texts(rest.last().1));
    if i < front.len() {
        lemma_rest_held(front, table, i);
    }
}

proof fn lemma_arithmetic(arithmetic: ArithmeticModel, table: Seq<Seq<char>>)
    requires
        numbers_fit(table),
        holds_all(table, arithmetic_texts(arithmetic)),
    ensures
        arithmetic_alike(arithmetic, coded_arithmetic(arithmetic, table), table),
{
    lemma_holds_both(table, factor_texts(arithmetic.init), rest_texts(arithmetic.rest));
    lemma_factor(arithmetic.init, table);
    assert forall|i: int| 0 <= i < arithmetic.rest.len() implies factor_alike(
        (#[trigger] arithmetic.rest[i]).1,
        coded_factor(arithmetic.rest[i].1, table),
        table,
    ) by {
        lemma_rest_held(arithmetic.rest, table, i);
        lemma_factor(arithmetic.rest[i].1, table);
    }
}

proof fn lemma_arguments_held(arguments: Seq<AtomArgModel>, table: Seq<Seq<char>>, i: int)
    requires
        holds_all(table, arguments_texts(arguments)),
        0 <= i < arguments.len(),
    ensures
        holds_all(table, argument_texts(arguments[i])),
    decreases arguments.len(),
{
    let front = arguments.drop_last();
    lemma_holds_both(table, arguments_texts(front), argument_texts(arguments.last()));
    if i < front.len() {
        lemma_arguments_held(front, table, i);
    }
}

proof fn lemma_atom(atom: AtomModel, table: Seq<Seq<char>>)
    requires
        numbers_fit(table),
        holds_all(table, arguments_texts(atom.arguments)),
    ensures
        atom_alike(atom, coded_atom(atom, table), table),
{
    assert forall|i: int| 0 <= i < atom.arguments.len() implies argument_alike(
        #[trigger] atom.arguments[i],
        coded_argument(atom.arguments[i], table),
        table,
    ) by {
        lemma_arguments_held(atom.arguments, table, i);
        if let AtomArgModel::Const(constant) = atom.arguments[i] {
            lemma_const(constant, table);
        }
    }
}

/// Numbering the texts of a predicate keeps its kind, its relation or operator, its
/// variables and its integers, and puts the number of its text for each text.
pub proof fn law_numbered_predicates(predicate: PredicateModel, table: Seq<Seq<char>>)
    requires
        numbers_fit(table),
        holds_all(table, predicate_texts(predicate)),
    ensures
        predicate_alike(predicate, coded_predicate(predicate, table), table),
{
    match predicate {
        PredicateModel::AtomPredicate(atom) => {
            lemma_atom(atom, table);
        },
        PredicateModel::NegatedAtomPredicate(atom) => {
            lemma_atom(atom, table);
        },
        PredicateModel::ComparePredicate(comparison) => {
            lemma_holds_both(
                table,
                arithmetic_texts(comparison.left),
                arithmetic_texts(comparison.right),
            );
            lemma_arithmetic(comparison.left, table);
            lemma_arithmetic(comparison.right, table);
        },
    }
}

proof fn lemma_head_held(arguments: Seq<HeadArgModel>, table: Seq<Seq<char>>, i: int)
    requires
        holds_all(table, head_texts(arguments)),
        0 <= i < arguments.len(),
    ensures
        holds_all(table, head_argument_texts(arguments[i])),
    decreases arguments.len(),
{
    let front = arguments.drop_last();
    lemma_holds_both(table, head_texts(front), head_argument_texts(arguments.last()));
    if i < front.len() {
        lemma_head_held(front, table, i);
    }
}

proof fn lemma_body_held(rhs: Seq<PredicateModel>, table: Seq<Seq<char>>, i: int)
    requires
        holds_all(table, body_texts(rhs)),
        0 <= i < rhs.len(),
    ensures
        holds_all(table, predicate_texts(rhs[i])),
    decreases rhs.len(),
{
    let front = rhs.drop_last();
    lemma_holds_both(table, body_texts(front), predicate_texts(rhs.last()));
    if i < front.len() {
        lemma_body_held(front, table, i);
    }
}

/// Numbering the texts of a rule changes nothing else: each argument of its head and each
/// predicate of its body is what stands at the same place, with a number for each text.
pub proof fn law_numbered_rules(rule: FLRuleModel, table: Seq<Seq<char>>)
    requires
        numbers_fit(table),
        holds_all(table, head_texts(rule.head.head_arguments)),
        holds_all(table, body_texts(rule.rhs)),
    ensures
        rule_alike(rule, coded_rule(rule, table), table),
{
    let arguments = rule.head.head_arguments;
    assert forall|i: int| 0 <= i < arguments.len() implies head_argument_alike(
        #[trigger] arguments[i],
        coded_head_argument(arguments[i], table),
        table,
    ) by {
        lemma_head_held(arguments, table, i);
        match arguments[i] {
            HeadArgModel::Var(_) => {},
            HeadArgModel::Arith(arithmetic) => {
                lemma_arithmetic(arithmetic, table);
            },
            HeadArgModel::Aggregation(aggregation) => {
                lemma_arithmetic(aggregation.arithmetic, table);
            },
        }
    }
    assert forall|i: int| 0 <= i < rule.rhs.len() implies predicate_alike(
        #[trigger] rule.rhs[i],
        coded_predicate(rule.rhs[i], table),
        table,
    ) by {
        lemma_body_held(rule.rhs, table, i);
        law_numbered_predicates(rule.rhs[i], table);
    }
}

proof fn lemma_rules_held(rules: Seq<FLRuleModel>, table: Seq<Seq<char>>, i: int)
    requires
        holds_all(table, rules_texts(rules)),
        0 <= i < rules.len(),
    ensures
        holds_all(table, head_texts(rules[i].head.head_arguments)),
        holds_all(table, body_texts(rules[i].rhs)),
    decreases rules.len(),
{
    let front = rules.drop_last();
    let head = head_texts(rules.last().head.head_arguments);
    let body = body_texts(rules.last().rhs);
    lemma_holds_both(table, rules_texts(front), head + body);
    lemma_holds_both(table, head, body);
    if i < front.len() {
        lemma_rules_held(front, table, i);
    }
}

/// Numbering the texts of a program keeps its declarations and its rules, each in its
/// place with a number for each text, where the numbers are those of a table that the
/// texts of the rules were entered into.
pub proof fn law_numbered_programs(program: ProgramModel, table: Seq<Seq<char>>)
    requires
        table.no_duplicates(),
        table_with_all(table, rules_texts(program.rules)).len() <= i32::MAX,
    ensures
        ({
            let known = table_with_all(table, rules_texts(program.rules));
            let coded = coded_program(program, known);
            &&& coded.edbs == program.edbs
            &&& coded.idbs == program.idbs
            &&& coded.rules.len() == program.rules.len()
            &&& forall|i: int|
                0 <= i < program.rules.len() ==> rule_alike(
                    #[trigger] program.rules[i],
                    coded.rules[i],
                    known,
                )
        }),
{
    let known = table_with_all(table, rules_texts(program.rules));
    law_texts_are_entered(table, rules_texts(program.rules));
    assert forall|i: int| 0 <= i < program.rules.len() implies rule_alike(
        #[trigger] program.rules[i],
        coded_rule(program.rules[i], known),
        known,
    ) by {
        lemma_rules_held(program.rules, known, i);
        law_numbered_rules(program.rules[i], known);
    }
}

/// A row is shown column by column, with a comma and a space between the columns. A
/// column of numbers shows its number, and one of texts the text under its number.
pub proof fn law_rows_are_shown(
    values: Seq<i64>,
    value: i64,
    types: Seq<DataType>,
    table: Seq<Seq<char>>,
)
    requires
        values.len() < types.len(),
    ensures
        ({
            let shown = column_text(value, types[values.len() as int], table);
            &&& decoded_row(values.push(value), types, table) == if values.len() == 0 {
                shown
            } else {
                decoded_row(values, types, table) + ", "@ + shown
            }
            &&& types[values.len() as int] == DataType::Integer ==> int_value(shown) == Some(
                value as int,
            )
            &&& types[values.len() as int] == DataType::String && 0 <= value < table.len()
                ==> table[value as int] == shown
        }),
{
    let n = values.len() as int;
    let more = values.push(value);
    let shown = Seq::new(more.len(), |i: int| column_text(more[i], type_at(types, i), table));
    let front = Seq::new(values.len(), |i: int| column_text(values[i], type_at(types, i), table));
    assert(shown.drop_last() =~= front);
    assert(shown.last() == column_text(value, types[n], table));
    assert(shown.len() == 1 ==> shown[0] == shown.last());
    law_int_text_round_trip(value as int);
}

/// The columns of a relation have the types of its attributes, in their order.
pub proof fn law_columns_have_declared_types(decl: RelDeclModel, i: int)
    requires
        0 <= i < decl.attributes.len(),
    ensures
        column_types(decl).len() == decl.attributes.len(),
        column_types(decl)[i] == decl.attributes[i].data_type,
{
}

/// Whether an expression holds no text.
pub open spec fn arithmetic_without_texts(arithmetic: ArithmeticModel) -> bool {
    &&& !(arithmetic.init matches FactorModel::Const(ConstModel::Text(_)))
    &&& forall|i: int|
        0 <= i < arithmetic.rest.len() ==> !((#[trigger] arithmetic.rest[i]).1
            matches FactorModel::Const(ConstModel::Text(_)))
}

/// Whether an atom holds no text.
pub open spec fn atom_without_texts(atom: AtomModel) -> bool {
    forall|i: int|
        0 <= i < atom.arguments.len() ==> !(#[trigger] atom.arguments[i] matches AtomArgModel::Const(
            ConstModel::Text(_),
        ))
}

/// Whether a predicate holds no text.
pub open spec fn predicate_without_texts(predicate: PredicateModel) -> bool {
    match predicate {
        PredicateModel::AtomPredicate(atom) => atom_without_texts(atom),
        PredicateModel::NegatedAtomPredicate(atom) => atom_without_texts(atom),
        PredicateModel::ComparePredicate(comparison) => arithmetic_without_texts(comparison.left)
            && arithmetic_without_texts(comparison.right),
    }
}

/// Whether an argument of a head holds no text.
pub open spec fn head_argument_without_texts(argument: HeadArgModel) -> bool {
    match argument {
        HeadArgModel::Var(_) => true,
        HeadArgModel::Arith(arithmetic) => arithmetic_without_texts(arithmetic),
        HeadArgModel::Aggregation(aggregation) => arithmetic_without_texts(aggregation.arithmetic),
    }
}

proof fn lemma_arithmetic_stays(arithmetic: ArithmeticModel, table: Seq<Seq<char>>)
    requires
        arithmetic_without_texts(arithmetic),
    ensures
        coded_arithmetic(arithmetic, table) == arithmetic,
{
    let rest = arithmetic.rest;
    assert forall|i: int| 0 <= i < rest.len() implies coded_factor((#[trigger] rest[i]).1, table)
        == rest[i].1 by {
        assert(!(arithmetic.rest[i].1 matches FactorModel::Const(ConstModel::Text(_))));
    }
    assert(coded_arithmetic(arithmetic, table).rest =~= rest);
}

proof fn lemma_atom_stays(atom: AtomModel, table: Seq<Seq<char>>)
    requires
        atom_without_texts(atom),
    ensures
        coded_atom(atom, table) == atom,
{
    assert(coded_atom(atom, table).arguments =~= atom.arguments);
}

/// A rule without texts stays as it is when its texts are numbered, whatever the table.
pub proof fn law_rules_without_texts_stay(rule: FLRuleModel, table: Seq<Seq<char>>)
    requires
        forall|i: int|
            0 <= i < rule.rhs.len() ==> predicate_without_texts(#[trigger] rule.rhs[i]),
        forall|i: int|
            0 <= i < rule.head.head_arguments.len() ==> head_argument_without_texts(
                #[trigger] rule.head.head_arguments[i],
            ),
    ensures
        coded_rule(rule, table) == rule,
{
    let coded = coded_rule(rule, table);
    assert forall|i: int| 0 <= i < rule.rhs.len() implies coded_predicate(
        #[trigger] rule.rhs[i],
        table,
    ) == rule.rhs[i] by {
        match rule.rhs[i] {
            PredicateModel::AtomPredicate(atom) => {
                lemma_atom_stays(atom, table);
            },
            PredicateModel::NegatedAtomPredicate(atom) => {
                lemma_atom_stays(atom, table);
            },
            PredicateModel::ComparePredicate(comparison) => {
                lemma_arithmetic_stays(comparison.left, table);
                lemma_arithmetic_stays(comparison.right, table);
            },
        }
    }
    assert forall|i: int| 0 <= i < rule.head.head_arguments.len() implies coded_head_argument(
        #[trigger] rule.head.head_arguments[i],
        table,
    ) == rule.head.head_arguments[i] by {
        match rule.head.head_arguments[i] {
            HeadArgModel::Var(_) => {},
            HeadArgModel::Arith(arithmetic) => {
                lemma_arithmetic_stays(arithmetic, table);
            },
            HeadArgModel::Aggregation(aggregation) => {
                lemma_arithmetic_stays(aggregation.arithmetic, table);
            },
        }
    }
    assert(coded.rhs =~= rule.rhs);
    assert(coded.head.head_arguments =~= rule.head.head_arguments);
}

} // verus!
