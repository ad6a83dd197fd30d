//! How rules are written, part by part, and which variables stand in them.
use vstd::prelude::*;
use vstd::string::*;
use crate::parsing::aggregation::{AggregationModel, AggregationOperator};
use crate::parsing::arithmetic::{
    distinct, lemma_distinct, ArithmeticModel, ArithmeticOperator, FactorModel,
};
use crate::parsing::compare::{ComparisonExprModel, ComparisonOperator};
use crate::parsing::decl::{data_type_named, AttributeModel, DataType, RelDeclModel};
use crate::parsing::head::{HeadArgModel, HeadModel};
use crate::parsing::parser::ProgramModel;
use crate::parsing::rule::{
    AtomArgModel, AtomModel, ConstModel, FLRuleModel, PredicateModel,
};
use crate::text::{i32_value, join_text, law_i32_text_round_trip, texts, Written};

verus! {

/// Different operators are written differently.
pub proof fn law_operators_are_written_apart(
    a: ComparisonOperator,
    b: ComparisonOperator,
    c: ArithmeticOperator,
    d: ArithmeticOperator,
    e: AggregationOperator,
    f: AggregationOperator,
)
    ensures
        a.text() == b.text() ==> a == b,
        c.text() == d.text() ==> c == d,
        e.text() == f.text() ==> e == f,
{
    reveal_strlit("==");
    reveal_strlit("≠");
    reveal_strlit(">");
    reveal_strlit("≥");
    reveal_strlit("<");
    reveal_strlit("≤");
    reveal_strlit("+");
    reveal_strlit("-");
    reveal_strlit("*");
    reveal_strlit("/");
    reveal_strlit("%");
    reveal_strlit("min");
    reveal_strlit("max");
    reveal_strlit("count");
    reveal_strlit("sum");
    assert(a.text()[0] == b.text()[0] ==> a == b);
    assert(c.text()[0] == d.text()[0] ==> c == d);
    assert(e.text()[1] == f.text()[1] ==> e == f);
}

/// The word for a type names the type, and no other word does.
pub proof fn law_type_words_name_types(data_type: DataType, word: Seq<char>)
    ensures
        data_type_named(word) == Some(data_type) <==> word == data_type.text(),
{
    reveal_strlit("number");
    reveal_strlit("string");
    assert("number"@[0] != "string"@[0]);
}

/// An integer is written in decimal and read back, and a text is written as it is; a
/// constant, a variable or an expression stands in an argument as it does by itself.
pub proof fn law_constants_are_written(
    number: i32,
    text: Seq<char>,
    var: Seq<char>,
    constant: ConstModel,
    arithmetic: ArithmeticModel,
)
    ensures
        i32_value(ConstModel::Integer(number).text()) == Some(number),
        ConstModel::Text(text).text() == text,
        AtomArgModel::Const(constant).text() == constant.text(),
        AtomArgModel::Var(var).text() == var,
        FactorModel::Const(constant).text() == constant.text(),
        FactorModel::Var(var).text() == var,
        HeadArgModel::Var(var).text() == var,
        HeadArgModel::Arith(arithmetic).text() == arithmetic.text(),
{
    law_i32_text_round_trip(number);
}

/// An expression of one factor is written as the factor, and each further operation
/// behind it with spaces around its operator.
pub proof fn law_expressions_are_written(
    arithmetic: ArithmeticModel,
    operator: ArithmeticOperator,
    factor: FactorModel,
)
    ensures
        (ArithmeticModel { init: factor, rest: Seq::empty() }).text() == factor.text(),
        (ArithmeticModel {
            init: arithmetic.init,
            rest: arithmetic.rest.push((operator, factor)),
        }).text() == arithmetic.text() + " "@ + operator.text() + " "@ + factor.text(),
{
    let one = ArithmeticModel { init: factor, rest: Seq::empty() };
    assert(one.text() =~= factor.text());
    let more = ArithmeticModel {
        init: arithmetic.init,
        rest: arithmetic.rest.push((operator, factor)),
    };
    assert(more.rest.drop_last() =~= arithmetic.rest);
    assert(more.text() =~= arithmetic.text() + " "@ + operator.text() + " "@ + factor.text());
}

/// A comparison is written in brackets with its operator between its sides, and an
/// aggregation with its word before its expression.
pub proof fn law_comparisons_are_written(
    comparison: ComparisonExprModel,
    aggregation: AggregationModel,
)
    ensures
        comparison.text() == "["@ + comparison.left.text() + " "@ + comparison.operator.text()
            + " "@ + comparison.right.text() + "]"@,
        HeadArgModel::Aggregation(aggregation).text() == aggregation.operator.text() + "("@
            + aggregation.arithmetic.text() + ")"@,
{
}

/// A negated atom is written as the atom with a sign before it.
pub proof fn law_predicates_are_written(atom: AtomModel, comparison: ComparisonExprModel)
    ensures
        PredicateModel::AtomPredicate(atom).text() == atom.text(),
        PredicateModel::NegatedAtomPredicate(atom).text() == "!"@
            + PredicateModel::AtomPredicate(atom).text(),
        PredicateModel::ComparePredicate(comparison).text() == comparison.text(),
{
}

proof fn lemma_one_more<M: Written>(items: Seq<M>, item: M, separator: Seq<char>)
    ensures
        join_text(texts(items.push(item)), separator) == if items.len() == 0 {
            item.text()
        } else {
            join_text(texts(items), separator) + separator + item.text()
        },
{
    let more = texts(items.push(item));
    assert(more.drop_last() =~= texts(items));
    assert(more.last() == item.text());
}

/// One more argument of an atom or a head is written behind the others, with a comma and
/// a space before it, inside the brackets.
pub proof fn law_arguments_are_written_in_order(
    atom: AtomModel,
    argument: AtomArgModel,
    head: HeadModel,
    head_argument: HeadArgModel,
)
    ensures
        ({
            let more = AtomModel { name: atom.name, arguments: atom.arguments.push(argument) };
            if atom.arguments.len() == 0 {
                more.text() == atom.name + "("@ + argument.text() + ")"@
            } else {
                exists|start: Seq<char>|
                    atom.text() == start + ")"@ && #[trigger] (start + ", "@ + argument.text()
                        + ")"@) == more.text()
            }
        }),
        ({
            let more = HeadModel {
                name: head.name,
                head_arguments: head.head_arguments.push(head_argument),
            };
            if head.head_arguments.len() == 0 {
                more.text() == head.name + "("@ + head_argument.text() + ")"@
            } else {
                exists|start: Seq<char>|
                    head.text() == start + ")"@ && #[trigger] (start + ", "@
                        + head_argument.text() + ")"@) == more.text()
            }
        }),
{
    lemma_one_more(atom.arguments, argument, ", "@);
    lemma_one_more(head.head_arguments, head_argument, ", "@);
    let more = AtomModel { name: atom.name, arguments: atom.arguments.push(argument) };
    if atom.arguments.len() > 0 {
        let start = atom.name + "("@ + join_text(texts(atom.arguments), ", "@);
        assert(start + ", "@ + argument.text() + ")"@ =~= more.text());
    }
    let longer = HeadModel {
        name: head.name,
        head_arguments: head.head_arguments.push(head_argument),
    };
    if head.head_arguments.len() > 0 {
        let start = head.name + "("@ + join_text(texts(head.head_arguments), ", "@);
        assert(start + ", "@ + head_argument.text() + ")"@ =~= longer.text());
    }
}

/// A rule is written with its head first and its predicates in order, each behind a comma
/// and a space, and a full stop at the end.
pub proof fn law_rules_are_written(rule: FLRuleModel, predicate: PredicateModel)
    ensures
        ({
            let more = FLRuleModel { rhs: rule.rhs.push(predicate), ..rule };
            if rule.rhs.len() == 0 {
                more.text() == rule.head.text() + " :- "@ + predicate.text() + "."@
            } else {
                exists|start: Seq<char>|
                    rule.text() == start + "."@ && #[trigger] (start + ", "@ + predicate.text()
                        + "."@) == more.text()
            }
        }),
{
    lemma_one_more(rule.rhs, predicate, ", "@);
    let more = FLRuleModel { rhs: rule.rhs.push(predicate), ..rule };
    if rule.rhs.len() > 0 {
        let start = rule.head.text() + " :- "@ + join_text(texts(rule.rhs), ", "@);
        assert(start + ", "@ + predicate.text() + "."@ =~= more.text());
    }
}

/// A declaration is written with its attributes in order, each with the word for its
/// type, and with its path at the end where it has one.
pub proof fn law_declarations_are_written(
    decl: RelDeclModel,
    attribute: AttributeModel,
    path: Seq<char>,
)
    ensures
        attribute.text() == attribute.name + ": "@ + attribute.data_type.text(),
        (RelDeclModel { path: Some(path), ..decl }).text() == (RelDeclModel {
            path: None,
            ..decl
        }).text() + " read as "@ + path,
        decl.path is None ==> ({
            let more = RelDeclModel { attributes: decl.attributes.push(attribute), ..decl };
            if decl.attributes.len() == 0 {
                more.text() == decl.name + "("@ + attribute.text() + ")"@
            } else {
                exists|start: Seq<char>|
                    decl.text() == start + ")"@ && #[trigger] (start + ", "@ + attribute.text()
                        + ")"@) == more.text()
            }
        }),
{
    lemma_one_more(decl.attributes, attribute, ", "@);
    let more = RelDeclModel { attributes: decl.attributes.push(attribute), ..decl };
    if decl.attributes.len() > 0 && decl.path is None {
        let start = decl.name + "("@ + join_text(texts(decl.attributes), ", "@);
        assert(start + ", "@ + attribute.text() + ")"@ =~= more.text());
    }
}

/// The variables of an expression are those of its factors in their order, as often as
/// they stand there; those of a comparison are those of its left side and then those of
/// its right side.
pub proof fn law_variables_of_expressions(
    arithmetic: ArithmeticModel,
    operator: ArithmeticOperator,
    var: Seq<char>,
    constant: ConstModel,
    comparison: ComparisonExprModel,
    aggregation: AggregationModel,
)
    ensures
        (ArithmeticModel { init: FactorModel::Var(var), rest: Seq::empty() }).vars() == seq![var],
        (ArithmeticModel { init: FactorModel::Const(constant), rest: Seq::empty() }).vars()
            == Seq::<Seq<char>>::empty(),
        (ArithmeticModel {
            init: arithmetic.init,
            rest: arithmetic.rest.push((operator, FactorModel::Var(var))),
        }).vars() == arithmetic.vars().push(var),
        (ArithmeticModel {
            init: arithmetic.init,
            rest: arithmetic.rest.push((operator, FactorModel::Const(constant))),
        }).vars() == arithmetic.vars(),
        comparison.vars() == comparison.left.vars() + comparison.right.vars(),
        HeadArgModel::Var(var).vars() == seq![var],
        HeadArgModel::Arith(arithmetic).vars() == arithmetic.vars(),
        HeadArgModel::Aggregation(aggregation).vars() == aggregation.arithmetic.vars(),
{
    let lone = ArithmeticModel { init: FactorModel::Var(var), rest: Seq::empty() };
    assert(lone.vars() =~= seq![var]);
    let fixed = ArithmeticModel { init: FactorModel::Const(constant), rest: Seq::empty() };
    assert(fixed.vars() =~= Seq::empty());
    let with_var = ArithmeticModel {
        init: arithmetic.init,
        rest: arithmetic.rest.push((operator, FactorModel::Var(var))),
    };
    assert(with_var.rest.drop_last() =~= arithmetic.rest);
    assert(with_var.vars() =~= arithmetic.vars().push(var));
    let with_const = ArithmeticModel {
        init: arithmetic.init,
        rest: arithmetic.rest.push((operator, FactorModel::Const(constant))),
    };
    assert(with_const.rest.drop_last() =~= arithmetic.rest);
    assert(with_const.vars() =~= arithmetic.vars());
}

/// Taking away repetitions keeps each item once, where it stands first.
pub proof fn law_first_occurrences_stay<A>(items: Seq<A>, item: A)
    ensures
        distinct(items).no_duplicates(),
        distinct(items).contains(item) <==> items.contains(item),
        distinct(items.push(item)) == if items.contains(item) {
            distinct(items)
        } else {
            distinct(items).push(item)
        },
        items.no_duplicates() ==> distinct(items) == items,
    decreases items.len(),
{
    lemma_distinct(items);
    assert(items.push(item).drop_last() =~= items);
    if items.len() > 0 && items.no_duplicates() {
        let front = items.drop_last();
        law_first_occurrences_stay(front, items.last());
        if front.contains(items.last()) {
            let i = choose|i: int| 0 <= i < front.len() && front[i] == items.last();
            assert(items[i] == items[items.len() - 1]);
        }
        assert(front.push(items.last()) =~= items);
    } else if items.len() == 0 {
        assert(distinct(items) =~= items);
    }
}

/// What stands before one more item where there are some already.
pub open spec fn break_before(count: nat) -> Seq<char> {
    if count == 0 {
        Seq::empty()
    } else {
        "\n"@
    }
}

/// A program is written section by section. One more rule is written on a line behind the
/// others, and one more declaration behind those of its section.
pub proof fn law_programs_are_written(
    program: ProgramModel,
    rule: FLRuleModel,
    decl: RelDeclModel,
)
    ensures
        (ProgramModel { edbs: Seq::empty(), idbs: Seq::empty(), rules: Seq::empty() }).text()
            == ".in \n"@ + "\n.printsize \n"@ + "\n.rule \n"@,
        (ProgramModel { rules: program.rules.push(rule), ..program }).text() == program.text()
            + break_before(program.rules.len()) + rule.text(),
        program.rules.len() == 0 ==> exists|start: Seq<char>|
            program.text() == start + "\n.rule \n"@ && #[trigger] (start + break_before(
                program.idbs.len(),
            ) + decl.text() + "\n.rule \n"@) == (ProgramModel {
                idbs: program.idbs.push(decl),
                ..program
            }).text(),
        program.rules.len() == 0 && program.idbs.len() == 0 ==> exists|start: Seq<char>|
            program.text() == start + "\n.printsize \n"@ + "\n.rule \n"@ && #[trigger] (start
                + break_before(program.edbs.len()) + decl.text() + "\n.printsize \n"@
                + "\n.rule \n"@) == (ProgramModel {
                edbs: program.edbs.push(decl),
                ..program
            }).text(),
{
    let empty = ProgramModel { edbs: Seq::empty(), idbs: Seq::empty(), rules: Seq::empty() };
    assert(empty.text() =~= ".in \n"@ + "\n.printsize \n"@ + "\n.rule \n"@);
    lemma_one_more(program.rules, rule, "\n"@);
    lemma_one_more(program.idbs, decl, "\n"@);
    lemma_one_more(program.edbs, decl, "\n"@);
    let more = ProgramModel { rules: program.rules.push(rule), ..program };
    assert(more.text() =~= program.text() + break_before(program.rules.len()) + rule.text());
    if program.rules.len() == 0 {
        let start = ".in \n"@ + join_text(texts(program.edbs), "\n"@) + "\n.printsize \n"@
            + join_text(texts(program.idbs), "\n"@);
        let wider = ProgramModel { idbs: program.idbs.push(decl), ..program };
        assert(program.text() =~= start + "\n.rule \n"@);
        assert(start + break_before(program.idbs.len()) + decl.text() + "\n.rule \n"@
            =~= wider.text());
        if program.idbs.len() == 0 {
            let start = ".in \n"@ + join_text(texts(program.edbs), "\n"@);
            let wider = ProgramModel { edbs: program.edbs.push(decl), ..program };
            assert(program.text() =~= start + "\n.printsize \n"@ + "\n.rule \n"@);
            assert(start + break_before(program.edbs.len()) + decl.text() + "\n.printsize \n"@
                + "\n.rule \n"@ =~= wider.text());
        }
    }
}

} // verus!
