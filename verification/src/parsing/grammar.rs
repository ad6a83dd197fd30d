//! The trees that programs are written as, and what is read off them.
use vstd::prelude::*;
use vstd::string::*;
use crate::parsing::aggregation::{aggregation_operator_reading, AggregationOperator};
use crate::parsing::arithmetic::{
    arithmetic_reading, factor_reading, operator_reading, rest_reading, ArithmeticModel,
    ArithmeticOperator, FactorModel,
};
use crate::parsing::compare::{
    comparison_operator_reading, comparison_reading, ComparisonExprModel, ComparisonOperator,
};
use crate::parsing::decl::{
    attribute_reading, rel_decl_reading, AttributeModel, DataType, RelDeclModel,
};
use crate::parsing::head::{head_arg_reading, head_reading, HeadArgModel, HeadModel};
use crate::parsing::parser::{
    program_reading, rel_decls_reading, rules_reading, sections_reading, ParseNode, ProgramModel,
    Rule,
};
use crate::parsing::rule::{
    atom_reading, const_reading, marks, rule_reading, wrapped_arg_reading,
    wrapped_predicate_reading, AtomArgModel, AtomModel, ConstModel, FLRuleModel, PredicateModel,
};
use crate::text::{int_text, int_value, law_i32_text_round_trip};

verus! {

/// The grammar rule for the sign of a comparison.
pub open spec fn comparison_sign(operator: ComparisonOperator) -> Rule {
    match operator {
        ComparisonOperator::Equals => Rule::Equals,
        ComparisonOperator::NotEquals => Rule::NotEquals,
        ComparisonOperator::GreaterThan => Rule::GreaterThan,
        ComparisonOperator::GreaterEqualThan => Rule::GreaterEqualThan,
        ComparisonOperator::LessThan => Rule::LessThan,
        ComparisonOperator::LessEqualThan => Rule::LessEqualThan,
    }
}

/// The grammar rule for the sign of an operation.
pub open spec fn arithmetic_sign(operator: ArithmeticOperator) -> Rule {
    match operator {
        ArithmeticOperator::Plus => Rule::Plus,
        ArithmeticOperator::Minus => Rule::Minus,
        ArithmeticOperator::Multiply => Rule::Times,
        ArithmeticOperator::Divide => Rule::Divide,
        ArithmeticOperator::Modulo => Rule::Modulo,
    }
}

/// The grammar rule for the word of an aggregation.
pub open spec fn aggregation_sign(operator: AggregationOperator) -> Rule {
    match operator {
        AggregationOperator::Min => Rule::Min,
        AggregationOperator::Max => Rule::Max,
        AggregationOperator::Count => Rule::Count,
        AggregationOperator::Sum => Rule::Sum,
    }
}

/// Whether the first node inside a node was made by a grammar rule.
pub open spec fn starts_with(node: ParseNode, rule: Rule) -> bool {
    node.inner@.len() > 0 && node.inner@[0].rule == rule
}

/// Reading an operator undoes writing its sign: an operator is read off exactly the
/// nodes that hold its own sign, so different signs are read as different operators.
pub proof fn law_operators_are_read_off_their_signs(
    node: ParseNode,
    comparison: ComparisonOperator,
    operation: ArithmeticOperator,
    aggregation: AggregationOperator,
)
    ensures
        comparison_operator_reading(node) == Some(comparison) <==> starts_with(
            node,
            comparison_sign(comparison),
        ),
        operator_reading(node) == Some(operation) <==> starts_with(
            node,
            arithmetic_sign(operation),
        ),
        aggregation_operator_reading(node) == Some(aggregation) <==> starts_with(
            node,
            aggregation_sign(aggregation),
        ),
{
}

/// Whether a node is the tree of a constant: an integer is written in decimal, and a text
/// as it is.
pub open spec fn const_tree(node: ParseNode, constant: ConstModel) -> bool {
    &&& node.inner@.len() > 0
    &&& match constant {
        ConstModel::Integer(number) => node.inner@[0].rule is Integer && int_value(
            node.inner@[0].text@,
        ) == Some(number as int),
        ConstModel::Text(text) => node.inner@[0].rule is Text && node.inner@[0].text@ == text,
    }
}

/// Whether a node is the tree of a factor.
pub open spec fn factor_tree(node: ParseNode, factor: FactorModel) -> bool {
    &&& node.inner@.len() > 0
    &&& match factor {
        FactorModel::Var(var) => node.inner@[0].rule is Variable && node.inner@[0].text@ == var,
        FactorModel::Const(constant) => node.inner@[0].rule is Constant && const_tree(
            node.inner@[0],
            constant,
        ),
    }
}

/// Whether a node is the tree of an expression: factors with operators between them.
pub open spec fn arithmetic_tree(node: ParseNode, arithmetic: ArithmeticModel) -> bool {
    let inner = node.inner@;
    &&& inner.len() == 1 + 2 * arithmetic.rest.len()
    &&& factor_tree(inner[0], arithmetic.init)
    &&& forall|k: int|
        0 <= k < arithmetic.rest.len() ==> starts_with(
            inner[2 * k + 1],
            arithmetic_sign((#[trigger] arithmetic.rest[k]).0),
        ) && factor_tree(inner[2 * k + 2], arithmetic.rest[k].1)
}

/// Whether a node is the tree of a comparison.
pub open spec fn comparison_tree(node: ParseNode, comparison: ComparisonExprModel) -> bool {
    &&& node.inner@.len() >= 3
    &&& arithmetic_tree(node.inner@[0], comparison.left)
    &&& starts_with(node.inner@[1], comparison_sign(comparison.operator))
    &&& arithmetic_tree(node.inner@[2], comparison.right)
}

/// Whether a node is the tree of an argument of a head. A lone variable is not an
/// expression.
pub open spec fn head_arg_tree(node: ParseNode, argument: HeadArgModel) -> bool {
    match argument {
        HeadArgModel::Var(var) => node.rule is Arithmics && arithmetic_tree(
            node,
            ArithmeticModel { init: FactorModel::Var(var), rest: Seq::empty() },
        ),
        HeadArgModel::Arith(arithmetic) => node.rule is Arithmics && arithmetic_tree(
            node,
            arithmetic,
        ) && (arithmetic.init is Const || arithmetic.rest.len() > 0),
        HeadArgModel::Aggregation(aggregation) => {
            &&& node.rule is Aggregate
            &&& node.inner@.len() >= 2
            &&& starts_with(node.inner@[0], aggregation_sign(aggregation.operator))
            &&& arithmetic_tree(node.inner@[1], aggregation.arithmetic)
        },
    }
}

/// Whether a node is the tree of a head.
pub open spec fn head_tree(node: ParseNode, head: HeadModel) -> bool {
    &&& node.inner@.len() == 1 + head.head_arguments.len()
    &&& node.inner@[0].text@ == head.name
    &&& forall|k: int|
        0 <= k < head.head_arguments.len() ==> head_arg_tree(
            node.inner@[1 + k],
            #[trigger] head.head_arguments[k],
        )
}

/// Whether a node is the tree of an argument of an atom.
pub open spec fn atom_arg_tree(node: ParseNode, argument: AtomArgModel) -> bool {
    &&& node.inner@.len() > 0
    &&& match argument {
        AtomArgModel::Var(var) => node.inner@[0].rule is Variable && node.inner@[0].text@ == var,
        AtomArgModel::Const(constant) => node.inner@[0].rule is Constant && const_tree(
            node.inner@[0],
            constant,
        ),
        AtomArgModel::Placeholder => node.inner@[0].rule is Placeholder,
    }
}

/// Whether a node is the tree of an atom.
pub open spec fn atom_tree(node: ParseNode, atom: AtomModel) -> bool {
    &&& node.inner@.len() == 1 + atom.arguments.len()
    &&& node.inner@[0].text@ == atom.name
    &&& forall|k: int|
        0 <= k < atom.arguments.len() ==> atom_arg_tree(
            node.inner@[1 + k],
            #[trigger] atom.arguments[k],
        )
}

/// Whether a node is the tree of a predicate: an atom, an atom behind a sign of negation,
/// or a comparison.
pub open spec fn predicate_tree(node: ParseNode, predicate: PredicateModel) -> bool {
    let inner = node.inner@[0];
    &&& node.inner@.len() > 0
    &&& match predicate {
        PredicateModel::AtomPredicate(atom) => inner.rule is Atom && atom_tree(inner, atom),
        PredicateModel::NegatedAtomPredicate(atom) => inner.rule is NegAtom && inner.inner@.len()
            > 0 && atom_tree(inner.inner@[0], atom),
        PredicateModel::ComparePredicate(comparison) => inner.rule is CompareExpr
            && comparison_tree(inner, comparison),
    }
}

/// The mark behind a rule that is to be planned, to pass values sideways, or both.
pub open spec fn mark_text(is_planning: bool, is_sip: bool) -> Seq<char> {
    if is_planning && is_sip {
        ".optimize"@
    } else if is_planning {
        ".plan"@
    } else {
        ".sip"@
    }
}

/// Whether a node is the tree of a rule.
pub open spec fn rule_tree(node: ParseNode, rule: FLRuleModel) -> bool {
    let inner = node.inner@;
    &&& inner.len() >= 2
    &&& head_tree(inner[0], rule.head)
    &&& inner[1].inner@.len() == rule.rhs.len()
    &&& forall|k: int|
        0 <= k < rule.rhs.len() ==> predicate_tree(inner[1].inner@[k], #[trigger] rule.rhs[k])
    &&& rule.is_planning || rule.is_sip <==> inner.len() > 2
    &&& inner.len() > 2 ==> inner[2].text@ == mark_text(rule.is_planning, rule.is_sip)
}

/// The word for a type of a column.
pub open spec fn type_word(data_type: DataType) -> Seq<char> {
    match data_type {
        DataType::Integer => "number"@,
        DataType::String => "string"@,
    }
}

/// Whether a node is the tree of an attribute.
pub open spec fn attribute_tree(node: ParseNode, attribute: AttributeModel) -> bool {
    &&& node.inner@.len() >= 2
    &&& node.inner@[0].text@ == attribute.name
    &&& node.inner@[1].text@ == type_word(attribute.data_type)
}

/// Whether a node is the tree of a declaration.
pub open spec fn decl_tree(node: ParseNode, decl: RelDeclModel) -> bool {
    let inner = node.inner@;
    &&& inner.len() >= 2
    &&& inner[0].text@ == decl.name
    &&& inner[1].inner@.len() == decl.attributes.len()
    &&& forall|k: int|
        0 <= k < decl.attributes.len() ==> attribute_tree(
            inner[1].inner@[k],
            #[trigger] decl.attributes[k],
        )
    &&& decl.path is Some <==> inner.len() > 2
    &&& decl.path matches Some(path) ==> inner[2].inner@.len() > 0 && inner[2].inner@[0].text@
        == path
}

/// Whether a node is the tree of a section of declarations.
pub open spec fn decls_tree(node: ParseNode, decls: Seq<RelDeclModel>) -> bool {
    &&& node.inner@.len() == decls.len()
    &&& forall|k: int| 0 <= k < decls.len() ==> decl_tree(node.inner@[k], #[trigger] decls[k])
}

/// Whether a node is the tree of a section of rules.
pub open spec fn rules_tree(node: ParseNode, rules: Seq<FLRuleModel>) -> bool {
    &&& node.inner@.len() == rules.len()
    &&& forall|k: int| 0 <= k < rules.len() ==> rule_tree(node.inner@[k], #[trigger] rules[k])
}

/// Whether a node is the tree of a program: what is given, what is derived, the rules,
/// and what ends the text.
pub open spec fn program_tree(node: ParseNode, program: ProgramModel) -> bool {
    let inner = node.inner@;
    &&& inner.len() >= 3
    &&& inner[0].rule is EdbDecl && decls_tree(inner[0], program.edbs)
    &&& inner[1].rule is IdbDecl && decls_tree(inner[1], program.idbs)
    &&& inner[2].rule is RuleDecl && rules_tree(inner[2], program.rules)
    &&& forall|k: int| 3 <= k < inner.len() ==> (#[trigger] inner[k]).rule is Other
}

/// A constant is read off its tree and off no other. Any integer of 32 bits that is
/// written is read.
pub proof fn law_constants_are_read(node: ParseNode, constant: ConstModel, number: i32)
    ensures
        const_reading(node) == Some(constant) <==> const_tree(node, constant),
        starts_with(node, Rule::Integer) && node.inner@[0].text@ == int_text(number as int)
            ==> const_reading(node) == Some(ConstModel::Integer(number)),
{
    law_i32_text_round_trip(number);
}

proof fn lemma_factor(node: ParseNode, factor: FactorModel)
    ensures
        factor_reading(node) == Some(factor) <==> factor_tree(node, factor),
{
    if let FactorModel::Const(constant) = factor {
        law_constants_are_read(node.inner@[0], constant, 0);
    }
}

proof fn lemma_operation(node: ParseNode, operator: ArithmeticOperator)
    ensures
        operator_reading(node) == Some(operator) <==> starts_with(node, arithmetic_sign(operator)),
{
    law_operators_are_read_off_their_signs(
        node,
        ComparisonOperator::Equals,
        operator,
        AggregationOperator::Min,
    );
}

proof fn lemma_rest(inner: Seq<ParseNode>, rest: Seq<(ArithmeticOperator, FactorModel)>)
    requires
        inner.len() >= 1 + 2 * rest.len(),
    ensures
        rest_reading(inner, rest.len()) == Some(rest) <==> forall|k: int|
            0 <= k < rest.len() ==> starts_with(
                inner[2 * k + 1],
                arithmetic_sign((#[trigger] rest[k]).0),
            ) && factor_tree(inner[2 * k + 2], rest[k].1),
    decreases rest.len(),
{
    if rest.len() == 0 {
        assert(rest =~= Seq::empty());
    } else {
        let n = rest.len() - 1;
        let front = rest.drop_last();
        lemma_rest(inner, front);
        lemma_factor(inner[2 * n + 2], rest[n].1);
        lemma_operation(inner[2 * n + 1], rest[n].0);
        assert(front.push(rest[n]) =~= rest);
        assert(forall|k: int| 0 <= k < front.len() ==> front[k] == rest[k]);
        if rest_reading(inner, rest.len()) == Some(rest) {
            let read = rest_reading(inner, front.len())->0;
            let op = operator_reading(inner[2 * n + 1])->0;
            let factor = factor_reading(inner[2 * n + 2])->0;
            assert(read.push((op, factor)) == rest);
            assert(read.push((op, factor)).drop_last() =~= read);
            assert(read.push((op, factor)).last() == (op, factor));
            assert forall|k: int| 0 <= k < rest.len() implies starts_with(
                inner[2 * k + 1],
                arithmetic_sign((#[trigger] rest[k]).0),
            ) && factor_tree(inner[2 * k + 2], rest[k].1) by {
                if k < n {
                    assert(front[k] == rest[k]);
                    assert(starts_with(inner[2 * k + 1], arithmetic_sign(front[k].0)));
                }
            }
        }
    }
}

proof fn lemma_rest_len(inner: Seq<ParseNode>, pairs: nat)
    ensures
        rest_reading(inner, pairs) matches Some(rest) ==> rest.len() == pairs,
    decreases pairs,
{
    if pairs > 0 {
        lemma_rest_len(inner, (pairs - 1) as nat);
    }
}

/// An expression is read off its tree and off no other, its operations from left to
/// right.
pub proof fn law_expressions_are_read(node: ParseNode, arithmetic: ArithmeticModel)
    ensures
        arithmetic_reading(node) == Some(arithmetic) <==> arithmetic_tree(node, arithmetic),
{
    let inner = node.inner@;
    if inner.len() % 2 == 1 {
        lemma_factor(inner[0], arithmetic.init);
        lemma_rest_len(inner, ((inner.len() - 1) / 2) as nat);
        if inner.len() == 1 + 2 * arithmetic.rest.len() {
            lemma_rest(inner, arithmetic.rest);
        }
    }
}

/// A comparison is read off its tree and off no other.
pub proof fn law_comparisons_are_read(node: ParseNode, comparison: ComparisonExprModel)
    ensures
        comparison_reading(node) == Some(comparison) <==> comparison_tree(node, comparison),
{
    if node.inner@.len() >= 3 {
        law_expressions_are_read(node.inner@[0], comparison.left);
        law_expressions_are_read(node.inner@[2], comparison.right);
        law_operators_are_read_off_their_signs(
            node.inner@[1],
            comparison.operator,
            ArithmeticOperator::Plus,
            AggregationOperator::Min,
        );
    }
}

proof fn lemma_head_arg(node: ParseNode, argument: HeadArgModel)
    ensures
        head_arg_reading(node) == Some(argument) <==> head_arg_tree(node, argument),
{
    match argument {
        HeadArgModel::Var(var) => {
            let lone = ArithmeticModel { init: FactorModel::Var(var), rest: Seq::empty() };
            law_expressions_are_read(node, lone);
            if head_arg_reading(node) == Some(argument) {
                assert(arithmetic_reading(node)->0.rest =~= Seq::empty());
            }
        },
        HeadArgModel::Arith(arithmetic) => {
            law_expressions_are_read(node, arithmetic);
        },
        HeadArgModel::Aggregation(aggregation) => {
            if node.inner@.len() >= 2 {
                law_expressions_are_read(node.inner@[1], aggregation.arithmetic);
                law_operators_are_read_off_their_signs(
                    node.inner@[0],
                    ComparisonOperator::Equals,
                    ArithmeticOperator::Plus,
                    aggregation.operator,
                );
            }
        },
    }
}

/// A head is read off its tree and off no other.
pub proof fn law_heads_are_read(node: ParseNode, head: HeadModel)
    ensures
        head_reading(node) == Some(head) <==> head_tree(node, head),
{
    let inner = node.inner@;
    let arguments = head.head_arguments;
    assert forall|k: int| 0 <= k < arguments.len() implies (head_arg_reading(inner[1 + k]) == Some(
        #[trigger] arguments[k],
    ) <==> head_arg_tree(inner[1 + k], arguments[k])) by {
        lemma_head_arg(inner[1 + k], arguments[k]);
    }
    if head_tree(node, head) {
        assert forall|i: int| 1 <= i < inner.len() implies head_arg_reading(#[trigger] inner[i])
            == Some(arguments[i - 1]) by {
            assert(head_arg_tree(inner[1 + (i - 1)], arguments[i - 1]));
        }
        assert(head_reading(node) is Some);
        assert(head_reading(node)->0.head_arguments =~= arguments);
    }
    if head_reading(node) == Some(head) {
        assert forall|k: int| 0 <= k < arguments.len() implies head_arg_tree(
            inner[1 + k],
            #[trigger] arguments[k],
        ) by {
            assert(head_arg_reading(inner[k + 1]) is Some);
        }
    }
}

proof fn lemma_atom_arg(node: ParseNode, argument: AtomArgModel)
    ensures
        wrapped_arg_reading(node) == Some(argument) <==> atom_arg_tree(node, argument),
{
    if let AtomArgModel::Const(constant) = argument {
        law_constants_are_read(node.inner@[0], constant, 0);
    }
}

/// An atom is read off its tree and off no other.
pub proof fn law_atoms_are_read(node: ParseNode, atom: AtomModel)
    ensures
        atom_reading(node) == Some(atom) <==> atom_tree(node, atom),
{
    let inner = node.inner@;
    let arguments = atom.arguments;
    assert forall|k: int| 0 <= k < arguments.len() implies (wrapped_arg_reading(inner[1 + k])
        == Some(#[trigger] arguments[k]) <==> atom_arg_tree(inner[1 + k], arguments[k])) by {
        lemma_atom_arg(inner[1 + k], arguments[k]);
    }
    if atom_tree(node, atom) {
        assert forall|i: int| 1 <= i < inner.len() implies wrapped_arg_reading(#[trigger] inner[i])
            == Some(arguments[i - 1]) by {
            assert(atom_arg_tree(inner[1 + (i - 1)], arguments[i - 1]));
        }
        assert(atom_reading(node) is Some);
        assert(atom_reading(node)->0.arguments =~= arguments);
    }
    if atom_reading(node) == Some(atom) {
        assert forall|k: int| 0 <= k < arguments.len() implies atom_arg_tree(
            inner[1 + k],
            #[trigger] arguments[k],
        ) by {
            assert(wrapped_arg_reading(inner[k + 1]) is Some);
        }
    }
}

/// A predicate is read off its tree and off no other: an atom, a negated atom or a
/// comparison, as it is written.
pub proof fn law_predicates_are_read(node: ParseNode, predicate: PredicateModel)
    ensures
        wrapped_predicate_reading(node) == Some(predicate) <==> predicate_tree(node, predicate),
{
    let inner = node.inner@[0];
    match predicate {
        PredicateModel::AtomPredicate(atom) => {
            law_atoms_are_read(inner, atom);
        },
        PredicateModel::NegatedAtomPredicate(atom) => {
            law_atoms_are_read(inner.inner@[0], atom);
        },
        PredicateModel::ComparePredicate(comparison) => {
            law_comparisons_are_read(inner, comparison);
        },
    }
}

proof fn lemma_marks(mark: Seq<char>, is_planning: bool, is_sip: bool)
    ensures
        marks(mark) == Some((is_planning, is_sip)) <==> (is_planning || is_sip) && mark
            == mark_text(is_planning, is_sip),
{
    reveal_strlit(".optimize");
    reveal_strlit(".plan");
    reveal_strlit(".sip");
    assert(".optimize"@.len() == 9 && ".plan"@.len() == 5 && ".sip"@.len() == 4);
}

/// A rule is read off its tree and off no other.
pub proof fn law_rules_are_read(node: ParseNode, rule: FLRuleModel)
    ensures
        rule_reading(node) == Some(rule) <==> rule_tree(node, rule),
{
    let inner = node.inner@;
    let body = inner[1].inner@;
    let rhs = rule.rhs;
    if inner.len() >= 2 {
        law_heads_are_read(inner[0], rule.head);
        lemma_marks(inner[2].text@, rule.is_planning, rule.is_sip);
        lemma_marks(inner[2].text@, false, false);
        assert forall|k: int| 0 <= k < rhs.len() implies (wrapped_predicate_reading(body[k])
            == Some(#[trigger] rhs[k]) <==> predicate_tree(body[k], rhs[k])) by {
            law_predicates_are_read(body[k], rhs[k]);
        }
        if rule_tree(node, rule) {
            assert forall|i: int| 0 <= i < body.len() implies wrapped_predicate_reading(
                #[trigger] body[i],
            ) == Some(rhs[i]) by {
                assert(predicate_tree(inner[1].inner@[i], rhs[i]));
            }
            assert(rule_reading(node) is Some);
            assert(rule_reading(node)->0.rhs =~= rhs);
        }
        if rule_reading(node) == Some(rule) {
            assert forall|k: int| 0 <= k < rhs.len() implies predicate_tree(
                inner[1].inner@[k],
                #[trigger] rhs[k],
            ) by {
                assert(wrapped_predicate_reading(body[k]) is Some);
            }
        }
    }
}

proof fn lemma_attribute(node: ParseNode, attribute: AttributeModel)
    ensures
        attribute_reading(node) == Some(attribute) <==> attribute_tree(node, attribute),
{
    reveal_strlit("number");
    reveal_strlit("string");
    assert("number"@[0] != "string"@[0]);
}

/// A declaration is read off its tree and off no other.
pub proof fn law_declarations_are_read(node: ParseNode, decl: RelDeclModel)
    ensures
        rel_decl_reading(node) == Some(decl) <==> decl_tree(node, decl),
{
    let nodes = node.inner@[1].inner@;
    let attributes = decl.attributes;
    assert forall|k: int| 0 <= k < attributes.len() implies (attribute_reading(nodes[k]) == Some(
        #[trigger] attributes[k],
    ) <==> attribute_tree(nodes[k], attributes[k])) by {
        lemma_attribute(nodes[k], attributes[k]);
    }
    if decl_tree(node, decl) {
        assert forall|i: int| 0 <= i < nodes.len() implies attribute_reading(#[trigger] nodes[i])
            == Some(attributes[i]) by {
            assert(attribute_tree(node.inner@[1].inner@[i], attributes[i]));
        }
        assert(rel_decl_reading(node) is Some);
        assert(rel_decl_reading(node)->0.attributes =~= attributes);
    }
    if rel_decl_reading(node) == Some(decl) {
        assert forall|k: int| 0 <= k < attributes.len() implies attribute_tree(
            node.inner@[1].inner@[k],
            #[trigger] attributes[k],
        ) by {
            assert(attribute_reading(nodes[k]) is Some);
        }
    }
}

/// A section of declarations is read off its tree and off no other, and so is a section
/// of rules.
pub proof fn law_sections_are_read(
    node: ParseNode,
    decls: Seq<RelDeclModel>,
    rules: Seq<FLRuleModel>,
)
    ensures
        rel_decls_reading(node) == Some(decls) <==> decls_tree(node, decls),
        rules_reading(node) == Some(rules) <==> rules_tree(node, rules),
{
    let inner = node.inner@;
    assert forall|k: int| 0 <= k < decls.len() implies (rel_decl_reading(inner[k]) == Some(
        #[trigger] decls[k],
    ) <==> decl_tree(inner[k], decls[k])) by {
        law_declarations_are_read(inner[k], decls[k]);
    }
    assert forall|k: int| 0 <= k < rules.len() implies (rule_reading(inner[k]) == Some(
        #[trigger] rules[k],
    ) <==> rule_tree(inner[k], rules[k])) by {
        law_rules_are_read(inner[k], rules[k]);
    }
    if decls_tree(node, decls) {
        assert forall|i: int| 0 <= i < inner.len() implies rel_decl_reading(#[trigger] inner[i])
            == Some(decls[i]) by {
            assert(decl_tree(node.inner@[i], decls[i]));
        }
        assert(rel_decls_reading(node) is Some);
        assert(rel_decls_reading(node)->0 =~= decls);
    }
    if rel_decls_reading(node) == Some(decls) {
        assert forall|k: int| 0 <= k < decls.len() implies decl_tree(
            node.inner@[k],
            #[trigger] decls[k],
        ) by {
            assert(rel_decl_reading(inner[k]) is Some);
        }
    }
    if rules_tree(node, rules) {
        assert forall|i: int| 0 <= i < inner.len() implies rule_reading(#[trigger] inner[i])
            == Some(rules[i]) by {
            assert(rule_tree(node.inner@[i], rules[i]));
        }
        assert(rules_reading(node) is Some);
        assert(rules_reading(node)->0 =~= rules);
    }
    if rules_reading(node) == Some(rules) {
        assert forall|k: int| 0 <= k < rules.len() implies rule_tree(
            node.inner@[k],
            #[trigger] rules[k],
        ) by {
            assert(rule_reading(inner[k]) is Some);
        }
    }
}

/// Sections are read one after the other: what is read off two runs of sections is what
/// is read off the first, followed by what is read off the second.
pub proof fn law_sections_add_up(a: Seq<ParseNode>, b: Seq<ParseNode>)
    ensures
        sections_reading(a + b) == match (sections_reading(a), sections_reading(b)) {
            (Some(first), Some(second)) => Some(
                ProgramModel {
                    edbs: first.edbs + second.edbs,
                    idbs: first.idbs + second.idbs,
                    rules: first.rules + second.rules,
                },
            ),
            _ => None,
        },
    decreases b.len(),
{
    if b.len() == 0 {
        assert(a + b =~= a);
        if let Some(first) = sections_reading(a) {
            assert(first.edbs + Seq::empty() =~= first.edbs);
            assert(first.idbs + Seq::empty() =~= first.idbs);
            assert(first.rules + Seq::empty() =~= first.rules);
        }
    } else {
        let front = b.drop_last();
        law_sections_add_up(a, front);
        assert((a + b).drop_last() =~= a + front);
        assert((a + b).last() == b.last());
        if let (Some(first), Some(second)) = (sections_reading(a), sections_reading(front)) {
            if let Some(more) = rel_decls_reading(b.last()) {
                assert(first.edbs + second.edbs + more =~= first.edbs + (second.edbs + more));
                assert(first.idbs + second.idbs + more =~= first.idbs + (second.idbs + more));
            }
            if let Some(more) = rules_reading(b.last()) {
                assert(first.rules + second.rules + more =~= first.rules + (second.rules + more));
            }
        }
    }
}

proof fn lemma_ends(sections: Seq<ParseNode>, n: nat)
    requires
        n <= sections.len(),
        forall|k: int| n <= k < sections.len() ==> (#[trigger] sections[k]).rule is Other,
    ensures
        sections_reading(sections) == sections_reading(sections.take(n as int)),
    decreases sections.len(),
{
    if n == sections.len() {
        assert(sections.take(n as int) =~= sections);
    } else {
        let front = sections.drop_last();
        assert forall|k: int| n <= k < front.len() implies (#[trigger] front[k]).rule is Other by {
            assert(front[k] == sections[k]);
        }
        lemma_ends(front, n);
        assert(front.take(n as int) =~= sections.take(n as int));
        assert(sections[sections.len() - 1].rule is Other);
        assert(sections.last() == sections[sections.len() - 1]);
    }
}

/// A section adds what it holds to what it is a section of, and nothing else. A section
/// that cannot be read makes the whole unreadable.
pub proof fn law_single_sections(section: ParseNode, program: ProgramModel)
    ensures
        section.rule is EdbDecl ==> (sections_reading(seq![section]) == Some(program)
            <==> decls_tree(section, program.edbs) && program.idbs.len() == 0
            && program.rules.len() == 0),
        section.rule is IdbDecl ==> (sections_reading(seq![section]) == Some(program)
            <==> decls_tree(section, program.idbs) && program.edbs.len() == 0
            && program.rules.len() == 0),
        section.rule is RuleDecl ==> (sections_reading(seq![section]) == Some(program)
            <==> rules_tree(section, program.rules) && program.edbs.len() == 0
            && program.idbs.len() == 0),
        section.rule is Other ==> (sections_reading(seq![section]) == Some(program)
            <==> program.edbs.len() == 0 && program.idbs.len() == 0 && program.rules.len() == 0),
{
    let one = seq![section];
    assert(one.drop_last() =~= Seq::empty());
    assert(sections_reading(Seq::empty()) is Some);
    law_sections_are_read(section, program.edbs, program.rules);
    law_sections_are_read(section, program.idbs, program.rules);
    assert(program.edbs.len() == 0 ==> program.edbs =~= Seq::empty());
    assert(program.idbs.len() == 0 ==> program.idbs =~= Seq::empty());
    assert(program.rules.len() == 0 ==> program.rules =~= Seq::empty());
    if let Some(more) = rel_decls_reading(section) {
        assert(Seq::empty() + more =~= more);
    }
    if let Some(more) = rules_reading(section) {
        assert(Seq::empty() + more =~= more);
    }
}

/// Reading undoes writing: the program that is read off the tree of a program is that
/// program.
pub proof fn law_programs_are_read(node: ParseNode, program: ProgramModel)
    requires
        program_tree(node, program),
    ensures
        program_reading(node) == Some(program),
{
    let inner = node.inner@;
    law_sections_are_read(inner[0], program.edbs, program.rules);
    law_sections_are_read(inner[1], program.idbs, program.rules);
    law_sections_are_read(inner[2], program.idbs, program.rules);
    lemma_ends(inner, 3);
    let three = inner.take(3);
    let two = three.drop_last();
    let one = two.drop_last();
    assert(one.drop_last().len() == 0);
    assert(three.last() == inner[2]);
    assert(two.last() == inner[1]);
    assert(one.last() == inner[0]);
    assert(sections_reading(one.drop_last()) is Some);
    assert(sections_reading(one) is Some);
    assert(sections_reading(two) is Some);
    let read = sections_reading(three)->0;
    assert(read.edbs =~= program.edbs);
    assert(read.idbs =~= program.idbs);
    assert(read.rules =~= program.rules);
}

} // verus!
