//! Comparisons between arithmetic expressions.
use vstd::prelude::*;
use vstd::string::*;
use crate::lists::extend;
use crate::parsing::arithmetic::{
    arithmetic_reading, distinct, distinct_refs, Arithmetic, ArithmeticModel,
};
use crate::parsing::parser::{Lexeme, ParseNode, Rule};
use crate::text::{Render, Written};

verus! {

/// How two values are compared.
#[derive(Debug, Clone, Copy, Hash, PartialEq, Eq, Structural)]
pub enum ComparisonOperator {
    Equals,
    NotEquals,
    GreaterThan,
    GreaterEqualThan,
    LessThan,
    LessEqualThan,
}

impl DeepView for ComparisonOperator {
    type V = ComparisonOperator;

    open spec fn deep_view(&self) -> ComparisonOperator {
        *self
    }
}

impl Written for ComparisonOperator {
    open spec fn text(self) -> Seq<char> {
        match self {
            ComparisonOperator::Equals => "=="@,
            ComparisonOperator::NotEquals => "≠"@,
            ComparisonOperator::GreaterThan => ">"@,
            ComparisonOperator::GreaterEqualThan => "≥"@,
            ComparisonOperator::LessThan => "<"@,
            ComparisonOperator::LessEqualThan => "≤"@,
        }
    }
}

impl Render for ComparisonOperator {
    fn to_string(&self) -> (out: String) {
        let text: &str = match self {
            ComparisonOperator::Equals => "==",
            ComparisonOperator::NotEquals => "≠",
            ComparisonOperator::GreaterThan => ">",
            ComparisonOperator::GreaterEqualThan => "≥",
            ComparisonOperator::LessThan => "<",
            ComparisonOperator::LessEqualThan => "≤",
        };
        text.to_owned()
    }
}

/// What a parse node denotes as a `ComparisonOperator`.
pub open spec fn comparison_operator_reading(node: ParseNode) -> Option<ComparisonOperator> {
    if node.inner@.len() == 0 {
        None
    } else {
        match node.inner@[0].rule {
            Rule::Equals => Some(ComparisonOperator::Equals),
            Rule::NotEquals => Some(ComparisonOperator::NotEquals),
            Rule::GreaterThan => Some(ComparisonOperator::GreaterThan),
            Rule::GreaterEqualThan => Some(ComparisonOperator::GreaterEqualThan),
            Rule::LessThan => Some(ComparisonOperator::LessThan),
            Rule::LessEqualThan => Some(ComparisonOperator::LessEqualThan),
            _ => None,
        }
    }
}

impl Lexeme for ComparisonOperator {
    open spec fn readable(node: ParseNode) -> bool {
        comparison_operator_reading(node) is Some
    }

    open spec fn is_reading_of(&self, node: ParseNode) -> bool {
        comparison_operator_reading(node) == Some(self.deep_view())
    }

    fn read(node: &ParseNode) -> (value: Option<Self>)
        ensures
            value.deep_view() == comparison_operator_reading(*node),
            value is Some <==> Self::readable(*node),
            value is Some ==> value->0.is_reading_of(*node),
    {
        if node.inner.len() == 0 {
            None
        } else {
            match node.inner[0].rule {
                Rule::Equals => Some(ComparisonOperator::Equals),
                Rule::NotEquals => Some(ComparisonOperator::NotEquals),
                Rule::GreaterThan => Some(ComparisonOperator::GreaterThan),
                Rule::GreaterEqualThan => Some(ComparisonOperator::GreaterEqualThan),
                Rule::LessThan => Some(ComparisonOperator::LessThan),
                Rule::LessEqualThan => Some(ComparisonOperator::LessEqualThan),
                _ => None,
            }
        }
    }
}

impl ComparisonOperator {
    pub fn is_equals(&self) -> (answer: bool)
        ensures
            answer == (*self is Equals),
    {
        match self {
            ComparisonOperator::Equals => true,
            _ => false,
        }
    }
}

/// Two expressions and how they are to compare.
#[derive(Debug)]
pub struct ComparisonExpr {
    pub left: Arithmetic,
    pub operator: ComparisonOperator,
    pub right: Arithmetic,
}

#[verifier::ext_equal]
pub struct ComparisonExprModel {
    pub left: ArithmeticModel,
    pub operator: ComparisonOperator,
    pub right: ArithmeticModel,
}

impl ComparisonExprModel {
    /// The variables of both sides, from left to right.
    pub open spec fn vars(self) -> Seq<Seq<char>> {
        self.left.vars() + self.right.vars()
    }
}

impl DeepView for ComparisonExpr {
    type V = ComparisonExprModel;

    open spec fn deep_view(&self) -> ComparisonExprModel {
        ComparisonExprModel {
            left: self.left.deep_view(),
            operator: self.operator,
            right: self.right.deep_view(),
        }
    }
}

impl Written for ComparisonExprModel {
    open spec fn text(self) -> Seq<char> {
        "["@ + self.left.text() + " "@ + self.operator.text() + " "@ + self.right.text() + "]"@
    }
}

impl Render for ComparisonExpr {
    fn to_string(&self) -> (out: String) {
        let mut out = "[".to_owned();
        out.append(self.left.to_string().as_str());
        out.append(" ");
        out.append(self.operator.to_string().as_str());
        out.append(" ");
        out.append(self.right.to_string().as_str());
        out.append("]");
        out
    }
}

impl Clone for ComparisonExpr {
    fn clone(&self) -> (copy: Self)
        ensures
            copy.deep_view() == self.deep_view(),
    {
        ComparisonExpr {
            left: self.left.clone(),
            operator: self.operator,
            right: self.right.clone(),
        }
    }
}

impl ComparisonExpr {
    pub fn left(&self) -> (left: &Arithmetic)
        ensures
            left.deep_view() == self.deep_view().left,
    {
        &self.left
    }

    pub fn operator(&self) -> (operator: &ComparisonOperator)
        ensures
            *operator == self.deep_view().operator,
    {
        &self.operator
    }

    pub fn right(&self) -> (right: &Arithmetic)
        ensures
            right.deep_view() == self.deep_view().right,
    {
        &self.right
    }

    /// The variables of both sides, each once.
    pub fn vars_set(&self) -> (vars: Vec<&String>)
        ensures
            vars.deep_view() == distinct(self.deep_view().vars()),
            vars.deep_view().no_duplicates(),
            vars.deep_view().to_set() == self.deep_view().vars().to_set(),
    {
        let mut vars = self.left.vars();
        extend(&mut vars, self.right.vars());
        distinct_refs(&vars)
    }

    pub fn left_vars(&self) -> (vars: Vec<&String>)
        ensures
            vars.deep_view() == self.deep_view().left.vars(),
    {
        self.left.vars()
    }

    pub fn right_vars(&self) -> (vars: Vec<&String>)
        ensures
            vars.deep_view() == self.deep_view().right.vars(),
    {
        self.right.vars()
    }
}

/// What a parse node denotes as a `ComparisonExpr`.
pub open spec fn comparison_reading(node: ParseNode) -> Option<ComparisonExprModel> {
    let inner = node.inner@;
    if inner.len() < 3 {
        None
    } else {
        match (
            arithmetic_reading(inner[0]),
            comparison_operator_reading(inner[1]),
            arithmetic_reading(inner[2]),
        ) {
            (Some(left), Some(operator), Some(right)) => Some(
                ComparisonExprModel { left, operator, right },
            ),
            _ => None,
        }
    }
}

impl Lexeme for ComparisonExpr {
    open spec fn readable(node: ParseNode) -> bool {
        comparison_reading(node) is Some
    }

    open spec fn is_reading_of(&self, node: ParseNode) -> bool {
        comparison_reading(node) == Some(self.deep_view())
    }

    fn read(node: &ParseNode) -> (value: Option<Self>)
        ensures
            value.deep_view() == comparison_reading(*node),
            value is Some <==> Self::readable(*node),
            value is Some ==> value->0.is_reading_of(*node),
    {
        if node.inner.len() < 3 {
            return None;
        }
        match (
            Arithmetic::read(&node.inner[0]),
            ComparisonOperator::read(&node.inner[1]),
            Arithmetic::read(&node.inner[2]),
        ) {
            (Some(left), Some(operator), Some(right)) => Some(
                ComparisonExpr { left, operator, right },
            ),
            _ => None,
        }
    }
}

} // verus!
