//! Aggregations over arithmetic expressions.
use vstd::prelude::*;
use vstd::string::*;
use crate::parsing::arithmetic::{arithmetic_reading, Arithmetic, ArithmeticModel};
use crate::parsing::parser::{Lexeme, ParseNode, Rule};
use crate::text::{Render, Written};

verus! {

/// How a group of values becomes one value.
#[derive(Debug, Clone, Copy, Hash, PartialEq, Eq, Structural)]
pub enum AggregationOperator {
    Min,
    Max,
    Count,
    Sum,
}

impl DeepView for AggregationOperator {
    type V = AggregationOperator;

    open spec fn deep_view(&self) -> AggregationOperator {
        *self
    }
}

impl Written for AggregationOperator {
    open spec fn text(self) -> Seq<char> {
        match self {
            AggregationOperator::Min => "min"@,
            AggregationOperator::Max => "max"@,
            AggregationOperator::Count => "count"@,
            AggregationOperator::Sum => "sum"@,
        }
    }
}

impl Render for AggregationOperator {
    fn to_string(&self) -> (out: String) {
        let text: &str = match self {
            AggregationOperator::Min => "min",
            AggregationOperator::Max => "max",
            AggregationOperator::Count => "count",
            AggregationOperator::Sum => "sum",
        };
        text.to_owned()
    }
}

/// What a parse node denotes as a `AggregationOperator`.
pub open spec fn aggregation_operator_reading(node: ParseNode) -> Option<AggregationOperator> {
    if node.inner@.len() == 0 {
        None
    } else {
        match node.inner@[0].rule {
            Rule::Min => Some(AggregationOperator::Min),
            Rule::Max => Some(AggregationOperator::Max),
            Rule::Count => Some(AggregationOperator::Count),
            Rule::Sum => Some(AggregationOperator::Sum),
            _ => None,
        }
    }
}

impl Lexeme for AggregationOperator {
    open spec fn readable(node: ParseNode) -> bool {
        aggregation_operator_reading(node) is Some
    }

    open spec fn is_reading_of(&self, node: ParseNode) -> bool {
        aggregation_operator_reading(node) == Some(self.deep_view())
    }

    fn read(node: &ParseNode) -> (value: Option<Self>)
        ensures
            value.deep_view() == aggregation_operator_reading(*node),
            value is Some <==> Self::readable(*node),
            value is Some ==> value->0.is_reading_of(*node),
    {
        if node.inner.len() == 0 {
            None
        } else {
            match node.inner[0].rule {
                Rule::Min => Some(AggregationOperator::Min),
                Rule::Max => Some(AggregationOperator::Max),
                Rule::Count => Some(AggregationOperator::Count),
                Rule::Sum => Some(AggregationOperator::Sum),
                _ => None,
            }
        }
    }
}

/// An operator and the expression that it aggregates over.
#[derive(Debug)]
pub struct Aggregation {
    pub operator: AggregationOperator,
    pub arithmetic: Arithmetic,
}

#[verifier::ext_equal]
pub struct AggregationModel {
    pub operator: AggregationOperator,
    pub arithmetic: ArithmeticModel,
}

impl DeepView for Aggregation {
    type V = AggregationModel;

    open spec fn deep_view(&self) -> AggregationModel {
        AggregationModel { operator: self.operator, arithmetic: self.arithmetic.deep_view() }
    }
}

impl Written for AggregationModel {
    open spec fn text(self) -> Seq<char> {
        self.operator.text() + "("@ + self.arithmetic.text() + ")"@
    }
}

impl Render for Aggregation {
    fn to_string(&self) -> (out: String) {
        let mut out = self.operator.to_string();
        out.append("(");
        out.append(self.arithmetic.to_string().as_str());
        out.append(")");
        out
    }
}

impl Clone for Aggregation {
    fn clone(&self) -> (copy: Self)
        ensures
            copy.deep_view() == self.deep_view(),
    {
        Aggregation { operator: self.operator, arithmetic: self.arithmetic.clone() }
    }
}

impl Aggregation {
    /// The variables that are aggregated over.
    pub fn vars(&self) -> (vars: Vec<&String>)
        ensures
            vars.deep_view() == self.deep_view().arithmetic.vars(),
    {
        self.arithmetic.vars()
    }

    pub fn arithmetic(&self) -> (arithmetic: &Arithmetic)
        ensures
            arithmetic.deep_view() == self.deep_view().arithmetic,
    {
        &self.arithmetic
    }

    pub fn operator(&self) -> (operator: &AggregationOperator)
        ensures
            *operator == self.deep_view().operator,
    {
        &self.operator
    }
}

/// What a parse node denotes as a `Aggregation`.
pub open spec fn aggregation_reading(node: ParseNode) -> Option<AggregationModel> {
    let inner = node.inner@;
    if inner.len() < 2 {
        None
    } else {
        match (aggregation_operator_reading(inner[0]), arithmetic_reading(inner[1])) {
            (Some(operator), Some(arithmetic)) => Some(AggregationModel { operator, arithmetic }),
            _ => None,
        }
    }
}

impl Lexeme for Aggregation {
    open spec fn readable(node: ParseNode) -> bool {
        aggregation_reading(node) is Some
    }

    open spec fn is_reading_of(&self, node: ParseNode) -> bool {
        aggregation_reading(node) == Some(self.deep_view())
    }

    fn read(node: &ParseNode) -> (value: Option<Self>)
        ensures
            value.deep_view() == aggregation_reading(*node),
            value is Some <==> Self::readable(*node),
            value is Some ==> value->0.is_reading_of(*node),
    {
        if node.inner.len() < 2 {
            return None;
        }
        match (AggregationOperator::read(&node.inner[0]), Arithmetic::read(&node.inner[1])) {
            (Some(operator), Some(arithmetic)) => Some(Aggregation { operator, arithmetic }),
            _ => None,
        }
    }
}

} // verus!
