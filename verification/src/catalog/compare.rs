//! Comparisons whose variables have been replaced by places.
use vstd::prelude::*;
use vstd::string::*;
use crate::catalog::arithmetic::{
    place_arithmetic, PlacedArithmetic, PlacedArithmeticModel,
};
use crate::catalog::atoms::AtomArgumentSignature;
use crate::lists::{extend, Same};
use crate::parsing::compare::{ComparisonExpr, ComparisonExprModel, ComparisonOperator};
use crate::text::{Render, Written};

verus! {

/// Two placed expressions and how they are to compare.
#[derive(Debug)]
pub struct PlacedComparison<P> {
    pub left: PlacedArithmetic<P>,
    pub operator: ComparisonOperator,
    pub right: PlacedArithmetic<P>,
}

#[verifier::ext_equal]
pub struct PlacedComparisonModel<P> {
    pub left: PlacedArithmeticModel<P>,
    pub operator: ComparisonOperator,
    pub right: PlacedArithmeticModel<P>,
}

impl<P> PlacedComparisonModel<P> {
    /// The places of both sides, from left to right.
    pub open spec fn places(self) -> Seq<P> {
        self.left.places() + self.right.places()
    }
}

impl<P: DeepView> DeepView for PlacedComparison<P> {
    type V = PlacedComparisonModel<<P as DeepView>::V>;

    open spec fn deep_view(&self) -> PlacedComparisonModel<<P as DeepView>::V> {
        PlacedComparisonModel {
            left: self.left.deep_view(),
            operator: self.operator,
            right: self.right.deep_view(),
        }
    }
}

impl<P: Written> Written for PlacedComparisonModel<P> {
    open spec fn text(self) -> Seq<char> {
        self.left.text() + " "@ + self.operator.text() + " "@ + self.right.text()
    }
}

impl<P: Render> Render for PlacedComparison<P> where <P as DeepView>::V: Written {
    fn to_string(&self) -> (out: String) {
        let mut out = self.left.to_string();
        out.append(" ");
        out.append(self.operator.to_string().as_str());
        out.append(" ");
        out.append(self.right.to_string().as_str());
        out
    }
}

impl<P: Same> Same for PlacedComparison<P> {
    fn same(&self, other: &Self) -> (same: bool) {
        self.operator == other.operator && self.left.same(&other.left) && self.right.same(
            &other.right,
        )
    }
}

impl<P: Copy + DeepView> PlacedComparison<P> {
    pub fn operator(&self) -> (operator: &ComparisonOperator)
        ensures
            *operator == self.deep_view().operator,
    {
        &self.operator
    }

    pub fn left(&self) -> (left: &PlacedArithmetic<P>)
        ensures
            left.deep_view() == self.deep_view().left,
    {
        &self.left
    }

    pub fn right(&self) -> (right: &PlacedArithmetic<P>)
        ensures
            right.deep_view() == self.deep_view().right,
    {
        &self.right
    }

    /// The places of both sides, from left to right.
    pub fn places(&self) -> (places: Vec<P>)
        ensures
            places.deep_view() == self.deep_view().places(),
    {
        let mut places = self.left.places();
        extend(&mut places, self.right.places());
        places
    }

    pub fn copy(&self) -> (copy: Self)
        ensures
            copy.deep_view() == self.deep_view(),
    {
        PlacedComparison {
            left: self.left.copy(),
            operator: self.operator,
            right: self.right.copy(),
        }
    }
}

/// A comparison of a rule, with its variables at arguments of the rule body.
pub type ComparisonExprPos = PlacedComparison<AtomArgumentSignature>;

/// A comparison with the variables of its sides at the given places.
pub open spec fn place_comparison<P>(
    comparison: ComparisonExprModel,
    left: Seq<P>,
    right: Seq<P>,
) -> PlacedComparisonModel<P> {
    PlacedComparisonModel {
        left: place_arithmetic(comparison.left, left),
        operator: comparison.operator,
        right: place_arithmetic(comparison.right, right),
    }
}

impl PlacedComparison<AtomArgumentSignature> {
    /// The comparison with the variables of its sides at the given arguments.
    pub fn from_comparison_expr(
        compare_expr: &ComparisonExpr,
        left_var_signatures: &Vec<AtomArgumentSignature>,
        right_var_signatures: &Vec<AtomArgumentSignature>,
    ) -> (placed: Self)
        requires
            compare_expr.deep_view().left.vars().len() <= left_var_signatures@.len(),
            compare_expr.deep_view().right.vars().len() <= right_var_signatures@.len(),
        ensures
            placed.deep_view() == place_comparison(
                compare_expr.deep_view(),
                left_var_signatures@,
                right_var_signatures@,
            ),
    {
        PlacedComparison {
            left: PlacedArithmetic::<AtomArgumentSignature>::from_arithmetic(
                &compare_expr.left,
                left_var_signatures,
            ),
            operator: compare_expr.operator,
            right: PlacedArithmetic::<AtomArgumentSignature>::from_arithmetic(
                &compare_expr.right,
                right_var_signatures,
            ),
        }
    }

    /// The arguments that the comparison reads, from left to right.
    pub fn signatures(&self) -> (signatures: Vec<AtomArgumentSignature>)
        ensures
            signatures.deep_view() == self.deep_view().places(),
    {
        self.places()
    }
}

} // verus!
