//! Comparisons over the input columns of a transformation.
use vstd::prelude::*;
use crate::catalog::arithmetic::PlacedArithmetic;
use crate::catalog::atoms::AtomArgumentSignature;
use crate::catalog::compare::{PlacedComparison, PlacedComparisonModel};
use crate::planning::arguments::TransformationArgument;
use crate::planning::arithmetic::{flip_arithmetic, is_jn_arithmetic, move_arithmetic};

verus! {

/// A comparison with its variables at input columns.
pub type ComparisonExprArgument = PlacedComparison<TransformationArgument>;

/// A comparison with the places of its sides exchanged for the given ones.
pub open spec fn move_comparison<P, Q>(
    comparison: PlacedComparisonModel<P>,
    left: Seq<Q>,
    right: Seq<Q>,
) -> PlacedComparisonModel<Q> {
    PlacedComparisonModel {
        left: move_arithmetic(comparison.left, left),
        operator: comparison.operator,
        right: move_arithmetic(comparison.right, right),
    }
}

/// A comparison with left and right input exchanged.
pub open spec fn flip_comparison(
    comparison: PlacedComparisonModel<TransformationArgument>,
) -> PlacedComparisonModel<TransformationArgument> {
    PlacedComparisonModel {
        left: flip_arithmetic(comparison.left),
        operator: comparison.operator,
        right: flip_arithmetic(comparison.right),
    }
}

/// Whether all places of a comparison are columns of a join.
pub open spec fn is_jn_comparison(
    comparison: PlacedComparisonModel<TransformationArgument>,
) -> bool {
    is_jn_arithmetic(comparison.left) && is_jn_arithmetic(comparison.right)
}

impl PlacedComparison<TransformationArgument> {
    /// The comparison with the places of its sides at the given columns.
    pub fn from_comparison_expr(
        compare_expr: &PlacedComparison<AtomArgumentSignature>,
        left_arguments: &Vec<TransformationArgument>,
        right_arguments: &Vec<TransformationArgument>,
    ) -> (placed: Self)
        requires
            compare_expr.deep_view().left.places().len() <= left_arguments@.len(),
            compare_expr.deep_view().right.places().len() <= right_arguments@.len(),
        ensures
            placed.deep_view() == move_comparison(
                compare_expr.deep_view(),
                left_arguments@,
                right_arguments@,
            ),
    {
        PlacedComparison {
            left: PlacedArithmetic::<TransformationArgument>::from_arithmetic(
                &compare_expr.left,
                left_arguments,
            ),
            operator: compare_expr.operator,
            right: PlacedArithmetic::<TransformationArgument>::from_arithmetic(
                &compare_expr.right,
                right_arguments,
            ),
        }
    }

    /// The input columns that the comparison reads, from left to right.
    pub fn transformation_arguments(&self) -> (arguments: Vec<TransformationArgument>)
        ensures
            arguments.deep_view() == self.deep_view().places(),
    {
        self.places()
    }

    /// The comparison with left and right input exchanged.
    pub fn jn_flip(&self) -> (out: Self)
        requires
            is_jn_comparison(self.deep_view()),
        ensures
            out.deep_view() == flip_comparison(self.deep_view()),
    {
        PlacedComparison {
            left: self.left.jn_flip(),
            operator: self.operator,
            right: self.right.jn_flip(),
        }
    }
}

} // verus!
