//! Evaluating arithmetic and comparisons on rows.
use vstd::prelude::*;
use crate::catalog::arithmetic::{PlacedArithmetic, PlacedArithmeticModel, PlacedFactor, PlacedFactorModel};
use crate::catalog::compare::{PlacedComparison, PlacedComparisonModel};
use crate::lists::group_take;
use crate::parsing::arithmetic::ArithmeticOperator;
use crate::parsing::compare::ComparisonOperator;
use crate::parsing::rule::ConstModel;
use crate::planning::arguments::{flipped, TransformationArgument};
use crate::planning::arithmetic::{flip_arithmetic, flip_factor};
use crate::planning::compare::flip_comparison;
use crate::reading::row::Array;

verus! {

/// Whether a comparison holds between two numbers.
pub open spec fn compares(x: int, op: ComparisonOperator, y: int) -> bool {
    match op {
        ComparisonOperator::Equals => x == y,
        ComparisonOperator::NotEquals => x != y,
        ComparisonOperator::GreaterThan => x > y,
        ComparisonOperator::GreaterEqualThan => x >= y,
        ComparisonOperator::LessThan => x < y,
        ComparisonOperator::LessEqualThan => x <= y,
    }
}

pub fn compare_ints(x: i64, op: &ComparisonOperator, y: i64) -> (answer: bool)
    ensures
        answer == compares(x as int, *op, y as int),
{
    match op {
        ComparisonOperator::Equals => x == y,
        ComparisonOperator::NotEquals => x != y,
        ComparisonOperator::GreaterThan => x > y,
        ComparisonOperator::GreaterEqualThan => x >= y,
        ComparisonOperator::LessThan => x < y,
        ComparisonOperator::LessEqualThan => x <= y,
    }
}

/// Equality is reflexive and symmetric, and inequality is its negation; of less,
/// equal and greater exactly one holds; greater is transitive and less turned
/// around; and the comparisons that allow equality do just that.
pub proof fn law_comparisons(x: int, y: int, z: int)
    ensures
        compares(x, ComparisonOperator::Equals, x),
        compares(x, ComparisonOperator::Equals, y) == compares(y, ComparisonOperator::Equals, x),
        compares(x, ComparisonOperator::NotEquals, y) == !compares(
            x,
            ComparisonOperator::Equals,
            y,
        ),
        compares(x, ComparisonOperator::GreaterThan, y) && compares(
            y,
            ComparisonOperator::GreaterThan,
            z,
        ) ==> compares(x, ComparisonOperator::GreaterThan, z),
        compares(x, ComparisonOperator::LessThan, y) || compares(x, ComparisonOperator::Equals, y)
            || compares(x, ComparisonOperator::GreaterThan, y),
        !(compares(x, ComparisonOperator::LessThan, y) && compares(
            x,
            ComparisonOperator::Equals,
            y,
        )),
        !(compares(x, ComparisonOperator::LessThan, y) && compares(
            x,
            ComparisonOperator::GreaterThan,
            y,
        )),
        !(compares(x, ComparisonOperator::Equals, y) && compares(
            x,
            ComparisonOperator::GreaterThan,
            y,
        )),
        compares(x, ComparisonOperator::GreaterEqualThan, y) == (compares(
            x,
            ComparisonOperator::GreaterThan,
            y,
        ) || compares(x, ComparisonOperator::Equals, y)),
        compares(x, ComparisonOperator::LessEqualThan, y) == (compares(
            x,
            ComparisonOperator::LessThan,
            y,
        ) || compares(x, ComparisonOperator::Equals, y)),
        compares(x, ComparisonOperator::LessThan, y) == compares(
            y,
            ComparisonOperator::GreaterThan,
            x,
        ),
{
}

/// Comparisons tell how far apart numbers are and nothing else: moving both numbers by
/// the same amount changes none of them, and a number is less than the next one.
pub proof fn law_comparisons_are_steady(x: int, y: int, by: int, op: ComparisonOperator)
    ensures
        compares(x + by, op, y + by) == compares(x, op, y),
        compares(x, ComparisonOperator::LessThan, x + 1),
        compares(x, ComparisonOperator::LessThan, y) == compares(
            x + 1,
            ComparisonOperator::LessEqualThan,
            y,
        ),
{
}

/// A quotient rounded towards zero.
pub open spec fn quotient(x: int, y: int) -> int {
    let size = (if x < 0 {
        -x
    } else {
        x
    }) / (if y < 0 {
        -y
    } else {
        y
    });
    if (x < 0) == (y < 0) {
        size
    } else {
        -size
    }
}

/// What a division with that quotient leaves; it has the sign of the dividend.
pub open spec fn remainder(x: int, y: int) -> int {
    x - quotient(x, y) * y
}

/// The result of one operation; none where it divides by zero.
pub open spec fn operate(x: int, op: ArithmeticOperator, y: int) -> Option<int> {
    match op {
        ArithmeticOperator::Plus => Some(x + y),
        ArithmeticOperator::Minus => Some(x - y),
        ArithmeticOperator::Multiply => Some(x * y),
        ArithmeticOperator::Divide => if y == 0 {
            None
        } else {
            Some(quotient(x, y))
        },
        ArithmeticOperator::Modulo => if y == 0 || quotient(x, y) > i64::MAX {
            None
        } else {
            Some(remainder(x, y))
        },
    }
}

/// The value of an expression, from left to right; none where an operation divides
/// by zero or leaves the range of 64 bit integers.
pub open spec fn evaluate(init: i64, rest: Seq<(ArithmeticOperator, i64)>) -> Option<i64>
    decreases rest.len(),
{
    if rest.len() == 0 {
        Some(init)
    } else {
        match evaluate(init, rest.drop_last()) {
            Some(x) => match operate(x as int, rest.last().0, rest.last().1 as int) {
                Some(v) if i64::MIN <= v <= i64::MAX => Some(v as i64),
                _ => None,
            },
            None => None,
        }
    }
}

/// Dividing by a number or by its opposite gives opposite results.
proof fn lemma_divide_by_opposite(a: int, b: int)
    requires
        a >= 0,
        b > 0,
    ensures
        a / (-b) == -(a / b),
        a % (-b) == a % b,
{
    vstd::arithmetic::div_mod::lemma_fundamental_div_mod(a, b);
    vstd::arithmetic::div_mod::lemma_mod_bound(a, b);
    let q = a / b;
    let r = a % b;
    assert(a == (-b) * (-q) + r) by (nonlinear_arith)
        requires
            a == b * q + r,
    ;
    assert(a / (-b) == -q && a % (-b) == r) by (nonlinear_arith)
        requires
            a == (-b) * (-q) + r,
            0 <= r < b,
    ;
}

/// A quotient is not greater than the dividend, nor than half of it unless the
/// divisor is one.
proof fn lemma_quotient_bound(a: int, b: int)
    requires
        a >= 0,
        b > 0,
    ensures
        0 <= a / b <= a,
        b >= 2 ==> 2 * (a / b) <= a,
{
    vstd::arithmetic::div_mod::lemma_fundamental_div_mod(a, b);
    vstd::arithmetic::div_mod::lemma_mod_bound(a, b);
    vstd::arithmetic::div_mod::lemma_div_pos_is_pos(a, b);
    let q = a / b;
    assert(q <= a && (b >= 2 ==> 2 * q <= a)) by (nonlinear_arith)
        requires
            a == b * q + a % b,
            a % b >= 0,
            b > 0,
            q >= 0,
    ;
}

fn divide(x: i64, y: i64) -> (q: i64)
    requires
        y != 0,
        !(x == i64::MIN && y == -1),
    ensures
        q == quotient(x as int, y as int),
{
    proof {
        let a = if x < 0 {
            -(x as int)
        } else {
            x as int
        };
        if y < 0 {
            lemma_divide_by_opposite(a, -(y as int));
            lemma_quotient_bound(a, -(y as int));
        } else {
            lemma_quotient_bound(a, y as int);
        }
    }
    x / y
}

fn modulo(x: i64, y: i64) -> (r: i64)
    requires
        y != 0,
        !(x == i64::MIN && y == -1),
    ensures
        r == remainder(x as int, y as int),
        quotient(x as int, y as int) <= i64::MAX,
{
    proof {
        let a = if x < 0 {
            -(x as int)
        } else {
            x as int
        };
        let b = if y < 0 {
            -(y as int)
        } else {
            y as int
        };
        if y < 0 {
            lemma_divide_by_opposite(a, b);
        }
        lemma_quotient_bound(a, b);
        vstd::arithmetic::div_mod::lemma_fundamental_div_mod(a, b);
        let s = a / b;
        assert(a - s * b == a % b) by (nonlinear_arith)
            requires
                a == b * s + a % b,
        ;
        assert((-a) - (-s) * b == -(a % b)) by (nonlinear_arith)
            requires
                a == b * s + a % b,
        ;
        assert(a - (-s) * (-b) == a % b) by (nonlinear_arith)
            requires
                a == b * s + a % b,
        ;
        assert((-a) - s * (-b) == -(a % b)) by (nonlinear_arith)
            requires
                a == b * s + a % b,
        ;
    }
    x % y
}

/// The result of one operation, if there is one and it is a 64 bit integer.
fn operate_ints(x: i64, op: ArithmeticOperator, y: i64) -> (result: Option<i64>)
    ensures
        result == match operate(x as int, op, y as int) {
            Some(v) if i64::MIN <= v <= i64::MAX => Some(v as i64),
            _ => None,
        },
{
    match op {
        ArithmeticOperator::Plus => x.checked_add(y),
        ArithmeticOperator::Minus => x.checked_sub(y),
        ArithmeticOperator::Multiply => x.checked_mul(y),
        ArithmeticOperator::Divide => {
            if y == 0 {
                None
            } else if x == i64::MIN && y == -1 {
                proof {
                    assert(quotient(x as int, y as int) == -(x as int));
                }
                None
            } else {
                Some(divide(x, y))
            }
        },
        ArithmeticOperator::Modulo => {
            if y == 0 {
                None
            } else if x == i64::MIN && y == -1 {
                assert(quotient(x as int, y as int) == -(x as int));
                None
            } else {
                Some(modulo(x, y))
            }
        },
    }
}

/// The value of an expression, if all its operations have results.
pub fn try_arithmetic_ints(init: i64, rest: &Vec<(ArithmeticOperator, i64)>) -> (result: Option<i64>)
    ensures
        result == evaluate(init, rest@),
{
    broadcast use group_take;

    let mut result: Option<i64> = Some(init);
    let mut i: usize = 0;
    while i < rest.len()
        invariant
            i <= rest.len(),
            result == evaluate(init, rest@.take(i as int)),
        decreases rest.len() - i,
    {
        assert(rest@.take(i + 1).drop_last() == rest@.take(i as int));
        let (op, value) = rest[i];
        result =
        match result {
            Some(x) => operate_ints(x, op, value),
            None => None,
        };
        i += 1;
    }
    result
}

/// The value of an expression, from left to right.
pub fn arithmetic_ints(init: i64, rest: &Vec<(ArithmeticOperator, i64)>) -> (result: i64)
    requires
        evaluate(init, rest@) is Some,
    ensures
        Some(result) == evaluate(init, rest@),
{
    try_arithmetic_ints(init, rest).unwrap()
}

/// Adding and multiplying commute, adding is associative, subtracting undoes
/// adding, and zero and one change nothing, as long as the results are 64 bit
/// integers.
pub proof fn law_arithmetic(x: i64, y: i64, z: i64)
    ensures
        evaluate(x, Seq::empty()) == Some(x),
        evaluate(x, seq![(ArithmeticOperator::Plus, y)]) == evaluate(
            y,
            seq![(ArithmeticOperator::Plus, x)],
        ),
        evaluate(x, seq![(ArithmeticOperator::Multiply, y)]) == evaluate(
            y,
            seq![(ArithmeticOperator::Multiply, x)],
        ),
        match (
            evaluate(x, seq![(ArithmeticOperator::Plus, y)]),
            evaluate(y, seq![(ArithmeticOperator::Plus, z)]),
        ) {
            (Some(xy), Some(yz)) => evaluate(xy, seq![(ArithmeticOperator::Plus, z)]) == evaluate(
                x,
                seq![(ArithmeticOperator::Plus, yz)],
            ),
            _ => true,
        },
        evaluate(x, seq![(ArithmeticOperator::Plus, y)]) is Some ==> evaluate(
            x,
            seq![(ArithmeticOperator::Plus, y), (ArithmeticOperator::Minus, y)],
        ) == Some(x),
        evaluate(x, seq![(ArithmeticOperator::Plus, 0i64)]) == Some(x),
        evaluate(x, seq![(ArithmeticOperator::Multiply, 1i64)]) == Some(x),
{
    lemma_one(x, ArithmeticOperator::Plus, y);
    lemma_one(y, ArithmeticOperator::Plus, x);
    lemma_one(x, ArithmeticOperator::Multiply, y);
    lemma_one(y, ArithmeticOperator::Multiply, x);
    lemma_one(y, ArithmeticOperator::Plus, z);
    lemma_one(x, ArithmeticOperator::Plus, 0);
    lemma_one(x, ArithmeticOperator::Multiply, 1);
    assert((x as int) * (y as int) == (y as int) * (x as int)) by (nonlinear_arith);
    if let (Some(xy), Some(yz)) = (
        evaluate(x, seq![(ArithmeticOperator::Plus, y)]),
        evaluate(y, seq![(ArithmeticOperator::Plus, z)]),
    ) {
        lemma_one(xy, ArithmeticOperator::Plus, z);
        lemma_one(x, ArithmeticOperator::Plus, yz);
    }
    let both = seq![(ArithmeticOperator::Plus, y), (ArithmeticOperator::Minus, y)];
    assert(both.drop_last() =~= seq![(ArithmeticOperator::Plus, y)]);
}

proof fn lemma_one(x: i64, op: ArithmeticOperator, y: i64)
    ensures
        evaluate(x, seq![(op, y)]) == match operate(x as int, op, y as int) {
            Some(v) if i64::MIN <= v <= i64::MAX => Some(v as i64),
            _ => None,
        },
{
    assert(seq![(op, y)].drop_last() =~= Seq::empty());
    assert(evaluate(x, Seq::empty()) == Some(x));
}

/// A sum less one summand is the other; a difference and what was taken away make the
/// whole; a product is the product. There is a result exactly if it is a 64 bit integer.
pub proof fn law_operations(x: i64, y: i64, z: i64)
    ensures
        evaluate(x, seq![(ArithmeticOperator::Plus, y)]) == Some(z) <==> z - y == x,
        evaluate(x, seq![(ArithmeticOperator::Minus, y)]) == Some(z) <==> z + y == x,
        evaluate(x, seq![(ArithmeticOperator::Multiply, y)]) == Some(z) <==> z == x * y,
        evaluate(x, seq![(ArithmeticOperator::Plus, y)]) is None ==> z - y != x,
        evaluate(x, seq![(ArithmeticOperator::Minus, y)]) is None ==> z + y != x,
        evaluate(x, seq![(ArithmeticOperator::Multiply, y)]) is None ==> z != x * y,
{
    lemma_one(x, ArithmeticOperator::Plus, y);
    lemma_one(x, ArithmeticOperator::Minus, y);
    lemma_one(x, ArithmeticOperator::Multiply, y);
}

/// Quotient times divisor and remainder make the dividend. The remainder is less than
/// the divisor in size and has the sign of the dividend. There are both, or neither:
/// neither where the divisor is zero, or the quotient is one more than the greatest.
pub proof fn law_division(x: i64, y: i64)
    ensures
        evaluate(x, seq![(ArithmeticOperator::Divide, y)]) is None <==> y == 0 || (x == i64::MIN
            && y == -1),
        evaluate(x, seq![(ArithmeticOperator::Modulo, y)]) is None <==> y == 0 || (x == i64::MIN
            && y == -1),
        match (
            evaluate(x, seq![(ArithmeticOperator::Divide, y)]),
            evaluate(x, seq![(ArithmeticOperator::Modulo, y)]),
        ) {
            (Some(q), Some(r)) => x == q * y + r && (if y > 0 {
                -y < r < y
            } else {
                y < r < -y
            }) && (r > 0 ==> x > 0) && (r < 0 ==> x < 0),
            _ => true,
        },
{
    lemma_one(x, ArithmeticOperator::Divide, y);
    lemma_one(x, ArithmeticOperator::Modulo, y);
    if y != 0 {
        let a = if x < 0 {
            -x
        } else {
            x as int
        };
        let b = if y < 0 {
            -y
        } else {
            y as int
        };
        lemma_quotient_bound(a, b);
        vstd::arithmetic::div_mod::lemma_fundamental_div_mod(a, b);
        vstd::arithmetic::div_mod::lemma_mod_bound(a, b);
        let size = a / b;
        if b == 1 {
            assert(size == a);
        }
        let q = quotient(x as int, y as int);
        assert(q * y == if x < 0 {
            -(b * size)
        } else {
            b * size
        }) by (nonlinear_arith)
            requires
                b == if y < 0 {
                    -(y as int)
                } else {
                    y as int
                },
                q == if (x < 0) == (y < 0) {
                    size
                } else {
                    -size
                },
        ;
    }
}

/// An expression is evaluated from left to right: its first operations give the value
/// that the others start from.
pub proof fn law_left_to_right(
    init: i64,
    a: Seq<(ArithmeticOperator, i64)>,
    b: Seq<(ArithmeticOperator, i64)>,
)
    ensures
        evaluate(init, Seq::empty()) == Some(init),
        evaluate(init, a + b) == match evaluate(init, a) {
            Some(value) => evaluate(value, b),
            None => None,
        },
    decreases b.len(),
{
    if b.len() == 0 {
        assert(a + b =~= a);
    } else {
        law_left_to_right(init, a, b.drop_last());
        assert((a + b).drop_last() =~= a + b.drop_last());
    }
}

/// The rows that a step has at hand: one row, or the key and the values of both
/// sides of a join.
pub struct Inputs<'a, A: Array> {
    pub row: Option<&'a A>,
    pub key: Option<&'a A>,
    pub left: Option<&'a A>,
    pub right: Option<&'a A>,
}

#[verifier::ext_equal]
pub struct InputsModel {
    pub row: Option<Seq<i64>>,
    pub key: Option<Seq<i64>>,
    pub left: Option<Seq<i64>>,
    pub right: Option<Seq<i64>>,
}

pub open spec fn columns_in<A: Array>(row: Option<&A>) -> Option<Seq<i64>> {
    match row {
        Some(row) => Some(row.columns()),
        None => None,
    }
}

impl<'a, A: Array> Inputs<'a, A> {
    pub open spec fn model(&self) -> InputsModel {
        InputsModel {
            row: columns_in(self.row),
            key: columns_in(self.key),
            left: columns_in(self.left),
            right: columns_in(self.right),
        }
    }
}

/// One row at hand.
pub open spec fn one_row(row: Seq<i64>) -> InputsModel {
    InputsModel { row: Some(row), key: None, left: None, right: None }
}

/// The rows of a join at hand.
pub open spec fn joined_rows(
    key: Option<Seq<i64>>,
    left: Option<Seq<i64>>,
    right: Option<Seq<i64>>,
) -> InputsModel {
    InputsModel { row: None, key, left, right }
}

/// The value at a place, if there is such a place.
pub open spec fn value_in(row: Option<Seq<i64>>, id: usize) -> Option<i64> {
    match row {
        Some(values) => if id < values.len() {
            Some(values[id as int])
        } else {
            None
        },
        None => None,
    }
}

/// The value of an input column.
pub open spec fn value_at(inputs: InputsModel, argument: TransformationArgument) -> Option<i64> {
    match argument {
        TransformationArgument::KV((value, id)) => if value {
            value_in(inputs.row, id)
        } else {
            None
        },
        TransformationArgument::Jn((right, value, id)) => if !value {
            value_in(inputs.key, id)
        } else if !right {
            value_in(inputs.left, id)
        } else {
            value_in(inputs.right, id)
        },
    }
}

/// The value of a factor.
pub open spec fn factor_value(
    inputs: InputsModel,
    factor: PlacedFactorModel<TransformationArgument>,
) -> Option<i64> {
    match factor {
        PlacedFactorModel::Var(argument) => value_at(inputs, argument),
        PlacedFactorModel::Const(ConstModel::Integer(number)) => Some(number as i64),
        PlacedFactorModel::Const(_) => None,
    }
}

/// The values of factors behind their operators.
pub open spec fn factor_values(
    inputs: InputsModel,
    rest: Seq<(ArithmeticOperator, PlacedFactorModel<TransformationArgument>)>,
) -> Option<Seq<(ArithmeticOperator, i64)>>
    decreases rest.len(),
{
    if rest.len() == 0 {
        Some(Seq::empty())
    } else {
        match (factor_values(inputs, rest.drop_last()), factor_value(inputs, rest.last().1)) {
            (Some(front), Some(value)) => Some(front.push((rest.last().0, value))),
            _ => None,
        }
    }
}

/// The value of an expression; none where an input is missing, a constant is no
/// number, or an operation has no result.
pub open spec fn arithmetic_value(
    inputs: InputsModel,
    arithmetic: PlacedArithmeticModel<TransformationArgument>,
) -> Option<i64> {
    match (factor_value(inputs, arithmetic.init), factor_values(inputs, arithmetic.rest)) {
        (Some(init), Some(rest)) => evaluate(init, rest),
        _ => None,
    }
}

/// Whether a comparison holds, if both sides have values.
pub open spec fn comparison_value(
    inputs: InputsModel,
    comparison: PlacedComparisonModel<TransformationArgument>,
) -> Option<bool> {
    match (arithmetic_value(inputs, comparison.left), arithmetic_value(inputs, comparison.right)) {
        (Some(left), Some(right)) => Some(compares(left as int, comparison.operator, right as int)),
        _ => None,
    }
}

/// Whether comparisons hold, one after the other up to the first that does not.
pub open spec fn all_hold(
    inputs: InputsModel,
    comparisons: Seq<PlacedComparisonModel<TransformationArgument>>,
) -> Option<bool>
    decreases comparisons.len(),
{
    if comparisons.len() == 0 {
        Some(true)
    } else {
        match all_hold(inputs, comparisons.drop_last()) {
            Some(true) => comparison_value(inputs, comparisons.last()),
            other => other,
        }
    }
}

/// The values of input columns.
pub open spec fn project(
    inputs: InputsModel,
    arguments: Seq<TransformationArgument>,
) -> Option<Seq<i64>>
    decreases arguments.len(),
{
    if arguments.len() == 0 {
        Some(Seq::empty())
    } else {
        match (project(inputs, arguments.drop_last()), value_at(inputs, arguments.last())) {
            (Some(front), Some(value)) => Some(front.push(value)),
            _ => None,
        }
    }
}

/// The columns of the row at hand, or of the key and the sides of a join, are found at
/// their places, and there are no others.
pub proof fn law_columns_are_found(
    row: Seq<i64>,
    key: Seq<i64>,
    left: Seq<i64>,
    right: Seq<i64>,
    id: usize,
)
    ensures
        ({
            let join = joined_rows(Some(key), Some(left), Some(right));
            &&& value_at(one_row(row), TransformationArgument::KV((true, id))) is Some <==> id
                < row.len()
            &&& value_at(join, TransformationArgument::Jn((false, false, id))) is Some <==> id
                < key.len()
            &&& value_at(join, TransformationArgument::Jn((false, true, id))) is Some <==> id
                < left.len()
            &&& value_at(join, TransformationArgument::Jn((true, true, id))) is Some <==> id
                < right.len()
            &&& id < row.len() ==> value_at(one_row(row), TransformationArgument::KV((true, id)))
                == Some(row[id as int])
            &&& id < key.len() ==> value_at(join, TransformationArgument::Jn((false, false, id)))
                == Some(key[id as int])
            &&& id < left.len() ==> value_at(join, TransformationArgument::Jn((false, true, id)))
                == Some(left[id as int])
            &&& id < right.len() ==> value_at(join, TransformationArgument::Jn((true, true, id)))
                == Some(right[id as int])
        }),
{
}

/// A projection takes the columns one by one, in the order in which they are asked for.
pub proof fn law_projections_take_each_column(
    inputs: InputsModel,
    arguments: Seq<TransformationArgument>,
)
    ensures
        project(inputs, arguments) is Some <==> forall|i: int|
            0 <= i < arguments.len() ==> value_at(inputs, #[trigger] arguments[i]) is Some,
        project(inputs, arguments) matches Some(row) ==> row.len() == arguments.len() && forall|
            i: int,
        |
            0 <= i < arguments.len() ==> value_at(inputs, #[trigger] arguments[i]) == Some(row[i]),
    decreases arguments.len(),
{
    if arguments.len() > 0 {
        let front = arguments.drop_last();
        law_projections_take_each_column(inputs, front);
        assert(forall|i: int| 0 <= i < front.len() ==> front[i] == arguments[i]);
        assert(arguments[arguments.len() - 1] == arguments.last());
        if project(inputs, front) is None {
            let i = choose|i: int|
                0 <= i < front.len() && value_at(inputs, #[trigger] front[i]) is None;
            assert(value_at(inputs, arguments[i]) is None);
        }
    }
}

/// Comparisons hold together exactly if each of them holds.
pub proof fn law_all_comparisons_hold(
    inputs: InputsModel,
    comparisons: Seq<PlacedComparisonModel<TransformationArgument>>,
)
    ensures
        all_hold(inputs, comparisons) == Some(true) <==> forall|i: int|
            0 <= i < comparisons.len() ==> comparison_value(inputs, #[trigger] comparisons[i])
                == Some(true),
    decreases comparisons.len(),
{
    if comparisons.len() > 0 {
        let front = comparisons.drop_last();
        law_all_comparisons_hold(inputs, front);
        assert(forall|i: int| 0 <= i < front.len() ==> front[i] == comparisons[i]);
        assert(comparisons[comparisons.len() - 1] == comparisons.last());
        if all_hold(inputs, front) != Some(true) {
            let i = choose|i: int|
                0 <= i < front.len() && comparison_value(inputs, #[trigger] front[i]) != Some(true);
            assert(comparison_value(inputs, comparisons[i]) != Some(true));
        }
    }
}

/// An expression of one factor has the value of the factor: a constant its number, a
/// column what stands there. One more operation is done to the value of the expression.
pub proof fn law_expressions_grow(
    inputs: InputsModel,
    arithmetic: PlacedArithmeticModel<TransformationArgument>,
    op: ArithmeticOperator,
    factor: PlacedFactorModel<TransformationArgument>,
    number: i32,
    argument: TransformationArgument,
)
    ensures
        factor_value(inputs, PlacedFactorModel::Const(ConstModel::Integer(number))) matches Some(
            v,
        ) && v == number,
        factor_value(inputs, PlacedFactorModel::Var(argument)) == value_at(inputs, argument),
        arithmetic_value(inputs, PlacedArithmeticModel { init: factor, rest: Seq::empty() })
            == factor_value(inputs, factor),
        arithmetic_value(
            inputs,
            PlacedArithmeticModel {
                init: arithmetic.init,
                rest: arithmetic.rest.push((op, factor)),
            },
        ) == match (arithmetic_value(inputs, arithmetic), factor_value(inputs, factor)) {
            (Some(x), Some(y)) => evaluate(x, seq![(op, y)]),
            _ => None,
        },
{
    let more = arithmetic.rest.push((op, factor));
    assert(more.drop_last() =~= arithmetic.rest);
    assert(more.last() == (op, factor));
    if let (Some(init), Some(rest), Some(y)) = (
        factor_value(inputs, arithmetic.init),
        factor_values(inputs, arithmetic.rest),
        factor_value(inputs, factor),
    ) {
        law_left_to_right(init, rest, seq![(op, y)]);
        assert(rest + seq![(op, y)] =~= rest.push((op, y)));
    }
}

fn try_column<A: Array>(row: Option<&A>, id: usize) -> (value: Option<i64>)
    ensures
        value == value_in(columns_in(row), id),
{
    match row {
        Some(row) => if id < row.arity() {
            Some(row.column(id))
        } else {
            None
        },
        None => None,
    }
}

impl<'a, A: Array> Inputs<'a, A> {
    pub fn of_row(row: &'a A) -> (inputs: Self)
        ensures
            inputs.model() == one_row(row.columns()),
    {
        Inputs { row: Some(row), key: None, left: None, right: None }
    }

    pub fn of_join(key: Option<&'a A>, left: Option<&'a A>, right: Option<&'a A>) -> (inputs: Self)
        ensures
            inputs.model() == joined_rows(columns_in(key), columns_in(left), columns_in(right)),
    {
        Inputs { row: None, key, left, right }
    }

    /// The value of an input column, if it is there.
    pub fn value(&self, argument: &TransformationArgument) -> (value: Option<i64>)
        ensures
            value == value_at(self.model(), *argument),
    {
        match argument {
            TransformationArgument::KV((is_value, id)) => if *is_value {
                try_column(self.row, *id)
            } else {
                None
            },
            TransformationArgument::Jn((right, is_value, id)) => if !*is_value {
                try_column(self.key, *id)
            } else if !*right {
                try_column(self.left, *id)
            } else {
                try_column(self.right, *id)
            },
        }
    }

    pub fn factor(&self, factor: &PlacedFactor<TransformationArgument>) -> (value: Option<i64>)
        ensures
            value == factor_value(self.model(), factor.deep_view()),
    {
        match factor {
            PlacedFactor::Var(argument) => self.value(argument),
            PlacedFactor::Const(constant) => match constant {
                crate::parsing::rule::Const::Integer(number) => Some(*number as i64),
                _ => None,
            },
        }
    }

    pub fn arithmetic(&self, arithmetic: &PlacedArithmetic<TransformationArgument>) -> (value:
        Option<i64>)
        ensures
            value == arithmetic_value(self.model(), arithmetic.deep_view()),
    {
        broadcast use group_take;

        let ghost model = arithmetic.deep_view().rest;
        let mut rest: Vec<(ArithmeticOperator, i64)> = Vec::new();
        let mut missing = false;
        let mut i: usize = 0;
        while i < arithmetic.rest.len()
            invariant
                i <= arithmetic.rest.len(),
                model == arithmetic.deep_view().rest,
                factor_values(self.model(), model.take(i as int)) == if missing {
                    None
                } else {
                    Some(rest@)
                },
            decreases arithmetic.rest.len() - i,
        {
            assert(model.take(i + 1).drop_last() == model.take(i as int));
            assert(model[i as int] == arithmetic.rest@[i as int].deep_view());
            match self.factor(&arithmetic.rest[i].1) {
                Some(value) => {
                    rest.push((arithmetic.rest[i].0, value));
                },
                None => {
                    missing = true;
                },
            }
            i += 1;
        }
        if missing {
            return None;
        }
        match self.factor(&arithmetic.init) {
            Some(init) => try_arithmetic_ints(init, &rest),
            None => None,
        }
    }

    pub fn comparison(&self, comparison: &PlacedComparison<TransformationArgument>) -> (value:
        Option<bool>)
        ensures
            value == comparison_value(self.model(), comparison.deep_view()),
    {
        match (self.arithmetic(&comparison.left), self.arithmetic(&comparison.right)) {
            (Some(left), Some(right)) => Some(compare_ints(left, &comparison.operator, right)),
            _ => None,
        }
    }

    /// Whether all comparisons hold.
    pub fn all(&self, comparisons: &Vec<PlacedComparison<TransformationArgument>>) -> (value:
        Option<bool>)
        ensures
            value == all_hold(self.model(), comparisons.deep_view()),
    {
        broadcast use group_take;

        let ghost model = comparisons.deep_view();
        let mut value: Option<bool> = Some(true);
        let mut i: usize = 0;
        while i < comparisons.len()
            invariant
                i <= comparisons.len(),
                model == comparisons.deep_view(),
                value == all_hold(self.model(), model.take(i as int)),
            decreases comparisons.len() - i,
        {
            assert(model.take(i + 1).drop_last() == model.take(i as int));
            assert(model[i as int] == comparisons@[i as int].deep_view());
            match value {
                Some(true) => {
                    value = self.comparison(&comparisons[i]);
                },
                _ => {},
            }
            i += 1;
        }
        value
    }

    /// The values of input columns as a row.
    pub fn project(&self, arguments: &Vec<TransformationArgument>) -> (row: Option<A>)
        requires
            arguments@.len() <= A::limit(),
        ensures
            match row {
                Some(row) => project(self.model(), arguments.deep_view()) == Some(row.columns()),
                None => project(self.model(), arguments.deep_view()) is None,
            },
    {
        broadcast use group_take;

        let ghost model = arguments.deep_view();
        assert(model =~= arguments@);
        let mut row = A::empty_row();
        let mut missing = false;
        let mut i: usize = 0;
        while i < arguments.len()
            invariant
                i <= arguments.len(),
                arguments@.len() <= A::limit(),
                model == arguments.deep_view(),
                row.columns().len() <= i,
                project(self.model(), model.take(i as int)) == if missing {
                    None
                } else {
                    Some(row.columns())
                },
            decreases arguments.len() - i,
        {
            assert(model.take(i + 1).drop_last() == model.take(i as int));
            assert(model[i as int] == arguments@[i as int]);
            match self.value(&arguments[i]) {
                Some(value) => {
                    row.push(value);
                },
                None => {
                    missing = true;
                },
            }
            i += 1;
        }
        if missing {
            None
        } else {
            Some(row)
        }
    }
}

/// The value of a factor on a row.
pub fn factor_row<A: Array>(v: &A, factor: &PlacedFactor<TransformationArgument>) -> (value: i64)
    requires
        factor_value(one_row(v.columns()), factor.deep_view()) is Some,
    ensures
        Some(value) == factor_value(one_row(v.columns()), factor.deep_view()),
{
    Inputs::of_row(v).factor(factor).unwrap()
}

/// The value of an expression on a row.
pub fn arithmetic_row<A: Array>(
    v: &A,
    arithmetic_expr: &PlacedArithmetic<TransformationArgument>,
) -> (value: i64)
    requires
        arithmetic_value(one_row(v.columns()), arithmetic_expr.deep_view()) is Some,
    ensures
        Some(value) == arithmetic_value(one_row(v.columns()), arithmetic_expr.deep_view()),
{
    Inputs::of_row(v).arithmetic(arithmetic_expr).unwrap()
}

/// Whether a comparison holds on a row.
pub fn compare_row<A: Array>(
    v: &A,
    compare_expr: &PlacedComparison<TransformationArgument>,
) -> (answer: bool)
    requires
        comparison_value(one_row(v.columns()), compare_expr.deep_view()) is Some,
    ensures
        Some(answer) == comparison_value(one_row(v.columns()), compare_expr.deep_view()),
{
    Inputs::of_row(v).comparison(compare_expr).unwrap()
}

/// The value of a column of a join.
pub fn jn_compare_extractor<A: Array>(
    k: Option<&A>,
    v1: Option<&A>,
    v2: Option<&A>,
    extracts: &(bool, bool, usize),
) -> (value: i64)
    requires
        value_at(
            joined_rows(columns_in(k), columns_in(v1), columns_in(v2)),
            TransformationArgument::Jn(*extracts),
        ) is Some,
    ensures
        Some(value) == value_at(
            joined_rows(columns_in(k), columns_in(v1), columns_in(v2)),
            TransformationArgument::Jn(*extracts),
        ),
{
    let (right, is_value, id) = *extracts;
    Inputs::of_join(k, v1, v2).value(&TransformationArgument::Jn((right, is_value, id))).unwrap()
}

/// The value of a factor on the rows of a join.
pub fn jn_factor<A: Array>(
    k: Option<&A>,
    v1: Option<&A>,
    v2: Option<&A>,
    factor: &PlacedFactor<TransformationArgument>,
) -> (value: i64)
    requires
        factor_value(
            joined_rows(columns_in(k), columns_in(v1), columns_in(v2)),
            factor.deep_view(),
        ) is Some,
    ensures
        Some(value) == factor_value(
            joined_rows(columns_in(k), columns_in(v1), columns_in(v2)),
            factor.deep_view(),
        ),
{
    Inputs::of_join(k, v1, v2).factor(factor).unwrap()
}

/// The value of an expression on the rows of a join.
pub fn jn_arithmetic<A: Array>(
    k: Option<&A>,
    v1: Option<&A>,
    v2: Option<&A>,
    arithmetic_expr: &PlacedArithmetic<TransformationArgument>,
) -> (value: i64)
    requires
        arithmetic_value(
            joined_rows(columns_in(k), columns_in(v1), columns_in(v2)),
            arithmetic_expr.deep_view(),
        ) is Some,
    ensures
        Some(value) == arithmetic_value(
            joined_rows(columns_in(k), columns_in(v1), columns_in(v2)),
            arithmetic_expr.deep_view(),
        ),
{
    Inputs::of_join(k, v1, v2).arithmetic(arithmetic_expr).unwrap()
}

/// Whether a comparison holds on the rows of a join.
pub fn jn_compare<A: Array>(
    k: Option<&A>,
    v1: Option<&A>,
    v2: Option<&A>,
    compare_expr: &PlacedComparison<TransformationArgument>,
) -> (answer: bool)
    requires
        comparison_value(
            joined_rows(columns_in(k), columns_in(v1), columns_in(v2)),
            compare_expr.deep_view(),
        ) is Some,
    ensures
        Some(answer) == comparison_value(
            joined_rows(columns_in(k), columns_in(v1), columns_in(v2)),
            compare_expr.deep_view(),
        ),
{
    Inputs::of_join(k, v1, v2).comparison(compare_expr).unwrap()
}

/// The rows of a join with left and right exchanged.
pub open spec fn flip_inputs(inputs: InputsModel) -> InputsModel {
    InputsModel { row: inputs.row, key: inputs.key, left: inputs.right, right: inputs.left }
}

proof fn lemma_flip_factor(
    inputs: InputsModel,
    factor: PlacedFactorModel<TransformationArgument>,
)
    ensures
        factor_value(flip_inputs(inputs), flip_factor(factor)) == factor_value(inputs, factor),
{
}

proof fn lemma_flip_factors(
    inputs: InputsModel,
    rest: Seq<(ArithmeticOperator, PlacedFactorModel<TransformationArgument>)>,
    flips: Seq<(ArithmeticOperator, PlacedFactorModel<TransformationArgument>)>,
)
    requires
        flips.len() == rest.len(),
        forall|k: int|
            0 <= k < rest.len() ==> #[trigger] flips[k] == (rest[k].0, flip_factor(rest[k].1)),
    ensures
        factor_values(flip_inputs(inputs), flips) == factor_values(inputs, rest),
    decreases rest.len(),
{
    if rest.len() > 0 {
        let n = rest.len() - 1;
        assert(flips[n] == (rest[n].0, flip_factor(rest[n].1)));
        assert forall|k: int| 0 <= k < n implies #[trigger] flips.drop_last()[k] == (
            rest.drop_last()[k].0,
            flip_factor(rest.drop_last()[k].1),
        ) by {
            assert(flips.drop_last()[k] == flips[k]);
        }
        lemma_flip_factors(inputs, rest.drop_last(), flips.drop_last());
        lemma_flip_factor(inputs, rest.last().1);
    }
}

/// Exchanging left and right in a comparison and in the rows changes nothing.
pub proof fn law_flip_comparison(
    inputs: InputsModel,
    comparison: PlacedComparisonModel<TransformationArgument>,
)
    ensures
        comparison_value(flip_inputs(inputs), flip_comparison(comparison)) == comparison_value(
            inputs,
            comparison,
        ),
{
    lemma_flip_factor(inputs, comparison.left.init);
    lemma_flip_factor(inputs, comparison.right.init);
    lemma_flip_factors(
        inputs,
        comparison.left.rest,
        flip_arithmetic(comparison.left).rest,
    );
    lemma_flip_factors(
        inputs,
        comparison.right.rest,
        flip_arithmetic(comparison.right).rest,
    );
}

pub proof fn lemma_flip_all(
    inputs: InputsModel,
    comparisons: Seq<PlacedComparisonModel<TransformationArgument>>,
)
    ensures
        all_hold(
            flip_inputs(inputs),
            comparisons.map_values(
                |c: PlacedComparisonModel<TransformationArgument>| flip_comparison(c),
            ),
        ) == all_hold(inputs, comparisons),
    decreases comparisons.len(),
{
    let f = |c: PlacedComparisonModel<TransformationArgument>| flip_comparison(c);
    if comparisons.len() > 0 {
        lemma_flip_all(inputs, comparisons.drop_last());
        law_flip_comparison(inputs, comparisons.last());
        assert(comparisons.map_values(f).drop_last() =~= comparisons.drop_last().map_values(f));
    }
}

pub proof fn lemma_flip_project(inputs: InputsModel, arguments: Seq<TransformationArgument>)
    ensures
        project(
            flip_inputs(inputs),
            arguments.map_values(|a: TransformationArgument| flipped(a)),
        ) == project(inputs, arguments),
    decreases arguments.len(),
{
    let f = |a: TransformationArgument| flipped(a);
    if arguments.len() > 0 {
        lemma_flip_project(inputs, arguments.drop_last());
        assert(arguments.map_values(f).drop_last() =~= arguments.drop_last().map_values(f));
    }
}

} // verus!
