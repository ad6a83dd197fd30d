//! Names can be read: what steps do is known from the names of their outputs.
use vstd::prelude::*;
use vstd::string::*;
use crate::catalog::arithmetic::{PlacedArithmeticModel, PlacedFactorModel};
use crate::catalog::compare::PlacedComparisonModel;
use crate::parsing::arithmetic::{rest_text, ArithmeticOperator};
use crate::parsing::compare::ComparisonOperator;
use crate::parsing::rule::ConstModel;
use crate::planning::arguments::{bool_text, TransformationArgument};
use crate::text::{
    int_text, is_digit, law_int_text_injective, lemma_nat_text_digits, nat_text, Written,
};

verus! {

/// Whether a text does not go on with a digit.
pub open spec fn no_digit_next(s: Seq<char>) -> bool {
    s.len() > 0 ==> !is_digit(s[0])
}

/// Texts of the same length in front are the same, and so is what follows.
pub proof fn lemma_cut(a: Seq<char>, b: Seq<char>, r: Seq<char>, s: Seq<char>)
    requires
        a + r == b + s,
        a.len() == b.len(),
    ensures
        a == b,
        r == s,
{
    assert(a =~= (a + r).take(a.len() as int));
    assert(b =~= (b + s).take(b.len() as int));
    assert(r =~= (a + r).skip(a.len() as int));
    assert(s =~= (b + s).skip(b.len() as int));
}

pub proof fn lemma_assoc(a: Seq<char>, b: Seq<char>, c: Seq<char>)
    ensures
        a + b + c == a + (b + c),
{
    assert(a + b + c =~= a + (b + c));
}

/// A number is known from the text that starts with it.
pub proof fn lemma_nat_read(a: nat, b: nat, r: Seq<char>, s: Seq<char>)
    requires
        nat_text(a) + r == nat_text(b) + s,
        no_digit_next(r),
        no_digit_next(s),
    ensures
        a == b,
        r == s,
{
    let x = nat_text(a);
    let y = nat_text(b);
    lemma_nat_text_digits(a);
    lemma_nat_text_digits(b);
    assert((x + r).len() == (y + s).len());
    if x.len() < y.len() {
        assert((x + r)[x.len() as int] == r[0]);
        assert((y + s)[x.len() as int] == y[x.len() as int]);
        assert(is_digit(y[x.len() as int]));
    }
    if y.len() < x.len() {
        assert((y + s)[y.len() as int] == s[0]);
        assert((x + r)[y.len() as int] == x[y.len() as int]);
        assert(is_digit(x[y.len() as int]));
    }
    lemma_cut(x, y, r, s);
    assert(int_text(a as int) == int_text(b as int));
    law_int_text_injective(a as int, b as int);
}

/// An integer is known from the text that starts with it.
pub proof fn lemma_int_read(a: int, b: int, r: Seq<char>, s: Seq<char>)
    requires
        int_text(a) + r == int_text(b) + s,
        no_digit_next(r),
        no_digit_next(s),
    ensures
        a == b,
        r == s,
{
    let x = int_text(a);
    let y = int_text(b);
    lemma_int_start(a);
    lemma_int_start(b);
    assert((x + r)[0] == x[0]);
    assert((y + s)[0] == y[0]);
    if a < 0 {
        let m = (-a) as nat;
        let n = (-b) as nat;
        assert(x + r =~= seq!['-'] + (nat_text(m) + r));
        assert(y + s =~= seq!['-'] + (nat_text(n) + s));
        lemma_cut(seq!['-'], seq!['-'], nat_text(m) + r, nat_text(n) + s);
        lemma_nat_read(m, n, r, s);
    } else {
        lemma_nat_read(a as nat, b as nat, r, s);
    }
}

/// How an integer starts.
pub proof fn lemma_int_start(i: int)
    ensures
        int_text(i).len() > 0,
        i < 0 ==> int_text(i)[0] == '-',
        i >= 0 ==> is_digit(int_text(i)[0]),
{
    if i < 0 {
        lemma_nat_text_digits((-i) as nat);
    } else {
        lemma_nat_text_digits(i as nat);
        assert(is_digit(nat_text(i as nat)[0]));
    }
}

/// How the text of a column goes on behind the mark of its kind.
spec fn column_tail(id: usize, r: Seq<char>) -> Seq<char> {
    nat_text(id as nat) + ("]"@ + r)
}

proof fn lemma_tail_read(a: usize, b: usize, r: Seq<char>, s: Seq<char>)
    requires
        column_tail(a, r) == column_tail(b, s),
    ensures
        a == b,
        r == s,
{
    reveal_strlit("]");
    lemma_nat_read(a as nat, b as nat, "]"@ + r, "]"@ + s);
    lemma_cut("]"@, "]"@, r, s);
}

/// The mark of the kind of a column.
spec fn column_mark(argument: TransformationArgument) -> Seq<char> {
    match argument {
        TransformationArgument::KV((value, _)) => if value {
            "[v, "@
        } else {
            "[k, "@
        },
        TransformationArgument::Jn((right, value, _)) => "["@ + bool_text(right) + (if value {
            ", v, "@
        } else {
            ", k, "@
        }),
    }
}

spec fn column_id(argument: TransformationArgument) -> usize {
    match argument {
        TransformationArgument::KV((_, id)) => id,
        TransformationArgument::Jn((_, _, id)) => id,
    }
}

proof fn lemma_column_text(a: TransformationArgument, r: Seq<char>)
    ensures
        a.text() + r == column_mark(a) + column_tail(column_id(a), r),
{
    let mark = column_mark(a);
    let id = nat_text(column_id(a) as nat);
    assert(a.text() == mark + id + "]"@);
    lemma_assoc(mark + id, "]"@, r);
    lemma_assoc(mark, id, "]"@ + r);
}

/// Where the mark of a column of a join says whether it is one of the value.
spec fn kind_at(right: bool) -> int {
    if right {
        7
    } else {
        8
    }
}

proof fn lemma_mark(a: TransformationArgument)
    ensures
        column_mark(a).len() > 1,
        match a {
            TransformationArgument::KV((value, _)) => column_mark(a)[1] == (if value {
                'v'
            } else {
                'k'
            }),
            TransformationArgument::Jn((right, value, _)) => column_mark(a)[1] == (if right {
                't'
            } else {
                'f'
            }) && column_mark(a).len() > kind_at(right) && column_mark(a)[kind_at(right)] == (
            if value {
                'v'
            } else {
                'k'
            }),
        },
{
    reveal_strlit("[v, ");
    reveal_strlit("[k, ");
    reveal_strlit("[");
    reveal_strlit("true");
    reveal_strlit("false");
    reveal_strlit(", v, ");
    reveal_strlit(", k, ");
}

/// Columns of the same kind have the same mark.
spec fn same_kind(a: TransformationArgument, b: TransformationArgument) -> bool {
    match (a, b) {
        (TransformationArgument::KV((v, _)), TransformationArgument::KV((w, _))) => v == w,
        (TransformationArgument::Jn((p, v, _)), TransformationArgument::Jn((q, w, _))) => p == q
            && v == w,
        _ => false,
    }
}

proof fn lemma_marks_read(
    a: TransformationArgument,
    b: TransformationArgument,
    p: Seq<char>,
    q: Seq<char>,
)
    requires
        column_mark(a) + p == column_mark(b) + q,
    ensures
        same_kind(a, b),
{
    lemma_mark(a);
    lemma_mark(b);
    let all = column_mark(a) + p;
    assert(all[1] == column_mark(a)[1]);
    assert(all[1] == column_mark(b)[1]);
    if let TransformationArgument::Jn((right, _, _)) = a {
        assert(all[kind_at(right)] == column_mark(a)[kind_at(right)]);
        if let TransformationArgument::Jn((other, _, _)) = b {
            assert(right == other);
            assert(all[kind_at(right)] == column_mark(b)[kind_at(right)]);
        }
    }
}

/// A column is known from the text that starts with it.
pub proof fn lemma_argument_read(
    a: TransformationArgument,
    b: TransformationArgument,
    r: Seq<char>,
    s: Seq<char>,
)
    requires
        a.text() + r == b.text() + s,
    ensures
        a == b,
        r == s,
{
    let p = column_tail(column_id(a), r);
    let q = column_tail(column_id(b), s);
    lemma_column_text(a, r);
    lemma_column_text(b, s);
    lemma_marks_read(a, b, p, q);
    assert(column_mark(a) == column_mark(b));
    lemma_cut(column_mark(a), column_mark(b), p, q);
    lemma_tail_read(column_id(a), column_id(b), r, s);
}

pub proof fn lemma_argument_start(a: TransformationArgument)
    ensures
        a.text().len() > 0,
        a.text()[0] == '[',
{
    reveal_strlit("[v, ");
    reveal_strlit("[k, ");
    reveal_strlit("[");
}

/// Whether a factor is a column or a number.
pub open spec fn is_plain_factor(factor: PlacedFactorModel<TransformationArgument>) -> bool {
    match factor {
        PlacedFactorModel::Var(_) => true,
        PlacedFactorModel::Const(constant) => constant is Integer,
    }
}

proof fn lemma_factor_read(
    a: PlacedFactorModel<TransformationArgument>,
    b: PlacedFactorModel<TransformationArgument>,
    r: Seq<char>,
    s: Seq<char>,
)
    requires
        is_plain_factor(a),
        is_plain_factor(b),
        no_digit_next(r),
        no_digit_next(s),
        a.text() + r == b.text() + s,
    ensures
        a == b,
        r == s,
{
    let all = a.text() + r;
    lemma_factor_start(a);
    lemma_factor_start(b);
    assert(all[0] == a.text()[0] && all[0] == b.text()[0]);
    match (a, b) {
        (PlacedFactorModel::Var(x), PlacedFactorModel::Var(y)) => {
            lemma_argument_read(x, y, r, s);
        },
        (
            PlacedFactorModel::Const(ConstModel::Integer(x)),
            PlacedFactorModel::Const(ConstModel::Integer(y)),
        ) => {
            lemma_int_read(x as int, y as int, r, s);
        },
        _ => {},
    }
}

proof fn lemma_factor_start(a: PlacedFactorModel<TransformationArgument>)
    requires
        is_plain_factor(a),
    ensures
        a.text().len() > 0,
        a is Var ==> a.text()[0] == '[',
        a is Const ==> (is_digit(a.text()[0]) || a.text()[0] == '-'),
{
    match a {
        PlacedFactorModel::Var(x) => {
            lemma_argument_start(x);
        },
        PlacedFactorModel::Const(ConstModel::Integer(x)) => {
            lemma_int_start(x as int);
        },
        _ => {},
    }
}

/// Whether a character is an arithmetic operator.
pub open spec fn is_operator(c: char) -> bool {
    c == '+' || c == '-' || c == '*' || c == '/' || c == '%'
}

/// Whether a text does not go on with an arithmetic operator or a digit.
pub open spec fn no_factor_next(s: Seq<char>) -> bool {
    &&& no_digit_next(s)
    &&& s.len() > 1 && s[0] == ' ' ==> !is_operator(s[1])
}

proof fn lemma_operator_text(op: ArithmeticOperator)
    ensures
        op.text().len() == 1,
        is_operator(op.text()[0]),
        op is Plus <==> op.text()[0] == '+',
        op is Minus <==> op.text()[0] == '-',
        op is Multiply <==> op.text()[0] == '*',
        op is Divide <==> op.text()[0] == '/',
        op is Modulo <==> op.text()[0] == '%',
{
    reveal_strlit("+");
    reveal_strlit("-");
    reveal_strlit("*");
    reveal_strlit("/");
    reveal_strlit("%");
}

/// The operators and factors, taken apart at the front.
proof fn lemma_rest_front(
    rest: Seq<(ArithmeticOperator, PlacedFactorModel<TransformationArgument>)>,
)
    requires
        rest.len() > 0,
    ensures
        rest_text(rest) == " "@ + rest[0].0.text() + " "@ + rest[0].1.text() + rest_text(
            rest.skip(1),
        ),
    decreases rest.len(),
{
    let head = " "@ + rest[0].0.text() + " "@ + rest[0].1.text();
    if rest.len() == 1 {
        assert(rest.drop_last() =~= Seq::empty());
        assert(rest.skip(1) =~= Seq::empty());
        assert(rest_text(rest) =~= head + rest_text(rest.skip(1)));
    } else {
        let front = rest.drop_last();
        lemma_rest_front(front);
        assert(front[0] == rest[0]);
        assert(rest.skip(1).drop_last() =~= front.skip(1));
        assert(rest.skip(1).last() == rest.last());
        assert(rest_text(rest) =~= head + rest_text(rest.skip(1)));
    }
}

/// Whether all factors are columns or numbers.
pub open spec fn are_plain_factors(
    rest: Seq<(ArithmeticOperator, PlacedFactorModel<TransformationArgument>)>,
) -> bool {
    forall|i: int| 0 <= i < rest.len() ==> is_plain_factor((#[trigger] rest[i]).1)
}

/// The text of operators and factors that starts with one of each.
proof fn lemma_rest_apart(
    rest: Seq<(ArithmeticOperator, PlacedFactorModel<TransformationArgument>)>,
    r: Seq<char>,
)
    requires
        rest.len() > 0,
    ensures
        rest_text(rest) + r == operator_mark(rest[0].0) + (rest[0].1.text() + (rest_text(
            rest.skip(1),
        ) + r)),
        operator_mark(rest[0].0).len() == 3,
        operator_mark(rest[0].0)[0] == ' ',
        operator_mark(rest[0].0)[1] == rest[0].0.text()[0],
        is_operator(rest[0].0.text()[0]),
{
    reveal_strlit(" ");
    lemma_rest_front(rest);
    lemma_operator_text(rest[0].0);
    let mark = operator_mark(rest[0].0);
    let factor = rest[0].1.text();
    let more = rest_text(rest.skip(1));
    lemma_assoc(mark + factor, more, r);
    lemma_assoc(mark, factor, more + r);
}

spec fn operator_mark(op: ArithmeticOperator) -> Seq<char> {
    " "@ + op.text() + " "@
}

proof fn lemma_operators_differ(a: ArithmeticOperator, b: ArithmeticOperator)
    requires
        a.text()[0] == b.text()[0],
    ensures
        a == b,
{
    lemma_operator_text(a);
    lemma_operator_text(b);
}

proof fn lemma_rest_one(
    a: Seq<(ArithmeticOperator, PlacedFactorModel<TransformationArgument>)>,
    b: Seq<(ArithmeticOperator, PlacedFactorModel<TransformationArgument>)>,
    r: Seq<char>,
    s: Seq<char>,
)
    requires
        a.len() > 0,
        b.len() > 0,
        are_plain_factors(a),
        are_plain_factors(b),
        no_factor_next(r),
        no_factor_next(s),
        rest_text(a) + r == rest_text(b) + s,
    ensures
        a[0] == b[0],
        rest_text(a.skip(1)) + r == rest_text(b.skip(1)) + s,
{
    let x = rest_text(a.skip(1)) + r;
    let y = rest_text(b.skip(1)) + s;
    lemma_rest_apart(a, r);
    lemma_rest_apart(b, s);
    lemma_cut(
        operator_mark(a[0].0),
        operator_mark(b[0].0),
        a[0].1.text() + x,
        b[0].1.text() + y,
    );
    lemma_operators_differ(a[0].0, b[0].0);
    lemma_rest_next(a.skip(1), r);
    lemma_rest_next(b.skip(1), s);
    assert(is_plain_factor(a[0].1) && is_plain_factor(b[0].1));
    lemma_factor_read(a[0].1, b[0].1, x, y);
}

proof fn lemma_rest_none(
    rest: Seq<(ArithmeticOperator, PlacedFactorModel<TransformationArgument>)>,
    r: Seq<char>,
    s: Seq<char>,
)
    requires
        rest.len() > 0,
        no_factor_next(s),
    ensures
        rest_text(rest) + r != s,
{
    lemma_rest_apart(rest, r);
    let all = rest_text(rest) + r;
    let mark = operator_mark(rest[0].0);
    assert(all[0] == mark[0] && all[1] == mark[1]);
}

proof fn lemma_rest_read(
    a: Seq<(ArithmeticOperator, PlacedFactorModel<TransformationArgument>)>,
    b: Seq<(ArithmeticOperator, PlacedFactorModel<TransformationArgument>)>,
    r: Seq<char>,
    s: Seq<char>,
)
    requires
        are_plain_factors(a),
        are_plain_factors(b),
        no_factor_next(r),
        no_factor_next(s),
        rest_text(a) + r == rest_text(b) + s,
    ensures
        a == b,
        r == s,
    decreases a.len(),
{
    if a.len() == 0 || b.len() == 0 {
        if a.len() == 0 {
            assert(rest_text(a) + r =~= r);
        }
        if b.len() == 0 {
            assert(rest_text(b) + s =~= s);
        }
        if a.len() > 0 {
            lemma_rest_none(a, r, s);
        }
        if b.len() > 0 {
            lemma_rest_none(b, s, r);
        }
        assert(a =~= b);
    } else {
        lemma_rest_one(a, b, r, s);
        assert(are_plain_factors(a.skip(1)));
        assert(are_plain_factors(b.skip(1)));
        lemma_rest_read(a.skip(1), b.skip(1), r, s);
        assert(a =~= seq![a[0]] + a.skip(1));
        assert(b =~= seq![b[0]] + b.skip(1));
    }
}

proof fn lemma_rest_next(
    rest: Seq<(ArithmeticOperator, PlacedFactorModel<TransformationArgument>)>,
    r: Seq<char>,
)
    requires
        no_factor_next(r),
    ensures
        no_digit_next(rest_text(rest) + r),
{
    reveal_strlit(" ");
    if rest.len() == 0 {
        assert(rest_text(rest) + r =~= r);
    } else {
        lemma_rest_front(rest);
    }
}

/// Whether an expression has columns and numbers only.
pub open spec fn is_plain_arithmetic(
    arithmetic: PlacedArithmeticModel<TransformationArgument>,
) -> bool {
    is_plain_factor(arithmetic.init) && are_plain_factors(arithmetic.rest)
}

proof fn lemma_arithmetic_read(
    a: PlacedArithmeticModel<TransformationArgument>,
    b: PlacedArithmeticModel<TransformationArgument>,
    r: Seq<char>,
    s: Seq<char>,
)
    requires
        is_plain_arithmetic(a),
        is_plain_arithmetic(b),
        no_factor_next(r),
        no_factor_next(s),
        a.text() + r == b.text() + s,
    ensures
        a == b,
        r == s,
{
    lemma_rest_next(a.rest, r);
    lemma_rest_next(b.rest, s);
    assert(a.text() + r =~= a.init.text() + (rest_text(a.rest) + r));
    assert(b.text() + s =~= b.init.text() + (rest_text(b.rest) + s));
    lemma_factor_read(a.init, b.init, rest_text(a.rest) + r, rest_text(b.rest) + s);
    lemma_rest_read(a.rest, b.rest, r, s);
}

proof fn lemma_comparison_operator(op: ComparisonOperator)
    ensures
        op.text().len() > 0,
        !is_operator(op.text()[0]),
        op is Equals <==> op.text()[0] == '=',
        op is NotEquals <==> op.text()[0] == '\u{2260}',
        op is GreaterThan <==> op.text()[0] == '>',
        op is GreaterEqualThan <==> op.text()[0] == '\u{2265}',
        op is LessThan <==> op.text()[0] == '<',
        op is LessEqualThan <==> op.text()[0] == '\u{2264}',
        op is Equals ==> op.text().len() == 2 && op.text()[1] == '=',
{
    reveal_strlit("==");
    reveal_strlit("≠");
    reveal_strlit(">");
    reveal_strlit("≥");
    reveal_strlit("<");
    reveal_strlit("≤");
}

/// Whether a comparison has columns and numbers only.
pub open spec fn is_plain_comparison(
    comparison: PlacedComparisonModel<TransformationArgument>,
) -> bool {
    is_plain_arithmetic(comparison.left) && is_plain_arithmetic(comparison.right)
}

/// What follows the left side of a comparison.
spec fn comparison_tail(
    comparison: PlacedComparisonModel<TransformationArgument>,
    r: Seq<char>,
) -> Seq<char> {
    comparison_mark(comparison.operator) + (comparison.right.text() + r)
}

spec fn comparison_mark(op: ComparisonOperator) -> Seq<char> {
    " "@ + op.text() + " "@
}

proof fn lemma_comparison_text(
    comparison: PlacedComparisonModel<TransformationArgument>,
    r: Seq<char>,
)
    ensures
        comparison.text() + r == comparison.left.text() + comparison_tail(comparison, r),
        comparison_tail(comparison, r).len() > 1,
        comparison_tail(comparison, r)[0] == ' ',
        comparison_tail(comparison, r)[1] == comparison.operator.text()[0],
        no_factor_next(comparison_tail(comparison, r)),
{
    reveal_strlit(" ");
    lemma_comparison_operator(comparison.operator);
    let left = comparison.left.text();
    let op = comparison.operator.text();
    let right = comparison.right.text();
    lemma_assoc(left, " "@, op);
    lemma_assoc(left, " "@ + op, " "@);
    lemma_assoc(left, comparison_mark(comparison.operator), right);
    lemma_assoc(left, comparison_mark(comparison.operator) + right, r);
    lemma_assoc(comparison_mark(comparison.operator), right, r);
}

proof fn lemma_comparisons_differ(a: ComparisonOperator, b: ComparisonOperator)
    requires
        a.text()[0] == b.text()[0],
    ensures
        a == b,
{
    lemma_comparison_operator(a);
    lemma_comparison_operator(b);
}

pub proof fn lemma_comparison_read(
    a: PlacedComparisonModel<TransformationArgument>,
    b: PlacedComparisonModel<TransformationArgument>,
    r: Seq<char>,
    s: Seq<char>,
)
    requires
        is_plain_comparison(a),
        is_plain_comparison(b),
        no_factor_next(r),
        no_factor_next(s),
        a.text() + r == b.text() + s,
    ensures
        a == b,
        r == s,
{
    let p = comparison_tail(a, r);
    let q = comparison_tail(b, s);
    lemma_comparison_text(a, r);
    lemma_comparison_text(b, s);
    lemma_arithmetic_read(a.left, b.left, p, q);
    lemma_comparisons_differ(a.operator, b.operator);
    lemma_cut(
        comparison_mark(a.operator),
        comparison_mark(b.operator),
        a.right.text() + r,
        b.right.text() + s,
    );
    lemma_arithmetic_read(a.right, b.right, r, s);
}

pub proof fn lemma_comparison_start(a: PlacedComparisonModel<TransformationArgument>)
    requires
        is_plain_comparison(a),
    ensures
        a.text().len() > 0,
        a.text()[0] == '[' || a.text()[0] == '-' || is_digit(a.text()[0]),
{
    lemma_comparison_text(a, Seq::empty());
    lemma_factor_start(a.left.init);
    assert(a.text() + Seq::<char>::empty() =~= a.text());
    assert(a.left.text()[0] == a.left.init.text()[0]);
    assert(a.text()[0] == a.left.text()[0]);
}

/// The text of an equality does not start as that of a comparison does.
pub proof fn lemma_equals_apart(
    column: TransformationArgument,
    r: Seq<char>,
    comparison: PlacedComparisonModel<TransformationArgument>,
    s: Seq<char>,
)
    requires
        is_plain_comparison(comparison),
    ensures
        column.text() + (" = "@ + r) != comparison.text() + s,
{
    reveal_strlit(" = ");
    let p = comparison_tail(comparison, s);
    let left = comparison.left;
    lemma_comparison_text(comparison, s);
    let more = rest_text(left.rest) + p;
    lemma_assoc(left.init.text(), rest_text(left.rest), p);
    lemma_factor_start(left.init);
    lemma_argument_start(column);
    let x = " = "@ + r;
    assert(x[0] == ' ' && x[1] == '=' && x[2] == ' ');
    if column.text() + x == comparison.text() + s {
        let all = column.text() + x;
        assert(all[0] == column.text()[0]);
        assert(all[0] == left.init.text()[0]);
        if let PlacedFactorModel::Var(other) = left.init {
            lemma_argument_read(column, other, x, more);
            if left.rest.len() > 0 {
                lemma_rest_apart(left.rest, p);
                let mark = operator_mark(left.rest[0].0);
                assert(more[1] == mark[1]);
            } else {
                assert(more =~= p);
                lemma_tail_chars(comparison, s);
            }
        }
    }
}

/// The second and third characters behind the left side of a comparison.
proof fn lemma_tail_chars(
    comparison: PlacedComparisonModel<TransformationArgument>,
    r: Seq<char>,
)
    ensures
        comparison_tail(comparison, r).len() > 2,
        !(comparison_tail(comparison, r)[1] == '=' && comparison_tail(comparison, r)[2] == ' '),
{
    reveal_strlit(" ");
    lemma_comparison_operator(comparison.operator);
    let op = comparison.operator.text();
    let mark = comparison_mark(comparison.operator);
    assert(mark.len() == op.len() + 2);
    assert(mark[1] == op[0]);
    if op.len() > 1 {
        assert(mark[2] == op[1]);
    }
    let tail = comparison_tail(comparison, r);
    assert(tail[1] == mark[1] && tail[2] == mark[2]);
}

} // verus!
