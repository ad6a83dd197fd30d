//! From the values of the variables of a head to the row that the head stands for.
use vstd::prelude::*;
use crate::catalog::query::head_vars;
use crate::executing::compare::{evaluate, try_arithmetic_ints};
use crate::executing::meaning::{
    head_value, is_answer, is_binding, is_head_row, satisfies, valued_rest, vals, Database,
    Valuation,
};
use crate::lists::group_take;
use crate::parsing::arithmetic::{
    rest_vars, Arithmetic, ArithmeticModel, ArithmeticOperator, Factor, FactorModel,
};
use crate::parsing::head::{Head, HeadArg, HeadArgModel, HeadModel};
use crate::parsing::rule::{Const, ConstModel, FLRuleModel};

verus! {

/// The value of a factor, from the values of its variables.
pub open spec fn factor_over(factor: FactorModel, values: Seq<i64>) -> Option<i64> {
    match factor {
        FactorModel::Var(_) => if values.len() == 1 {
            Some(values[0])
        } else {
            None
        },
        FactorModel::Const(ConstModel::Integer(number)) => Some(number as i64),
        FactorModel::Const(_) => None,
    }
}

/// The values of factors behind their operators, from the values of their variables
/// from left to right.
pub open spec fn rest_over(
    rest: Seq<(ArithmeticOperator, FactorModel)>,
    values: Seq<i64>,
) -> Option<Seq<(ArithmeticOperator, i64)>>
    decreases rest.len(),
{
    if rest.len() == 0 {
        Some(Seq::empty())
    } else {
        let n = rest_vars(rest.drop_last()).len() as int;
        match (
            rest_over(rest.drop_last(), values.take(n)),
            factor_over(rest.last().1, values.skip(n)),
        ) {
            (Some(front), Some(value)) => Some(front.push((rest.last().0, value))),
            _ => None,
        }
    }
}

/// The value of an expression, from the values of its variables from left to right.
pub open spec fn arithmetic_over(arithmetic: ArithmeticModel, values: Seq<i64>) -> Option<i64> {
    let n = arithmetic.init.vars().len() as int;
    match (factor_over(arithmetic.init, values.take(n)), rest_over(arithmetic.rest, values.skip(n))) {
        (Some(init), Some(rest)) => evaluate(init, rest),
        _ => None,
    }
}

/// The value of an argument of a head, from the values of its variables from left to
/// right.
pub open spec fn argument_over(argument: HeadArgModel, values: Seq<i64>) -> Option<i64> {
    match argument {
        HeadArgModel::Var(_) => if values.len() == 1 {
            Some(values[0])
        } else {
            None
        },
        HeadArgModel::Arith(arithmetic) => arithmetic_over(arithmetic, values),
        HeadArgModel::Aggregation(aggregation) => arithmetic_over(aggregation.arithmetic, values),
    }
}

/// The values of the arguments of a head, from the values of their variables from
/// left to right.
pub open spec fn row_over(arguments: Seq<HeadArgModel>, values: Seq<i64>) -> Option<Seq<i64>>
    decreases arguments.len(),
{
    if arguments.len() == 0 {
        Some(Seq::empty())
    } else {
        let n = head_vars(arguments.drop_last()).len() as int;
        match (
            row_over(arguments.drop_last(), values.take(n)),
            argument_over(arguments.last(), values.skip(n)),
        ) {
            (Some(front), Some(value)) => Some(front.push(value)),
            _ => None,
        }
    }
}

/// The row that a head stands for, from the values of its variables: one value for
/// each argument. None where there are too many or too few values, or an expression
/// has no value.
pub open spec fn head_row_of(head: HeadModel, values: Seq<i64>) -> Option<Seq<i64>> {
    if values.len() == head_vars(head.head_arguments).len() {
        row_over(head.head_arguments, values)
    } else {
        None
    }
}

/// The value of the variable or constant at a place.
fn factor_at(factor: &Factor, vars: &Vec<i64>, at: usize) -> (value: Option<i64>)
    requires
        at + factor.deep_view().vars().len() <= vars@.len(),
    ensures
        value == factor_over(
            factor.deep_view(),
            vars@.subrange(at as int, at + factor.deep_view().vars().len()),
        ),
{
    match factor {
        Factor::Var(_) => Some(vars[at]),
        Factor::Const(Const::Integer(number)) => Some(*number as i64),
        Factor::Const(_) => None,
    }
}

/// The value of an expression whose variables have the values from a place on.
fn arithmetic_at(arithmetic: &Arithmetic, vars: &Vec<i64>, at: usize) -> (out: (
    Option<i64>,
    usize,
))
    requires
        at + arithmetic.deep_view().vars().len() <= vars@.len(),
    ensures
        out.1 == at + arithmetic.deep_view().vars().len(),
        out.0 == arithmetic_over(
            arithmetic.deep_view(),
            vars@.subrange(at as int, at + arithmetic.deep_view().vars().len()),
        ),
{
    let ghost model = arithmetic.deep_view();
    let ghost n = model.init.vars().len() as int;
    let ghost all = vars@.subrange(at as int, at + model.vars().len());
    let init = factor_at(&arithmetic.init, vars, at);
    assert(vars.len() <= usize::MAX);
    let mut place: usize = match &arithmetic.init {
        Factor::Var(_) => at + 1,
        _ => at,
    };
    let ghost first = place as int;
    proof {
        assert(all.take(n) =~= vars@.subrange(at as int, at + n));
        assert(all.skip(n) =~= vars@.subrange(first, first + rest_vars(model.rest).len()));
    }
    let mut rest: Vec<(ArithmeticOperator, i64)> = Vec::new();
    let mut is_missing = false;
    let mut i: usize = 0;
    assert(model.rest.take(model.rest.len() as int) =~= model.rest);
    while i < arithmetic.rest.len()
        invariant
            i <= arithmetic.rest.len(),
            model == arithmetic.deep_view(),
            model.rest == arithmetic.rest.deep_view(),
            0 <= first,
            first + rest_vars(model.rest).len() <= vars@.len(),
            place == first + rest_vars(model.rest.take(i as int)).len(),
            place <= vars@.len(),
            match rest_over(
                model.rest.take(i as int),
                vars@.subrange(first, place as int),
            ) {
                Some(found) => !is_missing && rest@ == found,
                None => is_missing,
            },
        decreases arithmetic.rest.len() - i,
    {
        let ghost before = place as int;
        let ghost item = model.rest[i as int];
        proof {
            assert(item == arithmetic.rest@[i as int].deep_view());
            assert(model.rest.take(i + 1).drop_last() =~= model.rest.take(i as int));
            assert(model.rest.take(i + 1).last() == item);
            lemma_rest_vars_grow(model.rest, i + 1);
        }
        assert(vars.len() <= usize::MAX);
        let factor = &arithmetic.rest[i].1;
        let value = factor_at(factor, vars, place);
        place = match factor {
            Factor::Var(_) => place + 1,
            _ => place,
        };
        proof {
            lemma_rest_step(model.rest, i as int, vars@, first, before, place as int);
        }
        match value {
            Some(value) => {
                rest.push((arithmetic.rest[i].0, value));
            },
            None => {
                is_missing = true;
            },
        }
        i += 1;
    }
    match init {
        Some(init) => {
            if is_missing {
                (None, place)
            } else {
                (try_arithmetic_ints(init, &rest), place)
            }
        },
        None => (None, place),
    }
}

/// One factor more.
proof fn lemma_rest_step(
    rest: Seq<(ArithmeticOperator, FactorModel)>,
    i: int,
    all: Seq<i64>,
    from: int,
    before: int,
    after: int,
)
    requires
        0 <= i < rest.len(),
        0 <= from <= before <= after <= all.len(),
        before == from + rest_vars(rest.take(i)).len(),
        after == before + rest[i].1.vars().len(),
    ensures
        rest_vars(rest.take(i + 1)).len() == after - from,
        rest_over(rest.take(i + 1), all.subrange(from, after)) == (match (
            rest_over(rest.take(i), all.subrange(from, before)),
            factor_over(rest[i].1, all.subrange(before, after)),
        ) {
            (Some(front), Some(value)) => Some(front.push((rest[i].0, value))),
            _ => None,
        }),
{
    let next = rest.take(i + 1);
    assert(next.drop_last() =~= rest.take(i));
    assert(next.last() == rest[i]);
    let values = all.subrange(from, after);
    let m = rest_vars(rest.take(i)).len() as int;
    assert(values.take(m) =~= all.subrange(from, before));
    assert(values.skip(m) =~= all.subrange(before, after));
}

/// One argument more.
proof fn lemma_row_step(
    arguments: Seq<HeadArgModel>,
    i: int,
    all: Seq<i64>,
    before: int,
    after: int,
)
    requires
        0 <= i < arguments.len(),
        0 <= before <= after <= all.len(),
        before == head_vars(arguments.take(i)).len(),
        after == before + arguments[i].vars().len(),
    ensures
        head_vars(arguments.take(i + 1)).len() == after,
        row_over(arguments.take(i + 1), all.take(after)) == (match (
            row_over(arguments.take(i), all.take(before)),
            argument_over(arguments[i], all.subrange(before, after)),
        ) {
            (Some(front), Some(value)) => Some(front.push(value)),
            _ => None,
        }),
{
    let next = arguments.take(i + 1);
    assert(next.drop_last() =~= arguments.take(i));
    assert(next.last() == arguments[i]);
    let values = all.take(after);
    assert(values.take(before) =~= all.take(before));
    assert(values.skip(before) =~= all.subrange(before, after));
}

proof fn lemma_rest_vars_grow(rest: Seq<(ArithmeticOperator, FactorModel)>, i: int)
    requires
        0 <= i <= rest.len(),
    ensures
        rest_vars(rest.take(i)).len() <= rest_vars(rest).len(),
    decreases rest.len() - i,
{
    broadcast use group_take;

    if i < rest.len() {
        lemma_rest_vars_grow(rest, i + 1);
        assert(rest.take(i + 1).drop_last() == rest.take(i));
    } else {
        assert(rest.take(i) =~= rest);
    }
}

proof fn lemma_head_vars_grow(arguments: Seq<HeadArgModel>, i: int)
    requires
        0 <= i <= arguments.len(),
    ensures
        head_vars(arguments.take(i)).len() <= head_vars(arguments).len(),
    decreases arguments.len() - i,
{
    broadcast use group_take;

    if i < arguments.len() {
        lemma_head_vars_grow(arguments, i + 1);
        assert(arguments.take(i + 1).drop_last() == arguments.take(i));
    } else {
        assert(arguments.take(i) =~= arguments);
    }
}

/// The number of variables that an argument needs.
fn count_vars(argument: &HeadArg) -> (count: usize)
    ensures
        count == argument.deep_view().vars().len(),
{
    let vars = argument.vars();
    assert(vars.len() == vars.deep_view().len());
    vars.len()
}

/// The value of an argument whose variables have the values from a place on.
fn argument_at(argument: &HeadArg, vars: &Vec<i64>, at: usize) -> (value: Option<i64>)
    requires
        at + argument.deep_view().vars().len() <= vars@.len(),
    ensures
        value == argument_over(
            argument.deep_view(),
            vars@.subrange(at as int, at + argument.deep_view().vars().len()),
        ),
{
    match argument {
        HeadArg::Var(_) => Some(vars[at]),
        HeadArg::Arith(arithmetic) => arithmetic_at(arithmetic, vars, at).0,
        HeadArg::Aggregation(aggregation) => arithmetic_at(&aggregation.arithmetic, vars, at).0,
    }
}

/// The row that a head stands for, from the values of its variables from left to
/// right.
pub fn head_row(head: &Head, vars: &Vec<i64>) -> (row: Option<Vec<i64>>)
    ensures
        match row {
            Some(row) => head_row_of(head.deep_view(), vars@) == Some(row@),
            None => head_row_of(head.deep_view(), vars@) is None,
        },
{
    let arguments = &head.head_arguments;
    let ghost model = arguments.deep_view();
    let mut row: Vec<i64> = Vec::new();
    let mut is_missing = false;
    let mut place: usize = 0;
    let mut i: usize = 0;
    assert(vars@.take(0) =~= Seq::empty());
    assert(model.take(model.len() as int) =~= model);
    while i < arguments.len()
        invariant
            i <= arguments.len(),
            model == arguments.deep_view(),
            model == head.deep_view().head_arguments,
            place == head_vars(model.take(i as int)).len(),
            place <= vars@.len(),
            match row_over(model.take(i as int), vars@.take(place as int)) {
                Some(found) => !is_missing && row@ == found,
                None => is_missing,
            },
        decreases arguments.len() - i,
    {
        let ghost before = place as int;
        proof {
            assert(model[i as int] == arguments@[i as int].deep_view());
            assert(model.take(i + 1).drop_last() =~= model.take(i as int));
            assert(model.take(i + 1).last() == model[i as int]);
            lemma_head_vars_grow(model, i + 1);
        }
        let count = count_vars(&arguments[i]);
        if count > vars.len() - place {
            return None;
        }
        let value = argument_at(&arguments[i], vars, place);
        place = place + count;
        proof {
            lemma_row_step(model, i as int, vars@, before, place as int);
        }
        match value {
            Some(value) => {
                row.push(value);
            },
            None => {
                is_missing = true;
            },
        }
        i += 1;
    }
    if place != vars.len() || is_missing {
        assert(place == vars.len() ==> vars@.take(place as int) =~= vars@);
        return None;
    }
    assert(vars@.take(place as int) =~= vars@);
    Some(row)
}

proof fn lemma_vals_parts(valuation: Valuation, a: Seq<Seq<char>>, b: Seq<Seq<char>>)
    ensures
        vals(valuation, a + b).take(a.len() as int) == vals(valuation, a),
        vals(valuation, a + b).skip(a.len() as int) == vals(valuation, b),
{
    assert(vals(valuation, a + b).take(a.len() as int) =~= vals(valuation, a));
    assert(vals(valuation, a + b).skip(a.len() as int) =~= vals(valuation, b));
}

proof fn lemma_rest_over(valuation: Valuation, rest: Seq<(ArithmeticOperator, FactorModel)>)
    ensures
        rest_over(rest, vals(valuation, rest_vars(rest))) == valued_rest(valuation, rest),
    decreases rest.len(),
{
    if rest.len() > 0 {
        lemma_rest_over(valuation, rest.drop_last());
        lemma_vals_parts(valuation, rest_vars(rest.drop_last()), rest.last().1.vars());
    }
}

proof fn lemma_argument_over(valuation: Valuation, argument: HeadArgModel)
    ensures
        argument_over(argument, vals(valuation, argument.vars())) == head_value(
            valuation,
            argument,
        ),
{
    match argument {
        HeadArgModel::Var(_) => {},
        HeadArgModel::Arith(arithmetic) => {
            lemma_rest_over(valuation, arithmetic.rest);
            lemma_vals_parts(valuation, arithmetic.init.vars(), rest_vars(arithmetic.rest));
        },
        HeadArgModel::Aggregation(aggregation) => {
            let arithmetic = aggregation.arithmetic;
            lemma_rest_over(valuation, arithmetic.rest);
            lemma_vals_parts(valuation, arithmetic.init.vars(), rest_vars(arithmetic.rest));
        },
    }
}

/// The row that is made from the values of the variables of a head holds the values
/// of the arguments of the head. Where no row is made, an argument has no value.
pub proof fn law_head_row(valuation: Valuation, head: HeadModel, row: Seq<i64>)
    ensures
        head_row_of(head, vals(valuation, head_vars(head.head_arguments))) == Some(row)
            <==> is_head_row(valuation, head.head_arguments, row),
{
    lemma_row_over(valuation, head.head_arguments, row);
}

proof fn lemma_row_over(valuation: Valuation, arguments: Seq<HeadArgModel>, row: Seq<i64>)
    ensures
        row_over(arguments, vals(valuation, head_vars(arguments))) == Some(row) <==> is_head_row(
            valuation,
            arguments,
            row,
        ),
    decreases arguments.len(),
{
    if arguments.len() == 0 {
        if is_head_row(valuation, arguments, row) {
            assert(row =~= Seq::empty());
        }
    } else {
        let front = arguments.drop_last();
        let last = arguments.last();
        let n = front.len() as int;
        assert(arguments[n] == last);
        lemma_vals_parts(valuation, head_vars(front), last.vars());
        lemma_argument_over(valuation, last);
        let values = vals(valuation, head_vars(arguments));
        if row_over(arguments, values) == Some(row) {
            let before = row_over(front, vals(valuation, head_vars(front)))->0;
            lemma_row_over(valuation, front, before);
            assert forall|k: int| 0 <= k < arguments.len() implies head_value(
                valuation,
                #[trigger] arguments[k],
            ) == Some(row[k]) by {
                if k < n {
                    assert(front[k] == arguments[k]);
                }
            }
        }
        if is_head_row(valuation, arguments, row) {
            let before = row.drop_last();
            assert forall|k: int| 0 <= k < front.len() implies head_value(
                valuation,
                #[trigger] front[k],
            ) == Some(before[k]) by {
                assert(front[k] == arguments[k]);
            }
            lemma_row_over(valuation, front, before);
            assert(before.push(row.last()) =~= row);
        }
    }
}

/// The answers of a rule are the rows that its head stands for, on the values that
/// its variables can have.
pub proof fn law_answers_are_head_rows(db: Database, rule: FLRuleModel, row: Seq<i64>)
    ensures
        is_answer(db, rule, row) <==> exists|values: Seq<i64>| #[trigger]
            is_binding(db, rule, values) && head_row_of(rule.head, values) == Some(row),
{
    let vars = head_vars(rule.head.head_arguments);
    if is_answer(db, rule, row) {
        let valuation = choose|valuation: Valuation| #[trigger]
            satisfies(db, rule, valuation) && is_head_row(
                valuation,
                rule.head.head_arguments,
                row,
            );
        law_head_row(valuation, rule.head, row);
        assert(is_binding(db, rule, vals(valuation, vars)));
    }
    if exists|values: Seq<i64>| #[trigger]
        is_binding(db, rule, values) && head_row_of(rule.head, values) == Some(row) {
        let values = choose|values: Seq<i64>| #[trigger]
            is_binding(db, rule, values) && head_row_of(rule.head, values) == Some(row);
        let valuation = choose|valuation: Valuation|
            satisfies(db, rule, valuation) && values == #[trigger] vals(valuation, vars);
        law_head_row(valuation, rule.head, row);
        assert(satisfies(db, rule, valuation));
    }
}

/// Where a head has variables only, the row is the values of the variables.
pub proof fn lemma_plain_row(vars: Seq<Seq<char>>, values: Seq<i64>)
    requires
        values.len() == vars.len(),
    ensures
        head_vars(vars.map_values(|v: Seq<char>| HeadArgModel::Var(v))) == vars,
        row_over(vars.map_values(|v: Seq<char>| HeadArgModel::Var(v)), values) == Some(values),
    decreases vars.len(),
{
    let f = |v: Seq<char>| HeadArgModel::Var(v);
    let arguments = vars.map_values(f);
    if vars.len() > 0 {
        let n = vars.len() - 1;
        lemma_plain_row(vars.drop_last(), values.drop_last());
        assert(arguments.drop_last() =~= vars.drop_last().map_values(f));
        assert(arguments.last() == HeadArgModel::Var(vars.last()));
        assert(head_vars(arguments) =~= vars);
        assert(values.take(n) =~= values.drop_last());
        assert(values.drop_last().push(values.skip(n)[0]) =~= values);
    } else {
        assert(arguments.len() == 0);
        assert(head_vars(arguments) =~= vars);
        assert(values =~= Seq::empty());
    }
}

} // verus!
