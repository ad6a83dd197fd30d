//! Aggregating the values of a group.
use vstd::multiset::Multiset;
use vstd::prelude::*;
use crate::lists::group_take;
use crate::parsing::aggregation::AggregationOperator;
use crate::reading::row::{append_columns, Array};

verus! {

/// The sum of some values.
pub open spec fn sum(values: Seq<i64>) -> int
    decreases values.len(),
{
    if values.len() == 0 {
        0
    } else {
        sum(values.drop_last()) + values.last()
    }
}

/// The least of some values, if there is one.
pub open spec fn lowest(values: Seq<i64>) -> Option<i64>
    decreases values.len(),
{
    if values.len() == 0 {
        None
    } else {
        match lowest(values.drop_last()) {
            Some(low) if low <= values.last() => Some(low),
            _ => Some(values.last()),
        }
    }
}

/// The greatest of some values, if there is one.
pub open spec fn highest(values: Seq<i64>) -> Option<i64>
    decreases values.len(),
{
    if values.len() == 0 {
        None
    } else {
        match highest(values.drop_last()) {
            Some(high) if high > values.last() => Some(high),
            _ => Some(values.last()),
        }
    }
}

/// What an aggregation makes of some values. A sum that is no 64 bit integer is
/// cut down to one.
pub open spec fn aggregate(values: Seq<i64>, op: AggregationOperator) -> Option<i64> {
    match op {
        AggregationOperator::Count => Some(values.len() as i64),
        AggregationOperator::Sum => Some(sum(values) as i64),
        AggregationOperator::Min => lowest(values),
        AggregationOperator::Max => highest(values),
    }
}

proof fn lemma_sum_bound(values: Seq<i64>)
    ensures
        -0x8000_0000_0000_0000 * values.len() <= sum(values) <= 0x7fff_ffff_ffff_ffff
            * values.len(),
    decreases values.len(),
{
    if values.len() > 0 {
        lemma_sum_bound(values.drop_last());
    }
}

/// Aggregates some values.
pub fn aggregate_ints(input: &Vec<i64>, op: &AggregationOperator) -> (result: Option<i64>)
    ensures
        result == aggregate(input@, *op),
{
    broadcast use group_take;

    match op {
        AggregationOperator::Count => Some(
            #[verifier::truncate]
            (input.len() as i64),
        ),
        AggregationOperator::Sum => {
            let mut wide: i128 = 0;
            let mut i: usize = 0;
            while i < input.len()
                invariant
                    i <= input.len(),
                    wide == sum(input@.take(i as int)),
                decreases input.len() - i,
            {
                assert(input@.take(i + 1).drop_last() == input@.take(i as int));
                proof {
                    lemma_sum_bound(input@.take(i + 1));
                }
                wide += input[i] as i128;
                i += 1;
            }
            Some(
                #[verifier::truncate]
                (wide as i64),
            )
        },
        AggregationOperator::Min => {
            let mut low: Option<i64> = None;
            let mut i: usize = 0;
            while i < input.len()
                invariant
                    i <= input.len(),
                    low == lowest(input@.take(i as int)),
                decreases input.len() - i,
            {
                assert(input@.take(i + 1).drop_last() == input@.take(i as int));
                low =
                match low {
                    Some(value) if value <= input[i] => Some(value),
                    _ => Some(input[i]),
                };
                i += 1;
            }
            low
        },
        AggregationOperator::Max => {
            let mut high: Option<i64> = None;
            let mut i: usize = 0;
            while i < input.len()
                invariant
                    i <= input.len(),
                    high == highest(input@.take(i as int)),
                decreases input.len() - i,
            {
                assert(input@.take(i + 1).drop_last() == input@.take(i as int));
                high =
                match high {
                    Some(value) if value > input[i] => Some(value),
                    _ => Some(input[i]),
                };
                i += 1;
            }
            high
        },
    }
}

/// The least value is among the values and not greater than any; the greatest is
/// among them and not less than any. They exist exactly if there are values.
pub proof fn law_extremes(values: Seq<i64>)
    ensures
        lowest(values) is Some <==> values.len() > 0,
        highest(values) is Some <==> values.len() > 0,
        lowest(values) matches Some(low) ==> values.contains(low) && forall|i: int|
            0 <= i < values.len() ==> low <= #[trigger] values[i],
        highest(values) matches Some(high) ==> values.contains(high) && forall|i: int|
            0 <= i < values.len() ==> high >= #[trigger] values[i],
    decreases values.len(),
{
    if values.len() > 0 {
        let front = values.drop_last();
        law_extremes(front);
        let n = values.len() - 1;
        assert forall|i: int| 0 <= i < values.len() implies lowest(values)->0
            <= #[trigger] values[i] by {
            if i < n {
                assert(front[i] == values[i]);
            }
        }
        assert forall|i: int| 0 <= i < values.len() implies highest(values)->0
            >= #[trigger] values[i] by {
            if i < n {
                assert(front[i] == values[i]);
            }
        }
        if lowest(front) is Some {
            let k = choose|k: int| 0 <= k < front.len() && front[k] == lowest(front)->0;
            assert(values[k] == front[k]);
        }
        if highest(front) is Some {
            let k = choose|k: int| 0 <= k < front.len() && front[k] == highest(front)->0;
            assert(values[k] == front[k]);
        }
        assert(values[n] == values.last());
    }
}

/// The count of values goes up by one with each value, from zero of none.
pub proof fn law_counts_go_up_by_one(values: Seq<i64>, value: i64)
    requires
        values.len() < i64::MAX,
    ensures
        aggregate(Seq::empty(), AggregationOperator::Count) == Some(0i64),
        aggregate(values, AggregationOperator::Count) matches Some(before) && aggregate(
            values.push(value),
            AggregationOperator::Count,
        ) matches Some(after) && after == before + 1,
{
}

/// The least of some values is one of them, and none is less. The greatest is one of
/// them, and none is greater. Only of no values there is neither.
pub proof fn law_least_and_greatest(values: Seq<i64>)
    ensures
        aggregate(values, AggregationOperator::Min) is None <==> values.len() == 0,
        aggregate(values, AggregationOperator::Max) is None <==> values.len() == 0,
        aggregate(values, AggregationOperator::Min) matches Some(low) ==> values.contains(low)
            && forall|i: int| 0 <= i < values.len() ==> low <= #[trigger] values[i],
        aggregate(values, AggregationOperator::Max) matches Some(high) ==> values.contains(high)
            && forall|i: int| 0 <= i < values.len() ==> high >= #[trigger] values[i],
{
    law_extremes(values);
}

/// Cutting a number down to 64 bits changes it by a multiple of their range, so that it
/// does not matter whether a summand is added before or after.
proof fn lemma_cut_down(whole: i128, value: i64)
    requires
        -0x4000_0000_0000_0000_0000_0000_0000_0000 <= whole,
        whole <= 0x4000_0000_0000_0000_0000_0000_0000_0000,
    ensures
        ({
            let before = (whole as i64) as int;
            let after = ((whole + value) as i64) as int;
            after == before + value || after == before + value - 0x1_0000_0000_0000_0000 || after
                == before + value + 0x1_0000_0000_0000_0000
        }),
{
    let more: i128 = (whole + value) as i128;
    assert({
        let before = (whole as i64) as i128;
        let after = (more as i64) as i128;
        let wide = value as i128;
        after == before + wide || after == before + wide - 0x1_0000_0000_0000_0000i128 || after
            == before + wide + 0x1_0000_0000_0000_0000i128
    }) by (bit_vector)
        requires
            more == whole + value,
    ;
}

/// The sum of values goes up by the value with each value, from zero of none. Where it
/// leaves the range of 64 bit integers it comes in again at the other end.
pub proof fn law_sums_go_up_by_the_value(values: Seq<i64>, value: i64)
    requires
        values.len() < i64::MAX,
    ensures
        aggregate(Seq::empty(), AggregationOperator::Sum) == Some(0i64),
        aggregate(values, AggregationOperator::Sum) matches Some(before) && aggregate(
            values.push(value),
            AggregationOperator::Sum,
        ) matches Some(after) && (after == before + value || after == before + value
            - 0x1_0000_0000_0000_0000 || after == before + value + 0x1_0000_0000_0000_0000),
{
    assert(values.push(value).drop_last() =~= values);
    lemma_sum_bound(values);
    lemma_cut_down(sum(values) as i128, value);
}

/// An aggregation of a single value: one for the count, else the value.
pub proof fn law_aggregate_one(value: i64)
    ensures
        aggregate(seq![value], AggregationOperator::Count) == Some(1i64),
        aggregate(seq![value], AggregationOperator::Sum) == Some(value),
        aggregate(seq![value], AggregationOperator::Min) == Some(value),
        aggregate(seq![value], AggregationOperator::Max) == Some(value),
{
    let one = seq![value];
    assert(one.drop_last() =~= Seq::empty());
    assert(sum(one.drop_last()) == 0);
    assert(lowest(one.drop_last()) is None);
    assert(highest(one.drop_last()) is None);
}

proof fn lemma_sum_remove(values: Seq<i64>, k: int)
    requires
        0 <= k < values.len(),
    ensures
        sum(values) == sum(values.remove(k)) + values[k],
    decreases values.len(),
{
    if k == values.len() - 1 {
        assert(values.remove(k) =~= values.drop_last());
    } else {
        let front = values.drop_last();
        lemma_sum_remove(front, k);
        assert(values.remove(k).drop_last() =~= front.remove(k));
        assert(values.remove(k).last() == values.last());
    }
}

proof fn lemma_sum_same(a: Seq<i64>, b: Seq<i64>)
    requires
        a.to_multiset() == b.to_multiset(),
    ensures
        sum(a) == sum(b),
        a.len() == b.len(),
    decreases a.len(),
{
    a.to_multiset_ensures();
    b.to_multiset_ensures();
    if a.len() > 0 {
        let x = a.last();
        let n = a.len() - 1;
        assert(a[n] == x);
        assert(a.to_multiset().count(x) > 0) by {
            assert(a.contains(x));
        }
        assert(b.contains(x));
        let k = choose|k: int| 0 <= k < b.len() && b[k] == x;
        lemma_sum_remove(b, k);
        assert(a.drop_last() =~= a.remove(n));
        assert(a.remove(n).to_multiset() =~= a.to_multiset().remove(x));
        assert(b.remove(k).to_multiset() =~= b.to_multiset().remove(x));
        lemma_sum_same(a.drop_last(), b.remove(k));
    }
}

/// What an aggregation makes of values does not depend on their order.
pub proof fn law_order_does_not_matter(a: Seq<i64>, b: Seq<i64>, op: AggregationOperator)
    requires
        a.to_multiset() == b.to_multiset(),
    ensures
        aggregate(a, op) == aggregate(b, op),
{
    a.to_multiset_ensures();
    b.to_multiset_ensures();
    lemma_sum_same(a, b);
    law_extremes(a);
    law_extremes(b);
    assert forall|x: i64| a.contains(x) == b.contains(x) by {
        assert(a.contains(x) <==> a.to_multiset().count(x) > 0);
        assert(b.contains(x) <==> b.to_multiset().count(x) > 0);
    }
    if a.len() > 0 {
        let low_a = lowest(a)->0;
        let low_b = lowest(b)->0;
        let i = choose|i: int| 0 <= i < b.len() && b[i] == low_a;
        assert(b.contains(low_a));
        let j = choose|j: int| 0 <= j < a.len() && a[j] == low_b;
        assert(a.contains(low_b));
        assert(low_b <= b[i]);
        assert(low_a <= a[j]);
        let high_a = highest(a)->0;
        let high_b = highest(b)->0;
        let i = choose|i: int| 0 <= i < b.len() && b[i] == high_a;
        assert(b.contains(high_a));
        let j = choose|j: int| 0 <= j < a.len() && a[j] == high_b;
        assert(a.contains(high_b));
        assert(high_b >= b[i]);
        assert(high_a >= a[j]);
    }
}

/// The first values of rows.
pub open spec fn first_values<A: Array>(rows: Seq<A>) -> Seq<i64> {
    Seq::new(rows.len(), |i: int| rows[i].columns()[0])
}

/// Each row of a group gives the one value that it holds, in the order of the rows.
pub proof fn law_rows_give_their_values<A: Array>(rows: Seq<A>, row: A)
    ensures
        first_values(Seq::<A>::empty()) == Seq::<i64>::empty(),
        row.columns().len() == 1 ==> first_values(rows.push(row)) == first_values(rows)
            + row.columns(),
{
    assert(first_values(Seq::<A>::empty()) =~= Seq::empty());
    if row.columns().len() == 1 {
        assert(first_values(rows.push(row)) =~= first_values(rows) + row.columns());
    }
}

/// What an aggregation makes of the rows of a group, as a row of one value.
pub fn aggregation_reduce_logic<A: Array>(operator: &AggregationOperator, input: &Vec<A>) -> (out:
    Option<A>)
    requires
        A::limit() >= 1,
        forall|i: int| 0 <= i < input@.len() ==> (#[trigger] input@[i]).columns().len() > 0,
    ensures
        match out {
            Some(row) => row.columns().len() == 1 && aggregate(first_values(input@), *operator)
                == Some(row.columns()[0]),
            None => aggregate(first_values(input@), *operator) is None,
        },
{
    let mut values: Vec<i64> = Vec::new();
    let mut i: usize = 0;
    while i < input.len()
        invariant
            i <= input.len(),
            forall|i: int| 0 <= i < input@.len() ==> (#[trigger] input@[i]).columns().len() > 0,
            values.len() == i,
            forall|k: int| 0 <= k < i ==> #[trigger] values@[k] == input@[k].columns()[0],
        decreases input.len() - i,
    {
        assert(input@[i as int].columns().len() > 0);
        values.push(input[i].column(0));
        i += 1;
    }
    assert(values@ =~= first_values(input@));
    match aggregate_ints(&values, operator) {
        Some(result) => {
            let mut row = A::empty_row();
            row.push(result);
            Some(row)
        },
        None => None,
    }
}

/// Puts the value of an aggregation behind the key of its group.
pub fn aggregation_merge_kv<A: Array>(key: &A, value: &A) -> (row: A)
    requires
        key.columns().len() < A::limit(),
        value.columns().len() > 0,
    ensures
        row.columns() == key.columns().push(value.columns()[0]),
{
    let mut row = A::empty_row();
    let arity: usize = key.arity();
    append_columns(&mut row, key, 0, arity);
    assert(row.columns() =~= key.columns());
    row.push(value.column(0));
    row
}

/// Cuts a row into the key of its group and the value to be aggregated, which
/// stands last.
pub fn aggregation_separate_kv<A: Array>(row: &A) -> (parts: (A, A))
    requires
        0 < row.columns().len() <= A::limit(),
    ensures
        parts.0.columns() == row.columns().drop_last(),
        parts.1.columns() == seq![row.columns().last()],
{
    let arity: usize = row.arity();
    let mut key = A::empty_row();
    append_columns(&mut key, row, 0, arity - 1);
    assert(key.columns() =~= row.columns().drop_last());
    let mut value = A::empty_row();
    value.push(row.column(arity - 1));
    assert(value.columns() =~= seq![row.columns().last()]);
    (key, value)
}

/// Cutting a row and putting it together again gives the row.
pub proof fn law_separate_and_merge(row: Seq<i64>)
    requires
        row.len() > 0,
    ensures
        row.drop_last().push(seq![row.last()][0]) == row,
{
    assert(row.drop_last().push(row.last()) =~= row);
}

} // verus!
