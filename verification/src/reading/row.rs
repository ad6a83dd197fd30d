//! Rows of values.
use arrayvec::ArrayVec;
use vstd::prelude::*;
use vstd::string::*;
use crate::text::{int_text, i64_to_text, join, join_text};

verus! {

/// A sequence of values that can be filled up to a limit.
pub trait Array: Sized {
    /// The values, in order.
    spec fn columns(&self) -> Seq<i64>;

    /// How many values a row can hold.
    spec fn limit() -> nat;

    /// A row without values.
    fn empty_row() -> (row: Self)
        ensures
            row.columns() == Seq::<i64>::empty(),
    ;

    /// Puts a value behind the others.
    fn push(&mut self, v: i64)
        requires
            old(self).columns().len() < Self::limit(),
        ensures
            final(self).columns() == old(self).columns().push(v),
    ;

    /// The number of values.
    fn arity(&self) -> (arity: usize)
        ensures
            arity == self.columns().len(),
    ;

    /// The value at a place.
    fn column(&self, id: usize) -> (value: i64)
        requires
            id < self.columns().len(),
        ensures
            value == self.columns()[id as int],
    ;
}

/// `arrayvec::ArrayVec`: a vector held in place, with a fixed capacity.
#[verifier::external_type_specification]
#[verifier::external_body]
#[verifier::reject_recursive_types(T)]
pub struct ExArrayVec<T, const CAP: usize>(ArrayVec<T, CAP>);

/// The values that an `ArrayVec` holds, in order.
pub uninterp spec fn stored(values: ArrayVec<i64, 8>) -> Seq<i64>;

/// `ArrayVec::new`: an `ArrayVec` without values.
#[verifier::external_body]
fn stored_none() -> (values: ArrayVec<i64, 8>)
    ensures
        stored(values) == Seq::<i64>::empty(),
{
    ArrayVec::new()
}

/// `ArrayVec::push`: puts a value behind the others. It panics where there is no
/// room, so there has to be some.
#[verifier::external_body]
fn stored_push(values: &mut ArrayVec<i64, 8>, value: i64)
    requires
        stored(*old(values)).len() < 8,
    ensures
        stored(*final(values)) == stored(*old(values)).push(value),
{
    values.push(value)
}

/// `ArrayVec::len`: the number of values.
#[verifier::external_body]
fn stored_len(values: &ArrayVec<i64, 8>) -> (len: usize)
    ensures
        len == stored(*values).len(),
        len <= 8,
{
    values.len()
}

/// `ArrayVec::as_slice`: the values as a slice, in order.
#[verifier::external_body]
fn stored_slice(values: &ArrayVec<i64, 8>) -> (slice: &[i64])
    ensures
        slice@ == stored(*values),
{
    values.as_slice()
}

/// A row of fixed size, held in place.
#[derive(Debug, Hash, PartialOrd, Ord, PartialEq, Eq)]
pub struct Row {
    pub values: ArrayVec<i64, 8>,
}

impl Row {
    pub fn new() -> (row: Self)
        ensures
            row.columns() == Seq::<i64>::empty(),
    {
        Row { values: stored_none() }
    }
}

impl Array for Row {
    open spec fn columns(&self) -> Seq<i64> {
        stored(self.values)
    }

    open spec fn limit() -> nat {
        8
    }

    fn empty_row() -> (row: Self) {
        Row::new()
    }

    fn push(&mut self, v: i64) {
        stored_push(&mut self.values, v);
    }

    fn arity(&self) -> (arity: usize) {
        stored_len(&self.values)
    }

    fn column(&self, id: usize) -> (value: i64) {
        stored_slice(&self.values)[id]
    }
}

impl Clone for Row {
    fn clone(&self) -> (copy: Self)
        ensures
            copy.columns() == self.columns(),
    {
        let mut copy = Row::new();
        let len: usize = stored_len(&self.values);
        append_columns(&mut copy, self, 0, len);
        assert(copy.columns() =~= self.columns());
        copy
    }
}

/// A row of any size, held on the heap.
#[derive(Debug, Hash, PartialOrd, Ord, PartialEq, Eq)]
pub struct FatRow {
    pub values: Vec<i64>,
}

impl FatRow {
    pub fn new() -> (row: Self)
        ensures
            row.columns() == Seq::<i64>::empty(),
    {
        FatRow { values: Vec::new() }
    }
}

impl Array for FatRow {
    open spec fn columns(&self) -> Seq<i64> {
        self.values@
    }

    open spec fn limit() -> nat {
        usize::MAX as nat
    }

    fn empty_row() -> (row: Self) {
        FatRow::new()
    }

    fn push(&mut self, v: i64) {
        self.values.push(v);
    }

    fn arity(&self) -> (arity: usize) {
        self.values.len()
    }

    fn column(&self, id: usize) -> (value: i64) {
        self.values[id]
    }
}

impl Clone for FatRow {
    fn clone(&self) -> (copy: Self)
        ensures
            copy.columns() == self.columns(),
    {
        let mut copy = FatRow::new();
        let len: usize = self.arity();
        append_columns(&mut copy, self, 0, len);
        assert(copy.columns() =~= self.columns());
        copy
    }
}

/// Values written one after the other.
pub open spec fn row_text(columns: Seq<i64>) -> Seq<char> {
    join_text(Seq::new(columns.len(), |i: int| int_text(columns[i] as int)), ", "@)
}

/// A row written out.
pub fn row_to_string<A: Array>(row: &A) -> (out: String)
    ensures
        out@ == row_text(row.columns()),
{
    let ghost columns = row.columns();
    let len: usize = row.arity();
    let mut texts: Vec<String> = Vec::new();
    let mut i: usize = 0;
    while i < len
        invariant
            i <= len,
            columns == row.columns(),
            len == columns.len(),
            texts.len() == i,
            forall|k: int| 0 <= k < i ==> (#[trigger] texts@[k])@ == int_text(columns[k] as int),
        decreases len - i,
    {
        texts.push(i64_to_text(row.column(i)));
        i += 1;
    }
    assert(texts.deep_view() =~= Seq::new(columns.len(), |i: int| int_text(columns[i] as int)));
    join(&texts, ", ")
}

/// Puts some columns of a row behind those of another.
pub fn append_columns<A: Array>(out: &mut A, row: &A, from: usize, upto: usize)
    requires
        from <= upto <= row.columns().len(),
        old(out).columns().len() + (upto - from) <= A::limit(),
    ensures
        final(out).columns() == old(out).columns() + row.columns().subrange(
            from as int,
            upto as int,
        ),
{
    let ghost before = out.columns();
    let ghost all = row.columns();
    assert(before + all.subrange(from as int, from as int) =~= before);
    let mut i: usize = from;
    while i < upto
        invariant
            from <= i <= upto <= all.len(),
            all == row.columns(),
            before.len() + (upto - from) <= A::limit(),
            out.columns() == before + all.subrange(from as int, i as int),
        decreases upto - i,
    {
        out.push(row.column(i));
        assert(all.subrange(from as int, i + 1) =~= all.subrange(from as int, i as int).push(
            all[i as int],
        ));
        assert((before + all.subrange(from as int, i as int)).push(all[i as int]) =~= before
            + all.subrange(from as int, i + 1));
        i += 1;
    }
}

/// Cuts a row into its first `k_arity` columns and the rest.
pub fn row_chop<A: Array>(row: &A, k_arity: usize) -> (parts: (A, A))
    requires
        k_arity <= row.columns().len() <= A::limit(),
    ensures
        parts.0.columns() == row.columns().take(k_arity as int),
        parts.1.columns() == row.columns().skip(k_arity as int),
        parts.0.columns() + parts.1.columns() == row.columns(),
{
    let mut key = A::empty_row();
    let mut value = A::empty_row();
    let len: usize = row.arity();
    append_columns(&mut key, row, 0, k_arity);
    append_columns(&mut value, row, k_arity, len);
    assert(key.columns() =~= row.columns().take(k_arity as int));
    assert(value.columns() =~= row.columns().skip(k_arity as int));
    assert(key.columns() + value.columns() =~= row.columns());
    (key, value)
}

} // verus!
