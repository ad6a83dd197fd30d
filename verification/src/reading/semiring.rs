//! Differences that keep the least of all values.
use vstd::prelude::*;

verus! {

/// A value under which addition keeps the lesser one.
#[derive(Debug, Clone, Copy, Hash, PartialEq, Eq, PartialOrd, Ord, Structural)]
pub struct Min {
    pub value: u32,
}

/// The sum of two values: the lesser one.
pub open spec fn least(a: Min, b: Min) -> Min {
    if a.value <= b.value {
        a
    } else {
        b
    }
}

impl Min {
    pub fn new(value: u32) -> (min: Self)
        ensures
            min.value == value,
    {
        Min { value }
    }

    /// The value that changes no sum.
    pub fn infinity() -> (min: Self)
        ensures
            min.value == u32::MAX,
    {
        Min { value: u32::MAX }
    }

    pub fn is_infinity(&self) -> (answer: bool)
        ensures
            answer == (self.value == u32::MAX),
    {
        self.value == u32::MAX
    }

    /// Whether this changes no sum.
    pub fn is_zero(&self) -> (answer: bool)
        ensures
            answer == (self.value == u32::MAX),
    {
        self.is_infinity()
    }

    pub fn plus_equals(&mut self, rhs: &Self)
        ensures
            *final(self) == least(*old(self), *rhs),
    {
        if rhs.value < self.value {
            self.value = rhs.value;
        }
    }

    pub fn zero() -> (min: Self)
        ensures
            min.value == u32::MAX,
    {
        Min::infinity()
    }

    /// A value that is counted several times is the same value.
    pub fn multiply(self, _rhs: &i64) -> (min: Self)
        ensures
            min == self,
    {
        self
    }
}

impl From<u32> for Min {
    fn from(value: u32) -> (min: Self) {
        Min { value }
    }
}

impl vstd::std_specs::convert::FromSpecImpl<u32> for Min {
    open spec fn obeys_from_spec() -> bool {
        true
    }

    open spec fn from_spec(value: u32) -> Self {
        Min { value }
    }
}

/// Addition gives the lesser one. It does not depend on order or on repetition, and
/// infinity changes nothing.
pub proof fn law_min_is_a_semilattice(a: Min, b: Min, c: Min)
    ensures
        least(a, b) == least(b, a),
        least(a, least(b, c)) == least(least(a, b), c),
        least(a, a) == a,
        least(a, b).value <= a.value,
        least(a, b) == a || least(a, b) == b,
        least(a, (Min { value: u32::MAX })) == a,
{
}

} // verus!
