//! The times of a stream of updates.
use vstd::prelude::*;
use crate::text::nat_text;

verus! {

/// A number of updates taken in.
#[derive(Debug, Clone, Copy, Hash, PartialEq, Eq, Structural)]
pub struct Epoch(pub u64);

/// The sum of two times, if it can be counted.
pub open spec fn later_by(time: Epoch, by: Epoch) -> Option<Epoch> {
    if time.0 + by.0 <= u64::MAX {
        Some(Epoch((time.0 + by.0) as u64))
    } else {
        None
    }
}

/// The later one of two times.
pub open spec fn later(a: Epoch, b: Epoch) -> Epoch {
    if a.0 >= b.0 {
        a
    } else {
        b
    }
}

/// The earlier one of two times.
pub open spec fn earlier(a: Epoch, b: Epoch) -> Epoch {
    if a.0 <= b.0 {
        a
    } else {
        b
    }
}

impl Default for Epoch {
    fn default() -> (epoch: Epoch)
        ensures
            epoch == Epoch(0),
    {
        Epoch(0)
    }
}

impl Epoch {
    pub fn less_than(&self, other: &Epoch) -> (answer: bool)
        ensures
            answer == (self.0 < other.0),
    {
        self.0 < other.0
    }

    pub fn less_equal(&self, other: &Epoch) -> (answer: bool)
        ensures
            answer == (self.0 <= other.0),
    {
        self.0 <= other.0
    }

    /// The first time.
    pub fn minimum() -> (epoch: Epoch)
        ensures
            epoch == Epoch(0),
    {
        Epoch(u64::MIN)
    }

    /// The time at which something arrives that starts at `src` and takes this long.
    pub fn results_in(&self, src: &Epoch) -> (epoch: Option<Epoch>)
        ensures
            epoch == later_by(*src, *self),
    {
        match self.0.checked_add(src.0) {
            Some(sum) => Some(Epoch(sum)),
            None => None,
        }
    }

    /// How long one way after the other takes.
    pub fn followed_by(&self, other: &Epoch) -> (epoch: Option<Epoch>)
        ensures
            epoch == later_by(*self, *other),
    {
        match self.0.checked_add(other.0) {
            Some(sum) => Some(Epoch(sum)),
            None => None,
        }
    }

    /// The later one of two times.
    pub fn join(&self, other: &Epoch) -> (epoch: Epoch)
        ensures
            epoch == later(*self, *other),
    {
        if self.0 >= other.0 {
            *self
        } else {
            *other
        }
    }

    /// The earlier one of two times.
    pub fn meet(&self, other: &Epoch) -> (epoch: Epoch)
        ensures
            epoch == earlier(*self, *other),
    {
        if self.0 <= other.0 {
            *self
        } else {
            *other
        }
    }

    pub fn to_string(&self) -> (out: String)
        ensures
            out@ == nat_text(self.0 as nat),
    {
        crate::text::u64_to_text(self.0)
    }
}

/// The later and the earlier one of two times are one of them each, and form a lattice.
pub proof fn law_epochs_form_a_lattice(a: Epoch, b: Epoch, c: Epoch)
    ensures
        later(a, b) == later(b, a),
        earlier(a, b) == earlier(b, a),
        later(a, later(b, c)) == later(later(a, b), c),
        earlier(a, earlier(b, c)) == earlier(earlier(a, b), c),
        later(a, earlier(a, b)) == a,
        earlier(a, later(a, b)) == a,
        later(Epoch(0), a) == a,
        earlier(a, b).0 <= a.0 <= later(a, b).0,
        later(a, b) == a || later(a, b) == b,
        earlier(a, b) == a || earlier(a, b) == b,
{
}

/// Following one way after another takes as long in whichever way it is
/// counted, and taking off the delay gives the time again.
pub proof fn law_delays_add_up(a: Epoch, b: Epoch, c: Epoch)
    ensures
        later_by(a, b) == later_by(b, a),
        (match later_by(a, b) {
            Some(ab) => later_by(ab, c),
            None => None,
        }) == (match later_by(b, c) {
            Some(bc) => later_by(a, bc),
            None => None,
        }),
        later_by(a, Epoch(0)) == Some(a),
        later_by(a, b) == Some(c) <==> c.0 - b.0 == a.0,
        later_by(a, b) is None <==> a.0 > u64::MAX - b.0,
{
}

} // verus!
