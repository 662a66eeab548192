//! A point in time, as the caller's clock reports it: whole seconds paired
//! with a millisecond count. Ordering is lexicographic on the two fields.

use vstd::prelude::*;

verus! {

/// A totally ordered point in time supplied by the caller's environment.
#[derive(Clone, Copy, PartialEq, Eq, Structural, Debug, Hash)]
pub struct Timestamp {
    pub seconds: i64,
    pub milliseconds: i16,
}

impl Timestamp {
    /// `self` comes strictly before `other`.
    pub open spec fn lt_spec(self, other: Timestamp) -> bool {
        self.seconds < other.seconds || (self.seconds == other.seconds
            && self.milliseconds < other.milliseconds)
    }

    /// `self` comes no later than `other`.
    pub open spec fn le_spec(self, other: Timestamp) -> bool {
        self.seconds < other.seconds || (self.seconds == other.seconds
            && self.milliseconds <= other.milliseconds)
    }

    pub fn new(seconds: i64, milliseconds: i16) -> (r: Timestamp)
        ensures
            r == (Timestamp { seconds, milliseconds }),
    {
        Timestamp { seconds, milliseconds }
    }

    /// Does `self` come strictly before `other`?
    pub fn lt(&self, other: &Timestamp) -> (r: bool)
        ensures
            r == self.lt_spec(*other),
    {
        self.seconds < other.seconds || (self.seconds == other.seconds
            && self.milliseconds < other.milliseconds)
    }

    /// Does `self` come no later than `other`?
    pub fn le(&self, other: &Timestamp) -> (r: bool)
        ensures
            r == self.le_spec(*other),
    {
        self.seconds < other.seconds || (self.seconds == other.seconds
            && self.milliseconds <= other.milliseconds)
    }
}

} // verus!
