//! Instants as whole seconds since the Unix epoch plus the nanoseconds within
//! that second, ordered as the calendar orders them.

use vstd::prelude::*;

verus! {

/// An instant: `secs` whole seconds since 1970-01-01T00:00:00Z and `nanos`
/// further nanoseconds (a leap second carries `nanos` of 1e9 or more).
#[derive(Debug, Clone, Copy, PartialEq, Eq)]
pub struct Timestamp {
    pub secs: i64,
    pub nanos: u32,
}

/// `a` is at or before `b`.
pub open spec fn ts_le(a: Timestamp, b: Timestamp) -> bool {
    a.secs < b.secs || (a.secs == b.secs && a.nanos <= b.nanos)
}

impl Timestamp {
    /// Whether `self` is at or before `other`.
    pub fn at_or_before(&self, other: &Timestamp) -> (r: bool)
        ensures
            r == ts_le(*self, *other),
    {
        self.secs < other.secs || (self.secs == other.secs && self.nanos <= other.nanos)
    }
}

/// Instants are ordered by their seconds and, within a second, by their
/// nanoseconds: the order is total and two instants ordered both ways are equal.
pub proof fn lemma_ts_le_orders_by_secs_then_nanos(a: Timestamp, b: Timestamp)
    ensures
        a.secs < b.secs ==> ts_le(a, b) && !ts_le(b, a),
        a.secs == b.secs ==> (ts_le(a, b) <==> a.nanos <= b.nanos),
        ts_le(a, b) || ts_le(b, a),
        ts_le(a, b) && ts_le(b, a) ==> a == b,
{
}

/// The order is transitive.
pub proof fn lemma_ts_le_transitive(a: Timestamp, b: Timestamp, c: Timestamp)
    requires
        ts_le(a, b),
        ts_le(b, c),
    ensures
        ts_le(a, c),
{
}

} // verus!
