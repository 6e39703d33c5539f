//! The times of signatures and their order.

use std::cmp::Ordering;
use vstd::prelude::*;

verus! {

/// The time of a signature: the seconds since the epoch, and the offset of
/// the time zone of the signer from universal time, in minutes.
#[derive(Clone, Copy, Debug, PartialEq, Eq, Structural)]
pub struct Time {
    pub seconds: i64,
    pub offset: i32,
}

/// How one time stands to another.
#[derive(Clone, Copy, Debug, PartialEq, Eq, Structural)]
pub enum TimeOrder {
    Before,
    Same,
    After,
}

/// How the time `a` stands to the time `b` in the order of the object
/// store: the seconds decide, and between times of the same second the
/// offsets.
pub open spec fn time_order(a: Time, b: Time) -> TimeOrder {
    if a.seconds < b.seconds || (a.seconds == b.seconds && a.offset < b.offset) {
        TimeOrder::Before
    } else if a.seconds == b.seconds && a.offset == b.offset {
        TimeOrder::Same
    } else {
        TimeOrder::After
    }
}

/// Whether the time `a` is not older than the time `b`.
pub open spec fn not_before(a: Time, b: Time) -> bool {
    time_order(a, b) != TimeOrder::Before
}

/// Compares two times as the object store does. This is `git2::Time::cmp`
/// on the times that `git2::Time::new` makes of the seconds and offsets; it
/// compares the seconds first and the offsets where the seconds are equal.
#[verifier::external_body]
pub(crate) fn compare_times(a: Time, b: Time) -> (r: TimeOrder)
    ensures
        r == time_order(a, b),
{
    match git2::Time::new(a.seconds, a.offset).cmp(&git2::Time::new(b.seconds, b.offset)) {
        Ordering::Less => TimeOrder::Before,
        Ordering::Equal => TimeOrder::Same,
        Ordering::Greater => TimeOrder::After,
    }
}

impl Time {
    /// Whether this time is not older than `other`.
    pub fn is_not_before(self, other: Time) -> (r: bool)
        ensures
            r == not_before(self, other),
    {
        compare_times(self, other) != TimeOrder::Before
    }
}

} // verus!
