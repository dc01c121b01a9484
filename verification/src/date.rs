//! Calendar dates as plain values.
//!
//! The usage counters remember the day of the last successful save.
//! The surrounding binary obtains today's date from its clock and hands
//! it in as a `Date`; the library only needs to compare dates and to
//! write them in the `YYYY-MM-DD` form used by the records on disk.

use vstd::prelude::*;

verus! {

/// A calendar date, held as plain year, month and day numbers.
#[derive(Clone, Copy, PartialEq, Eq, Structural, Debug)]
pub struct Date {
    pub year: u32,
    pub month: u32,
    pub day: u32,
}

impl Date {
    /// A date the records can hold: a four-digit year and plausible
    /// month and day numbers (calendar-exact day counts per month are
    /// not this library's concern; the caller's clock supplies real
    /// dates).
    pub open spec fn well_formed(self) -> bool {
        self.year <= 9999 && 1 <= self.month <= 12 && 1 <= self.day <= 31
    }

    /// `self` is strictly earlier than `other`, by year, then month,
    /// then day.
    pub open spec fn before_spec(self, other: Date) -> bool {
        if self.year != other.year {
            self.year < other.year
        } else if self.month != other.month {
            self.month < other.month
        } else {
            self.day < other.day
        }
    }

    pub fn new(year: u32, month: u32, day: u32) -> (r: Date)
        requires
            year <= 9999,
            1 <= month <= 12,
            1 <= day <= 31,
        ensures
            r == (Date { year, month, day }),
            r.well_formed(),
    {
        Date { year, month, day }
    }

    /// Strict "earlier than" comparison, used by the daily rollover.
    pub fn is_before(&self, other: &Date) -> (r: bool)
        ensures
            r == self.before_spec(*other),
    {
        if self.year != other.year {
            self.year < other.year
        } else if self.month != other.month {
            self.month < other.month
        } else {
            self.day < other.day
        }
    }
}

/// The strict order on dates is irreflexive and asymmetric: a day is
/// never earlier than itself, and of two distinct days at most one is
/// earlier than the other.
pub proof fn lemma_before_strict(a: Date, b: Date)
    ensures
        !a.before_spec(a),
        a.before_spec(b) ==> !b.before_spec(a),
{
}

} // verus!
