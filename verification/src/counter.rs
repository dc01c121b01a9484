//! Usage counters with daily rollover.
//!
//! The tool remembers how many saves succeeded today and in total.  The
//! record keeps the day of the last successful save; whenever the
//! stored day is strictly earlier than the current day, the daily count
//! starts over.  Only a successful save writes the record back; the
//! plain "show the counts" path recomputes the rollover for display
//! without persisting it.

use vstd::prelude::*;
use crate::date::Date;

verus! {

/// The persisted usage record: day of the last successful save (absent
/// until the first one), saves counted for that day, and saves counted
/// overall.
#[derive(PartialEq, Eq, Structural, Debug)]
pub struct UsageData {
    pub last_date: Option<Date>,
    pub count_today: u32,
    pub count_total: u32,
}

impl UsageData {
    /// The record a fresh installation starts from: no saves yet.
    pub fn initial() -> (r: UsageData)
        ensures
            r == (UsageData { last_date: None::<Date>, count_today: 0u32, count_total: 0u32 }),
    {
        UsageData { last_date: None, count_today: 0, count_total: 0 }
    }

    /// The stored day lies strictly before `today`, so the daily count
    /// no longer applies.  With no stored day there is nothing to roll
    /// over.
    pub open spec fn stale_spec(self, today: Date) -> bool {
        match self.last_date {
            Some(d) => d.before_spec(today),
            None => false,
        }
    }

    /// The counts to show for `today`: the daily count, as zero when
    /// the record is stale, and the overall count.  Pure display logic:
    /// the record itself is not changed, and nothing is persisted.
    pub fn read_for_display(&self, today: &Date) -> (r: (u32, u32))
        ensures
            r.0 == if self.stale_spec(*today) { 0u32 } else { self.count_today },
            r.1 == self.count_total,
    {
        let today_count = match &self.last_date {
            Some(d) => {
                if d.is_before(today) {
                    0
                } else {
                    self.count_today
                }
            },
            None => self.count_today,
        };
        (today_count, self.count_total)
    }

    /// The record after one successful save on `today`: the stored day
    /// becomes `today`; the daily count starts over at 1 when the old
    /// record was stale and grows by 1 otherwise; the overall count
    /// grows by 1.  Called exactly once per successful save, never on a
    /// failed one.
    pub fn record_success(&self, today: Date) -> (r: UsageData)
        requires
            self.count_today < u32::MAX,
            self.count_total < u32::MAX,
        ensures
            r == spec_after_success(*self, today),
            r.last_date == Some(today),
            r.count_today == if self.stale_spec(today) { 1u32 } else { (self.count_today + 1) as u32 },
            r.count_total == self.count_total + 1,
    {
        let rolled = match &self.last_date {
            Some(d) => {
                if d.is_before(&today) {
                    0
                } else {
                    self.count_today
                }
            },
            None => self.count_today,
        };
        UsageData {
            last_date: Some(today),
            count_today: rolled + 1,
            count_total: self.count_total + 1,
        }
    }
}

/// Two successful saves on the same day accumulate: recording a success
/// and then another on the same day never rolls the daily count over in
/// between, so the daily count grows by exactly one each time.
pub proof fn lemma_same_day_accumulates(data: UsageData, today: Date)
    requires
        data.count_today < u32::MAX,
        data.count_total < u32::MAX,
    ensures
        ({
            let r = spec_after_success(data, today);
            !r.stale_spec(today) && r.last_date == Some(today)
        }),
{
    crate::date::lemma_before_strict(today, today);
}

/// The value `record_success` returns, as a specification-level
/// function, so that laws can speak of repeated saves.
pub open spec fn spec_after_success(data: UsageData, today: Date) -> UsageData {
    UsageData {
        last_date: Some(today),
        count_today: if data.stale_spec(today) { 1u32 } else { (data.count_today + 1) as u32 },
        count_total: (data.count_total + 1) as u32,
    }
}

} // verus!
