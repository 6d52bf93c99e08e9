//! A day's free time as a list of closed clock-time ranges, with range
//! subtraction to carve a booked slot out of the free time.

use vstd::prelude::*;
use crate::time::Time;

verus! {

/// `lo <= t <= hi` in clock order.
pub open spec fn range_contains(lo: Time, hi: Time, t: Time) -> bool {
    lo.spec_le(t) && t.spec_le(hi)
}

/// What subtracting the closed range `[lo, hi]` leaves of each range: a
/// range holding `lo` is cut there (and, when it also holds `hi`, split in
/// two); a range holding only `hi` keeps its upper part; any other range is
/// kept whole.
pub open spec fn spec_sub(ranges: Seq<(Time, Time)>, lo: Time, hi: Time) -> Seq<(Time, Time)>
    decreases ranges.len(),
{
    if ranges.len() == 0 {
        Seq::empty()
    } else {
        let rest = spec_sub(ranges.drop_last(), lo, hi);
        let r = ranges.last();
        if range_contains(r.0, r.1, lo) {
            if range_contains(r.0, r.1, hi) {
                rest.push((r.0, lo)).push((hi, r.1))
            } else {
                rest.push((r.0, lo))
            }
        } else if range_contains(r.0, r.1, hi) {
            rest.push((hi, r.1))
        } else {
            rest.push(r)
        }
    }
}

/// A list of closed time ranges, least to greatest, as one day's free time.
#[derive(Clone, Debug, Default, PartialEq, Eq)]
pub struct TimeSeries {
    pub ranges: Vec<(Time, Time)>,
}

impl TimeSeries {
    /// The single range from `from` to `to`.
    pub fn new(from: Time, to: Time) -> (r: TimeSeries)
        ensures
            r.ranges@ == seq![(from, to)],
    {
        let mut v: Vec<(Time, Time)> = Vec::new();
        v.push((from, to));
        proof {
            assert(v@ =~= seq![(from, to)]);
        }
        TimeSeries { ranges: v }
    }

    /// Subtracts the closed range from `from` to `to` out of the series.
    pub fn sub(&self, from: Time, to: Time) -> (r: TimeSeries)
        ensures
            r.ranges@ == spec_sub(self.ranges@, from, to),
    {
        let mut out: Vec<(Time, Time)> = Vec::new();
        let mut k: usize = 0;
        while k < self.ranges.len()
            invariant
                k <= self.ranges@.len(),
                out@ == spec_sub(self.ranges@.take(k as int), from, to),
            decreases self.ranges@.len() - k,
        {
            let r = self.ranges[k];
            let holds_lo = r.0.le(&from) && from.le(&r.1);
            let holds_hi = r.0.le(&to) && to.le(&r.1);
            if holds_lo {
                out.push((r.0, from));
                if holds_hi {
                    out.push((to, r.1));
                }
            } else if holds_hi {
                out.push((to, r.1));
            } else {
                out.push(r);
            }
            proof {
                assert(self.ranges@.take(k + 1).drop_last() =~= self.ranges@.take(k as int));
                assert(self.ranges@.take(k + 1).last() == self.ranges@[k as int]);
            }
            k = k + 1;
        }
        proof {
            assert(self.ranges@.take(self.ranges@.len() as int) =~= self.ranges@);
        }
        TimeSeries { ranges: out }
    }
}

} // verus!
