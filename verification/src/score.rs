//! Scoring of a complete schedule.
//!
//! The scorer reads a merged, sorted week (see [`Schedule::flatten`] and
//! [`Schedule::sort`]) and computes the integer statistics behind the quality
//! score: start- and end-time spread across used days, average gap between
//! classes, largest free block, free days, and average day length. Each field
//! of the resulting [`Breakdown`] is signed so that a larger value is better;
//! a caller ranks schedules by a weighted sum of these fields, with weights
//! of its choosing.
//!
//! [`Schedule::flatten`]: crate::Schedule::flatten
//! [`Schedule::sort`]: crate::Schedule::sort

use vstd::prelude::*;
use vstd::arithmetic::div_mod::{lemma_div_is_ordered, lemma_div_multiples_vanish};
use crate::schedule::{day_separated, view_bounded, Schedule};

verus! {

broadcast use crate::schedule::lemma_schedule_view_len;

/// The labeled, pre-weighting components of a schedule's score. Spread and
/// day-length terms are negated (penalties), so that for every field a
/// larger value means a better schedule.
#[derive(Copy, Clone, Debug, PartialEq, Eq, Structural)]
pub struct Breakdown {
    /// Negated population variance of the start times of used days.
    pub similar_start_time: i32,
    /// Negated population variance of the end times of used days.
    pub similar_end_time: i32,
    /// Average minutes between consecutive classes, over all gaps.
    pub time_between_classes: u16,
    /// Average largest free block of a used day.
    pub free_block: u16,
    /// Days without classes beyond a five-day-week baseline.
    pub free_day: i32,
    /// Negated average day length (first class to last) of used days.
    pub day_length: i32,
}

/// First start minute of a non-empty day list.
pub open spec fn day_start(s: Seq<(u16, u16)>) -> int {
    s.first().0 as int
}

/// Last end minute of a non-empty day list.
pub open spec fn day_end(s: Seq<(u16, u16)>) -> int {
    s.last().0 + s.last().1
}

/// How many of the first `upto` days hold at least one class.
pub open spec fn used_days(v: Seq<Seq<(u16, u16)>>, upto: int) -> int
    decreases upto,
{
    if upto <= 0 {
        0
    } else {
        used_days(v, upto - 1) + if v[upto - 1].len() > 0 {
            1int
        } else {
            0int
        }
    }
}

/// Sum of the start minutes of the used days among the first `upto`.
pub open spec fn start_sum(v: Seq<Seq<(u16, u16)>>, upto: int) -> int
    decreases upto,
{
    if upto <= 0 {
        0
    } else {
        start_sum(v, upto - 1) + if v[upto - 1].len() > 0 {
            day_start(v[upto - 1])
        } else {
            0
        }
    }
}

/// Sum of the end minutes of the used days among the first `upto`.
pub open spec fn end_sum(v: Seq<Seq<(u16, u16)>>, upto: int) -> int
    decreases upto,
{
    if upto <= 0 {
        0
    } else {
        end_sum(v, upto - 1) + if v[upto - 1].len() > 0 {
            day_end(v[upto - 1])
        } else {
            0
        }
    }
}

/// The free minutes between class `i` and the next one.
pub open spec fn gap(s: Seq<(u16, u16)>, i: int) -> int {
    s[i + 1].0 - (s[i].0 + s[i].1)
}

/// Sum of the first `upto` gaps of one day.
pub open spec fn day_gap_sum(s: Seq<(u16, u16)>, upto: int) -> int
    decreases upto,
{
    if upto <= 0 {
        0
    } else {
        day_gap_sum(s, upto - 1) + gap(s, upto - 1)
    }
}

/// Largest of the first `upto` gaps of one day, zero when there are none.
pub open spec fn day_max_gap(s: Seq<(u16, u16)>, upto: int) -> int
    decreases upto,
{
    if upto <= 0 {
        0
    } else {
        let rest = day_max_gap(s, upto - 1);
        if gap(s, upto - 1) > rest {
            gap(s, upto - 1)
        } else {
            rest
        }
    }
}

/// The number of gaps of one day list.
pub open spec fn day_gap_count(s: Seq<(u16, u16)>) -> int {
    if s.len() == 0 {
        0
    } else {
        s.len() - 1
    }
}

/// Total gap minutes over the first `upto` days.
pub open spec fn gaps_sum(v: Seq<Seq<(u16, u16)>>, upto: int) -> int
    decreases upto,
{
    if upto <= 0 {
        0
    } else {
        gaps_sum(v, upto - 1) + day_gap_sum(v[upto - 1], day_gap_count(v[upto - 1]))
    }
}

/// Total gap count over the first `upto` days.
pub open spec fn gaps_count(v: Seq<Seq<(u16, u16)>>, upto: int) -> int
    decreases upto,
{
    if upto <= 0 {
        0
    } else {
        gaps_count(v, upto - 1) + day_gap_count(v[upto - 1])
    }
}

/// Sum of each day's largest free block over the first `upto` days.
pub open spec fn free_sum(v: Seq<Seq<(u16, u16)>>, upto: int) -> int
    decreases upto,
{
    if upto <= 0 {
        0
    } else {
        free_sum(v, upto - 1) + day_max_gap(v[upto - 1], day_gap_count(v[upto - 1]))
    }
}

/// Sum of squared deviations of used days' start minutes from `mean`.
pub open spec fn ssd_start(v: Seq<Seq<(u16, u16)>>, upto: int, mean: int) -> int
    decreases upto,
{
    if upto <= 0 {
        0
    } else {
        ssd_start(v, upto - 1, mean) + if v[upto - 1].len() > 0 {
            (day_start(v[upto - 1]) - mean) * (day_start(v[upto - 1]) - mean)
        } else {
            0
        }
    }
}

/// Sum of squared deviations of used days' end minutes from `mean`.
pub open spec fn ssd_end(v: Seq<Seq<(u16, u16)>>, upto: int, mean: int) -> int
    decreases upto,
{
    if upto <= 0 {
        0
    } else {
        ssd_end(v, upto - 1, mean) + if v[upto - 1].len() > 0 {
            (day_end(v[upto - 1]) - mean) * (day_end(v[upto - 1]) - mean)
        } else {
            0
        }
    }
}

/// What [`score`] computes. Every division that would divide by zero (no
/// used days, no gaps) yields zero instead; averages use floor division.
pub open spec fn spec_score(v: Seq<Seq<(u16, u16)>>) -> Breakdown {
    let days = used_days(v, 7);
    let start_avg = if days == 0 {
        0int
    } else {
        start_sum(v, 7) / days
    };
    let end_avg = if days == 0 {
        0int
    } else {
        end_sum(v, 7) / days
    };
    let sst = if days == 0 {
        0int
    } else {
        ssd_start(v, 7, start_avg) / days
    };
    let set = if days == 0 {
        0int
    } else {
        ssd_end(v, 7, end_avg) / days
    };
    let tb = if gaps_count(v, 7) == 0 {
        0int
    } else {
        gaps_sum(v, 7) / gaps_count(v, 7)
    };
    let fb = if days == 0 {
        0int
    } else {
        free_sum(v, 7) / days
    };
    Breakdown {
        similar_start_time: (-sst) as i32,
        similar_end_time: (-set) as i32,
        time_between_classes: tb as u16,
        free_block: fb as u16,
        free_day: (5 - days) as i32,
        day_length: (-(end_avg - start_avg)) as i32,
    }
}

/// In a separated day, start minutes never decrease.
proof fn lemma_separated_monotone(s: Seq<(u16, u16)>, i: int, j: int)
    requires
        day_separated(s),
        0 <= i <= j < s.len(),
    ensures
        s[i].0 <= s[j].0,
    decreases j - i,
{
    if i < j {
        lemma_separated_monotone(s, i, j - 1);
        assert(s[j - 1].0 + s[j - 1].1 <= s[j].0);
    }
}

/// Gaps of a separated, bounded day are non-negative and their sums and
/// maxima stay below one day of minutes.
proof fn lemma_day_gap_bounds(s: Seq<(u16, u16)>, upto: int)
    requires
        day_separated(s),
        forall|i: int| 0 <= i < s.len() ==> (#[trigger] s[i]).0 + s[i].1 <= 1440,
        0 <= upto < s.len(),
    ensures
        0 <= day_gap_sum(s, upto),
        day_gap_sum(s, upto) + s[0].0 <= s[upto].0,
        day_gap_sum(s, upto) <= 1440,
        0 <= day_max_gap(s, upto) <= 1440,
    decreases upto,
{
    if upto > 0 {
        lemma_day_gap_bounds(s, upto - 1);
        assert(s[upto - 1].0 + s[upto - 1].1 <= s[upto].0);
    }
}

/// Computes the score components of a merged, sorted week: each day's list
/// must be in start order with no internal overlap and end by minute 1440.
pub fn score(week: &Schedule) -> (b: Breakdown)
    requires
        view_bounded(week@),
        forall|d: int| 0 <= d < 7 ==> day_separated(#[trigger] week@[d]),
    ensures
        b == spec_score(week@),
{
    let ghost v = week@;
    let mut start_total: u32 = 0;
    let mut end_total: u32 = 0;
    let mut days: u32 = 0;
    let mut gaps_total: u32 = 0;
    let mut gaps_n: u128 = 0;
    let mut free_total: u32 = 0;
    let mut d: usize = 0;
    while d < 7
        invariant
            v == week@,
            view_bounded(v),
            forall|e: int| 0 <= e < 7 ==> day_separated(#[trigger] v[e]),
            d <= 7,
            days == used_days(v, d as int),
            days <= d,
            start_total == start_sum(v, d as int),
            start_total <= 1440 * d,
            end_total == end_sum(v, d as int),
            end_total <= 1440 * d,
            gaps_total == gaps_sum(v, d as int),
            gaps_total <= 1440 * d,
            gaps_n == gaps_count(v, d as int),
            gaps_n <= d * 0xffff_ffff_ffff_ffffu128,
            free_total == free_sum(v, d as int),
            free_total <= 1440 * d,
        decreases 7 - d,
    {
        let list = week.day(d);
        let n = list.len();
        if n > 0 {
            let first = list[0];
            let last = list[n - 1];
            proof {
                assert(v[d as int][0].0 + v[d as int][0].1 <= 1440);
                assert(v[d as int][n - 1].0 + v[d as int][n - 1].1 <= 1440);
            }
            start_total = start_total + first.0 as u32;
            end_total = end_total + (last.0 as u32 + last.1 as u32);
            days = days + 1;
            let mut cur_sum: u32 = 0;
            let mut cur_max: u32 = 0;
            let mut i: usize = 0;
            while i + 1 < n
                invariant
                    v == week@,
                    view_bounded(v),
                    day_separated(v[d as int]),
                    d < 7,
                    list@ == v[d as int],
                    n == list@.len(),
                    n > 0,
                    i < n,
                    cur_sum == day_gap_sum(list@, i as int),
                    cur_sum <= 1440,
                    cur_max == day_max_gap(list@, i as int),
                    cur_max <= 1440,
                decreases n - i,
            {
                let a = list[i];
                let b = list[i + 1];
                proof {
                    assert(v[d as int][i as int].0 + v[d as int][i as int].1 <= v[d as int][i
                        + 1].0);
                    assert(v[d as int][i + 1].0 + v[d as int][i + 1].1 <= 1440);
                    lemma_day_gap_bounds(list@, i + 1);
                    lemma_separated_monotone(list@, 0, i + 1);
                }
                let g = (b.0 - (a.0 + a.1)) as u32;
                cur_sum = cur_sum + g;
                if g > cur_max {
                    cur_max = g;
                }
                i = i + 1;
            }
            proof {
                assert(i as int == day_gap_count(list@) || (i == 0 && n == 1 && day_gap_count(
                    list@,
                ) == 0));
            }
            gaps_total = gaps_total + cur_sum;
            gaps_n = gaps_n + (n - 1) as u128;
            free_total = free_total + cur_max;
        }
        proof {
            assert(used_days(v, d + 1) == used_days(v, d as int) + if v[d as int].len() > 0 {
                1int
            } else {
                0int
            });
        }
        d = d + 1;
    }
    let start_avg: u32 = if days == 0 {
        0
    } else {
        start_total / days
    };
    let end_avg: u32 = if days == 0 {
        0
    } else {
        end_total / days
    };
    proof {
        if days != 0 {
            lemma_sums_ordered(v, 7);
            lemma_start_sum_le(v, 7);
            lemma_end_sum_le(v, 7);
            lemma_div_is_ordered(start_sum(v, 7), end_sum(v, 7), days as int);
            assert(start_sum(v, 7) <= 1440 * (days as int));
            assert(end_sum(v, 7) <= 1440 * (days as int));
            lemma_div_is_ordered(start_sum(v, 7), 1440 * (days as int), days as int);
            lemma_div_is_ordered(end_sum(v, 7), 1440 * (days as int), days as int);
            lemma_div_multiples_vanish(1440, days as int);
            assert(start_avg <= 1440);
            assert(end_avg <= 1440);
        }
    }
    let mut ssd_s: i64 = 0;
    let mut ssd_e: i64 = 0;
    let mut d: usize = 0;
    while d < 7
        invariant
            v == week@,
            view_bounded(v),
            d <= 7,
            start_avg <= 1440,
            end_avg <= 1440,
            ssd_s == ssd_start(v, d as int, start_avg as int),
            0 <= ssd_s <= 0x800_0000 * d,
            ssd_e == ssd_end(v, d as int, end_avg as int),
            0 <= ssd_e <= 0x800_0000 * d,
        decreases 7 - d,
    {
        let list = week.day(d);
        let n = list.len();
        if n > 0 {
            let first = list[0];
            let last = list[n - 1];
            proof {
                assert(v[d as int][0].0 + v[d as int][0].1 <= 1440);
                assert(v[d as int][n - 1].0 + v[d as int][n - 1].1 <= 1440);
            }
            let s_dev: i64 = first.0 as i64 - start_avg as i64;
            let e_dev: i64 = (last.0 as i64 + last.1 as i64) - end_avg as i64;
            proof {
                assert(s_dev * s_dev <= 0x800_0000) by (nonlinear_arith)
                    requires
                        -1440 <= s_dev <= 1440,
                {
                }
                assert(s_dev * s_dev >= 0) by (nonlinear_arith) {
                }
                assert(e_dev * e_dev <= 0x800_0000) by (nonlinear_arith)
                    requires
                        -1440 <= e_dev <= 1440,
                {
                }
                assert(e_dev * e_dev >= 0) by (nonlinear_arith) {
                }
            }
            ssd_s = ssd_s + s_dev * s_dev;
            ssd_e = ssd_e + e_dev * e_dev;
        }
        d = d + 1;
    }
    let sst: i64 = if days == 0 {
        0
    } else {
        ssd_s / days as i64
    };
    let set: i64 = if days == 0 {
        0
    } else {
        ssd_e / days as i64
    };
    let tb: u128 = if gaps_n == 0 {
        0
    } else {
        gaps_total as u128 / gaps_n
    };
    let fb: u32 = if days == 0 {
        0
    } else {
        free_total / days
    };
    proof {
        if days != 0 {
            assert(0 <= sst <= ssd_s) by {
                lemma_div_is_ordered(0, ssd_s as int, days as int);
                lemma_div_is_ordered(ssd_s as int, 0x800_0000int * 7, days as int);
                assert((ssd_s as int) / (days as int) <= ssd_s as int) by (nonlinear_arith)
                    requires
                        ssd_s >= 0,
                        days >= 1,
                {
                }
            }
            assert(0 <= set <= ssd_e) by {
                assert((ssd_e as int) / (days as int) <= ssd_e as int) by (nonlinear_arith)
                    requires
                        ssd_e >= 0,
                        days >= 1,
                {
                }
                lemma_div_is_ordered(0, ssd_e as int, days as int);
            }
            assert(fb <= free_total) by {
                assert(free_total as int / (days as int) <= free_total) by (nonlinear_arith)
                    requires
                        free_total >= 0,
                        days >= 1,
                {
                }
            }
        }
        if gaps_n != 0 {
            assert(tb <= gaps_total) by {
                assert(gaps_total as int / (gaps_n as int) <= gaps_total) by (nonlinear_arith)
                    requires
                        gaps_total >= 0,
                        gaps_n >= 1,
                {
                }
            }
        }
    }
    Breakdown {
        similar_start_time: -(sst as i32),
        similar_end_time: -(set as i32),
        time_between_classes: tb as u16,
        free_block: fb as u16,
        free_day: 5 - days as i32,
        day_length: -((end_avg - start_avg) as i32),
    }
}

/// Each used day ends no earlier than it starts, so the end sum dominates
/// the start sum.
proof fn lemma_sums_ordered(v: Seq<Seq<(u16, u16)>>, upto: int)
    requires
        forall|d: int| 0 <= d < 7 ==> day_separated(#[trigger] v[d]),
        upto <= 7,
        view_bounded(v),
        v.len() == 7,
    ensures
        start_sum(v, upto) <= end_sum(v, upto),
    decreases upto,
{
    if upto > 0 {
        lemma_sums_ordered(v, upto - 1);
        if v[upto - 1].len() > 0 {
            lemma_separated_monotone(v[upto - 1], 0, v[upto - 1].len() - 1);
        }
    }
}

proof fn lemma_start_sum_le(v: Seq<Seq<(u16, u16)>>, upto: int)
    requires
        view_bounded(v),
        v.len() == 7,
        0 <= upto <= 7,
    ensures
        0 <= start_sum(v, upto) <= 1440 * used_days(v, upto),
        0 <= used_days(v, upto) <= upto,
    decreases upto,
{
    if upto > 0 {
        lemma_start_sum_le(v, upto - 1);
        if v[upto - 1].len() > 0 {
            assert(v[upto - 1][0].0 + v[upto - 1][0].1 <= 1440);
        }
    }
}

proof fn lemma_end_sum_le(v: Seq<Seq<(u16, u16)>>, upto: int)
    requires
        view_bounded(v),
        v.len() == 7,
        0 <= upto <= 7,
    ensures
        0 <= end_sum(v, upto) <= 1440 * used_days(v, upto),
    decreases upto,
{
    if upto > 0 {
        lemma_end_sum_le(v, upto - 1);
        if v[upto - 1].len() > 0 {
            let m = v[upto - 1].len() - 1;
            assert(v[upto - 1][m].0 + v[upto - 1][m].1 <= 1440);
        }
    }
}

} // verus!
