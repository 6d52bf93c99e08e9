//! The weekly time grid of one section, and the overlap test at the heart of
//! the search.
//!
//! A [`Schedule`] holds, for each of the seven days (Sunday first), the list
//! of `(start, duration)` interval pairs in minutes past midnight. Two
//! intervals conflict when either one's start lies inside the other's
//! half-open span; two schedules conflict when any day holds a conflicting
//! pair.

use vstd::prelude::*;
use crate::days::Days;
use crate::time::Time;

verus! {

/// Per-day interval lists for one section; the abstract value (`@`) is a
/// seven-element sequence of interval sequences.
#[derive(Debug)]
pub struct Schedule {
    data: [Vec<(u16, u16)>; 7],
}

impl View for Schedule {
    type V = Seq<Seq<(u16, u16)>>;

    closed spec fn view(&self) -> Seq<Seq<(u16, u16)>> {
        Seq::new(7, |d: int| self.data@[d]@)
    }
}

/// Every schedule's abstract value has exactly seven days.
pub broadcast proof fn lemma_schedule_view_len(s: Schedule)
    ensures
        (#[trigger] s@).len() == 7,
{
}

/// `t` lies inside the half-open span of interval `iv`.
pub open spec fn in_span(iv: (u16, u16), t: u16) -> bool {
    iv.0 <= t < iv.0 + iv.1
}

/// Either interval starts inside the other.
pub open spec fn intervals_conflict(a: (u16, u16), b: (u16, u16)) -> bool {
    in_span(a, b.0) || in_span(b, a.0)
}

/// Some interval of `x` conflicts with some interval of `y`.
pub open spec fn day_conflicts(x: Seq<(u16, u16)>, y: Seq<(u16, u16)>) -> bool {
    exists|i: int, j: int|
        0 <= i < x.len() && 0 <= j < y.len() && intervals_conflict(x[i], y[j])
}

/// Some day holds a conflicting pair of intervals.
pub open spec fn schedules_conflict(a: Seq<Seq<(u16, u16)>>, b: Seq<Seq<(u16, u16)>>) -> bool {
    exists|d: int| 0 <= d < 7 && day_conflicts(a[d], b[d])
}

/// `s` conflicts with at least one member of `others`.
pub open spec fn conflicts_with_any(
    s: Seq<Seq<(u16, u16)>>,
    others: Seq<Seq<Seq<(u16, u16)>>>,
) -> bool {
    exists|k: int| 0 <= k < others.len() && schedules_conflict(s, others[k])
}

/// The abstract values of a sequence of schedules.
pub open spec fn views_of(v: Seq<Schedule>) -> Seq<Seq<Seq<(u16, u16)>>> {
    v.map_values(|s: Schedule| s@)
}

/// The interval pair of a meeting running from `start` to `end`.
pub open spec fn interval_of(start: Time, end: Time) -> (u16, u16) {
    (start.spec_minutes() as u16, (end.spec_minutes() - start.spec_minutes()) as u16)
}

/// The intervals that the meeting patterns in `times` place on day `d`:
/// one entry per pattern whose day set includes `d`, in input order.
pub open spec fn spec_day_intervals(times: Seq<(Days, Time, Time)>, d: int) -> Seq<(u16, u16)>
    decreases times.len(),
{
    if times.len() == 0 {
        Seq::empty()
    } else {
        let rest = spec_day_intervals(times.drop_last(), d);
        let t = times.last();
        if t.0.has_idx(d) {
            rest.push(interval_of(t.1, t.2))
        } else {
            rest
        }
    }
}

/// The full week derived from a list of meeting patterns.
pub open spec fn spec_generate(times: Seq<(Days, Time, Time)>) -> Seq<Seq<(u16, u16)>> {
    Seq::new(7, |d: int| spec_day_intervals(times, d))
}

/// Every interval ends by minute 1440, so sums over a week stay small.
pub open spec fn view_bounded(v: Seq<Seq<(u16, u16)>>) -> bool {
    forall|d: int, i: int|
        0 <= d < v.len() && 0 <= i < v[d].len() ==> (#[trigger] v[d][i]).0 + v[d][i].1 <= 1440
}

/// Consecutive intervals are separated: each starts no earlier than the
/// previous one ends. This is what sorting a week of pairwise
/// non-conflicting intervals produces.
pub open spec fn day_separated(s: Seq<(u16, u16)>) -> bool {
    forall|i: int| 0 <= i < s.len() - 1 ==> (#[trigger] s[i]).0 + s[i].1 <= s[i + 1].0
}

/// A meeting pattern whose times are real clock times in order.
pub open spec fn pattern_valid(t: (Days, Time, Time)) -> bool {
    t.1.valid() && t.2.valid() && t.1.spec_le(t.2)
}

/// Inserts `x` into a day list sorted by start minute, keeping the order.
pub open spec fn spec_insert_by_start(s: Seq<(u16, u16)>, x: (u16, u16)) -> Seq<(u16, u16)>
    decreases s.len(),
{
    if s.len() == 0 {
        seq![x]
    } else if s.last().0 <= x.0 {
        s.push(x)
    } else {
        spec_insert_by_start(s.drop_last(), x).push(s.last())
    }
}

/// Insertion sort of one day list by start minute.
pub open spec fn spec_sort_day(s: Seq<(u16, u16)>) -> Seq<(u16, u16)>
    decreases s.len(),
{
    if s.len() == 0 {
        Seq::empty()
    } else {
        spec_insert_by_start(spec_sort_day(s.drop_last()), s.last())
    }
}

/// Ascending start minutes.
pub open spec fn sorted_by_start(s: Seq<(u16, u16)>) -> bool {
    forall|i: int, j: int| 0 <= i <= j < s.len() ==> (#[trigger] s[i]).0 <= (#[trigger] s[j]).0
}

/// The week made by pooling the day lists of several schedules, in order.
pub open spec fn spec_pool_day(vs: Seq<Seq<Seq<(u16, u16)>>>, d: int) -> Seq<(u16, u16)>
    decreases vs.len(),
{
    if vs.len() == 0 {
        Seq::empty()
    } else {
        spec_pool_day(vs.drop_last(), d) + vs.last()[d]
    }
}

/// The flattened (pooled, unsorted) week of a list of schedules.
pub open spec fn spec_flatten(vs: Seq<Seq<Seq<(u16, u16)>>>) -> Seq<Seq<(u16, u16)>> {
    Seq::new(7, |d: int| spec_pool_day(vs, d))
}

fn day_flag(days: &Days, d: u8) -> (r: bool)
    requires
        d < 7,
    ensures
        r == days.has_idx(d as int),
{
    match d {
        0 => days.sunday,
        1 => days.monday,
        2 => days.tuesday,
        3 => days.wednesday,
        4 => days.thursday,
        5 => days.friday,
        _ => days.saturday,
    }
}

fn build_day(times: &Vec<(Days, Time, Time)>, d: u8) -> (r: Vec<(u16, u16)>)
    requires
        d < 7,
        forall|k: int| 0 <= k < times@.len() ==> pattern_valid(#[trigger] times@[k]),
    ensures
        r@ == spec_day_intervals(times@, d as int),
{
    let mut r: Vec<(u16, u16)> = Vec::new();
    let mut k: usize = 0;
    while k < times.len()
        invariant
            d < 7,
            k <= times@.len(),
            forall|i: int| 0 <= i < times@.len() ==> pattern_valid(#[trigger] times@[i]),
            r@ == spec_day_intervals(times@.take(k as int), d as int),
        decreases times@.len() - k,
    {
        let (days, start, end) = times[k];
        if day_flag(&days, d) {
            let start_m = start.minutes();
            let end_m = end.minutes();
            r.push((start_m, end_m - start_m));
        }
        proof {
            assert(times@.take(k + 1).drop_last() =~= times@.take(k as int));
            assert(times@.take(k + 1).last() == times@[k as int]);
        }
        k = k + 1;
    }
    proof {
        assert(times@.take(times@.len() as int) =~= times@);
    }
    r
}

fn copy_day(v: &Vec<(u16, u16)>) -> (r: Vec<(u16, u16)>)
    ensures
        r@ == v@,
{
    let mut r: Vec<(u16, u16)> = Vec::new();
    let mut i: usize = 0;
    while i < v.len()
        invariant
            i <= v@.len(),
            r@ == v@.take(i as int),
        decreases v@.len() - i,
    {
        r.push(v[i]);
        proof {
            assert(v@.take(i + 1) =~= v@.take(i as int).push(v@[i as int]));
        }
        i = i + 1;
    }
    proof {
        assert(v@.take(v@.len() as int) =~= v@);
    }
    r
}

fn intervals_clash(a: (u16, u16), b: (u16, u16)) -> (r: bool)
    ensures
        r == intervals_conflict(a, b),
{
    let a_end = a.0 as u32 + a.1 as u32;
    let b_end = b.0 as u32 + b.1 as u32;
    (a.0 as u32 <= b.0 as u32 && (b.0 as u32) < a_end) || (b.0 as u32 <= a.0 as u32 && (a.0 as u32)
        < b_end)
}

impl Schedule {
    /// The intervals of one day; `idx` counts from Sunday as 0.
    pub fn day(&self, idx: usize) -> (r: &Vec<(u16, u16)>)
        requires
            idx < 7,
        ensures
            r@ == self@[idx as int],
    {
        &self.data[idx]
    }

    /// A schedule with the same abstract value.
    pub fn duplicate(&self) -> (r: Schedule)
        ensures
            r@ == self@,
    {
        let r = Schedule {
            data: [
                copy_day(&self.data[0]),
                copy_day(&self.data[1]),
                copy_day(&self.data[2]),
                copy_day(&self.data[3]),
                copy_day(&self.data[4]),
                copy_day(&self.data[5]),
                copy_day(&self.data[6]),
            ],
        };
        proof {
            assert(r@ =~~= self@);
        }
        r
    }

    /// Same abstract value, day by day and interval by interval.
    pub fn same_pattern(&self, other: &Schedule) -> (r: bool)
        ensures
            r == (self@ =~~= other@),
    {
        let mut d: usize = 0;
        while d < 7
            invariant
                d <= 7,
                forall|e: int| 0 <= e < d ==> self@[e] =~= other@[e],
            decreases 7 - d,
        {
            let a = &self.data[d];
            let b = &other.data[d];
            if a.len() != b.len() {
                proof {
                    if self@ =~~= other@ {
                        assert(self@ == other@);
                        assert(self@[d as int] == other@[d as int]);
                        assert(false);
                    }
                }
                return false;
            }
            let mut i: usize = 0;
            while i < a.len()
                invariant
                    d < 7,
                    a@ == self@[d as int],
                    b@ == other@[d as int],
                    a@.len() == b@.len(),
                    i <= a@.len(),
                    forall|j: int| 0 <= j < i ==> a@[j] == b@[j],
                decreases a@.len() - i,
            {
                let x = a[i];
                let y = b[i];
                if x.0 != y.0 || x.1 != y.1 {
                    proof {
                        if self@ =~~= other@ {
                            assert(self@ == other@);
                            assert(self@[d as int] == other@[d as int]);
                            assert(a@[i as int] == b@[i as int]);
                            assert(false);
                        }
                    }
                    return false;
                }
                i = i + 1;
            }
            proof {
                assert(self@[d as int] =~= other@[d as int]);
            }
            d = d + 1;
        }
        proof {
            assert(self@ =~~= other@);
        }
        true
    }

    /// Derives the week grid from meeting patterns. Patterns must carry real
    /// clock times with the end no earlier than the start.
    pub fn generate(times: &Vec<(Days, Time, Time)>) -> (s: Schedule)
        requires
            forall|k: int| 0 <= k < times@.len() ==> pattern_valid(#[trigger] times@[k]),
        ensures
            s@ == spec_generate(times@),
    {
        let s = Schedule {
            data: [
                build_day(times, 0),
                build_day(times, 1),
                build_day(times, 2),
                build_day(times, 3),
                build_day(times, 4),
                build_day(times, 5),
                build_day(times, 6),
            ],
        };
        proof {
            assert(s@ =~= spec_generate(times@));
        }
        s
    }

    /// True when this schedule conflicts with at least one of `others`:
    /// on some day, an interval of one starts inside an interval of the other.
    pub fn overlaps(&self, others: &Vec<Schedule>) -> (r: bool)
        ensures
            r == conflicts_with_any(self@, views_of(others@)),
    {
        let ghost ov = views_of(others@);
        let mut day: usize = 0;
        while day < 7
            invariant
                day <= 7,
                ov == views_of(others@),
                forall|d: int, k: int|
                    0 <= d < day && 0 <= k < ov.len() ==> !day_conflicts(self@[d], #[trigger] ov[k][d]),
            decreases 7 - day,
        {
            let self_day = &self.data[day];
            let mut k: usize = 0;
            while k < others.len()
                invariant
                    day < 7,
                    k <= others@.len(),
                    ov == views_of(others@),
                    self_day@ == self@[day as int],
                    forall|kk: int|
                        0 <= kk < k ==> !day_conflicts(self@[day as int], #[trigger] ov[kk][day as int]),
                decreases others@.len() - k,
            {
                let other = &others[k];
                let other_day = other.day(day);
                let mut j: usize = 0;
                while j < other_day.len()
                    invariant
                        day < 7,
                        k < others@.len(),
                        ov == views_of(others@),
                        self_day@ == self@[day as int],
                        other_day@ == ov[k as int][day as int],
                        j <= other_day@.len(),
                        forall|jj: int, i: int|
                            0 <= jj < j && 0 <= i < self_day@.len() ==> !intervals_conflict(
                                #[trigger] self_day@[i],
                                #[trigger] other_day@[jj],
                            ),
                    decreases other_day@.len() - j,
                {
                    let b = other_day[j];
                    let mut i: usize = 0;
                    while i < self_day.len()
                        invariant
                            day < 7,
                            k < others@.len(),
                            ov == views_of(others@),
                            self_day@ == self@[day as int],
                            other_day@ == ov[k as int][day as int],
                            j < other_day@.len(),
                            b == other_day@[j as int],
                            i <= self_day@.len(),
                            forall|ii: int|
                                0 <= ii < i ==> !intervals_conflict(
                                    #[trigger] self_day@[ii],
                                    other_day@[j as int],
                                ),
                        decreases self_day@.len() - i,
                    {
                        let a = self_day[i];
                        if intervals_clash(a, b) {
                            proof {
                                assert(day_conflicts(self@[day as int], ov[k as int][day as int]));
                                assert(schedules_conflict(self@, ov[k as int]));
                            }
                            return true;
                        }
                        i = i + 1;
                    }
                    j = j + 1;
                }
                proof {
                    assert(!day_conflicts(self@[day as int], ov[k as int][day as int]));
                }
                k = k + 1;
            }
            day = day + 1;
        }
        proof {
            assert forall|k: int| 0 <= k < ov.len() implies !schedules_conflict(self@, ov[k]) by {
                assert(forall|d: int| 0 <= d < 7 ==> !day_conflicts(self@[d], #[trigger] ov[k][d]));
            }
        }
        false
    }

    /// Pools the day lists of several schedules into one (unsorted) week.
    pub fn flatten(schedules: &Vec<Schedule>) -> (s: Schedule)
        ensures
            s@ == spec_flatten(views_of(schedules@)),
    {
        let s = Schedule {
            data: [
                pool_day(schedules, 0),
                pool_day(schedules, 1),
                pool_day(schedules, 2),
                pool_day(schedules, 3),
                pool_day(schedules, 4),
                pool_day(schedules, 5),
                pool_day(schedules, 6),
            ],
        };
        proof {
            assert(s@ =~= spec_flatten(views_of(schedules@)));
        }
        s
    }

    /// Sorts each day's intervals by start minute, by insertion.
    pub fn sort(&mut self)
        ensures
            final(self)@ == Seq::new(7, |d: int| spec_sort_day(old(self)@[d])),
    {
        let next = Schedule {
            data: [
                sort_day(&self.data[0]),
                sort_day(&self.data[1]),
                sort_day(&self.data[2]),
                sort_day(&self.data[3]),
                sort_day(&self.data[4]),
                sort_day(&self.data[5]),
                sort_day(&self.data[6]),
            ],
        };
        proof {
            assert(next@ =~= Seq::new(7, |d: int| spec_sort_day(old(self)@[d])));
        }
        *self = next;
    }

    /// Every interval ends by minute 1440 and each day's list is separated:
    /// ordered, with no interval starting before the previous one ends. The
    /// scoring stage requires a week in this shape.
    pub fn is_separated(&self) -> (r: bool)
        ensures
            r == (view_bounded(self@) && forall|d: int|
                0 <= d < 7 ==> day_separated(#[trigger] self@[d])),
    {
        let mut d: usize = 0;
        while d < 7
            invariant
                d <= 7,
                forall|e: int, i: int|
                    0 <= e < d && 0 <= i < self@[e].len() ==> (#[trigger] self@[e][i]).0
                        + self@[e][i].1 <= 1440,
                forall|e: int| 0 <= e < d ==> day_separated(#[trigger] self@[e]),
            decreases 7 - d,
        {
            let list = &self.data[d];
            let mut i: usize = 0;
            while i < list.len()
                invariant
                    d < 7,
                    list@ == self@[d as int],
                    i <= list@.len(),
                    forall|ii: int|
                        0 <= ii < i ==> (#[trigger] list@[ii]).0 + list@[ii].1 <= 1440,
                    forall|ii: int|
                        0 <= ii < i && ii + 1 < list@.len() ==> (#[trigger] list@[ii]).0
                            + list@[ii].1 <= list@[ii + 1].0,
                decreases list@.len() - i,
            {
                let iv = list[i];
                if iv.0 as u32 + iv.1 as u32 > 1440 {
                    return false;
                }
                if i + 1 < list.len() {
                    let next = list[i + 1];
                    if iv.0 as u32 + iv.1 as u32 > next.0 as u32 {
                        return false;
                    }
                }
                i = i + 1;
            }
            d = d + 1;
        }
        true
    }
}

impl Default for Schedule {
    /// An empty week: seven days with no intervals.
    fn default() -> (s: Schedule)
        ensures
            forall|d: int| 0 <= d < 7 ==> (#[trigger] s@[d]).len() == 0,
    {
        Schedule {
            data: [
                Vec::new(),
                Vec::new(),
                Vec::new(),
                Vec::new(),
                Vec::new(),
                Vec::new(),
                Vec::new(),
            ],
        }
    }
}

fn pool_day(schedules: &Vec<Schedule>, d: u8) -> (r: Vec<(u16, u16)>)
    requires
        d < 7,
    ensures
        r@ == spec_pool_day(views_of(schedules@), d as int),
{
    let ghost vs = views_of(schedules@);
    let mut r: Vec<(u16, u16)> = Vec::new();
    let mut k: usize = 0;
    while k < schedules.len()
        invariant
            d < 7,
            k <= schedules@.len(),
            vs == views_of(schedules@),
            r@ == spec_pool_day(vs.take(k as int), d as int),
        decreases schedules@.len() - k,
    {
        let day_list = schedules[k].day(d as usize);
        let mut i: usize = 0;
        while i < day_list.len()
            invariant
                d < 7,
                k < schedules@.len(),
                vs == views_of(schedules@),
                day_list@ == vs[k as int][d as int],
                i <= day_list@.len(),
                r@ == spec_pool_day(vs.take(k as int), d as int) + day_list@.take(i as int),
            decreases day_list@.len() - i,
        {
            r.push(day_list[i]);
            proof {
                assert(day_list@.take(i + 1) =~= day_list@.take(i as int).push(day_list@[i as int]));
            }
            i = i + 1;
        }
        proof {
            assert(vs.take(k + 1).drop_last() =~= vs.take(k as int));
            assert(day_list@.take(day_list@.len() as int) =~= day_list@);
        }
        k = k + 1;
    }
    proof {
        assert(vs.take(vs.len() as int) =~= vs);
    }
    r
}

fn insert_by_start(v: &mut Vec<(u16, u16)>, x: (u16, u16))
    ensures
        final(v)@ == spec_insert_by_start(old(v)@, x),
{
    let ghost orig = old(v)@;
    let mut tail: Vec<(u16, u16)> = Vec::new();
    loop
        invariant
            spec_insert_by_start(orig, x) == spec_insert_by_start(v@, x) + tail@.reverse(),
        ensures
            v@.len() == 0 || v@.last().0 <= x.0,
            spec_insert_by_start(orig, x) == spec_insert_by_start(v@, x) + tail@.reverse(),
        decreases v@.len(),
    {
        proof {
            assert(spec_insert_by_start(orig, x) == spec_insert_by_start(v@, x)
                + tail@.reverse());
        }
        if v.len() == 0 {
            break;
        }
        let last = v[v.len() - 1];
        if last.0 <= x.0 {
            break;
        }
        let ghost v_before = v@;
        let ghost tail_before = tail@;
        let e = v.pop().unwrap();
        tail.push(e);
        proof {
            assert(v@ =~= v_before.drop_last());
            assert(tail@.reverse() =~= seq![e] + tail_before.reverse());
            assert(spec_insert_by_start(v_before, x) == spec_insert_by_start(v@, x).push(e));
            assert(spec_insert_by_start(v@, x) + tail@.reverse() =~= (spec_insert_by_start(v@, x)
                .push(e)) + tail_before.reverse());
        }
    }
    let ghost v_mid = v@;
    v.push(x);
    proof {
        assert(spec_insert_by_start(v_mid, x) =~= v@);
    }
    let ghost done = spec_insert_by_start(orig, x);
    while tail.len() > 0
        invariant
            done == v@ + tail@.reverse(),
        decreases tail@.len(),
    {
        let ghost v_before = v@;
        let ghost tail_before = tail@;
        let e = tail.pop().unwrap();
        v.push(e);
        proof {
            assert(tail_before =~= tail@.push(e));
            assert(tail_before.reverse() =~= seq![e] + tail@.reverse());
            assert(v@ + tail@.reverse() =~= v_before + tail_before.reverse());
        }
    }
    proof {
        assert(done =~= v@);
    }
}

fn sort_day(day_list: &Vec<(u16, u16)>) -> (r: Vec<(u16, u16)>)
    ensures
        r@ == spec_sort_day(day_list@),
{
    let mut r: Vec<(u16, u16)> = Vec::new();
    let mut k: usize = 0;
    while k < day_list.len()
        invariant
            k <= day_list@.len(),
            r@ == spec_sort_day(day_list@.take(k as int)),
        decreases day_list@.len() - k,
    {
        insert_by_start(&mut r, day_list[k]);
        proof {
            assert(day_list@.take(k + 1).drop_last() =~= day_list@.take(k as int));
            assert(day_list@.take(k + 1).last() == day_list@[k as int]);
        }
        k = k + 1;
    }
    proof {
        assert(day_list@.take(day_list@.len() as int) =~= day_list@);
    }
    r
}

/// Inserting keeps the interval multiset and, into a sorted list, the order.
pub proof fn lemma_insert_by_start_props(s: Seq<(u16, u16)>, x: (u16, u16))
    ensures
        spec_insert_by_start(s, x).to_multiset() == s.push(x).to_multiset(),
        sorted_by_start(s) ==> sorted_by_start(spec_insert_by_start(s, x)),
        spec_insert_by_start(s, x).len() == s.len() + 1,
    decreases s.len(),
{
    broadcast use vstd::seq_lib::group_to_multiset_ensures;

    if s.len() == 0 {
        assert(spec_insert_by_start(s, x) =~= seq![x]);
        assert(seq![x] =~= Seq::empty().push(x));
        assert(s.push(x) =~= Seq::empty().push(x));
    } else if s.last().0 <= x.0 {
        if sorted_by_start(s) {
            assert(sorted_by_start(s.push(x))) by {
                assert(forall|i: int|
                    0 <= i < s.len() ==> (#[trigger] s.push(x)[i]).0 <= s.last().0);
            }
        }
    } else {
        lemma_insert_by_start_props(s.drop_last(), x);
        let inner = spec_insert_by_start(s.drop_last(), x);
        assert(spec_insert_by_start(s, x) == inner.push(s.last()));
        // multiset: inner has the elements of s.drop_last() plus x; pushing
        // s.last() restores the dropped element.
        assert(inner.push(s.last()).to_multiset() =~= inner.to_multiset().insert(s.last()));
        assert(s.drop_last().push(x).to_multiset() =~= s.drop_last().to_multiset().insert(x));
        assert(s =~= s.drop_last().push(s.last()));
        assert(s.to_multiset() =~= s.drop_last().to_multiset().insert(s.last()));
        assert(s.push(x).to_multiset() =~= s.to_multiset().insert(x));
        assert(inner.push(s.last()).to_multiset() =~= s.push(x).to_multiset());
        if sorted_by_start(s) {
            assert(sorted_by_start(s.drop_last())) by {
                assert(forall|i: int, j: int|
                    0 <= i <= j < s.len() - 1 ==> (#[trigger] s.drop_last()[i]).0
                        <= (#[trigger] s.drop_last()[j]).0);
            }
            // every element of inner is either from s.drop_last() or is x,
            // and both start no later than s.last().
            assert forall|i: int| 0 <= i < inner.len() implies (#[trigger] inner[i]).0
                <= s.last().0 by {
                assert(inner.to_multiset().contains(inner[i]));
                assert(s.drop_last().push(x).to_multiset().contains(inner[i]));
                assert(s.drop_last().push(x).contains(inner[i]));
                let w = choose|w: int|
                    0 <= w < s.drop_last().push(x).len() && s.drop_last().push(x)[w] == inner[i];
                if w < s.len() - 1 {
                    assert(s[w].0 <= s.last().0);
                } else {
                    assert(x.0 < s.last().0);
                }
            }
            assert(sorted_by_start(inner.push(s.last())));
        }
    }
}

/// Sorting a day keeps the interval multiset and yields ascending starts.
pub proof fn lemma_sort_day_props(s: Seq<(u16, u16)>)
    ensures
        spec_sort_day(s).to_multiset() == s.to_multiset(),
        sorted_by_start(spec_sort_day(s)),
        spec_sort_day(s).len() == s.len(),
    decreases s.len(),
{
    broadcast use vstd::seq_lib::group_to_multiset_ensures;

    if s.len() == 0 {
        assert(spec_sort_day(s) =~= Seq::empty());
    } else {
        lemma_sort_day_props(s.drop_last());
        lemma_insert_by_start_props(spec_sort_day(s.drop_last()), s.last());
        assert(spec_sort_day(s.drop_last()).push(s.last()).to_multiset() =~= spec_sort_day(
            s.drop_last(),
        ).to_multiset().insert(s.last()));
        assert(s =~= s.drop_last().push(s.last()));
        assert(s.to_multiset() =~= s.drop_last().to_multiset().insert(s.last()));
    }
}

/// Interval conflict is symmetric, so the overlap test does not depend on
/// which of two schedules is asked about the other.
pub proof fn lemma_day_conflicts_symmetric(x: Seq<(u16, u16)>, y: Seq<(u16, u16)>)
    ensures
        day_conflicts(x, y) == day_conflicts(y, x),
{
    if day_conflicts(x, y) {
        let (i, j) = choose|i: int, j: int|
            0 <= i < x.len() && 0 <= j < y.len() && intervals_conflict(x[i], y[j]);
        assert(intervals_conflict(y[j], x[i]));
        assert(day_conflicts(y, x));
    }
    if day_conflicts(y, x) {
        let (i, j) = choose|i: int, j: int|
            0 <= i < y.len() && 0 <= j < x.len() && intervals_conflict(y[i], x[j]);
        assert(intervals_conflict(x[j], y[i]));
        assert(day_conflicts(x, y));
    }
}

/// Conflict between two weeks is symmetric.
pub proof fn lemma_schedules_conflict_symmetric(a: Seq<Seq<(u16, u16)>>, b: Seq<Seq<(u16, u16)>>)
    ensures
        schedules_conflict(a, b) == schedules_conflict(b, a),
{
    assert forall|d: int| 0 <= d < 7 implies day_conflicts(a[d], b[d]) == day_conflicts(
        b[d],
        a[d],
    ) by {
        lemma_day_conflicts_symmetric(a[d], b[d]);
    }
}

/// The overlap relation between two schedules is symmetric: testing `a`
/// against `[b]` answers exactly as testing `b` against `[a]`. In
/// particular, for a non-overlapping pair both tests answer false.
pub proof fn lemma_overlap_symmetric(a: Schedule, b: Schedule)
    ensures
        schedules_conflict(a@, b@) == schedules_conflict(b@, a@),
        conflicts_with_any(a@, views_of(seq![b])) == conflicts_with_any(b@, views_of(seq![a])),
{
    lemma_schedules_conflict_symmetric(a@, b@);
    assert(views_of(seq![b])[0] == b@);
    assert(views_of(seq![a])[0] == a@);
    if schedules_conflict(a@, b@) {
        assert(conflicts_with_any(a@, views_of(seq![b])));
        assert(conflicts_with_any(b@, views_of(seq![a])));
    } else {
        assert(!conflicts_with_any(a@, views_of(seq![b]))) by {
            assert(forall|k: int|
                0 <= k < views_of(seq![b]).len() ==> views_of(seq![b])[k] == b@);
        }
        assert(!conflicts_with_any(b@, views_of(seq![a]))) by {
            assert(forall|k: int|
                0 <= k < views_of(seq![a]).len() ==> views_of(seq![a])[k] == a@);
        }
    }
}

/// No two intervals of the day conflict, whichever schedules they came from.
pub open spec fn day_nonconflicting(s: Seq<(u16, u16)>) -> bool {
    forall|i: int, j: int|
        0 <= i < j < s.len() ==> !intervals_conflict(#[trigger] s[i], #[trigger] s[j])
}

/// Inserting by start splits the list at one position.
proof fn lemma_insert_position(s: Seq<(u16, u16)>, x: (u16, u16)) -> (p: int)
    ensures
        0 <= p <= s.len(),
        spec_insert_by_start(s, x) =~= s.take(p) + seq![x] + s.skip(p),
    decreases s.len(),
{
    if s.len() == 0 {
        assert(s.take(0) + seq![x] + s.skip(0) =~= seq![x]);
        0
    } else if s.last().0 <= x.0 {
        assert(s.push(x) =~= s.take(s.len() as int) + seq![x] + s.skip(s.len() as int));
        s.len() as int
    } else {
        let p = lemma_insert_position(s.drop_last(), x);
        assert(s.drop_last().take(p) =~= s.take(p));
        assert(spec_insert_by_start(s, x) == spec_insert_by_start(s.drop_last(), x).push(s.last()));
        assert((s.drop_last().take(p) + seq![x] + s.drop_last().skip(p)).push(s.last()) =~= s.take(
            p,
        ) + seq![x] + s.skip(p));
        p
    }
}

/// Inserting an interval that conflicts with nothing in a conflict-free
/// list keeps the list conflict-free.
proof fn lemma_insert_keeps_nonconflicting(s: Seq<(u16, u16)>, x: (u16, u16))
    requires
        day_nonconflicting(s),
        forall|k: int| 0 <= k < s.len() ==> !intervals_conflict(#[trigger] s[k], x),
    ensures
        day_nonconflicting(spec_insert_by_start(s, x)),
{
    let p = lemma_insert_position(s, x);
    let r = spec_insert_by_start(s, x);
    assert forall|i: int, j: int| 0 <= i < j < r.len() implies !intervals_conflict(
        #[trigger] r[i],
        #[trigger] r[j],
    ) by {
        if i < p {
            assert(r[i] == s[i]);
        } else if i == p {
            assert(r[i] == x);
        } else {
            assert(r[i] == s[i - 1]);
        }
        if j < p {
            assert(r[j] == s[j]);
        } else if j == p {
            assert(r[j] == x);
        } else {
            assert(r[j] == s[j - 1]);
        }
    }
}

/// Sorting a conflict-free day keeps it conflict-free.
proof fn lemma_sort_keeps_nonconflicting(s: Seq<(u16, u16)>)
    requires
        day_nonconflicting(s),
    ensures
        day_nonconflicting(spec_sort_day(s)),
    decreases s.len(),
{
    broadcast use vstd::seq_lib::group_to_multiset_ensures;

    if s.len() > 0 {
        assert(day_nonconflicting(s.drop_last()));
        lemma_sort_keeps_nonconflicting(s.drop_last());
        let sorted = spec_sort_day(s.drop_last());
        lemma_sort_day_props(s.drop_last());
        assert forall|k: int| 0 <= k < sorted.len() implies !intervals_conflict(
            #[trigger] sorted[k],
            s.last(),
        ) by {
            assert(sorted.to_multiset().contains(sorted[k]));
            assert(s.drop_last().contains(sorted[k]));
            let w = choose|w: int|
                0 <= w < s.drop_last().len() && s.drop_last()[w] == sorted[k];
            assert(s[w] == sorted[k]);
            assert(!intervals_conflict(s[w], s[s.len() - 1]));
        }
        lemma_insert_keeps_nonconflicting(sorted, s.last());
    }
}

/// In a start-sorted, conflict-free day each interval ends before the next
/// begins.
proof fn lemma_sorted_nonconflicting_separated(s: Seq<(u16, u16)>)
    requires
        sorted_by_start(s),
        day_nonconflicting(s),
    ensures
        day_separated(s),
{
    assert forall|i: int| 0 <= i < s.len() - 1 implies (#[trigger] s[i]).0 + s[i].1 <= s[i
        + 1].0 by {
        assert(!intervals_conflict(s[i], s[i + 1]));
        assert(s[i].0 <= s[i + 1].0);
    }
}

/// Each interval of a pooled day comes from one of the pooled schedules.
proof fn lemma_pool_day_member(vs: Seq<Seq<Seq<(u16, u16)>>>, d: int, i: int) -> (r: (int, int))
    requires
        0 <= i < spec_pool_day(vs, d).len(),
    ensures
        0 <= r.0 < vs.len(),
        0 <= r.1 < vs[r.0][d].len(),
        spec_pool_day(vs, d)[i] == vs[r.0][d][r.1],
    decreases vs.len(),
{
    let rest = spec_pool_day(vs.drop_last(), d);
    if i < rest.len() {
        let r = lemma_pool_day_member(vs.drop_last(), d, i);
        assert(vs.drop_last()[r.0] == vs[r.0]);
        r
    } else {
        (vs.len() - 1, i - rest.len())
    }
}

/// Pooling the day lists of schedules that conflict neither internally nor
/// with each other yields a conflict-free day.
proof fn lemma_pool_day_nonconflicting(vs: Seq<Seq<Seq<(u16, u16)>>>, d: int)
    requires
        0 <= d < 7,
        forall|k: int, dd: int|
            0 <= k < vs.len() && 0 <= dd < 7 ==> day_nonconflicting(#[trigger] vs[k][dd]),
        forall|k: int, l: int|
            0 <= k < l < vs.len() ==> !schedules_conflict(#[trigger] vs[k], #[trigger] vs[l]),
    ensures
        day_nonconflicting(spec_pool_day(vs, d)),
    decreases vs.len(),
{
    if vs.len() > 0 {
        lemma_pool_day_nonconflicting(vs.drop_last(), d);
        let rest = spec_pool_day(vs.drop_last(), d);
        let pool = spec_pool_day(vs, d);
        let last = vs.last();
        assert forall|i: int, j: int| 0 <= i < j < pool.len() implies !intervals_conflict(
            #[trigger] pool[i],
            #[trigger] pool[j],
        ) by {
            if j < rest.len() {
                assert(pool[i] == rest[i] && pool[j] == rest[j]);
            } else if i >= rest.len() {
                assert(pool[i] == last[d][i - rest.len()]);
                assert(pool[j] == last[d][j - rest.len()]);
                assert(day_nonconflicting(vs[vs.len() - 1][d]));
            } else {
                assert(pool[j] == last[d][j - rest.len()]);
                let (k, m) = lemma_pool_day_member(vs.drop_last(), d, i);
                assert(pool[i] == rest[i]);
                assert(vs.drop_last()[k] == vs[k]);
                assert(!schedules_conflict(vs[k], vs[vs.len() - 1]));
                assert(!day_conflicts(vs[k][d], last[d]));
                assert(!intervals_conflict(vs[k][d][m], last[d][j - rest.len()]));
            }
        }
    }
}

/// A complete schedule's merged week, once sorted, is separated, the shape
/// the scorer requires: when every section's own day lists are free of
/// internal conflict and no two sections overlap, no interval of the merged
/// week starts before the previous one ends.
pub proof fn lemma_compatible_week_separated(vs: Seq<Seq<Seq<(u16, u16)>>>)
    requires
        forall|k: int, dd: int|
            0 <= k < vs.len() && 0 <= dd < 7 ==> day_nonconflicting(#[trigger] vs[k][dd]),
        forall|k: int, l: int|
            0 <= k < l < vs.len() ==> !schedules_conflict(#[trigger] vs[k], #[trigger] vs[l]),
    ensures
        forall|d: int| 0 <= d < 7 ==> day_separated(spec_sort_day(#[trigger] spec_flatten(vs)[d])),
{
    assert forall|d: int| 0 <= d < 7 implies day_separated(
        spec_sort_day(#[trigger] spec_flatten(vs)[d]),
    ) by {
        lemma_pool_day_nonconflicting(vs, d);
        lemma_sort_keeps_nonconflicting(spec_pool_day(vs, d));
        lemma_sort_day_props(spec_pool_day(vs, d));
        lemma_sorted_nonconflicting_separated(spec_sort_day(spec_pool_day(vs, d)));
        assert(spec_flatten(vs)[d] == spec_pool_day(vs, d));
    }
}

/// Every interval of the sorted pooled day is an interval of one of the
/// pooled schedules, so interval bounds carry over to the merged week.
pub proof fn lemma_sorted_week_bounded(vs: Seq<Seq<Seq<(u16, u16)>>>)
    requires
        forall|k: int| 0 <= k < vs.len() ==> view_bounded(#[trigger] vs[k]),
        forall|k: int| 0 <= k < vs.len() ==> (#[trigger] vs[k]).len() == 7,
    ensures
        forall|d: int, i: int|
            0 <= d < 7 && 0 <= i < spec_sort_day(spec_flatten(vs)[d]).len() ==> (
            #[trigger] spec_sort_day(spec_flatten(vs)[d])[i]).0 + spec_sort_day(
                spec_flatten(vs)[d],
            )[i].1 <= 1440,
{
    broadcast use vstd::seq_lib::group_to_multiset_ensures;

    assert forall|d: int, i: int|
        0 <= d < 7 && 0 <= i < spec_sort_day(spec_flatten(vs)[d]).len() implies (
    #[trigger] spec_sort_day(spec_flatten(vs)[d])[i]).0 + spec_sort_day(spec_flatten(vs)[d])[i].1
        <= 1440 by {
        let pool = spec_pool_day(vs, d);
        assert(spec_flatten(vs)[d] == pool);
        let sorted = spec_sort_day(pool);
        lemma_sort_day_props(pool);
        assert(sorted.to_multiset().contains(sorted[i]));
        assert(pool.contains(sorted[i]));
        let w = choose|w: int| 0 <= w < pool.len() && pool[w] == sorted[i];
        let (k, m) = lemma_pool_day_member(vs, d, w);
        assert(vs[k][d][m].0 + vs[k][d][m].1 <= 1440);
    }
}

/// A schedule with no intervals on any day conflicts with nothing.
pub proof fn lemma_empty_conflicts_nothing(v: Seq<Seq<(u16, u16)>>, others: Seq<
    Seq<Seq<(u16, u16)>>,
>)
    requires
        v.len() == 7,
        forall|d: int| 0 <= d < v.len() ==> (#[trigger] v[d]).len() == 0,
    ensures
        forall|w: Seq<Seq<(u16, u16)>>| !schedules_conflict(v, w),
        !conflicts_with_any(v, others),
{
    assert forall|w: Seq<Seq<(u16, u16)>>| !schedules_conflict(v, w) by {
        assert(forall|d: int| 0 <= d < 7 ==> !day_conflicts(v[d], w[d]));
    }
}

} // verus!
