//! The search pipeline: requirement-group resolution, constraint filtering,
//! validation and deduplication, and the backtracking enumerator.
//!
//! The stages run in order over a read-only catalog: [`include_classes`]
//! partitions the catalog into one candidate bucket per selector,
//! [`filter_classes`] prunes sections that a constraint disallows,
//! [`validate_classes`] drops sections without concrete meeting times and
//! collapses schedule-identical duplicates, [`map_classes`] reduces each
//! candidate to its key and weekly grid, and [`bruteforce_schedules`] emits
//! every complete, non-overlapping assignment of one candidate per bucket.

use vstd::prelude::*;
use crate::classes::{bank_at, bank_has, Class, ClassBank, Crn, SmallClass};
use crate::days::Days;
use crate::schedule::{conflicts_with_any, schedules_conflict, views_of, Schedule};
use crate::time::Time;

verus! {

broadcast use crate::schedule::lemma_schedule_view_len;

/// A requirement-group selector: one specific section, all sections of a
/// subject (optionally narrowed to a section type), or every section.
#[derive(Clone, Debug, PartialEq, Eq, Hash)]
pub enum Include {
    Class { crn: Crn },
    Course { subject: String, course_type: Option<String> },
    All,
}

/// What [`Include::matches`] decides.
pub open spec fn spec_matches(inc: Include, c: Class) -> bool {
    match inc {
        Include::Class { crn } => c.crn == crn,
        Include::Course { subject, course_type } => c.subject_course@ == subject@ && match course_type {
            Some(t) => c.schedule_type@ == t@,
            None => true,
        },
        Include::All => true,
    }
}

fn str_eq(a: &String, b: &String) -> (r: bool)
    ensures
        r == (a@ == b@),
{
    *a == *b
}

impl Include {
    /// Whether this selector matches the section: by key, by subject (and
    /// section type, when given), or unconditionally.
    pub fn matches(&self, class: &Class) -> (r: bool)
        ensures
            r == spec_matches(*self, *class),
    {
        match self {
            Include::Class { crn } => class.crn == *crn,
            Include::Course { subject, course_type } => {
                if str_eq(&class.subject_course, subject) {
                    match course_type {
                        Some(t) => str_eq(&class.schedule_type, t),
                        None => true,
                    }
                } else {
                    false
                }
            },
            Include::All => true,
        }
    }
}

/// A filtering rule applied to every candidate before the search.
#[derive(Clone, Debug, PartialEq, Eq)]
pub enum Constraint {
    BlockTimes { start: Time, end: Time, days: Days },
    BlockDays { days: Days },
    StartAfter { time: Time, days: Days },
    EndBefore { time: Time, days: Days },
    Campus { name: String },
}

/// `t` lies in the closed range from `lo` to `hi`.
pub open spec fn time_in_closed(lo: Time, hi: Time, t: Time) -> bool {
    lo.spec_le(t) && t.spec_le(hi)
}

/// The closed ranges `[a_lo, a_hi]` and `[b_lo, b_hi]` touch, checked in
/// both containment directions.
pub open spec fn ranges_touch(a_lo: Time, a_hi: Time, b_lo: Time, b_hi: Time) -> bool {
    time_in_closed(a_lo, a_hi, b_lo) || time_in_closed(a_lo, a_hi, b_hi) || time_in_closed(
        b_lo,
        b_hi,
        a_lo,
    ) || time_in_closed(b_lo, b_hi, a_hi)
}

/// What [`Constraint::allows`] decides for each rule.
pub open spec fn spec_allows(con: Constraint, c: Class) -> bool {
    match con {
        Constraint::BlockDays { days } => forall|k: int|
            0 <= k < c.meetings@.len() ==> !(#[trigger] c.meetings@[k]).days.spec_intersects(days),
        Constraint::StartAfter { time, days } => forall|k: int|
            0 <= k < c.meetings@.len() && (#[trigger] c.meetings@[k]).days.spec_intersects(days)
                ==> (c.meetings@[k].start_time matches Some(s) && !s.spec_lt(time)),
        Constraint::EndBefore { time, days } => forall|k: int|
            0 <= k < c.meetings@.len() && (#[trigger] c.meetings@[k]).days.spec_intersects(days)
                ==> (c.meetings@[k].end_time matches Some(e) && !time.spec_lt(e)),
        Constraint::BlockTimes { start, end, days } => forall|k: int|
            0 <= k < c.meetings@.len() && (#[trigger] c.meetings@[k]).days.spec_intersects(days)
                ==> (c.meetings@[k].start_time matches Some(s) && c.meetings@[k].end_time matches Some(
                e,
            ) && !ranges_touch(start, end, s, e)),
        Constraint::Campus { name } => c.campus@ == name@,
    }
}

/// The section passes every rule in the list.
pub open spec fn spec_allows_all(cons: Seq<Constraint>, c: Class) -> bool {
    forall|k: int| 0 <= k < cons.len() ==> spec_allows(#[trigger] cons[k], c)
}

impl Constraint {
    /// Whether the section passes this rule. A meeting missing a needed time
    /// fails the time rules on its days: compliance cannot be shown.
    #[verifier::loop_isolation(false)]
    pub fn allows(&self, class: &Class) -> (r: bool)
        ensures
            r == spec_allows(*self, *class),
    {
        match self {
            Constraint::BlockDays { days } => {
                let ms = &class.meetings;
                let mut k: usize = 0;
                while k < ms.len()
                    invariant
                        k <= ms@.len(),
                        ms@ == class.meetings@,
                        forall|i: int|
                            0 <= i < k ==> !(#[trigger] ms@[i]).days.spec_intersects(*days),
                    decreases ms@.len() - k,
                {
                    if ms[k].days.intersects(days) {
                        proof {
                            if spec_allows(*self, *class) {
                                assert(!class.meetings@[k as int].days.spec_intersects(*days));
                            }
                        }
                        return false;
                    }
                    k = k + 1;
                }
                true
            },
            Constraint::StartAfter { time, days } => {
                let ms = &class.meetings;
                let mut k: usize = 0;
                while k < ms.len()
                    invariant
                        k <= ms@.len(),
                        ms@ == class.meetings@,
                        forall|i: int|
                            0 <= i < k && (#[trigger] ms@[i]).days.spec_intersects(*days) ==> (
                            ms@[i].start_time matches Some(s) && !s.spec_lt(*time)),
                    decreases ms@.len() - k,
                {
                    if ms[k].days.intersects(days) {
                        match &ms[k].start_time {
                            Some(s) => {
                                if s.lt(time) {
                                    proof {
                                        if spec_allows(*self, *class) {
                                            assert(!class.meetings@[k as int].start_time->0
                                                .spec_lt(*time));
                                        }
                                    }
                                    return false;
                                }
                            },
                            None => {
                                proof {
                                    if spec_allows(*self, *class) {
                                        assert(class.meetings@[k as int].start_time is Some);
                                    }
                                }
                                return false;
                            },
                        }
                    }
                    k = k + 1;
                }
                true
            },
            Constraint::EndBefore { time, days } => {
                let ms = &class.meetings;
                let mut k: usize = 0;
                while k < ms.len()
                    invariant
                        k <= ms@.len(),
                        ms@ == class.meetings@,
                        forall|i: int|
                            0 <= i < k && (#[trigger] ms@[i]).days.spec_intersects(*days) ==> (
                            ms@[i].end_time matches Some(e) && !time.spec_lt(e)),
                    decreases ms@.len() - k,
                {
                    if ms[k].days.intersects(days) {
                        match &ms[k].end_time {
                            Some(e) => {
                                if time.lt(e) {
                                    proof {
                                        if spec_allows(*self, *class) {
                                            assert(!time.spec_lt(
                                                class.meetings@[k as int].end_time->0,
                                            ));
                                        }
                                    }
                                    return false;
                                }
                            },
                            None => {
                                proof {
                                    if spec_allows(*self, *class) {
                                        assert(class.meetings@[k as int].end_time is Some);
                                    }
                                }
                                return false;
                            },
                        }
                    }
                    k = k + 1;
                }
                true
            },
            Constraint::BlockTimes { start, end, days } => {
                let ms = &class.meetings;
                let mut k: usize = 0;
                while k < ms.len()
                    invariant
                        k <= ms@.len(),
                        ms@ == class.meetings@,
                        forall|i: int|
                            0 <= i < k && (#[trigger] ms@[i]).days.spec_intersects(*days) ==> (
                            ms@[i].start_time matches Some(s) && ms@[i].end_time matches Some(e)
                                && !ranges_touch(*start, *end, s, e)),
                    decreases ms@.len() - k,
                {
                    if ms[k].days.intersects(days) {
                        match (&ms[k].start_time, &ms[k].end_time) {
                            (Some(s), Some(e)) => {
                                let touch = (start.le(s) && s.le(end)) || (start.le(e) && e.le(
                                    end,
                                )) || (s.le(start) && start.le(e)) || (s.le(end) && end.le(e));
                                if touch {
                                    proof {
                                        if spec_allows(*self, *class) {
                                            assert(!ranges_touch(
                                                *start,
                                                *end,
                                                class.meetings@[k as int].start_time->0,
                                                class.meetings@[k as int].end_time->0,
                                            ));
                                        }
                                    }
                                    return false;
                                }
                            },
                            _ => {
                                proof {
                                    if spec_allows(*self, *class) {
                                        assert(class.meetings@[k as int].start_time is Some
                                            && class.meetings@[k as int].end_time is Some);
                                    }
                                }
                                return false;
                            },
                        }
                    }
                    k = k + 1;
                }
                true
            },
            Constraint::Campus { name } => str_eq(&class.campus, name),
        }
    }
}

/// An extra acceptance rule injected into requirement-group resolution; the
/// caller supplies the meaning. A section joins a bucket only if the filter
/// keeps it.
pub trait ClassFilter {
    /// What the filter decides.
    spec fn spec_keep(&self, class: Class) -> bool;

    /// Decides whether the section may join any bucket.
    fn keep(&self, class: &Class) -> (r: bool)
        ensures
            r == self.spec_keep(*class),
    ;
}

/// The filter that keeps everything: resolution with no extra rule.
pub struct KeepAll;

impl ClassFilter for KeepAll {
    open spec fn spec_keep(&self, class: Class) -> bool {
        true
    }

    fn keep(&self, class: &Class) -> (r: bool)
        ensures
            r == self.spec_keep(*class),
    {
        true
    }
}

/// The section belongs to selector `i`: that selector matches it and no
/// earlier selector does. A section joins at most one bucket.
pub open spec fn spec_joins(includes: Seq<Include>, c: Class, i: int) -> bool {
    &&& 0 <= i < includes.len()
    &&& spec_matches(includes[i], c)
    &&& forall|j: int| 0 <= j < i ==> !spec_matches(#[trigger] includes[j], c)
}

/// The keys of bucket `i`: the sections of the catalog, in catalog order,
/// that the filter keeps and whose first matching selector is `i`.
pub open spec fn spec_bucket<F: ClassFilter>(
    bank: Seq<Class>,
    includes: Seq<Include>,
    f: F,
    i: int,
) -> Seq<Crn>
    decreases bank.len(),
{
    if bank.len() == 0 {
        Seq::empty()
    } else {
        let rest = spec_bucket(bank.drop_last(), includes, f, i);
        let c = bank.last();
        if f.spec_keep(c) && spec_joins(includes, c, i) {
            rest.push(c.crn)
        } else {
            rest
        }
    }
}

/// The first selector that matches, if any.
fn first_match(includes: &Vec<Include>, class: &Class) -> (r: Option<usize>)
    ensures
        r matches Some(i) ==> spec_joins(includes@, *class, i as int),
        r is None ==> forall|j: int|
            0 <= j < includes@.len() ==> !spec_matches(#[trigger] includes@[j], *class),
{
    let mut j: usize = 0;
    while j < includes.len()
        invariant
            j <= includes@.len(),
            forall|i: int| 0 <= i < j ==> !spec_matches(#[trigger] includes@[i], *class),
        decreases includes@.len() - j,
    {
        if includes[j].matches(class) {
            return Some(j);
        }
        j = j + 1;
    }
    None
}

/// Partitions the catalog into one candidate bucket per selector: each kept
/// section joins the bucket of its first matching selector; sections that
/// match no selector, or that the filter rejects, are dropped. A selector
/// that nothing matches yields an empty bucket, and an empty bucket admits
/// no complete schedule.
pub fn include_classes<F: ClassFilter>(
    bank: &ClassBank,
    includes: &Vec<Include>,
    filters: &F,
) -> (buckets: Vec<Vec<Crn>>)
    ensures
        buckets@.len() == includes@.len(),
        forall|i: int|
            0 <= i < includes@.len() ==> (#[trigger] buckets@[i])@ == spec_bucket(
                bank@,
                includes@,
                *filters,
                i,
            ),
        forall|i: int, j: int|
            0 <= i < buckets@.len() && 0 <= j < buckets@[i]@.len() ==> bank_has(
                bank@,
                #[trigger] buckets@[i]@[j],
            ),
{
    let mut buckets: Vec<Vec<Crn>> = Vec::new();
    let mut i: usize = 0;
    while i < includes.len()
        invariant
            i <= includes@.len(),
            buckets@.len() == i,
            forall|ii: int|
                0 <= ii < i ==> (#[trigger] buckets@[ii])@ == spec_bucket(
                    bank@,
                    includes@,
                    *filters,
                    ii,
                ),
        decreases includes@.len() - i,
    {
        let bucket = build_bucket(bank, includes, filters, i);
        buckets.push(bucket);
        i = i + 1;
    }
    proof {
        assert forall|i: int, j: int|
            0 <= i < buckets@.len() && 0 <= j < buckets@[i]@.len() implies bank_has(
            bank@,
            #[trigger] buckets@[i]@[j],
        ) by {
            lemma_bucket_members(bank@, includes@, *filters, i, j);
        }
    }
    buckets
}

fn build_bucket<F: ClassFilter>(
    bank: &ClassBank,
    includes: &Vec<Include>,
    filters: &F,
    i: usize,
) -> (bucket: Vec<Crn>)
    ensures
        bucket@ == spec_bucket(bank@, includes@, *filters, i as int),
{
    let classes = bank.classes();
    let mut bucket: Vec<Crn> = Vec::new();
    let mut k: usize = 0;
    while k < classes.len()
        invariant
            k <= bank@.len(),
            classes@ == bank@,
            bucket@ == spec_bucket(bank@.take(k as int), includes@, *filters, i as int),
        decreases bank@.len() - k,
    {
        let c = &classes[k];
        if filters.keep(c) {
            match first_match(includes, c) {
                Some(j) => {
                    if j == i {
                        bucket.push(c.crn);
                    } else {
                        proof {
                            assert(!spec_joins(includes@, *c, i as int));
                        }
                    }
                },
                None => {
                    proof {
                        assert(!spec_joins(includes@, *c, i as int));
                    }
                },
            }
        }
        proof {
            assert(bank@.take(k + 1).drop_last() =~= bank@.take(k as int));
            assert(bank@.take(k + 1).last() == bank@[k as int]);
        }
        k = k + 1;
    }
    proof {
        assert(bank@.take(bank@.len() as int) =~= bank@);
    }
    bucket
}

/// Every key a bucket holds belongs to some catalog section.
proof fn lemma_bucket_members<F: ClassFilter>(
    bank: Seq<Class>,
    includes: Seq<Include>,
    f: F,
    i: int,
    j: int,
)
    requires
        0 <= j < spec_bucket(bank, includes, f, i).len(),
    ensures
        bank_has(bank, spec_bucket(bank, includes, f, i)[j]),
    decreases bank.len(),
{
    if bank.len() > 0 {
        let rest = spec_bucket(bank.drop_last(), includes, f, i);
        if j < rest.len() {
            lemma_bucket_members(bank.drop_last(), includes, f, i, j);
            let crn = rest[j];
            let w = choose|w: int| 0 <= w < bank.drop_last().len() && bank.drop_last()[w].crn == crn;
            assert(bank[w].crn == crn);
        } else {
            assert(bank[bank.len() - 1].crn == spec_bucket(bank, includes, f, i)[j]);
        }
    }
}

/// A bucket after constraint filtering: the keys whose sections pass every
/// rule, keeping their order.
pub open spec fn spec_filter_bucket(bank: Seq<Class>, b: Seq<Crn>, cons: Seq<Constraint>) -> Seq<
    Crn,
>
    decreases b.len(),
{
    if b.len() == 0 {
        Seq::empty()
    } else {
        let rest = spec_filter_bucket(bank, b.drop_last(), cons);
        if spec_allows_all(cons, bank_at(bank, b.last())) {
            rest.push(b.last())
        } else {
            rest
        }
    }
}

/// Whether the section passes every rule in the list.
pub fn allows_all(constraints: &Vec<Constraint>, class: &Class) -> (r: bool)
    ensures
        r == spec_allows_all(constraints@, *class),
{
    let mut k: usize = 0;
    while k < constraints.len()
        invariant
            k <= constraints@.len(),
            forall|i: int| 0 <= i < k ==> spec_allows(#[trigger] constraints@[i], *class),
        decreases constraints@.len() - k,
    {
        if !constraints[k].allows(class) {
            return false;
        }
        k = k + 1;
    }
    true
}

/// Keeps, in each bucket, exactly the sections that pass every constraint.
pub fn filter_classes(bank: &ClassBank, buckets: Vec<Vec<Crn>>, constraints: &Vec<Constraint>) -> (r:
    Vec<Vec<Crn>>)
    requires
        bank.wf(),
        forall|i: int, j: int|
            0 <= i < buckets@.len() && 0 <= j < buckets@[i]@.len() ==> bank_has(
                bank@,
                #[trigger] buckets@[i]@[j],
            ),
    ensures
        r@.len() == buckets@.len(),
        forall|i: int|
            0 <= i < buckets@.len() ==> (#[trigger] r@[i])@ == spec_filter_bucket(
                bank@,
                buckets@[i]@,
                constraints@,
            ),
        forall|i: int, j: int|
            0 <= i < r@.len() && 0 <= j < r@[i]@.len() ==> bank_has(bank@, #[trigger] r@[i]@[j]),
{
    let mut out: Vec<Vec<Crn>> = Vec::new();
    let mut i: usize = 0;
    while i < buckets.len()
        invariant
            bank.wf(),
            i <= buckets@.len(),
            out@.len() == i,
            forall|ii: int, j: int|
                0 <= ii < buckets@.len() && 0 <= j < buckets@[ii]@.len() ==> bank_has(
                    bank@,
                    #[trigger] buckets@[ii]@[j],
                ),
            forall|ii: int|
                0 <= ii < i ==> (#[trigger] out@[ii])@ == spec_filter_bucket(
                    bank@,
                    buckets@[ii]@,
                    constraints@,
                ),
        decreases buckets@.len() - i,
    {
        let b = &buckets[i];
        let mut kept: Vec<Crn> = Vec::new();
        let mut k: usize = 0;
        while k < b.len()
            invariant
                bank.wf(),
                i < buckets@.len(),
                b@ == buckets@[i as int]@,
                forall|j: int| 0 <= j < b@.len() ==> bank_has(bank@, #[trigger] b@[j]),
                k <= b@.len(),
                kept@ == spec_filter_bucket(bank@, b@.take(k as int), constraints@),
            decreases b@.len() - k,
        {
            let crn = b[k];
            let class = bank.get(crn).unwrap();
            if allows_all(constraints, class) {
                kept.push(crn);
            }
            proof {
                assert(b@.take(k + 1).drop_last() =~= b@.take(k as int));
                assert(b@.take(k + 1).last() == b@[k as int]);
            }
            k = k + 1;
        }
        proof {
            assert(b@.take(b@.len() as int) =~= b@);
        }
        out.push(kept);
        i = i + 1;
    }
    proof {
        assert forall|i: int, j: int|
            0 <= i < out@.len() && 0 <= j < out@[i]@.len() implies bank_has(
            bank@,
            #[trigger] out@[i]@[j],
        ) by {
            lemma_filter_bucket_members(bank@, buckets@[i]@, constraints@, j);
        }
    }
    out
}

/// Filtering a bucket keeps only keys the bucket already had.
proof fn lemma_filter_bucket_members(bank: Seq<Class>, b: Seq<Crn>, cons: Seq<Constraint>, j: int)
    requires
        0 <= j < spec_filter_bucket(bank, b, cons).len(),
    ensures
        b.contains(spec_filter_bucket(bank, b, cons)[j]),
    decreases b.len(),
{
    if b.len() > 0 {
        let rest = spec_filter_bucket(bank, b.drop_last(), cons);
        if j < rest.len() {
            lemma_filter_bucket_members(bank, b.drop_last(), cons, j);
            let crn = rest[j];
            let w = choose|w: int| 0 <= w < b.drop_last().len() && b.drop_last()[w] == crn;
            assert(b[w] == crn);
        } else {
            assert(b[b.len() - 1] == spec_filter_bucket(bank, b, cons)[j]);
        }
    }
}

/// Every section a filtered bucket keeps passes every active constraint:
/// re-running the rules on the output always succeeds.
pub proof fn lemma_filtered_satisfy_constraints(
    bank: Seq<Class>,
    b: Seq<Crn>,
    cons: Seq<Constraint>,
)
    ensures
        forall|j: int|
            0 <= j < spec_filter_bucket(bank, b, cons).len() ==> spec_allows_all(
                cons,
                bank_at(bank, #[trigger] spec_filter_bucket(bank, b, cons)[j]),
            ),
{
    assert forall|j: int| 0 <= j < spec_filter_bucket(bank, b, cons).len() implies spec_allows_all(
        cons,
        bank_at(bank, #[trigger] spec_filter_bucket(bank, b, cons)[j]),
    ) by {
        lemma_filter_bucket_allows(bank, b, cons, j);
    }
}

proof fn lemma_filter_bucket_allows(bank: Seq<Class>, b: Seq<Crn>, cons: Seq<Constraint>, j: int)
    requires
        0 <= j < spec_filter_bucket(bank, b, cons).len(),
    ensures
        spec_allows_all(cons, bank_at(bank, spec_filter_bucket(bank, b, cons)[j])),
    decreases b.len(),
{
    if b.len() > 0 {
        let rest = spec_filter_bucket(bank, b.drop_last(), cons);
        if j < rest.len() {
            lemma_filter_bucket_allows(bank, b.drop_last(), cons, j);
        }
    }
}

/// Two sections are schedule-identical duplicates.
pub open spec fn layout_eq(a: Class, b: Class) -> bool {
    a.layout() =~= b.layout()
}

/// Whether a candidate survives validation given the keys already seen in
/// its bucket: all its meetings carry times, and no earlier fully-timed
/// section has the identical meeting layout.
pub open spec fn spec_dedup_keep(bank: Seq<Class>, prior: Seq<Crn>, crn: Crn) -> bool {
    &&& bank_at(bank, crn).all_timed()
    &&& forall|j: int|
        0 <= j < prior.len() ==> !(bank_at(bank, #[trigger] prior[j]).all_timed() && layout_eq(
            bank_at(bank, prior[j]),
            bank_at(bank, crn),
        ))
}

/// A bucket after validation: sections with untimed meetings dropped, and
/// among the rest only the first of each meeting layout kept.
pub open spec fn spec_validate_bucket(bank: Seq<Class>, b: Seq<Crn>) -> Seq<Crn>
    decreases b.len(),
{
    if b.len() == 0 {
        Seq::empty()
    } else {
        let rest = spec_validate_bucket(bank, b.drop_last());
        if spec_dedup_keep(bank, b.drop_last(), b.last()) {
            rest.push(b.last())
        } else {
            rest
        }
    }
}

/// Drops, in each bucket, every section with a meeting lacking a concrete
/// time (overlap and scoring cannot be computed for it), then collapses
/// schedule-identical duplicates, keeping the first of each layout.
pub fn validate_classes(bank: &ClassBank, buckets: Vec<Vec<Crn>>) -> (r: Vec<Vec<Crn>>)
    requires
        bank.wf(),
        forall|i: int, j: int|
            0 <= i < buckets@.len() && 0 <= j < buckets@[i]@.len() ==> bank_has(
                bank@,
                #[trigger] buckets@[i]@[j],
            ),
    ensures
        r@.len() == buckets@.len(),
        forall|i: int|
            0 <= i < buckets@.len() ==> (#[trigger] r@[i])@ == spec_validate_bucket(
                bank@,
                buckets@[i]@,
            ),
        forall|i: int, j: int|
            0 <= i < r@.len() && 0 <= j < r@[i]@.len() ==> bank_has(bank@, #[trigger] r@[i]@[j]),
{
    let mut out: Vec<Vec<Crn>> = Vec::new();
    let mut i: usize = 0;
    while i < buckets.len()
        invariant
            bank.wf(),
            i <= buckets@.len(),
            out@.len() == i,
            forall|ii: int, j: int|
                0 <= ii < buckets@.len() && 0 <= j < buckets@[ii]@.len() ==> bank_has(
                    bank@,
                    #[trigger] buckets@[ii]@[j],
                ),
            forall|ii: int|
                0 <= ii < i ==> (#[trigger] out@[ii])@ == spec_validate_bucket(
                    bank@,
                    buckets@[ii]@,
                ),
        decreases buckets@.len() - i,
    {
        let b = &buckets[i];
        let mut kept: Vec<Crn> = Vec::new();
        let mut k: usize = 0;
        while k < b.len()
            invariant
                bank.wf(),
                i < buckets@.len(),
                b@ == buckets@[i as int]@,
                forall|j: int| 0 <= j < b@.len() ==> bank_has(bank@, #[trigger] b@[j]),
                k <= b@.len(),
                kept@ == spec_validate_bucket(bank@, b@.take(k as int)),
            decreases b@.len() - k,
        {
            let class = bank.get(b[k]).unwrap();
            if class.is_all_timed() {
                let mut dup = false;
                let ghost prior = b@.take(k as int);
                let mut j: usize = 0;
                while j < k
                    invariant
                        bank.wf(),
                        k < b@.len(),
                        j <= k,
                        forall|jj: int| 0 <= jj < b@.len() ==> bank_has(bank@, #[trigger] b@[jj]),
                        prior == b@.take(k as int),
                        *class == bank_at(bank@, b@[k as int]),
                        dup ==> !spec_dedup_keep(bank@, prior, b@[k as int]),
                        !dup ==> forall|jj: int|
                            0 <= jj < j ==> !(bank_at(bank@, #[trigger] prior[jj]).all_timed()
                                && layout_eq(
                                bank_at(bank@, prior[jj]),
                                bank_at(bank@, b@[k as int]),
                            )),
                    decreases k - j,
                {
                    if !dup {
                        let earlier = bank.get(b[j]).unwrap();
                        if earlier.is_all_timed() && earlier.same_layout(class) {
                            dup = true;
                            proof {
                                assert(prior[j as int] == b@[j as int]);
                                if spec_dedup_keep(bank@, prior, b@[k as int]) {
                                    assert(!(bank_at(bank@, prior[j as int]).all_timed()
                                        && layout_eq(
                                        bank_at(bank@, prior[j as int]),
                                        bank_at(bank@, b@[k as int]),
                                    )));
                                }
                            }
                        }
                    }
                    j = j + 1;
                }
                if !dup {
                    kept.push(b[k]);
                    proof {
                        assert(spec_dedup_keep(bank@, prior, b@[k as int]));
                    }
                }
            }
            proof {
                assert(b@.take(k + 1).drop_last() =~= b@.take(k as int));
                assert(b@.take(k + 1).last() == b@[k as int]);
            }
            k = k + 1;
        }
        proof {
            assert(b@.take(b@.len() as int) =~= b@);
        }
        out.push(kept);
        i = i + 1;
    }
    proof {
        assert forall|i: int, j: int|
            0 <= i < out@.len() && 0 <= j < out@[i]@.len() implies bank_has(
            bank@,
            #[trigger] out@[i]@[j],
        ) by {
            lemma_validate_bucket_members(bank@, buckets@[i]@, j);
        }
    }
    out
}

/// Validation keeps only keys the bucket already had.
proof fn lemma_validate_bucket_members(bank: Seq<Class>, b: Seq<Crn>, j: int)
    requires
        0 <= j < spec_validate_bucket(bank, b).len(),
    ensures
        b.contains(spec_validate_bucket(bank, b)[j]),
    decreases b.len(),
{
    if b.len() > 0 {
        let rest = spec_validate_bucket(bank, b.drop_last());
        if j < rest.len() {
            lemma_validate_bucket_members(bank, b.drop_last(), j);
            let crn = rest[j];
            let w = choose|w: int| 0 <= w < b.drop_last().len() && b.drop_last()[w] == crn;
            assert(b[w] == crn);
        } else {
            assert(b[b.len() - 1] == spec_validate_bucket(bank, b)[j]);
        }
    }
}

/// Reduces each candidate to its key and weekly grid, bucket by bucket.
pub fn map_classes(bank: &ClassBank, buckets: &Vec<Vec<Crn>>) -> (r: Vec<Vec<SmallClass>>)
    requires
        bank.wf(),
        forall|i: int, j: int|
            0 <= i < buckets@.len() && 0 <= j < buckets@[i]@.len() ==> bank_has(
                bank@,
                #[trigger] buckets@[i]@[j],
            ),
    ensures
        r@.len() == buckets@.len(),
        forall|i: int| 0 <= i < r@.len() ==> (#[trigger] r@[i])@.len() == buckets@[i]@.len(),
        forall|i: int, j: int|
            0 <= i < r@.len() && 0 <= j < r@[i]@.len() ==> (#[trigger] r@[i]@[j]).crn
                == buckets@[i]@[j] && r@[i]@[j].schedule@ == bank_at(
                bank@,
                buckets@[i]@[j],
            ).schedule@,
{
    let mut out: Vec<Vec<SmallClass>> = Vec::new();
    let mut i: usize = 0;
    while i < buckets.len()
        invariant
            bank.wf(),
            i <= buckets@.len(),
            out@.len() == i,
            forall|ii: int, j: int|
                0 <= ii < buckets@.len() && 0 <= j < buckets@[ii]@.len() ==> bank_has(
                    bank@,
                    #[trigger] buckets@[ii]@[j],
                ),
            forall|ii: int| 0 <= ii < i ==> (#[trigger] out@[ii])@.len() == buckets@[ii]@.len(),
            forall|ii: int, j: int|
                0 <= ii < i && 0 <= j < out@[ii]@.len() ==> (#[trigger] out@[ii]@[j]).crn
                    == buckets@[ii]@[j] && out@[ii]@[j].schedule@ == bank_at(
                    bank@,
                    buckets@[ii]@[j],
                ).schedule@,
        decreases buckets@.len() - i,
    {
        let b = &buckets[i];
        let mut group: Vec<SmallClass> = Vec::new();
        let mut k: usize = 0;
        while k < b.len()
            invariant
                bank.wf(),
                i < buckets@.len(),
                b@ == buckets@[i as int]@,
                forall|j: int| 0 <= j < b@.len() ==> bank_has(bank@, #[trigger] b@[j]),
                k <= b@.len(),
                group@.len() == k,
                forall|j: int|
                    0 <= j < k ==> (#[trigger] group@[j]).crn == b@[j] && group@[j].schedule@
                        == bank_at(bank@, b@[j]).schedule@,
            decreases b@.len() - k,
        {
            let class = bank.get(b[k]).unwrap();
            group.push(SmallClass { crn: class.crn, schedule: class.schedule.duplicate() });
            k = k + 1;
        }
        out.push(group);
        i = i + 1;
    }
    out
}

/// A candidate as the search sees it: its key and its weekly grid.
pub open spec fn small_views(s: Seq<SmallClass>) -> Seq<(Crn, Seq<Seq<(u16, u16)>>)> {
    s.map_values(|sc: SmallClass| (sc.crn, sc.schedule@))
}

/// The buckets as the search sees them.
pub open spec fn groups_view(data: Seq<Vec<SmallClass>>) -> Seq<Seq<(Crn, Seq<Seq<(u16, u16)>>)>> {
    data.map_values(|g: Vec<SmallClass>| small_views(g@))
}

/// The grids of the sections chosen so far.
pub open spec fn chosen_scheds(acc: Seq<(Crn, Seq<Seq<(u16, u16)>>)>) -> Seq<Seq<Seq<(u16, u16)>>> {
    acc.map_values(|p: (Crn, Seq<Seq<(u16, u16)>>)| p.1)
}

/// The emitted solutions as key-and-grid sequences.
pub open spec fn sols_view(out: Seq<Vec<SmallClass>>) -> Seq<Seq<(Crn, Seq<Seq<(u16, u16)>>)>> {
    out.map_values(|s: Vec<SmallClass>| small_views(s@))
}

/// The solutions the search emits from bucket `g` onward, having already
/// chosen `acc`, considering the candidates of bucket `g` from index `c` on:
/// each candidate that does not overlap the accumulated choice is taken in
/// turn; a take at the last bucket emits the completed assignment, earlier
/// buckets recurse. Solutions appear in depth-first candidate order.
pub open spec fn spec_search(
    groups: Seq<Seq<(Crn, Seq<Seq<(u16, u16)>>)>>,
    g: int,
    c: int,
    acc: Seq<(Crn, Seq<Seq<(u16, u16)>>)>,
) -> Seq<Seq<(Crn, Seq<Seq<(u16, u16)>>)>>
    decreases groups.len() - g, groups[g].len() - c,
{
    if g < 0 || g >= groups.len() || c < 0 || c >= groups[g].len() {
        Seq::empty()
    } else {
        let cand = groups[g][c];
        let rest = spec_search(groups, g, c + 1, acc);
        if !conflicts_with_any(cand.1, chosen_scheds(acc)) {
            let acc2 = acc.push(cand);
            if g == groups.len() - 1 {
                seq![acc2] + rest
            } else {
                spec_search(groups, g + 1, 0, acc2) + rest
            }
        } else {
            rest
        }
    }
}

/// Every complete, non-overlapping assignment of one candidate per bucket,
/// in depth-first order. With no buckets there is nothing to assign and no
/// solution; a bucket without candidates likewise admits none.
pub open spec fn spec_solutions(groups: Seq<Seq<(Crn, Seq<Seq<(u16, u16)>>)>>) -> Seq<
    Seq<(Crn, Seq<Seq<(u16, u16)>>)>,
> {
    if groups.len() == 0 {
        Seq::empty()
    } else {
        spec_search(groups, 0, 0, Seq::empty())
    }
}

fn copy_solution(v: &Vec<SmallClass>) -> (r: Vec<SmallClass>)
    ensures
        small_views(r@) == small_views(v@),
{
    let mut r: Vec<SmallClass> = Vec::new();
    let mut i: usize = 0;
    while i < v.len()
        invariant
            i <= v@.len(),
            r@.len() == i,
            forall|j: int|
                0 <= j < i ==> (#[trigger] r@[j]).crn == v@[j].crn && r@[j].schedule@
                    == v@[j].schedule@,
        decreases v@.len() - i,
    {
        r.push(v[i].duplicate());
        i = i + 1;
    }
    proof {
        assert(small_views(r@) =~= small_views(v@));
    }
    r
}

fn search(
    data: &Vec<Vec<SmallClass>>,
    g: usize,
    chosen: &mut Vec<SmallClass>,
    scheds: &mut Vec<Schedule>,
    out: &mut Vec<Vec<SmallClass>>,
)
    requires
        g < data@.len(),
        views_of(old(scheds)@) == chosen_scheds(small_views(old(chosen)@)),
    ensures
        final(chosen)@ == old(chosen)@,
        final(scheds)@ == old(scheds)@,
        sols_view(final(out)@) == sols_view(old(out)@) + spec_search(
            groups_view(data@),
            g as int,
            0,
            small_views(old(chosen)@),
        ),
    decreases data@.len() - g,
{
    let ghost gv = groups_view(data@);
    let ghost acc0 = small_views(old(chosen)@);
    let ghost chosen0 = old(chosen)@;
    let ghost scheds0 = old(scheds)@;
    let ghost out0 = old(out)@;
    let group = &data[g];
    let mut c: usize = 0;
    while c < group.len()
        invariant
            g < data@.len(),
            gv == groups_view(data@),
            group@ == data@[g as int]@,
            c <= group@.len(),
            chosen@ == chosen0,
            scheds@ == scheds0,
            acc0 == small_views(chosen0),
            views_of(scheds@) == chosen_scheds(acc0),
            sols_view(out@) + spec_search(gv, g as int, c as int, acc0) =~= sols_view(out0)
                + spec_search(gv, g as int, 0, acc0),
        decreases group@.len() - c,
    {
        let ghost out_at = out@;
        let cand = &group[c];
        proof {
            assert(gv[g as int] =~= small_views(data@[g as int]@));
            assert(gv[g as int][c as int] == (cand.crn, cand.schedule@));
        }
        let leaf = g == data.len() - 1;
        if !cand.schedule.overlaps(scheds) {
            let ghost acc2 = acc0.push((cand.crn, cand.schedule@));
            chosen.push(cand.duplicate());
            scheds.push(cand.schedule.duplicate());
            proof {
                assert(small_views(chosen@) =~= acc2);
                assert(views_of(scheds0) == chosen_scheds(acc0));
                assert(views_of(scheds0).len() == scheds0.len());
                assert(chosen_scheds(acc0).len() == acc0.len());
                assert(scheds0.len() == acc0.len());
                assert(scheds@ == scheds0.push(scheds@.last()));
                assert(views_of(scheds@).len() == scheds@.len());
                assert(chosen_scheds(acc2).len() == acc2.len());
                assert forall|i: int| 0 <= i < scheds@.len() implies views_of(scheds@)[i]
                    == chosen_scheds(acc2)[i] by {
                    if i < scheds@.len() - 1 {
                        assert(scheds@[i] == scheds0[i]);
                        assert(views_of(scheds0)[i] == chosen_scheds(acc0)[i]);
                    } else {
                        assert(scheds@[i]@ == cand.schedule@);
                    }
                }
                assert(views_of(scheds@) =~= chosen_scheds(acc2));
            }
            if leaf {
                let snapshot = copy_solution(chosen);
                out.push(snapshot);
                proof {
                    assert(small_views(snapshot@) =~= acc2);
                    assert(sols_view(out@) =~= sols_view(out_at) + seq![acc2]);
                }
            } else {
                let ghost chosen_in = chosen@;
                search(data, g + 1, chosen, scheds, out);
                proof {
                    assert(small_views(chosen_in) =~= acc2);
                    assert(sols_view(out@) =~= sols_view(out_at) + spec_search(
                        gv,
                        g + 1,
                        0,
                        acc2,
                    ));
                }
            }
            chosen.pop();
            scheds.pop();
            proof {
                assert(chosen@ =~= chosen0);
                assert(scheds@ =~= scheds0);
            }
        }
        proof {
            let emitted_here = if !conflicts_with_any(gv[g as int][c as int].1, chosen_scheds(acc0)) {
                if g == gv.len() - 1 {
                    seq![acc2_of(gv, g as int, c as int, acc0)]
                } else {
                    spec_search(gv, g + 1, 0, acc2_of(gv, g as int, c as int, acc0))
                }
            } else {
                Seq::empty()
            };
            assert(spec_search(gv, g as int, c as int, acc0) =~= emitted_here + spec_search(
                gv,
                g as int,
                c + 1,
                acc0,
            ));
            assert(sols_view(out@) =~= sols_view(out_at) + emitted_here);
            assert(sols_view(out@) + spec_search(gv, g as int, c + 1, acc0) =~= sols_view(out0)
                + spec_search(gv, g as int, 0, acc0));
        }
        c = c + 1;
    }
    proof {
        assert(spec_search(gv, g as int, group@.len() as int, acc0) =~= Seq::empty());
        assert(sols_view(out@) =~= sols_view(out0) + spec_search(gv, g as int, 0, acc0));
    }
}

/// The accumulated choice after taking candidate `c` of bucket `g`.
pub open spec fn acc2_of(
    groups: Seq<Seq<(Crn, Seq<Seq<(u16, u16)>>)>>,
    g: int,
    c: int,
    acc: Seq<(Crn, Seq<Seq<(u16, u16)>>)>,
) -> Seq<(Crn, Seq<Seq<(u16, u16)>>)> {
    acc.push(groups[g][c])
}

/// Runs the backtracking search: emits every assignment of one candidate
/// per bucket, in bucket order, in which no two chosen sections overlap.
/// The result is exactly [`spec_solutions`] of the buckets.
pub fn bruteforce_schedules(data: &Vec<Vec<SmallClass>>) -> (out: Vec<Vec<SmallClass>>)
    ensures
        sols_view(out@) == spec_solutions(groups_view(data@)),
{
    let mut out: Vec<Vec<SmallClass>> = Vec::new();
    if data.len() == 0 {
        proof {
            assert(sols_view(out@) =~= spec_solutions(groups_view(data@)));
        }
        return out;
    }
    let mut chosen: Vec<SmallClass> = Vec::new();
    let mut scheds: Vec<Schedule> = Vec::new();
    proof {
        assert(views_of(scheds@) =~= chosen_scheds(small_views(chosen@)));
    }
    search(data, 0, &mut chosen, &mut scheds, &mut out);
    proof {
        assert(small_views(Seq::<SmallClass>::empty()) =~= Seq::<(
            Crn,
            Seq<Seq<(u16, u16)>>,
        )>::empty());
        assert(sols_view(out@) =~= spec_solutions(groups_view(data@)));
    }
    out
}

/// Resolves chosen keys back to their catalog sections. Every key must be
/// in the catalog: an unknown key is a data-consistency fault, which callers
/// rule out before calling.
pub fn unmap_classes<'a>(bank: &'a ClassBank, crns: &Vec<Crn>) -> (r: Vec<&'a Class>)
    requires
        bank.wf(),
        forall|k: int| 0 <= k < crns@.len() ==> bank_has(bank@, #[trigger] crns@[k]),
    ensures
        r@.len() == crns@.len(),
        forall|k: int| 0 <= k < crns@.len() ==> *(#[trigger] r@[k]) == bank_at(bank@, crns@[k]),
{
    let mut r: Vec<&'a Class> = Vec::new();
    let mut k: usize = 0;
    while k < crns.len()
        invariant
            bank.wf(),
            forall|i: int| 0 <= i < crns@.len() ==> bank_has(bank@, #[trigger] crns@[i]),
            k <= crns@.len(),
            r@.len() == k,
            forall|i: int| 0 <= i < k ==> *(#[trigger] r@[i]) == bank_at(bank@, crns@[i]),
        decreases crns@.len() - k,
    {
        r.push(bank.get(crns[k]).unwrap());
        k = k + 1;
    }
    r
}

/// The interchangeable alternates of section `c` within one bucket: the
/// keys of sections with the same subject and the identical weekly grid.
pub open spec fn spec_alts_in(bank: Seq<Class>, b: Seq<Crn>, c: Class) -> Seq<Crn>
    decreases b.len(),
{
    if b.len() == 0 {
        Seq::empty()
    } else {
        let rest = spec_alts_in(bank, b.drop_last(), c);
        let cand = bank_at(bank, b.last());
        if cand.subject_course@ == c.subject_course@ && cand.schedule@ == c.schedule@ {
            rest.push(b.last())
        } else {
            rest
        }
    }
}

/// The alternates of section `c` over the first `n` buckets, taking only
/// buckets whose selector matches `c`.
pub open spec fn spec_alts(
    bank: Seq<Class>,
    includes: Seq<Include>,
    buckets: Seq<Vec<Crn>>,
    c: Class,
    n: int,
) -> Seq<Crn>
    decreases n,
{
    if n <= 0 {
        Seq::empty()
    } else {
        spec_alts(bank, includes, buckets, c, n - 1) + if spec_matches(includes[n - 1], c) {
            spec_alts_in(bank, buckets[n - 1]@, c)
        } else {
            Seq::empty()
        }
    }
}

/// For each chosen section, finds the schedule-identical alternates in the
/// buckets whose selector matches it: the other sections a caller could
/// swap in without changing the weekly grid.
pub fn find_alts(
    bank: &ClassBank,
    includes: &Vec<Include>,
    buckets: &Vec<Vec<Crn>>,
    chosen: &Vec<Crn>,
) -> (r: Vec<Vec<Crn>>)
    requires
        bank.wf(),
        includes@.len() == buckets@.len(),
        forall|k: int| 0 <= k < chosen@.len() ==> bank_has(bank@, #[trigger] chosen@[k]),
        forall|i: int, j: int|
            0 <= i < buckets@.len() && 0 <= j < buckets@[i]@.len() ==> bank_has(
                bank@,
                #[trigger] buckets@[i]@[j],
            ),
    ensures
        r@.len() == chosen@.len(),
        forall|k: int|
            0 <= k < chosen@.len() ==> (#[trigger] r@[k])@ == spec_alts(
                bank@,
                includes@,
                buckets@,
                bank_at(bank@, chosen@[k]),
                includes@.len() as int,
            ),
{
    let mut r: Vec<Vec<Crn>> = Vec::new();
    let mut k: usize = 0;
    while k < chosen.len()
        invariant
            bank.wf(),
            includes@.len() == buckets@.len(),
            forall|i: int| 0 <= i < chosen@.len() ==> bank_has(bank@, #[trigger] chosen@[i]),
            forall|i: int, j: int|
                0 <= i < buckets@.len() && 0 <= j < buckets@[i]@.len() ==> bank_has(
                    bank@,
                    #[trigger] buckets@[i]@[j],
                ),
            k <= chosen@.len(),
            r@.len() == k,
            forall|i: int|
                0 <= i < k ==> (#[trigger] r@[i])@ == spec_alts(
                    bank@,
                    includes@,
                    buckets@,
                    bank_at(bank@, chosen@[i]),
                    includes@.len() as int,
                ),
        decreases chosen@.len() - k,
    {
        let cls = bank.get(chosen[k]).unwrap();
        let mut alts: Vec<Crn> = Vec::new();
        let mut j: usize = 0;
        while j < buckets.len()
            invariant
                bank.wf(),
                includes@.len() == buckets@.len(),
                forall|ii: int, jj: int|
                    0 <= ii < buckets@.len() && 0 <= jj < buckets@[ii]@.len() ==> bank_has(
                        bank@,
                        #[trigger] buckets@[ii]@[jj],
                    ),
                k < chosen@.len(),
                *cls == bank_at(bank@, chosen@[k as int]),
                j <= buckets@.len(),
                alts@ == spec_alts(bank@, includes@, buckets@, *cls, j as int),
            decreases buckets@.len() - j,
        {
            if includes[j].matches(cls) {
                let b = &buckets[j];
                let mut m: usize = 0;
                while m < b.len()
                    invariant
                        bank.wf(),
                        j < buckets@.len(),
                        b@ == buckets@[j as int]@,
                        forall|jj: int| 0 <= jj < b@.len() ==> bank_has(bank@, #[trigger] b@[jj]),
                        *cls == bank_at(bank@, chosen@[k as int]),
                        m <= b@.len(),
                        alts@ == spec_alts(bank@, includes@, buckets@, *cls, j as int)
                            + spec_alts_in(bank@, b@.take(m as int), *cls),
                    decreases b@.len() - m,
                {
                    let cand = bank.get(b[m]).unwrap();
                    if str_eq(&cand.subject_course, &cls.subject_course) && cand.schedule
                        .same_pattern(&cls.schedule) {
                        alts.push(b[m]);
                    }
                    proof {
                        assert(b@.take(m + 1).drop_last() =~= b@.take(m as int));
                        assert(b@.take(m + 1).last() == b@[m as int]);
                    }
                    m = m + 1;
                }
                proof {
                    assert(b@.take(b@.len() as int) =~= b@);
                }
            }
            j = j + 1;
        }
        r.push(alts);
        k = k + 1;
    }
    r
}

/// The candidates of a bucket: each key with its section's weekly grid.
pub open spec fn spec_candidates(bank: Seq<Class>, crns: Seq<Crn>) -> Seq<
    (Crn, Seq<Seq<(u16, u16)>>),
> {
    crns.map_values(|crn: Crn| (crn, bank_at(bank, crn).schedule@))
}

/// Bucket `i` after the whole preparation: resolved, filtered, validated.
pub open spec fn spec_stage_bucket<F: ClassFilter>(
    bank: Seq<Class>,
    includes: Seq<Include>,
    f: F,
    cons: Seq<Constraint>,
    i: int,
) -> Seq<Crn> {
    spec_validate_bucket(bank, spec_filter_bucket(bank, spec_bucket(bank, includes, f, i), cons))
}

/// The search input after the whole preparation.
pub open spec fn spec_groups<F: ClassFilter>(
    bank: Seq<Class>,
    includes: Seq<Include>,
    f: F,
    cons: Seq<Constraint>,
) -> Seq<Seq<(Crn, Seq<Seq<(u16, u16)>>)>> {
    Seq::new(
        includes.len(),
        |i: int| spec_candidates(bank, spec_stage_bucket(bank, includes, f, cons, i)),
    )
}

/// What the full pipeline emits for the given catalog, selectors, filter
/// and constraints.
pub open spec fn spec_pipeline<F: ClassFilter>(
    bank: Seq<Class>,
    includes: Seq<Include>,
    f: F,
    cons: Seq<Constraint>,
) -> Seq<Seq<(Crn, Seq<Seq<(u16, u16)>>)>> {
    spec_solutions(spec_groups(bank, includes, f, cons))
}

/// Runs the whole pipeline: resolve requirement groups, filter by the
/// constraints, validate and deduplicate, then enumerate every complete
/// non-overlapping schedule.
pub fn solve<F: ClassFilter>(
    bank: &ClassBank,
    includes: &Vec<Include>,
    filters: &F,
    constraints: &Vec<Constraint>,
) -> (out: Vec<Vec<SmallClass>>)
    requires
        bank.wf(),
    ensures
        sols_view(out@) == spec_pipeline(bank@, includes@, *filters, constraints@),
{
    let buckets = include_classes(bank, includes, filters);
    let filtered = filter_classes(bank, buckets, constraints);
    let validated = validate_classes(bank, filtered);
    let mapped = map_classes(bank, &validated);
    let out = bruteforce_schedules(&mapped);
    proof {
        assert forall|i: int| 0 <= i < includes@.len() implies groups_view(mapped@)[i]
            == spec_groups(bank@, includes@, *filters, constraints@)[i] by {
            assert(groups_view(mapped@)[i] =~= spec_candidates(
                bank@,
                spec_stage_bucket(bank@, includes@, *filters, constraints@, i),
            ));
        }
        assert(groups_view(mapped@) =~= spec_groups(bank@, includes@, *filters, constraints@));
    }
    out
}

/// The pipeline is deterministic: run twice on unchanged catalog, selectors,
/// filter and constraints, it emits the same solutions. The contracts of the
/// stages pin the result down to a function of the inputs, so two results
/// that both satisfy them are one.
pub proof fn lemma_pipeline_deterministic<F: ClassFilter>(
    r1: Seq<Seq<(Crn, Seq<Seq<(u16, u16)>>)>>,
    r2: Seq<Seq<(Crn, Seq<Seq<(u16, u16)>>)>>,
    bank: Seq<Class>,
    includes: Seq<Include>,
    f: F,
    cons: Seq<Constraint>,
)
    requires
        r1 == spec_pipeline(bank, includes, f, cons),
        r2 == spec_pipeline(bank, includes, f, cons),
    ensures
        r1 == r2,
{
}

/// No two sections of the assignment overlap anywhere.
pub open spec fn pairwise_compatible(sol: Seq<(Crn, Seq<Seq<(u16, u16)>>)>) -> bool {
    forall|i: int, j: int|
        0 <= i < j < sol.len() ==> !schedules_conflict((#[trigger] sol[i]).1, (#[trigger] sol[j]).1)
}

/// Soundness of the enumerator: every emitted solution is pairwise free of
/// overlap — an exhaustive pairwise check over any output always passes.
pub proof fn lemma_solutions_compatible(groups: Seq<Seq<(Crn, Seq<Seq<(u16, u16)>>)>>)
    ensures
        forall|s: int|
            0 <= s < spec_solutions(groups).len() ==> pairwise_compatible(
                #[trigger] spec_solutions(groups)[s],
            ),
{
    if groups.len() > 0 {
        lemma_search_compatible(groups, 0, 0, Seq::empty());
    }
}

/// `sel` picks, for each bucket from `g` on, a candidate index such that
/// each picked grid conflicts neither with the accumulated choice nor with
/// any grid picked before it.
pub open spec fn sel_valid(
    groups: Seq<Seq<(Crn, Seq<Seq<(u16, u16)>>)>>,
    g: int,
    sel: Seq<int>,
    acc: Seq<(Crn, Seq<Seq<(u16, u16)>>)>,
) -> bool
    decreases groups.len() - g,
{
    if g < 0 || g >= groups.len() {
        sel.len() == 0
    } else {
        &&& sel.len() == groups.len() - g
        &&& 0 <= sel[0] < groups[g].len()
        &&& !conflicts_with_any(groups[g][sel[0]].1, chosen_scheds(acc))
        &&& sel_valid(groups, g + 1, sel.drop_first(), acc.push(groups[g][sel[0]]))
    }
}

/// The complete assignment that `sel` describes, on top of `acc`.
pub open spec fn sel_result(
    groups: Seq<Seq<(Crn, Seq<Seq<(u16, u16)>>)>>,
    g: int,
    sel: Seq<int>,
    acc: Seq<(Crn, Seq<Seq<(u16, u16)>>)>,
) -> Seq<(Crn, Seq<Seq<(u16, u16)>>)>
    decreases groups.len() - g,
{
    if g < 0 || g >= groups.len() {
        acc
    } else {
        sel_result(groups, g + 1, sel.drop_first(), acc.push(groups[g][sel[0]]))
    }
}

/// Completeness of the enumerator: every choice of one candidate per bucket
/// whose grids are free of overlap appears among the emitted solutions.
pub proof fn lemma_solutions_complete(groups: Seq<Seq<(Crn, Seq<Seq<(u16, u16)>>)>>, sel: Seq<int>)
    requires
        groups.len() > 0,
        sel_valid(groups, 0, sel, Seq::empty()),
    ensures
        spec_solutions(groups).contains(sel_result(groups, 0, sel, Seq::empty())),
{
    lemma_search_complete(groups, 0, 0, Seq::empty(), sel);
}

proof fn lemma_search_complete(
    groups: Seq<Seq<(Crn, Seq<Seq<(u16, u16)>>)>>,
    g: int,
    c: int,
    acc: Seq<(Crn, Seq<Seq<(u16, u16)>>)>,
    sel: Seq<int>,
)
    requires
        0 <= g < groups.len(),
        sel_valid(groups, g, sel, acc),
        0 <= c <= sel[0],
    ensures
        spec_search(groups, g, c, acc).contains(sel_result(groups, g, sel, acc)),
    decreases groups.len() - g, groups[g].len() - c,
{
    let cand = groups[g][c];
    let rest = spec_search(groups, g, c + 1, acc);
    let goal = sel_result(groups, g, sel, acc);
    if c == sel[0] {
        let acc2 = acc.push(cand);
        if g == groups.len() - 1 {
            assert(sel.drop_first().len() == 0);
            assert(goal == sel_result(groups, g + 1, sel.drop_first(), acc2));
            assert(sel_result(groups, g + 1, sel.drop_first(), acc2) == acc2);
            assert(spec_search(groups, g, c, acc) == seq![acc2] + rest);
            assert(spec_search(groups, g, c, acc)[0] == acc2);
        } else {
            lemma_search_complete(groups, g + 1, 0, acc2, sel.drop_first());
            let deeper = spec_search(groups, g + 1, 0, acc2);
            assert(goal == sel_result(groups, g + 1, sel.drop_first(), acc2));
            let w = choose|w: int| 0 <= w < deeper.len() && deeper[w] == goal;
            assert(spec_search(groups, g, c, acc) == deeper + rest);
            assert(spec_search(groups, g, c, acc)[w] == goal);
        }
    } else {
        lemma_search_complete(groups, g, c + 1, acc, sel);
        let w = choose|w: int| 0 <= w < rest.len() && rest[w] == goal;
        if !conflicts_with_any(cand.1, chosen_scheds(acc)) {
            let acc2 = acc.push(cand);
            if g == groups.len() - 1 {
                assert(spec_search(groups, g, c, acc) == seq![acc2] + rest);
                assert(spec_search(groups, g, c, acc)[1 + w] == goal);
            } else {
                let deeper = spec_search(groups, g + 1, 0, acc2);
                assert(spec_search(groups, g, c, acc) == deeper + rest);
                assert(spec_search(groups, g, c, acc)[deeper.len() + w] == goal);
            }
        } else {
            assert(spec_search(groups, g, c, acc) == rest);
        }
    }
}

/// Every emitted solution can be scored: when each chosen section's grid
/// stays within the day and is free of internal conflict, pooling the
/// choice into one week and sorting it yields a bounded, separated week,
/// which is exactly what the scorer requires.
pub proof fn lemma_solution_scorable(sol: Seq<(Crn, Seq<Seq<(u16, u16)>>)>)
    requires
        pairwise_compatible(sol),
        forall|k: int| 0 <= k < sol.len() ==> (#[trigger] sol[k]).1.len() == 7,
        forall|k: int, d: int|
            0 <= k < sol.len() && 0 <= d < 7 ==> #[trigger] crate::schedule::day_nonconflicting(
                sol[k].1[d],
            ),
        forall|k: int| 0 <= k < sol.len() ==> crate::schedule::view_bounded((#[trigger] sol[k]).1),
    ensures
        forall|d: int|
            0 <= d < 7 ==> crate::schedule::day_separated(
                crate::schedule::spec_sort_day(
                    #[trigger] crate::schedule::spec_flatten(chosen_scheds(sol))[d],
                ),
            ),
        forall|d: int, i: int|
            0 <= d < 7 && 0 <= i < crate::schedule::spec_sort_day(
                crate::schedule::spec_flatten(chosen_scheds(sol))[d],
            ).len() ==> (#[trigger] crate::schedule::spec_sort_day(
                crate::schedule::spec_flatten(chosen_scheds(sol))[d],
            )[i]).0 + crate::schedule::spec_sort_day(
                crate::schedule::spec_flatten(chosen_scheds(sol))[d],
            )[i].1 <= 1440,
{
    let vs = chosen_scheds(sol);
    assert(vs.len() == sol.len());
    assert forall|k: int| 0 <= k < vs.len() implies #[trigger] vs[k] == sol[k].1 by {
    }
    crate::schedule::lemma_compatible_week_separated(vs);
    crate::schedule::lemma_sorted_week_bounded(vs);
}

proof fn lemma_search_compatible(
    groups: Seq<Seq<(Crn, Seq<Seq<(u16, u16)>>)>>,
    g: int,
    c: int,
    acc: Seq<(Crn, Seq<Seq<(u16, u16)>>)>,
)
    requires
        pairwise_compatible(acc),
    ensures
        forall|s: int|
            0 <= s < spec_search(groups, g, c, acc).len() ==> pairwise_compatible(
                #[trigger] spec_search(groups, g, c, acc)[s],
            ),
    decreases groups.len() - g, groups[g].len() - c,
{
    if g < 0 || g >= groups.len() || c < 0 || c >= groups[g].len() {
    } else {
        let cand = groups[g][c];
        lemma_search_compatible(groups, g, c + 1, acc);
        let rest = spec_search(groups, g, c + 1, acc);
        if !conflicts_with_any(cand.1, chosen_scheds(acc)) {
            let acc2 = acc.push(cand);
            assert(pairwise_compatible(acc2)) by {
                assert forall|i: int, j: int| 0 <= i < j < acc2.len() implies !schedules_conflict(
                    (#[trigger] acc2[i]).1,
                    (#[trigger] acc2[j]).1,
                ) by {
                    if j == acc2.len() - 1 {
                        assert(chosen_scheds(acc)[i] == acc[i].1);
                        assert(!schedules_conflict(cand.1, acc[i].1));
                        crate::schedule::lemma_schedules_conflict_symmetric(cand.1, acc[i].1);
                    }
                }
            }
            if g == groups.len() - 1 {
                assert forall|s: int|
                    0 <= s < spec_search(groups, g, c, acc).len() implies pairwise_compatible(
                    #[trigger] spec_search(groups, g, c, acc)[s],
                ) by {
                    if s == 0 {
                        assert(spec_search(groups, g, c, acc)[s] == acc2);
                    } else {
                        assert(spec_search(groups, g, c, acc)[s] == rest[s - 1]);
                    }
                }
            } else {
                lemma_search_compatible(groups, g + 1, 0, acc2);
                let deeper = spec_search(groups, g + 1, 0, acc2);
                assert forall|s: int|
                    0 <= s < spec_search(groups, g, c, acc).len() implies pairwise_compatible(
                    #[trigger] spec_search(groups, g, c, acc)[s],
                ) by {
                    if s < deeper.len() {
                        assert(spec_search(groups, g, c, acc)[s] == deeper[s]);
                    } else {
                        assert(spec_search(groups, g, c, acc)[s] == rest[s - deeper.len()]);
                    }
                }
            }
        }
    }
}

} // verus!
