//! Catalog records: sections, their meetings, and the keyed catalog.

use vstd::prelude::*;
use crate::days::Days;
use crate::schedule::{spec_generate, Schedule};
use crate::time::Time;

verus! {

/// The unique reference key of a section.
pub type Crn = u64;

#[derive(Copy, Clone, Debug, PartialEq, Eq)]
pub struct CreditHours {
    pub credit_hour_high: Option<u64>,
    pub credit_hour_low: Option<u64>,
    pub credit_hours: Option<u64>,
}

#[derive(Copy, Clone, Debug, PartialEq, Eq)]
pub struct CrossList {
    pub cross_list: u64,
    pub cross_list_available: i64,
    pub cross_list_capacity: u64,
    pub cross_list_count: u64,
}

#[derive(Copy, Clone, Debug, PartialEq, Eq)]
pub struct Enrollment {
    pub count: u64,
    pub capacity: u64,
    pub available: i64,
}

#[derive(Clone, Debug, PartialEq, Eq)]
pub struct Faculty {
    pub name: String,
    pub email: Option<String>,
    pub primary: bool,
}

/// One recurring weekly meeting of a section. The times are optional: a
/// meeting with no fixed clock time (independent study, online work)
/// contributes no interval to the weekly grid.
#[derive(Clone, Debug, PartialEq, Eq)]
pub struct Session {
    pub start_time: Option<Time>,
    pub end_time: Option<Time>,
    pub start_date: String,
    pub end_date: String,
    pub days: Days,
    pub building_code: Option<String>,
    pub building_name: Option<String>,
    pub room: Option<u64>,
    pub meeting_type: String,
}

impl Session {
    /// Both clock times are present.
    pub open spec fn timed(self) -> bool {
        self.start_time is Some && self.end_time is Some
    }

    /// A meeting's invariant: if a start time is present, an end time is
    /// present too, both are real clock times, and the end is not before
    /// the start (no overnight wraparound).
    pub open spec fn wf(self) -> bool {
        match (self.start_time, self.end_time) {
            (Some(s), Some(e)) => s.valid() && e.valid() && s.spec_le(e),
            (Some(s), None) => false,
            _ => true,
        }
    }

    pub fn is_timed(&self) -> (r: bool)
        ensures
            r == self.timed(),
    {
        self.start_time.is_some() && self.end_time.is_some()
    }

    pub fn is_wf(&self) -> (r: bool)
        ensures
            r == self.wf(),
    {
        match (&self.start_time, &self.end_time) {
            (Some(s), Some(e)) => {
                s.hour < 24 && s.min < 60 && e.hour < 24 && e.min < 60 && s.le(e)
            },
            (Some(_), None) => false,
            _ => true,
        }
    }
}

/// One schedulable offering of a course.
#[derive(Debug)]
pub struct Class {
    pub campus: String,
    pub crn: Crn,
    pub course_number: String,
    pub name: String,
    pub credit_hours: CreditHours,
    pub cross_list: Option<CrossList>,
    pub enrollment: Enrollment,
    pub wait_list: Enrollment,
    pub faculty: Vec<Faculty>,
    pub instructional_method: String,
    pub meetings: Vec<Session>,
    pub open: bool,
    pub part_of_term: String,
    pub schedule_type: String,
    pub sequence_number: String,
    pub special_approval: Option<String>,
    pub subject_course: String,
    pub subject_description: String,
    pub term: String,
    /// The derived weekly grid, cached on the section.
    pub schedule: Schedule,
}

/// The scheduling-relevant shape of one meeting.
pub type MeetingLayout = (Option<Time>, Option<Time>, Days);

impl Class {
    /// Every meeting carries both clock times.
    pub open spec fn all_timed(self) -> bool {
        forall|k: int| 0 <= k < self.meetings@.len() ==> (#[trigger] self.meetings@[k]).timed()
    }

    /// Every meeting satisfies the meeting invariant.
    pub open spec fn meetings_wf(self) -> bool {
        forall|k: int| 0 <= k < self.meetings@.len() ==> (#[trigger] self.meetings@[k]).wf()
    }

    /// The ordered list of (start, end, days) triples across the meetings:
    /// what makes two sections schedule-identical duplicates.
    pub open spec fn layout(self) -> Seq<MeetingLayout> {
        self.meetings@.map_values(|m: Session| (m.start_time, m.end_time, m.days))
    }

    pub fn is_all_timed(&self) -> (r: bool)
        ensures
            r == self.all_timed(),
    {
        let mut k: usize = 0;
        while k < self.meetings.len()
            invariant
                k <= self.meetings@.len(),
                forall|i: int| 0 <= i < k ==> (#[trigger] self.meetings@[i]).timed(),
            decreases self.meetings@.len() - k,
        {
            if !self.meetings[k].is_timed() {
                return false;
            }
            k = k + 1;
        }
        true
    }

    /// Whether two sections have identical meeting layouts.
    pub fn same_layout(&self, other: &Class) -> (r: bool)
        ensures
            r == (self.layout() =~= other.layout()),
    {
        if self.meetings.len() != other.meetings.len() {
            return false;
        }
        let mut k: usize = 0;
        while k < self.meetings.len()
            invariant
                self.meetings@.len() == other.meetings@.len(),
                k <= self.meetings@.len(),
                forall|i: int| 0 <= i < k ==> self.layout()[i] == other.layout()[i],
            decreases self.meetings@.len() - k,
        {
            let a = &self.meetings[k];
            let b = &other.meetings[k];
            let same = opt_time_eq(&a.start_time, &b.start_time) && opt_time_eq(
                &a.end_time,
                &b.end_time,
            ) && a.days == b.days;
            if !same {
                proof {
                    assert(self.layout()[k as int] != other.layout()[k as int]);
                    if self.layout() =~= other.layout() {
                        assert(self.layout()[k as int] == other.layout()[k as int]);
                        assert(false);
                    }
                }
                return false;
            }
            k = k + 1;
        }
        true
    }
}

fn opt_time_eq(a: &Option<Time>, b: &Option<Time>) -> (r: bool)
    ensures
        r == (a == b),
{
    match (a, b) {
        (None, None) => true,
        (Some(x), Some(y)) => x.hour == y.hour && x.min == y.min,
        _ => false,
    }
}

/// The section identity and weekly grid, all the search needs of a section.
#[derive(Debug)]
pub struct SmallClass {
    pub crn: Crn,
    pub schedule: Schedule,
}

impl SmallClass {
    pub fn duplicate(&self) -> (r: SmallClass)
        ensures
            r.crn == self.crn,
            r.schedule@ == self.schedule@,
    {
        SmallClass { crn: self.crn, schedule: self.schedule.duplicate() }
    }
}

/// Strictly ascending reference keys: sorted and free of duplicates.
pub open spec fn bank_sorted(s: Seq<Class>) -> bool {
    forall|i: int, j: int|
        0 <= i < j < s.len() ==> (#[trigger] s[i]).crn < (#[trigger] s[j]).crn
}

/// Some section in `s` carries key `crn`.
pub open spec fn bank_has(s: Seq<Class>, crn: Crn) -> bool {
    exists|i: int| 0 <= i < s.len() && (#[trigger] s[i]).crn == crn
}

/// The section of `s` carrying key `crn`.
pub open spec fn bank_at(s: Seq<Class>, crn: Crn) -> Class {
    s[choose|i: int| 0 <= i < s.len() && (#[trigger] s[i]).crn == crn]
}

/// The effect of inserting a section: placed before the first section with a
/// larger key, replacing the section with an equal key if one is there.
pub open spec fn spec_bank_insert(s: Seq<Class>, c: Class) -> Seq<Class>
    decreases s.len(),
{
    if s.len() == 0 {
        seq![c]
    } else if s.first().crn < c.crn {
        seq![s.first()] + spec_bank_insert(s.drop_first(), c)
    } else if s.first().crn == c.crn {
        seq![c] + s.drop_first()
    } else {
        seq![c] + s
    }
}

/// The catalog: sections keyed by reference number, keys unique, held in
/// ascending key order. The abstract value (`@`) is the ordered sequence of
/// sections.
#[derive(Debug)]
pub struct ClassBank {
    classes: Vec<Class>,
}

impl View for ClassBank {
    type V = Seq<Class>;

    closed spec fn view(&self) -> Seq<Class> {
        self.classes@
    }
}

impl ClassBank {
    /// The catalog invariant: keys strictly ascending.
    pub open spec fn wf(&self) -> bool {
        bank_sorted(self@)
    }

    pub fn new() -> (r: ClassBank)
        ensures
            r@ == Seq::<Class>::empty(),
            r.wf(),
    {
        ClassBank { classes: Vec::new() }
    }

    pub fn len(&self) -> (n: usize)
        ensures
            n == self@.len(),
    {
        self.classes.len()
    }

    /// Read-only access to the ordered sections.
    pub fn classes(&self) -> (r: &Vec<Class>)
        ensures
            r@ == self@,
    {
        &self.classes
    }

    /// Inserts a section at its key position, replacing any section with the
    /// same key, as a keyed map would.
    pub fn insert(&mut self, class: Class)
        requires
            old(self).wf(),
        ensures
            final(self)@ == spec_bank_insert(old(self)@, class),
            final(self).wf(),
    {
        let ghost orig = self@;
        let mut p: usize = 0;
        while p < self.classes.len() && self.classes[p].crn < class.crn
            invariant
                self@ == orig,
                p <= orig.len(),
                forall|i: int| 0 <= i < p ==> (#[trigger] orig[i]).crn < class.crn,
            decreases orig.len() - p,
        {
            p = p + 1;
        }
        if p < self.classes.len() && self.classes[p].crn == class.crn {
            self.classes.set(p, class);
            proof {
                lemma_bank_insert_at(orig, class, p as int);
                assert(self@ =~= orig.take(p as int) + seq![class] + orig.skip(p + 1));
                lemma_bank_insert_sorted(orig, class);
            }
        } else {
            self.classes.insert(p, class);
            proof {
                lemma_bank_insert_at(orig, class, p as int);
                assert(self@ =~= orig.take(p as int) + seq![class] + orig.skip(p as int));
                lemma_bank_insert_sorted(orig, class);
            }
        }
    }

    /// Looks a key up; answers `Some` exactly when the catalog has it.
    pub fn get(&self, crn: Crn) -> (r: Option<&Class>)
        requires
            self.wf(),
        ensures
            r is Some <==> bank_has(self@, crn),
            r matches Some(c) ==> *c == bank_at(self@, crn) && c.crn == crn,
    {
        let mut i: usize = 0;
        while i < self.classes.len()
            invariant
                i <= self@.len(),
                self.wf(),
                forall|k: int| 0 <= k < i ==> (#[trigger] self@[k]).crn != crn,
            decreases self@.len() - i,
        {
            if self.classes[i].crn == crn {
                proof {
                    assert(bank_has(self@, crn));
                    let w = choose|w: int| 0 <= w < self@.len() && self@[w].crn == crn;
                    if w != i {
                        assert(false);
                    }
                }
                return Some(&self.classes[i]);
            }
            i = i + 1;
        }
        proof {
            if bank_has(self@, crn) {
                let w = choose|w: int| 0 <= w < self@.len() && self@[w].crn == crn;
                assert(false);
            }
        }
        None
    }
}

proof fn lemma_bank_insert_at(s: Seq<Class>, c: Class, p: int)
    requires
        0 <= p <= s.len(),
        forall|i: int| 0 <= i < p ==> (#[trigger] s[i]).crn < c.crn,
        p < s.len() ==> s[p].crn >= c.crn,
    ensures
        p < s.len() && s[p].crn == c.crn ==> spec_bank_insert(s, c) =~= s.take(p) + seq![c]
            + s.skip(p + 1),
        p == s.len() || s[p].crn > c.crn ==> spec_bank_insert(s, c) =~= s.take(p) + seq![c]
            + s.skip(p),
    decreases p,
{
    if p == 0 {
        if s.len() == 0 {
            assert(spec_bank_insert(s, c) =~= seq![c]);
            assert(s.take(0) + seq![c] + s.skip(0) =~= seq![c]);
        } else if s[0].crn == c.crn {
            assert(spec_bank_insert(s, c) == seq![c] + s.drop_first());
            assert(s.take(0) + seq![c] + s.skip(1) =~= seq![c] + s.drop_first());
        } else {
            assert(s[0].crn > c.crn);
            assert(spec_bank_insert(s, c) == seq![c] + s);
            assert(s.take(0) + seq![c] + s.skip(0) =~= seq![c] + s);
        }
    } else {
        assert(s.first().crn < c.crn);
        lemma_bank_insert_at(s.drop_first(), c, p - 1);
        assert(spec_bank_insert(s, c) == seq![s.first()] + spec_bank_insert(s.drop_first(), c));
        if p < s.len() && s[p].crn == c.crn {
            assert(s.drop_first()[p - 1].crn == c.crn);
            assert(spec_bank_insert(s.drop_first(), c) =~= s.drop_first().take(p - 1) + seq![c]
                + s.drop_first().skip(p));
            assert(seq![s.first()] + (s.drop_first().take(p - 1) + seq![c] + s.drop_first().skip(
                p,
            )) =~= s.take(p) + seq![c] + s.skip(p + 1));
        } else {
            assert(spec_bank_insert(s.drop_first(), c) =~= s.drop_first().take(p - 1) + seq![c]
                + s.drop_first().skip(p - 1));
            assert(seq![s.first()] + (s.drop_first().take(p - 1) + seq![c] + s.drop_first().skip(
                p - 1,
            )) =~= s.take(p) + seq![c] + s.skip(p));
        }
    }
}

/// Inserting into a sorted catalog keeps it sorted.
proof fn lemma_bank_insert_sorted(s: Seq<Class>, c: Class)
    requires
        bank_sorted(s),
    ensures
        bank_sorted(spec_bank_insert(s, c)),
    decreases s.len(),
{
    if s.len() == 0 {
    } else if s.first().crn < c.crn {
        assert(bank_sorted(s.drop_first())) by {
            assert(forall|i: int, j: int|
                0 <= i < j < s.len() - 1 ==> (#[trigger] s.drop_first()[i]).crn
                    < (#[trigger] s.drop_first()[j]).crn);
        }
        lemma_bank_insert_sorted(s.drop_first(), c);
        let rest = spec_bank_insert(s.drop_first(), c);
        // every element of the recursive result is either from the tail or is
        // the new section, and all of them have keys above the head's.
        assert forall|j: int| 0 <= j < rest.len() implies s.first().crn
            < (#[trigger] rest[j]).crn by {
            lemma_bank_insert_members(s.drop_first(), c, j);
        }
        assert(forall|i: int, j: int|
            0 <= i < j < rest.len() ==> (#[trigger] rest[i]).crn < (#[trigger] rest[j]).crn);
        assert(spec_bank_insert(s, c) == seq![s.first()] + rest);
    } else if s.first().crn == c.crn {
        assert(forall|j: int|
            1 <= j < s.len() ==> c.crn < (#[trigger] s[j]).crn);
        assert(spec_bank_insert(s, c) == seq![c] + s.drop_first());
    } else {
        assert(spec_bank_insert(s, c) == seq![c] + s);
    }
}

/// Each entry of the inserted catalog is the new section or an old one.
proof fn lemma_bank_insert_members(s: Seq<Class>, c: Class, j: int)
    requires
        0 <= j < spec_bank_insert(s, c).len(),
    ensures
        spec_bank_insert(s, c)[j] == c || s.contains(spec_bank_insert(s, c)[j]),
    decreases s.len(),
{
    if s.len() == 0 {
    } else if s.first().crn < c.crn {
        if j == 0 {
            assert(s.contains(s.first())) by {
                assert(s[0] == s.first());
            }
        } else {
            lemma_bank_insert_members(s.drop_first(), c, j - 1);
            let x = spec_bank_insert(s, c)[j];
            assert(x == spec_bank_insert(s.drop_first(), c)[j - 1]);
            if s.drop_first().contains(x) {
                let w = choose|w: int| 0 <= w < s.drop_first().len() && s.drop_first()[w] == x;
                assert(s[w + 1] == x);
            }
        }
    } else if s.first().crn == c.crn {
        if j > 0 {
            let x = spec_bank_insert(s, c)[j];
            assert(x == s.drop_first()[j - 1]);
            assert(s[j] == x);
        }
    } else {
        if j > 0 {
            assert(spec_bank_insert(s, c)[j] == s[j - 1]);
        }
    }
}

/// The meeting patterns of the timed meetings, in order.
pub open spec fn spec_meeting_patterns(ms: Seq<Session>) -> Seq<(Days, Time, Time)>
    decreases ms.len(),
{
    if ms.len() == 0 {
        Seq::empty()
    } else {
        let rest = spec_meeting_patterns(ms.drop_last());
        let m = ms.last();
        if m.timed() {
            rest.push((m.days, m.start_time->0, m.end_time->0))
        } else {
            rest
        }
    }
}

/// The weekly grid derived from a section's meetings: timed meetings place
/// their interval on each of their days; untimed meetings contribute nothing.
pub open spec fn spec_from_meetings(ms: Seq<Session>) -> Seq<Seq<(u16, u16)>> {
    spec_generate(spec_meeting_patterns(ms))
}

impl Schedule {
    /// Derives the weekly grid from a section's meetings. Meetings must meet
    /// the meeting invariant; those without times contribute no interval.
    pub fn from_meetings(meetings: &Vec<Session>) -> (s: Schedule)
        requires
            forall|k: int| 0 <= k < meetings@.len() ==> (#[trigger] meetings@[k]).wf(),
        ensures
            s@ == spec_from_meetings(meetings@),
    {
        let mut patterns: Vec<(Days, Time, Time)> = Vec::new();
        let mut k: usize = 0;
        while k < meetings.len()
            invariant
                k <= meetings@.len(),
                forall|i: int| 0 <= i < meetings@.len() ==> (#[trigger] meetings@[i]).wf(),
                patterns@ == spec_meeting_patterns(meetings@.take(k as int)),
                forall|i: int|
                    0 <= i < patterns@.len() ==> crate::schedule::pattern_valid(
                        #[trigger] patterns@[i],
                    ),
            decreases meetings@.len() - k,
        {
            let m = &meetings[k];
            match (&m.start_time, &m.end_time) {
                (Some(s), Some(e)) => {
                    patterns.push((m.days, *s, *e));
                },
                _ => {},
            }
            proof {
                assert(meetings@.take(k + 1).drop_last() =~= meetings@.take(k as int));
                assert(meetings@.take(k + 1).last() == meetings@[k as int]);
            }
            k = k + 1;
        }
        proof {
            assert(meetings@.take(meetings@.len() as int) =~= meetings@);
        }
        Schedule::generate(&patterns)
    }
}

/// A section whose meetings all lack a concrete time derives an empty weekly
/// grid: no day holds any interval, so it can conflict with nothing.
pub proof fn lemma_untimed_meetings_empty_grid(ms: Seq<Session>)
    requires
        forall|k: int| 0 <= k < ms.len() ==> !(#[trigger] ms[k]).timed(),
    ensures
        forall|d: int| 0 <= d < 7 ==> (#[trigger] spec_from_meetings(ms)[d]).len() == 0,
        forall|w: Seq<Seq<(u16, u16)>>| !crate::schedule::schedules_conflict(
            spec_from_meetings(ms),
            w,
        ),
    decreases ms.len(),
{
    assert(spec_meeting_patterns(ms) =~= Seq::empty()) by {
        lemma_untimed_no_patterns(ms);
    }
    assert(forall|d: int|
        0 <= d < 7 ==> (#[trigger] spec_from_meetings(ms)[d]).len() == 0);
    crate::schedule::lemma_empty_conflicts_nothing(spec_from_meetings(ms), Seq::empty());
}

proof fn lemma_untimed_no_patterns(ms: Seq<Session>)
    requires
        forall|k: int| 0 <= k < ms.len() ==> !(#[trigger] ms[k]).timed(),
    ensures
        spec_meeting_patterns(ms) =~= Seq::empty(),
    decreases ms.len(),
{
    if ms.len() > 0 {
        lemma_untimed_no_patterns(ms.drop_last());
    }
}

} // verus!
