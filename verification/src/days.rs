//! Weekdays and sets of weekdays.

use vstd::prelude::*;

verus! {

/// One weekday. The week is laid out Sunday first, matching the day indices
/// used by [`crate::Schedule`].
#[derive(Copy, Clone, Debug, PartialEq, Eq, PartialOrd, Ord, Hash, Structural)]
pub enum Day {
    Sunday,
    Monday,
    Tuesday,
    Wednesday,
    Thursday,
    Friday,
    Saturday,
}

/// A set of weekdays, one flag per day.
#[derive(Copy, Clone, Debug, PartialEq, Eq, Hash, Structural)]
pub struct Days {
    pub monday: bool,
    pub tuesday: bool,
    pub wednesday: bool,
    pub thursday: bool,
    pub friday: bool,
    pub saturday: bool,
    pub sunday: bool,
}

/// The day index used throughout the crate: Sunday is 0, Saturday is 6.
pub open spec fn spec_day_idx(day: Day) -> int {
    match day {
        Day::Sunday => 0,
        Day::Monday => 1,
        Day::Tuesday => 2,
        Day::Wednesday => 3,
        Day::Thursday => 4,
        Day::Friday => 5,
        Day::Saturday => 6,
    }
}

/// Maps a day to its index in a Sunday-first week.
pub fn day_to_idx(day: Day) -> (idx: u8)
    ensures
        idx == spec_day_idx(day),
{
    match day {
        Day::Sunday => 0,
        Day::Monday => 1,
        Day::Tuesday => 2,
        Day::Wednesday => 3,
        Day::Thursday => 4,
        Day::Friday => 5,
        Day::Saturday => 6,
    }
}

impl Days {
    /// Membership of the day with the given index (Sunday is 0).
    pub open spec fn has_idx(self, d: int) -> bool {
        if d == 0 {
            self.sunday
        } else if d == 1 {
            self.monday
        } else if d == 2 {
            self.tuesday
        } else if d == 3 {
            self.wednesday
        } else if d == 4 {
            self.thursday
        } else if d == 5 {
            self.friday
        } else if d == 6 {
            self.saturday
        } else {
            false
        }
    }

    /// True when the two sets share at least one day.
    pub open spec fn spec_intersects(self, other: Days) -> bool {
        exists|d: int| 0 <= d < 7 && self.has_idx(d) && other.has_idx(d)
    }

    /// The member days in Sunday-first order, as [`Days::iter`] returns them.
    pub open spec fn spec_days(self) -> Seq<Day> {
        let s: Seq<Day> = Seq::empty();
        let s = if self.sunday {
            s.push(Day::Sunday)
        } else {
            s
        };
        let s = if self.monday {
            s.push(Day::Monday)
        } else {
            s
        };
        let s = if self.tuesday {
            s.push(Day::Tuesday)
        } else {
            s
        };
        let s = if self.wednesday {
            s.push(Day::Wednesday)
        } else {
            s
        };
        let s = if self.thursday {
            s.push(Day::Thursday)
        } else {
            s
        };
        let s = if self.friday {
            s.push(Day::Friday)
        } else {
            s
        };
        if self.saturday {
            s.push(Day::Saturday)
        } else {
            s
        }
    }

    pub fn everyday() -> (d: Days)
        ensures
            forall|i: int| 0 <= i < 7 ==> d.has_idx(i),
            d == (Days {
                monday: true,
                tuesday: true,
                wednesday: true,
                thursday: true,
                friday: true,
                saturday: true,
                sunday: true,
            }),
    {
        Days {
            monday: true,
            tuesday: true,
            wednesday: true,
            thursday: true,
            friday: true,
            saturday: true,
            sunday: true,
        }
    }

    pub fn never() -> (d: Days)
        ensures
            forall|i: int| 0 <= i < 7 ==> !d.has_idx(i),
            d == (Days {
                monday: false,
                tuesday: false,
                wednesday: false,
                thursday: false,
                friday: false,
                saturday: false,
                sunday: false,
            }),
    {
        Days {
            monday: false,
            tuesday: false,
            wednesday: false,
            thursday: false,
            friday: false,
            saturday: false,
            sunday: false,
        }
    }

    pub fn weekdays() -> (d: Days)
        ensures
            d == (Days {
                monday: true,
                tuesday: true,
                wednesday: true,
                thursday: true,
                friday: true,
                saturday: false,
                sunday: false,
            }),
    {
        Days {
            monday: true,
            tuesday: true,
            wednesday: true,
            thursday: true,
            friday: true,
            saturday: false,
            sunday: false,
        }
    }

    pub fn mwf() -> (d: Days)
        ensures
            d == (Days {
                monday: true,
                tuesday: false,
                wednesday: true,
                thursday: false,
                friday: true,
                saturday: false,
                sunday: false,
            }),
    {
        Days {
            monday: true,
            tuesday: false,
            wednesday: true,
            thursday: false,
            friday: true,
            saturday: false,
            sunday: false,
        }
    }

    pub fn ttf() -> (d: Days)
        ensures
            d == (Days {
                monday: false,
                tuesday: true,
                wednesday: false,
                thursday: true,
                friday: true,
                saturday: false,
                sunday: false,
            }),
    {
        Days {
            monday: false,
            tuesday: true,
            wednesday: false,
            thursday: true,
            friday: true,
            saturday: false,
            sunday: false,
        }
    }

    /// The member days in Sunday-first order.
    pub fn iter(&self) -> (r: Vec<Day>)
        ensures
            r@ == self.spec_days(),
    {
        let mut v: Vec<Day> = Vec::new();
        if self.sunday {
            v.push(Day::Sunday);
        }
        if self.monday {
            v.push(Day::Monday);
        }
        if self.tuesday {
            v.push(Day::Tuesday);
        }
        if self.wednesday {
            v.push(Day::Wednesday);
        }
        if self.thursday {
            v.push(Day::Thursday);
        }
        if self.friday {
            v.push(Day::Friday);
        }
        if self.saturday {
            v.push(Day::Saturday);
        }
        v
    }

    /// Set intersection, day by day.
    pub fn intersect(&self, other: &Days) -> (d: Days)
        ensures
            forall|i: int| 0 <= i < 7 ==> d.has_idx(i) == (self.has_idx(i) && other.has_idx(i)),
    {
        Days {
            monday: self.monday && other.monday,
            tuesday: self.tuesday && other.tuesday,
            wednesday: self.wednesday && other.wednesday,
            thursday: self.thursday && other.thursday,
            friday: self.friday && other.friday,
            saturday: self.saturday && other.saturday,
            sunday: self.sunday && other.sunday,
        }
    }

    /// Set union, day by day.
    pub fn union(&self, other: &Days) -> (d: Days)
        ensures
            forall|i: int| 0 <= i < 7 ==> d.has_idx(i) == (self.has_idx(i) || other.has_idx(i)),
    {
        Days {
            monday: self.monday || other.monday,
            tuesday: self.tuesday || other.tuesday,
            wednesday: self.wednesday || other.wednesday,
            thursday: self.thursday || other.thursday,
            friday: self.friday || other.friday,
            saturday: self.saturday || other.saturday,
            sunday: self.sunday || other.sunday,
        }
    }

    /// Set complement, day by day.
    pub fn complement(&self) -> (d: Days)
        ensures
            forall|i: int| 0 <= i < 7 ==> d.has_idx(i) == !self.has_idx(i),
    {
        Days {
            monday: !self.monday,
            tuesday: !self.tuesday,
            wednesday: !self.wednesday,
            thursday: !self.thursday,
            friday: !self.friday,
            saturday: !self.saturday,
            sunday: !self.sunday,
        }
    }

    /// True when the two sets share at least one day.
    pub fn intersects(&self, other: &Days) -> (r: bool)
        ensures
            r == self.spec_intersects(*other),
    {
        let r = (self.monday && other.monday) || (self.tuesday && other.tuesday) || (
        self.wednesday && other.wednesday) || (self.thursday && other.thursday) || (self.friday
            && other.friday) || (self.saturday && other.saturday) || (self.sunday && other.sunday);
        proof {
            if r {
                if self.monday && other.monday {
                    assert(self.has_idx(1) && other.has_idx(1));
                } else if self.tuesday && other.tuesday {
                    assert(self.has_idx(2) && other.has_idx(2));
                } else if self.wednesday && other.wednesday {
                    assert(self.has_idx(3) && other.has_idx(3));
                } else if self.thursday && other.thursday {
                    assert(self.has_idx(4) && other.has_idx(4));
                } else if self.friday && other.friday {
                    assert(self.has_idx(5) && other.has_idx(5));
                } else if self.saturday && other.saturday {
                    assert(self.has_idx(6) && other.has_idx(6));
                } else {
                    assert(self.has_idx(0) && other.has_idx(0));
                }
            }
        }
        r
    }
}

} // verus!
