//! Value types of the calendar: the five-position day rotation, naive
//! calendar dates as day numbers, holiday ranges, closure notices and the
//! ordered day-override table.

use vstd::prelude::*;

verus! {

/// Largest day number any input date may carry (roughly the year 12900);
/// keeps every date computation of the engine far away from overflow.
pub const MAX_DAY: u64 = 4_000_000;

/// One position of the recurring five-label class-day rotation.
#[derive(Clone, Copy, Debug, PartialEq, Eq, Structural)]
pub enum Day {
    A,
    B,
    C,
    D,
    E,
}

impl Day {
    /// The label that follows this one in the rotation; `E` wraps to `A`.
    pub open spec fn spec_next(self) -> Day {
        match self {
            Day::A => Day::B,
            Day::B => Day::C,
            Day::C => Day::D,
            Day::D => Day::E,
            Day::E => Day::A,
        }
    }

    /// Whether advancing past this label completes a full rotation.
    pub open spec fn spec_wraps(self) -> bool {
        self is E
    }

    /// Advances the rotation: returns the next label and whether the
    /// rotation wrapped (this label was the last one).
    pub fn advance(self) -> (r: (Day, bool))
        ensures
            r.0 == self.spec_next(),
            r.1 == self.spec_wraps(),
    {
        match self {
            Day::A => (Day::B, false),
            Day::B => (Day::C, false),
            Day::C => (Day::D, false),
            Day::D => (Day::E, false),
            Day::E => (Day::A, true),
        }
    }
}

/// A weekday. The institution's weekend is the consecutive pair
/// Thursday/Friday, Thursday being the first weekend day.
#[derive(Clone, Copy, Debug, PartialEq, Eq, Structural)]
pub enum Weekday {
    Mon,
    Tue,
    Wed,
    Thu,
    Fri,
    Sat,
    Sun,
}

/// The weekday of day number `d`. Day 0 (1970-01-01) is a Thursday, so the
/// residue of the day number modulo 7 fixes the weekday.
pub open spec fn weekday_of(d: int) -> Weekday {
    let r = d % 7;
    if r == 0 {
        Weekday::Thu
    } else if r == 1 {
        Weekday::Fri
    } else if r == 2 {
        Weekday::Sat
    } else if r == 3 {
        Weekday::Sun
    } else if r == 4 {
        Weekday::Mon
    } else if r == 5 {
        Weekday::Tue
    } else {
        Weekday::Wed
    }
}

/// A naive Gregorian calendar date, held as the number of days since
/// 1970-01-01 (day 0, a Thursday). No time of day, no time zone.
#[derive(Clone, Copy, Debug, PartialEq, Eq, Structural)]
pub struct Date {
    pub days: u64,
}

impl View for Date {
    type V = int;

    open spec fn view(&self) -> int {
        self.days as int
    }
}

impl Date {
    /// The next calendar day.
    pub fn succ(self) -> (r: Date)
        requires
            self.days < u64::MAX,
        ensures
            r@ == self@ + 1,
    {
        Date { days: self.days + 1 }
    }

    /// The weekday this date falls on.
    pub fn weekday(self) -> (w: Weekday)
        ensures
            w == weekday_of(self@),
    {
        let r = self.days % 7;
        if r == 0 {
            Weekday::Thu
        } else if r == 1 {
            Weekday::Fri
        } else if r == 2 {
            Weekday::Sat
        } else if r == 3 {
            Weekday::Sun
        } else if r == 4 {
            Weekday::Mon
        } else if r == 5 {
            Weekday::Tue
        } else {
            Weekday::Wed
        }
    }
}

/// A closed inclusive block [start, end] of institution-wide non-school days.
#[derive(Clone, Copy, Debug, PartialEq, Eq, Structural)]
pub struct HolidayRange {
    pub start: Date,
    pub end: Date,
}

impl HolidayRange {
    /// A well-formed range runs forward in time and stays within the
    /// supported day numbers.
    pub open spec fn wf(self) -> bool {
        self.start@ <= self.end@ <= MAX_DAY
    }
}

/// How long a closure notice's effect lasts: until a known inclusive end
/// date, or with no known end.
#[derive(Clone, Copy, Debug, PartialEq, Eq, Structural)]
pub enum ClosureExtent {
    Until(Date),
    OpenEnded,
}

/// A published notice: either a full-day class cancellation with a closure
/// extent, or a generic announcement carrying a free-text message.
#[derive(Debug)]
pub enum Notice {
    ClassOff { day_off: bool, date: Date, extent: ClosureExtent },
    Others { date: Date, message: String },
}

impl Notice {
    /// The date the notice is published for.
    pub open spec fn date_of(self) -> int {
        match self {
            Notice::ClassOff { date, .. } => date@,
            Notice::Others { date, .. } => date@,
        }
    }

    /// A well-formed notice carries dates within the supported day numbers,
    /// and a closed extent does not end before it starts.
    pub open spec fn wf(self) -> bool {
        match self {
            Notice::ClassOff { date, extent, .. } => match extent {
                ClosureExtent::Until(e) => date@ <= e@ <= MAX_DAY,
                ClosureExtent::OpenEnded => date@ <= MAX_DAY,
            },
            Notice::Others { date, .. } => date@ <= MAX_DAY,
        }
    }
}

/// One row of the expansion result: a school day with its rotation label
/// and the cycle number current when the day was assigned.
#[derive(Clone, Copy, Debug, PartialEq, Eq, Structural)]
pub struct ScheduleEntry {
    pub date: Date,
    pub day: Day,
    pub cycle: u64,
}

/// The value of the override entry at `d`, scanning `om` from index `i` on;
/// `None` when no entry carries that date.
pub open spec fn om_get_from(om: Seq<(Date, Day)>, d: int, i: int) -> Option<Day>
    decreases om.len() - i,
{
    if !(0 <= i < om.len()) {
        None
    } else if om[i].0@ == d {
        Some(om[i].1)
    } else {
        om_get_from(om, d, i + 1)
    }
}

/// The explicit day-label override recorded for date `d`, if any.
pub open spec fn om_lookup(om: Seq<(Date, Day)>, d: int) -> Option<Day> {
    om_get_from(om, d, 0)
}

/// The override entry with the greatest date at or before `start`: the seed
/// of the rotation. `None` when every entry lies after `start`.
pub open spec fn baseline_of(om: Seq<(Date, Day)>, start: int) -> Option<(Date, Day)>
    decreases om.len(),
{
    if om.len() == 0 {
        None
    } else if om.last().0@ <= start {
        Some(om.last())
    } else {
        baseline_of(om.drop_last(), start)
    }
}

/// Ordered table of explicit, authoritative day-label assignments that
/// bypass the rotation, keyed by strictly increasing dates.
#[derive(Debug)]
pub struct DayOverrideMap {
    pub entries: Vec<(Date, Day)>,
}

impl DayOverrideMap {
    /// Entries are strictly sorted by date and stay within the supported
    /// day numbers.
    pub open spec fn wf(self) -> bool {
        &&& forall|i: int, j: int|
            0 <= i < j < self.entries@.len() ==> self.entries@[i].0@ < self.entries@[j].0@
        &&& forall|i: int| 0 <= i < self.entries@.len() ==> self.entries@[i].0@ <= MAX_DAY
    }

    /// An empty override table.
    pub fn new() -> (r: DayOverrideMap)
        ensures
            r.entries@ == Seq::<(Date, Day)>::empty(),
    {
        DayOverrideMap { entries: Vec::new() }
    }

    /// The override recorded for `d`, if any.
    pub fn get(&self, d: Date) -> (r: Option<Day>)
        ensures
            r == om_lookup(self.entries@, d@),
    {
        let mut i: usize = 0;
        while i < self.entries.len()
            invariant
                0 <= i <= self.entries@.len(),
                om_lookup(self.entries@, d@) == om_get_from(self.entries@, d@, i as int),
            decreases self.entries@.len() - i,
        {
            let (ed, el) = self.entries[i];
            if ed.days == d.days {
                return Some(el);
            }
            i = i + 1;
        }
        None
    }

    /// The entry with the greatest date at or before `start`, if any.
    pub fn baseline(&self, start: Date) -> (r: Option<(Date, Day)>)
        ensures
            r == baseline_of(self.entries@, start@),
    {
        let mut i: usize = self.entries.len();
        proof {
            assert(self.entries@.take(i as int) =~= self.entries@);
        }
        while i > 0
            invariant
                0 <= i <= self.entries@.len(),
                baseline_of(self.entries@, start@) == baseline_of(
                    self.entries@.take(i as int),
                    start@,
                ),
            decreases i,
        {
            let (ed, el) = self.entries[i - 1];
            proof {
                assert(self.entries@.take(i as int).last() == self.entries@[i - 1]);
                assert(self.entries@.take(i as int).drop_last() =~= self.entries@.take(
                    i as int - 1,
                ));
            }
            if ed.days <= start.days {
                return Some((ed, el));
            }
            i = i - 1;
        }
        proof {
            assert(self.entries@.take(0).len() == 0);
        }
        None
    }
}

} // verus!
