//! The date-expansion engine: a pure function from the calendar inputs and a
//! semester start date to the ordered table of school days, each with its
//! rotation label and cycle number.

use vstd::prelude::*;

use crate::calendar::{
    baseline_of, om_lookup, weekday_of, ClosureExtent, Date, Day, DayOverrideMap, HolidayRange,
    Notice, ScheduleEntry, Weekday, MAX_DAY,
};
use vstd::arithmetic::div_mod::{
    lemma_add_mod_noop, lemma_mod_bound, lemma_mod_self_0, lemma_small_mod,
};

verus! {

/// Ceiling on every day number the engine's cursor can reach: far above any
/// well-formed input date, far below overflow.
pub const DATE_CAP: u64 = 17 * MAX_DAY + 600;

/// A closure window consumed by the engine: a start date and either a known
/// inclusive end date or an open end.
#[derive(Clone, Copy, Debug, PartialEq, Eq, Structural)]
pub struct Window {
    pub start: Date,
    pub end: Option<Date>,
}

impl Window {
    /// Well-formed windows stay within the supported day numbers; a closed
    /// end does not precede the start. The end may exceed `MAX_DAY` by the
    /// four days a synthetic break window adds.
    pub open spec fn wf(self) -> bool {
        match self.end {
            Some(e) => self.start@ <= e@ <= MAX_DAY + 4,
            None => self.start@ <= MAX_DAY,
        }
    }
}

/// The reserved announcement text treated as an implicit five-day closure.
pub open spec fn break_message() -> Seq<char> {
    "Mid-semester break"@
}

/// The closure window a notice induces, if any: a full-day cancellation
/// keeps its own extent; in a department-local list a generic announcement
/// carrying the reserved break message becomes the closed five-day window
/// starting at its date.
pub open spec fn notice_window(n: Notice, local: bool) -> Option<Window> {
    match n {
        Notice::ClassOff { day_off, date, extent } => if day_off {
            Some(
                Window {
                    start: date,
                    end: match extent {
                        ClosureExtent::Until(e) => Some(e),
                        ClosureExtent::OpenEnded => None,
                    },
                },
            )
        } else {
            None
        },
        Notice::Others { date, message } => if local && message@ == break_message() {
            Some(Window { start: date, end: Some(Date { days: (date.days + 4) as u64 }) })
        } else {
            None
        },
    }
}

/// The holiday ranges still relevant once the first candidate date is `fc`:
/// those starting strictly after `fc`, in input order, from index `i` on.
pub open spec fn filtered_holidays(hs: Seq<HolidayRange>, fc: int, i: int) -> Seq<HolidayRange>
    decreases hs.len() - i,
{
    if !(0 <= i < hs.len()) {
        Seq::empty()
    } else {
        let rest = filtered_holidays(hs, fc, i + 1);
        if fc < hs[i].start@ {
            seq![hs[i]] + rest
        } else {
            rest
        }
    }
}

/// The closure windows of a notice list still relevant once the first
/// candidate date is `fc`: windows of notices dated strictly after `fc`, in
/// input order, from index `i` on.
pub open spec fn filtered_windows(ns: Seq<Notice>, fc: int, local: bool, i: int) -> Seq<Window>
    decreases ns.len() - i,
{
    if !(0 <= i < ns.len()) {
        Seq::empty()
    } else {
        let rest = filtered_windows(ns, fc, local, i + 1);
        match notice_window(ns[i], local) {
            Some(w) => if fc < ns[i].date_of() {
                seq![w] + rest
            } else {
                rest
            },
            None => rest,
        }
    }
}

/// Days still missing from the candidate date to the semester start.
pub open spec fn dist_to_start(start: int, date: int) -> int {
    if date < start {
        start - date
    } else {
        0
    }
}

/// School days still missing to the 65-day threshold.
pub open spec fn deficit(days: int) -> int {
    if days < 65 {
        65 - days
    } else {
        0
    }
}

/// Within-week progress part of the measure: before the threshold it sinks
/// on every weekend skip; after it, it is the distance to next Thursday.
pub open spec fn wphase(date: int, days: int) -> int {
    if days >= 65 {
        (7 - date % 7) % 7
    } else {
        7 - date % 7
    }
}

/// Combined potential of the cursor position: it sinks by at least as much
/// as the date rises on every step that does not consume a window.
pub open spec fn psi(start: int, date: int, days: int) -> int {
    16 * dist_to_start(start, date) + 8 * deficit(days) + wphase(date, days)
}

/// Number of closure windows not yet consumed by the three cursors.
pub open spec fn wrem(hn: int, gn: int, ln: int, hi: int, gi: int, li: int) -> int {
    (if hi < hn {
        hn - hi
    } else {
        0
    }) + (if gi < gn {
        gn - gi
    } else {
        0
    }) + (if li < ln {
        ln - li
    } else {
        0
    })
}

/// Whether `date` lies inside the closed window `w`.
pub open spec fn win_contains(w: Window, date: int) -> bool {
    match w.end {
        Some(e) => w.start@ <= date && date <= e@,
        None => false,
    }
}

/// Whether `w` is open-ended and `date` has reached its start.
pub open spec fn win_open_reached(w: Window, date: int) -> bool {
    match w.end {
        Some(_) => false,
        None => date >= w.start@,
    }
}

/// The first day after the closed window `w`.
pub open spec fn win_end_succ(w: Window) -> int {
    match w.end {
        Some(e) => e@ + 1,
        None => 0,
    }
}

/// The cycle number for assignments after label `l` was assigned: one more
/// when `l` closes the rotation.
pub open spec fn next_cycle(cycle: int, l: Day) -> int {
    cycle + if l is E {
        1int
    } else {
        0
    }
}

/// The table row recording label `l` with cycle `cycle` on day `date`.
pub open spec fn entry_at(date: int, l: Day, cycle: int) -> ScheduleEntry {
    ScheduleEntry { date: Date { days: date as u64 }, day: l, cycle: cycle as u64 }
}

proof fn lemma_wk_succ(d: int)
    ensures
        0 <= d % 7 < 7,
        (d + 1) % 7 == if d % 7 == 6 {
            0int
        } else {
            d % 7 + 1
        },
{
    lemma_mod_bound(d, 7);
    lemma_add_mod_noop(d, 1, 7);
    lemma_small_mod(1nat, 7nat);
    if d % 7 == 6 {
        lemma_mod_self_0(7);
        assert((d + 1) % 7 == (d % 7 + 1) % 7);
        assert((6 + 1) % 7 == 0int);
    } else {
        lemma_small_mod((d % 7 + 1) as nat, 7nat);
    }
}

pub proof fn lemma_psi_nonneg(start: int, date: int, days: int)
    ensures
        psi(start, date, days) >= 0,
{
    lemma_wk_succ(date);
}

pub proof fn lemma_psi_assign(start: int, date: int, days: int)
    requires
        !(days >= 65 && date % 7 == 0),
    ensures
        psi(start, date + 1, days + 1) + 1 <= psi(start, date, days),
        psi(start, date + 1, days + 1) >= 0,
{
    lemma_wk_succ(date);
    lemma_wk_succ(date + 1);
}

pub proof fn lemma_psi_noassign(start: int, date: int, days: int)
    requires
        date < start,
    ensures
        psi(start, date + 1, days) + 1 <= psi(start, date, days),
        psi(start, date + 1, days) >= 0,
{
    lemma_wk_succ(date);
    lemma_wk_succ(date + 1);
}

pub proof fn lemma_psi_thu(start: int, date: int, days: int)
    requires
        date % 7 == 0,
        days < 65,
    ensures
        psi(start, date + 2, days) + 2 <= psi(start, date, days),
        psi(start, date + 2, days) >= 0,
{
    lemma_wk_succ(date);
    lemma_wk_succ(date + 1);
    lemma_wk_succ(date + 2);
}

pub proof fn lemma_psi_fri(start: int, date: int, days: int)
    requires
        date % 7 == 1,
    ensures
        psi(start, date + 1, days) + 1 <= psi(start, date, days),
        psi(start, date + 1, days) >= 0,
{
    lemma_wk_succ(date);
    lemma_wk_succ(date + 1);
}

pub proof fn lemma_psi_cap(start: int, date: int, days: int)
    requires
        0 <= start <= MAX_DAY,
        0 <= date,
        0 <= days,
    ensures
        psi(start, date, days) <= 16 * (MAX_DAY as int) + 527,
{
    lemma_wk_succ(date);
}

/// The whole expansion from one engine state: the table the main loop still
/// produces when the cursor stands on `date` with rotation label `day`,
/// cycle number `cycle`, `days` school days already assigned, and the three
/// window cursors at `hi`, `gi` and `li`.
///
/// A day with an explicit override always records that label, even before
/// the semester start, and always advances the rotation. Otherwise the
/// pending holiday, global and local windows are consulted in that order: a
/// closed window containing the date is skipped whole, and an open-ended
/// window whose start the date has reached ends the whole expansion.
/// Otherwise weekends (Thursday/Friday) are skipped, and an ordinary day at
/// or after the semester start advances the rotation and is recorded.
/// Expansion ends on the first Thursday once 65 days are assigned.
#[verifier::opaque]
pub open spec fn run(
    om: Seq<(Date, Day)>,
    ho: Seq<HolidayRange>,
    go: Seq<Window>,
    lo: Seq<Window>,
    start: int,
    date: int,
    day: Day,
    cycle: int,
    days: int,
    hi: int,
    gi: int,
    li: int,
) -> Seq<ScheduleEntry>
    decreases wrem(ho.len() as int, go.len() as int, lo.len() as int, hi, gi, li), psi(start, date, days),
{
    if days >= 65 && weekday_of(date) is Thu {
        Seq::empty()
    } else {
        match om_lookup(om, date) {
            Some(l) => {
                proof {
                    lemma_psi_assign(start, date, days);
                }
                seq![entry_at(date, l, cycle)] + run(
                    om,
                    ho,
                    go,
                    lo,
                    start,
                    date + 1,
                    l,
                    next_cycle(cycle, l),
                    days + 1,
                    hi,
                    gi,
                    li,
                )
            },
            None => {
                if hi < ho.len() && ho[hi].start@ <= date && date <= ho[hi].end@ {
                    proof {
                        lemma_psi_nonneg(start, ho[hi].end@ + 1, days);
                    }
                    run(om, ho, go, lo, start, ho[hi].end@ + 1, day, cycle, days, hi + 1, gi, li)
                } else if gi < go.len() && win_contains(go[gi], date) {
                    proof {
                        lemma_psi_nonneg(start, win_end_succ(go[gi]), days);
                    }
                    run(om, ho, go, lo, start, win_end_succ(go[gi]), day, cycle, days, hi, gi + 1, li)
                } else if gi < go.len() && win_open_reached(go[gi], date) {
                    Seq::empty()
                } else if li < lo.len() && win_contains(lo[li], date) {
                    proof {
                        lemma_psi_nonneg(start, win_end_succ(lo[li]), days);
                    }
                    run(om, ho, go, lo, start, win_end_succ(lo[li]), day, cycle, days, hi, gi, li + 1)
                } else if li < lo.len() && win_open_reached(lo[li], date) {
                    Seq::empty()
                } else if weekday_of(date) is Thu {
                    proof {
                        lemma_psi_thu(start, date, days);
                    }
                    run(om, ho, go, lo, start, date + 2, day, cycle, days, hi, gi, li)
                } else if weekday_of(date) is Fri {
                    proof {
                        lemma_psi_fri(start, date, days);
                    }
                    run(om, ho, go, lo, start, date + 1, day, cycle, days, hi, gi, li)
                } else if date >= start {
                    proof {
                        lemma_psi_assign(start, date, days);
                    }
                    seq![entry_at(date, day.spec_next(), cycle)] + run(
                        om,
                        ho,
                        go,
                        lo,
                        start,
                        date + 1,
                        day.spec_next(),
                        next_cycle(cycle, day.spec_next()),
                        days + 1,
                        hi,
                        gi,
                        li,
                    )
                } else {
                    proof {
                        lemma_psi_noassign(start, date, days);
                    }
                    run(om, ho, go, lo, start, date + 1, day, cycle, days, hi, gi, li)
                }
            },
        }
    }
}

/// Expansion failures.
#[derive(Clone, Copy, Debug, PartialEq, Eq, Structural)]
pub enum ExpandError {
    /// No override entry exists at or before the semester start, so nothing
    /// seeds the rotation.
    NoBaselineOverride,
}

/// The reserved break announcement text as an owned string.
fn break_text() -> (r: String)
    ensures
        r@ == break_message(),
{
    String::from_str("Mid-semester break")
}

/// Keeps the holiday ranges starting strictly after the first candidate
/// date, in input order.
fn filter_holidays(hs: &Vec<HolidayRange>, fc: Date) -> (out: Vec<HolidayRange>)
    requires
        forall|k: int| 0 <= k < hs@.len() ==> (#[trigger] hs@[k]).wf(),
    ensures
        out@ == filtered_holidays(hs@, fc@, 0),
        forall|k: int| 0 <= k < out@.len() ==> (#[trigger] out@[k]).wf(),
{
    let mut out: Vec<HolidayRange> = Vec::new();
    let mut i: usize = 0;
    while i < hs.len()
        invariant
            0 <= i <= hs@.len(),
            forall|k: int| 0 <= k < hs@.len() ==> (#[trigger] hs@[k]).wf(),
            filtered_holidays(hs@, fc@, 0) == out@ + filtered_holidays(hs@, fc@, i as int),
            forall|k: int| 0 <= k < out@.len() ==> (#[trigger] out@[k]).wf(),
        decreases hs@.len() - i,
    {
        let ghost pre = out@;
        let ghost rest = filtered_holidays(hs@, fc@, i as int + 1);
        let h = hs[i];
        if fc.days < h.start.days {
            out.push(h);
            proof {
                assert(filtered_holidays(hs@, fc@, i as int) == seq![hs@[i as int]] + rest);
                assert(out@ =~= pre + seq![h]);
                assert(pre + (seq![h] + rest) =~= (pre + seq![h]) + rest);
            }
        } else {
            proof {
                assert(filtered_holidays(hs@, fc@, i as int) == rest);
            }
        }
        i = i + 1;
    }
    proof {
        assert(filtered_holidays(hs@, fc@, hs@.len() as int) == Seq::<HolidayRange>::empty());
        assert(out@ + Seq::<HolidayRange>::empty() =~= out@);
    }
    out
}

/// Keeps the closure windows of notices dated strictly after the first
/// candidate date, in input order.
fn filter_notices(ns: &Vec<Notice>, fc: Date, local: bool) -> (out: Vec<Window>)
    requires
        forall|k: int| 0 <= k < ns@.len() ==> (#[trigger] ns@[k]).wf(),
    ensures
        out@ == filtered_windows(ns@, fc@, local, 0),
        forall|k: int| 0 <= k < out@.len() ==> (#[trigger] out@[k]).wf(),
{
    let brk = break_text();
    let mut out: Vec<Window> = Vec::new();
    let mut i: usize = 0;
    while i < ns.len()
        invariant
            0 <= i <= ns@.len(),
            brk@ == break_message(),
            forall|k: int| 0 <= k < ns@.len() ==> (#[trigger] ns@[k]).wf(),
            filtered_windows(ns@, fc@, local, 0) == out@ + filtered_windows(
                ns@,
                fc@,
                local,
                i as int,
            ),
            forall|k: int| 0 <= k < out@.len() ==> (#[trigger] out@[k]).wf(),
        decreases ns@.len() - i,
    {
        let ghost pre = out@;
        let ghost rest = filtered_windows(ns@, fc@, local, i as int + 1);
        let n = &ns[i];
        proof {
            assert(ns@[i as int].wf());
        }
        let w: Option<Window> = match n {
            Notice::ClassOff { day_off, date, extent } => if *day_off {
                Some(
                    Window {
                        start: *date,
                        end: match extent {
                            ClosureExtent::Until(e) => Some(*e),
                            ClosureExtent::OpenEnded => None,
                        },
                    },
                )
            } else {
                None
            },
            Notice::Others { date, message } => if local && *message == brk {
                Some(Window { start: *date, end: Some(Date { days: date.days + 4 }) })
            } else {
                None
            },
        };
        proof {
            assert(w == notice_window(ns@[i as int], local));
        }
        match w {
            Some(win) => {
                let kept = match n {
                    Notice::ClassOff { date, .. } => fc.days < date.days,
                    Notice::Others { date, .. } => fc.days < date.days,
                };
                if kept {
                    out.push(win);
                    proof {
                        assert(filtered_windows(ns@, fc@, local, i as int) == seq![win] + rest);
                        assert(out@ =~= pre + seq![win]);
                        assert(pre + (seq![win] + rest) =~= (pre + seq![win]) + rest);
                    }
                } else {
                    proof {
                        assert(filtered_windows(ns@, fc@, local, i as int) == rest);
                    }
                }
            },
            None => {
                proof {
                    assert(filtered_windows(ns@, fc@, local, i as int) == rest);
                }
            },
        }
        i = i + 1;
    }
    proof {
        assert(filtered_windows(ns@, fc@, local, ns@.len() as int) == Seq::<Window>::empty());
        assert(out@ + Seq::<Window>::empty() =~= out@);
    }
    out
}

/// Whether `d` lies inside the closed window `w`.
fn win_contains_x(w: Window, d: Date) -> (r: bool)
    ensures
        r == win_contains(w, d@),
{
    match w.end {
        Some(e) => w.start.days <= d.days && d.days <= e.days,
        None => false,
    }
}

/// Whether `w` is open-ended and `d` has reached its start.
fn win_open_reached_x(w: Window, d: Date) -> (r: bool)
    ensures
        r == win_open_reached(w, d@),
{
    match w.end {
        Some(_) => false,
        None => d.days >= w.start.days,
    }
}

/// The department-local notice list as a sequence; absent file, no notices.
pub open spec fn local_seq(l: Option<Vec<Notice>>) -> Seq<Notice> {
    match l {
        Some(v) => v@,
        None => Seq::empty(),
    }
}

/// The full expansion of the declared inputs: `None` exactly when no
/// override seeds the rotation at or before `start`; otherwise the table
/// grown by `run` from the day after the baseline override.
pub open spec fn expand_spec(
    om: Seq<(Date, Day)>,
    ho: Seq<HolidayRange>,
    go: Seq<Notice>,
    lo: Seq<Notice>,
    start: int,
) -> Option<Seq<ScheduleEntry>> {
    match baseline_of(om, start) {
        None => None,
        Some(b) => Some(
            run(
                om,
                filtered_holidays(ho, b.0@ + 1, 0),
                filtered_windows(go, b.0@ + 1, false, 0),
                filtered_windows(lo, b.0@ + 1, true, 0),
                start,
                b.0@ + 1,
                b.1,
                1,
                0,
                0,
                0,
                0,
            ),
        ),
    }
}

proof fn lemma_baseline_at_most(om: Seq<(Date, Day)>, start: int)
    ensures
        baseline_of(om, start) matches Some(b) ==> b.0@ <= start,
    decreases om.len(),
{
    if om.len() > 0 && !(om.last().0@ <= start) {
        lemma_baseline_at_most(om.drop_last(), start);
    }
}

/// Expands a semester into its school-day table.
///
/// The override entry with the greatest date at or before `start_date`
/// seeds the rotation; without one the expansion fails. From the day after
/// that baseline, days are walked in order: explicit overrides are always
/// recorded; otherwise pending holiday, global and local closure windows
/// are skipped (an open-ended one, once reached, ends the expansion with
/// the table built so far); otherwise weekends are skipped and ordinary
/// days at or after `start_date` advance the rotation and are recorded.
/// The walk stops on the first Thursday after 65 days were assigned.
///
/// The resulting table is exactly `expand_spec` of the inputs; its dates
/// are strictly increasing; each cycle number grows by one exactly after a
/// row whose label closes the rotation; and every row is an override row or
/// a non-weekend day at or after `start_date`.
#[verifier::loop_isolation(false)]
#[verifier::rlimit(100)]
pub fn expand(
    overrides: &DayOverrideMap,
    holidays: &Vec<HolidayRange>,
    global_notices: &Vec<Notice>,
    local_notices: &Option<Vec<Notice>>,
    start_date: Date,
) -> (result: Result<Vec<ScheduleEntry>, ExpandError>)
    requires
        overrides.wf(),
        forall|k: int| 0 <= k < holidays@.len() ==> (#[trigger] holidays@[k]).wf(),
        forall|k: int, l: int|
            0 <= k < l < holidays@.len() ==> holidays@[k].start@ <= holidays@[l].start@,
        forall|k: int| 0 <= k < global_notices@.len() ==> (#[trigger] global_notices@[k]).wf(),
        forall|k: int, l: int|
            0 <= k < l < global_notices@.len() ==> global_notices@[k].date_of()
                <= global_notices@[l].date_of(),
        forall|k: int|
            0 <= k < local_seq(*local_notices).len() ==> (#[trigger] local_seq(
                *local_notices,
            )[k]).wf(),
        forall|k: int, l: int|
            0 <= k < l < local_seq(*local_notices).len() ==> local_seq(*local_notices)[k].date_of()
                <= local_seq(*local_notices)[l].date_of(),
        start_date@ <= MAX_DAY,
    ensures
        result is Err <==> expand_spec(
            overrides.entries@,
            holidays@,
            global_notices@,
            local_seq(*local_notices),
            start_date@,
        ) is None,
        result is Err ==> result == Err::<Vec<ScheduleEntry>, ExpandError>(
            ExpandError::NoBaselineOverride,
        ),
        result matches Ok(v) ==> Some(v@) == expand_spec(
            overrides.entries@,
            holidays@,
            global_notices@,
            local_seq(*local_notices),
            start_date@,
        ),
{
    let bl = overrides.baseline(start_date);
    proof {
        lemma_baseline_at_most(overrides.entries@, start_date@);
    }
    let (bdate, bday) = match bl {
        None => {
            return Err(ExpandError::NoBaselineOverride);
        },
        Some(p) => p,
    };
    let fc = bdate.succ();
    let fho = filter_holidays(holidays, fc);
    let empty_local: Vec<Notice> = Vec::new();
    let locs: &Vec<Notice> = match local_notices {
        Some(v) => v,
        None => &empty_local,
    };
    proof {
        assert(locs@ =~= local_seq(*local_notices));
    }
    let fgo = filter_notices(global_notices, fc, false);
    let flo = filter_notices(locs, fc, true);

    let ghost om = overrides.entries@;
    let ghost start = start_date@;
    let ghost full = run(om, fho@, fgo@, flo@, start, fc@, bday, 1, 0, 0, 0, 0);

    let mut date = fc;
    let mut day = bday;
    let mut cycle: u64 = 1;
    let mut days: u64 = 0;
    let mut hi: usize = 0;
    let mut gi: usize = 0;
    let mut li: usize = 0;
    let mut halted = false;
    let mut acc: Vec<ScheduleEntry> = Vec::new();

    proof {
        lemma_psi_cap(start, fc@, 0);
        assert(Seq::<ScheduleEntry>::empty() + full =~= full);
    }
    while !halted && !(days >= 65 && date.days % 7 == 0)
        invariant
            hi <= fho@.len(),
            gi <= fgo@.len(),
            li <= flo@.len(),
            date@ + psi(start, date@, days as int) <= DATE_CAP as int,
            days as int <= date@ - fc@,
            cycle as int <= 1 + days as int,
            full == acc@ + run(
                om,
                fho@,
                fgo@,
                flo@,
                start,
                date@,
                day,
                cycle as int,
                days as int,
                hi as int,
                gi as int,
                li as int,
            ),
            halted ==> full == acc@,
        decreases
                wrem(
                    fho@.len() as int,
                    fgo@.len() as int,
                    flo@.len() as int,
                    hi as int,
                    gi as int,
                    li as int,
                ),
                psi(start, date@, days as int),
                (if halted {
                    0int
                } else {
                    1
                }),
    {
        proof {
            lemma_psi_nonneg(start, date@, days as int);
        }
        let ghost pre = acc@;
        let ghost cur = run(
            om,
            fho@,
            fgo@,
            flo@,
            start,
            date@,
            day,
            cycle as int,
            days as int,
            hi as int,
            gi as int,
            li as int,
        );
        match overrides.get(date) {
            Some(l) => {
                let ghost nxt = run(
                    om,
                    fho@,
                    fgo@,
                    flo@,
                    start,
                    date@ + 1,
                    l,
                    next_cycle(cycle as int, l),
                    days as int + 1,
                    hi as int,
                    gi as int,
                    li as int,
                );
                proof {
                    reveal_with_fuel(run, 1);
                    lemma_psi_assign(start, date@, days as int);
                    assert(cur == seq![entry_at(date@, l, cycle as int)] + nxt);
                }
                let e = ScheduleEntry { date, day: l, cycle };
                acc.push(e);
                proof {
                    assert(e == entry_at(date@, l, cycle as int));
                    assert(acc@ =~= pre + seq![e]);
                    assert(pre + (seq![e] + nxt) =~= (pre + seq![e]) + nxt);
                }
                day = l;
                days = days + 1;
                if l == Day::E {
                    cycle = cycle + 1;
                }
                date = date.succ();
            },
            None => {
                if hi < fho.len() && fho[hi].start.days <= date.days && date.days
                    <= fho[hi].end.days {
                    proof {
                        reveal_with_fuel(run, 1);
                        assert(fho@[hi as int].wf());
                        lemma_psi_cap(start, fho@[hi as int].end@ + 1, days as int);
                        assert(cur == run(
                            om,
                            fho@,
                            fgo@,
                            flo@,
                            start,
                            fho@[hi as int].end@ + 1,
                            day,
                            cycle as int,
                            days as int,
                            hi as int + 1,
                            gi as int,
                            li as int,
                        ));
                    }
                    date = Date { days: fho[hi].end.days + 1 };
                    hi = hi + 1;
                } else if gi < fgo.len() && win_contains_x(fgo[gi], date) {
                    let w = fgo[gi];
                    proof {
                        reveal_with_fuel(run, 1);
                        assert(fgo@[gi as int].wf());
                        lemma_psi_cap(start, win_end_succ(w), days as int);
                        assert(cur == run(
                            om,
                            fho@,
                            fgo@,
                            flo@,
                            start,
                            win_end_succ(w),
                            day,
                            cycle as int,
                            days as int,
                            hi as int,
                            gi as int + 1,
                            li as int,
                        ));
                    }
                    let we = match w.end {
                        Some(x) => x,
                        None => Date { days: 0 },
                    };
                    date = Date { days: we.days + 1 };
                    gi = gi + 1;
                } else if gi < fgo.len() && win_open_reached_x(fgo[gi], date) {
                    proof {
                        reveal_with_fuel(run, 1);
                        assert(cur =~= Seq::<ScheduleEntry>::empty());
                        assert(acc@ + cur =~= acc@);
                    }
                    halted = true;
                } else if li < flo.len() && win_contains_x(flo[li], date) {
                    let w = flo[li];
                    proof {
                        reveal_with_fuel(run, 1);
                        assert(flo@[li as int].wf());
                        lemma_psi_cap(start, win_end_succ(w), days as int);
                        assert(cur == run(
                            om,
                            fho@,
                            fgo@,
                            flo@,
                            start,
                            win_end_succ(w),
                            day,
                            cycle as int,
                            days as int,
                            hi as int,
                            gi as int,
                            li as int + 1,
                        ));
                    }
                    let we = match w.end {
                        Some(x) => x,
                        None => Date { days: 0 },
                    };
                    date = Date { days: we.days + 1 };
                    li = li + 1;
                } else if li < flo.len() && win_open_reached_x(flo[li], date) {
                    proof {
                        reveal_with_fuel(run, 1);
                        assert(cur =~= Seq::<ScheduleEntry>::empty());
                        assert(acc@ + cur =~= acc@);
                    }
                    halted = true;
                } else {
                    let wd = date.weekday();
                    if wd == Weekday::Thu {
                        proof {
                            reveal_with_fuel(run, 1);
                            lemma_psi_thu(start, date@, days as int);
                            assert(cur == run(
                                om,
                                fho@,
                                fgo@,
                                flo@,
                                start,
                                date@ + 2,
                                day,
                                cycle as int,
                                days as int,
                                hi as int,
                                gi as int,
                                li as int,
                            ));
                        }
                        date = Date { days: date.days + 2 };
                    } else if wd == Weekday::Fri {
                        proof {
                            reveal_with_fuel(run, 1);
                            lemma_psi_fri(start, date@, days as int);
                            assert(cur == run(
                                om,
                                fho@,
                                fgo@,
                                flo@,
                                start,
                                date@ + 1,
                                day,
                                cycle as int,
                                days as int,
                                hi as int,
                                gi as int,
                                li as int,
                            ));
                        }
                        date = Date { days: date.days + 1 };
                    } else if date.days >= start_date.days {
                        let (nl, _wrapped) = day.advance();
                        let ghost nxt = run(
                            om,
                            fho@,
                            fgo@,
                            flo@,
                            start,
                            date@ + 1,
                            nl,
                            next_cycle(cycle as int, nl),
                            days as int + 1,
                            hi as int,
                            gi as int,
                            li as int,
                        );
                        proof {
                            reveal_with_fuel(run, 1);
                            lemma_psi_assign(start, date@, days as int);
                            assert(cur == seq![entry_at(date@, nl, cycle as int)] + nxt);
                        }
                        let e = ScheduleEntry { date, day: nl, cycle };
                        acc.push(e);
                        proof {
                            assert(e == entry_at(date@, nl, cycle as int));
                            assert(acc@ =~= pre + seq![e]);
                            assert(pre + (seq![e] + nxt) =~= (pre + seq![e]) + nxt);
                        }
                        day = nl;
                        days = days + 1;
                        if nl == Day::E {
                            cycle = cycle + 1;
                        }
                        date = date.succ();
                    } else {
                        proof {
                            reveal_with_fuel(run, 1);
                            lemma_psi_noassign(start, date@, days as int);
                            assert(cur == run(
                                om,
                                fho@,
                                fgo@,
                                flo@,
                                start,
                                date@ + 1,
                                day,
                                cycle as int,
                                days as int,
                                hi as int,
                                gi as int,
                                li as int,
                            ));
                        }
                        date = date.succ();
                    }
                }
            },
        }
    }
    proof {
        reveal_with_fuel(run, 1);
        if !halted {
            assert(run(
                om,
                fho@,
                fgo@,
                flo@,
                start,
                date@,
                day,
                cycle as int,
                days as int,
                hi as int,
                gi as int,
                li as int,
            ) =~= Seq::<ScheduleEntry>::empty());
            assert(acc@ + Seq::<ScheduleEntry>::empty() =~= acc@);
        }
        assert(full == acc@);
        assert(expand_spec(
            overrides.entries@,
            holidays@,
            global_notices@,
            local_seq(*local_notices),
            start_date@,
        ) == Some(full));
    }
    Ok(acc)
}

proof fn lemma_concat_index(r: Seq<ScheduleEntry>, tail: Seq<ScheduleEntry>, e: ScheduleEntry, k: int)
    requires
        r == seq![e] + tail,
        1 <= k < r.len(),
    ensures
        r[k] == tail[k - 1],
{
}

proof fn lemma_prepend_facts(
    r: Seq<ScheduleEntry>,
    tail: Seq<ScheduleEntry>,
    e: ScheduleEntry,
    date: int,
    cycle: int,
)
    requires
        r == seq![e] + tail,
        e.date@ == date,
        e.cycle as int == cycle,
        forall|i: int| 0 <= i < tail.len() ==> (#[trigger] tail[i]).date@ >= date + 1,
        forall|i: int, j: int| 0 <= i < j < tail.len() ==> tail[i].date@ < tail[j].date@,
        tail.len() > 0 ==> tail[0].cycle as int == cycle + (if e.day is E {
            1int
        } else {
            0
        }),
        forall|i: int|
            0 <= i && i + 1 < tail.len() ==> tail[i + 1].cycle as int == tail[i].cycle as int + (
            if tail[i].day is E {
                1int
            } else {
                0
            }),
    ensures
        forall|i: int| 0 <= i < r.len() ==> (#[trigger] r[i]).date@ >= date,
        forall|i: int, j: int| 0 <= i < j < r.len() ==> r[i].date@ < r[j].date@,
        r.len() > 0 ==> r[0].cycle as int == cycle,
        forall|i: int|
            0 <= i && i + 1 < r.len() ==> r[i + 1].cycle as int == r[i].cycle as int + (if r[i].day
                is E {
                1int
            } else {
                0
            }),
{
    assert(r[0] == e);
    assert(forall|i: int| 1 <= i < r.len() ==> r[i] == tail[i - 1]);
    assert forall|i: int| 0 <= i < r.len() implies (#[trigger] r[i]).date@ >= date by {
        if i > 0 {
            assert(r[i] == tail[i - 1]);
        }
    }
    assert forall|i: int, j: int| 0 <= i < j < r.len() implies r[i].date@ < r[j].date@ by {
        assert(r[j] == tail[j - 1]);
        assert(tail[j - 1].date@ >= date + 1);
        if i > 0 {
            assert(r[i] == tail[i - 1]);
        }
    }
    assert forall|i: int| 0 <= i && i + 1 < r.len() implies r[i + 1].cycle as int == r[i].cycle as int
        + (if r[i].day is E {
        1int
    } else {
        0
    }) by {
        lemma_concat_index(r, tail, e, i + 1);
        assert(r[i + 1] == tail[i]);
        if i > 0 {
            lemma_concat_index(r, tail, e, i);
            assert(r[i] == tail[i - 1]);
            let m = i - 1;
            assert(tail[m + 1].cycle as int == tail[m].cycle as int + (if tail[m].day is E {
                1int
            } else {
                0
            }));
        }
    }
}

/// Structural facts of every table `run` produces, by induction along the
/// walk: dates start at the cursor and strictly increase; the first row
/// carries the current cycle number; and each later row's cycle is its
/// predecessor's, plus one exactly when the predecessor's label closes the
/// rotation.
#[verifier::rlimit(50)]
proof fn lemma_run_table(
    om: Seq<(Date, Day)>,
    ho: Seq<HolidayRange>,
    go: Seq<Window>,
    lo: Seq<Window>,
    start: int,
    date: int,
    day: Day,
    cycle: int,
    days: int,
    hi: int,
    gi: int,
    li: int,
)
    requires
        0 <= start <= MAX_DAY,
        0 <= date,
        0 <= days,
        1 <= cycle,
        0 <= hi && 0 <= gi && 0 <= li,
        date + psi(start, date, days) <= DATE_CAP as int,
        cycle + (DATE_CAP as int) - date <= u64::MAX as int,
        all_holidays_wf(ho),
        all_windows_wf(go),
        all_windows_wf(lo),
    ensures
        ({
            let r = run(om, ho, go, lo, start, date, day, cycle, days, hi, gi, li);
            &&& forall|i: int| 0 <= i < r.len() ==> (#[trigger] r[i]).date@ >= date
            &&& forall|i: int, j: int| 0 <= i < j < r.len() ==> r[i].date@ < r[j].date@
            &&& r.len() > 0 ==> r[0].cycle as int == cycle
            &&& forall|i: int|
                0 <= i && i + 1 < r.len() ==> r[i + 1].cycle as int == r[i].cycle as int + (if r[i].day
                    is E {
                    1int
                } else {
                    0
                })
        }),
    decreases
            wrem(ho.len() as int, go.len() as int, lo.len() as int, hi, gi, li),
            psi(start, date, days),
{
    reveal_with_fuel(run, 1);
    lemma_psi_nonneg(start, date, days);
    let r = run(om, ho, go, lo, start, date, day, cycle, days, hi, gi, li);
    if days >= 65 && weekday_of(date) is Thu {
    } else {
        match om_lookup(om, date) {
            Some(l) => {
                lemma_psi_assign(start, date, days);
                let c2 = next_cycle(cycle, l);
                let tail = run(om, ho, go, lo, start, date + 1, l, c2, days + 1, hi, gi, li);
                lemma_run_table(om, ho, go, lo, start, date + 1, l, c2, days + 1, hi, gi, li);
                lemma_prepend_facts(r, tail, entry_at(date, l, cycle), date, cycle);
            },
            None => {
                if hi < ho.len() && ho[hi].start@ <= date && date <= ho[hi].end@ {
                    assert(ho[hi].wf());
                    lemma_psi_cap(start, ho[hi].end@ + 1, days);
                    lemma_run_table(
                        om,
                        ho,
                        go,
                        lo,
                        start,
                        ho[hi].end@ + 1,
                        day,
                        cycle,
                        days,
                        hi + 1,
                        gi,
                        li,
                    );
                } else if gi < go.len() && win_contains(go[gi], date) {
                    assert(go[gi].wf());
                    lemma_psi_cap(start, win_end_succ(go[gi]), days);
                    lemma_run_table(
                        om,
                        ho,
                        go,
                        lo,
                        start,
                        win_end_succ(go[gi]),
                        day,
                        cycle,
                        days,
                        hi,
                        gi + 1,
                        li,
                    );
                } else if gi < go.len() && win_open_reached(go[gi], date) {
                } else if li < lo.len() && win_contains(lo[li], date) {
                    assert(lo[li].wf());
                    lemma_psi_cap(start, win_end_succ(lo[li]), days);
                    lemma_run_table(
                        om,
                        ho,
                        go,
                        lo,
                        start,
                        win_end_succ(lo[li]),
                        day,
                        cycle,
                        days,
                        hi,
                        gi,
                        li + 1,
                    );
                } else if li < lo.len() && win_open_reached(lo[li], date) {
                } else if weekday_of(date) is Thu {
                    lemma_psi_thu(start, date, days);
                    lemma_run_table(om, ho, go, lo, start, date + 2, day, cycle, days, hi, gi, li);
                } else if weekday_of(date) is Fri {
                    lemma_psi_fri(start, date, days);
                    lemma_run_table(om, ho, go, lo, start, date + 1, day, cycle, days, hi, gi, li);
                } else if date >= start {
                    lemma_psi_assign(start, date, days);
                    let l = day.spec_next();
                    let c2 = next_cycle(cycle, l);
                    let tail = run(om, ho, go, lo, start, date + 1, l, c2, days + 1, hi, gi, li);
                    lemma_run_table(om, ho, go, lo, start, date + 1, l, c2, days + 1, hi, gi, li);
                    lemma_prepend_facts(r, tail, entry_at(date, l, cycle), date, cycle);
                } else {
                    lemma_psi_noassign(start, date, days);
                    lemma_run_table(om, ho, go, lo, start, date + 1, day, cycle, days, hi, gi, li);
                }
            },
        }
    }
}

/// All holiday ranges of a list are well-formed.
pub open spec fn all_holidays_wf(hs: Seq<HolidayRange>) -> bool {
    forall|k: int| 0 <= k < hs.len() ==> (#[trigger] hs[k]).wf()
}

/// All windows of a list are well-formed.
pub open spec fn all_windows_wf(ws: Seq<Window>) -> bool {
    forall|k: int| 0 <= k < ws.len() ==> (#[trigger] ws[k]).wf()
}

/// All notices of a list are well-formed.
pub open spec fn all_notices_wf(ns: Seq<Notice>) -> bool {
    forall|k: int| 0 <= k < ns.len() ==> (#[trigger] ns[k]).wf()
}

proof fn lemma_filtered_holidays_wf(hs: Seq<HolidayRange>, fc: int, i: int)
    requires
        all_holidays_wf(hs),
    ensures
        all_holidays_wf(filtered_holidays(hs, fc, i)),
    decreases hs.len() - i,
{
    let f = filtered_holidays(hs, fc, i);
    if 0 <= i < hs.len() {
        lemma_filtered_holidays_wf(hs, fc, i + 1);
        let rest = filtered_holidays(hs, fc, i + 1);
        if fc < hs[i].start@ {
            assert(f == seq![hs[i]] + rest);
            assert forall|k: int| 0 <= k < f.len() implies (#[trigger] f[k]).wf() by {
                if k == 0 {
                    assert(f[k] == hs[i]);
                } else {
                    assert(f[k] == rest[k - 1]);
                }
            }
        }
    }
}

proof fn lemma_filtered_windows_wf(ns: Seq<Notice>, fc: int, local: bool, i: int)
    requires
        all_notices_wf(ns),
    ensures
        all_windows_wf(filtered_windows(ns, fc, local, i)),
    decreases ns.len() - i,
{
    let f = filtered_windows(ns, fc, local, i);
    if 0 <= i < ns.len() {
        lemma_filtered_windows_wf(ns, fc, local, i + 1);
        let rest = filtered_windows(ns, fc, local, i + 1);
        assert(ns[i].wf());
        match notice_window(ns[i], local) {
            Some(w) => {
                if fc < ns[i].date_of() {
                    assert(w.wf());
                    assert(f == seq![w] + rest);
                    assert forall|k: int| 0 <= k < f.len() implies (#[trigger] f[k]).wf() by {
                        if k == 0 {
                            assert(f[k] == w);
                        } else {
                            assert(f[k] == rest[k - 1]);
                        }
                    }
                }
            },
            None => {},
        }
    }
}

/// Law: the expanded table's dates are strictly increasing, so no date is
/// recorded twice.
#[verifier::rlimit(50)]
pub proof fn lemma_expansion_dates_strictly_increase(
    om: Seq<(Date, Day)>,
    ho: Seq<HolidayRange>,
    go: Seq<Notice>,
    lo: Seq<Notice>,
    start: int,
)
    requires
        0 <= start <= MAX_DAY,
        all_holidays_wf(ho),
        all_notices_wf(go),
        all_notices_wf(lo),
    ensures
        expand_spec(om, ho, go, lo, start) matches Some(t) ==> forall|i: int, j: int|
            0 <= i < j < t.len() ==> t[i].date@ < t[j].date@,
{
    lemma_baseline_at_most(om, start);
    match baseline_of(om, start) {
        None => {},
        Some(b) => {
            let fc = b.0@ + 1;
            lemma_filtered_holidays_wf(ho, fc, 0);
            lemma_filtered_windows_wf(go, fc, false, 0);
            lemma_filtered_windows_wf(lo, fc, true, 0);
            lemma_psi_cap(start, fc, 0);
            lemma_run_table(
                om,
                filtered_holidays(ho, fc, 0),
                filtered_windows(go, fc, false, 0),
                filtered_windows(lo, fc, true, 0),
                start,
                fc,
                b.1,
                1,
                0,
                0,
                0,
                0,
            );
        },
    }
}

/// Law: cycle numbers never sink along the table; a row's cycle is its
/// predecessor's plus one exactly when the predecessor's label closes the
/// rotation, and the table opens with cycle one.
#[verifier::rlimit(50)]
pub proof fn lemma_expansion_cycles_step(
    om: Seq<(Date, Day)>,
    ho: Seq<HolidayRange>,
    go: Seq<Notice>,
    lo: Seq<Notice>,
    start: int,
)
    requires
        0 <= start <= MAX_DAY,
        all_holidays_wf(ho),
        all_notices_wf(go),
        all_notices_wf(lo),
    ensures
        expand_spec(om, ho, go, lo, start) matches Some(t) ==> {
            &&& t.len() > 0 ==> t[0].cycle as int == 1
            &&& forall|i: int|
                0 <= i && i + 1 < t.len() ==> t[i + 1].cycle as int == t[i].cycle as int + (if t[i].day
                    is E {
                    1int
                } else {
                    0
                })
            &&& forall|i: int, j: int| 0 <= i < j < t.len() ==> t[i].cycle <= t[j].cycle
        },
{
    lemma_baseline_at_most(om, start);
    match baseline_of(om, start) {
        None => {},
        Some(b) => {
            let fc = b.0@ + 1;
            lemma_filtered_holidays_wf(ho, fc, 0);
            lemma_filtered_windows_wf(go, fc, false, 0);
            lemma_filtered_windows_wf(lo, fc, true, 0);
            lemma_psi_cap(start, fc, 0);
            lemma_run_table(
                om,
                filtered_holidays(ho, fc, 0),
                filtered_windows(go, fc, false, 0),
                filtered_windows(lo, fc, true, 0),
                start,
                fc,
                b.1,
                1,
                0,
                0,
                0,
                0,
            );
            let t = expand_spec(om, ho, go, lo, start)->Some_0;
            assert forall|i: int, j: int| 0 <= i < j < t.len() implies t[i].cycle
                <= t[j].cycle by {
                lemma_cycle_chain(t, i, j);
            }
        },
    }
}

proof fn lemma_cycle_chain(t: Seq<ScheduleEntry>, i: int, j: int)
    requires
        0 <= i <= j < t.len(),
        forall|m: int|
            0 <= m && m + 1 < t.len() ==> t[m + 1].cycle as int == t[m].cycle as int + (if t[m].day
                is E {
                1int
            } else {
                0
            }),
    ensures
        t[i].cycle <= t[j].cycle,
    decreases j - i,
{
    if i < j {
        assert(t[i + 1].cycle as int == t[i].cycle as int + (if t[i].day is E {
            1int
        } else {
            0
        }));
        lemma_cycle_chain(t, i + 1, j);
    }
}

proof fn lemma_run_rows(
    om: Seq<(Date, Day)>,
    ho: Seq<HolidayRange>,
    go: Seq<Window>,
    lo: Seq<Window>,
    start: int,
    date: int,
    day: Day,
    cycle: int,
    days: int,
    hi: int,
    gi: int,
    li: int,
)
    requires
        0 <= start <= MAX_DAY,
        0 <= date,
        0 <= days,
        1 <= cycle,
        0 <= hi && 0 <= gi && 0 <= li,
        date + psi(start, date, days) <= DATE_CAP as int,
        cycle + (DATE_CAP as int) - date <= u64::MAX as int,
        all_holidays_wf(ho),
        all_windows_wf(go),
        all_windows_wf(lo),
    ensures
        ({
            let r = run(om, ho, go, lo, start, date, day, cycle, days, hi, gi, li);
            forall|i: int|
                0 <= i < r.len() ==> om_lookup(om, (#[trigger] r[i]).date@) == Some(r[i].day) || (
                r[i].date@ >= start && !(weekday_of(r[i].date@) is Thu) && !(weekday_of(r[i].date@)
                    is Fri))
        }),
    decreases
            wrem(ho.len() as int, go.len() as int, lo.len() as int, hi, gi, li),
            psi(start, date, days),
{
    reveal_with_fuel(run, 1);
    lemma_psi_nonneg(start, date, days);
    let r = run(om, ho, go, lo, start, date, day, cycle, days, hi, gi, li);
    if days >= 65 && weekday_of(date) is Thu {
    } else {
        match om_lookup(om, date) {
            Some(l) => {
                lemma_psi_assign(start, date, days);
                let c2 = next_cycle(cycle, l);
                let tail = run(om, ho, go, lo, start, date + 1, l, c2, days + 1, hi, gi, li);
                lemma_run_rows(om, ho, go, lo, start, date + 1, l, c2, days + 1, hi, gi, li);
                let e = entry_at(date, l, cycle);
                assert(r == seq![e] + tail);
                assert(om_lookup(om, e.date@) == Some(e.day));
                assert forall|i: int|
                    0 <= i < r.len() implies om_lookup(om, (#[trigger] r[i]).date@) == Some(
                    r[i].day,
                ) || (r[i].date@ >= start && !(weekday_of(r[i].date@) is Thu) && !(weekday_of(
                    r[i].date@,
                ) is Fri)) by {
                    if i > 0 {
                        lemma_concat_index(r, tail, e, i);
                        assert(r[i] == tail[i - 1]);
                    }
                }
            },
            None => {
                if hi < ho.len() && ho[hi].start@ <= date && date <= ho[hi].end@ {
                    assert(ho[hi].wf());
                    lemma_psi_cap(start, ho[hi].end@ + 1, days);
                    lemma_run_rows(
                        om,
                        ho,
                        go,
                        lo,
                        start,
                        ho[hi].end@ + 1,
                        day,
                        cycle,
                        days,
                        hi + 1,
                        gi,
                        li,
                    );
                } else if gi < go.len() && win_contains(go[gi], date) {
                    assert(go[gi].wf());
                    lemma_psi_cap(start, win_end_succ(go[gi]), days);
                    lemma_run_rows(
                        om,
                        ho,
                        go,
                        lo,
                        start,
                        win_end_succ(go[gi]),
                        day,
                        cycle,
                        days,
                        hi,
                        gi + 1,
                        li,
                    );
                } else if gi < go.len() && win_open_reached(go[gi], date) {
                } else if li < lo.len() && win_contains(lo[li], date) {
                    assert(lo[li].wf());
                    lemma_psi_cap(start, win_end_succ(lo[li]), days);
                    lemma_run_rows(
                        om,
                        ho,
                        go,
                        lo,
                        start,
                        win_end_succ(lo[li]),
                        day,
                        cycle,
                        days,
                        hi,
                        gi,
                        li + 1,
                    );
                } else if li < lo.len() && win_open_reached(lo[li], date) {
                } else if weekday_of(date) is Thu {
                    lemma_psi_thu(start, date, days);
                    lemma_run_rows(om, ho, go, lo, start, date + 2, day, cycle, days, hi, gi, li);
                } else if weekday_of(date) is Fri {
                    lemma_psi_fri(start, date, days);
                    lemma_run_rows(om, ho, go, lo, start, date + 1, day, cycle, days, hi, gi, li);
                } else if date >= start {
                    lemma_psi_assign(start, date, days);
                    let l = day.spec_next();
                    let c2 = next_cycle(cycle, l);
                    let tail = run(om, ho, go, lo, start, date + 1, l, c2, days + 1, hi, gi, li);
                    lemma_run_rows(om, ho, go, lo, start, date + 1, l, c2, days + 1, hi, gi, li);
                    let e = entry_at(date, l, cycle);
                    assert(r == seq![e] + tail);
                    assert(e.date@ >= start && !(weekday_of(e.date@) is Thu) && !(weekday_of(
                        e.date@,
                    ) is Fri));
                    assert forall|i: int|
                        0 <= i < r.len() implies om_lookup(om, (#[trigger] r[i]).date@) == Some(
                        r[i].day,
                    ) || (r[i].date@ >= start && !(weekday_of(r[i].date@) is Thu) && !(weekday_of(
                        r[i].date@,
                    ) is Fri)) by {
                        if i > 0 {
                            lemma_concat_index(r, tail, e, i);
                            assert(r[i] == tail[i - 1]);
                        }
                    }
                } else {
                    lemma_psi_noassign(start, date, days);
                    lemma_run_rows(om, ho, go, lo, start, date + 1, day, cycle, days, hi, gi, li);
                }
            },
        }
    }
}

/// Law: every row of the table is either an explicit override row carrying
/// that override's label, or an ordinary school day: a non-weekend day at
/// or after the semester start. In particular a date inside a closure
/// window can only appear as an override row.
#[verifier::rlimit(50)]
pub proof fn lemma_expansion_rows_override_or_school_day(
    om: Seq<(Date, Day)>,
    ho: Seq<HolidayRange>,
    go: Seq<Notice>,
    lo: Seq<Notice>,
    start: int,
)
    requires
        0 <= start <= MAX_DAY,
        all_holidays_wf(ho),
        all_notices_wf(go),
        all_notices_wf(lo),
    ensures
        expand_spec(om, ho, go, lo, start) matches Some(t) ==> forall|i: int|
            0 <= i < t.len() ==> om_lookup(om, (#[trigger] t[i]).date@) == Some(t[i].day) || (
            t[i].date@ >= start && !(weekday_of(t[i].date@) is Thu) && !(weekday_of(t[i].date@)
                is Fri)),
{
    lemma_baseline_at_most(om, start);
    match baseline_of(om, start) {
        None => {},
        Some(b) => {
            let fc = b.0@ + 1;
            lemma_filtered_holidays_wf(ho, fc, 0);
            lemma_filtered_windows_wf(go, fc, false, 0);
            lemma_filtered_windows_wf(lo, fc, true, 0);
            lemma_psi_cap(start, fc, 0);
            lemma_run_rows(
                om,
                filtered_holidays(ho, fc, 0),
                filtered_windows(go, fc, false, 0),
                filtered_windows(lo, fc, true, 0),
                start,
                fc,
                b.1,
                1,
                0,
                0,
                0,
                0,
            );
        },
    }
}

/// Law: expansion is a pure function of its inputs; expanding the same
/// inputs twice yields the identical table.
pub proof fn lemma_expansion_idempotent(
    om: Seq<(Date, Day)>,
    ho: Seq<HolidayRange>,
    go: Seq<Notice>,
    lo: Seq<Notice>,
    start: int,
    r1: Option<Seq<ScheduleEntry>>,
    r2: Option<Seq<ScheduleEntry>>,
)
    requires
        r1 == expand_spec(om, ho, go, lo, start),
        r2 == expand_spec(om, ho, go, lo, start),
    ensures
        r1 == r2,
{
}

/// Law: in a local list, a generic notice carrying the reserved break
/// message induces exactly the window of an explicit full-day cancellation
/// closed four days after its date.
pub proof fn lemma_break_notice_window(d: Date, m: String)
    requires
        m@ == break_message(),
        d.days + 4 <= u64::MAX,
    ensures
        notice_window(Notice::Others { date: d, message: m }, true) == notice_window(
            Notice::ClassOff {
                day_off: true,
                date: d,
                extent: ClosureExtent::Until(Date { days: (d.days + 4) as u64 }),
            },
            true,
        ),
{
}

} // verus!
