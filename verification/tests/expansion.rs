// Day numbers count days since 1970-01-01 (a Thursday):
//   19728 = 2024-01-06 (Sat), 19729 = 2024-01-07 (Sun),
//   19730 = Mon, 19731 = Tue, 19732 = Wed, 19733 = 2024-01-11 (Thu),
//   19734 = Fri, 19735 = 2024-01-13 (Sat), 19736 = Sun.

use class_days::calendar::{
    ClosureExtent, Date, Day, DayOverrideMap, HolidayRange, Notice, Weekday,
};
use class_days::engine::{expand, ExpandError};

fn d(days: u64) -> Date {
    Date { days }
}

fn overrides_with(entries: Vec<(u64, Day)>) -> DayOverrideMap {
    DayOverrideMap { entries: entries.into_iter().map(|(n, l)| (d(n), l)).collect() }
}

#[test]
fn weekday_of_known_dates() {
    assert_eq!(d(0).weekday(), Weekday::Thu); // 1970-01-01
    assert_eq!(d(19733).weekday(), Weekday::Thu); // 2024-01-11
    assert_eq!(d(19729).weekday(), Weekday::Sun); // 2024-01-07
    assert_eq!(d(19735).weekday(), Weekday::Sat); // 2024-01-13
}

#[test]
fn rotation_advances_and_wraps() {
    assert_eq!(Day::A.advance(), (Day::B, false));
    assert_eq!(Day::D.advance(), (Day::E, false));
    assert_eq!(Day::E.advance(), (Day::A, true));
}

#[test]
fn no_baseline_override_is_an_error() {
    let om = overrides_with(vec![]);
    let r = expand(&om, &vec![], &vec![], &None, d(19729));
    assert_eq!(r, Err(ExpandError::NoBaselineOverride));

    // An override strictly after the start date does not seed either.
    let om = overrides_with(vec![(19740, Day::A)]);
    let r = expand(&om, &vec![], &vec![], &None, d(19729));
    assert_eq!(r, Err(ExpandError::NoBaselineOverride));
}

#[test]
fn plain_expansion_from_sunday_start() {
    // Override 2024-01-06 -> B, start 2024-01-07; weekend is Thu/Fri.
    let om = overrides_with(vec![(19728, Day::B)]);
    let t = expand(&om, &vec![], &vec![], &None, d(19729)).unwrap();

    // 2024-01-07 gets the label after B with cycle 1.
    assert_eq!(t[0].date, d(19729));
    assert_eq!(t[0].day, Day::C);
    assert_eq!(t[0].cycle, 1);
    // Mon, Tue, Wed continue the rotation; the cycle steps after E.
    assert_eq!((t[1].date, t[1].day, t[1].cycle), (d(19730), Day::D, 1));
    assert_eq!((t[2].date, t[2].day, t[2].cycle), (d(19731), Day::E, 1));
    assert_eq!((t[3].date, t[3].day, t[3].cycle), (d(19732), Day::A, 2));
    // 2024-01-11 (Thu) and 01-12 (Fri) are skipped; 01-13 resumes.
    assert_eq!((t[4].date, t[4].day, t[4].cycle), (d(19735), Day::B, 2));

    // 4 days in the opening week, then 5 per week; the walk runs past the
    // 65-day threshold to the next Thursday, ending after a Wednesday.
    assert_eq!(t.len(), 69);
    assert_eq!(t.last().unwrap().date.weekday(), Weekday::Wed);

    // Dates strictly increase and no date is a weekend day.
    for w in t.windows(2) {
        assert!(w[0].date.days < w[1].date.days);
    }
    for e in &t {
        assert_ne!(e.date.weekday(), Weekday::Thu);
        assert_ne!(e.date.weekday(), Weekday::Fri);
    }
    // Cycle numbers never sink and step by one exactly after an E row.
    for w in t.windows(2) {
        let bump = if w[0].day == Day::E { 1 } else { 0 };
        assert_eq!(w[1].cycle, w[0].cycle + bump);
    }
}

#[test]
fn expansion_is_a_pure_function() {
    let om = overrides_with(vec![(19728, Day::B)]);
    let hs = vec![HolidayRange { start: d(19731), end: d(19732) }];
    let a = expand(&om, &hs, &vec![], &None, d(19729)).unwrap();
    let b = expand(&om, &hs, &vec![], &None, d(19729)).unwrap();
    assert_eq!(a, b);
}

#[test]
fn holiday_window_is_skipped_and_override_inside_it_wins() {
    // Holiday Mon..Wed; an override on its first day is still recorded,
    // the remaining holiday days are not.
    let om = overrides_with(vec![(19728, Day::B), (19730, Day::E)]);
    let hs = vec![HolidayRange { start: d(19730), end: d(19732) }];
    let t = expand(&om, &hs, &vec![], &None, d(19729)).unwrap();

    assert_eq!((t[0].date, t[0].day, t[0].cycle), (d(19729), Day::C, 1));
    // The override row keeps its explicit label, and the cycle steps after
    // it because E closes the rotation.
    assert_eq!((t[1].date, t[1].day, t[1].cycle), (d(19730), Day::E, 1));
    // 19731 and 19732 fall inside the holiday and are absent.
    assert!(t.iter().all(|e| e.date != d(19731) && e.date != d(19732)));
    // The walk resumes after the window and the weekend with the label
    // after E.
    assert_eq!((t[2].date, t[2].day, t[2].cycle), (d(19735), Day::A, 2));
}

#[test]
fn open_ended_global_closure_truncates_without_error() {
    let om = overrides_with(vec![(19728, Day::B)]);
    let gn = vec![Notice::ClassOff {
        day_off: true,
        date: d(19731),
        extent: ClosureExtent::OpenEnded,
    }];
    let t = expand(&om, &vec![], &gn, &None, d(19729)).unwrap();
    // Sunday and Monday are recorded, then the open-ended closure stops
    // everything: strictly shorter than the unbounded 69-row table.
    assert_eq!(t.len(), 2);
    assert_eq!((t[0].date, t[0].day), (d(19729), Day::C));
    assert_eq!((t[1].date, t[1].day), (d(19730), Day::D));
    assert!(t.len() < 69);
}

#[test]
fn break_message_notice_equals_explicit_five_day_closure() {
    let om = overrides_with(vec![(19728, Day::B)]);
    let with_break = vec![Notice::Others {
        date: d(19731),
        message: String::from("Mid-semester break"),
    }];
    let with_window = vec![Notice::ClassOff {
        day_off: true,
        date: d(19731),
        extent: ClosureExtent::Until(d(19735)),
    }];
    let a = expand(&om, &vec![], &vec![], &Some(with_break), d(19729)).unwrap();
    let b = expand(&om, &vec![], &vec![], &Some(with_window), d(19729)).unwrap();
    assert_eq!(a, b);
    // The five days 19731..=19735 are all absent.
    for n in 19731..=19735u64 {
        assert!(a.iter().all(|e| e.date != d(n)));
    }
    // A generic message in the global list is not a closure: a global
    // notice list with the break text changes nothing.
    let gn = vec![Notice::Others { date: d(19731), message: String::from("Mid-semester break") }];
    let c = expand(&om, &vec![], &gn, &None, d(19729)).unwrap();
    let plain = expand(&om, &vec![], &vec![], &None, d(19729)).unwrap();
    assert_eq!(c, plain);
}

#[test]
fn pre_start_days_are_silent_and_do_not_advance_rotation() {
    // Baseline a few days early: ordinary days between the baseline and
    // the start are walked without recording and without advancing the
    // rotation, so the first recorded day continues directly from the
    // baseline label.
    let om = overrides_with(vec![(19725, Day::D)]);
    let t = expand(&om, &vec![], &vec![], &None, d(19729)).unwrap();
    // 19726 is a Thursday (weekend skip) and 19728 (Sat) is before the
    // start and silent; the start 2024-01-07 continues from D.
    assert_eq!((t[0].date, t[0].day, t[0].cycle), (d(19729), Day::E, 1));
    assert_eq!((t[1].date, t[1].day, t[1].cycle), (d(19730), Day::A, 2));
    assert_eq!((t[2].date, t[2].day, t[2].cycle), (d(19731), Day::B, 2));
}
