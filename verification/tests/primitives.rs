//! Tests of the time, day, weekly-grid and catalog primitives.

use schedual::{day_to_idx, Day, Days, Schedule, Session, Time, TimeError, TimeSeries};

fn never() -> Days {
    Days::never()
}

fn mon() -> Days {
    let mut d = never();
    d.monday = true;
    d
}

fn mon_wed_fri() -> Days {
    Days::mwf()
}

fn session(start: Option<Time>, end: Option<Time>, days: Days) -> Session {
    Session {
        start_time: start,
        end_time: end,
        start_date: String::new(),
        end_date: String::new(),
        days,
        building_code: None,
        building_name: None,
        room: None,
        meeting_type: String::new(),
    }
}

#[test]
fn parse_packed_time() {
    assert_eq!(Time::from_str("0930"), Ok(Time::new(9, 30)));
    assert_eq!(Time::from_str("0000"), Ok(Time::new(0, 0)));
    assert_eq!(Time::from_str("2359"), Ok(Time::new(23, 59)));
}

#[test]
fn parse_colon_time() {
    assert_eq!(Time::from_str("09:30"), Ok(Time::new(9, 30)));
    assert_eq!(Time::from_str("23:59"), Ok(Time::new(23, 59)));
}

#[test]
fn parse_time_errors() {
    assert_eq!(Time::from_str("123"), Err(TimeError::BadLength));
    assert_eq!(Time::from_str("12345"), Err(TimeError::BadLength));
    assert_eq!(Time::from_str(""), Err(TimeError::BadLength));
    assert_eq!(Time::from_str("ab30"), Err(TimeError::BadHour));
    assert_eq!(Time::from_str("5:30"), Err(TimeError::BadHour));
    assert_eq!(Time::from_str("12a0"), Err(TimeError::BadMinute));
    assert_eq!(Time::from_str("2400"), Err(TimeError::HourOutOfRange));
    assert_eq!(Time::from_str("1260"), Err(TimeError::MinuteOutOfRange));
}

#[test]
fn time_order_and_minutes() {
    assert!(Time::new(9, 0) < Time::new(10, 0));
    assert!(Time::new(9, 59) < Time::new(10, 0));
    assert!(Time::new(9, 30).lt(&Time::new(9, 45)));
    assert!(Time::new(9, 30).le(&Time::new(9, 30)));
    assert!(!Time::new(9, 30).lt(&Time::new(9, 30)));
    assert_eq!(Time::new(9, 30).minutes(), 570);
    assert_eq!(Time::new(0, 0).minutes(), 0);
    assert_eq!(Time::new(23, 59).minutes(), 1439);
}

#[test]
fn day_sets() {
    let everyday = Days::everyday();
    let weekdays = Days::weekdays();
    let weekend = weekdays.complement();
    assert!(weekend.saturday && weekend.sunday && !weekend.monday);
    assert_eq!(weekdays.union(&weekend), everyday);
    assert_eq!(weekdays.intersect(&weekend), Days::never());
    assert!(Days::mwf().intersects(&Days::ttf()));
    assert!(!mon().intersects(&Days::never()));
    assert!(mon().intersects(&Days::everyday()));
}

#[test]
fn day_iteration() {
    let days = Days::mwf().iter();
    assert_eq!(days, vec![Day::Monday, Day::Wednesday, Day::Friday]);
    assert_eq!(Days::never().iter().len(), 0);
    assert_eq!(Days::everyday().iter().len(), 7);
    assert_eq!(Days::everyday().iter()[0], Day::Sunday);
}

#[test]
fn day_indices() {
    assert_eq!(day_to_idx(Day::Sunday), 0);
    assert_eq!(day_to_idx(Day::Monday), 1);
    assert_eq!(day_to_idx(Day::Saturday), 6);
}

#[test]
fn generate_places_intervals() {
    let s = Schedule::generate(&vec![
        (mon_wed_fri(), Time::new(9, 0), Time::new(9, 50)),
        (mon(), Time::new(13, 0), Time::new(14, 15)),
    ]);
    assert_eq!(s.day(0), &Vec::<(u16, u16)>::new());
    assert_eq!(s.day(1), &vec![(540, 50), (780, 75)]);
    assert_eq!(s.day(2), &Vec::<(u16, u16)>::new());
    assert_eq!(s.day(4), &Vec::<(u16, u16)>::new());
    assert_eq!(s.day(5), &vec![(540, 50)]);
}

#[test]
fn overlap_detects_contained_start() {
    let a = Schedule::generate(&vec![(mon(), Time::new(9, 0), Time::new(10, 0))]);
    let b = Schedule::generate(&vec![(mon(), Time::new(9, 30), Time::new(10, 30))]);
    assert!(a.overlaps(&vec![b.duplicate()]));
    assert!(b.overlaps(&vec![a.duplicate()]));
}

#[test]
fn back_to_back_does_not_overlap() {
    let a = Schedule::generate(&vec![(mon(), Time::new(9, 0), Time::new(10, 0))]);
    let b = Schedule::generate(&vec![(mon(), Time::new(10, 0), Time::new(11, 0))]);
    assert!(!a.overlaps(&vec![b.duplicate()]));
    assert!(!b.overlaps(&vec![a.duplicate()]));
}

#[test]
fn different_days_do_not_overlap() {
    let a = Schedule::generate(&vec![(mon(), Time::new(9, 0), Time::new(10, 0))]);
    let mut tue = never();
    tue.tuesday = true;
    let b = Schedule::generate(&vec![(tue, Time::new(9, 0), Time::new(10, 0))]);
    assert!(!a.overlaps(&vec![b.duplicate()]));
    assert!(!b.overlaps(&vec![a.duplicate()]));
}

#[test]
fn overlap_symmetry_on_samples() {
    let samples = vec![
        Schedule::generate(&vec![(mon(), Time::new(9, 0), Time::new(10, 0))]),
        Schedule::generate(&vec![(mon(), Time::new(9, 30), Time::new(10, 30))]),
        Schedule::generate(&vec![(mon_wed_fri(), Time::new(8, 0), Time::new(9, 0))]),
        Schedule::generate(&vec![(Days::everyday(), Time::new(0, 0), Time::new(23, 59))]),
        Schedule::default(),
    ];
    for a in &samples {
        for b in &samples {
            assert_eq!(
                a.overlaps(&vec![b.duplicate()]),
                b.overlaps(&vec![a.duplicate()]),
            );
        }
    }
}

#[test]
fn untimed_meetings_make_empty_grid() {
    let meetings = vec![
        session(None, None, mon_wed_fri()),
        session(None, None, Days::everyday()),
    ];
    let s = Schedule::from_meetings(&meetings);
    for d in 0..7 {
        assert!(s.day(d).is_empty());
    }
    let busy = Schedule::generate(&vec![(Days::everyday(), Time::new(0, 0), Time::new(23, 59))]);
    assert!(!s.overlaps(&vec![busy.duplicate()]));
    assert!(!busy.overlaps(&vec![s.duplicate()]));
}

#[test]
fn from_meetings_skips_only_untimed() {
    let meetings = vec![
        session(None, None, mon()),
        session(Some(Time::new(9, 0)), Some(Time::new(9, 50)), mon()),
    ];
    let s = Schedule::from_meetings(&meetings);
    assert_eq!(s.day(1), &vec![(540, 50)]);
}

#[test]
fn flatten_and_sort_merge_a_week() {
    let a = Schedule::generate(&vec![(mon(), Time::new(13, 0), Time::new(14, 0))]);
    let b = Schedule::generate(&vec![(mon(), Time::new(9, 0), Time::new(10, 0))]);
    let mut week = Schedule::flatten(&vec![a, b]);
    assert_eq!(week.day(1), &vec![(780, 60), (540, 60)]);
    week.sort();
    assert_eq!(week.day(1), &vec![(540, 60), (780, 60)]);
    assert!(week.is_separated());
}

#[test]
fn separation_check_rejects_overlap() {
    let a = Schedule::generate(&vec![(mon(), Time::new(9, 0), Time::new(10, 0))]);
    let b = Schedule::generate(&vec![(mon(), Time::new(9, 30), Time::new(10, 30))]);
    let mut week = Schedule::flatten(&vec![a, b]);
    week.sort();
    assert!(!week.is_separated());
}

#[test]
fn same_pattern_compares_grids() {
    let a = Schedule::generate(&vec![(mon(), Time::new(9, 0), Time::new(10, 0))]);
    let b = Schedule::generate(&vec![(mon(), Time::new(9, 0), Time::new(10, 0))]);
    let c = Schedule::generate(&vec![(mon(), Time::new(9, 0), Time::new(10, 30))]);
    assert!(a.same_pattern(&b));
    assert!(!a.same_pattern(&c));
}

#[test]
fn time_series_subtraction_splits() {
    let free = TimeSeries::new(Time::new(0, 0), Time::new(23, 59));
    let after = free.sub(Time::new(9, 0), Time::new(10, 0));
    assert_eq!(
        after.ranges,
        vec![
            (Time::new(0, 0), Time::new(9, 0)),
            (Time::new(10, 0), Time::new(23, 59)),
        ]
    );
}

#[test]
fn time_series_subtraction_trims_edges() {
    let free = TimeSeries::new(Time::new(8, 0), Time::new(17, 0));
    let trimmed = free.sub(Time::new(7, 0), Time::new(9, 0));
    assert_eq!(trimmed.ranges, vec![(Time::new(9, 0), Time::new(17, 0))]);
    let trimmed = free.sub(Time::new(16, 0), Time::new(18, 0));
    assert_eq!(trimmed.ranges, vec![(Time::new(8, 0), Time::new(16, 0))]);
    let untouched = free.sub(Time::new(18, 0), Time::new(19, 0));
    assert_eq!(untouched.ranges, vec![(Time::new(8, 0), Time::new(17, 0))]);
}
