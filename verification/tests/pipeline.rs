//! Tests of the catalog, the pipeline stages, the enumerator and the scorer.

use schedual::score::{score, Breakdown};
use schedual::solver::{
    bruteforce_schedules, filter_classes, find_alts, include_classes, map_classes, solve,
    unmap_classes, validate_classes, Constraint, Include, KeepAll,
};
use schedual::{
    Class, ClassBank, CreditHours, Days, Enrollment, Schedule, Session, SmallClass, Time,
};

fn never() -> Days {
    Days::never()
}

fn mon() -> Days {
    let mut d = never();
    d.monday = true;
    d
}

fn fri() -> Days {
    let mut d = never();
    d.friday = true;
    d
}

fn session(start: Option<Time>, end: Option<Time>, days: Days) -> Session {
    Session {
        start_time: start,
        end_time: end,
        start_date: String::new(),
        end_date: String::new(),
        days,
        building_code: None,
        building_name: None,
        room: None,
        meeting_type: String::new(),
    }
}

fn timed(start: (u8, u8), end: (u8, u8), days: Days) -> Session {
    session(
        Some(Time::new(start.0, start.1)),
        Some(Time::new(end.0, end.1)),
        days,
    )
}

fn class(crn: u64, campus: &str, subject: &str, meetings: Vec<Session>) -> Class {
    let schedule = Schedule::from_meetings(&meetings);
    Class {
        campus: campus.to_string(),
        crn,
        course_number: String::new(),
        name: String::new(),
        credit_hours: CreditHours {
            credit_hour_high: None,
            credit_hour_low: None,
            credit_hours: Some(3),
        },
        cross_list: None,
        enrollment: Enrollment { count: 0, capacity: 30, available: 30 },
        wait_list: Enrollment { count: 0, capacity: 0, available: 0 },
        faculty: Vec::new(),
        instructional_method: String::new(),
        meetings,
        open: true,
        part_of_term: String::new(),
        schedule_type: String::new(),
        sequence_number: String::new(),
        special_approval: None,
        subject_course: subject.to_string(),
        subject_description: String::new(),
        term: String::new(),
        schedule,
    }
}

fn bank_of(classes: Vec<Class>) -> ClassBank {
    let mut bank = ClassBank::new();
    for c in classes {
        bank.insert(c);
    }
    bank
}

fn course(subject: &str) -> Include {
    Include::Course { subject: subject.to_string(), course_type: None }
}

fn crns(solution: &Vec<SmallClass>) -> Vec<u64> {
    solution.iter().map(|sc| sc.crn).collect()
}

#[test]
fn bank_keeps_keys_sorted_and_unique() {
    let bank = bank_of(vec![
        class(30, "Main", "A", vec![]),
        class(10, "Main", "B", vec![]),
        class(20, "Main", "C", vec![]),
        class(10, "Main", "D", vec![]),
    ]);
    assert_eq!(bank.len(), 3);
    let keys: Vec<u64> = bank.classes().iter().map(|c| c.crn).collect();
    assert_eq!(keys, vec![10, 20, 30]);
    assert_eq!(bank.get(10).unwrap().subject_course, "D");
    assert_eq!(bank.get(20).unwrap().subject_course, "C");
    assert!(bank.get(99).is_none());
}

#[test]
fn include_binds_to_first_matching_selector() {
    let bank = bank_of(vec![
        class(1, "Main", "MATH1", vec![]),
        class(2, "Main", "PHYS1", vec![]),
        class(3, "Main", "MATH1", vec![]),
    ]);
    let includes = vec![course("MATH1"), Include::All];
    let buckets = include_classes(&bank, &includes, &KeepAll);
    assert_eq!(buckets.len(), 2);
    assert_eq!(buckets[0], vec![1, 3]);
    assert_eq!(buckets[1], vec![2]);
}

#[test]
fn include_by_crn_and_unmatched_sections_drop() {
    let bank = bank_of(vec![
        class(1, "Main", "MATH1", vec![]),
        class(2, "Main", "PHYS1", vec![]),
    ]);
    let includes = vec![Include::Class { crn: 2 }];
    let buckets = include_classes(&bank, &includes, &KeepAll);
    assert_eq!(buckets, vec![vec![2]]);
}

#[test]
fn start_after_keeps_late_sections() {
    let bank = bank_of(vec![
        class(1, "Main", "A", vec![timed((9, 0), (9, 50), mon())]),
        class(2, "Main", "A", vec![timed((11, 0), (11, 50), mon())]),
    ]);
    let includes = vec![course("A")];
    let buckets = include_classes(&bank, &includes, &KeepAll);
    let constraints = vec![Constraint::StartAfter {
        time: Time::new(10, 0),
        days: Days::everyday(),
    }];
    let filtered = filter_classes(&bank, buckets, &constraints);
    assert_eq!(filtered, vec![vec![2]]);
}

#[test]
fn block_days_rejects_any_meeting_on_blocked_day() {
    let c = class(1, "Main", "A", vec![timed((9, 0), (9, 50), Days::mwf())]);
    let block_friday = Constraint::BlockDays { days: fri() };
    assert!(!block_friday.allows(&c));
    let all_meetings_clear = class(2, "Main", "A", vec![timed((9, 0), (9, 50), mon())]);
    assert!(block_friday.allows(&all_meetings_clear));
}

#[test]
fn end_before_and_campus_rules() {
    let c = class(1, "Boca", "A", vec![timed((9, 0), (17, 30), mon())]);
    assert!(!Constraint::EndBefore { time: Time::new(17, 0), days: Days::everyday() }.allows(&c));
    assert!(Constraint::EndBefore { time: Time::new(17, 30), days: Days::everyday() }.allows(&c));
    assert!(Constraint::Campus { name: "Boca".to_string() }.allows(&c));
    assert!(!Constraint::Campus { name: "Davie".to_string() }.allows(&c));
}

#[test]
fn block_times_checks_both_directions() {
    let blocked = Constraint::BlockTimes {
        start: Time::new(12, 0),
        end: Time::new(13, 0),
        days: Days::everyday(),
    };
    // meeting inside the blocked window
    assert!(!blocked.allows(&class(1, "Main", "A", vec![timed((12, 15), (12, 45), mon())])));
    // blocked window inside the meeting
    assert!(!blocked.allows(&class(2, "Main", "A", vec![timed((11, 0), (14, 0), mon())])));
    // clear of the window
    assert!(blocked.allows(&class(3, "Main", "A", vec![timed((13, 30), (14, 0), mon())])));
}

#[test]
fn time_rules_fail_meetings_without_times() {
    let c = class(1, "Main", "A", vec![session(None, None, mon())]);
    assert!(!Constraint::StartAfter { time: Time::new(8, 0), days: Days::everyday() }.allows(&c));
    assert!(!Constraint::EndBefore { time: Time::new(20, 0), days: Days::everyday() }.allows(&c));
    // but a day rule needs no time
    assert!(Constraint::BlockDays { days: fri() }.allows(&c));
}

#[test]
fn constraints_hold_of_every_filtered_candidate() {
    let bank = bank_of(vec![
        class(1, "Boca", "A", vec![timed((9, 0), (9, 50), mon())]),
        class(2, "Davie", "A", vec![timed((11, 0), (11, 50), mon())]),
        class(3, "Boca", "A", vec![timed((11, 0), (11, 50), Days::mwf())]),
        class(4, "Boca", "B", vec![timed((16, 0), (17, 50), mon())]),
    ]);
    let includes = vec![course("A"), course("B")];
    let constraints = vec![
        Constraint::StartAfter { time: Time::new(10, 0), days: Days::everyday() },
        Constraint::Campus { name: "Boca".to_string() },
    ];
    let buckets = include_classes(&bank, &includes, &KeepAll);
    let filtered = filter_classes(&bank, buckets, &constraints);
    for bucket in &filtered {
        for crn in bucket {
            let c = bank.get(*crn).unwrap();
            for con in &constraints {
                assert!(con.allows(c));
            }
        }
    }
    assert_eq!(filtered, vec![vec![3], vec![4]]);
}

#[test]
fn validation_drops_untimed_and_duplicate_sections() {
    let bank = bank_of(vec![
        class(1, "Main", "A", vec![timed((9, 0), (9, 50), mon())]),
        class(2, "Main", "A", vec![timed((9, 0), (9, 50), mon())]),
        class(3, "Main", "A", vec![session(None, None, mon())]),
        class(4, "Main", "A", vec![timed((10, 0), (10, 50), mon())]),
    ]);
    let includes = vec![course("A")];
    let buckets = include_classes(&bank, &includes, &KeepAll);
    let validated = validate_classes(&bank, buckets);
    // 2 duplicates 1's layout; 3 lacks times; both go, first of each layout stays.
    assert_eq!(validated, vec![vec![1, 4]]);
}

#[test]
fn enumerator_accepts_back_to_back_pair() {
    let bank = bank_of(vec![
        class(1, "Main", "A", vec![timed((9, 0), (10, 0), mon())]),
        class(2, "Main", "B", vec![timed((10, 0), (11, 0), mon())]),
    ]);
    let includes = vec![course("A"), course("B")];
    let buckets = include_classes(&bank, &includes, &KeepAll);
    let data = map_classes(&bank, &buckets);
    let solutions = bruteforce_schedules(&data);
    assert_eq!(solutions.len(), 1);
    assert_eq!(crns(&solutions[0]), vec![1, 2]);
}

#[test]
fn enumerator_rejects_overlapping_pair() {
    let bank = bank_of(vec![
        class(1, "Main", "A", vec![timed((9, 0), (10, 0), mon())]),
        class(2, "Main", "B", vec![timed((9, 30), (10, 30), mon())]),
    ]);
    let includes = vec![course("A"), course("B")];
    let buckets = include_classes(&bank, &includes, &KeepAll);
    let data = map_classes(&bank, &buckets);
    let solutions = bruteforce_schedules(&data);
    assert_eq!(solutions.len(), 0);
}

#[test]
fn enumerator_yields_one_solution_per_compatible_candidate() {
    let bank = bank_of(vec![
        class(1, "Main", "A", vec![timed((9, 0), (10, 0), mon())]),
        class(2, "Main", "A", vec![timed((10, 0), (11, 0), mon())]),
        class(3, "Main", "A", vec![timed((11, 0), (12, 0), mon())]),
        class(4, "Main", "B", vec![timed((14, 0), (15, 0), mon())]),
    ]);
    let includes = vec![course("A"), course("B")];
    let buckets = include_classes(&bank, &includes, &KeepAll);
    let data = map_classes(&bank, &buckets);
    let solutions = bruteforce_schedules(&data);
    assert_eq!(solutions.len(), 3);
    assert_eq!(crns(&solutions[0]), vec![1, 4]);
    assert_eq!(crns(&solutions[1]), vec![2, 4]);
    assert_eq!(crns(&solutions[2]), vec![3, 4]);
}

#[test]
fn enumerator_with_empty_bucket_or_no_buckets_yields_nothing() {
    let empty_group: Vec<Vec<SmallClass>> = vec![];
    assert_eq!(bruteforce_schedules(&empty_group).len(), 0);
    let bank = bank_of(vec![class(1, "Main", "A", vec![timed((9, 0), (10, 0), mon())])]);
    let includes = vec![course("A"), course("MISSING")];
    let buckets = include_classes(&bank, &includes, &KeepAll);
    let data = map_classes(&bank, &buckets);
    assert_eq!(bruteforce_schedules(&data).len(), 0);
}

#[test]
fn solutions_never_overlap_pairwise() {
    // three groups with a mix of compatible and clashing sections
    let bank = bank_of(vec![
        class(1, "Main", "A", vec![timed((9, 0), (10, 0), Days::mwf())]),
        class(2, "Main", "A", vec![timed((10, 0), (11, 0), mon())]),
        class(3, "Main", "B", vec![timed((9, 30), (10, 30), mon())]),
        class(4, "Main", "B", vec![timed((12, 0), (13, 0), Days::mwf())]),
        class(5, "Main", "C", vec![timed((9, 0), (12, 30), fri())]),
        class(6, "Main", "C", vec![timed((15, 0), (16, 0), mon())]),
    ]);
    let includes = vec![course("A"), course("B"), course("C")];
    let buckets = include_classes(&bank, &includes, &KeepAll);
    let data = map_classes(&bank, &buckets);
    let solutions = bruteforce_schedules(&data);
    assert!(solutions.len() > 0);
    for sol in &solutions {
        for i in 0..sol.len() {
            for j in (i + 1)..sol.len() {
                assert!(!sol[i].schedule.overlaps(&vec![sol[j].schedule.duplicate()]));
            }
        }
    }
}

#[test]
fn pipeline_is_deterministic_across_runs() {
    let bank = bank_of(vec![
        class(1, "Main", "A", vec![timed((9, 0), (10, 0), mon())]),
        class(2, "Main", "A", vec![timed((10, 0), (11, 0), mon())]),
        class(3, "Main", "B", vec![timed((10, 30), (11, 30), mon())]),
    ]);
    let includes = vec![course("A"), course("B")];
    let constraints = vec![Constraint::Campus { name: "Main".to_string() }];
    let first = solve(&bank, &includes, &KeepAll, &constraints);
    let second = solve(&bank, &includes, &KeepAll, &constraints);
    assert_eq!(first.len(), second.len());
    for (a, b) in first.iter().zip(second.iter()) {
        assert_eq!(crns(a), crns(b));
        for (x, y) in a.iter().zip(b.iter()) {
            assert!(x.schedule.same_pattern(&y.schedule));
        }
        assert_eq!(score_of(a), score_of(b));
    }
}

fn score_of(solution: &Vec<SmallClass>) -> Breakdown {
    let schedules: Vec<Schedule> = solution.iter().map(|sc| sc.schedule.duplicate()).collect();
    let mut week = Schedule::flatten(&schedules);
    week.sort();
    assert!(week.is_separated());
    score(&week)
}

#[test]
fn score_of_empty_week_is_all_baseline() {
    let week = Schedule::default();
    assert!(week.is_separated());
    let b = score(&week);
    assert_eq!(
        b,
        Breakdown {
            similar_start_time: 0,
            similar_end_time: 0,
            time_between_classes: 0,
            free_block: 0,
            free_day: 5,
            day_length: 0,
        }
    );
}

#[test]
fn score_has_exact_expected_components() {
    // one used day: 9:00-10:00 and 10:30-11:30, a single 30-minute gap
    let a = Schedule::generate(&vec![(mon(), Time::new(9, 0), Time::new(10, 0))]);
    let b = Schedule::generate(&vec![(mon(), Time::new(10, 30), Time::new(11, 30))]);
    let mut week = Schedule::flatten(&vec![a, b]);
    week.sort();
    assert!(week.is_separated());
    let s = score(&week);
    assert_eq!(
        s,
        Breakdown {
            similar_start_time: 0,
            similar_end_time: 0,
            time_between_classes: 30,
            free_block: 30,
            free_day: 4,
            day_length: -150,
        }
    );
}

#[test]
fn score_variance_across_days() {
    // starts 8:00, 12:00, 8:00 on three days: mean 560, deviations 80/160/80
    let mut tue = never();
    tue.tuesday = true;
    let mut wed = never();
    wed.wednesday = true;
    let x = Schedule::generate(&vec![
        (mon(), Time::new(8, 0), Time::new(9, 0)),
        (tue, Time::new(12, 0), Time::new(13, 0)),
        (wed, Time::new(8, 0), Time::new(9, 0)),
    ]);
    let s = score(&x);
    assert_eq!(s.similar_start_time, -((80 * 80 + 160 * 160 + 80 * 80) / 3));
    assert_eq!(s.free_day, 2);
}

#[test]
fn weighted_scores_prefer_consistent_starts_and_free_days() {
    let mut wed = never();
    wed.wednesday = true;
    let mut tue = never();
    tue.tuesday = true;
    // consistent starts, two used days
    let x = Schedule::generate(&vec![
        (mon(), Time::new(9, 0), Time::new(10, 0)),
        (wed, Time::new(9, 0), Time::new(10, 0)),
    ]);
    // spread starts, three used days
    let y = Schedule::generate(&vec![
        (mon(), Time::new(8, 0), Time::new(9, 0)),
        (tue, Time::new(12, 0), Time::new(13, 0)),
        (wed, Time::new(15, 0), Time::new(16, 0)),
    ]);
    let bx = score(&x);
    let by = score(&y);
    let weights = |b: &Breakdown| -> f64 {
        4.0 * b.similar_start_time as f64 + 1.0 * b.similar_end_time as f64 + 0.5
            * b.time_between_classes as f64 + 0.5 * b.free_block as f64 + 3.0 * b.free_day as f64
            + 0.5 * b.day_length as f64
    };
    assert!(weights(&bx) > weights(&by));
}

#[test]
fn unmap_resolves_keys_in_order() {
    let bank = bank_of(vec![
        class(7, "Main", "A", vec![]),
        class(9, "Main", "B", vec![]),
    ]);
    let resolved = unmap_classes(&bank, &vec![9, 7]);
    assert_eq!(resolved.len(), 2);
    assert_eq!(resolved[0].subject_course, "B");
    assert_eq!(resolved[1].subject_course, "A");
}

#[test]
fn alternates_share_subject_and_grid() {
    let bank = bank_of(vec![
        class(1, "Main", "A", vec![timed((9, 0), (10, 0), mon())]),
        class(2, "Main", "A", vec![timed((9, 0), (10, 0), mon())]),
        class(3, "Main", "A", vec![timed((11, 0), (12, 0), mon())]),
        class(4, "Main", "B", vec![timed((9, 0), (10, 0), mon())]),
    ]);
    let includes = vec![course("A"), course("B")];
    let buckets = include_classes(&bank, &includes, &KeepAll);
    let alts = find_alts(&bank, &includes, &buckets, &vec![1, 4]);
    // section 1's alternates: itself and its duplicate 2, not 3 (other grid)
    // and not 4 (other subject, other bucket)
    assert_eq!(alts, vec![vec![1, 2], vec![4]]);
}
