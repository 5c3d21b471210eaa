use backup_retention::policy::{RetentionPolicy, MONTH_WINDOW, RECENT_FLOOR, YEAR_WINDOW};
use backup_retention::record::{BackupRecord, Timestamp};
use backup_retention::selector::{backups_to_delete, select_deletions, EmptyGroupError};

fn stamp(year: u32, month: u8, day: u8) -> Timestamp {
    Timestamp { year, month, day, hour: 3, minute: 0, second: 0 }
}

fn record(target: &str, year: u32, month: u8, day: u8) -> BackupRecord {
    let location = format!("{}-{:04}{:02}{:02}-030000.tar.gz", target, year, month, day);
    BackupRecord::new(location, target.to_string(), stamp(year, month, day))
}

fn locations(records: &[BackupRecord]) -> Vec<String> {
    records.iter().map(|r| r.location.clone()).collect()
}

fn name(target: &str, year: u32, month: u8, day: u8) -> String {
    format!("{}-{:04}{:02}{:02}-030000.tar.gz", target, year, month, day)
}

/// One record on the first of each of `count` consecutive months that end
/// with `last_month` of `last_year`.
fn monthly(target: &str, last_year: u32, last_month: u8, count: u32) -> Vec<BackupRecord> {
    let mut out = Vec::new();
    let last = last_year * 12 + (last_month as u32 - 1);
    for k in 0..count {
        let m = last - (count - 1 - k);
        out.push(record(target, m / 12, (m % 12) as u8 + 1, 1));
    }
    out
}

#[test]
fn standard_policy_has_the_documented_values() {
    let policy = RetentionPolicy::default();
    assert_eq!(policy.recent_floor, 5);
    assert_eq!(policy.month_window, 2);
    assert_eq!(policy.year_window, 3);
    assert_eq!(RECENT_FLOOR, 5);
    assert_eq!(MONTH_WINDOW, 2);
    assert_eq!(YEAR_WINDOW, 3);
}

#[test]
fn thirty_consecutive_months() {
    // July 2022 up to December 2024.
    let group = monthly("db", 2024, 12, 30);
    assert_eq!(group.len(), 30);
    let doomed = backups_to_delete(group).unwrap();
    let mut expected = Vec::new();
    // Newest first: February to July 2024 ...
    for month in (2..=7).rev() {
        expected.push(name("db", 2024, month, 1));
    }
    // ... February to December 2023 ...
    for month in (2..=12).rev() {
        expected.push(name("db", 2023, month, 1));
    }
    // ... and August to December 2022.
    for month in (8..=12).rev() {
        expected.push(name("db", 2022, month, 1));
    }
    assert_eq!(expected.len(), 22);
    assert_eq!(locations(&doomed), expected);
}

#[test]
fn thirty_consecutive_months_keep_what_the_rules_name() {
    let doomed = locations(&backups_to_delete(monthly("db", 2024, 12, 30)).unwrap());
    // The five most recent, which hold the current month and the month before.
    for month in 8..=12 {
        assert!(!doomed.contains(&name("db", 2024, month, 1)));
    }
    // The earliest record of each of the three most recent years.
    assert!(!doomed.contains(&name("db", 2024, 1, 1)));
    assert!(!doomed.contains(&name("db", 2023, 1, 1)));
    assert!(!doomed.contains(&name("db", 2022, 7, 1)));
    assert_eq!(doomed.len(), 30 - 8);
}

#[test]
fn six_monthly_records_lose_only_what_no_checkpoint_covers() {
    // January to June of one year. The one record beyond the recent floor is
    // the earliest of its year, which the annual exemption keeps.
    for target in ["web", "db"] {
        let doomed = backups_to_delete(monthly(target, 2024, 6, 6)).unwrap();
        assert!(doomed.is_empty());
    }
    // Without the calendar exemptions that record is the one deletion.
    let floor_only = RetentionPolicy { recent_floor: 5, month_window: 0, year_window: 0 };
    for target in ["web", "db"] {
        let doomed = select_deletions(monthly(target, 2024, 6, 6), &floor_only).unwrap();
        assert_eq!(locations(&doomed), vec![name(target, 2024, 1, 1)]);
    }
}

#[test]
fn three_records_lose_nothing() {
    let doomed = backups_to_delete(monthly("web", 2024, 3, 3)).unwrap();
    assert!(doomed.is_empty());
}

#[test]
fn as_many_records_as_the_floor_lose_nothing() {
    let floor_only = RetentionPolicy { recent_floor: 5, month_window: 0, year_window: 0 };
    let doomed = select_deletions(monthly("web", 2024, 5, 5), &floor_only).unwrap();
    assert!(doomed.is_empty());
    let doomed = select_deletions(monthly("web", 2024, 6, 6), &floor_only).unwrap();
    assert_eq!(doomed.len(), 1);
}

#[test]
fn empty_group_is_an_error() {
    let result = backups_to_delete(Vec::new());
    assert_eq!(result.err(), Some(EmptyGroupError));
    let policy = RetentionPolicy { recent_floor: 0, month_window: 0, year_window: 0 };
    assert!(matches!(select_deletions(Vec::new(), &policy), Err(EmptyGroupError)));
    assert_eq!(EmptyGroupError.message(), "no backup file was found");
}

#[test]
fn whole_current_month_is_kept() {
    // Eight records in the current month, one in the month before, two in
    // an earlier month, one in January.
    let mut group = vec![
        record("db", 2024, 1, 10),
        record("db", 2024, 3, 5),
        record("db", 2024, 3, 20),
        record("db", 2024, 5, 9),
    ];
    for day in 1..=8 {
        group.push(record("db", 2024, 6, day));
    }
    let doomed = locations(&backups_to_delete(group).unwrap());
    // June is kept whole, May is one of the two latest months, January opens
    // the year; March is neither.
    assert_eq!(doomed, vec![name("db", 2024, 3, 20), name("db", 2024, 3, 5)]);
}

#[test]
fn month_window_counts_the_current_month() {
    let mut group = vec![
        record("db", 2024, 1, 1),
        record("db", 2024, 4, 1),
        record("db", 2024, 4, 15),
        record("db", 2024, 5, 1),
        record("db", 2024, 5, 15),
    ];
    for day in 1..=6 {
        group.push(record("db", 2024, 6, day));
    }
    let doomed = locations(&backups_to_delete(group).unwrap());
    assert_eq!(
        doomed,
        vec![name("db", 2024, 5, 15), name("db", 2024, 4, 15), name("db", 2024, 4, 1)]
    );
}

#[test]
fn wider_month_window_reaches_further_back() {
    let mut group = vec![
        record("db", 2024, 1, 1),
        record("db", 2024, 4, 1),
        record("db", 2024, 4, 15),
        record("db", 2024, 5, 1),
        record("db", 2024, 5, 15),
    ];
    for day in 1..=6 {
        group.push(record("db", 2024, 6, day));
    }
    let policy = RetentionPolicy { recent_floor: 5, month_window: 3, year_window: 3 };
    let doomed = locations(&select_deletions(group, &policy).unwrap());
    assert_eq!(doomed, vec![name("db", 2024, 5, 15), name("db", 2024, 4, 15)]);
}

#[test]
fn monthly_exemption_applies_to_the_current_year_only() {
    // December 2023 is the month before January 2024, but lies in another
    // year: its earliest record is kept as that year's earliest only if it
    // is one.
    let mut group = vec![
        record("db", 2023, 11, 1),
        record("db", 2023, 12, 1),
        record("db", 2023, 12, 15),
    ];
    for day in 1..=5 {
        group.push(record("db", 2024, 1, day));
    }
    let doomed = locations(&backups_to_delete(group).unwrap());
    assert_eq!(doomed, vec![name("db", 2023, 12, 15), name("db", 2023, 12, 1)]);
}

#[test]
fn year_window_limits_the_annual_checkpoints() {
    // Two records in each of five years; the latest year holds seven.
    let mut group = Vec::new();
    for year in 2020..=2023 {
        group.push(record("db", year, 2, 1));
        group.push(record("db", year, 9, 1));
    }
    for day in 1..=7 {
        group.push(record("db", 2024, 3, day));
    }
    let doomed = locations(&backups_to_delete(group).unwrap());
    assert_eq!(
        doomed,
        vec![
            name("db", 2023, 9, 1),
            name("db", 2022, 9, 1),
            name("db", 2021, 9, 1),
            name("db", 2021, 2, 1),
            name("db", 2020, 9, 1),
            name("db", 2020, 2, 1),
        ]
    );
}

#[test]
fn zero_policy_keeps_the_current_month_only() {
    let policy = RetentionPolicy { recent_floor: 0, month_window: 0, year_window: 0 };
    let group = vec![
        record("db", 2024, 1, 1),
        record("db", 2024, 2, 1),
        record("db", 2024, 2, 2),
    ];
    let doomed = locations(&select_deletions(group, &policy).unwrap());
    assert_eq!(doomed, vec![name("db", 2024, 1, 1)]);
}

#[test]
fn selection_does_not_depend_on_input_order() {
    let forward = monthly("db", 2024, 12, 30);
    let mut backward = monthly("db", 2024, 12, 30);
    backward.reverse();
    let mut shuffled = monthly("db", 2024, 12, 30);
    shuffled.rotate_left(11);
    shuffled.swap(0, 17);
    shuffled.swap(3, 29);
    let a = locations(&backups_to_delete(forward).unwrap());
    let b = locations(&backups_to_delete(backward).unwrap());
    let c = locations(&backups_to_delete(shuffled).unwrap());
    assert_eq!(a, b);
    assert_eq!(a, c);
}

#[test]
fn selection_twice_gives_the_same_list() {
    let first = locations(&backups_to_delete(monthly("db", 2024, 12, 30)).unwrap());
    let second = locations(&backups_to_delete(monthly("db", 2024, 12, 30)).unwrap());
    assert_eq!(first, second);
}

#[test]
fn equal_timestamps_are_ordered_by_location() {
    let policy = RetentionPolicy { recent_floor: 1, month_window: 0, year_window: 0 };
    let make = |location: &str, month: u8| {
        BackupRecord::new(location.to_string(), "db".to_string(), stamp(2024, month, 1))
    };
    // Three records of one instant in January, one record in February. The
    // floor keeps the February record; the January ones leave in descending
    // order of location, whatever their order in the input.
    let one = vec![make("b", 1), make("c", 1), make("a", 1), make("z", 2)];
    let two = vec![make("z", 2), make("a", 1), make("c", 1), make("b", 1)];
    let doomed_one = locations(&select_deletions(one, &policy).unwrap());
    let doomed_two = locations(&select_deletions(two, &policy).unwrap());
    assert_eq!(doomed_one, vec!["c".to_string(), "b".to_string(), "a".to_string()]);
    assert_eq!(doomed_one, doomed_two);
}

#[test]
fn deleted_records_come_back_whole() {
    let floor_only = RetentionPolicy { recent_floor: 5, month_window: 0, year_window: 0 };
    let doomed = select_deletions(monthly("web", 2024, 6, 6), &floor_only).unwrap();
    assert_eq!(doomed.len(), 1);
    assert_eq!(doomed[0].location, name("web", 2024, 1, 1));
    assert_eq!(doomed[0].target, "web");
    assert_eq!(doomed[0].timestamp, stamp(2024, 1, 1));
    assert_eq!(doomed[0].year(), 2024);
    assert_eq!(doomed[0].month(), 1);
}
