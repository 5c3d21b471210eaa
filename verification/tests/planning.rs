use backup_retention::grouper::group_by_target;
use backup_retention::parser::parse_entries;
use backup_retention::plan::plan_deletions;
use backup_retention::policy::RetentionPolicy;
use backup_retention::record::{BackupRecord, Timestamp};
use backup_retention::selector::select_deletions;

fn name(target: &str, year: u32, month: u8, day: u8) -> String {
    format!("{}-{:04}{:02}{:02}-030000.tar.gz", target, year, month, day)
}

fn record(target: &str, year: u32, month: u8, day: u8) -> BackupRecord {
    let timestamp = Timestamp { year, month, day, hour: 3, minute: 0, second: 0 };
    BackupRecord::new(name(target, year, month, day), target.to_string(), timestamp)
}

fn locations(records: &[BackupRecord]) -> Vec<String> {
    records.iter().map(|r| r.location.clone()).collect()
}

#[test]
fn groups_follow_first_occurrence() {
    let records = vec![
        record("web", 2024, 1, 1),
        record("db", 2024, 1, 2),
        record("web", 2024, 1, 3),
        record("mail", 2024, 1, 4),
        record("db", 2024, 1, 5),
        record("web", 2023, 1, 6),
    ];
    let groups = group_by_target(records);
    assert_eq!(groups.len(), 3);
    assert_eq!(groups[0].target, "web");
    assert_eq!(
        locations(&groups[0].records),
        vec![name("web", 2024, 1, 1), name("web", 2024, 1, 3), name("web", 2023, 1, 6)]
    );
    assert_eq!(groups[1].target, "db");
    assert_eq!(
        locations(&groups[1].records),
        vec![name("db", 2024, 1, 2), name("db", 2024, 1, 5)]
    );
    assert_eq!(groups[2].target, "mail");
    assert_eq!(locations(&groups[2].records), vec![name("mail", 2024, 1, 4)]);
}

#[test]
fn grouping_drops_and_repeats_nothing() {
    let mut records = Vec::new();
    for day in 1..=20 {
        let target = ["a", "b", "c"][(day % 3) as usize];
        records.push(record(target, 2024, 1, day));
    }
    let groups = group_by_target(records);
    let mut all: Vec<String> = groups.iter().flat_map(|g| locations(&g.records)).collect();
    assert_eq!(all.len(), 20);
    all.sort();
    all.dedup();
    assert_eq!(all.len(), 20);
    for group in &groups {
        assert!(!group.records.is_empty());
        assert!(group.records.iter().all(|r| r.target == group.target));
    }
    assert!(group_by_target(Vec::new()).is_empty());
}

#[test]
fn two_targets_of_six_monthly_records() {
    let floor_only = RetentionPolicy { recent_floor: 5, month_window: 0, year_window: 0 };
    let mut records = Vec::new();
    for month in 1..=6 {
        records.push(record("web", 2024, month, 1));
        records.push(record("db", 2024, month, 1));
    }
    let doomed = plan_deletions(records, &floor_only);
    assert_eq!(locations(&doomed), vec![name("web", 2024, 1, 1), name("db", 2024, 1, 1)]);

    let mut records = Vec::new();
    for month in 1..=6 {
        records.push(record("web", 2024, month, 1));
        records.push(record("db", 2024, month, 1));
    }
    assert!(plan_deletions(records, &RetentionPolicy::default()).is_empty());
}

#[test]
fn a_target_is_judged_by_its_own_records() {
    let policy = RetentionPolicy { recent_floor: 2, month_window: 1, year_window: 1 };
    let web = || {
        vec![
            record("web", 2023, 5, 1),
            record("web", 2023, 6, 1),
            record("web", 2024, 1, 1),
            record("web", 2024, 1, 2),
            record("web", 2024, 2, 1),
            record("web", 2024, 2, 2),
            record("web", 2024, 2, 3),
        ]
    };
    let alone = locations(&select_deletions(web(), &policy).unwrap());
    assert_eq!(
        alone,
        vec![name("web", 2024, 1, 2), name("web", 2023, 6, 1), name("web", 2023, 5, 1)]
    );
    // Many newer records of another target change nothing for `web`.
    let mut mixed = Vec::new();
    for day in 1..=9 {
        mixed.push(record("db", 2025, 3, day));
    }
    mixed.extend(web());
    for day in 10..=19 {
        mixed.push(record("db", 2025, 3, day));
    }
    let doomed = plan_deletions(mixed, &policy);
    let of_web: Vec<String> =
        doomed.iter().filter(|r| r.target == "web").map(|r| r.location.clone()).collect();
    assert_eq!(of_web, alone);
    let of_db = doomed.iter().filter(|r| r.target == "db").count();
    assert_eq!(of_db, 19 - 19);
}

#[test]
fn from_entry_names_to_deletions() {
    let mut names = vec!["README".to_string(), "db.lock".to_string()];
    for day in 1..=7 {
        names.push(format!("db-202405{:02}-000000.sql", day));
    }
    for day in 1..=7 {
        names.push(format!("db-202406{:02}-000000.sql", day));
    }
    names.push("web-20240601-000000.tar".to_string());
    let doomed = plan_deletions(parse_entries(&names), &RetentionPolicy::default());
    let mut expected = Vec::new();
    for day in (2..=7).rev() {
        expected.push(format!("db-202405{:02}-000000.sql", day));
    }
    assert_eq!(locations(&doomed), expected);
}

#[test]
fn empty_directory_loses_nothing() {
    assert!(plan_deletions(Vec::new(), &RetentionPolicy::default()).is_empty());
}
