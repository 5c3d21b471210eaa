use backup_retention::chronology::sort_chronologically;
use backup_retention::record::{BackupRecord, Timestamp};
use backup_retention::text::text_no_later;

fn at(year: u32, month: u8, day: u8, hour: u8, minute: u8, second: u8) -> Timestamp {
    Timestamp { year, month, day, hour, minute, second }
}

fn rec(location: &str, target: &str, timestamp: Timestamp) -> BackupRecord {
    BackupRecord::new(location.to_string(), target.to_string(), timestamp)
}

#[test]
fn timestamps_are_ordered_field_by_field() {
    let base = at(2024, 6, 15, 12, 30, 30);
    assert!(!base.is_before(&base));
    assert!(at(2023, 12, 31, 23, 59, 59).is_before(&base));
    assert!(at(2024, 5, 31, 23, 59, 59).is_before(&base));
    assert!(at(2024, 6, 14, 23, 59, 59).is_before(&base));
    assert!(at(2024, 6, 15, 11, 59, 59).is_before(&base));
    assert!(at(2024, 6, 15, 12, 29, 59).is_before(&base));
    assert!(at(2024, 6, 15, 12, 30, 29).is_before(&base));
    assert!(!at(2024, 6, 15, 12, 30, 31).is_before(&base));
    assert!(!at(2025, 1, 1, 0, 0, 0).is_before(&base));
    assert!(base.is_before(&at(2025, 1, 1, 0, 0, 0)));
}

#[test]
fn text_order_is_lexicographic() {
    assert!(text_no_later("", ""));
    assert!(text_no_later("", "a"));
    assert!(!text_no_later("a", ""));
    assert!(text_no_later("abc", "abc"));
    assert!(text_no_later("abc", "abd"));
    assert!(!text_no_later("abd", "abc"));
    assert!(text_no_later("ab", "abc"));
    assert!(!text_no_later("abc", "ab"));
    assert!(text_no_later("Z", "a"));
    assert!(text_no_later("z", "\u{e9}"));
    assert!(!text_no_later("\u{e9}", "z"));
}

#[test]
fn records_are_ordered_by_timestamp_then_location_then_target() {
    let early = at(2024, 1, 1, 0, 0, 0);
    let late = at(2024, 1, 1, 0, 0, 1);
    assert!(rec("z", "z", early).no_later_than(&rec("a", "a", late)));
    assert!(!rec("a", "a", late).no_later_than(&rec("z", "z", early)));
    assert!(rec("a", "z", early).no_later_than(&rec("b", "a", early)));
    assert!(!rec("b", "a", early).no_later_than(&rec("a", "z", early)));
    assert!(rec("a", "x", early).no_later_than(&rec("a", "y", early)));
    assert!(!rec("a", "y", early).no_later_than(&rec("a", "x", early)));
    assert!(rec("a", "x", early).no_later_than(&rec("a", "x", early)));
}

#[test]
fn year_and_month_are_those_of_the_timestamp() {
    let r = rec("db-20231105-010203.tgz", "db", at(2023, 11, 5, 1, 2, 3));
    assert_eq!(r.year(), 2023);
    assert_eq!(r.month(), 11);
}

#[test]
fn sorting_arranges_records_chronologically() {
    let input = vec![
        rec("e", "db", at(2024, 3, 1, 0, 0, 0)),
        rec("b", "db", at(2023, 12, 31, 23, 59, 59)),
        rec("d", "db", at(2024, 1, 1, 0, 0, 0)),
        rec("a", "db", at(2022, 6, 1, 0, 0, 0)),
        rec("c", "db", at(2024, 1, 1, 0, 0, 0)),
    ];
    let sorted = sort_chronologically(input);
    let order: Vec<&str> = sorted.iter().map(|r| r.location.as_str()).collect();
    assert_eq!(order, vec!["a", "b", "c", "d", "e"]);
}

#[test]
fn sorting_keeps_every_record() {
    let input = vec![
        rec("x", "db", at(2024, 1, 1, 0, 0, 0)),
        rec("x", "db", at(2024, 1, 1, 0, 0, 0)),
        rec("w", "db", at(2024, 1, 1, 0, 0, 0)),
    ];
    let sorted = sort_chronologically(input);
    let order: Vec<&str> = sorted.iter().map(|r| r.location.as_str()).collect();
    assert_eq!(order, vec!["w", "x", "x"]);
    assert!(sort_chronologically(Vec::new()).is_empty());
}

#[test]
fn sorting_many_records() {
    // 500 distinct instants, handed over in a scrambled order.
    let mut input = Vec::new();
    let mut k: u32 = 7;
    for _ in 0..500 {
        k = (k * 211 + 17) % 500;
        let month = (k % 12) as u8 + 1;
        let day = (k / 12 % 28) as u8 + 1;
        let year = 2000 + k / 336;
        input.push(rec(&format!("r{:03}", k), "db", at(year, month, day, 0, 0, 0)));
    }
    let mut expected: Vec<(Timestamp, String)> =
        input.iter().map(|r| (r.timestamp, r.location.clone())).collect();
    expected.sort_by(|a, b| {
        let x = (a.0.year, a.0.month, a.0.day, a.0.hour, a.0.minute, a.0.second, &a.1);
        let y = (b.0.year, b.0.month, b.0.day, b.0.hour, b.0.minute, b.0.second, &b.1);
        x.cmp(&y)
    });
    let sorted = sort_chronologically(input);
    let got: Vec<(Timestamp, String)> =
        sorted.iter().map(|r| (r.timestamp, r.location.clone())).collect();
    assert_eq!(got.len(), 500);
    assert_eq!(got, expected);
}
