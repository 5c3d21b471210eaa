//! The record model: what the library knows of one backup archive, and the
//! chronological order in which records of a target are arranged.

use crate::text::{
    lemma_text_le_antisymmetric, lemma_text_le_reflexive, lemma_text_le_total,
    lemma_text_le_transitive, text_le, text_no_later,
};
use vstd::prelude::*;
use vstd::relations::*;

verus! {

/// A point in time at a resolution of one second, as encoded in an archive's
/// name. Timestamps are ordered field by field, from the year down.
#[derive(Clone, Copy, Debug, PartialEq, Eq, Structural)]
pub struct Timestamp {
    pub year: u32,
    pub month: u8,
    pub day: u8,
    pub hour: u8,
    pub minute: u8,
    pub second: u8,
}

impl Timestamp {
    /// `self` is strictly earlier than `other`.
    pub open spec fn before(self, other: Timestamp) -> bool {
        if self.year != other.year {
            self.year < other.year
        } else if self.month != other.month {
            self.month < other.month
        } else if self.day != other.day {
            self.day < other.day
        } else if self.hour != other.hour {
            self.hour < other.hour
        } else if self.minute != other.minute {
            self.minute < other.minute
        } else {
            self.second < other.second
        }
    }

    /// Decides whether `self` is strictly earlier than `other`.
    pub fn is_before(&self, other: &Timestamp) -> (r: bool)
        ensures
            r == self.before(*other),
    {
        if self.year != other.year {
            self.year < other.year
        } else if self.month != other.month {
            self.month < other.month
        } else if self.day != other.day {
            self.day < other.day
        } else if self.hour != other.hour {
            self.hour < other.hour
        } else if self.minute != other.minute {
            self.minute < other.minute
        } else {
            self.second < other.second
        }
    }
}

/// The mathematical content of a [`BackupRecord`].
pub struct RecordView {
    pub location: Seq<char>,
    pub target: Seq<char>,
    pub timestamp: Timestamp,
}

/// One backup archive found in the directory.
///
/// `location` identifies the underlying file and is unique within a
/// directory; `target` names the backup series the archive belongs to. The
/// calendar year and month of a record are those of its timestamp.
#[derive(Clone, Debug, PartialEq, Eq)]
pub struct BackupRecord {
    pub location: String,
    pub target: String,
    pub timestamp: Timestamp,
}

impl View for BackupRecord {
    type V = RecordView;

    open spec fn view(&self) -> RecordView {
        RecordView { location: self.location@, target: self.target@, timestamp: self.timestamp }
    }
}

impl BackupRecord {
    /// The record of the archive at `location`, of `target`, taken at
    /// `timestamp`.
    pub fn new(location: String, target: String, timestamp: Timestamp) -> (r: BackupRecord)
        ensures
            r@ == (RecordView { location: location@, target: target@, timestamp }),
    {
        BackupRecord { location, target, timestamp }
    }

    /// The calendar year of the record's timestamp.
    pub fn year(&self) -> (y: u32)
        ensures
            y == self@.timestamp.year,
    {
        self.timestamp.year
    }

    /// The calendar month of the record's timestamp.
    pub fn month(&self) -> (m: u8)
        ensures
            m == self@.timestamp.month,
    {
        self.timestamp.month
    }

    /// Decides whether `self` comes no later than `other` in chronological
    /// order.
    pub fn no_later_than(&self, other: &BackupRecord) -> (r: bool)
        ensures
            r == record_le(self@, other@),
    {
        if self.timestamp != other.timestamp {
            self.timestamp.is_before(&other.timestamp)
        } else if self.location != other.location {
            text_no_later(self.location.as_str(), other.location.as_str())
        } else {
            text_no_later(self.target.as_str(), other.target.as_str())
        }
    }
}

/// The views of a sequence of records, in the same order.
pub open spec fn views(records: Seq<BackupRecord>) -> Seq<RecordView> {
    records.map_values(|r: BackupRecord| r@)
}

/// Chronological order on records: by timestamp; records with equal
/// timestamps are ordered by location, and records that agree on both by
/// target. The order does not depend on where a record stood in its input.
pub open spec fn record_le(a: RecordView, b: RecordView) -> bool {
    if a.timestamp != b.timestamp {
        a.timestamp.before(b.timestamp)
    } else if a.location != b.location {
        text_le(a.location, b.location)
    } else {
        text_le(a.target, b.target)
    }
}

/// `record_le` as a relation value, for use with sequence sorting.
pub open spec fn record_order() -> spec_fn(RecordView, RecordView) -> bool {
    |a: RecordView, b: RecordView| record_le(a, b)
}

/// Chronological order is a total order on record views: any two records are
/// comparable, and two records that precede each other are the same record.
pub proof fn lemma_record_order_total()
    ensures
        total_ordering(record_order()),
{
    let r = record_order();
    assert forall|x: RecordView| #[trigger] r(x, x) by {
        lemma_text_le_reflexive(x.target);
    }
    assert forall|x: RecordView, y: RecordView| #[trigger] r(x, y) && #[trigger] r(y, x) implies x
        == y by {
        if x.timestamp == y.timestamp {
            if x.location != y.location {
                lemma_text_le_antisymmetric(x.location, y.location);
            } else {
                lemma_text_le_antisymmetric(x.target, y.target);
            }
        }
    }
    assert forall|x: RecordView, y: RecordView| #[trigger] r(x, y) || #[trigger] r(y, x) by {
        lemma_text_le_total(x.location, y.location);
        lemma_text_le_total(x.target, y.target);
    }
    assert forall|x: RecordView, y: RecordView, z: RecordView| #[trigger]
        r(x, y) && #[trigger] r(y, z) implies r(x, z) by {
        lemma_record_le_transitive(x, y, z);
    }
}

/// Chronological order passes along a chain of three records.
pub proof fn lemma_record_le_transitive(x: RecordView, y: RecordView, z: RecordView)
    requires
        record_le(x, y),
        record_le(y, z),
    ensures
        record_le(x, z),
{
    if x.timestamp == y.timestamp && y.timestamp == z.timestamp {
        if x.location == y.location && y.location == z.location {
            lemma_text_le_transitive(x.target, y.target, z.target);
        } else if x.location == y.location || y.location == z.location {
        } else {
            lemma_text_le_transitive(x.location, y.location, z.location);
            if x.location == z.location {
                lemma_text_le_antisymmetric(x.location, y.location);
            }
        }
    }
}

/// Chronological order never runs against the calendar: a record that comes
/// no later than another lies in the same or an earlier year, and within one
/// year in the same or an earlier month.
pub proof fn lemma_record_le_calendar(a: RecordView, b: RecordView)
    requires
        record_le(a, b),
    ensures
        a.timestamp.year <= b.timestamp.year,
        a.timestamp.year == b.timestamp.year ==> a.timestamp.month <= b.timestamp.month,
{
}

} // verus!
