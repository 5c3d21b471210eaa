//! Retention selection: which records of one target may be deleted.
//!
//! Selection works on the chronological arrangement of a group. A record is
//! retained when one of four rules protects it; the others form the deletion
//! list. Nothing in the input is marked or changed: the decision is the
//! returned list.

use crate::chronology::{chronological, lemma_chronological, sort_chronologically};
use crate::policy::{standard_policy, RetentionPolicy};
use crate::record::{lemma_record_le_calendar, record_order, views, BackupRecord, RecordView};
use vstd::prelude::*;
use vstd::relations::sorted_by;

verus! {

/// Selection was asked for a group that holds no record, so that no current
/// year can be determined.
#[derive(Clone, Copy, Debug, PartialEq, Eq, Structural)]
pub struct EmptyGroupError;

impl EmptyGroupError {
    /// A sentence for the operator.
    pub fn message(&self) -> (text: String)
        ensures
            text@ == "no backup file was found"@,
    {
        "no backup file was found".to_owned()
    }
}

/// Some record of `group` lies in calendar year `year`.
pub open spec fn has_year(group: Seq<RecordView>, year: int) -> bool {
    exists|j: int| 0 <= j < group.len() && (#[trigger] group[j]).timestamp.year == year
}

/// Some record of `group` lies in month `month` of calendar year `year`.
pub open spec fn has_month(group: Seq<RecordView>, year: int, month: int) -> bool {
    exists|j: int|
        0 <= j < group.len() && (#[trigger] group[j]).timestamp.year == year
            && group[j].timestamp.month == month
}

/// The calendar years after `year` in which `group` holds a record.
pub open spec fn later_years(group: Seq<RecordView>, year: int) -> Set<int> {
    Set::new(|y: int| y > year && has_year(group, y))
}

/// The months after `month` of calendar year `year` in which `group` holds a
/// record.
pub open spec fn later_months(group: Seq<RecordView>, year: int, month: int) -> Set<int> {
    Set::new(|m: int| m > month && has_month(group, year, m))
}

/// The latest calendar year in which a nonempty chronological sequence holds
/// a record.
pub open spec fn current_year(c: Seq<RecordView>) -> int {
    c.last().timestamp.year as int
}

/// The month of the latest record of a nonempty chronological sequence.
pub open spec fn current_month(c: Seq<RecordView>) -> int {
    c.last().timestamp.month as int
}

/// No record before position `i` lies in the calendar year of `c[i]`: in a
/// chronological sequence, `c[i]` is the earliest record of its year.
pub open spec fn opens_year(c: Seq<RecordView>, i: int) -> bool {
    forall|j: int| 0 <= j < i ==> (#[trigger] c[j]).timestamp.year != c[i].timestamp.year
}

/// No record before position `i` lies in the year and month of `c[i]`: in a
/// chronological sequence, `c[i]` is the earliest record of its month.
pub open spec fn opens_month(c: Seq<RecordView>, i: int) -> bool {
    forall|j: int|
        0 <= j < i ==> !((#[trigger] c[j]).timestamp.year == c[i].timestamp.year
            && c[j].timestamp.month == c[i].timestamp.month)
}

/// Recent floor: `c[i]` is one of the `floor` latest records.
pub open spec fn in_recent_floor(c: Seq<RecordView>, i: int, floor: int) -> bool {
    i >= c.len() - floor
}

/// Annual exemption: `c[i]` is the earliest record of its year, and fewer
/// than `window` later years hold a record.
pub open spec fn annual_checkpoint(c: Seq<RecordView>, i: int, window: int) -> bool {
    opens_year(c, i) && later_years(c, c[i].timestamp.year as int).len() < window
}

/// Monthly exemption: `c[i]` lies in the current year and is the earliest
/// record of its month, and fewer than `window` later months of that year
/// hold a record.
pub open spec fn monthly_checkpoint(c: Seq<RecordView>, i: int, window: int) -> bool {
    &&& c[i].timestamp.year == current_year(c)
    &&& opens_month(c, i)
    &&& later_months(c, current_year(c), c[i].timestamp.month as int).len() < window
}

/// Current-month override: `c[i]` lies in the month of the latest record.
pub open spec fn in_current_month(c: Seq<RecordView>, i: int) -> bool {
    c[i].timestamp.year == current_year(c) && c[i].timestamp.month == current_month(c)
}

/// The record at position `i` of the chronological sequence `c` is retained
/// under `policy`.
pub open spec fn retained_at(c: Seq<RecordView>, policy: RetentionPolicy, i: int) -> bool {
    ||| in_recent_floor(c, i, policy.recent_floor as int)
    ||| annual_checkpoint(c, i, policy.year_window as int)
    ||| monthly_checkpoint(c, i, policy.month_window as int)
    ||| in_current_month(c, i)
}

/// The records of `c` at positions `from` and later that are not retained,
/// from the latest to the earliest.
pub open spec fn deletions_from(c: Seq<RecordView>, policy: RetentionPolicy, from: int) -> Seq<
    RecordView,
>
    decreases c.len() - from,
{
    if from < 0 || from >= c.len() {
        Seq::empty()
    } else if retained_at(c, policy, from) {
        deletions_from(c, policy, from + 1)
    } else {
        deletions_from(c, policy, from + 1).push(c[from])
    }
}

/// The deletion list of a group under `policy`: the records that no rule
/// retains, from the latest to the earliest. It is empty for an empty group.
pub open spec fn deletion_list(group: Seq<RecordView>, policy: RetentionPolicy) -> Seq<
    RecordView,
> {
    deletions_from(chronological(group), policy, 0)
}

/// In an ascending sequence, years never decrease, and within one year months
/// never decrease.
pub proof fn lemma_ascending_calendar(c: Seq<RecordView>, i: int, j: int)
    requires
        sorted_by(c, record_order()),
        0 <= i <= j < c.len(),
    ensures
        c[i].timestamp.year <= c[j].timestamp.year,
        c[i].timestamp.year == c[j].timestamp.year ==> c[i].timestamp.month
            <= c[j].timestamp.month,
{
    if i < j {
        assert(record_order()(c[i], c[j]));
        lemma_record_le_calendar(c[i], c[j]);
    }
}

/// In an ascending sequence a record opens its year exactly if it is the
/// first record or its predecessor lies in another year.
pub proof fn lemma_opens_year(c: Seq<RecordView>, i: int)
    requires
        sorted_by(c, record_order()),
        0 <= i < c.len(),
    ensures
        opens_year(c, i) <==> (i == 0 || c[i - 1].timestamp.year != c[i].timestamp.year),
{
    if i > 0 && c[i - 1].timestamp.year != c[i].timestamp.year {
        assert forall|j: int| 0 <= j < i implies (#[trigger] c[j]).timestamp.year
            != c[i].timestamp.year by {
            lemma_ascending_calendar(c, j, i - 1);
            lemma_ascending_calendar(c, i - 1, i);
        }
    }
}

/// In an ascending sequence a record opens its month exactly if it is the
/// first record or its predecessor lies in another month.
pub proof fn lemma_opens_month(c: Seq<RecordView>, i: int)
    requires
        sorted_by(c, record_order()),
        0 <= i < c.len(),
    ensures
        opens_month(c, i) <==> (i == 0 || c[i - 1].timestamp.year != c[i].timestamp.year
            || c[i - 1].timestamp.month != c[i].timestamp.month),
{
    if i > 0 && (c[i - 1].timestamp.year != c[i].timestamp.year || c[i - 1].timestamp.month
        != c[i].timestamp.month) {
        assert forall|j: int| 0 <= j < i implies !((#[trigger] c[j]).timestamp.year
            == c[i].timestamp.year && c[j].timestamp.month == c[i].timestamp.month) by {
            lemma_ascending_calendar(c, j, i - 1);
            lemma_ascending_calendar(c, i - 1, i);
        }
    }
}

/// No year lies after the year of the latest record.
pub proof fn lemma_no_year_after_current(c: Seq<RecordView>)
    requires
        sorted_by(c, record_order()),
        c.len() > 0,
    ensures
        later_years(c, current_year(c)) == Set::<int>::empty(),
{
    assert forall|y: int| !later_years(c, current_year(c)).contains(y) by {
        if y > current_year(c) && has_year(c, y) {
            let j = choose|j: int| 0 <= j < c.len() && (#[trigger] c[j]).timestamp.year == y;
            lemma_ascending_calendar(c, j, c.len() - 1);
        }
    }
    assert(later_years(c, current_year(c)) =~= Set::<int>::empty());
}

/// No month of the current year lies after the month of the latest record.
pub proof fn lemma_no_month_after_current(c: Seq<RecordView>)
    requires
        sorted_by(c, record_order()),
        c.len() > 0,
    ensures
        later_months(c, current_year(c), current_month(c)) == Set::<int>::empty(),
{
    assert forall|m: int| !later_months(c, current_year(c), current_month(c)).contains(m) by {
        if m > current_month(c) && has_month(c, current_year(c), m) {
            let j = choose|j: int|
                0 <= j < c.len() && (#[trigger] c[j]).timestamp.year == current_year(c)
                    && c[j].timestamp.month == m;
            lemma_ascending_calendar(c, j, c.len() - 1);
        }
    }
    assert(later_months(c, current_year(c), current_month(c)) =~= Set::<int>::empty());
}

/// Where the year changes between two neighbours of an ascending sequence,
/// the later years of the earlier record are those of the later record and
/// the later record's own year.
pub proof fn lemma_later_years_step(c: Seq<RecordView>, i: int)
    requires
        sorted_by(c, record_order()),
        0 < i < c.len(),
        c[i - 1].timestamp.year != c[i].timestamp.year,
    ensures
        later_years(c, c[i - 1].timestamp.year as int) == later_years(
            c,
            c[i].timestamp.year as int,
        ).insert(c[i].timestamp.year as int),
        !later_years(c, c[i].timestamp.year as int).contains(c[i].timestamp.year as int),
{
    let low = c[i - 1].timestamp.year as int;
    let high = c[i].timestamp.year as int;
    lemma_ascending_calendar(c, i - 1, i);
    assert forall|y: int|
        later_years(c, low).contains(y) <==> later_years(c, high).insert(high).contains(y) by {
        if y > low && has_year(c, y) {
            let j = choose|j: int| 0 <= j < c.len() && (#[trigger] c[j]).timestamp.year == y;
            if j < i {
                lemma_ascending_calendar(c, j, i - 1);
            } else {
                lemma_ascending_calendar(c, i, j);
            }
        }
        if y == high {
            assert(c[i].timestamp.year == y);
        }
    }
    assert(later_years(c, low) =~= later_years(c, high).insert(high));
}

/// Where the month changes between two neighbours of one year in an ascending
/// sequence, the later months of the earlier record are those of the later
/// record and the later record's own month.
pub proof fn lemma_later_months_step(c: Seq<RecordView>, i: int)
    requires
        sorted_by(c, record_order()),
        0 < i < c.len(),
        c[i - 1].timestamp.year == c[i].timestamp.year,
        c[i - 1].timestamp.month != c[i].timestamp.month,
    ensures
        later_months(c, c[i].timestamp.year as int, c[i - 1].timestamp.month as int)
            == later_months(c, c[i].timestamp.year as int, c[i].timestamp.month as int).insert(
            c[i].timestamp.month as int,
        ),
        !later_months(c, c[i].timestamp.year as int, c[i].timestamp.month as int).contains(
            c[i].timestamp.month as int,
        ),
{
    let year = c[i].timestamp.year as int;
    let low = c[i - 1].timestamp.month as int;
    let high = c[i].timestamp.month as int;
    lemma_ascending_calendar(c, i - 1, i);
    assert forall|m: int|
        later_months(c, year, low).contains(m) <==> later_months(c, year, high).insert(
            high,
        ).contains(m) by {
        if m > low && has_month(c, year, m) {
            let j = choose|j: int|
                0 <= j < c.len() && (#[trigger] c[j]).timestamp.year == year
                    && c[j].timestamp.month == m;
            if j < i {
                lemma_ascending_calendar(c, j, i - 1);
            } else {
                lemma_ascending_calendar(c, i, j);
            }
        }
        if m == high {
            assert(c[i].timestamp.year == year && c[i].timestamp.month == m);
        }
    }
    assert(later_months(c, year, low) =~= later_months(c, year, high).insert(high));
}

/// The position just above a cut at `taken` records, or the last position
/// where nothing lies above the cut.
spec fn above(c: Seq<RecordView>, taken: int) -> int {
    if taken < c.len() {
        taken
    } else {
        c.len() - 1
    }
}

/// Computes the deletion list of one target's records under `policy`.
///
/// Fails on an empty group, and only then. Otherwise the result is
/// `deletion_list` of the records, from the latest to the earliest.
pub fn select_deletions(records: Vec<BackupRecord>, policy: &RetentionPolicy) -> (result: Result<
    Vec<BackupRecord>,
    EmptyGroupError,
>)
    ensures
        result is Err <==> records@.len() == 0,
        result matches Ok(doomed) ==> views(doomed@) == deletion_list(views(records@), *policy),
{
    if records.len() == 0 {
        return Err(EmptyGroupError);
    }
    let ghost group = views(records@);
    let mut sorted = sort_chronologically(records);
    let ghost c = views(sorted@);
    let total: usize = sorted.len();
    proof {
        lemma_chronological(group);
        lemma_no_year_after_current(c);
        lemma_no_month_after_current(c);
        assert(c.take(total as int) =~= c);
    }
    let latest_year: u32 = sorted[total - 1].timestamp.year;
    let latest_month: u8 = sorted[total - 1].timestamp.month;
    // Year and month of the record just above the cut, with the number of
    // later years, and of later months of the current year, that hold a record.
    let mut year_above: u32 = latest_year;
    let mut month_above: u8 = latest_month;
    let mut years_after: usize = 0;
    let mut months_after: usize = 0;
    let mut doomed: Vec<BackupRecord> = Vec::new();
    while sorted.len() > 0
        invariant
            0 < total == c.len(),
            sorted.len() <= total,
            sorted_by(c, record_order()),
            views(sorted@) == c.take(sorted.len() as int),
            views(doomed@) == deletions_from(c, *policy, sorted.len() as int),
            latest_year == current_year(c),
            latest_month == current_month(c),
            year_above == c[above(c, sorted.len() as int)].timestamp.year,
            later_years(c, year_above as int).finite(),
            later_years(c, year_above as int).len() == years_after,
            years_after <= total - sorted.len(),
            months_after <= total - sorted.len(),
            year_above == latest_year ==> {
                &&& month_above == c[above(c, sorted.len() as int)].timestamp.month
                &&& later_months(c, latest_year as int, month_above as int).finite()
                &&& later_months(c, latest_year as int, month_above as int).len() == months_after
            },
        decreases sorted.len(),
    {
        let ghost upper = above(c, sorted.len() as int);
        let record = sorted.pop().unwrap();
        let at: usize = sorted.len();
        proof {
            assert(record@ == c.take(at + 1)[at as int]);
            assert(views(sorted@) =~= c.take(at as int));
            lemma_ascending_calendar(c, at as int, upper);
            lemma_ascending_calendar(c, upper, total - 1);
            if at > 0 {
                assert(sorted[at - 1]@ == c.take(at as int)[at - 1]);
            }
            lemma_opens_year(c, at as int);
            lemma_opens_month(c, at as int);
        }
        let in_latest_year: bool = record.timestamp.year == latest_year;
        if in_latest_year && record.timestamp.month != month_above {
            proof {
                lemma_later_months_step(c, at + 1);
            }
            months_after = months_after + 1;
            month_above = record.timestamp.month;
        }
        if record.timestamp.year != year_above {
            proof {
                lemma_later_years_step(c, at + 1);
            }
            years_after = years_after + 1;
            year_above = record.timestamp.year;
        }
        let first_of_year: bool = at == 0 || sorted[at - 1].timestamp.year
            != record.timestamp.year;
        let first_of_month: bool = first_of_year || sorted[at - 1].timestamp.month
            != record.timestamp.month;
        let retained: bool = total - at <= policy.recent_floor || (first_of_year && years_after
            < policy.year_window) || (in_latest_year && first_of_month && months_after
            < policy.month_window) || (in_latest_year && record.timestamp.month == latest_month);
        proof {
            assert(retained == retained_at(c, *policy, at as int));
        }
        if !retained {
            doomed.push(record);
            proof {
                assert(views(doomed@) =~= deletions_from(c, *policy, at + 1).push(c[at as int]));
            }
        }
    }
    Ok(doomed)
}

/// Computes the deletion list of one target's records under the standard
/// policy.
///
/// Fails on an empty group, and only then.
pub fn backups_to_delete(records: Vec<BackupRecord>) -> (result: Result<
    Vec<BackupRecord>,
    EmptyGroupError,
>)
    ensures
        result is Err <==> records@.len() == 0,
        result matches Ok(doomed) ==> views(doomed@) == deletion_list(
            views(records@),
            standard_policy(),
        ),
{
    let policy = RetentionPolicy::default();
    select_deletions(records, &policy)
}

} // verus!
