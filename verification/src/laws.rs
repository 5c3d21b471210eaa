//! What retention selection guarantees, stated over groups of records in any
//! order and proved from the definition of the deletion list.

use crate::chronology::{chronological, lemma_chronological, lemma_chronological_unique};
use crate::policy::RetentionPolicy;
use crate::record::{lemma_record_order_total, record_le, record_order, RecordView};
use crate::selector::{
    current_month, current_year, deletion_list, deletions_from, has_month, has_year,
    in_current_month, later_months, later_years, lemma_ascending_calendar, opens_month,
    opens_year, retained_at,
};
use vstd::prelude::*;
use vstd::relations::sorted_by;

verus! {

/// `r` is a record of `group`, and no record of `group` in the same calendar
/// year comes before it.
pub open spec fn earliest_of_year(group: Seq<RecordView>, r: RecordView) -> bool {
    &&& group.contains(r)
    &&& forall|x: RecordView| #[trigger]
        group.contains(x) && x.timestamp.year == r.timestamp.year ==> record_le(r, x)
}

/// `r` is a record of `group`, and no record of `group` in the same month of
/// the same calendar year comes before it.
pub open spec fn earliest_of_month(group: Seq<RecordView>, r: RecordView) -> bool {
    &&& group.contains(r)
    &&& forall|x: RecordView| #[trigger]
        group.contains(x) && x.timestamp.year == r.timestamp.year && x.timestamp.month
            == r.timestamp.month ==> record_le(r, x)
}

/// `r` is a record of `group` in the latest calendar year in which `group`
/// holds a record.
pub open spec fn in_latest_year(group: Seq<RecordView>, r: RecordView) -> bool {
    &&& group.contains(r)
    &&& forall|x: RecordView| #[trigger] group.contains(x) ==> x.timestamp.year <= r.timestamp.year
}

/// `r` is a record of `group` in the latest month of the latest calendar year
/// in which `group` holds a record.
pub open spec fn in_latest_month(group: Seq<RecordView>, r: RecordView) -> bool {
    &&& in_latest_year(group, r)
    &&& forall|x: RecordView| #[trigger]
        group.contains(x) && x.timestamp.year == r.timestamp.year ==> x.timestamp.month
            <= r.timestamp.month
}

/// A record is on the list of deletions from position `from` exactly if it
/// stands at such a position and is not retained there.
pub proof fn lemma_deletions_from_contains(
    c: Seq<RecordView>,
    policy: RetentionPolicy,
    from: int,
    r: RecordView,
)
    requires
        0 <= from,
    ensures
        deletions_from(c, policy, from).contains(r) <==> exists|i: int|
            from <= i < c.len() && !#[trigger] retained_at(c, policy, i) && c[i] == r,
    decreases c.len() - from,
{
    if from < c.len() {
        let rest = deletions_from(c, policy, from + 1);
        lemma_deletions_from_contains(c, policy, from + 1, r);
        if retained_at(c, policy, from) {
            if rest.contains(r) {
                let i = choose|i: int|
                    from + 1 <= i < c.len() && !#[trigger] retained_at(c, policy, i) && c[i] == r;
                assert(from <= i < c.len() && !retained_at(c, policy, i) && c[i] == r);
            }
        } else {
            let list = rest.push(c[from]);
            if list.contains(r) {
                let k = choose|k: int| 0 <= k < list.len() && list[k] == r;
                if k < rest.len() {
                    assert(rest[k] == r);
                    let i = choose|i: int|
                        from + 1 <= i < c.len() && !#[trigger] retained_at(c, policy, i) && c[i]
                            == r;
                    assert(from <= i < c.len() && !retained_at(c, policy, i) && c[i] == r);
                } else {
                    assert(!retained_at(c, policy, from) && c[from] == r);
                }
            }
            if exists|i: int|
                from <= i < c.len() && !#[trigger] retained_at(c, policy, i) && c[i] == r {
                let i = choose|i: int|
                    from <= i < c.len() && !#[trigger] retained_at(c, policy, i) && c[i] == r;
                if i == from {
                    assert(list[rest.len() as int] == r);
                } else {
                    assert(from + 1 <= i < c.len() && !retained_at(c, policy, i) && c[i] == r);
                    let k = choose|k: int| 0 <= k < rest.len() && rest[k] == r;
                    assert(list[k] == r);
                }
            }
        }
    }
}

/// Every record on the deletion list is a record of the group.
pub proof fn lemma_deleted_records_are_members(
    group: Seq<RecordView>,
    policy: RetentionPolicy,
    r: RecordView,
)
    requires
        deletion_list(group, policy).contains(r),
    ensures
        group.contains(r),
{
    let c = chronological(group);
    lemma_chronological(group);
    lemma_deletions_from_contains(c, policy, 0, r);
    let i = choose|i: int| 0 <= i < c.len() && !#[trigger] retained_at(c, policy, i) && c[i] == r;
    assert(c.contains(c[i]));
}

/// A record of a group without duplicates is not on the deletion list if it
/// is retained at its position in chronological order.
pub proof fn lemma_retained_position_not_deleted(
    group: Seq<RecordView>,
    policy: RetentionPolicy,
    i: int,
)
    requires
        group.no_duplicates(),
        0 <= i < group.len(),
        retained_at(chronological(group), policy, i),
    ensures
        !deletion_list(group, policy).contains(chronological(group)[i]),
{
    let c = chronological(group);
    lemma_chronological(group);
    lemma_deletions_from_contains(c, policy, 0, c[i]);
}

/// The years and months in which a group holds a record do not depend on
/// the order of its records.
pub proof fn lemma_calendar_of_chronological(group: Seq<RecordView>)
    ensures
        forall|y: int| has_year(chronological(group), y) <==> has_year(group, y),
        forall|y: int, m: int| has_month(chronological(group), y, m) <==> has_month(group, y, m),
        forall|y: int| later_years(chronological(group), y) == later_years(group, y),
        forall|y: int, m: int|
            later_months(chronological(group), y, m) == later_months(group, y, m),
{
    let c = chronological(group);
    lemma_chronological(group);
    assert forall|y: int| has_year(c, y) <==> has_year(group, y) by {
        if has_year(c, y) {
            let j = choose|j: int| 0 <= j < c.len() && (#[trigger] c[j]).timestamp.year == y;
            assert(c.contains(c[j]));
            let k = choose|k: int| 0 <= k < group.len() && group[k] == c[j];
            assert(group[k].timestamp.year == y);
        }
        if has_year(group, y) {
            let j = choose|j: int|
                0 <= j < group.len() && (#[trigger] group[j]).timestamp.year == y;
            assert(group.contains(group[j]));
            let k = choose|k: int| 0 <= k < c.len() && c[k] == group[j];
            assert(c[k].timestamp.year == y);
        }
    }
    assert forall|y: int, m: int| has_month(c, y, m) <==> has_month(group, y, m) by {
        if has_month(c, y, m) {
            let j = choose|j: int|
                0 <= j < c.len() && (#[trigger] c[j]).timestamp.year == y && c[j].timestamp.month
                    == m;
            assert(c.contains(c[j]));
            let k = choose|k: int| 0 <= k < group.len() && group[k] == c[j];
            assert(group[k].timestamp.year == y && group[k].timestamp.month == m);
        }
        if has_month(group, y, m) {
            let j = choose|j: int|
                0 <= j < group.len() && (#[trigger] group[j]).timestamp.year == y
                    && group[j].timestamp.month == m;
            assert(group.contains(group[j]));
            let k = choose|k: int| 0 <= k < c.len() && c[k] == group[j];
            assert(c[k].timestamp.year == y && c[k].timestamp.month == m);
        }
    }
    assert forall|y: int| later_years(c, y) == later_years(group, y) by {
        assert(later_years(c, y) =~= later_years(group, y));
    }
    assert forall|y: int, m: int| later_months(c, y, m) == later_months(group, y, m) by {
        assert(later_months(c, y, m) =~= later_months(group, y, m));
    }
}

/// A group that holds no more records than the recent floor loses none.
pub proof fn lemma_small_group_loses_nothing(group: Seq<RecordView>, policy: RetentionPolicy)
    requires
        group.len() <= policy.recent_floor,
    ensures
        deletion_list(group, policy) == Seq::<RecordView>::empty(),
{
    let c = chronological(group);
    let list = deletion_list(group, policy);
    lemma_chronological(group);
    if list.len() > 0 {
        assert(list.contains(list[0]));
        lemma_deletions_from_contains(c, policy, 0, list[0]);
    }
    assert(list =~= Seq::<RecordView>::empty());
}

/// The `recent_floor` latest records of a group are never deleted: whatever
/// stands at one of the last `recent_floor` positions of the chronological
/// order is not on the deletion list.
pub proof fn lemma_recent_floor_never_deleted(
    group: Seq<RecordView>,
    policy: RetentionPolicy,
    i: int,
)
    requires
        group.no_duplicates(),
        0 <= i < group.len(),
        group.len() - policy.recent_floor <= i,
    ensures
        !deletion_list(group, policy).contains(chronological(group)[i]),
{
    lemma_chronological(group);
    lemma_retained_position_not_deleted(group, policy, i);
}

/// The earliest record of a year is never deleted while fewer than
/// `year_window` later years hold a record, that is, while the year is one
/// of the `year_window` latest years of the group.
pub proof fn lemma_annual_checkpoint_never_deleted(
    group: Seq<RecordView>,
    policy: RetentionPolicy,
    r: RecordView,
)
    requires
        group.no_duplicates(),
        earliest_of_year(group, r),
        later_years(group, r.timestamp.year as int).len() < policy.year_window,
    ensures
        !deletion_list(group, policy).contains(r),
{
    let c = chronological(group);
    lemma_chronological(group);
    lemma_calendar_of_chronological(group);
    lemma_record_order_total();
    let i = choose|i: int| 0 <= i < c.len() && c[i] == r;
    assert forall|j: int| 0 <= j < i implies (#[trigger] c[j]).timestamp.year
        != c[i].timestamp.year by {
        if c[j].timestamp.year == r.timestamp.year {
            assert(c.contains(c[j]));
            assert(record_order()(c[j], c[i]));
            assert(record_order()(c[i], c[j]));
        }
    }
    assert(opens_year(c, i));
    lemma_retained_position_not_deleted(group, policy, i);
}

/// The earliest record of a month of the latest year is never deleted while
/// fewer than `month_window` later months of that year hold a record, that
/// is, while the month is one of the `month_window` latest months of the
/// year. The month of the latest record counts as one of them.
pub proof fn lemma_monthly_checkpoint_never_deleted(
    group: Seq<RecordView>,
    policy: RetentionPolicy,
    r: RecordView,
)
    requires
        group.no_duplicates(),
        in_latest_year(group, r),
        earliest_of_month(group, r),
        later_months(group, r.timestamp.year as int, r.timestamp.month as int).len()
            < policy.month_window,
    ensures
        !deletion_list(group, policy).contains(r),
{
    let c = chronological(group);
    lemma_chronological(group);
    lemma_calendar_of_chronological(group);
    lemma_record_order_total();
    let i = choose|i: int| 0 <= i < c.len() && c[i] == r;
    lemma_latest_year_is_current(group, r);
    assert forall|j: int| 0 <= j < i implies !((#[trigger] c[j]).timestamp.year
        == c[i].timestamp.year && c[j].timestamp.month == c[i].timestamp.month) by {
        if c[j].timestamp.year == r.timestamp.year && c[j].timestamp.month == r.timestamp.month {
            assert(c.contains(c[j]));
            assert(record_order()(c[j], c[i]));
            assert(record_order()(c[i], c[j]));
        }
    }
    assert(opens_month(c, i));
    lemma_retained_position_not_deleted(group, policy, i);
}

/// No record of the latest month of the latest year is ever deleted.
pub proof fn lemma_current_month_never_deleted(
    group: Seq<RecordView>,
    policy: RetentionPolicy,
    r: RecordView,
)
    requires
        in_latest_month(group, r),
    ensures
        !deletion_list(group, policy).contains(r),
{
    let c = chronological(group);
    lemma_chronological(group);
    lemma_latest_year_is_current(group, r);
    let i = choose|i: int| 0 <= i < c.len() && c[i] == r;
    assert(c.contains(c.last()));
    lemma_ascending_calendar(c, i, c.len() - 1);
    lemma_deletions_from_contains(c, policy, 0, r);
    assert forall|k: int| 0 <= k < c.len() && c[k] == r implies retained_at(c, policy, k) by {
        assert(in_current_month(c, k));
    }
}

/// The year of a record of the latest year is the current year of the
/// chronological order.
pub proof fn lemma_latest_year_is_current(group: Seq<RecordView>, r: RecordView)
    requires
        in_latest_year(group, r),
    ensures
        r.timestamp.year == current_year(chronological(group)),
        in_latest_month(group, r) ==> r.timestamp.month == current_month(chronological(group)),
{
    let c = chronological(group);
    lemma_chronological(group);
    let i = choose|i: int| 0 <= i < c.len() && c[i] == r;
    assert(c.contains(c.last()));
    lemma_ascending_calendar(c, i, c.len() - 1);
}

/// Selection depends on which records a group holds, not on the order in
/// which they are handed over: two inputs with the same records have the
/// same deletion list, in the same order. Running selection again on an
/// unchanged group therefore gives the same list.
pub proof fn lemma_selection_ignores_input_order(
    a: Seq<RecordView>,
    b: Seq<RecordView>,
    policy: RetentionPolicy,
)
    requires
        a.to_multiset() == b.to_multiset(),
    ensures
        deletion_list(a, policy) == deletion_list(b, policy),
{
    lemma_chronological(a);
    lemma_chronological_unique(b, chronological(a));
}

} // verus!
