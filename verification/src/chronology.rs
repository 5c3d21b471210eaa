//! Arranging the records of a group in chronological order.

use crate::record::{
    lemma_record_le_transitive, lemma_record_order_total, record_le, record_order, views,
    BackupRecord, RecordView,
};
use vstd::prelude::*;
use vstd::relations::{sorted_by, total_ordering};
use vstd::seq_lib::{
    lemma_multiset_commutative, lemma_sorted_unique, to_multiset_build, to_multiset_contains,
    to_multiset_len,
};

verus! {

/// The records of `group` from the earliest to the latest. The result depends
/// on which records the group holds, not on the order in which it lists them.
pub open spec fn chronological(group: Seq<RecordView>) -> Seq<RecordView> {
    group.sort_by(record_order())
}

/// `chronological(group)` is ascending and holds exactly the records of
/// `group`, each as often as `group` does.
pub proof fn lemma_chronological(group: Seq<RecordView>)
    ensures
        sorted_by(chronological(group), record_order()),
        chronological(group).to_multiset() == group.to_multiset(),
        chronological(group).len() == group.len(),
        forall|r: RecordView|
            #![trigger chronological(group).contains(r)]
            #![trigger group.contains(r)]
            chronological(group).contains(r) <==> group.contains(r),
        group.no_duplicates() ==> chronological(group).no_duplicates(),
{
    let c = chronological(group);
    lemma_record_order_total();
    group.lemma_sort_by_ensures(record_order());
    to_multiset_len(c);
    to_multiset_len(group);
    assert forall|r: RecordView| c.contains(r) <==> group.contains(r) by {
        to_multiset_contains(c, r);
        to_multiset_contains(group, r);
    }
    if group.no_duplicates() {
        group.lemma_multiset_has_no_duplicates();
        c.lemma_multiset_has_no_duplicates_conv();
    }
}

/// Any ascending arrangement of the records of `group` is the chronological
/// one.
pub proof fn lemma_chronological_unique(group: Seq<RecordView>, arranged: Seq<RecordView>)
    requires
        sorted_by(arranged, record_order()),
        arranged.to_multiset() == group.to_multiset(),
    ensures
        arranged == chronological(group),
{
    lemma_record_order_total();
    lemma_chronological(group);
    lemma_sorted_unique(arranged, chronological(group), record_order());
}

/// `s` runs from the latest record to the earliest.
spec fn descending(s: Seq<RecordView>) -> bool {
    forall|i: int, j: int| 0 <= i < j < s.len() ==> record_le(#[trigger] s[j], #[trigger] s[i])
}

/// Every record of `low` comes no later than every record of `high`.
spec fn all_no_later(low: Seq<RecordView>, high: Seq<RecordView>) -> bool {
    forall|i: int, j: int|
        0 <= i < low.len() && 0 <= j < high.len() ==> record_le(
            #[trigger] low[i],
            #[trigger] high[j],
        )
}

/// Merges two ascending sequences of records into one.
fn merge(left: Vec<BackupRecord>, right: Vec<BackupRecord>) -> (merged: Vec<BackupRecord>)
    requires
        sorted_by(views(left@), record_order()),
        sorted_by(views(right@), record_order()),
    ensures
        sorted_by(views(merged@), record_order()),
        views(merged@).to_multiset() == views(left@).to_multiset().add(
            views(right@).to_multiset(),
        ),
{
    let ghost all = views(left@).to_multiset().add(views(right@).to_multiset());
    let mut left = left;
    let mut right = right;
    // The records taken so far, the latest first.
    let mut falling: Vec<BackupRecord> = Vec::new();
    proof {
        lemma_record_order_total();
        assert(views(falling@) + views(left@) =~= views(left@));
        lemma_multiset_commutative(views(falling@), views(left@));
    }
    while left.len() > 0 || right.len() > 0
        invariant
            total_ordering(record_order()),
            sorted_by(views(left@), record_order()),
            sorted_by(views(right@), record_order()),
            descending(views(falling@)),
            all_no_later(views(left@), views(falling@)),
            all_no_later(views(right@), views(falling@)),
            views(falling@).to_multiset().add(views(left@).to_multiset()).add(
                views(right@).to_multiset(),
            ) == all,
        decreases left.len() + right.len(),
    {
        let ghost old_left = views(left@);
        let ghost old_right = views(right@);
        let ghost old_falling = views(falling@);
        let from_left: bool = if right.len() == 0 {
            true
        } else if left.len() == 0 {
            false
        } else {
            right[right.len() - 1].no_later_than(&left[left.len() - 1])
        };
        let record = if from_left {
            left.pop().unwrap()
        } else {
            right.pop().unwrap()
        };
        falling.push(record);
        proof {
            let now_left = views(left@);
            let now_right = views(right@);
            let now_falling = views(falling@);
            assert(now_falling =~= old_falling.push(record@));
            to_multiset_build(old_falling, record@);
            if from_left {
                assert(old_left =~= now_left.push(record@));
                assert(now_right =~= old_right);
                to_multiset_build(now_left, record@);
                assert(old_left[old_left.len() - 1] == record@);
            } else {
                assert(old_right =~= now_right.push(record@));
                assert(now_left =~= old_left);
                to_multiset_build(now_right, record@);
                assert(old_right[old_right.len() - 1] == record@);
                if old_left.len() > 0 {
                    assert(record_order()(old_right.last(), old_left.last()) || record_order()(
                        old_left.last(),
                        old_right.last(),
                    ));
                }
            }
            assert(now_falling.to_multiset().add(now_left.to_multiset()).add(
                now_right.to_multiset(),
            ) =~= all);
            assert forall|i: int, j: int| 0 <= i < j < now_left.len() implies #[trigger]
                record_order()(now_left[i], now_left[j]) by {
                assert(record_order()(old_left[i], old_left[j]));
            }
            assert forall|i: int, j: int| 0 <= i < j < now_right.len() implies #[trigger]
                record_order()(now_right[i], now_right[j]) by {
                assert(record_order()(old_right[i], old_right[j]));
            }
            assert forall|i: int, j: int| 0 <= i < j < now_falling.len() implies record_le(
                #[trigger] now_falling[j],
                #[trigger] now_falling[i],
            ) by {
                if j < old_falling.len() {
                    assert(record_le(old_falling[j], old_falling[i]));
                } else if from_left {
                    assert(record_le(old_left[old_left.len() - 1], old_falling[i]));
                } else {
                    assert(record_le(old_right[old_right.len() - 1], old_falling[i]));
                }
            }
            assert forall|i: int, j: int|
                0 <= i < now_left.len() && 0 <= j < now_falling.len() implies record_le(
                #[trigger] now_left[i],
                #[trigger] now_falling[j],
            ) by {
                assert(now_left[i] == old_left[i]);
                if j < old_falling.len() {
                    assert(record_le(old_left[i], old_falling[j]));
                } else if from_left {
                    assert(record_order()(old_left[i], old_left[old_left.len() - 1]));
                } else {
                    if i < old_left.len() - 1 {
                        assert(record_order()(old_left[i], old_left[old_left.len() - 1]));
                    } else {
                        assert(record_order()(old_left[i], old_left[i]));
                    }
                    assert(record_le(old_left.last(), record@));
                    lemma_record_le_transitive(old_left[i], old_left.last(), record@);
                }
            }
            assert forall|i: int, j: int|
                0 <= i < now_right.len() && 0 <= j < now_falling.len() implies record_le(
                #[trigger] now_right[i],
                #[trigger] now_falling[j],
            ) by {
                assert(now_right[i] == old_right[i]);
                if j < old_falling.len() {
                    assert(record_le(old_right[i], old_falling[j]));
                } else if from_left {
                    if i < old_right.len() - 1 {
                        assert(record_order()(old_right[i], old_right[old_right.len() - 1]));
                    } else {
                        assert(record_order()(old_right[i], old_right[i]));
                    }
                    assert(record_le(old_right.last(), record@));
                    lemma_record_le_transitive(old_right[i], old_right.last(), record@);
                } else {
                    assert(record_order()(old_right[i], old_right[old_right.len() - 1]));
                }
            }
        }
    }
    let mut merged: Vec<BackupRecord> = Vec::new();
    proof {
        assert(views(falling@) + views(left@) =~= views(falling@));
        lemma_multiset_commutative(views(falling@), views(left@));
        assert(views(falling@) + views(right@) =~= views(falling@));
        lemma_multiset_commutative(views(falling@), views(right@));
        assert(views(merged@) + views(falling@) =~= views(falling@));
        lemma_multiset_commutative(views(merged@), views(falling@));
    }
    while falling.len() > 0
        invariant
            sorted_by(views(merged@), record_order()),
            descending(views(falling@)),
            all_no_later(views(merged@), views(falling@)),
            views(merged@).to_multiset().add(views(falling@).to_multiset()) == all,
        decreases falling.len(),
    {
        let ghost old_merged = views(merged@);
        let ghost old_falling = views(falling@);
        let record = falling.pop().unwrap();
        merged.push(record);
        proof {
            let now_merged = views(merged@);
            let now_falling = views(falling@);
            assert(now_merged =~= old_merged.push(record@));
            assert(old_falling =~= now_falling.push(record@));
            to_multiset_build(old_merged, record@);
            to_multiset_build(now_falling, record@);
            assert(now_merged.to_multiset().add(now_falling.to_multiset()) =~= all);
            assert(old_falling[old_falling.len() - 1] == record@);
            assert forall|i: int, j: int| 0 <= i < j < now_falling.len() implies record_le(
                #[trigger] now_falling[j],
                #[trigger] now_falling[i],
            ) by {
                assert(record_le(old_falling[j], old_falling[i]));
            }
            assert forall|i: int, j: int| 0 <= i < j < now_merged.len() implies #[trigger]
                record_order()(now_merged[i], now_merged[j]) by {
                if j < old_merged.len() {
                    assert(record_order()(old_merged[i], old_merged[j]));
                } else {
                    assert(record_le(old_merged[i], old_falling[old_falling.len() - 1]));
                }
            }
            assert forall|i: int, j: int|
                0 <= i < now_merged.len() && 0 <= j < now_falling.len() implies record_le(
                #[trigger] now_merged[i],
                #[trigger] now_falling[j],
            ) by {
                assert(now_falling[j] == old_falling[j]);
                if i < old_merged.len() {
                    assert(record_le(old_merged[i], old_falling[j]));
                } else {
                    assert(record_le(old_falling[old_falling.len() - 1], old_falling[j]));
                }
            }
        }
    }
    proof {
        assert(views(merged@) + views(falling@) =~= views(merged@));
        lemma_multiset_commutative(views(merged@), views(falling@));
    }
    merged
}

/// Returns the records in chronological order.
pub fn sort_chronologically(records: Vec<BackupRecord>) -> (sorted: Vec<BackupRecord>)
    ensures
        views(sorted@) == chronological(views(records@)),
    decreases records.len(),
{
    let ghost group = views(records@);
    if records.len() <= 1 {
        proof {
            lemma_chronological_unique(group, group);
        }
        return records;
    }
    let mut left = records;
    let middle: usize = left.len() / 2;
    let right = left.split_off(middle);
    let ghost left_group = views(left@);
    let ghost right_group = views(right@);
    proof {
        assert(left_group + right_group =~= group);
        lemma_multiset_commutative(left_group, right_group);
        lemma_chronological(left_group);
        lemma_chronological(right_group);
    }
    let left = sort_chronologically(left);
    let right = sort_chronologically(right);
    let merged = merge(left, right);
    proof {
        lemma_chronological_unique(group, views(merged@));
    }
    merged
}

} // verus!
