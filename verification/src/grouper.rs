//! Partitioning the records of a directory by target.

use crate::record::{views, BackupRecord, RecordView};
use vstd::prelude::*;

verus! {

/// The records of one target, in the order in which they were found.
#[derive(Clone, Debug, PartialEq, Eq)]
pub struct TargetGroup {
    pub target: String,
    pub records: Vec<BackupRecord>,
}

/// The mathematical content of a [`TargetGroup`].
pub struct GroupView {
    pub target: Seq<char>,
    pub records: Seq<RecordView>,
}

impl View for TargetGroup {
    type V = GroupView;

    open spec fn view(&self) -> GroupView {
        GroupView { target: self.target@, records: views(self.records@) }
    }
}

/// The views of a sequence of groups, in the same order.
pub open spec fn group_views(groups: Seq<TargetGroup>) -> Seq<GroupView> {
    groups.map_values(|g: TargetGroup| g@)
}

/// The condition of belonging to `target`.
pub open spec fn has_target(target: Seq<char>) -> spec_fn(RecordView) -> bool {
    |r: RecordView| r.target == target
}

/// The records of `records` that belong to `target`, in their order.
pub open spec fn of_target(records: Seq<RecordView>, target: Seq<char>) -> Seq<RecordView> {
    records.filter(has_target(target))
}

/// The targets that occur in `records`, each once, in the order of their
/// first occurrence.
pub open spec fn targets(records: Seq<RecordView>) -> Seq<Seq<char>>
    decreases records.len(),
{
    if records.len() == 0 {
        Seq::empty()
    } else {
        let earlier = targets(records.drop_last());
        if earlier.contains(records.last().target) {
            earlier
        } else {
            earlier.push(records.last().target)
        }
    }
}

/// The group of `target` within `records`.
pub open spec fn group_of(records: Seq<RecordView>) -> spec_fn(Seq<char>) -> GroupView {
    |target: Seq<char>| GroupView { target, records: of_target(records, target) }
}

/// The partition of `records` by target: one group for each target that
/// occurs, in the order of first occurrence, each holding the records of its
/// target in their order.
pub open spec fn grouped(records: Seq<RecordView>) -> Seq<GroupView> {
    targets(records).map_values(group_of(records))
}

/// Some record of `records` belongs to `target`.
pub open spec fn occurs(records: Seq<RecordView>, target: Seq<char>) -> bool {
    exists|i: int| 0 <= i < records.len() && (#[trigger] records[i]).target == target
}

/// `targets` lists every target that occurs, and none twice.
pub proof fn lemma_targets(records: Seq<RecordView>)
    ensures
        targets(records).no_duplicates(),
        forall|t: Seq<char>|
            #![trigger targets(records).contains(t)]
            #![trigger occurs(records, t)]
            targets(records).contains(t) <==> occurs(records, t),
    decreases records.len(),
{
    if records.len() > 0 {
        let front = records.drop_last();
        let last = records.last();
        let earlier = targets(front);
        lemma_targets(front);
        assert forall|t: Seq<char>| targets(records).contains(t) <==> occurs(records, t) by {
            if targets(records).contains(t) {
                if earlier.contains(t) {
                    assert(occurs(front, t));
                    let i = choose|i: int| 0 <= i < front.len() && (#[trigger] front[i]).target == t;
                    assert(records[i].target == t);
                } else {
                    let k = choose|k: int| 0 <= k < targets(records).len() && targets(records)[k] == t;
                    if k < earlier.len() {
                        assert(earlier[k] == t);
                    }
                    assert(records[records.len() - 1].target == t);
                }
            }
            if occurs(records, t) {
                let i = choose|i: int|
                    0 <= i < records.len() && (#[trigger] records[i]).target == t;
                if i < front.len() {
                    assert(front[i].target == t);
                    assert(occurs(front, t));
                }
                if earlier.contains(t) {
                    let k = choose|k: int| 0 <= k < earlier.len() && earlier[k] == t;
                    assert(targets(records)[k] == t);
                } else {
                    assert(targets(records)[earlier.len() as int] == t);
                }
            }
        }
    }
}

/// What a further record does to the partition: it joins the group of its
/// target, or opens a new last group where its target has not occurred.
pub proof fn lemma_grouped_push(records: Seq<RecordView>, r: RecordView)
    ensures
        targets(records).contains(r.target) ==> {
            let k = targets(records).index_of(r.target);
            &&& 0 <= k < grouped(records).len()
            &&& grouped(records)[k].target == r.target
            &&& grouped(records.push(r)) == grouped(records).update(
                k,
                GroupView { target: r.target, records: grouped(records)[k].records.push(r) },
            )
        },
        !targets(records).contains(r.target) ==> grouped(records.push(r)) == grouped(
            records,
        ).push(GroupView { target: r.target, records: seq![r] }),
{
    let more = records.push(r);
    assert(more.drop_last() =~= records);
    lemma_targets(records);
    assert forall|t: Seq<char>| #[trigger]
        of_target(more, t) == if t == r.target {
            of_target(records, t).push(r)
        } else {
            of_target(records, t)
        } by {
        records.lemma_filter_push(r, has_target(t));
    }
    if targets(records).contains(r.target) {
        let k = targets(records).index_of(r.target);
        assert(grouped(more) =~= grouped(records).update(
            k,
            GroupView { target: r.target, records: grouped(records)[k].records.push(r) },
        ));
    } else {
        assert(of_target(records, r.target).len() == 0) by {
            let found = of_target(records, r.target);
            if found.len() > 0 {
                records.lemma_filter_pred(has_target(r.target), 0);
                assert(found.contains(found[0]));
                records.lemma_filter_contains_rev(has_target(r.target), found[0]);
                let i = choose|i: int| 0 <= i < records.len() && records[i] == found[0];
                assert(records[i].target == r.target);
                assert(occurs(records, r.target));
            }
        }
        assert(of_target(records, r.target).push(r) =~= seq![r]);
        assert(grouped(more) =~= grouped(records).push(
            GroupView { target: r.target, records: seq![r] },
        ));
    }
}

/// Every group of the partition holds a record; it holds exactly the
/// records of its target; and no other group is of the same target.
pub proof fn lemma_groups_inhabited(records: Seq<RecordView>, k: int)
    requires
        0 <= k < grouped(records).len(),
    ensures
        grouped(records)[k].records.len() > 0,
        grouped(records)[k].records == of_target(records, grouped(records)[k].target),
        forall|j: int|
            0 <= j < grouped(records).len() && j != k ==> grouped(records)[j].target != grouped(
                records,
            )[k].target,
{
    lemma_targets(records);
    let t = targets(records)[k];
    assert(targets(records).contains(t));
    assert(occurs(records, t));
    let i = choose|i: int| 0 <= i < records.len() && (#[trigger] records[i]).target == t;
    assert(has_target(t)(records[i]));
    records.lemma_filter_contains(has_target(t), i);
}

/// The number of records that `groups` hold together.
pub open spec fn record_count(groups: Seq<GroupView>) -> nat
    decreases groups.len(),
{
    if groups.len() == 0 {
        0
    } else {
        record_count(groups.drop_last()) + groups.last().records.len()
    }
}

/// Replacing one group changes the count by the difference of the sizes.
proof fn lemma_record_count_update(groups: Seq<GroupView>, k: int, group: GroupView)
    requires
        0 <= k < groups.len(),
    ensures
        record_count(groups.update(k, group)) == record_count(groups) - groups[k].records.len()
            + group.records.len(),
    decreases groups.len(),
{
    let changed = groups.update(k, group);
    if k == groups.len() - 1 {
        assert(changed.drop_last() =~= groups.drop_last());
    } else {
        assert(changed.drop_last() =~= groups.drop_last().update(k, group));
        lemma_record_count_update(groups.drop_last(), k, group);
    }
}

/// Grouping neither drops nor repeats a record: the groups hold together as
/// many records as were handed over.
pub proof fn lemma_grouping_keeps_count(records: Seq<RecordView>)
    ensures
        record_count(grouped(records)) == records.len(),
    decreases records.len(),
{
    if records.len() > 0 {
        let front = records.drop_last();
        let last = records.last();
        lemma_grouping_keeps_count(front);
        lemma_grouped_push(front, last);
        assert(front.push(last) =~= records);
        if targets(front).contains(last.target) {
            let k = targets(front).index_of(last.target);
            lemma_record_count_update(
                grouped(front),
                k,
                GroupView { target: last.target, records: grouped(front)[k].records.push(last) },
            );
        } else {
            assert(grouped(records).drop_last() =~= grouped(front));
        }
    }
}

/// Partitions the records by target.
///
/// The result holds one group for every target that occurs, in the order of
/// first occurrence; a group holds all records of its target and no other,
/// in the order of the input.
pub fn group_by_target(records: Vec<BackupRecord>) -> (groups: Vec<TargetGroup>)
    ensures
        group_views(groups@) == grouped(views(records@)),
{
    let ghost all = views(records@);
    let mut groups: Vec<TargetGroup> = Vec::new();
    proof {
        assert(all.take(0) =~= Seq::<RecordView>::empty());
        assert(group_views(groups@) =~= grouped(all.take(0)));
    }
    for record in rest: records
        invariant
            views(rest.seq()) == all,
            group_views(groups@) == grouped(all.take(rest.index())),
    {
        let ghost seen = all.take(rest.index());
        proof {
            assert(record@ == all[rest.index()]);
            assert(all.take(rest.index() + 1) =~= seen.push(record@));
            lemma_grouped_push(seen, record@);
            lemma_targets(seen);
        }
        proof {
            assert(grouped(seen).len() == targets(seen).len());
        }
        let mut at: usize = 0;
        while at < groups.len() && groups[at].target != record.target
            invariant
                at <= groups.len() == targets(seen).len(),
                group_views(groups@) == grouped(seen),
                forall|j: int| 0 <= j < at ==> targets(seen)[j] != record@.target,
            decreases groups.len() - at,
        {
            proof {
                assert(group_views(groups@)[at as int] == group_of(seen)(targets(seen)[at as int]));
            }
            at += 1;
        }
        let ghost before_groups = group_views(groups@);
        let ghost before = groups@;
        if at < groups.len() {
            proof {
                assert(group_views(groups@)[at as int] == group_of(seen)(targets(seen)[at as int]));
                assert(targets(seen)[at as int] == record@.target);
                assert(targets(seen).contains(record@.target));
                assert(targets(seen).index_of(record@.target) == at);
            }
            groups[at].records.push(record);
            proof {
                assert(groups@.len() == before.len());
                assert(groups@[at as int].target == before[at as int].target);
                assert(groups@[at as int].records@ == before[at as int].records@.push(record));
                assert(views(groups@[at as int].records@) =~= views(before[at as int].records@).push(
                    record@,
                ));
                assert forall|j: int| 0 <= j < before.len() && j != at implies groups@[j]
                    == before[j] by {}
                assert(group_views(groups@) =~= before_groups.update(
                    at as int,
                    GroupView {
                        target: record@.target,
                        records: before_groups[at as int].records.push(record@),
                    },
                ));
            }
        } else {
            let mut first: Vec<BackupRecord> = Vec::new();
            let target = record.target.clone();
            first.push(record);
            proof {
                assert(views(first@) =~= seq![record@]);
            }
            groups.push(TargetGroup { target, records: first });
            proof {
                assert(group_views(groups@) =~= before_groups.push(
                    GroupView { target: record@.target, records: seq![record@] },
                ));
            }
        }
    }
    proof {
        assert(all.take(all.len() as int) =~= all);
    }
    groups
}

} // verus!
