//! The whole decision for one directory: group the records by target, select
//! within each group, and list what is to be deleted.

use crate::chronology::lemma_chronological;
use crate::grouper::{
    group_by_target, group_views, grouped, has_target, lemma_groups_inhabited, lemma_targets,
    occurs, of_target, targets, GroupView,
};
use crate::laws::lemma_deleted_records_are_members;
use crate::policy::RetentionPolicy;
use crate::record::{views, BackupRecord, RecordView};
use crate::selector::{deletion_list, select_deletions};
use vstd::prelude::*;

verus! {

/// The deletion lists of `groups`, one after the other.
pub open spec fn deletions_of_groups(groups: Seq<GroupView>, policy: RetentionPolicy) -> Seq<
    RecordView,
>
    decreases groups.len(),
{
    if groups.len() == 0 {
        Seq::empty()
    } else {
        deletions_of_groups(groups.drop_last(), policy) + deletion_list(
            groups.last().records,
            policy,
        )
    }
}

/// What is to be deleted from a directory that holds `records`: the deletion
/// list of every target, the targets in the order of their first occurrence.
pub open spec fn planned_deletions(records: Seq<RecordView>, policy: RetentionPolicy) -> Seq<
    RecordView,
> {
    deletions_of_groups(grouped(records), policy)
}

/// Decides what to delete from a directory that holds `records`.
///
/// Each target is judged by its own records alone.
pub fn plan_deletions(records: Vec<BackupRecord>, policy: &RetentionPolicy) -> (doomed: Vec<
    BackupRecord,
>)
    ensures
        views(doomed@) == planned_deletions(views(records@), *policy),
{
    let ghost all = views(records@);
    let groups = group_by_target(records);
    let ghost parts = grouped(all);
    let mut doomed: Vec<BackupRecord> = Vec::new();
    proof {
        assert(parts.take(0) =~= Seq::<GroupView>::empty());
        assert(views(doomed@) =~= deletions_of_groups(parts.take(0), *policy));
    }
    for group in rest: groups
        invariant
            group_views(rest.seq()) == parts,
            views(doomed@) == deletions_of_groups(parts.take(rest.index()), *policy),
    {
        let ghost done = parts.take(rest.index());
        let ghost before = views(doomed@);
        proof {
            assert(group@ == parts[rest.index()]);
            assert(parts.take(rest.index() + 1).drop_last() =~= done);
            lemma_chronological(group@.records);
        }
        match select_deletions(group.records, policy) {
            Ok(mut list) => {
                let ghost found = views(list@);
                doomed.append(&mut list);
                proof {
                    assert(views(doomed@) =~= before + found);
                }
            },
            Err(_) => {
                proof {
                    assert(before + deletion_list(group@.records, *policy) =~= before);
                }
            },
        }
    }
    proof {
        assert(parts.take(parts.len() as int) =~= parts);
    }
    doomed
}

/// A filter keeps a sequence whole if all its elements pass.
proof fn lemma_filter_all(s: Seq<RecordView>, pred: spec_fn(RecordView) -> bool)
    requires
        forall|i: int| 0 <= i < s.len() ==> pred(#[trigger] s[i]),
    ensures
        s.filter(pred) == s,
    decreases s.len(),
{
    reveal(Seq::filter);
    if s.len() > 0 {
        lemma_filter_all(s.drop_last(), pred);
        assert(s.drop_last().push(s.last()) =~= s);
    }
}

/// A filter leaves nothing of a sequence if none of its elements passes.
proof fn lemma_filter_none(s: Seq<RecordView>, pred: spec_fn(RecordView) -> bool)
    requires
        forall|i: int| 0 <= i < s.len() ==> !pred(#[trigger] s[i]),
    ensures
        s.filter(pred) == Seq::<RecordView>::empty(),
    decreases s.len(),
{
    reveal(Seq::filter);
    if s.len() > 0 {
        lemma_filter_none(s.drop_last(), pred);
    }
}

/// Every record on the deletion list of a target's records belongs to that
/// target.
proof fn lemma_deletions_keep_target(
    records: Seq<RecordView>,
    policy: RetentionPolicy,
    target: Seq<char>,
)
    ensures
        forall|i: int|
            0 <= i < deletion_list(of_target(records, target), policy).len() ==> (
            #[trigger] deletion_list(of_target(records, target), policy)[i]).target == target,
{
    let group = of_target(records, target);
    let list = deletion_list(group, policy);
    assert forall|i: int| 0 <= i < list.len() implies (#[trigger] list[i]).target == target by {
        assert(list.contains(list[i]));
        lemma_deleted_records_are_members(group, policy, list[i]);
        let k = choose|k: int| 0 <= k < group.len() && group[k] == list[i];
        records.lemma_filter_pred(has_target(target), k);
    }
}

/// Among the deletions of the first `count` groups, those of `target` are
/// the deletion list of the target's own group if it is one of them, and
/// none otherwise.
proof fn lemma_deletions_of_groups_by_target(
    records: Seq<RecordView>,
    policy: RetentionPolicy,
    target: Seq<char>,
    count: int,
)
    requires
        0 <= count <= grouped(records).len(),
    ensures
        of_target(deletions_of_groups(grouped(records).take(count), policy), target) == if targets(
            records,
        ).take(count).contains(target) {
            deletion_list(of_target(records, target), policy)
        } else {
            Seq::<RecordView>::empty()
        },
    decreases count,
{
    let parts = grouped(records);
    let names = targets(records);
    if count == 0 {
        assert(parts.take(0) =~= Seq::<GroupView>::empty());
        lemma_filter_none(Seq::<RecordView>::empty(), has_target(target));
    } else {
        let last = count - 1;
        let own = deletion_list(parts[last].records, policy);
        let front = deletions_of_groups(parts.take(last), policy);
        lemma_deletions_of_groups_by_target(records, policy, target, last);
        lemma_targets(records);
        assert(parts.take(count).drop_last() =~= parts.take(last));
        assert(parts.take(count).last() == parts[last]);
        assert(parts[last].records == of_target(records, names[last]));
        Seq::filter_distributes_over_add(front, own, has_target(target));
        lemma_deletions_keep_target(records, policy, names[last]);
        assert(names.take(count) =~= names.take(last).push(names[last]));
        if names[last] == target {
            lemma_filter_all(own, has_target(target));
            assert(!names.take(last).contains(target)) by {
                if names.take(last).contains(target) {
                    let j = choose|j: int| 0 <= j < last && names.take(last)[j] == target;
                    assert(names[j] == names[last]);
                }
            }
            assert(names.take(count)[last] == target);
            assert(Seq::<RecordView>::empty() + own =~= own);
        } else {
            lemma_filter_none(own, has_target(target));
            assert(front.filter(has_target(target)) + Seq::<RecordView>::empty()
                =~= front.filter(has_target(target)));
            assert(names.take(count).contains(target) <==> names.take(last).contains(target)) by {
                if names.take(count).contains(target) {
                    let j = choose|j: int| 0 <= j < count && names.take(count)[j] == target;
                    assert(names.take(last)[j] == target);
                }
                if names.take(last).contains(target) {
                    let j = choose|j: int| 0 <= j < last && names.take(last)[j] == target;
                    assert(names.take(count)[j] == target);
                }
            }
        }
    }
}

/// Selection for one target is independent of every other target: what a
/// directory loses of `target` is the deletion list of the records of
/// `target` alone.
pub proof fn lemma_each_target_judged_alone(
    records: Seq<RecordView>,
    policy: RetentionPolicy,
    target: Seq<char>,
)
    ensures
        of_target(planned_deletions(records, policy), target) == deletion_list(
            of_target(records, target),
            policy,
        ),
{
    let parts = grouped(records);
    let names = targets(records);
    lemma_deletions_of_groups_by_target(records, policy, target, parts.len() as int);
    assert(parts.take(parts.len() as int) =~= parts);
    assert(names.take(names.len() as int) =~= names);
    if !names.contains(target) {
        lemma_targets(records);
        let group = of_target(records, target);
        assert(group.len() == 0) by {
            if group.len() > 0 {
                records.lemma_filter_pred(has_target(target), 0);
                assert(group.contains(group[0]));
                records.lemma_filter_contains_rev(has_target(target), group[0]);
                let i = choose|i: int| 0 <= i < records.len() && records[i] == group[0];
                assert(records[i].target == target);
                assert(occurs(records, target));
            }
        }
        lemma_chronological(group);
    }
}

/// Records of other targets have no influence: two directories that hold the
/// same records of `target` lose the same records of `target`, whatever else
/// they hold.
pub proof fn lemma_other_targets_have_no_influence(
    a: Seq<RecordView>,
    b: Seq<RecordView>,
    policy: RetentionPolicy,
    target: Seq<char>,
)
    requires
        of_target(a, target) == of_target(b, target),
    ensures
        of_target(planned_deletions(a, policy), target) == of_target(
            planned_deletions(b, policy),
            target,
        ),
{
    lemma_each_target_judged_alone(a, policy, target);
    lemma_each_target_judged_alone(b, policy, target);
}

} // verus!
