//! How early the groups of a schedule take jobs, and where their jobs are found.

use crate::dag::JobId;
use crate::depend::{DependencyView, KeyView, Order};
use crate::groups::{
    after, clash_on, earliest, earliest_group, first_fit, free_of, group_count, history, idle,
    last_group, late_enough, lemma_count_bound, max_option, members, reads_key, recorded_in,
    some_reads, some_unknown, some_writes, strict_key, suits, takes, tracker_of, unknown_history,
    update_trackers, writes_key, Schedule, Tracker,
};
use crate::keys::KeyMap;
use crate::layout::{joined, joined_range, lemma_joined};
use crate::normalize::{
    clashes, consistent, has_unknown, joint_access, relation_of, some_pair, sorted_accesses, strict,
    touched, written, AccessView, NormalView, NormalizedDeps, Relation,
};
use crate::plan::all_consistent;
use vstd::prelude::*;

verus! {

/// The later of two groups is one of them, and none of them is later. There is none where there are
/// none.
pub proof fn the_later_group_is_kept(left: Option<u32>, right: Option<u32>, group: Option<u32>)
    requires
        call_ensures(max_option, (left, right), group),
    ensures
        group == left || group == right,
        left matches Some(left) ==> group is Some && left <= group->Some_0,
        right matches Some(right) ==> group is Some && right <= group->Some_0,
{
}

/// Whether a group comes after another one, where there is one.
pub open spec fn comes_after(group: int, other: Option<u32>) -> bool {
    match other {
        Some(other) => other < group,
        None => true,
    }
}

/// Whether a group comes directly after another one.
pub open spec fn comes_next(group: int, other: Option<u32>) -> bool {
    match other {
        Some(other) => other + 1 == group,
        None => false,
    }
}

/// The groups that an access has to come after: of the accesses to its key those that one of the two
/// writes, and where it is relaxed only the strict ones among these.
pub open spec fn behind(access: AccessView, tracker: Tracker) -> (Option<u32>, Option<u32>) {
    match (access.write, access.order) {
        (true, Order::Strict) => (tracker.last_read, tracker.last_write),
        (true, Order::Relax) => (tracker.last_strict_read, tracker.last_strict_write),
        (false, Order::Strict) => (None, tracker.last_write),
        (false, Order::Relax) => (None, tracker.last_strict_write),
    }
}

proof fn lemma_earliest_bounds(
    accesses: Seq<AccessView>,
    trackers: Map<KeyView, Tracker>,
    last_unknown: Option<u32>,
    until: int,
)
    requires
        0 <= until <= accesses.len(),
    ensures
        ({
            let group = earliest(accesses, trackers, last_unknown, until);
            &&& 0 <= group
            &&& comes_after(group, last_unknown)
            &&& forall|at: int|
                #![trigger accesses[at]]
                0 <= at < until && trackers.contains_key(accesses[at].key) ==> comes_after(
                    group,
                    behind(accesses[at], trackers[accesses[at].key]).0,
                ) && comes_after(group, behind(accesses[at], trackers[accesses[at].key]).1)
            &&& group == 0 || comes_next(group, last_unknown) || exists|at: int|
                #![trigger accesses[at]]
                0 <= at < until && trackers.contains_key(accesses[at].key) && (comes_next(
                    group,
                    behind(accesses[at], trackers[accesses[at].key]).0,
                ) || comes_next(group, behind(accesses[at], trackers[accesses[at].key]).1))
        }),
    decreases until,
{
    if until > 0 {
        lemma_earliest_bounds(accesses, trackers, last_unknown, until - 1);
        let before = earliest(accesses, trackers, last_unknown, until - 1);
        let access = accesses[until - 1];
        let own = after(tracker_of(trackers, access.key).predecessor(access));
        let group = earliest(accesses, trackers, last_unknown, until);
        if before < own {
            assert(trackers.contains_key(accesses[until - 1].key));
            assert(comes_next(group, behind(accesses[until - 1], trackers[access.key]).0)
                || comes_next(group, behind(accesses[until - 1], trackers[access.key]).1));
        } else if group != 0 && !comes_next(group, last_unknown) {
            let at = choose|at: int|
                #![trigger accesses[at]]
                0 <= at < until - 1 && trackers.contains_key(accesses[at].key) && (comes_next(
                    group,
                    behind(accesses[at], trackers[accesses[at].key]).0,
                ) || comes_next(group, behind(accesses[at], trackers[accesses[at].key]).1));
            assert(trackers.contains_key(accesses[at].key));
        }
    }
}

/// The group that is found for a job comes after the last job that depends on everything, and for
/// each of its accesses after those that it has to come after. It is the first such group. A job that
/// depends on everything comes after all groups.
pub proof fn the_earliest_group_is_found(
    dependencies: NormalizedDeps,
    trackers: KeyMap<Tracker>,
    last_unknown: Option<u32>,
    count: usize,
    group: u32,
)
    requires
        call_ensures(earliest_group, (&dependencies, &trackers, last_unknown, count), group),
    ensures
        match dependencies@ {
            NormalView::Unknown => group == count,
            NormalView::Known(accesses) => {
                &&& comes_after(group as int, last_unknown)
                &&& forall|at: int|
                    #![trigger accesses[at]]
                    0 <= at < accesses.len() && trackers@.contains_key(accesses[at].key)
                        ==> comes_after(
                        group as int,
                        behind(accesses[at], trackers@[accesses[at].key]).0,
                    ) && comes_after(
                        group as int,
                        behind(accesses[at], trackers@[accesses[at].key]).1,
                    )
                &&& group == 0 || comes_next(group as int, last_unknown) || exists|at: int|
                    #![trigger accesses[at]]
                    0 <= at < accesses.len() && trackers@.contains_key(accesses[at].key) && (
                    comes_next(group as int, behind(accesses[at], trackers@[accesses[at].key]).0)
                        || comes_next(
                        group as int,
                        behind(accesses[at], trackers@[accesses[at].key]).1,
                    ))
            },
        },
{
    if let NormalView::Known(accesses) = dependencies@ {
        lemma_earliest_bounds(accesses, trackers@, last_unknown, accesses.len() as int);
    }
}

/// The tracker of a key that no job accessed before.
pub open spec fn tracked_before(trackers: Map<KeyView, Tracker>, key: KeyView) -> Tracker {
    if trackers.contains_key(key) {
        trackers[key]
    } else {
        Tracker {
            last_read: None,
            last_write: None,
            last_strict_read: None,
            last_strict_write: None,
        }
    }
}

/// Whether a group is the later of another one, where there is one, and a given one.
pub open spec fn moves_up(now: Option<u32>, before: Option<u32>, group: u32) -> bool {
    match before {
        None => now == Some(group),
        Some(before) => now == Some(
            if before <= group {
                group
            } else {
                before
            },
        ),
    }
}

proof fn lemma_recorded_elsewhere(
    trackers: Map<KeyView, Tracker>,
    accesses: Seq<AccessView>,
    group: u32,
    until: int,
    key: KeyView,
)
    requires
        0 <= until <= accesses.len(),
        forall|at: int| 0 <= at < until ==> (#[trigger] accesses[at]).key != key,
    ensures
        ({
            let now = recorded_in(trackers, accesses, group, until);
            &&& now.contains_key(key) == trackers.contains_key(key)
            &&& trackers.contains_key(key) ==> now[key] == trackers[key]
        }),
    decreases until,
{
    if until > 0 {
        lemma_recorded_elsewhere(trackers, accesses, group, until - 1, key);
        assert(accesses[until - 1].key != key);
    }
}

/// Recording a job that was placed in a group moves the last group that reads or writes each key that
/// it accesses up to that group, also among the strict ones where the access is strict. What is known
/// of other keys stays, and a job that depends on everything leaves nothing but its group.
pub proof fn placed_jobs_are_recorded(
    dependencies: NormalizedDeps,
    group: u32,
    trackers: &mut KeyMap<Tracker>,
    last_unknown: &mut Option<u32>,
    at: int,
    key: KeyView,
)
    requires
        call_ensures(update_trackers, (&dependencies, group, trackers, last_unknown), ()),
        dependencies@ matches NormalView::Known(accesses) ==> sorted_accesses(accesses),
    ensures
        match dependencies@ {
            NormalView::Unknown => {
                &&& *final(last_unknown) == Some(group)
                &&& final(trackers)@ == old(trackers)@
            },
            NormalView::Known(accesses) => {
                &&& *final(last_unknown) == *old(last_unknown)
                &&& 0 <= at < accesses.len() ==> {
                    let access = accesses[at];
                    let before = tracked_before(old(trackers)@, access.key);
                    let now = final(trackers)@[access.key];
                    let strict = access.order == Order::Strict;
                    &&& final(trackers)@.contains_key(access.key)
                    &&& if access.write {
                        &&& moves_up(now.last_write, before.last_write, group)
                        &&& strict ==> moves_up(
                            now.last_strict_write,
                            before.last_strict_write,
                            group,
                        )
                        &&& !strict ==> now.last_strict_write == before.last_strict_write
                        &&& now.last_read == before.last_read
                        &&& now.last_strict_read == before.last_strict_read
                    } else {
                        &&& moves_up(now.last_read, before.last_read, group)
                        &&& strict ==> moves_up(
                            now.last_strict_read,
                            before.last_strict_read,
                            group,
                        )
                        &&& !strict ==> now.last_strict_read == before.last_strict_read
                        &&& now.last_write == before.last_write
                        &&& now.last_strict_write == before.last_strict_write
                    }
                }
                &&& (forall|other: int|
                    0 <= other < accesses.len() ==> (#[trigger] accesses[other]).key != key) ==> {
                    &&& final(trackers)@.contains_key(key) == old(trackers)@.contains_key(key)
                    &&& old(trackers)@.contains_key(key) ==> final(trackers)@[key]
                        == old(trackers)@[key]
                }
            },
        },
{
    if let NormalView::Known(accesses) = dependencies@ {
        let end = accesses.len() as int;
        let start = old(trackers)@;
        if forall|other: int|
            0 <= other < accesses.len() ==> (#[trigger] accesses[other]).key != key {
            lemma_recorded_elsewhere(start, accesses, group, end, key);
        }
        if 0 <= at < end {
            let own = accesses[at].key;
            assert forall|other: int| 0 <= other < at implies (#[trigger] accesses[other]).key
                != own by {
                accesses[other].key.before_is_irreflexive();
            }
            lemma_recorded_elsewhere(start, accesses, group, at, own);
            lemma_recorded_once(start, accesses, group, at, end);
        }
    }
}

proof fn lemma_recorded_once(
    trackers: Map<KeyView, Tracker>,
    accesses: Seq<AccessView>,
    group: u32,
    at: int,
    until: int,
)
    requires
        0 <= at < until <= accesses.len(),
        sorted_accesses(accesses),
    ensures
        ({
            let now = recorded_in(trackers, accesses, group, until);
            let first = recorded_in(trackers, accesses, group, at + 1);
            let key = accesses[at].key;
            &&& now.contains_key(key)
            &&& now[key] == first[key]
        }),
    decreases until,
{
    if at + 1 < until {
        lemma_recorded_once(trackers, accesses, group, at, until - 1);
        accesses[at].key.before_is_irreflexive();
        assert(accesses[at].key.before(accesses[until - 1].key));
    }
}

/// Where two jobs that do not depend on everything clash on a key, and one of them accesses it
/// strictly, they are strictly related.
proof fn lemma_strict_clash(left: Seq<DependencyView>, right: Seq<DependencyView>, key: KeyView)
    requires
        !has_unknown(left),
        !has_unknown(right),
        consistent(left),
        consistent(right),
        clash_on(left, right, key),
        strict_key(left, key) || strict_key(right, key),
    ensures
        relation_of(left, right) == Relation::Strict,
{
    let l_end = left.len() as int;
    let r_end = right.len() as int;
    lemma_touched(left, key);
    lemma_touched(right, key);
    if strict_key(left, key) {
        let l = choose|l: int|
            0 <= l < l_end && (#[trigger] left[l]).touches(key) && left[l].is_strict();
        let r = if left[l].writes() {
            choose|r: int| 0 <= r < r_end && (#[trigger] right[r]).touches(key)
        } else {
            lemma_only_reads(left, key, l);
            choose|r: int|
                0 <= r < r_end && (#[trigger] right[r]).touches(key) && right[r].writes()
        };
        assert(right[r].touches(key));
        assert(left[l].relation(right[r]) == Relation::Strict);
        assert(some_pair(left, right, Relation::Strict));
    } else {
        let r = choose|r: int|
            0 <= r < r_end && (#[trigger] right[r]).touches(key) && right[r].is_strict();
        let l = if right[r].writes() {
            choose|l: int| 0 <= l < l_end && (#[trigger] left[l]).touches(key)
        } else {
            lemma_only_reads(right, key, r);
            choose|l: int| 0 <= l < l_end && (#[trigger] left[l]).touches(key) && left[l].writes()
        };
        assert(left[l].touches(key));
        assert(left[l].relation(right[r]) == Relation::Strict);
        assert(some_pair(left, right, Relation::Strict));
    }
}

proof fn lemma_touched(dependencies: Seq<DependencyView>, key: KeyView)
    ensures
        written(dependencies, key, dependencies.len() as int) ==> touched(
            dependencies,
            key,
            dependencies.len() as int,
        ),
{
    if written(dependencies, key, dependencies.len() as int) {
        let at = choose|at: int|
            0 <= at < dependencies.len() && (#[trigger] dependencies[at]).touches(key)
                && dependencies[at].writes();
        assert(dependencies[at].touches(key));
    }
}

proof fn lemma_only_reads(dependencies: Seq<DependencyView>, key: KeyView, at: int)
    requires
        consistent(dependencies),
        0 <= at < dependencies.len(),
        dependencies[at].touches(key),
        !dependencies[at].writes(),
    ensures
        !written(dependencies, key, dependencies.len() as int),
{
    if written(dependencies, key, dependencies.len() as int) {
        let other = choose|other: int|
            0 <= other < dependencies.len() && (#[trigger] dependencies[other]).touches(key)
                && dependencies[other].writes();
        if other < at {
            assert(written(dependencies, key, at));
            assert(clashes(dependencies, key, at));
        } else {
            assert(dependencies[at].touches(key));
            assert(touched(dependencies, key, other));
            assert(clashes(dependencies, key, other));
        }
    }
}

proof fn lemma_last_group_is_somebodys(
    declared: Seq<Seq<DependencyView>>,
    placement: Seq<int>,
    kind: spec_fn(Seq<DependencyView>) -> bool,
    until: int,
) -> (job: int)
    requires
        0 <= until <= declared.len(),
        last_group(declared, placement, kind, until) is Some,
        forall|job: int| 0 <= job < until ==> 0 <= #[trigger] placement[job] <= u32::MAX,
    ensures
        0 <= job < until,
        kind(declared[job]),
        placement[job] == last_group(declared, placement, kind, until)->Some_0,
    decreases until,
{
    let last = until - 1;
    let before = last_group(declared, placement, kind, last);
    assert(0 <= placement[last] <= u32::MAX);
    if kind(declared[last]) && last_group(declared, placement, kind, until) == Some(
        placement[last] as u32,
    ) {
        last
    } else {
        lemma_last_group_is_somebodys(declared, placement, kind, last)
    }
}

proof fn lemma_count_is_somebodys(placement: Seq<int>, until: int) -> (job: int)
    requires
        0 < group_count(placement, until),
        until <= placement.len(),
    ensures
        0 <= job < until,
        placement[job] + 1 == group_count(placement, until),
    decreases until,
{
    let last = until - 1;
    if group_count(placement, until) == placement[last] + 1 {
        last
    } else {
        lemma_count_is_somebodys(placement, last)
    }
}

/// A job is placed as early as it may be. Each group before its own holds an earlier job that it is
/// related to, or comes no later than an earlier job that it is strictly related to.
pub proof fn jobs_are_placed_as_early_as_they_may(
    declared: Seq<Seq<DependencyView>>,
    placement: Seq<int>,
    job: int,
    group: int,
)
    requires
        all_consistent(declared),
        first_fit(declared, placement, declared.len() as int),
        placement.len() == declared.len() <= u32::MAX,
        0 <= job < declared.len(),
        0 <= group < placement[job],
    ensures
        exists|other: int|
            0 <= other < job && ((#[trigger] placement[other]) == group && relation_of(
                declared[other],
                declared[job],
            ) != Relation::Free || placement[other] >= group && relation_of(
                declared[other],
                declared[job],
            ) == Relation::Strict),
{
    let own = declared[job];
    lemma_count_bound(declared, placement, declared.len() as int);
    assert(!suits(declared, placement, job, group));
    assert(consistent(own));
    if !free_of(declared, members(placement, group, job), job) {
        let member = choose|member: JobId| #[trigger]
            members(placement, group, job).contains(member) && relation_of(
                declared[member as int],
                own,
            ) != Relation::Free;
        assert(placement[member as int] == group);
    } else if has_unknown(own) {
        let other = lemma_count_is_somebodys(placement, job);
        assert(relation_of(declared[other], own) == Relation::Strict);
        assert(placement[other] >= group);
    } else if after(unknown_history(declared, placement, job)) > group {
        let other = lemma_last_group_is_somebodys(
            declared,
            placement,
            |job: Seq<DependencyView>| has_unknown(job),
            job,
        );
        assert(relation_of(declared[other], own) == Relation::Strict);
        assert(placement[other] >= group);
    } else {
        assert(!late_enough(declared, placement, job, group));
        let end = own.len() as int;
        let key = choose|key: KeyView| #[trigger]
            touched(own, key, end) && after(
                history(declared, placement, key, job).predecessor(joint_access(own, key)),
            ) > group;
        let other = lemma_somebody_before(declared, placement, job, group, key);
        assert(placement[other] >= group);
    }
}

proof fn lemma_somebody_before(
    declared: Seq<Seq<DependencyView>>,
    placement: Seq<int>,
    job: int,
    group: int,
    key: KeyView,
) -> (other: int)
    requires
        all_consistent(declared),
        placement.len() == declared.len() <= u32::MAX,
        0 <= job < declared.len(),
        forall|at: int| 0 <= at < declared.len() ==> 0 <= #[trigger] placement[at] < u32::MAX,
        !has_unknown(declared[job]),
        0 <= group,
        touched(declared[job], key, declared[job].len() as int),
        after(
            history(declared, placement, key, job).predecessor(joint_access(declared[job], key)),
        ) > group,
    ensures
        0 <= other < job,
        placement[other] >= group,
        relation_of(declared[other], declared[job]) == Relation::Strict,
{
    let own = declared[job];
    let tracker = history(declared, placement, key, job);
    let access = joint_access(own, key);
    let found = tracker.predecessor(access);
    let reading = |job: Seq<DependencyView>| reads_key(job, key);
    let writing = |job: Seq<DependencyView>| writes_key(job, key);
    let reading_strictly = |job: Seq<DependencyView>| reads_key(job, key) && strict_key(job, key);
    let writing_strictly = |job: Seq<DependencyView>| writes_key(job, key) && strict_key(job, key);
    assert(tracker.last_read == last_group(declared, placement, reading, job));
    assert(tracker.last_write == last_group(declared, placement, writing, job));
    assert(tracker.last_strict_read == last_group(declared, placement, reading_strictly, job));
    assert(tracker.last_strict_write == last_group(declared, placement, writing_strictly, job));
    let other = if access.order == Order::Strict {
        if access.write && found == tracker.last_read {
            lemma_last_group_is_somebodys(declared, placement, reading, job)
        } else {
            lemma_last_group_is_somebodys(declared, placement, writing, job)
        }
    } else {
        if access.write && found == tracker.last_strict_read {
            lemma_last_group_is_somebodys(declared, placement, reading_strictly, job)
        } else {
            lemma_last_group_is_somebodys(declared, placement, writing_strictly, job)
        }
    };
    assert(consistent(declared[other]) && consistent(own));
    assert(clash_on(declared[other], own, key));
    lemma_strict_clash(declared[other], own, key);
    other
}

/// The groups of a schedule lie one after the other: each begins where the one before it ends, the
/// first at the first job, and the last ends at the last. What lies in a group is what its jobs are
/// to run, in their order.
pub proof fn groups_are_found_by_their_ranges<R>(
    schedule: Schedule<R>,
    runs: Seq<R>,
    groups: Seq<Seq<JobId>>,
    group: int,
    at: int,
)
    requires
        schedule.runs_groups(runs, groups),
        schedule.jobs@.len() <= u32::MAX,
        0 <= group < groups.len(),
        0 <= at < groups[group].len(),
    ensures
        ({
            let range = schedule.groups@[group].job_range;
            &&& schedule.groups@.len() == groups.len()
            &&& range.end - range.start == groups[group].len()
            &&& range.end <= schedule.jobs@.len()
            &&& schedule.jobs@[range.start + at] == runs[groups[group][at] as int]
            &&& group == 0 ==> range.start == 0
            &&& group > 0 ==> range.start == schedule.groups@[group - 1].job_range.end
            &&& group == groups.len() - 1 ==> range.end == schedule.jobs@.len()
        }),
{
    let end = groups.len() as int;
    let whole = joined(groups, end);
    lemma_joined(groups, group, end);
    let start = joined(groups, group).len() as int;
    assert(joined(groups, group + 1) == joined(groups, group) + groups[group]);
    assert(schedule.groups@[group].job_range == joined_range(groups, group));
    assert(whole.subrange(start, start + groups[group].len())[at] == groups[group][at]);
    assert(whole[start + at] == groups[group][at]);
    if group > 0 {
        assert(schedule.groups@[group - 1].job_range == joined_range(groups, group - 1));
    }
}

/// A group takes a job that does not depend on everything exactly where the job is related to none of
/// its jobs, and one that does exactly where none of its jobs depends on anything.
pub proof fn groups_take_unrelated_jobs(
    declared: Seq<Seq<DependencyView>>,
    members: Set<JobId>,
    job: int,
)
    ensures
        takes(declared, members, job) == if declared[job].contains(DependencyView::Unknown) {
            forall|member: JobId| #[trigger]
                members.contains(member) ==> declared[member as int].len() == 0
        } else {
            forall|member: JobId| #[trigger]
                members.contains(member) ==> relation_of(declared[member as int], declared[job])
                    == Relation::Free
        },
{
    lemma_unknown(declared[job]);
    assert forall|member: JobId| #[trigger]
        members.contains(member) && declared[member as int].len() > 0 implies !idle(
        declared,
        members,
    ) by {
        lemma_not_idle(declared, members, member);
    }
    if forall|member: JobId| #[trigger]
        members.contains(member) ==> declared[member as int].len() == 0 {
        assert forall|key: KeyView|
            !#[trigger] some_reads(declared, members, key) && !some_writes(
                declared,
                members,
                key,
            ) by {}
        assert(!some_unknown(declared, members));
    }
}

proof fn lemma_unknown(list: Seq<DependencyView>)
    ensures
        has_unknown(list) == list.contains(DependencyView::Unknown),
{
    if has_unknown(list) {
        let at = choose|at: int| 0 <= at < list.len() && #[trigger] list[at] is Unknown;
        assert(list[at] == DependencyView::Unknown);
    }
}

proof fn lemma_not_idle(declared: Seq<Seq<DependencyView>>, members: Set<JobId>, member: JobId)
    requires
        members.contains(member),
        declared[member as int].len() > 0,
    ensures
        !idle(declared, members),
{
    let list = declared[member as int];
    let end = list.len() as int;
    if has_unknown(list) {
        assert(some_unknown(declared, members));
    } else {
        assert(!(list[0] is Unknown));
        let key = match list[0] {
            DependencyView::Read(key, _) => key,
            DependencyView::Write(key, _) => key,
            DependencyView::Unknown => arbitrary(),
        };
        assert(list[0].touches(key));
        assert(touched(list, key, end));
        if written(list, key, end) {
            assert(writes_key(list, key));
            assert(some_writes(declared, members, key));
            assert(idle(declared, members) ==> !some_reads(declared, members, key));
            assert(idle(declared, members) ==> !some_writes(declared, members, key));
        } else {
            assert(reads_key(list, key));
            assert(some_reads(declared, members, key));
        }
    }
}

} // verus!
