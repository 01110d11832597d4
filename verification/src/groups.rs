//! Schedules that run groups of jobs one after the other.
//!
//! The jobs of a group do not conflict, so that they may run in any order and at the same time.
//! Each job goes to the first group that is late enough for it and that it does not conflict with.

use crate::dag::{ascending, lists, JobId};
use crate::depend::{DependencyView, KeyView, Order};
use crate::error::Error;
use crate::job::Job;
use crate::keys::KeyMap;
use crate::layout::{joined, joined_range};
use crate::normalize::{
    accesses_of, consistent, has_unknown, joint_access, normalizes, relation_of, sorted_accesses,
    strict, touched, written, Access, AccessView, NormalView, NormalizedDeps, Relation,
};
use crate::plan::{
    all_consistent, all_normalized, declarations, jobs_rejected_with, normalize_jobs, payloads,
};
use std::ops::Range;
use vstd::prelude::*;

verus! {

/// The last groups that hold a job which accessed a key.
#[derive(Debug, Copy, Clone, PartialEq, Eq, Structural)]
pub struct Tracker {
    pub last_read: Option<u32>,
    pub last_write: Option<u32>,
    pub last_strict_read: Option<u32>,
    pub last_strict_write: Option<u32>,
}

impl Default for Tracker {
    fn default() -> (tracker: Self)
        ensures
            tracker == Tracker::untouched(),
    {
        Tracker {
            last_read: None,
            last_write: None,
            last_strict_read: None,
            last_strict_write: None,
        }
    }
}

impl Tracker {
    /// The tracker of a key that no job has accessed.
    pub open spec fn untouched() -> Tracker {
        Tracker {
            last_read: None,
            last_write: None,
            last_strict_read: None,
            last_strict_write: None,
        }
    }

    /// The tracker once a job of `group` has accessed the key.
    pub open spec fn touched(self, access: AccessView, group: u32) -> Tracker {
        let strict = access.order == Order::Strict;
        if access.write {
            Tracker {
                last_write: later(self.last_write, Some(group)),
                last_strict_write: if strict {
                    later(self.last_strict_write, Some(group))
                } else {
                    self.last_strict_write
                },
                ..self
            }
        } else {
            Tracker {
                last_read: later(self.last_read, Some(group)),
                last_strict_read: if strict {
                    later(self.last_strict_read, Some(group))
                } else {
                    self.last_strict_read
                },
                ..self
            }
        }
    }

    /// The group that an access has to come after: a strict access after every access that it
    /// conflicts with, a relaxed one after the strict ones among them only.
    pub open spec fn predecessor(self, access: AccessView) -> Option<u32> {
        match (access.write, access.order) {
            (true, Order::Strict) => later(self.last_read, self.last_write),
            (true, Order::Relax) => later(self.last_strict_read, self.last_strict_write),
            (false, Order::Strict) => self.last_write,
            (false, Order::Relax) => self.last_strict_write,
        }
    }
}

/// The later of two groups, where there is one.
pub open spec fn later(left: Option<u32>, right: Option<u32>) -> Option<u32> {
    match (left, right) {
        (Some(left), Some(right)) => Some(
            if left < right {
                right
            } else {
                left
            },
        ),
        (Some(left), None) => Some(left),
        (None, right) => right,
    }
}

/// The later of two groups, where there is one.
pub fn max_option(left: Option<u32>, right: Option<u32>) -> (group: Option<u32>)
    ensures
        group == later(left, right),
{
    match (left, right) {
        (Some(left), Some(right)) => Some(
            if left < right {
                right
            } else {
                left
            },
        ),
        (Some(left), None) => Some(left),
        (None, right) => right,
    }
}

/// The tracker of a key, among trackers of the keys that have been accessed.
pub open spec fn tracker_of(trackers: Map<KeyView, Tracker>, key: KeyView) -> Tracker {
    if trackers.contains_key(key) {
        trackers[key]
    } else {
        Tracker::untouched()
    }
}

/// The first group after `group`, or the first group of all.
pub open spec fn after(group: Option<u32>) -> int {
    match group {
        Some(group) => group + 1,
        None => 0,
    }
}

/// The first group that is late enough for the first `until` accesses.
pub open spec fn earliest(
    accesses: Seq<AccessView>,
    trackers: Map<KeyView, Tracker>,
    last_unknown: Option<u32>,
    until: int,
) -> int
    decreases until,
{
    if until <= 0 {
        after(last_unknown)
    } else {
        let before = earliest(accesses, trackers, last_unknown, until - 1);
        let access = accesses[until - 1];
        let own = after(tracker_of(trackers, access.key).predecessor(access));
        if before < own {
            own
        } else {
            before
        }
    }
}

/// The first group that is late enough for a job.
pub open spec fn earliest_for(
    dependencies: NormalView,
    trackers: Map<KeyView, Tracker>,
    last_unknown: Option<u32>,
    group_count: int,
) -> int {
    match dependencies {
        NormalView::Unknown => group_count,
        NormalView::Known(accesses) => earliest(
            accesses,
            trackers,
            last_unknown,
            accesses.len() as int,
        ),
    }
}

/// Whether no tracker names the last group that can be named.
pub open spec fn trackers_below(
    trackers: Map<KeyView, Tracker>,
    last_unknown: Option<u32>,
    bound: int,
) -> bool {
    &&& after(last_unknown) <= bound
    &&& forall|key: KeyView| #[trigger]
        trackers.contains_key(key) ==> {
            &&& after(trackers[key].last_read) <= bound
            &&& after(trackers[key].last_write) <= bound
            &&& after(trackers[key].last_strict_read) <= bound
            &&& after(trackers[key].last_strict_write) <= bound
        }
}

/// The first group that is late enough for a job.
pub fn earliest_group(
    dependencies: &NormalizedDeps,
    trackers: &KeyMap<Tracker>,
    last_unknown: Option<u32>,
    group_count: usize,
) -> (group: u32)
    requires
        group_count <= u32::MAX,
        trackers_below(trackers@, last_unknown, u32::MAX as int),
    ensures
        group == earliest_for(dependencies@, trackers@, last_unknown, group_count as int),
{
    match dependencies {
        NormalizedDeps::Unknown => group_count as u32,
        NormalizedDeps::Known(accesses) => {
            let ghost views = dependencies@->Known_0;
            let mut group: u32 = match last_unknown {
                Some(group) => group + 1,
                None => 0,
            };
            for index in 0..accesses.len()
                invariant
                    dependencies@ == NormalView::Known(views),
                    views == accesses@.map_values(|access: Access| access@),
                    trackers_below(trackers@, last_unknown, u32::MAX as int),
                    group == earliest(views, trackers@, last_unknown, index as int),
            {
                let access = &accesses[index];
                assert(views[index as int] == access@);
                let tracker = match trackers.get(&access.key) {
                    Some(tracker) => *tracker,
                    None => Tracker::default(),
                };
                let predecessor = if access.write {
                    match access.order {
                        Order::Strict => max_option(tracker.last_read, tracker.last_write),
                        Order::Relax => max_option(
                            tracker.last_strict_read,
                            tracker.last_strict_write,
                        ),
                    }
                } else {
                    match access.order {
                        Order::Strict => tracker.last_write,
                        Order::Relax => tracker.last_strict_write,
                    }
                };
                if let Some(before) = predecessor {
                    if group < before + 1 {
                        group = before + 1;
                    }
                }
            }
            group
        },
    }
}

/// The trackers once a job with the first `until` accesses has been placed in `group`.
pub open spec fn recorded_in(
    trackers: Map<KeyView, Tracker>,
    accesses: Seq<AccessView>,
    group: u32,
    until: int,
) -> Map<KeyView, Tracker>
    decreases until,
{
    if until <= 0 {
        trackers
    } else {
        let before = recorded_in(trackers, accesses, group, until - 1);
        let access = accesses[until - 1];
        before.insert(access.key, tracker_of(before, access.key).touched(access, group))
    }
}

/// Records that a job has been placed in a group.
pub fn update_trackers(
    dependencies: &NormalizedDeps,
    group: u32,
    trackers: &mut KeyMap<Tracker>,
    last_unknown: &mut Option<u32>,
)
    ensures
        match dependencies@ {
            NormalView::Unknown => {
                &&& *final(last_unknown) == Some(group)
                &&& final(trackers)@ == old(trackers)@
            },
            NormalView::Known(accesses) => {
                &&& *final(last_unknown) == *old(last_unknown)
                &&& final(trackers)@ == recorded_in(
                    old(trackers)@,
                    accesses,
                    group,
                    accesses.len() as int,
                )
            },
        },
{
    match dependencies {
        NormalizedDeps::Unknown => {
            *last_unknown = Some(group);
        },
        NormalizedDeps::Known(accesses) => {
            let ghost views = dependencies@->Known_0;
            let ghost before = trackers@;
            for index in 0..accesses.len()
                invariant
                    views == accesses@.map_values(|access: Access| access@),
                    trackers@ == recorded_in(before, views, group, index as int),
            {
                let access = &accesses[index];
                assert(views[index as int] == access@);
                let mut tracker = match trackers.get(&access.key) {
                    Some(tracker) => *tracker,
                    None => Tracker::default(),
                };
                if access.write {
                    tracker.last_write = max_option(tracker.last_write, Some(group));
                    if access.order == Order::Strict {
                        tracker.last_strict_write = max_option(
                            tracker.last_strict_write,
                            Some(group),
                        );
                    }
                } else {
                    tracker.last_read = max_option(tracker.last_read, Some(group));
                    if access.order == Order::Strict {
                        tracker.last_strict_read = max_option(
                            tracker.last_strict_read,
                            Some(group),
                        );
                    }
                }
                trackers.insert(access.key.clone(), tracker);
            }
        },
    }
}

/// What the jobs of a group do with a key.
#[derive(Debug, Copy, Clone, PartialEq, Eq, Structural)]
pub struct GroupAccess {
    pub has_read: bool,
    pub has_write: bool,
}

/// What the jobs of a group do.
#[derive(Debug)]
pub struct GroupSummary {
    unknown: bool,
    accesses: KeyMap<GroupAccess>,
}

/// Whether a job that does not depend on everything reads a key and does not write it.
pub open spec fn reads_key(dependencies: Seq<DependencyView>, key: KeyView) -> bool {
    let end = dependencies.len() as int;
    !has_unknown(dependencies) && touched(dependencies, key, end) && !written(
        dependencies,
        key,
        end,
    )
}

/// Whether a job that does not depend on everything writes a key.
pub open spec fn writes_key(dependencies: Seq<DependencyView>, key: KeyView) -> bool {
    !has_unknown(dependencies) && written(dependencies, key, dependencies.len() as int)
}

/// Whether one of the jobs of a list reads a key and does not write it.
pub open spec fn some_reads(
    declared: Seq<Seq<DependencyView>>,
    members: Set<JobId>,
    key: KeyView,
) -> bool {
    exists|job: JobId| #[trigger]
        members.contains(job) && reads_key(declared[job as int], key)
}

/// Whether one of the jobs of a list writes a key.
pub open spec fn some_writes(
    declared: Seq<Seq<DependencyView>>,
    members: Set<JobId>,
    key: KeyView,
) -> bool {
    exists|job: JobId| #[trigger]
        members.contains(job) && writes_key(declared[job as int], key)
}

/// Whether one of the jobs of a list depends on everything.
pub open spec fn some_unknown(
    declared: Seq<Seq<DependencyView>>,
    members: Set<JobId>,
) -> bool {
    exists|job: JobId| #[trigger] members.contains(job) && has_unknown(declared[job as int])
}

impl GroupSummary {
    /// Whether the summary tells what the given jobs do.
    pub closed spec fn tells(
        self,
        declared: Seq<Seq<DependencyView>>,
        members: Set<JobId>,
    ) -> bool {
        &&& self.unknown == some_unknown(declared, members)
        &&& forall|key: KeyView| #[trigger]
            self.accesses@.contains_key(key) == (some_reads(declared, members, key) || some_writes(
                declared,
                members,
                key,
            ))
        &&& forall|key: KeyView| #[trigger]
            self.accesses@.contains_key(key) ==> self.accesses@[key].has_read == some_reads(
                declared,
                members,
                key,
            ) && self.accesses@[key].has_write == some_writes(declared, members, key)
    }
}

/// Whether a job does not conflict with any of a list.
pub open spec fn free_of(
    declared: Seq<Seq<DependencyView>>,
    members: Set<JobId>,
    job: int,
) -> bool {
    forall|member: JobId| #[trigger]
        members.contains(member) ==> relation_of(declared[member as int], declared[job])
            == Relation::Free
}

/// Whether none of the jobs of a list depends on anything.
pub open spec fn idle(declared: Seq<Seq<DependencyView>>, members: Set<JobId>) -> bool {
    !some_unknown(declared, members) && forall|key: KeyView|
        !#[trigger] some_reads(declared, members, key) && !some_writes(declared, members, key)
}

/// Whether a group with these jobs takes a job: a job that depends on everything wants an idle
/// group, any other one that it does not conflict with.
pub open spec fn takes(
    declared: Seq<Seq<DependencyView>>,
    members: Set<JobId>,
    job: int,
) -> bool {
    if has_unknown(declared[job]) {
        idle(declared, members)
    } else {
        free_of(declared, members, job)
    }
}

proof fn lemma_accesses(
    dependencies: Seq<DependencyView>,
    accesses: Seq<AccessView>,
    key: KeyView,
)
    requires
        !has_unknown(dependencies),
        accesses_of(dependencies, accesses),
    ensures
        reads_key(dependencies, key) == (exists|index: int|
            0 <= index < accesses.len() && (#[trigger] accesses[index]).key == key
                && !accesses[index].write),
        writes_key(dependencies, key) == (exists|index: int|
            0 <= index < accesses.len() && (#[trigger] accesses[index]).key == key
                && accesses[index].write),
{
    let end = dependencies.len() as int;
    if touched(dependencies, key, end) {
        let index = choose|index: int|
            0 <= index < accesses.len() && (#[trigger] accesses[index]).key == key;
        assert(accesses[index] == joint_access(dependencies, key));
        assert(accesses[index].key == key);
    }
    if written(dependencies, key, end) {
        let at = choose|at: int|
            0 <= at < end && (#[trigger] dependencies[at]).touches(key)
                && dependencies[at].writes();
        assert(dependencies[at].touches(key));
        assert(touched(dependencies, key, end));
    }
    assert forall|index: int|
        0 <= index < accesses.len() && (#[trigger] accesses[index]).key == key implies touched(
        dependencies,
        key,
        end,
    ) && accesses[index].write == written(dependencies, key, end) by {
        assert(accesses[index] == joint_access(dependencies, accesses[index].key));
    }
}

/// Whether one of two jobs writes a key that the other one reads or writes.
pub open spec fn clash_on(
    left: Seq<DependencyView>,
    right: Seq<DependencyView>,
    key: KeyView,
) -> bool {
    ||| writes_key(left, key) && (reads_key(right, key) || writes_key(right, key))
    ||| reads_key(left, key) && writes_key(right, key)
}

/// Two jobs that do not depend on everything conflict exactly where one of them writes a key that
/// the other one reads or writes.
proof fn lemma_free(left: Seq<DependencyView>, right: Seq<DependencyView>)
    requires
        !has_unknown(left),
        !has_unknown(right),
    ensures
        (relation_of(left, right) == Relation::Free) == (forall|key: KeyView|
            !#[trigger] clash_on(left, right, key)),
{
    let l_end = left.len() as int;
    let r_end = right.len() as int;
    if relation_of(left, right) != Relation::Free {
        let relation = relation_of(left, right);
        let (l, r) = choose|l: int, r: int|
            0 <= l < left.len() && 0 <= r < right.len() && (#[trigger] left[l]).relation(
                #[trigger] right[r],
            ) == relation;
        assert(!(left[l] is Unknown) && !(right[r] is Unknown));
        let key = match left[l] {
            DependencyView::Read(key, _) => key,
            DependencyView::Write(key, _) => key,
            _ => arbitrary(),
        };
        assert(left[l].touches(key) && right[r].touches(key));
        assert(touched(left, key, l_end) && touched(right, key, r_end));
        assert(left[l].writes() ==> written(left, key, l_end));
        assert(right[r].writes() ==> written(right, key, r_end));
        assert(clash_on(left, right, key));
    } else {
        assert forall|key: KeyView| !#[trigger] clash_on(left, right, key) by {
            if writes_key(left, key) && (reads_key(right, key) || writes_key(right, key)) {
                let l = choose|l: int|
                    0 <= l < l_end && (#[trigger] left[l]).touches(key) && left[l].writes();
                lemma_written_or_read(right, key);
                let r = choose|r: int| 0 <= r < r_end && (#[trigger] right[r]).touches(key);
                lemma_pair_conflicts(left, right, l, r, key);
            }
            if reads_key(left, key) && writes_key(right, key) {
                let l = choose|l: int| 0 <= l < l_end && (#[trigger] left[l]).touches(key);
                let r = choose|r: int|
                    0 <= r < r_end && (#[trigger] right[r]).touches(key) && right[r].writes();
                lemma_pair_conflicts(left, right, l, r, key);
            }
        }
    }
}

proof fn lemma_written_or_read(dependencies: Seq<DependencyView>, key: KeyView)
    requires
        reads_key(dependencies, key) || writes_key(dependencies, key),
    ensures
        touched(dependencies, key, dependencies.len() as int),
{
    if writes_key(dependencies, key) {
        let at = choose|at: int|
            0 <= at < dependencies.len() && (#[trigger] dependencies[at]).touches(key)
                && dependencies[at].writes();
        assert(dependencies[at].touches(key));
    }
}

proof fn lemma_pair_conflicts(
    left: Seq<DependencyView>,
    right: Seq<DependencyView>,
    l: int,
    r: int,
    key: KeyView,
)
    requires
        0 <= l < left.len(),
        0 <= r < right.len(),
        left[l].touches(key),
        right[r].touches(key),
        left[l].writes() || right[r].writes(),
    ensures
        relation_of(left, right) != Relation::Free,
{
    let pair = left[l].relation(right[r]);
    assert(pair == Relation::Strict || pair == Relation::Relaxed);
    assert(crate::normalize::some_pair(left, right, pair));
}

impl GroupSummary {
    /// The summary of a group without jobs.
    pub fn new() -> (summary: Self)
        ensures
            forall|declared: Seq<Seq<DependencyView>>| #[trigger]
                summary.tells(declared, Set::empty()),
    {
        GroupSummary { unknown: false, accesses: KeyMap::new() }
    }

    /// Whether the jobs of the group depend on nothing.
    pub fn is_empty(&self) -> (empty: bool)
        ensures
            forall|declared: Seq<Seq<DependencyView>>, members: Set<JobId>| #[trigger]
                self.tells(declared, members) ==> empty == idle(declared, members),
    {
        let empty = !self.unknown && self.accesses.is_empty();
        assert forall|declared: Seq<Seq<DependencyView>>, members: Set<JobId>| #[trigger]
            self.tells(declared, members) implies empty == idle(declared, members) by {
            if empty {
                assert forall|key: KeyView|
                    !#[trigger] some_reads(declared, members, key) && !some_writes(
                        declared,
                        members,
                        key,
                    ) by {
                    assert(!self.accesses@.contains_key(key));
                }
            } else if !self.unknown {
                let key = choose|key: KeyView| #[trigger] self.accesses@.contains_key(key);
                assert(some_reads(declared, members, key) || some_writes(declared, members, key));
            }
        }
        empty
    }

    /// Whether the group takes a job.
    pub fn is_compatible(
        &self,
        Ghost(declared): Ghost<Seq<Seq<DependencyView>>>,
        Ghost(members): Ghost<Set<JobId>>,
        Ghost(job): Ghost<int>,
        dependencies: &NormalizedDeps,
    ) -> (compatible: bool)
        requires
            self.tells(declared, members),
            normalizes(declared[job], dependencies@),
        ensures
            compatible == takes(declared, members, job),
    {
        let ghost own = declared[job];
        match dependencies {
            NormalizedDeps::Unknown => self.is_empty(),
            NormalizedDeps::Known(accesses) => {
                let ghost views = dependencies@->Known_0;
                if self.unknown {
                    proof {
                        let member = choose|member: JobId| #[trigger]
                            members.contains(member) && has_unknown(declared[member as int]);
                        assert(relation_of(declared[member as int], own) == Relation::Strict);
                    }
                    return false;
                }
                for index in 0..accesses.len()
                    invariant
                        self.tells(declared, members),
                        !self.unknown,
                        own == declared[job],
                        !has_unknown(own),
                        accesses_of(own, views),
                        dependencies@ == NormalView::Known(views),
                        views == accesses@.map_values(|access: Access| access@),
                        forall|at: int|
                            0 <= at < index ==> !some_writes(
                                declared,
                                members,
                                (#[trigger] views[at]).key,
                            ) && (views[at].write ==> !some_reads(
                                declared,
                                members,
                                views[at].key,
                            )),
                {
                    let access = &accesses[index];
                    assert(views[index as int] == access@);
                    let ghost key = access.key@;
                    let clash = match self.accesses.get(&access.key) {
                        Some(group) => group.has_write || access.write && group.has_read,
                        None => false,
                    };
                    if clash {
                        proof {
                            lemma_accesses(own, views, key);
                            assert(views[index as int].key == key);
                            if some_writes(declared, members, key) {
                                let member = choose|member: JobId| #[trigger]
                                    members.contains(member) && writes_key(
                                        declared[member as int],
                                        key,
                                    );
                                lemma_free(declared[member as int], own);
                                assert(clash_on(declared[member as int], own, key));
                                assert(!free_of(declared, members, job));
                            } else {
                                let member = choose|member: JobId| #[trigger]
                                    members.contains(member) && reads_key(
                                        declared[member as int],
                                        key,
                                    );
                                lemma_free(declared[member as int], own);
                                assert(clash_on(declared[member as int], own, key));
                                assert(!free_of(declared, members, job));
                            }
                        }
                        return false;
                    }
                    assert(self.accesses@.contains_key(key) || !self.accesses@.contains_key(key));
                }
                proof {
                    assert forall|member: JobId| #[trigger] members.contains(
                        member,
                    ) implies relation_of(declared[member as int], own) == Relation::Free by {
                        let other = declared[member as int];
                        assert(!has_unknown(other));
                        assert forall|key: KeyView| !#[trigger] clash_on(other, own, key) by {
                            lemma_accesses(own, views, key);
                            if reads_key(own, key) {
                                let at = choose|at: int|
                                    0 <= at < views.len() && (#[trigger] views[at]).key == key
                                        && !views[at].write;
                                assert(!some_writes(declared, members, views[at].key));
                            }
                            if writes_key(own, key) {
                                let at = choose|at: int|
                                    0 <= at < views.len() && (#[trigger] views[at]).key == key
                                        && views[at].write;
                                assert(!some_writes(declared, members, views[at].key));
                            }
                        }
                        lemma_free(other, own);
                    }
                }
                true
            },
        }
    }

    /// Adds a job to the group.
    pub fn insert(
        &mut self,
        Ghost(declared): Ghost<Seq<Seq<DependencyView>>>,
        Ghost(members): Ghost<Set<JobId>>,
        Ghost(job): Ghost<JobId>,
        dependencies: &NormalizedDeps,
    )
        requires
            old(self).tells(declared, members),
            normalizes(declared[job as int], dependencies@),
        ensures
            final(self).tells(declared, members.insert(job)),
    {
        let ghost own = declared[job as int];
        let ghost more = members.insert(job);
        proof {
            assert forall|key: KeyView|
                #![trigger some_reads(declared, more, key)]
                #![trigger some_writes(declared, more, key)]
                some_reads(declared, more, key) == (some_reads(declared, members, key) || reads_key(
                own,
                key,
            )) && some_writes(declared, more, key) == (some_writes(declared, members, key)
                || writes_key(own, key)) by {
                lemma_more_members(declared, members, job, key);
            }
            assert(some_unknown(declared, more) == (some_unknown(declared, members) || has_unknown(
                own,
            ))) by {
                if some_unknown(declared, members) {
                    let member = choose|member: JobId| #[trigger]
                        members.contains(member) && has_unknown(declared[member as int]);
                    assert(more.contains(member));
                }
                assert(more.contains(job));
                if some_unknown(declared, more) {
                    let member = choose|member: JobId| #[trigger]
                        more.contains(member) && has_unknown(declared[member as int]);
                    if member != job {
                        assert(members.contains(member));
                    }
                }
            }
        }
        match dependencies {
            NormalizedDeps::Unknown => {
                self.unknown = true;
                assert forall|key: KeyView| #[trigger]
                    self.accesses@.contains_key(key) == (some_reads(declared, more, key)
                        || some_writes(declared, more, key)) by {}
            },
            NormalizedDeps::Known(accesses) => {
                let ghost views = dependencies@->Known_0;
                let ghost before = self.accesses@;
                for index in 0..accesses.len()
                    invariant
                        own == declared[job as int],
                        !has_unknown(own),
                        accesses_of(own, views),
                        views == accesses@.map_values(|access: Access| access@),
                        self.unknown == old(self).unknown,
                        forall|key: KeyView| #[trigger]
                            self.accesses@.contains_key(key) == (before.contains_key(key)
                                || some_access(views, key, index as int, true) || some_access(
                                views,
                                key,
                                index as int,
                                false,
                            )),
                        forall|key: KeyView| #[trigger]
                            self.accesses@.contains_key(key) ==> self.accesses@[key].has_read == (
                            before.contains_key(key) && before[key].has_read || some_access(
                                views,
                                key,
                                index as int,
                                false,
                            )) && self.accesses@[key].has_write == (before.contains_key(key)
                                && before[key].has_write || some_access(
                                views,
                                key,
                                index as int,
                                true,
                            )),
                {
                    let access = &accesses[index];
                    assert(views[index as int] == access@);
                    let ghost middle = self.accesses@;
                    let mut entry = match self.accesses.get(&access.key) {
                        Some(entry) => *entry,
                        None => GroupAccess { has_read: false, has_write: false },
                    };
                    if access.write {
                        entry.has_write = true;
                    } else {
                        entry.has_read = true;
                    }
                    self.accesses.insert(access.key.clone(), entry);
                    proof {
                        assert forall|key: KeyView, write: bool| #[trigger]
                            some_access(views, key, index + 1, write) == (some_access(
                                views,
                                key,
                                index as int,
                                write,
                            ) || key == access.key@ && write == access.write) by {
                            lemma_some_access(views, key, index as int, write);
                        }
                        assert forall|key: KeyView| #[trigger]
                            self.accesses@.contains_key(key) implies middle.contains_key(key) || key
                            == access.key@ by {}
                    }
                }
                proof {
                    let end = views.len() as int;
                    assert forall|key: KeyView|
                        #![trigger some_access(views, key, end, true)]
                        #![trigger some_access(views, key, end, false)]
                        some_access(views, key, end, true) == writes_key(own, key) && some_access(
                        views,
                        key,
                        end,
                        false,
                    ) == reads_key(own, key) by {
                        lemma_accesses(own, views, key);
                    }
                    assert forall|key: KeyView| #[trigger]
                        self.accesses@.contains_key(key) == (some_reads(declared, more, key)
                            || some_writes(declared, more, key)) by {
                        assert(some_access(views, key, end, true) == writes_key(own, key));
                        assert(before.contains_key(key) == (some_reads(declared, members, key)
                            || some_writes(declared, members, key)));
                    }
                    assert forall|key: KeyView| #[trigger]
                        self.accesses@.contains_key(key) implies self.accesses@[key].has_read
                        == some_reads(declared, more, key) && self.accesses@[key].has_write
                        == some_writes(declared, more, key) by {
                        assert(some_access(views, key, end, true) == writes_key(own, key));
                        assert(before.contains_key(key) == (some_reads(declared, members, key)
                            || some_writes(declared, members, key)));
                    }
                }
            },
        }
    }
}

/// Whether one of the first `until` accesses is to a key, and writes or not.
spec fn some_access(accesses: Seq<AccessView>, key: KeyView, until: int, write: bool) -> bool {
    exists|index: int|
        0 <= index < until && (#[trigger] accesses[index]).key == key && accesses[index].write
            == write
}

proof fn lemma_some_access(accesses: Seq<AccessView>, key: KeyView, until: int, write: bool)
    requires
        0 <= until < accesses.len(),
    ensures
        some_access(accesses, key, until + 1, write) == (some_access(accesses, key, until, write)
            || accesses[until].key == key && accesses[until].write == write),
{
    if some_access(accesses, key, until, write) {
        let index = choose|index: int|
            0 <= index < until && (#[trigger] accesses[index]).key == key && accesses[index].write
                == write;
        assert(accesses[index].key == key);
    }
}

proof fn lemma_more_members(
    declared: Seq<Seq<DependencyView>>,
    members: Set<JobId>,
    job: JobId,
    key: KeyView,
)
    ensures
        some_reads(declared, members.insert(job), key) == (some_reads(declared, members, key)
            || reads_key(declared[job as int], key)),
        some_writes(declared, members.insert(job), key) == (some_writes(declared, members, key)
            || writes_key(declared[job as int], key)),
{
    let more = members.insert(job);
    assert(more.contains(job));
    if some_reads(declared, members, key) {
        let member = choose|member: JobId| #[trigger]
            members.contains(member) && reads_key(declared[member as int], key);
        assert(more.contains(member));
    }
    if some_writes(declared, members, key) {
        let member = choose|member: JobId| #[trigger]
            members.contains(member) && writes_key(declared[member as int], key);
        assert(more.contains(member));
    }
    if some_reads(declared, more, key) {
        let member = choose|member: JobId| #[trigger]
            more.contains(member) && reads_key(declared[member as int], key);
        if member != job {
            assert(members.contains(member));
        }
    }
    if some_writes(declared, more, key) {
        let member = choose|member: JobId| #[trigger]
            more.contains(member) && writes_key(declared[member as int], key);
        if member != job {
            assert(members.contains(member));
        }
    }
}

/// The last group that holds one of the first `until` jobs that are of a kind, where there is one.
pub open spec fn last_group(
    declared: Seq<Seq<DependencyView>>,
    placement: Seq<int>,
    kind: spec_fn(Seq<DependencyView>) -> bool,
    until: int,
) -> Option<u32>
    decreases until,
{
    if until <= 0 {
        None
    } else {
        let before = last_group(declared, placement, kind, until - 1);
        if kind(declared[until - 1]) {
            later(before, Some(placement[until - 1] as u32))
        } else {
            before
        }
    }
}

/// Whether a job accesses a key under a strict order.
pub open spec fn strict_key(dependencies: Seq<DependencyView>, key: KeyView) -> bool {
    strict(dependencies, key, dependencies.len() as int)
}

/// The last groups that hold one of the first `until` jobs that accessed a key.
pub open spec fn history(
    declared: Seq<Seq<DependencyView>>,
    placement: Seq<int>,
    key: KeyView,
    until: int,
) -> Tracker {
    Tracker {
        last_read: last_group(
            declared,
            placement,
            |job: Seq<DependencyView>| reads_key(job, key),
            until,
        ),
        last_write: last_group(
            declared,
            placement,
            |job: Seq<DependencyView>| writes_key(job, key),
            until,
        ),
        last_strict_read: last_group(
            declared,
            placement,
            |job: Seq<DependencyView>| reads_key(job, key) && strict_key(job, key),
            until,
        ),
        last_strict_write: last_group(
            declared,
            placement,
            |job: Seq<DependencyView>| writes_key(job, key) && strict_key(job, key),
            until,
        ),
    }
}

/// The last group that holds one of the first `until` jobs that depend on everything.
pub open spec fn unknown_history(
    declared: Seq<Seq<DependencyView>>,
    placement: Seq<int>,
    until: int,
) -> Option<u32> {
    last_group(declared, placement, |job: Seq<DependencyView>| has_unknown(job), until)
}

/// How many groups the first `until` jobs are placed in.
pub open spec fn group_count(placement: Seq<int>, until: int) -> int
    decreases until,
{
    if until <= 0 {
        0
    } else {
        let before = group_count(placement, until - 1);
        if before < placement[until - 1] + 1 {
            placement[until - 1] + 1
        } else {
            before
        }
    }
}

/// Those of the first `until` jobs that are placed in a group.
pub open spec fn members(placement: Seq<int>, group: int, until: int) -> Set<JobId> {
    Set::new(|job: JobId| job < until && placement[job as int] == group)
}

/// Whether a group is late enough for a job: it comes after those of earlier jobs that the job has
/// to follow, or after all groups where the job depends on everything.
pub open spec fn late_enough(
    declared: Seq<Seq<DependencyView>>,
    placement: Seq<int>,
    job: int,
    group: int,
) -> bool {
    if has_unknown(declared[job]) {
        group_count(placement, job) <= group
    } else {
        &&& after(unknown_history(declared, placement, job)) <= group
        &&& forall|key: KeyView| #[trigger]
            touched(declared[job], key, declared[job].len() as int) ==> after(
                history(declared, placement, key, job).predecessor(
                    joint_access(declared[job], key),
                ),
            ) <= group
    }
}

/// Whether a group suits a job: it is late enough, and the job conflicts with none of the earlier
/// jobs in it.
pub open spec fn suits(
    declared: Seq<Seq<DependencyView>>,
    placement: Seq<int>,
    job: int,
    group: int,
) -> bool {
    &&& 0 <= group
    &&& late_enough(declared, placement, job, group)
    &&& free_of(declared, members(placement, group, job), job)
}

/// Whether each of the first `until` jobs is placed in the first group that suits it.
pub open spec fn first_fit(
    declared: Seq<Seq<DependencyView>>,
    placement: Seq<int>,
    until: int,
) -> bool {
    forall|job: int|
        #![trigger placement[job]]
        0 <= job < until ==> suits(declared, placement, job, placement[job]) && forall|group: int|
            0 <= group < placement[job] ==> !#[trigger] suits(declared, placement, job, group)
}

/// Whether `groups` holds, in order, the jobs of each group.
pub open spec fn grouped_by(placement: Seq<int>, groups: Seq<Seq<JobId>>) -> bool {
    &&& groups.len() == group_count(placement, placement.len() as int)
    &&& forall|group: int|
        #![trigger groups[group]]
        0 <= group < groups.len() ==> ascending(groups[group]) && forall|job: JobId| #[trigger]
            groups[group].contains(job) == members(
                placement,
                group,
                placement.len() as int,
            ).contains(job)
}

proof fn lemma_last_group_prefix(
    declared: Seq<Seq<DependencyView>>,
    placement: Seq<int>,
    group: int,
    kind: spec_fn(Seq<DependencyView>) -> bool,
    until: int,
)
    requires
        until <= placement.len(),
    ensures
        last_group(declared, placement.push(group), kind, until) == last_group(
            declared,
            placement,
            kind,
            until,
        ),
    decreases until,
{
    if until > 0 {
        lemma_last_group_prefix(declared, placement, group, kind, until - 1);
    }
}

proof fn lemma_last_group_bound(
    declared: Seq<Seq<DependencyView>>,
    placement: Seq<int>,
    kind: spec_fn(Seq<DependencyView>) -> bool,
    until: int,
    bound: int,
)
    requires
        until <= placement.len(),
        bound <= u32::MAX,
        forall|job: int| 0 <= job < until ==> 0 <= #[trigger] placement[job] < bound,
        0 <= bound,
    ensures
        after(last_group(declared, placement, kind, until)) <= bound,
    decreases until,
{
    if until > 0 {
        lemma_last_group_bound(declared, placement, kind, until - 1, bound);
        assert(placement[until - 1] < bound);
    }
}

proof fn lemma_group_count(placement: Seq<int>, until: int)
    requires
        0 <= until <= placement.len(),
        forall|job: int| 0 <= job < until ==> 0 <= #[trigger] placement[job],
    ensures
        0 <= group_count(placement, until),
        forall|job: int|
            0 <= job < until ==> #[trigger] placement[job] < group_count(placement, until),
    decreases until,
{
    if until > 0 {
        lemma_group_count(placement, until - 1);
    }
}

proof fn lemma_group_count_prefix(placement: Seq<int>, group: int, until: int)
    requires
        until <= placement.len(),
    ensures
        group_count(placement.push(group), until) == group_count(placement, until),
    decreases until,
{
    if until > 0 {
        lemma_group_count_prefix(placement, group, until - 1);
    }
}

proof fn lemma_earliest(
    accesses: Seq<AccessView>,
    trackers: Map<KeyView, Tracker>,
    last_unknown: Option<u32>,
    until: int,
    group: int,
)
    requires
        0 <= until <= accesses.len(),
    ensures
        (earliest(accesses, trackers, last_unknown, until) <= group) == (after(last_unknown)
            <= group && forall|index: int|
            0 <= index < until ==> after(
                tracker_of(trackers, (#[trigger] accesses[index]).key).predecessor(accesses[index]),
            ) <= group),
    decreases until,
{
    if until > 0 {
        lemma_earliest(accesses, trackers, last_unknown, until - 1, group);
    }
}

proof fn lemma_recorded(
    trackers: Map<KeyView, Tracker>,
    accesses: Seq<AccessView>,
    group: u32,
    until: int,
    key: KeyView,
)
    requires
        sorted_accesses(accesses),
        0 <= until <= accesses.len(),
    ensures
        forall|index: int|
            0 <= index < until && (#[trigger] accesses[index]).key == key ==> tracker_of(
                recorded_in(trackers, accesses, group, until),
                key,
            ) == tracker_of(trackers, key).touched(accesses[index], group),
        (forall|index: int| 0 <= index < until ==> (#[trigger] accesses[index]).key != key)
            ==> tracker_of(recorded_in(trackers, accesses, group, until), key) == tracker_of(
            trackers,
            key,
        ),
    decreases until,
{
    if until > 0 {
        lemma_recorded(trackers, accesses, group, until - 1, key);
        let last = accesses[until - 1];
        let before = recorded_in(trackers, accesses, group, until - 1);
        let after = recorded_in(trackers, accesses, group, until);
        if last.key == key {
            assert forall|index: int| 0 <= index < until - 1 implies (
            #[trigger] accesses[index]).key != key by {
                assert(accesses[index].key.before(accesses[until - 1].key));
                key.before_is_irreflexive();
            }
            assert(tracker_of(before, key) == tracker_of(trackers, key));
        } else {
            assert(tracker_of(after, key) == tracker_of(before, key));
        }
    }
}

/// Placing one more job leaves the histories of the earlier ones as they are.
proof fn lemma_history_prefix(
    declared: Seq<Seq<DependencyView>>,
    placement: Seq<int>,
    group: int,
    key: KeyView,
    until: int,
)
    requires
        until <= placement.len(),
    ensures
        history(declared, placement.push(group), key, until) == history(
            declared,
            placement,
            key,
            until,
        ),
{
    lemma_last_group_prefix(
        declared,
        placement,
        group,
        |job: Seq<DependencyView>| reads_key(job, key),
        until,
    );
    lemma_last_group_prefix(
        declared,
        placement,
        group,
        |job: Seq<DependencyView>| writes_key(job, key),
        until,
    );
    lemma_last_group_prefix(
        declared,
        placement,
        group,
        |job: Seq<DependencyView>| reads_key(job, key) && strict_key(job, key),
        until,
    );
    lemma_last_group_prefix(
        declared,
        placement,
        group,
        |job: Seq<DependencyView>| writes_key(job, key) && strict_key(job, key),
        until,
    );
}

proof fn lemma_suits_prefix(
    declared: Seq<Seq<DependencyView>>,
    placement: Seq<int>,
    more: int,
    job: int,
    group: int,
)
    requires
        0 <= job <= placement.len(),
    ensures
        suits(declared, placement.push(more), job, group) == suits(
            declared,
            placement,
            job,
            group,
        ),
{
    let longer = placement.push(more);
    lemma_group_count_prefix(placement, more, job);
    lemma_last_group_prefix(
        declared,
        placement,
        more,
        |job: Seq<DependencyView>| has_unknown(job),
        job,
    );
    assert forall|key: KeyView| history(declared, longer, key, job) == #[trigger] history(
        declared,
        placement,
        key,
        job,
    ) by {
        lemma_history_prefix(declared, placement, more, key, job);
    }
    assert(members(longer, group, job) =~= members(placement, group, job));
    if late_enough(declared, longer, job, group) && !has_unknown(declared[job]) {
        assert forall|key: KeyView| #[trigger]
            touched(declared[job], key, declared[job].len() as int) implies after(
            history(declared, placement, key, job).predecessor(joint_access(declared[job], key)),
        ) <= group by {
            assert(history(declared, longer, key, job) == history(declared, placement, key, job));
        }
    }
    if late_enough(declared, placement, job, group) && !has_unknown(declared[job]) {
        assert forall|key: KeyView| #[trigger]
            touched(declared[job], key, declared[job].len() as int) implies after(
            history(declared, longer, key, job).predecessor(joint_access(declared[job], key)),
        ) <= group by {
            assert(history(declared, longer, key, job) == history(declared, placement, key, job));
        }
    }
}

/// The trackers tell the histories of the first `until` jobs.
spec fn trackers_tell(
    declared: Seq<Seq<DependencyView>>,
    placement: Seq<int>,
    trackers: Map<KeyView, Tracker>,
    last_unknown: Option<u32>,
    until: int,
) -> bool {
    &&& last_unknown == unknown_history(declared, placement, until)
    &&& forall|key: KeyView| #[trigger]
        tracker_of(trackers, key) == history(declared, placement, key, until)
}

proof fn lemma_trackers_below(
    declared: Seq<Seq<DependencyView>>,
    placement: Seq<int>,
    trackers: Map<KeyView, Tracker>,
    last_unknown: Option<u32>,
    until: int,
    bound: int,
)
    requires
        trackers_tell(declared, placement, trackers, last_unknown, until),
        0 <= until <= placement.len(),
        0 <= bound <= u32::MAX,
        forall|job: int| 0 <= job < until ==> 0 <= #[trigger] placement[job] < bound,
    ensures
        trackers_below(trackers, last_unknown, bound),
        forall|key: KeyView, access: AccessView|
            after(#[trigger] tracker_of(trackers, key).predecessor(access)) <= bound,
{
    lemma_last_group_bound(
        declared,
        placement,
        |job: Seq<DependencyView>| has_unknown(job),
        until,
        bound,
    );
    assert forall|key: KeyView|
        after((#[trigger] tracker_of(trackers, key)).last_read) <= bound && after(
            tracker_of(trackers, key).last_write,
        ) <= bound && after(tracker_of(trackers, key).last_strict_read) <= bound && after(
            tracker_of(trackers, key).last_strict_write,
        ) <= bound by {
        lemma_last_group_bound(
            declared,
            placement,
            |job: Seq<DependencyView>| reads_key(job, key),
            until,
            bound,
        );
        lemma_last_group_bound(
            declared,
            placement,
            |job: Seq<DependencyView>| writes_key(job, key),
            until,
            bound,
        );
        lemma_last_group_bound(
            declared,
            placement,
            |job: Seq<DependencyView>| reads_key(job, key) && strict_key(job, key),
            until,
            bound,
        );
        lemma_last_group_bound(
            declared,
            placement,
            |job: Seq<DependencyView>| writes_key(job, key) && strict_key(job, key),
            until,
            bound,
        );
    }
    assert forall|key: KeyView| #[trigger] trackers.contains_key(key) implies trackers[key]
        == tracker_of(trackers, key) by {}
}

/// The group that `earliest_for` finds is the first one that is late enough.
proof fn lemma_late_enough(
    declared: Seq<Seq<DependencyView>>,
    placement: Seq<int>,
    trackers: Map<KeyView, Tracker>,
    last_unknown: Option<u32>,
    normal: NormalView,
    job: int,
    group: int,
)
    requires
        0 <= job < declared.len(),
        normalizes(declared[job], normal),
        trackers_tell(declared, placement, trackers, last_unknown, job),
    ensures
        late_enough(declared, placement, job, group) == (earliest_for(
            normal,
            trackers,
            last_unknown,
            group_count(placement, job),
        ) <= group),
{
    let own = declared[job];
    let end = own.len() as int;
    if let NormalView::Known(accesses) = normal {
        lemma_earliest(accesses, trackers, last_unknown, accesses.len() as int, group);
        assert forall|key: KeyView| #[trigger] touched(own, key, end) implies exists|index: int|
            0 <= index < accesses.len() && (#[trigger] accesses[index]) == joint_access(
                own,
                key,
            ) by {
            let index = choose|index: int|
                0 <= index < accesses.len() && (#[trigger] accesses[index]).key == key;
            assert(accesses[index] == joint_access(own, key));
        }
        if late_enough(declared, placement, job, group) {
            assert forall|index: int| 0 <= index < accesses.len() implies after(
                tracker_of(trackers, (#[trigger] accesses[index]).key).predecessor(accesses[index]),
            ) <= group by {
                let key = accesses[index].key;
                assert(touched(own, key, end));
                assert(accesses[index] == joint_access(own, key));
                assert(tracker_of(trackers, key) == history(declared, placement, key, job));
            }
        }
        if earliest(accesses, trackers, last_unknown, accesses.len() as int) <= group {
            assert forall|key: KeyView| #[trigger] touched(own, key, end) implies after(
                history(declared, placement, key, job).predecessor(joint_access(own, key)),
            ) <= group by {
                let index = choose|index: int|
                    0 <= index < accesses.len() && (#[trigger] accesses[index]) == joint_access(
                        own,
                        key,
                    );
                assert(accesses[index].key == key);
                assert(tracker_of(trackers, key) == history(declared, placement, key, job));
            }
        }
    }
}

/// What the trackers tell once one more job has been placed and recorded.
proof fn lemma_trackers_advance(
    declared: Seq<Seq<DependencyView>>,
    placement: Seq<int>,
    trackers: Map<KeyView, Tracker>,
    last_unknown: Option<u32>,
    normal: NormalView,
    group: u32,
)
    requires
        placement.len() < declared.len(),
        normalizes(declared[placement.len() as int], normal),
        trackers_tell(declared, placement, trackers, last_unknown, placement.len() as int),
        normal is Unknown ==> after(last_unknown) <= group,
    ensures
        match normal {
            NormalView::Unknown => trackers_tell(
                declared,
                placement.push(group as int),
                trackers,
                Some(group),
                placement.len() as int + 1,
            ),
            NormalView::Known(accesses) => trackers_tell(
                declared,
                placement.push(group as int),
                recorded_in(trackers, accesses, group, accesses.len() as int),
                last_unknown,
                placement.len() as int + 1,
            ),
        },
{
    let job = placement.len() as int;
    let own = declared[job];
    let longer = placement.push(group as int);
    let unknown = |job: Seq<DependencyView>| has_unknown(job);
    lemma_last_group_prefix(declared, placement, group as int, unknown, job);
    assert(longer[job] as u32 == group);
    assert forall|key: KeyView| history(declared, longer, key, job) == #[trigger] history(
        declared,
        placement,
        key,
        job,
    ) by {
        lemma_history_prefix(declared, placement, group as int, key, job);
    }
    match normal {
        NormalView::Unknown => {
            assert forall|key: KeyView| #[trigger] tracker_of(trackers, key) == history(
                declared,
                longer,
                key,
                job + 1,
            ) by {
                assert(!reads_key(own, key) && !writes_key(own, key));
                assert(history(declared, placement, key, job) == history(
                    declared,
                    longer,
                    key,
                    job,
                ));
            }
        },
        NormalView::Known(accesses) => {
            let after = recorded_in(trackers, accesses, group, accesses.len() as int);
            assert forall|key: KeyView| #[trigger] tracker_of(after, key) == history(
                declared,
                longer,
                key,
                job + 1,
            ) by {
                lemma_recorded(trackers, accesses, group, accesses.len() as int, key);
                lemma_accesses(own, accesses, key);
                assert(history(declared, placement, key, job) == history(
                    declared,
                    longer,
                    key,
                    job,
                ));
                assert(tracker_of(trackers, key) == history(declared, placement, key, job));
                if exists|index: int|
                    0 <= index < accesses.len() && (#[trigger] accesses[index]).key == key {
                    let index = choose|index: int|
                        0 <= index < accesses.len() && (#[trigger] accesses[index]).key == key;
                    assert(accesses[index] == joint_access(own, key));
                    assert(strict_key(own, key) == (accesses[index].order == Order::Strict));
                    assert(writes_key(own, key) == accesses[index].write);
                    assert(reads_key(own, key) == !accesses[index].write);
                } else {
                    assert(!reads_key(own, key) && !writes_key(own, key));
                }
            }
        },
    }
}

/// Places each job in the first group that suits it.
pub(crate) fn compile_first_fit_layout(
    Ghost(declared): Ghost<Seq<Seq<DependencyView>>>,
    normals: &[NormalizedDeps],
) -> (groups: Vec<Vec<JobId>>)
    requires
        normals@.len() <= u32::MAX,
        all_normalized(declared, normals@),
    ensures
        exists|placement: Seq<int>|
            placement.len() == declared.len() && #[trigger] first_fit(
                declared,
                placement,
                declared.len() as int,
            ) && grouped_by(placement, lists(groups@)),
{
    let mut trackers: KeyMap<Tracker> = KeyMap::new();
    let mut summaries: Vec<GroupSummary> = Vec::new();
    let mut grouped_jobs: Vec<Vec<JobId>> = Vec::new();
    let mut last_unknown: Option<u32> = None;
    let ghost mut placement: Seq<int> = Seq::empty();
    for job in 0..normals.len()
        invariant
            normals@.len() <= u32::MAX,
            all_normalized(declared, normals@),
            placement.len() == job,
            first_fit(declared, placement, job as int),
            forall|at: int| 0 <= at < job ==> 0 <= #[trigger] placement[at] < summaries@.len(),
            summaries@.len() == group_count(placement, job as int),
            summaries@.len() <= job,
            grouped_jobs@.len() == summaries@.len(),
            trackers_tell(declared, placement, trackers@, last_unknown, job as int),
            forall|group: int|
                0 <= group < summaries@.len() ==> (#[trigger] summaries@[group]).tells(
                    declared,
                    members(placement, group, job as int),
                ),
            grouped_by(placement, lists(grouped_jobs@)),
    {
        let ghost at = job as int;
        let ghost old_placement = placement;
        let ghost old_groups = lists(grouped_jobs@);
        proof {
            lemma_trackers_below(
                declared,
                placement,
                trackers@,
                last_unknown,
                at,
                summaries@.len() as int,
            );
            lemma_trackers_below(
                declared,
                placement,
                trackers@,
                last_unknown,
                at,
                u32::MAX as int,
            );
            assert(consistent(declared[at]) && normalizes(declared[at], normals@[at]@));
        }
        let earliest_index = earliest_group(
            &normals[job],
            &trackers,
            last_unknown,
            summaries.len(),
        );
        proof {
            assert forall|group: int| #[trigger]
                late_enough(declared, placement, at, group) == (earliest_index <= group) by {
                lemma_late_enough(
                    declared,
                    placement,
                    trackers@,
                    last_unknown,
                    normals@[at]@,
                    at,
                    group,
                );
            }
            assert(earliest_index <= summaries@.len()) by {
                if let NormalView::Known(accesses) = normals@[at]@ {
                    lemma_earliest(
                        accesses,
                        trackers@,
                        last_unknown,
                        accesses.len() as int,
                        summaries@.len() as int,
                    );
                }
            }
        }
        let mut group: usize = earliest_index as usize;
        let mut searching = true;
        while searching && group < summaries.len()
            invariant
                at == job,
                job < normals@.len(),
                placement.len() == job,
                all_normalized(declared, normals@),
                normalizes(declared[at], normals@[at]@),
                earliest_index <= group <= summaries@.len(),
                !searching ==> group < summaries@.len() && takes(
                    declared,
                    members(placement, group as int, at),
                    at,
                ),
                forall|group: int|
                    0 <= group < summaries@.len() ==> (#[trigger] summaries@[group]).tells(
                        declared,
                        members(placement, group, at),
                    ),
                forall|other: int|
                    earliest_index <= other < group ==> !#[trigger] takes(
                        declared,
                        members(placement, other, at),
                        at,
                    ),
            decreases summaries@.len() - group, (if searching { 1int } else { 0int }),
        {
            assert(summaries@[group as int].tells(declared, members(placement, group as int, at)));
            if summaries[group].is_compatible(
                Ghost(declared),
                Ghost(members(placement, group as int, at)),
                Ghost(at),
                &normals[job],
            ) {
                searching = false;
            } else {
                group += 1;
            }
        }
        proof {
            if has_unknown(declared[at]) {
                assert(late_enough(declared, placement, at, group as int));
                assert(group == summaries@.len());
            }
            if group == summaries@.len() {
                assert(members(placement, group as int, at) =~= Set::empty());
            }
            assert(late_enough(declared, placement, at, group as int));
            assert(suits(declared, placement, at, group as int));
            assert forall|other: int| 0 <= other < group implies !#[trigger] suits(
                declared,
                placement,
                at,
                other,
            ) by {
                assert(late_enough(declared, placement, at, other) == (earliest_index <= other));
                if earliest_index <= other {
                    assert(!has_unknown(declared[at])) by {
                        assert(late_enough(declared, placement, at, other));
                    }
                    assert(!takes(declared, members(placement, other, at), at));
                }
            }
            placement = old_placement.push(group as int);
            assert(first_fit(declared, placement, at + 1)) by {
                assert forall|earlier: int|
                    #![trigger placement[earlier]]
                    0 <= earlier < at + 1 implies suits(
                    declared,
                    placement,
                    earlier,
                    placement[earlier],
                ) && forall|other: int|
                    0 <= other < placement[earlier] ==> !#[trigger] suits(
                        declared,
                        placement,
                        earlier,
                        other,
                    ) by {
                    if earlier < at {
                        assert(placement[earlier] == old_placement[earlier]);
                    }
                    lemma_suits_prefix(
                        declared,
                        old_placement,
                        group as int,
                        earlier,
                        placement[earlier],
                    );
                    assert forall|other: int|
                        0 <= other < placement[earlier] implies !#[trigger] suits(
                        declared,
                        placement,
                        earlier,
                        other,
                    ) by {
                        lemma_suits_prefix(declared, old_placement, group as int, earlier, other);
                        assert(!suits(declared, old_placement, earlier, other));
                    }
                }
            }
            lemma_group_count_prefix(old_placement, group as int, at);
            assert forall|other: int| #[trigger]
                members(placement, other, at + 1) =~= (if other == group {
                    members(old_placement, other, at).insert(job as JobId)
                } else {
                    members(old_placement, other, at)
                }) by {}
        }
        let ghost old_summaries = summaries@;
        if group == summaries.len() {
            summaries.push(GroupSummary::new());
            grouped_jobs.push(Vec::new());
        }
        let ghost before_insert = summaries@;
        let ghost before_push = grouped_jobs@;
        proof {
            assert(before_insert[group as int].tells(
                declared,
                members(old_placement, group as int, at),
            ));
        }
        summaries[group].insert(
            Ghost(declared),
            Ghost(members(old_placement, group as int, at)),
            Ghost(job as JobId),
            &normals[job],
        );
        grouped_jobs[group].push(job as JobId);
        proof {
            assert forall|other: int| 0 <= other < summaries@.len() implies (
            #[trigger] summaries@[other]).tells(declared, members(placement, other, at + 1)) by {
                assert(members(placement, other, at + 1) =~= (if other == group {
                    members(old_placement, other, at).insert(job as JobId)
                } else {
                    members(old_placement, other, at)
                }));
                if other != group {
                    assert(summaries@[other] == old_summaries[other]);
                }
            }
            let groups = lists(grouped_jobs@);
            assert forall|other: int|
                #![trigger groups[other]]
                0 <= other < groups.len() implies ascending(groups[other]) && forall|id: JobId|
                #[trigger]
                groups[other].contains(id) == members(placement, other, at + 1).contains(id) by {
                let list = before_push[other]@;
                assert(members(placement, other, at + 1) =~= (if other == group {
                    members(old_placement, other, at).insert(job as JobId)
                } else {
                    members(old_placement, other, at)
                }));
                if other < old_groups.len() {
                    assert(list == old_groups[other]);
                } else {
                    assert(members(old_placement, other, at) =~= Set::empty());
                }
                if other == group {
                    let longer = list.push(job as JobId);
                    assert(groups[other] == longer);
                    assert forall|index: int| 0 <= index < list.len() implies #[trigger] list[index]
                        < job by {
                        assert(list.contains(list[index]));
                        assert(members(old_placement, other, at).contains(list[index]));
                    }
                    assert forall|id: JobId| #[trigger] longer.contains(id) == (list.contains(id)
                        || id == job as JobId) by {
                        if list.contains(id) {
                            assert(longer[list.index_of(id)] == id);
                        }
                        if id == job as JobId {
                            assert(longer[list.len() as int] == id);
                        }
                    }
                } else {
                    assert(groups[other] == list);
                }
            }
            lemma_trackers_advance(
                declared,
                old_placement,
                trackers@,
                last_unknown,
                normals@[at]@,
                group as u32,
            );
        }
        update_trackers(&normals[job], group as u32, &mut trackers, &mut last_unknown);
    }
    grouped_jobs
}

/// A group of jobs, as a range of the jobs of a schedule.
#[derive(Debug)]
pub struct Group {
    pub job_range: Range<u32>,
}

/// Jobs in groups that are run one after the other.
#[derive(Debug)]
pub struct Schedule<R> {
    pub jobs: Vec<R>,
    pub groups: Vec<Group>,
}

/// What the jobs of a list are to run, in the order of the list.
pub open spec fn picked<R>(runs: Seq<R>, order: Seq<JobId>) -> Seq<R> {
    order.map_values(|job: JobId| runs[job as int])
}

impl<R> Schedule<R> {
    /// Whether the schedule runs the given groups of jobs.
    pub open spec fn runs_groups(self, runs: Seq<R>, groups: Seq<Seq<JobId>>) -> bool {
        &&& self.jobs@ == picked(runs, joined(groups, groups.len() as int))
        &&& self.groups@.len() == groups.len()
        &&& forall|group: int|
            0 <= group < groups.len() ==> (#[trigger] self.groups@[group]).job_range
                == joined_range(groups, group)
    }
}

/// Whether lists name each of `count` jobs once.
pub open spec fn partitions(groups: Seq<Seq<JobId>>, count: int) -> bool {
    let order = joined(groups, groups.len() as int);
    &&& order.no_duplicates()
    &&& forall|job: JobId| #[trigger] order.contains(job) == (job < count)
}

pub(crate) proof fn lemma_joined_contains(groups: Seq<Seq<JobId>>, until: int, job: JobId)
    requires
        0 <= until <= groups.len(),
    ensures
        joined(groups, until).contains(job) == (exists|group: int|
            0 <= group < until && (#[trigger] groups[group]).contains(job)),
    decreases until,
{
    if until > 0 {
        lemma_joined_contains(groups, until - 1, job);
        let before = joined(groups, until - 1);
        let own = groups[until - 1];
        let whole = before + own;
        if before.contains(job) {
            assert(whole[before.index_of(job)] == job);
        }
        if own.contains(job) {
            assert(whole[before.len() + own.index_of(job)] == job);
        }
        if whole.contains(job) {
            let at = whole.index_of(job);
            if at < before.len() {
                assert(before[at] == job);
            } else {
                assert(own[at - before.len()] == job);
            }
        }
    }
}

pub(crate) proof fn lemma_joined_distinct(groups: Seq<Seq<JobId>>, until: int)
    requires
        0 <= until <= groups.len(),
        forall|group: int|
            0 <= group < groups.len() ==> (#[trigger] groups[group]).no_duplicates(),
        forall|left: int, right: int, job: JobId|
            0 <= left < groups.len() && 0 <= right < groups.len()
                && #[trigger] groups[left].contains(job) && #[trigger] groups[right].contains(job)
                ==> left == right,
    ensures
        joined(groups, until).no_duplicates(),
    decreases until,
{
    if until > 0 {
        lemma_joined_distinct(groups, until - 1);
        let before = joined(groups, until - 1);
        let own = groups[until - 1];
        let whole = before + own;
        assert forall|left: int, right: int|
            0 <= left < whole.len() && 0 <= right < whole.len() && left != right implies whole[left]
            != whole[right] by {
            if left < before.len() && right >= before.len() {
                lemma_joined_contains(groups, until - 1, whole[left]);
                assert(before.contains(before[left]));
                assert(own.contains(own[right - before.len()]));
            }
            if right < before.len() && left >= before.len() {
                lemma_joined_contains(groups, until - 1, whole[right]);
                assert(before.contains(before[right]));
                assert(own.contains(own[left - before.len()]));
            }
            if left >= before.len() && right >= before.len() {
                assert(own[left - before.len()] != own[right - before.len()]);
            }
        }
    }
}

/// Lists that are given by a placement name each job once.
pub(crate) proof fn lemma_placement_partitions(placement: Seq<int>, groups: Seq<Seq<JobId>>)
    requires
        placement.len() <= u32::MAX,
        grouped_by(placement, groups),
        forall|job: int| 0 <= job < placement.len() ==> 0 <= #[trigger] placement[job],
    ensures
        partitions(groups, placement.len() as int),
{
    let count = placement.len() as int;
    lemma_group_count(placement, count);
    assert forall|group: int| 0 <= group < groups.len() implies (
    #[trigger] groups[group]).no_duplicates() by {
        assert(ascending(groups[group]));
    }
    assert forall|left: int, right: int, job: JobId|
        0 <= left < groups.len() && 0 <= right < groups.len() && #[trigger] groups[left].contains(
            job,
        ) && #[trigger] groups[right].contains(job) implies left == right by {
        assert(members(placement, left, count).contains(job));
        assert(members(placement, right, count).contains(job));
    }
    lemma_joined_distinct(groups, groups.len() as int);
    let order = joined(groups, groups.len() as int);
    assert forall|job: JobId| #[trigger] order.contains(job) == (job < count) by {
        lemma_joined_contains(groups, groups.len() as int, job);
        if job < count {
            let group = placement[job as int];
            assert(members(placement, group, count).contains(job));
            assert(groups[group].contains(job));
        }
        if order.contains(job) {
            let group = choose|group: int|
                0 <= group < groups.len() && (#[trigger] groups[group]).contains(job);
            assert(members(placement, group, count).contains(job));
        }
    }
}

/// Lays the jobs of groups out one after the other.
pub(crate) fn regroup<R>(runs: Vec<R>, groups: &[Vec<JobId>]) -> (schedule: Schedule<R>)
    requires
        runs@.len() <= u32::MAX,
        partitions(lists(groups@), runs@.len() as int),
    ensures
        schedule.runs_groups(runs@, lists(groups@)),
{
    let ghost given = runs@;
    let ghost all = lists(groups@);
    let ghost order = joined(all, all.len() as int);
    let count: usize = runs.len();
    let mut pending: Vec<Option<R>> = Vec::new();
    for run in iterator: runs
        invariant
            iterator.seq() == given,
            pending.len() == iterator.index(),
            forall|job: int| 0 <= job < iterator.index() ==> #[trigger] pending@[job]
                == Some(given[job]),
    {
        pending.push(Some(run));
    }
    let mut jobs: Vec<R> = Vec::new();
    let mut ranges: Vec<Group> = Vec::new();
    for group in 0..groups.len()
        invariant
            all == lists(groups@),
            count == given.len(),
            partitions(all, count as int),
            order == joined(all, all.len() as int),
            pending@.len() == count,
            jobs@ == picked(given, joined(all, group as int)),
            forall|job: JobId|
                job < count && !joined(all, group as int).contains(job)
                    ==> #[trigger] pending@[job as int] == Some(given[job as int]),
            ranges@.len() == group,
            forall|at: int|
                0 <= at < group ==> (#[trigger] ranges@[at]).job_range == joined_range(all, at),
    {
        let ghost own = all[group as int];
        let ghost before = joined(all, group as int);
        assert(own == groups@[group as int]@);
        let start = jobs.len() as u32;
        let length: usize = groups[group].len();
        assert(before + own.take(0) =~= before);
        for index in 0..length
            invariant
                all == lists(groups@),
                group < groups@.len(),
                own == all[group as int],
                own == groups@[group as int]@,
                length == own.len(),
                before == joined(all, group as int),
                count == given.len(),
                partitions(all, count as int),
                order == joined(all, all.len() as int),
                pending@.len() == count,
                jobs@ == picked(given, before + own.take(index as int)),
                forall|job: JobId|
                    job < count && !(before + own.take(index as int)).contains(job)
                        ==> #[trigger] pending@[job as int] == Some(given[job as int]),
        {
            let job = groups[group][index];
            let ghost shorter = before + own.take(index as int);
            let ghost longer = before + own.take(index + 1);
            proof {
                assert(longer =~= shorter.push(job));
                lemma_joined_contains(all, all.len() as int, job);
                assert(own.contains(own[index as int]));
                assert(order.contains(job));
                // Each place of the order holds another job.
                crate::layout::lemma_joined(all, group as int, all.len() as int);
                assert(order.subrange(before.len() as int, before.len() as int + own.len() as int)
                    =~= own);
                lemma_joined_prefix(all, group as int, all.len() as int);
                if shorter.contains(job) {
                    let at = shorter.index_of(job);
                    assert(order[before.len() + index] == own[index as int]) by {
                        assert(order.subrange(
                            before.len() as int,
                            before.len() as int + own.len() as int,
                        )[index as int] == own[index as int]);
                    }
                    if at < before.len() {
                        assert(order[at] == before[at]);
                    } else {
                        assert(order.subrange(
                            before.len() as int,
                            before.len() as int + own.len() as int,
                        )[at - before.len()] == own[at - before.len()]);
                        assert(order[at] == own[at - before.len()]);
                    }
                    assert(false);
                }
                assert(pending@[job as int] == Some(given[job as int]));
            }
            let ghost held = pending@;
            match pending[job as usize].take() {
                Some(run) => {
                    jobs.push(run);
                },
                None => {
                    assert(false);
                },
            }
            proof {
                assert(jobs@ =~= picked(given, longer));
                assert forall|other: JobId|
                    other < count && !longer.contains(
                        other,
                    ) implies #[trigger] pending@[other as int] == Some(given[other as int]) by {
                    if shorter.contains(other) {
                        assert(longer[shorter.index_of(other)] == other);
                    }
                    assert(longer[shorter.len() as int] == job);
                    assert(held[other as int] == Some(given[other as int]));
                }
            }
        }
        assert(own.take(length as int) =~= own);
        let end = jobs.len() as u32;
        ranges.push(Group { job_range: start..end });
    }
    Schedule { jobs, groups: ranges }
}

pub(crate) proof fn lemma_joined_prefix(groups: Seq<Seq<JobId>>, until: int, end: int)
    requires
        0 <= until <= end <= groups.len(),
    ensures
        joined(groups, until).len() <= joined(groups, end).len(),
        joined(groups, until) == joined(groups, end).take(joined(groups, until).len() as int),
    decreases end,
{
    if until < end {
        lemma_joined_prefix(groups, until, end - 1);
        assert(joined(groups, end).take(joined(groups, until).len() as int) =~= joined(
            groups,
            end - 1,
        ).take(joined(groups, until).len() as int));
    } else {
        assert(joined(groups, end).take(joined(groups, end).len() as int) =~= joined(groups, end));
    }
}

impl<R> Schedule<R> {
    /// Builds the schedule of jobs, unless the dependencies of one of them clash.
    pub fn compile(jobs: Vec<Job<R>>) -> (result: Result<Self, Error>)
        requires
            jobs@.len() <= u32::MAX,
        ensures
            match result {
                Ok(schedule) => {
                    &&& all_consistent(declarations(jobs@))
                    &&& exists|placement: Seq<int>, groups: Seq<Seq<JobId>>|
                        placement.len() == jobs@.len() && #[trigger] first_fit(
                            declarations(jobs@),
                            placement,
                            jobs@.len() as int,
                        ) && #[trigger] grouped_by(placement, groups) && schedule.runs_groups(
                            payloads(jobs@),
                            groups,
                        )
                },
                Err(error) => jobs_rejected_with(declarations(jobs@), error@),
            },
    {
        let ghost declared = declarations(jobs@);
        let (runs, normals) = match normalize_jobs(jobs) {
            Ok(parts) => parts,
            Err(error) => {
                return Err(error);
            },
        };
        assert(all_consistent(declared));
        let groups = compile_first_fit_layout(Ghost(declared), &normals);
        proof {
            let placement = choose|placement: Seq<int>|
                placement.len() == declared.len() && #[trigger] first_fit(
                    declared,
                    placement,
                    declared.len() as int,
                ) && grouped_by(placement, lists(groups@));
            lemma_first_fit_counts(declared, placement);
            lemma_placement_partitions(placement, lists(groups@));
        }
        Ok(regroup(runs, &groups))
    }

    /// Whether the jobs of a group are to be run one by one: where there is one thread only, or no
    /// job to run beside another.
    pub fn runs_one_by_one(&self, group: usize, threads: usize) -> (one_by_one: bool)
        requires
            group < self.groups@.len(),
            self.groups@[group as int].job_range.start <= self.groups@[group as int].job_range.end,
        ensures
            one_by_one == (threads == 1 || self.groups@[group as int].job_range.end
                - self.groups@[group as int].job_range.start <= 1),
    {
        threads == 1 || self.groups[group].job_range.end - self.groups[group].job_range.start <= 1
    }
}

pub(crate) proof fn lemma_first_fit_counts(declared: Seq<Seq<DependencyView>>, placement: Seq<int>)
    requires
        first_fit(declared, placement, placement.len() as int),
    ensures
        forall|job: int| 0 <= job < placement.len() ==> 0 <= #[trigger] placement[job],
{
    assert forall|job: int| 0 <= job < placement.len() implies 0 <= #[trigger] placement[job] by {
        assert(suits(declared, placement, job, placement[job]));
    }
}

/// Groups that are filled first come, first served name each job once.
pub proof fn fitted_groups_place_each_job_once(
    declared: Seq<Seq<DependencyView>>,
    placement: Seq<int>,
    groups: Seq<Seq<JobId>>,
)
    requires
        first_fit(declared, placement, placement.len() as int),
        placement.len() <= u32::MAX,
        grouped_by(placement, groups),
    ensures
        partitions(groups, placement.len() as int),
{
    lemma_first_fit_counts(declared, placement);
    lemma_placement_partitions(placement, groups);
}

/// No two jobs of a group conflict.
pub proof fn jobs_of_a_group_do_not_conflict(
    declared: Seq<Seq<DependencyView>>,
    placement: Seq<int>,
    left: int,
    right: int,
)
    requires
        first_fit(declared, placement, declared.len() as int),
        0 <= left < right < declared.len() <= u32::MAX,
        placement[left] == placement[right],
    ensures
        relation_of(declared[left], declared[right]) == Relation::Free,
{
    assert(suits(declared, placement, right, placement[right]));
    assert(members(placement, placement[right], right).contains(left as JobId));
}

/// The last group that holds a job of a kind does not come before the group of any such job.
proof fn lemma_last_is_last(
    declared: Seq<Seq<DependencyView>>,
    placement: Seq<int>,
    kind: spec_fn(Seq<DependencyView>) -> bool,
    until: int,
    job: int,
)
    requires
        0 <= job < until,
        kind(declared[job]),
        0 <= placement[job] <= u32::MAX,
    ensures
        placement[job] < after(last_group(declared, placement, kind, until)),
    decreases until,
{
    if job < until - 1 {
        lemma_last_is_last(declared, placement, kind, until - 1, job);
    }
}

pub(crate) proof fn lemma_count_bound(
    declared: Seq<Seq<DependencyView>>,
    placement: Seq<int>,
    until: int,
)
    requires
        first_fit(declared, placement, declared.len() as int),
        placement.len() == declared.len(),
        0 <= until <= declared.len() <= u32::MAX,
    ensures
        group_count(placement, until) <= until,
        forall|job: int| 0 <= job < until ==> 0 <= #[trigger] placement[job] < until,
    decreases until,
{
    if until > 0 {
        let job = until - 1;
        lemma_count_bound(declared, placement, job);
        lemma_first_fit_counts(declared, placement);
        lemma_group_count(placement, job);
        let count = group_count(placement, job);
        assert(suits(declared, placement, job, placement[job]));
        // The group after all others suits every job.
        assert(members(placement, count, job) =~= Set::empty());
        if placement[job] > count {
            assert(late_enough(declared, placement, job, count)) by {
                if !has_unknown(declared[job]) {
                    lemma_last_group_bound(
                        declared,
                        placement,
                        |job: Seq<DependencyView>| has_unknown(job),
                        job,
                        count,
                    );
                    assert forall|key: KeyView| #[trigger]
                        touched(declared[job], key, declared[job].len() as int) implies after(
                        history(declared, placement, key, job).predecessor(
                            joint_access(declared[job], key),
                        ),
                    ) <= count by {
                        lemma_last_group_bound(
                            declared,
                            placement,
                            |job: Seq<DependencyView>| reads_key(job, key),
                            job,
                            count,
                        );
                        lemma_last_group_bound(
                            declared,
                            placement,
                            |job: Seq<DependencyView>| writes_key(job, key),
                            job,
                            count,
                        );
                        lemma_last_group_bound(
                            declared,
                            placement,
                            |job: Seq<DependencyView>|
                                reads_key(job, key) && strict_key(job, key),
                            job,
                            count,
                        );
                        lemma_last_group_bound(
                            declared,
                            placement,
                            |job: Seq<DependencyView>|
                                writes_key(job, key) && strict_key(job, key),
                            job,
                            count,
                        );
                    }
                }
            }
            assert(suits(declared, placement, job, count));
        }
    }
}

/// A job that depends on everything is a barrier: the jobs declared before it are in earlier
/// groups, and those declared after it in later ones.
pub proof fn unknown_jobs_are_barriers(
    declared: Seq<Seq<DependencyView>>,
    placement: Seq<int>,
    left: int,
    right: int,
)
    requires
        first_fit(declared, placement, declared.len() as int),
        placement.len() == declared.len(),
        0 <= left < right < declared.len() <= u32::MAX,
        has_unknown(declared[left]) || has_unknown(declared[right]),
    ensures
        placement[left] < placement[right],
{
    lemma_count_bound(declared, placement, declared.len() as int);
    lemma_first_fit_counts(declared, placement);
    assert(suits(declared, placement, right, placement[right]));
    if has_unknown(declared[right]) {
        lemma_group_count(placement, right);
    } else {
        let kind = |job: Seq<DependencyView>| has_unknown(job);
        lemma_last_is_last(declared, placement, kind, right, left);
    }
}

/// Two strictly related jobs are placed in the order of their declaration.
pub proof fn strict_jobs_are_placed_in_order(
    declared: Seq<Seq<DependencyView>>,
    placement: Seq<int>,
    left: int,
    right: int,
)
    requires
        first_fit(declared, placement, declared.len() as int),
        placement.len() == declared.len(),
        0 <= left < right < declared.len() <= u32::MAX,
        all_consistent(declared),
        relation_of(declared[left], declared[right]) == Relation::Strict,
    ensures
        placement[left] < placement[right],
{
    let l = declared[left];
    let r = declared[right];
    lemma_count_bound(declared, placement, declared.len() as int);
    if has_unknown(l) || has_unknown(r) {
        unknown_jobs_are_barriers(declared, placement, left, right);
    } else {
        let l_end = l.len() as int;
        let r_end = r.len() as int;
        let (x, y) = choose|x: int, y: int|
            0 <= x < l.len() && 0 <= y < r.len() && (#[trigger] l[x]).relation(#[trigger] r[y])
                == Relation::Strict;
        assert(!(l[x] is Unknown) && !(r[y] is Unknown));
        let key = match l[x] {
            DependencyView::Read(key, _) => key,
            DependencyView::Write(key, _) => key,
            _ => arbitrary(),
        };
        assert(l[x].touches(key) && r[y].touches(key));
        assert(touched(l, key, l_end) && touched(r, key, r_end));
        assert(l[x].writes() ==> written(l, key, l_end));
        assert(r[y].writes() ==> written(r, key, r_end));
        assert(l[x].is_strict() ==> strict_key(l, key));
        assert(r[y].is_strict() ==> strict_key(r, key));
        let own = joint_access(r, key);
        let tracker = history(declared, placement, key, right);
        assert(suits(declared, placement, right, placement[right]));
        assert(after(tracker.predecessor(own)) <= placement[right]);
        let reads = |job: Seq<DependencyView>| reads_key(job, key);
        let writes = |job: Seq<DependencyView>| writes_key(job, key);
        let strict_reads = |job: Seq<DependencyView>| reads_key(job, key) && strict_key(job, key);
        let strict_writes = |job: Seq<DependencyView>| writes_key(job, key) && strict_key(job, key);
        if strict_key(r, key) {
            if writes_key(l, key) {
                lemma_last_is_last(declared, placement, writes, right, left);
            } else {
                assert(reads_key(l, key));
                lemma_last_is_last(declared, placement, reads, right, left);
            }
        } else {
            assert(strict_key(l, key));
            if writes_key(l, key) {
                lemma_last_is_last(declared, placement, strict_writes, right, left);
            } else {
                assert(reads_key(l, key));
                lemma_last_is_last(declared, placement, strict_reads, right, left);
            }
        }
    }
}

/// Whether groups name each job once, hold no two related jobs, and hold strictly related jobs in the
/// order of their declaration.
pub open spec fn in_order(declared: Seq<Seq<DependencyView>>, groups: Seq<Seq<JobId>>) -> bool {
    &&& partitions(groups, declared.len() as int)
    &&& forall|left: JobId, right: JobId, first: int, second: int|
        #![trigger groups[first].contains(left), groups[second].contains(right)]
        0 <= first < groups.len() && 0 <= second < groups.len() && groups[first].contains(left)
            && groups[second].contains(right) && left < right < declared.len() ==> {
            let relation = relation_of(declared[left as int], declared[right as int]);
            &&& relation != Relation::Free ==> first != second
            &&& relation == Relation::Strict ==> first < second
        }
}

/// Groups that are filled first come, first served are in order.
pub proof fn fitted_groups_are_in_order(
    declared: Seq<Seq<DependencyView>>,
    placement: Seq<int>,
    groups: Seq<Seq<JobId>>,
)
    requires
        all_consistent(declared),
        first_fit(declared, placement, declared.len() as int),
        placement.len() == declared.len() <= u32::MAX,
        grouped_by(placement, groups),
    ensures
        in_order(declared, groups),
{
    fitted_groups_place_each_job_once(declared, placement, groups);
    assert forall|left: JobId, right: JobId, first: int, second: int|
        #![trigger groups[first].contains(left), groups[second].contains(right)]
        0 <= first < groups.len() && 0 <= second < groups.len() && groups[first].contains(left)
            && groups[second].contains(right) && left < right < declared.len() implies {
        let relation = relation_of(declared[left as int], declared[right as int]);
        &&& relation != Relation::Free ==> first != second
        &&& relation == Relation::Strict ==> first < second
    } by {
        assert(placement[left as int] == first && placement[right as int] == second);
        if first == second {
            jobs_of_a_group_do_not_conflict(declared, placement, left as int, right as int);
        }
        if relation_of(declared[left as int], declared[right as int]) == Relation::Strict {
            strict_jobs_are_placed_in_order(declared, placement, left as int, right as int);
        }
    }
}

/// Whether a run through groups has come to the group `at`: only jobs of this group and of those
/// before it have started, and the jobs of those before it are done.
pub open spec fn has_come_to(
    groups: Seq<Seq<JobId>>,
    at: int,
    started: Set<JobId>,
    done: Set<JobId>,
) -> bool {
    &&& forall|job: JobId| #[trigger] done.contains(job) ==> started.contains(job)
    &&& forall|job: JobId| #[trigger]
        started.contains(job) ==> exists|group: int|
            0 <= group <= at && group < groups.len() && #[trigger] groups[group].contains(job)
    &&& forall|group: int, job: JobId|
        0 <= group < at && group < groups.len() && #[trigger] groups[group].contains(job)
            ==> done.contains(job)
}

/// Where groups are run one after the other, related jobs do not overlap: where both have started,
/// one of them is done; and where they are strictly related, the one that is declared first is done
/// before the other starts. So where a job has failed, no job that follows it strictly starts.
pub proof fn jobs_of_groups_do_not_overlap(
    declared: Seq<Seq<DependencyView>>,
    groups: Seq<Seq<JobId>>,
    at: int,
    started: Set<JobId>,
    done: Set<JobId>,
    left: JobId,
    right: JobId,
)
    requires
        in_order(declared, groups),
        has_come_to(groups, at, started, done),
        left < right < declared.len(),
        relation_of(declared[left as int], declared[right as int]) != Relation::Free,
    ensures
        started.contains(left) && started.contains(right) ==> done.contains(left) || done.contains(
            right,
        ),
        relation_of(declared[left as int], declared[right as int]) == Relation::Strict
            && started.contains(right) ==> done.contains(left),
{
    lemma_joined_contains(groups, groups.len() as int, left);
    let order = joined(groups, groups.len() as int);
    assert(order.contains(left));
    let first = choose|group: int|
        0 <= group < groups.len() && #[trigger] groups[group].contains(left);
    if started.contains(right) {
        let second = choose|group: int|
            0 <= group <= at && group < groups.len() && #[trigger] groups[group].contains(right);
        assert(groups[first].contains(left) && groups[second].contains(right));
        if started.contains(left) {
            let here = choose|group: int|
                0 <= group <= at && group < groups.len() && #[trigger] groups[group].contains(left);
            assert(groups[here].contains(left) && groups[second].contains(right));
        }
    }
}

/// A run through groups begins before the first of them, and ends after the last with all jobs done.
pub proof fn runs_of_groups_begin_and_end(
    declared: Seq<Seq<DependencyView>>,
    groups: Seq<Seq<JobId>>,
    started: Set<JobId>,
    done: Set<JobId>,
)
    requires
        in_order(declared, groups),
        has_come_to(groups, groups.len() as int, started, done),
    ensures
        has_come_to(groups, 0, Set::empty(), Set::empty()),
        forall|job: JobId| job < declared.len() ==> #[trigger] done.contains(job),
{
    let order = joined(groups, groups.len() as int);
    assert forall|job: JobId| job < declared.len() implies #[trigger] done.contains(job) by {
        lemma_joined_contains(groups, groups.len() as int, job);
        assert(order.contains(job));
    }
}

/// A run through groups goes on: jobs of its group start, jobs that have started finish, and when all
/// jobs of the group are done, it comes to the next.
pub proof fn runs_of_groups_go_on(
    groups: Seq<Seq<JobId>>,
    at: int,
    started: Set<JobId>,
    done: Set<JobId>,
    job: JobId,
)
    requires
        0 <= at < groups.len(),
        has_come_to(groups, at, started, done),
    ensures
        groups[at].contains(job) ==> has_come_to(groups, at, started.insert(job), done),
        started.contains(job) ==> has_come_to(groups, at, started, done.insert(job)),
        (forall|other: JobId| #[trigger] groups[at].contains(other) ==> done.contains(other))
            ==> has_come_to(groups, at + 1, started, done),
{
    if groups[at].contains(job) {
        assert forall|other: JobId| #[trigger] started.insert(job).contains(
            other,
        ) implies exists|group: int|
            0 <= group <= at && group < groups.len() && #[trigger] groups[group].contains(other) by {
            if other != job {
                assert(started.contains(other));
            }
        }
    }
    if forall|other: JobId| #[trigger] groups[at].contains(other) ==> done.contains(other) {
        assert forall|other: JobId| #[trigger] started.contains(other) implies exists|group: int|
            0 <= group <= at + 1 && group < groups.len() && #[trigger] groups[group].contains(
                other,
            ) by {
            let group = choose|group: int|
                0 <= group <= at && group < groups.len() && #[trigger] groups[group].contains(
                    other,
                );
            assert(groups[group].contains(other));
        }
    }
}

} // verus!
