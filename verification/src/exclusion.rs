//! What holds while the clusters of a schedule are run: jobs start after those that they wait for,
//! and jobs that conflict do not overlap.

use crate::bits::{
    lemma_clear_bit, lemma_join_bits, lemma_part_of, lemma_set_bit, lemma_some_word_bit, word_bit,
};
use crate::clusters::{ClusterId, ClusterPlacement, LocalIndex};
use crate::dag::{ascending, reaches, JobId};
use crate::depend::{DependencyView, KeyView};
use crate::kernel::{
    count_outside, dynamic_in, inside, is_dynamic, kernel_planned, kernel_worths, outside, renamed,
    Cluster, ClusterMode, KernelPlan, RemoteSuccessor, Schedule,
};
use crate::layout::{joined, joined_range, lemma_joined};
use crate::normalize::{relation_of, Relation};
use crate::orient::{clashing_jobs_are_oriented, lemma_relaxed_jobs_clash, strict_jobs_are_oriented};
use crate::pages::range_within;
use crate::plan::all_consistent;
use crate::runner::{
    bit_of, covers, finished, initial_state, names_jobs, ready_names_jobs, remotes_fit, settled,
    shapes, unlock, wake_all, ClusterShape, KernelState, Runner,
};
use vstd::prelude::*;

verus! {

/// How many of the first `until` jobs of a list are in other clusters and not done.
pub open spec fn missing_outside(
    placements: Seq<ClusterPlacement>,
    cluster: ClusterId,
    list: Seq<JobId>,
    done: Set<JobId>,
    until: int,
) -> int
    decreases until,
{
    if until <= 0 {
        0
    } else {
        missing_outside(placements, cluster, list, done, until - 1) + (if
        placements[list[until - 1] as int].cluster != cluster && !done.contains(list[until - 1]) {
            1int
        } else {
            0
        })
    }
}

impl KernelPlan {
    /// Whether the clusters of the plan have these shapes.
    pub open spec fn shaped(self, shapes: Seq<ClusterShape>) -> bool {
        &&& shapes.len() == self.clusters.len()
        &&& remotes_fit(shapes)
        &&& forall|cluster: int|
            #![trigger shapes[cluster]]
            0 <= cluster < shapes.len() ==> {
                &&& shapes[cluster].fits()
                &&& shapes[cluster].names == self.clusters[cluster]
                &&& shapes[cluster].mode == ClusterMode::Serial ==> forall|local: int|
                    0 <= local < shapes[cluster].locals.len() ==> (
                    #[trigger] shapes[cluster].locals[local]).len() <= 1
            }
        &&& forall|job: JobId| #[trigger] self.shaped_job(shapes, job)
    }

    /// Whether what the shapes say of a job is as planned.
    pub open spec fn shaped_job(self, shapes: Seq<ClusterShape>, job: JobId) -> bool {
        job < self.placements.len() ==> {
            let shape = shapes[self.placements[job as int].cluster as int];
            let local = self.placements[job as int].local as int;
            &&& self.masks_predecessors(job, shape.masks[local])
            &&& shape.wait_initials[local] == self.external(job)
            &&& shape.locals[local] == self.local_list(job)
            &&& shape.remotes[local] == self.remote_list(job)
            &&& word_bit(shape.ready_initial, local) == (shape.masks[local] == 0
                && shape.wait_initials[local] == 0)
        }
    }

    /// Whether all that a job waits for is done.
    pub open spec fn may_start(self, done: Set<JobId>, job: JobId) -> bool {
        forall|index: int|
            0 <= index < self.predecessors[job as int].len() ==> done.contains(
                #[trigger] self.predecessors[job as int][index],
            )
    }

    /// How many jobs of other clusters a job still waits for.
    pub open spec fn external_left(self, done: Set<JobId>, job: JobId) -> int {
        let list = self.predecessors[job as int];
        missing_outside(
            self.placements,
            self.placements[job as int].cluster,
            list,
            done,
            list.len() as int,
        )
    }

    /// Whether the state of a job's cluster is right about the job. The bits of `held` are the ready
    /// jobs that those who run the clusters have taken and not started.
    pub open spec fn right_about(
        self,
        state: KernelState,
        held: Seq<u64>,
        started: Set<JobId>,
        done: Set<JobId>,
        job: JobId,
    ) -> bool {
        job < self.placements.len() ==> {
            let cluster = self.placements[job as int].cluster as int;
            let local = self.placements[job as int].local as int;
            let ready = word_bit(state.ready[cluster], local);
            let taken = word_bit(held[cluster], local);
            &&& word_bit(state.done[cluster], local) == done.contains(job)
            &&& state.waits[cluster][local] == self.external_left(done, job)
            &&& !(ready && taken)
            &&& (ready || taken) == (!started.contains(job) && self.may_start(done, job))
            &&& started.contains(job) ==> self.may_start(done, job)
            &&& done.contains(job) ==> started.contains(job)
        }
    }

    /// Whether the state of the clusters is right about all jobs: a job is ready, and not taken
    /// twice, just where it has not started and all that it waits for is done.
    pub open spec fn keeps_order(
        self,
        state: KernelState,
        held: Seq<u64>,
        started: Set<JobId>,
        done: Set<JobId>,
    ) -> bool {
        let count = self.clusters.len();
        &&& state.ready.len() == count
        &&& state.done.len() == count
        &&& state.queued.len() == count
        &&& state.waits.len() == count
        &&& held.len() == count
        &&& forall|cluster: int|
            0 <= cluster < count ==> (#[trigger] state.waits[cluster]).len()
                == self.clusters[cluster].len()
        &&& forall|cluster: int|
            0 <= cluster < count ==> names_jobs(
                #[trigger] state.ready[cluster],
                self.clusters[cluster].len() as int,
            )
        &&& forall|cluster: int|
            0 <= cluster < count ==> names_jobs(
                #[trigger] held[cluster],
                self.clusters[cluster].len() as int,
            )
        &&& forall|job: JobId| #[trigger] self.right_about(state, held, started, done, job)
    }

    /// Whether each job has started only once all that it waits for was done, and only jobs that have
    /// started are done.
    pub open spec fn orderly(self, started: Set<JobId>, done: Set<JobId>) -> bool {
        forall|job: JobId|
            job < self.placements.len() ==> (#[trigger] started.contains(job) ==> self.may_start(
                done,
                job,
            )) && (done.contains(job) ==> started.contains(job))
    }

    /// Whether no two jobs of a cluster run at the same time.
    pub open spec fn one_at_a_time(self, started: Set<JobId>, done: Set<JobId>) -> bool {
        forall|left: JobId, right: JobId|
            #![trigger started.contains(left), started.contains(right)]
            left < self.placements.len() && right < self.placements.len()
                && self.placements[left as int].cluster == self.placements[right as int].cluster
                && started.contains(left) && started.contains(right) && !done.contains(left)
                && !done.contains(right) ==> left == right
    }
}

pub(crate) proof fn lemma_keeping_order_is_orderly(
    plan: KernelPlan,
    state: KernelState,
    held: Seq<u64>,
    started: Set<JobId>,
    done: Set<JobId>,
)
    requires
        plan.keeps_order(state, held, started, done),
    ensures
        plan.orderly(started, done),
{
    assert forall|job: JobId|
        job < plan.placements.len() implies (#[trigger] started.contains(job) ==> plan.may_start(
        done,
        job,
    )) && (done.contains(job) ==> started.contains(job)) by {
        assert(plan.right_about(state, held, started, done, job));
    }
}

pub(crate) proof fn lemma_missing_outside(
    placements: Seq<ClusterPlacement>,
    cluster: ClusterId,
    list: Seq<JobId>,
    done: Set<JobId>,
    until: int,
)
    requires
        0 <= until <= list.len(),
    ensures
        0 <= missing_outside(placements, cluster, list, done, until) <= until,
        (missing_outside(placements, cluster, list, done, until) == 0) == forall|index: int|
            0 <= index < until && placements[(#[trigger] list[index]) as int].cluster != cluster
                ==> done.contains(list[index]),
    decreases until,
{
    if until > 0 {
        lemma_missing_outside(placements, cluster, list, done, until - 1);
        assert(list[until - 1] == list[until - 1]);
    }
}

pub(crate) proof fn lemma_all_missing_outside(
    placements: Seq<ClusterPlacement>,
    cluster: ClusterId,
    list: Seq<JobId>,
    until: int,
)
    requires
        0 <= until <= list.len(),
    ensures
        missing_outside(placements, cluster, list, Set::empty(), until) == count_outside(
            placements,
            cluster,
            list,
            until,
        ),
    decreases until,
{
    if until > 0 {
        lemma_all_missing_outside(placements, cluster, list, until - 1);
    }
}

pub(crate) proof fn lemma_one_less_outside(
    placements: Seq<ClusterPlacement>,
    cluster: ClusterId,
    list: Seq<JobId>,
    done: Set<JobId>,
    job: JobId,
    until: int,
)
    requires
        0 <= until <= list.len(),
        ascending(list),
        !done.contains(job),
    ensures
        missing_outside(placements, cluster, list, done.insert(job), until) == missing_outside(
            placements,
            cluster,
            list,
            done,
            until,
        ) - (if placements[job as int].cluster != cluster && list.take(until).contains(job) {
            1int
        } else {
            0
        }),
    decreases until,
{
    if until > 0 {
        lemma_one_less_outside(placements, cluster, list, done, job, until - 1);
        let shorter = list.take(until - 1);
        let longer = list.take(until);
        assert(longer =~= shorter.push(list[until - 1]));
        if shorter.contains(job) {
            let at = shorter.index_of(job);
            assert(longer[at] == job);
            assert(list[at] < list[until - 1]);
        }
        if longer.contains(job) {
            let at = longer.index_of(job);
            if at < until - 1 {
                assert(shorter[at] == job);
            }
        }
        if list[until - 1] == job {
            assert(longer[until - 1] == job);
        }
    }
}

/// A job may start just where no job of another cluster is missing, and the jobs of its own cluster
/// that it waits for are done.
pub(crate) proof fn lemma_may_start(plan: KernelPlan, mask: u64, bits: u64, done: Set<JobId>, job: JobId)
    requires
        plan.fits(),
        job < plan.placements.len(),
        plan.masks_predecessors(job, mask),
        ({
            let members = plan.clusters[plan.placements[job as int].cluster as int];
            forall|local: int|
                0 <= local < members.len() ==> #[trigger] word_bit(bits, local) == done.contains(
                    members[local],
                )
        }),
    ensures
        plan.may_start(done, job) == (plan.external_left(done, job) == 0 && covers(bits, mask)),
{
    let cluster = plan.placements[job as int].cluster;
    let members = plan.clusters[cluster as int];
    let list = plan.predecessors[job as int];
    lemma_missing_outside(plan.placements, cluster, list, done, list.len() as int);
    lemma_part_of(bits, mask);
    if plan.may_start(done, job) {
        assert forall|index: int|
            0 <= index < list.len() && plan.placements[(#[trigger] list[index]) as int].cluster
                != cluster implies done.contains(list[index]) by {
            assert(done.contains(plan.predecessors[job as int][index]));
        }
        assert forall|local: int| 0 <= local < 64 && #[trigger] word_bit(
            mask,
            local,
        ) implies word_bit(bits, local) by {
            assert(list.contains(members[local]));
            let index = list.index_of(members[local]);
            assert(done.contains(plan.predecessors[job as int][index]));
        }
    }
    if plan.external_left(done, job) == 0 && covers(bits, mask) {
        assert forall|index: int| 0 <= index < list.len() implies done.contains(
            #[trigger] plan.predecessors[job as int][index],
        ) by {
            let other = list[index];
            assert(plan.predecessors[job as int][index] < plan.predecessors.len());
            let place = plan.placements[other as int];
            if place.cluster == cluster {
                assert(members[place.local as int] == other);
                assert(list.contains(other));
                assert(plan.clusters[cluster as int].len() <= 16);
                assert(word_bit(mask, place.local as int));
                assert(word_bit(bits, place.local as int));
            } else {
                assert(done.contains(list[index]));
            }
        }
    }
}

/// Before a run the state of the clusters is right about all jobs.
pub proof fn runs_begin_in_order(plan: KernelPlan, shapes: Seq<ClusterShape>)
    requires
        plan.fits(),
        plan.shaped(shapes),
        ready_names_jobs(shapes, initial_state(shapes)),
    ensures
        plan.keeps_order(
            initial_state(shapes),
            Seq::new(plan.clusters.len(), |cluster: int| 0u64),
            Set::empty(),
            Set::empty(),
        ),
{
    let state = initial_state(shapes);
    let held = Seq::new(plan.clusters.len(), |cluster: int| 0u64);
    let nothing = Set::<JobId>::empty();
    assert forall|local: int| 0 <= local < 64 implies !#[trigger] word_bit(0u64, local) by {
        lemma_join_bits(0, 0, local as u64);
    }
    assert forall|cluster: int| 0 <= cluster < plan.clusters.len() implies (
    #[trigger] state.waits[cluster]).len() == plan.clusters[cluster].len() by {
        assert(shapes[cluster].fits());
    }
    assert forall|cluster: int| 0 <= cluster < plan.clusters.len() implies names_jobs(
        #[trigger] state.ready[cluster],
        plan.clusters[cluster].len() as int,
    ) by {
        assert(shapes[cluster].names == plan.clusters[cluster]);
    }
    assert forall|job: JobId| #[trigger] plan.right_about(state, held, nothing, nothing, job) by {
        if job < plan.placements.len() {
            let place = plan.placements[job as int];
            let cluster = place.cluster as int;
            let local = place.local as int;
            let shape = shapes[cluster];
            assert(plan.shaped_job(shapes, job));
            assert(plan.clusters[cluster].len() <= 16);
            assert(shape.fits());
            let list = plan.predecessors[job as int];
            lemma_all_missing_outside(plan.placements, place.cluster, list, list.len() as int);
            assert(state.waits[cluster] == shape.wait_initials);
            lemma_may_start(plan, shape.masks[local], 0, nothing, job);
            if shape.masks[local] != 0 {
                let at = lemma_some_word_bit(shape.masks[local]);
                lemma_part_of(0, shape.masks[local]);
                assert(word_bit(shape.masks[local], at));
                assert(!word_bit(0, at));
            } else {
                lemma_part_of(0, 0);
            }
        }
    }
}

/// Taking the ready jobs of a cluster keeps the state right, where none are taken yet.
pub(crate) proof fn lemma_take_keeps_order(
    plan: KernelPlan,
    state: KernelState,
    held: Seq<u64>,
    started: Set<JobId>,
    done: Set<JobId>,
    cluster: ClusterId,
)
    requires
        plan.fits(),
        plan.keeps_order(state, held, started, done),
        cluster < plan.clusters.len(),
        held[cluster as int] == 0,
    ensures
        plan.keeps_order(
            state.with_ready(cluster, 0),
            held.update(cluster as int, state.ready[cluster as int]),
            started,
            done,
        ),
{
    let after = state.with_ready(cluster, 0);
    let taken = held.update(cluster as int, state.ready[cluster as int]);
    assert forall|local: int| 0 <= local < 64 implies !#[trigger] word_bit(0u64, local) by {
        lemma_join_bits(0, 0, local as u64);
    }
    assert forall|other: int| 0 <= other < plan.clusters.len() implies names_jobs(
        #[trigger] after.ready[other],
        plan.clusters[other].len() as int,
    ) by {
        if other != cluster {
            assert(after.ready[other] == state.ready[other]);
        }
    }
    assert forall|other: int| 0 <= other < plan.clusters.len() implies names_jobs(
        #[trigger] taken[other],
        plan.clusters[other].len() as int,
    ) by {
        if other == cluster {
            assert(names_jobs(state.ready[other], plan.clusters[other].len() as int));
        } else {
            assert(taken[other] == held[other]);
        }
    }
    assert forall|job: JobId| #[trigger] plan.right_about(after, taken, started, done, job) by {
        assert(plan.right_about(state, held, started, done, job));
        if job < plan.placements.len() {
            let place = plan.placements[job as int];
            assert(plan.clusters[place.cluster as int].len() <= 16);
        }
    }
}

/// Whether anyone runs a cluster does not matter to the jobs.
pub(crate) proof fn lemma_queue_keeps_order(
    plan: KernelPlan,
    state: KernelState,
    held: Seq<u64>,
    started: Set<JobId>,
    done: Set<JobId>,
    cluster: ClusterId,
    queued: bool,
)
    requires
        plan.keeps_order(state, held, started, done),
        cluster < plan.clusters.len(),
    ensures
        plan.keeps_order(state.with_queued(cluster, queued), held, started, done),
{
    let after = state.with_queued(cluster, queued);
    assert forall|job: JobId| #[trigger] plan.right_about(after, held, started, done, job) by {
        assert(plan.right_about(state, held, started, done, job));
    }
}

/// The ready jobs that are taken once a runner has settled.
pub open spec fn held_after(
    held: Seq<u64>,
    runner: Runner,
    resting: Option<Runner>,
) -> Seq<u64> {
    let left = held.update(runner.cluster as int, 0);
    match resting {
        None => left,
        Some(resting) => left.update(resting.cluster as int, resting.ready),
    }
}

/// Finding a ready job to run keeps the state right.
pub(crate) proof fn lemma_settle_keeps_order(
    plan: KernelPlan,
    state: KernelState,
    held: Seq<u64>,
    started: Set<JobId>,
    done: Set<JobId>,
    runner: Runner,
)
    requires
        plan.fits(),
        plan.keeps_order(state, held, started, done),
        runner.cluster < plan.clusters.len(),
        held[runner.cluster as int] == runner.ready,
        runner.next matches Some(next) ==> next < plan.clusters.len() && next != runner.cluster
            && held[next as int] == 0,
    ensures
        plan.keeps_order(
            settled(state, runner).0,
            held_after(held, runner, settled(state, runner).1),
            started,
            done,
        ),
    decreases (if runner.next is Some { 1int } else { 0 }),
{
    let cluster = runner.cluster as int;
    if runner.ready != 0 {
        assert(held_after(held, runner, Some(runner)) =~= held);
    } else if state.ready[cluster] != 0 {
        lemma_take_keeps_order(plan, state, held, started, done, runner.cluster);
        assert(held_after(held, runner, settled(state, runner).1) =~= held.update(
            cluster,
            state.ready[cluster],
        ));
    } else {
        let left = state.with_queued(runner.cluster, false);
        lemma_queue_keeps_order(plan, state, held, started, done, runner.cluster, false);
        match runner.next {
            None => {
                assert(held_after(held, runner, None) =~= held);
            },
            Some(next) => {
                lemma_take_keeps_order(plan, left, held, started, done, next);
                let taken = held.update(next as int, left.ready[next as int]);
                let following = Runner {
                    cluster: next,
                    ready: left.ready[next as int],
                    next: None,
                };
                lemma_settle_keeps_order(
                    plan,
                    left.with_ready(next, 0),
                    taken,
                    started,
                    done,
                    following,
                );
                let resting = settled(left.with_ready(next, 0), following).1;
                assert(held_after(held, runner, resting) =~= held_after(
                    taken,
                    following,
                    resting,
                ));
            },
        }
    }
}

/// Starting a ready job keeps the state right, and keeps one job at a time running in its cluster
/// where none was. All that the job waits for is done.
pub(crate) proof fn lemma_start_keeps_order(
    plan: KernelPlan,
    state: KernelState,
    held: Seq<u64>,
    started: Set<JobId>,
    done: Set<JobId>,
    job: JobId,
)
    requires
        plan.fits(),
        plan.keeps_order(state, held, started, done),
        plan.one_at_a_time(started, done),
        job < plan.placements.len(),
        word_bit(
            held[plan.placements[job as int].cluster as int],
            plan.placements[job as int].local as int,
        ),
        forall|other: JobId|
            other < plan.placements.len() && plan.placements[other as int].cluster
                == plan.placements[job as int].cluster && #[trigger] started.contains(other)
                ==> done.contains(other),
    ensures
        ({
            let place = plan.placements[job as int];
            let word = held[place.cluster as int] & !bit_of(place.local);
            plan.keeps_order(
                state,
                held.update(place.cluster as int, word),
                started.insert(job),
                done,
            )
        }),
        plan.one_at_a_time(started.insert(job), done),
        !started.contains(job),
        plan.may_start(done, job),
{
    let place = plan.placements[job as int];
    let cluster = place.cluster as int;
    let local = place.local as int;
    let word = held[cluster] & !bit_of(place.local);
    let after = held.update(cluster, word);
    let now = started.insert(job);
    assert(plan.clusters[cluster].len() <= 16);
    assert(plan.right_about(state, held, started, done, job));
    assert forall|other: int| 0 <= other < plan.clusters.len() implies names_jobs(
        #[trigger] after[other],
        plan.clusters[other].len() as int,
    ) by {
        assert(names_jobs(held[other], plan.clusters[other].len() as int));
        if other == cluster {
            assert forall|at: int| 0 <= at < 64 && #[trigger] word_bit(word, at) implies at
                < plan.clusters[other].len() by {
                lemma_clear_bit(held[cluster], local as u64, at as u64);
                assert(word_bit(held[cluster], at));
            }
        }
    }
    assert forall|other: JobId| #[trigger] plan.right_about(state, after, now, done, other) by {
        assert(plan.right_about(state, held, started, done, other));
        if other < plan.placements.len() {
            let there = plan.placements[other as int];
            assert(plan.clusters[there.cluster as int].len() <= 16);
            if there.cluster == place.cluster {
                lemma_clear_bit(held[cluster], local as u64, there.local as u64);
                if there.local == place.local {
                    assert(plan.clusters[cluster][local] == other);
                }
            }
        }
    }
}

/// The place of a job, as that of a successor.
pub open spec fn at_place(place: ClusterPlacement) -> RemoteSuccessor {
    RemoteSuccessor { cluster: place.cluster, job: place.local }
}

proof fn lemma_take_push<T>(list: Seq<T>, until: int)
    requires
        0 < until <= list.len(),
    ensures
        list.take(until) == list.take(until - 1).push(list[until - 1]),
        forall|value: T| #[trigger]
            list.take(until).contains(value) == (list.take(until - 1).contains(value) || value
                == list[until - 1]),
{
    let shorter = list.take(until - 1);
    let longer = list.take(until);
    assert(longer =~= shorter.push(list[until - 1]));
    assert forall|value: T| #[trigger] longer.contains(value) == (shorter.contains(value) || value
        == list[until - 1]) by {
        if shorter.contains(value) {
            assert(longer[shorter.index_of(value)] == value);
        }
        if value == list[until - 1] {
            assert(longer[until - 1] == value);
        }
        if longer.contains(value) {
            let at = longer.index_of(value);
            if at < until - 1 {
                assert(shorter[at] == value);
            }
        }
    }
}

/// What waking jobs does to each job.
proof fn lemma_wake_all(
    shapes: Seq<ClusterShape>,
    state: KernelState,
    list: Seq<RemoteSuccessor>,
    until: int,
)
    requires
        0 <= until <= list.len(),
        list.no_duplicates(),
        shapes.len() <= u32::MAX,
        state.ready.len() == shapes.len(),
        state.done.len() == shapes.len(),
        state.queued.len() == shapes.len(),
        state.waits.len() == shapes.len(),
        forall|cluster: int|
            0 <= cluster < shapes.len() ==> (#[trigger] shapes[cluster]).fits()
                && state.waits[cluster].len() == shapes[cluster].names.len(),
        forall|index: int|
            #![trigger list[index]]
            0 <= index < list.len() ==> list[index].cluster < shapes.len() && list[index].job
                < shapes[list[index].cluster as int].names.len()
                && state.waits[list[index].cluster as int][list[index].job as int] > 0,
    ensures
        ({
            let after = wake_all(shapes, state, list, until).0;
            &&& after.done == state.done
            &&& after.ready.len() == shapes.len()
            &&& after.queued.len() == shapes.len()
            &&& after.waits.len() == shapes.len()
            &&& forall|cluster: int|
                0 <= cluster < shapes.len() ==> (#[trigger] after.waits[cluster]).len()
                    == shapes[cluster].names.len()
            &&& forall|cluster: ClusterId, local: LocalIndex|
                cluster < shapes.len() && local < shapes[cluster as int].names.len()
                    ==> #[trigger] after.waits[cluster as int][local as int]
                    == state.waits[cluster as int][local as int] - (if list.take(until).contains(
                    RemoteSuccessor { cluster, job: local },
                ) {
                    1int
                } else {
                    0
                })
            &&& forall|cluster: ClusterId, local: LocalIndex|
                cluster < shapes.len() && local < 64 ==> #[trigger] word_bit(
                    after.ready[cluster as int],
                    local as int,
                ) == (word_bit(state.ready[cluster as int], local as int) || list.take(
                    until,
                ).contains(RemoteSuccessor { cluster, job: local })
                    && state.waits[cluster as int][local as int] == 1 && !word_bit(
                    state.done[cluster as int],
                    local as int,
                ) && covers(
                    state.done[cluster as int],
                    shapes[cluster as int].masks[local as int],
                ))
            &&& forall|cluster: int|
                0 <= cluster < shapes.len() && (state.queued[cluster] || after.ready[cluster]
                    != state.ready[cluster]) ==> #[trigger] after.queued[cluster]
        }),
    decreases until,
{
    if until > 0 {
        lemma_wake_all(shapes, state, list, until - 1);
        lemma_take_push(list, until);
        let before = wake_all(shapes, state, list, until - 1).0;
        let after = wake_all(shapes, state, list, until).0;
        let last = list[until - 1];
        let c = last.cluster as int;
        let l = last.job as int;
        assert(shapes[c].fits());
        assert(!list.take(until - 1).contains(last)) by {
            if list.take(until - 1).contains(last) {
                let at = list.take(until - 1).index_of(last);
                assert(list[at] == list[until - 1]);
            }
        }
        assert(before.waits[last.cluster as int][last.job as int] == state.waits[c][l]);
        assert(word_bit(before.ready[last.cluster as int], last.job as int) == word_bit(
            state.ready[c],
            l,
        ));
        assert forall|cluster: ClusterId, local: LocalIndex|
            cluster < shapes.len() && local < 64 implies #[trigger] word_bit(
            after.ready[cluster as int],
            local as int,
        ) == (word_bit(state.ready[cluster as int], local as int) || list.take(until).contains(
            RemoteSuccessor { cluster, job: local },
        ) && state.waits[cluster as int][local as int] == 1 && !word_bit(
            state.done[cluster as int],
            local as int,
        ) && covers(
            state.done[cluster as int],
            shapes[cluster as int].masks[local as int],
        )) by {
            assert(word_bit(before.ready[cluster as int], local as int) == (word_bit(
                state.ready[cluster as int],
                local as int,
            ) || list.take(until - 1).contains(RemoteSuccessor { cluster, job: local })
                && state.waits[cluster as int][local as int] == 1 && !word_bit(
                state.done[cluster as int],
                local as int,
            ) && covers(
                state.done[cluster as int],
                shapes[cluster as int].masks[local as int],
            )));
            if cluster == last.cluster {
                lemma_set_bit(before.ready[c], last.job as u64, local as u64);
            }
        }
        assert forall|cluster: ClusterId, local: LocalIndex|
            cluster < shapes.len() && local
                < shapes[cluster as int].names.len() implies #[trigger] after.waits[cluster as int][local as int]
            == state.waits[cluster as int][local as int] - (if list.take(until).contains(
            RemoteSuccessor { cluster, job: local },
        ) {
            1int
        } else {
            0
        }) by {
            assert(before.waits[cluster as int][local as int]
                == state.waits[cluster as int][local as int] - (if list.take(until - 1).contains(
                RemoteSuccessor { cluster, job: local },
            ) {
                1int
            } else {
                0
            }));
        }
        assert forall|cluster: int|
            0 <= cluster < shapes.len() && (state.queued[cluster] || after.ready[cluster]
                != state.ready[cluster]) implies #[trigger] after.queued[cluster] by {
            assert(before.queued[cluster] || !before.queued[cluster]);
        }
    } else {
        assert(list.take(until) =~= Seq::empty());
    }
}

/// What unlocking jobs does to each job of a cluster.
proof fn lemma_unlock(
    shape: ClusterShape,
    waits: Seq<u32>,
    done: u64,
    ready: u64,
    list: Seq<LocalIndex>,
    until: int,
)
    requires
        0 <= until <= list.len(),
        forall|index: int| 0 <= index < list.len() ==> (#[trigger] list[index]) < 64,
    ensures
        forall|local: LocalIndex|
            local < 64 ==> #[trigger] word_bit(
                unlock(shape, waits, done, ready, list, until),
                local as int,
            ) == (word_bit(ready, local as int) || list.take(until).contains(local) && !word_bit(
                done,
                local as int,
            ) && waits[local as int] == 0 && covers(done, shape.masks[local as int])),
    decreases until,
{
    if until > 0 {
        lemma_unlock(shape, waits, done, ready, list, until - 1);
        lemma_take_push(list, until);
        let rest = unlock(shape, waits, done, ready, list, until - 1);
        let after = unlock(shape, waits, done, ready, list, until);
        let last = list[until - 1];
        assert forall|local: LocalIndex|
            local < 64 implies #[trigger] word_bit(after, local as int) == (word_bit(
            ready,
            local as int,
        ) || list.take(until).contains(local) && !word_bit(done, local as int)
            && waits[local as int] == 0 && covers(done, shape.masks[local as int])) by {
            assert(word_bit(rest, local as int) == (word_bit(ready, local as int) || list.take(
                until - 1,
            ).contains(local) && !word_bit(done, local as int) && waits[local as int] == 0
                && covers(done, shape.masks[local as int])));
            lemma_set_bit(rest, last as u64, local as u64);
        }
    } else {
        assert(list.take(until) =~= Seq::empty());
    }
}

/// Which jobs of other clusters are among those of a list.
pub(crate) proof fn lemma_outside(plan: KernelPlan, cluster: ClusterId, list: Seq<JobId>, until: int)
    requires
        plan.fits(),
        0 <= until <= list.len(),
        ascending(list),
        forall|index: int|
            0 <= index < list.len() ==> (#[trigger] list[index]) < plan.placements.len(),
    ensures
        outside(plan.placements, cluster, list, until).no_duplicates(),
        forall|place: RemoteSuccessor| #[trigger]
            outside(plan.placements, cluster, list, until).contains(place) ==> place.cluster
                < plan.clusters.len() && place.job < plan.clusters[place.cluster as int].len()
                && place.cluster != cluster && list.take(until).contains(
                plan.clusters[place.cluster as int][place.job as int],
            ),
        forall|job: JobId|
            job < plan.placements.len() && plan.placements[job as int].cluster != cluster
                && #[trigger] list.take(until).contains(job) ==> outside(
                plan.placements,
                cluster,
                list,
                until,
            ).contains(at_place(plan.placements[job as int])),
    decreases until,
{
    if until > 0 {
        lemma_outside(plan, cluster, list, until - 1);
        lemma_take_push(list, until);
        let shorter = outside(plan.placements, cluster, list, until - 1);
        let longer = outside(plan.placements, cluster, list, until);
        let last = list[until - 1];
        let place = plan.placements[last as int];
        if place.cluster != cluster {
            let new = at_place(place);
            assert(longer == shorter.push(new));
            crate::ready::lemma_push_to_set(list.take(until - 1), last);
            if shorter.contains(new) {
                assert(list.take(until - 1).contains(plan.clusters[new.cluster as int][new.job as int]));
                let at = list.take(until - 1).index_of(last);
                assert(list[at] < list[until - 1]);
            }
            assert forall|l: int, r: int|
                0 <= l < longer.len() && 0 <= r < longer.len() && l != r implies longer[l]
                != longer[r] by {
                if l == shorter.len() {
                    assert(shorter.contains(shorter[r]));
                } else if r == shorter.len() {
                    assert(shorter.contains(shorter[l]));
                }
            }
            assert forall|other: RemoteSuccessor| #[trigger] longer.contains(other) == (
            shorter.contains(other) || other == new) by {
                lemma_take_push(longer, longer.len() as int);
                assert(longer.take(longer.len() as int) =~= longer);
                assert(longer.take(longer.len() - 1) =~= shorter);
            }
        }
        assert forall|job: JobId|
            job < plan.placements.len() && plan.placements[job as int].cluster != cluster
                && #[trigger] list.take(until).contains(job) implies longer.contains(
            at_place(plan.placements[job as int]),
        ) by {
            if list.take(until - 1).contains(job) {
                assert(shorter.contains(at_place(plan.placements[job as int])));
            }
        }
    } else {
        assert(list.take(until) =~= Seq::empty());
    }
}

/// Which jobs of a cluster are among those of a list.
pub(crate) proof fn lemma_inside(plan: KernelPlan, cluster: ClusterId, list: Seq<JobId>, until: int)
    requires
        plan.fits(),
        cluster < plan.clusters.len(),
        0 <= until <= list.len(),
        forall|index: int|
            0 <= index < list.len() ==> (#[trigger] list[index]) < plan.placements.len(),
    ensures
        forall|local: LocalIndex| #[trigger]
            inside(plan.placements, cluster, list, until).contains(local) == (local
                < plan.clusters[cluster as int].len() && list.take(until).contains(
                plan.clusters[cluster as int][local as int],
            )),
    decreases until,
{
    let longer = inside(plan.placements, cluster, list, until);
    if until > 0 {
        lemma_inside(plan, cluster, list, until - 1);
        lemma_take_push(list, until);
        let shorter = inside(plan.placements, cluster, list, until - 1);
        let last = list[until - 1];
        let place = plan.placements[last as int];
        assert forall|local: LocalIndex| #[trigger] longer.contains(local) == (local
            < plan.clusters[cluster as int].len() && list.take(until).contains(
            plan.clusters[cluster as int][local as int],
        )) by {
            assert(shorter.contains(local) == (local < plan.clusters[cluster as int].len()
                && list.take(until - 1).contains(plan.clusters[cluster as int][local as int])));
            if place.cluster == cluster {
                lemma_take_push(longer, longer.len() as int);
                assert(longer.take(longer.len() as int) =~= longer);
                assert(longer.take(longer.len() - 1) =~= shorter);
                assert(longer.contains(local) == (shorter.contains(local) || local
                    == place.local));
            }
            if local < plan.clusters[cluster as int].len()
                && plan.clusters[cluster as int][local as int] == last {
                assert(place.cluster == cluster && place.local == local);
            }
        }
    } else {
        assert(list.take(until) =~= Seq::empty());
    }
}

/// What a finished job changes for one job.
proof fn lemma_finish_one(
    plan: KernelPlan,
    shapes: Seq<ClusterShape>,
    state: KernelState,
    held: Seq<u64>,
    started: Set<JobId>,
    done: Set<JobId>,
    job: JobId,
    after: KernelState,
    word: u64,
    other: JobId,
)
    requires
        plan.fits(),
        plan.shaped(shapes),
        plan.keeps_order(state, held, started, done),
        job < plan.placements.len(),
        started.contains(job),
        !done.contains(job),
        other < plan.placements.len(),
        ({
            let place = plan.placements[job as int];
            let c = place.cluster as int;
            let bits = state.done[c] | bit_of(place.local);
            let there = plan.placements[other as int];
            let d = there.cluster as int;
            let m = there.local as int;
            let remotes = plan.remote_list(job);
            let locals = plan.local_list(job);
            &&& after.done == state.done.update(c, bits)
            &&& after.waits[d][m] == state.waits[d][m] - (if remotes.contains(at_place(there)) {
                1int
            } else {
                0
            })
            &&& word_bit(after.ready[d], m) == (word_bit(state.ready[d], m) || remotes.contains(
                at_place(there),
            ) && state.waits[d][m] == 1 && !word_bit(after.done[d], m) && covers(
                after.done[d],
                shapes[d].masks[m],
            ))
            &&& d == c ==> word_bit(word, m) == (word_bit(held[c], m) || locals.contains(
                there.local,
            ) && !word_bit(bits, m) && state.waits[c][m] == 0 && covers(bits, shapes[c].masks[m]))
        }),
    ensures
        plan.right_about(
            after,
            held.update(plan.placements[job as int].cluster as int, word),
            started,
            done.insert(job),
            other,
        ),
{
    let place = plan.placements[job as int];
    let c = place.cluster as int;
    let there = plan.placements[other as int];
    let d = there.cluster as int;
    let m = there.local as int;
    let now = done.insert(job);
    let bits = state.done[c] | bit_of(place.local);
    let list = plan.predecessors[other as int];
    let followers = plan.successors[job as int];
    let end = followers.len() as int;
    assert(plan.right_about(state, held, started, done, job));
    assert(plan.right_about(state, held, started, done, other));
    assert(plan.shaped_job(shapes, other));
    assert(plan.clusters[c].len() <= 16 && plan.clusters[d].len() <= 16);
    assert(shapes[d].fits() && shapes[c].fits());
    assert(followers.contains(other) == list.contains(job));
    assert forall|index: int| 0 <= index < followers.len() implies (#[trigger] followers[index])
        < plan.placements.len() by {
        assert(followers.contains(followers[index]));
    }
    lemma_outside(plan, place.cluster, followers, end);
    lemma_inside(plan, place.cluster, followers, end);
    assert(followers.take(end) =~= followers);
    assert(plan.remote_list(job).contains(at_place(there)) == (there.cluster != place.cluster
        && list.contains(job)));
    if there.cluster == place.cluster {
        assert(plan.clusters[c][m] == other);
        assert(plan.local_list(job).contains(there.local) == list.contains(job));
    }
    lemma_one_less_outside(
        plan.placements,
        there.cluster,
        list,
        done,
        job,
        list.len() as int,
    );
    assert(list.take(list.len() as int) =~= list);
    if d == c {
        lemma_set_bit(state.done[c], place.local as u64, there.local as u64);
        if there.local == place.local {
            assert(plan.clusters[c][m] == other && plan.clusters[c][place.local as int] == job);
        }
    }
    assert forall|local: int| 0 <= local < plan.clusters[d].len() implies #[trigger] word_bit(
        after.done[d],
        local,
    ) == now.contains(plan.clusters[d][local]) by {
        let member = plan.clusters[d][local];
        assert(plan.right_about(state, held, started, done, member));
        assert(plan.placements[member as int].cluster == d);
        assert(plan.placements[member as int].local == local);
        if d == c {
            lemma_set_bit(state.done[c], place.local as u64, local as u64);
            if local == place.local {
                assert(member == job);
            }
        }
    }
    lemma_may_start(plan, shapes[d].masks[m], after.done[d], now, other);
    if list.contains(job) {
        let index = list.index_of(job);
        assert(plan.predecessors[other as int][index] == job);
        assert(!plan.may_start(done, other));
        lemma_missing_outside(
            plan.placements,
            there.cluster,
            list,
            done,
            list.len() as int,
        );
    } else {
        assert(plan.may_start(now, other) == plan.may_start(done, other)) by {
            if plan.may_start(now, other) {
                assert forall|index: int| 0 <= index < list.len() implies done.contains(
                    #[trigger] plan.predecessors[other as int][index],
                ) by {
                    assert(now.contains(plan.predecessors[other as int][index]));
                    assert(list.contains(list[index]));
                }
            }
        }
    }
}

/// Taking note that a job has finished keeps the state right.
pub(crate) proof fn lemma_finish_keeps_order(
    plan: KernelPlan,
    shapes: Seq<ClusterShape>,
    state: KernelState,
    held: Seq<u64>,
    started: Set<JobId>,
    done: Set<JobId>,
    runner: Runner,
    job: JobId,
)
    requires
        plan.fits(),
        plan.shaped(shapes),
        plan.keeps_order(state, held, started, done),
        plan.one_at_a_time(started, done),
        job < plan.placements.len(),
        started.contains(job),
        !done.contains(job),
        runner.cluster == plan.placements[job as int].cluster,
        held[runner.cluster as int] == runner.ready,
    ensures
        ({
            let local = plan.placements[job as int].local;
            let (after, running, spawned) = finished(shapes, state, runner, local);
            plan.keeps_order(
                after,
                held.update(runner.cluster as int, running.ready),
                started,
                done.insert(job),
            )
        }),
        plan.one_at_a_time(started, done.insert(job)),
        none_left_behind(state) ==> none_left_behind(
            finished(shapes, state, runner, plan.placements[job as int].local).0,
        ),
{
    let place = plan.placements[job as int];
    let c = place.cluster as int;
    let local = place.local;
    let shape = shapes[c];
    let bits = state.done[c] | bit_of(local);
    let middle = state.with_done(place.cluster, bits);
    let (after, running, spawned) = finished(shapes, state, runner, local);
    let remotes = plan.remote_list(job);
    let locals = plan.local_list(job);
    let followers = plan.successors[job as int];
    let end = followers.len() as int;
    assert(plan.shaped_job(shapes, job));
    assert(shape.fits());
    assert(plan.clusters[c].len() <= 16);
    assert(plan.right_about(state, held, started, done, job));
    assert forall|index: int| 0 <= index < followers.len() implies (#[trigger] followers[index])
        < plan.placements.len() by {
        assert(followers.contains(followers[index]));
    }
    lemma_outside(plan, place.cluster, followers, end);
    lemma_inside(plan, place.cluster, followers, end);
    assert(followers.take(end) =~= followers);
    assert forall|index: int|
        #![trigger remotes[index]]
        0 <= index < remotes.len() implies remotes[index].cluster < shapes.len()
        && remotes[index].job < shapes[remotes[index].cluster as int].names.len()
        && middle.waits[remotes[index].cluster as int][remotes[index].job as int] > 0 by {
        let found = remotes[index];
        assert(remotes.contains(found));
        let other = plan.clusters[found.cluster as int][found.job as int];
        assert(followers.contains(other));
        let list = plan.predecessors[other as int];
        assert(list.contains(job));
        assert(plan.right_about(state, held, started, done, other));
        lemma_missing_outside(
            plan.placements,
            found.cluster,
            list,
            done,
            list.len() as int,
        );
        let at = list.index_of(job);
        assert(list[at] == job);
        assert(shapes[found.cluster as int].names == plan.clusters[found.cluster as int]);
    }
    assert forall|cluster: int| 0 <= cluster < shapes.len() implies (
    #[trigger] shapes[cluster]).fits() && middle.waits[cluster].len()
        == shapes[cluster].names.len() by {
        assert(state.waits[cluster].len() == plan.clusters[cluster].len());
    }
    lemma_wake_all(shapes, middle, remotes, remotes.len() as int);
    assert(remotes.take(remotes.len() as int) =~= remotes);
    assert forall|index: int| 0 <= index < locals.len() implies (#[trigger] locals[index])
        < 64 by {
        assert(locals.contains(locals[index]));
    }
    let considered = if shape.mode == ClusterMode::Serial && locals.len() > 1 {
        1
    } else {
        locals.len() as int
    };
    assert(shape.locals[local as int] == locals);
    assert(considered == locals.len());
    lemma_unlock(shape, state.waits[c], bits, runner.ready, locals, considered);
    assert(locals.take(considered) =~= locals);
    assert(running.ready == unlock(shape, state.waits[c], bits, runner.ready, locals, considered));
    let taken = held.update(c, running.ready);
    assert forall|other: JobId| #[trigger] plan.right_about(
        after,
        taken,
        started,
        done.insert(job),
        other,
    ) by {
        if other < plan.placements.len() {
            let there = plan.placements[other as int];
            assert(plan.clusters[there.cluster as int].len() <= 16);
            assert(shapes[there.cluster as int].names == plan.clusters[there.cluster as int]);
            assert(after.waits[there.cluster as int].len() > there.local);
            assert(word_bit(after.ready[there.cluster as int], there.local as int) == word_bit(
                after.ready[there.cluster as int],
                there.local as int,
            ));
            lemma_finish_one(
                plan,
                shapes,
                state,
                held,
                started,
                done,
                job,
                after,
                running.ready,
                other,
            );
        }
    }
    assert forall|cluster: int| 0 <= cluster < plan.clusters.len() implies names_jobs(
        #[trigger] after.ready[cluster],
        plan.clusters[cluster].len() as int,
    ) by {
        assert(names_jobs(state.ready[cluster], plan.clusters[cluster].len() as int));
        assert forall|at: int| 0 <= at < 64 && #[trigger] word_bit(
            after.ready[cluster],
            at,
        ) implies at < plan.clusters[cluster].len() by {
            let id = cluster as ClusterId;
            let index = at as LocalIndex;
            assert(word_bit(after.ready[id as int], index as int));
            if !word_bit(state.ready[cluster], at) {
                assert(remotes.contains(RemoteSuccessor { cluster: id, job: index }));
            }
        }
    }
    assert forall|cluster: int| 0 <= cluster < plan.clusters.len() implies names_jobs(
        #[trigger] taken[cluster],
        plan.clusters[cluster].len() as int,
    ) by {
        assert(names_jobs(held[cluster], plan.clusters[cluster].len() as int));
        if cluster == c {
            assert forall|at: int| 0 <= at < 64 && #[trigger] word_bit(
                running.ready,
                at,
            ) implies at < plan.clusters[cluster].len() by {
                let index = at as LocalIndex;
                assert(word_bit(running.ready, index as int));
                if !word_bit(runner.ready, at) {
                    assert(locals.contains(index));
                }
            }
        }
    }
    assert forall|cluster: int| 0 <= cluster < plan.clusters.len() implies (
    #[trigger] after.waits[cluster]).len() == plan.clusters[cluster].len() by {
        assert(shapes[cluster].names == plan.clusters[cluster]);
    }
    if none_left_behind(state) {
        assert forall|cluster: int|
            0 <= cluster < after.ready.len() && #[trigger] after.ready[cluster]
                != 0 implies after.queued[cluster] by {
            if after.ready[cluster] == middle.ready[cluster] {
                assert(state.ready[cluster] != 0);
            }
        }
    }
}

/// As long as not all jobs are done, and none is running, some job is ready: a run does not stall.
pub proof fn cluster_runs_do_not_stall(
    plan: KernelPlan,
    state: KernelState,
    held: Seq<u64>,
    done: Set<JobId>,
    job: JobId,
) -> (next: JobId)
    requires
        plan.fits(),
        crate::kernel::ranked_forward(plan.orientation.rank, plan.predecessors),
        plan.keeps_order(state, held, done, done),
        job < plan.placements.len(),
        !done.contains(job),
    ensures
        next < plan.placements.len(),
        !done.contains(next),
        ({
            let place = plan.placements[next as int];
            word_bit(state.ready[place.cluster as int], place.local as int) || word_bit(
                held[place.cluster as int],
                place.local as int,
            )
        }),
    decreases plan.orientation.rank[job as int],
{
    assert(plan.right_about(state, held, done, done, job));
    if plan.may_start(done, job) {
        job
    } else {
        let index = choose|index: int|
            0 <= index < plan.predecessors[job as int].len() && !done.contains(
                #[trigger] plan.predecessors[job as int][index],
            );
        let earlier = plan.predecessors[job as int][index];
        cluster_runs_do_not_stall(plan, state, held, done, earlier)
    }
}

/// Whether someone runs each cluster with ready jobs.
pub open spec fn none_left_behind(state: KernelState) -> bool {
    forall|cluster: int|
        0 <= cluster < state.ready.len() && #[trigger] state.ready[cluster] != 0
            ==> state.queued[cluster]
}

/// Whoever looks for a ready job leaves none behind: a cluster that still has ready jobs has those
/// that it had, and is queued as it was.
pub proof fn settling_leaves_none_behind(state: KernelState, runner: Runner)
    requires
        runner.cluster < state.ready.len(),
        state.queued.len() == state.ready.len(),
        runner.next matches Some(next) ==> next < state.ready.len(),
    ensures
        settled(state, runner).0.ready.len() == state.ready.len(),
        settled(state, runner).0.queued.len() == state.queued.len(),
        forall|cluster: int|
            0 <= cluster < state.ready.len() && #[trigger] settled(state, runner).0.ready[cluster]
                != 0 ==> state.ready[cluster] != 0 && settled(state, runner).0.queued[cluster]
                == state.queued[cluster],
        none_left_behind(state) ==> none_left_behind(settled(state, runner).0),
    decreases (if runner.next is Some { 1int } else { 0 }),
{
    let cluster = runner.cluster as int;
    let after = settled(state, runner).0;
    if runner.ready == 0 && state.ready[cluster] == 0 {
        let left = state.with_queued(runner.cluster, false);
        if let Some(next) = runner.next {
            let taken = left.with_ready(next, 0);
            let following = Runner { cluster: next, ready: left.ready[next as int], next: None };
            settling_leaves_none_behind(taken, following);
            assert(after == settled(taken, following).0);
            assert forall|other: int|
                0 <= other < state.ready.len() && #[trigger] after.ready[other]
                    != 0 implies state.ready[other] != 0 && after.queued[other]
                == state.queued[other] by {
                assert(taken.ready[other] != 0);
            }
        }
    }
    if none_left_behind(state) {
        assert forall|other: int|
            0 <= other < after.ready.len() && #[trigger] after.ready[other]
                != 0 implies after.queued[other] by {
            assert(state.ready[other] != 0);
        }
    }
}

/// A path of places leads, job by job, along predecessors; so the last job of a path starts after
/// the first is done.
pub(crate) proof fn lemma_path_is_waited_for(
    plan: KernelPlan,
    started: Set<JobId>,
    done: Set<JobId>,
    from: int,
    to: int,
)
    requires
        plan.fits(),
        renamed(
            plan.orientation.order,
            plan.orientation.rank,
            plan.orientation.before,
            plan.predecessors,
        ),
        plan.orientation.before.len() == plan.orientation.order.len(),
        plan.orderly(started, done),
        reaches(plan.orientation.before, from, to),
        started.contains(plan.orientation.order[to]),
    ensures
        done.contains(plan.orientation.order[from]),
    decreases to,
{
    let before = plan.orientation.before;
    let order = plan.orientation.order;
    let rank = plan.orientation.rank;
    crate::dag::lemma_reaches_forward(before, from, to);
    let index = choose|index: int|
        0 <= index < before[to].len() && (#[trigger] before[to][index]) < to && (before[to][index]
            == from || reaches(before, from, before[to][index] as int));
    let middle = before[to][index];
    let job = order[to];
    let earlier = order[middle as int];
    assert(rank[order[to] as int] == to);
    assert(rank[order[middle as int] as int] == middle);
    assert(before[to].contains(middle));
    assert(plan.predecessors[job as int].contains(earlier));
    let at = plan.predecessors[job as int].index_of(earlier);
    assert(started.contains(job));
    assert(done.contains(plan.predecessors[job as int][at]));
    if middle != from {
        assert(done.contains(earlier));
        assert(started.contains(earlier));
        lemma_path_is_waited_for(plan, started, done, from, middle as int);
    }
}

/// Where no two jobs of a cluster run at the same time, related jobs do not overlap.
pub(crate) proof fn lemma_one_at_a_time_is_apart(
    declared: Seq<Seq<DependencyView>>,
    plan: KernelPlan,
    started: Set<JobId>,
    done: Set<JobId>,
    left: JobId,
    right: JobId,
)
    requires
        all_consistent(declared),
        kernel_planned(declared, plan),
        plan.orderly(started, done),
        plan.one_at_a_time(started, done),
        left < right < declared.len(),
        relation_of(declared[left as int], declared[right as int]) != Relation::Free,
    ensures
        started.contains(left) && started.contains(right) ==> done.contains(left) || done.contains(
            right,
        ),
        relation_of(declared[left as int], declared[right as int]) == Relation::Strict
            && started.contains(right) ==> done.contains(left),
{
    let orientation = plan.orientation;
    let order = orientation.order;
    let worths = kernel_worths(plan.setting.stats);
    let l = orientation.rank[left as int] as int;
    let r = orientation.rank[right as int] as int;
    assert(order[l] == left && order[r] == right);
    if relation_of(declared[left as int], declared[right as int]) == Relation::Strict {
        strict_jobs_are_oriented(
            declared,
            Some(KeyView::Identifier(usize::MAX as int)),
            plan.setting,
            worths,
            plan.left_out(),
            orientation,
            left as int,
            right as int,
        );
        if started.contains(right) {
            lemma_path_is_waited_for(plan, started, done, l, r);
        }
    } else {
        let key = lemma_relaxed_jobs_clash(
            declared[left as int],
            declared[right as int],
            plan.setting.normals[left as int],
            plan.setting.normals[right as int],
        );
        if plan.left_out().contains(key) {
            assert(is_dynamic(plan.setting.normals, plan.placements, key));
            let cluster = choose|cluster: ClusterId| #[trigger]
                dynamic_in(plan.setting.normals, plan.placements, key, cluster);
            assert(dynamic_in(plan.setting.normals, plan.placements, key, cluster));
            assert(plan.placements[left as int].cluster == cluster);
            assert(plan.placements[right as int].cluster == cluster);
        } else {
            clashing_jobs_are_oriented(
                plan.setting,
                worths,
                plan.left_out(),
                orientation,
                left as int,
                right as int,
                key,
            );
            if started.contains(left) && started.contains(right) {
                if reaches(orientation.before, l, r) {
                    lemma_path_is_waited_for(plan, started, done, l, r);
                } else {
                    lemma_path_is_waited_for(plan, started, done, r, l);
                }
            }
        }
    }
}

/// In a plan of declared jobs each job comes after its predecessors in the order of priority.
pub proof fn planned_jobs_follow_their_predecessors(
    declared: Seq<Seq<DependencyView>>,
    plan: KernelPlan,
)
    requires
        kernel_planned(declared, plan),
    ensures
        crate::kernel::ranked_forward(plan.orientation.rank, plan.predecessors),
{
    let orientation = plan.orientation;
    let rank = orientation.rank;
    crate::orient::lemma_oriented_is_backward(
        plan.setting.normals,
        orientation.order,
        plan.setting.predecessors,
        plan.left_out(),
        orientation.candidates,
    );
    crate::plan::lemma_reduced_is_proper(orientation.candidates, orientation.before);
    assert forall|job: int, index: int|
        0 <= job < plan.predecessors.len() && 0 <= index
            < plan.predecessors[job].len() implies rank[(
    #[trigger] plan.predecessors[job][index]) as int] < rank[job] by {
        let other = plan.predecessors[job][index];
        assert(plan.predecessors[job].contains(other));
        let list = orientation.before[rank[job] as int];
        assert(orientation.order[rank[job] as int] == job);
        let at = list.index_of(rank[other as int]);
        assert(orientation.before[rank[job] as int][at] < rank[job]);
    }
}

/// A cluster as it has been planned has the planned shape.
pub(crate) proof fn lemma_planned_shape(plan: KernelPlan, cluster: int, made: Cluster)
    requires
        plan.fits(),
        0 <= cluster < plan.clusters.len(),
        plan.plans_cluster(cluster, made),
        joined(plan.local_lists(cluster), plan.clusters[cluster].len() as int).len() <= u32::MAX,
        joined(plan.remote_lists(cluster), plan.clusters[cluster].len() as int).len() <= u32::MAX,
    ensures
        made.ranged(),
        made.shape().fits(),
        made.shape().names == plan.clusters[cluster],
        forall|local: int|
            0 <= local < plan.clusters[cluster].len() ==> (#[trigger] made.shape().locals[local])
                == plan.local_list(plan.clusters[cluster][local]),
        forall|local: int|
            0 <= local < plan.clusters[cluster].len() ==> (#[trigger] made.shape().remotes[local])
                == plan.remote_list(plan.clusters[cluster][local]),
        made.mode == ClusterMode::Serial ==> forall|local: int|
            0 <= local < made.shape().locals.len() ==> (
            #[trigger] made.shape().locals[local]).len() <= 1,
{
    let members = plan.clusters[cluster];
    let shape = made.shape();
    let end = members.len() as int;
    assert(shape.names =~= members) by {
        assert forall|local: int| 0 <= local < end implies shape.names[local] == members[local] by {
            assert(plan.plans_job(members[local], made.jobs@[local]));
        }
    }
    assert forall|local: int| 0 <= local < end implies range_within(
        made.local_successors@,
        (#[trigger] made.jobs@[local]).local_successor_range,
    ) && range_within(made.remote_successors@, made.jobs@[local].remote_successor_range)
        && made.locals_of(local) == plan.local_list(members[local]) && made.remotes_of(local)
        == plan.remote_list(members[local]) by {
        lemma_joined(plan.local_lists(cluster), local, end);
        lemma_joined(plan.remote_lists(cluster), local, end);
        assert(made.jobs@[local].local_successor_range == joined_range(
            plan.local_lists(cluster),
            local,
        ));
        assert(plan.local_lists(cluster)[local] == plan.local_list(members[local]));
        assert(plan.remote_lists(cluster)[local] == plan.remote_list(members[local]));
    }
    assert forall|local: int| 0 <= local < end implies (#[trigger] shape.locals[local])
        == plan.local_list(members[local]) by {
        assert(made.jobs@[local].job == members[local]);
        assert(shape.locals[local] == made.locals_of(local));
    }
    assert forall|local: int| 0 <= local < end implies (#[trigger] shape.remotes[local])
        == plan.remote_list(members[local]) by {
        assert(made.jobs@[local].job == members[local]);
        assert(shape.remotes[local] == made.remotes_of(local));
    }
    assert forall|local: int, index: int|
        0 <= local < end && 0 <= index < shape.locals[local].len() implies (
    #[trigger] shape.locals[local][index]) < end by {
        let job = members[local];
        assert(plan.clusters[cluster][local] < plan.placements.len());
        assert(plan.placements[job as int].cluster == cluster);
        let followers = plan.successors[job as int];
        assert forall|at: int| 0 <= at < followers.len() implies (#[trigger] followers[at])
            < plan.placements.len() by {
            assert(followers.contains(followers[at]));
        }
        lemma_inside(plan, cluster as ClusterId, followers, followers.len() as int);
        assert(plan.local_list(job).contains(shape.locals[local][index]));
    }
    if made.mode == ClusterMode::Serial {
        assert forall|local: int| 0 <= local < shape.locals.len() implies (
        #[trigger] shape.locals[local]).len() <= 1 by {
            assert(plan.local_lists(cluster)[local] == plan.local_list(members[local]));
            assert(made.jobs@[local].job == members[local]);
        }
    }
}

/// A schedule that has just been compiled can be run, has the shape of its plan, and is in the state
/// before a run, unless the lists of successors are too long for their ranges.
pub proof fn compiled_clusters_are_sound<R>(
    plan: KernelPlan,
    runs: Seq<R>,
    schedule: Schedule<R>,
)
    requires
        plan.fits(),
        schedule.follows(plan, runs),
        forall|cluster: int|
            #![trigger plan.clusters[cluster]]
            0 <= cluster < plan.clusters.len() ==> joined(
                plan.local_lists(cluster),
                plan.clusters[cluster].len() as int,
            ).len() <= u32::MAX && joined(
                plan.remote_lists(cluster),
                plan.clusters[cluster].len() as int,
            ).len() <= u32::MAX,
    ensures
        schedule.sound(),
        plan.shaped(schedule.shapes()),
        schedule.state() == initial_state(schedule.shapes()),
        ready_names_jobs(schedule.shapes(), schedule.state()),
{
    let all = schedule.shapes();
    let clusters = schedule.clusters@;
    assert forall|cluster: int|
        #![trigger clusters[cluster]]
        0 <= cluster < clusters.len() implies clusters[cluster].ranged()
        && clusters[cluster].shape().fits() by {
        assert(plan.clusters[cluster].len() <= 16);
        lemma_planned_shape(plan, cluster, clusters[cluster]);
    }
    assert forall|cluster: int|
        #![trigger all[cluster]]
        0 <= cluster < all.len() implies {
        &&& all[cluster].fits()
        &&& all[cluster].names == plan.clusters[cluster]
        &&& all[cluster].mode == ClusterMode::Serial ==> forall|local: int|
            0 <= local < all[cluster].locals.len() ==> (#[trigger] all[cluster].locals[local]).len()
                <= 1
    } by {
        assert(all[cluster] == clusters[cluster].shape());
        assert(plan.clusters[cluster].len() <= 16);
        lemma_planned_shape(plan, cluster, clusters[cluster]);
    }
    assert forall|job: JobId| #[trigger] plan.shaped_job(all, job) by {
        if job < plan.placements.len() {
            let place = plan.placements[job as int];
            let cluster = place.cluster as int;
            let made = clusters[cluster];
            assert(plan.clusters[cluster].len() <= 16);
            assert(plan.clusters[cluster][place.local as int] == job);
            lemma_planned_shape(plan, cluster, made);
            assert(plan.plans_job(job, made.jobs@[place.local as int]));
            assert(all[cluster] == made.shape());
            assert(word_bit(made.ready_mask_initial, place.local as int) == (
            made.jobs@[place.local as int].local_predecessor_mask == 0
                && made.jobs@[place.local as int].external_wait_initial == 0));
        }
    }
    assert forall|cluster: int, local: int, index: int|
        0 <= cluster < all.len() && 0 <= local < all[cluster].remotes.len() && 0 <= index
            < all[cluster].remotes[local].len() implies ({
        let successor = #[trigger] all[cluster].remotes[local][index];
        successor.cluster < all.len() && successor.job
            < all[successor.cluster as int].names.len()
    }) by {
        let job = plan.clusters[cluster][local];
        assert(all[cluster] == clusters[cluster].shape());
        assert(plan.clusters[cluster].len() <= 16);
        lemma_planned_shape(plan, cluster, clusters[cluster]);
        assert(plan.clusters[cluster][local] < plan.placements.len());
        assert(plan.placements[job as int].cluster == cluster);
        let followers = plan.successors[job as int];
        assert forall|at: int| 0 <= at < followers.len() implies (#[trigger] followers[at])
            < plan.placements.len() by {
            assert(followers.contains(followers[at]));
        }
        lemma_outside(plan, cluster as ClusterId, followers, followers.len() as int);
        let successor = all[cluster].remotes[local][index];
        assert(plan.remote_list(job).contains(successor));
        assert(all[successor.cluster as int].names == plan.clusters[successor.cluster as int]);
    }
    let state = schedule.state();
    let goal = initial_state(all);
    assert forall|cluster: int| 0 <= cluster < clusters.len() implies state.ready[cluster]
        == goal.ready[cluster] && state.done[cluster] == 0 && !state.queued[cluster]
        && state.waits[cluster] == goal.waits[cluster] && names_jobs(
        #[trigger] state.ready[cluster],
        all[cluster].names.len() as int,
    ) by {
        let made = clusters[cluster];
        assert(all[cluster] == made.shape());
        assert(plan.plans_cluster(cluster, made));
        assert(made.waits() =~= made.shape().wait_initials) by {
            assert forall|local: int| 0 <= local < made.jobs@.len() implies made.waits()[local]
                == made.shape().wait_initials[local] by {
                assert(made.jobs@[local].external_wait == made.jobs@[local].external_wait_initial);
            }
        }
    }
    assert(state.ready =~= goal.ready);
    assert(state.done =~= goal.done);
    assert(state.queued =~= goal.queued);
    assert forall|cluster: int| 0 <= cluster < clusters.len() implies state.waits[cluster]
        == goal.waits[cluster] by {
        assert(names_jobs(state.ready[cluster], all[cluster].names.len() as int));
    }
    assert(state.waits =~= goal.waits);
}

} // verus!
