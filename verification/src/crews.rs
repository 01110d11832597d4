//! Who runs the clusters of a schedule. A cluster is run by one runner at a time, who runs one job of
//! it at a time; so jobs of a cluster that conflict do not overlap.

use crate::bits::{lemma_join_bits, word_bit};
use crate::clusters::{ClusterId, LocalIndex};
use crate::dag::JobId;
use crate::depend::DependencyView;
use crate::exclusion::{
    cluster_runs_do_not_stall, held_after, lemma_finish_keeps_order,
    lemma_keeping_order_is_orderly, lemma_one_at_a_time_is_apart, lemma_queue_keeps_order,
    lemma_settle_keeps_order, lemma_start_keeps_order, lemma_take_keeps_order, none_left_behind,
    planned_jobs_follow_their_predecessors, runs_begin_in_order,
};
use crate::kernel::{kernel_planned, KernelPlan, RemoteSuccessor};
use crate::normalize::{relation_of, Relation};
use crate::plan::all_consistent;
use crate::runner::{
    bit_of, finished, initial_state, ready_names_jobs, settled, wake_all, ClusterShape,
    KernelState, Runner,
};
use vstd::prelude::*;

verus! {

/// Who runs the clusters: the runner of each cluster that is run, the job that each of them is
/// running, and the clusters that have been claimed and not begun.
#[verifier::ext_equal]
pub struct Crew {
    pub runners: Map<ClusterId, Runner>,
    pub busy: Map<ClusterId, JobId>,
    pub handed: Set<ClusterId>,
}

impl Crew {
    /// Nobody.
    pub open spec fn nobody() -> Self {
        Crew { runners: Map::empty(), busy: Map::empty(), handed: Set::empty() }
    }

    /// Whether a runner goes on with a cluster.
    pub open spec fn goes_on_with(self, cluster: ClusterId) -> bool {
        exists|by: ClusterId| #[trigger]
            self.runners.contains_key(by) && self.runners[by].next == Some(cluster)
    }
}

impl KernelPlan {
    /// Whether each cluster that is queued has one who runs it, is about to begin with it or goes on
    /// with it, and no other; the ready jobs that are taken are those of the runners; and each job
    /// that has started and is not done is the one that the runner of its cluster is running.
    pub open spec fn manned(
        self,
        state: KernelState,
        held: Seq<u64>,
        started: Set<JobId>,
        done: Set<JobId>,
        crew: Crew,
    ) -> bool {
        let count = self.clusters.len();
        &&& forall|cluster: ClusterId| #[trigger]
            crew.runners.contains_key(cluster) ==> {
                let runner = crew.runners[cluster];
                &&& cluster < count
                &&& runner.cluster == cluster
                &&& state.queued[cluster as int]
                &&& held[cluster as int] == runner.ready
                &&& !crew.handed.contains(cluster)
                &&& runner.next matches Some(next) ==> next < count && state.queued[next as int]
                    && !crew.runners.contains_key(next) && !crew.handed.contains(next)
            }
        &&& forall|left: ClusterId, right: ClusterId|
            #![trigger crew.runners.contains_key(left), crew.runners.contains_key(right)]
            crew.runners.contains_key(left) && crew.runners.contains_key(right) && left != right
                && crew.runners[left].next is Some ==> crew.runners[left].next
                != crew.runners[right].next
        &&& forall|cluster: ClusterId| #[trigger]
            crew.handed.contains(cluster) ==> cluster < count && state.queued[cluster as int]
        &&& forall|cluster: ClusterId|
            cluster < count && !#[trigger] crew.runners.contains_key(cluster)
                ==> held[cluster as int] == 0
        &&& forall|cluster: ClusterId|
            cluster < count && #[trigger] state.queued[cluster as int]
                ==> crew.runners.contains_key(cluster) || crew.handed.contains(cluster)
                || crew.goes_on_with(cluster)
        &&& forall|cluster: ClusterId| #[trigger]
            crew.busy.contains_key(cluster) ==> {
                let job = crew.busy[cluster];
                &&& crew.runners.contains_key(cluster)
                &&& job < self.placements.len()
                &&& self.placements[job as int].cluster == cluster
                &&& started.contains(job)
                &&& !done.contains(job)
            }
        &&& forall|job: JobId|
            job < self.placements.len() && #[trigger] started.contains(job) && !done.contains(job)
                ==> crew.busy.contains_key(self.placements[job as int].cluster)
                && crew.busy[self.placements[job as int].cluster] == job
    }

    /// Whether a run of the clusters is in hand: the state is right about all jobs, and each cluster
    /// that is run has one runner.
    pub open spec fn in_hand(
        self,
        state: KernelState,
        held: Seq<u64>,
        started: Set<JobId>,
        done: Set<JobId>,
        crew: Crew,
    ) -> bool {
        &&& self.keeps_order(state, held, started, done)
        &&& self.manned(state, held, started, done, crew)
    }
}

/// The ready jobs of clusters that nobody has taken from.
pub open spec fn nothing_held(count: nat) -> Seq<u64> {
    Seq::new(count, |cluster: int| 0u64)
}

/// A run begins with nobody running a cluster. Each cluster with ready jobs has to be claimed.
pub proof fn cluster_runs_begin(plan: KernelPlan, shapes: Seq<ClusterShape>)
    requires
        plan.fits(),
        plan.shaped(shapes),
        ready_names_jobs(shapes, initial_state(shapes)),
    ensures
        plan.in_hand(
            initial_state(shapes),
            nothing_held(plan.clusters.len()),
            Set::empty(),
            Set::empty(),
            Crew::nobody(),
        ),
{
    runs_begin_in_order(plan, shapes);
}

/// Claiming a cluster that nobody runs hands it to one who begins with it.
pub proof fn claiming_keeps_one_runner(
    plan: KernelPlan,
    state: KernelState,
    held: Seq<u64>,
    started: Set<JobId>,
    done: Set<JobId>,
    crew: Crew,
    cluster: ClusterId,
)
    requires
        plan.in_hand(state, held, started, done, crew),
        cluster < plan.clusters.len(),
        !state.queued[cluster as int],
    ensures
        plan.in_hand(
            state.with_queued(cluster, true),
            held,
            started,
            done,
            (Crew { handed: crew.handed.insert(cluster), ..crew }),
        ),
{
    let after = state.with_queued(cluster, true);
    let now = Crew { handed: crew.handed.insert(cluster), ..crew };
    lemma_queue_keeps_order(plan, state, held, started, done, cluster, true);
    assert forall|other: ClusterId| #[trigger] now.runners.contains_key(other) implies {
        let runner = now.runners[other];
        &&& other < plan.clusters.len()
        &&& runner.cluster == other
        &&& after.queued[other as int]
        &&& held[other as int] == runner.ready
        &&& !now.handed.contains(other)
        &&& runner.next matches Some(next) ==> next < plan.clusters.len()
            && after.queued[next as int] && !now.runners.contains_key(next) && !now.handed.contains(
            next,
        )
    } by {
        assert(crew.runners.contains_key(other));
    }
    assert forall|other: ClusterId|
        other < plan.clusters.len() && #[trigger] after.queued[other as int] implies
    now.runners.contains_key(other) || now.handed.contains(other) || now.goes_on_with(other) by {
        if other != cluster {
            assert(state.queued[other as int]);
            if crew.goes_on_with(other) {
                let by = choose|by: ClusterId| #[trigger]
                    crew.runners.contains_key(by) && crew.runners[by].next == Some(other);
                assert(now.runners.contains_key(by) && now.runners[by].next == Some(other));
            }
        }
    }
}

/// The crew once someone has begun with a cluster.
pub open spec fn joined_by(crew: Crew, runner: Runner) -> Crew {
    Crew {
        runners: crew.runners.insert(runner.cluster, runner),
        handed: crew.handed.remove(runner.cluster),
        ..crew
    }
}

/// Beginning with a cluster that has been claimed keeps one runner in each cluster.
pub proof fn beginning_keeps_one_runner(
    plan: KernelPlan,
    state: KernelState,
    held: Seq<u64>,
    started: Set<JobId>,
    done: Set<JobId>,
    crew: Crew,
    cluster: ClusterId,
)
    requires
        plan.fits(),
        plan.in_hand(state, held, started, done, crew),
        crew.handed.contains(cluster),
    ensures
        ({
            let ready = state.ready[cluster as int];
            let after = state.with_ready(cluster, 0);
            let taken = held.update(cluster as int, ready);
            let runner = Runner { cluster, ready, next: None };
            &&& plan.in_hand(after, taken, started, done, joined_by(crew, runner))
            &&& !crew.runners.contains_key(cluster)
            &&& !crew.busy.contains_key(cluster)
        }),
{
    let ready = state.ready[cluster as int];
    let after = state.with_ready(cluster, 0);
    let taken = held.update(cluster as int, ready);
    let runner = Runner { cluster, ready, next: None };
    let now = joined_by(crew, runner);
    let count = plan.clusters.len();
    if crew.runners.contains_key(cluster) {
        assert(!crew.handed.contains(cluster));
    }
    assert(!crew.runners.contains_key(cluster));
    lemma_take_keeps_order(plan, state, held, started, done, cluster);
    assert forall|other: ClusterId| #[trigger] now.runners.contains_key(other) implies {
        let runner = now.runners[other];
        &&& other < count
        &&& runner.cluster == other
        &&& after.queued[other as int]
        &&& taken[other as int] == runner.ready
        &&& !now.handed.contains(other)
        &&& runner.next matches Some(next) ==> next < count && after.queued[next as int]
            && !now.runners.contains_key(next) && !now.handed.contains(next)
    } by {
        if other != cluster {
            assert(crew.runners.contains_key(other));
        }
    }
    assert forall|left: ClusterId, right: ClusterId|
        #![trigger now.runners.contains_key(left), now.runners.contains_key(right)]
        now.runners.contains_key(left) && now.runners.contains_key(right) && left != right
            && now.runners[left].next is Some implies now.runners[left].next
        != now.runners[right].next by {
        if left != cluster && right != cluster {
            assert(crew.runners.contains_key(left) && crew.runners.contains_key(right));
        }
    }
    assert forall|other: ClusterId|
        other < count && !#[trigger] now.runners.contains_key(other) implies taken[other as int]
        == 0 by {
        assert(!crew.runners.contains_key(other));
    }
    assert forall|other: ClusterId|
        other < count && #[trigger] after.queued[other as int] implies now.runners.contains_key(
        other,
    ) || now.handed.contains(other) || now.goes_on_with(other) by {
        assert(state.queued[other as int]);
        if other != cluster && crew.goes_on_with(other) {
            let by = choose|by: ClusterId| #[trigger]
                crew.runners.contains_key(by) && crew.runners[by].next == Some(other);
            assert(now.runners.contains_key(by) && now.runners[by].next == Some(other));
        }
    }
}

/// Who leaves a cluster goes on with the next, if there is one.
proof fn lemma_leaving_keeps_one_runner(
    plan: KernelPlan,
    state: KernelState,
    held: Seq<u64>,
    started: Set<JobId>,
    done: Set<JobId>,
    crew: Crew,
    cluster: ClusterId,
)
    requires
        plan.in_hand(state, held, started, done, crew),
        crew.runners.contains_key(cluster),
        !crew.busy.contains_key(cluster),
        crew.runners[cluster].ready == 0,
        state.ready[cluster as int] == 0,
    ensures
        plan.in_hand(
            state.with_queued(cluster, false),
            held,
            started,
            done,
            left_by(crew, cluster),
        ),
{
    let count = plan.clusters.len();
    let after = state.with_queued(cluster, false);
    let now = left_by(crew, cluster);
    lemma_queue_keeps_order(plan, state, held, started, done, cluster, false);
    assert forall|other: ClusterId| #[trigger] now.runners.contains_key(other) implies {
        let runner = now.runners[other];
        &&& other < count
        &&& runner.cluster == other
        &&& after.queued[other as int]
        &&& held[other as int] == runner.ready
        &&& !now.handed.contains(other)
        &&& runner.next matches Some(next) ==> next < count && after.queued[next as int]
            && !now.runners.contains_key(next) && !now.handed.contains(next)
    } by {
        assert(crew.runners.contains_key(other));
    }
    assert forall|left: ClusterId, right: ClusterId|
        #![trigger now.runners.contains_key(left), now.runners.contains_key(right)]
        now.runners.contains_key(left) && now.runners.contains_key(right) && left != right
            && now.runners[left].next is Some implies now.runners[left].next
        != now.runners[right].next by {
        assert(crew.runners.contains_key(left) && crew.runners.contains_key(right));
    }
    assert forall|other: ClusterId|
        other < count && !#[trigger] now.runners.contains_key(other) implies held[other as int]
        == 0 by {
        if other != cluster {
            assert(!crew.runners.contains_key(other));
        }
    }
    assert forall|other: ClusterId|
        other < count && #[trigger] after.queued[other as int] implies now.runners.contains_key(
        other,
    ) || now.handed.contains(other) || now.goes_on_with(other) by {
        assert(state.queued[other as int]);
        if crew.goes_on_with(other) {
            let by = choose|by: ClusterId| #[trigger]
                crew.runners.contains_key(by) && crew.runners[by].next == Some(other);
            if by != cluster {
                assert(now.runners.contains_key(by) && now.runners[by].next == Some(other));
            }
        }
    }
    assert forall|other: ClusterId| #[trigger] now.busy.contains_key(other) implies {
        let job = now.busy[other];
        &&& now.runners.contains_key(other)
        &&& job < plan.placements.len()
        &&& plan.placements[job as int].cluster == other
        &&& started.contains(job)
        &&& !done.contains(job)
    } by {
        assert(crew.busy.contains_key(other));
    }
}

/// The crew once someone has left a cluster.
pub open spec fn left_by(crew: Crew, cluster: ClusterId) -> Crew {
    Crew {
        runners: crew.runners.remove(cluster),
        handed: match crew.runners[cluster].next {
            None => crew.handed,
            Some(next) => crew.handed.insert(next),
        },
        ..crew
    }
}

/// The crew once the runner of a cluster has looked for a ready job.
pub open spec fn settled_by(crew: Crew, cluster: ClusterId, resting: Option<Runner>) -> Crew {
    let others = crew.runners.remove(cluster);
    Crew {
        runners: match resting {
            None => others,
            Some(resting) => others.insert(resting.cluster, resting),
        },
        ..crew
    }
}

/// A runner who looks for a ready job, in its own cluster or in the one that it goes on with, keeps
/// one runner in each cluster.
pub proof fn settling_keeps_one_runner(
    plan: KernelPlan,
    state: KernelState,
    held: Seq<u64>,
    started: Set<JobId>,
    done: Set<JobId>,
    crew: Crew,
    cluster: ClusterId,
)
    requires
        plan.fits(),
        plan.in_hand(state, held, started, done, crew),
        crew.runners.contains_key(cluster),
        !crew.busy.contains_key(cluster),
    ensures
        ({
            let (after, resting) = settled(state, crew.runners[cluster]);
            let now = settled_by(crew, cluster, resting);
            &&& plan.in_hand(
                after,
                held_after(held, crew.runners[cluster], resting),
                started,
                done,
                now,
            )
            &&& resting matches Some(resting) ==> resting.ready != 0 && !now.busy.contains_key(
                resting.cluster,
            ) && (resting.cluster == cluster || !crew.runners.contains_key(resting.cluster))
        }),
    decreases (if crew.runners[cluster].next is Some { 1int } else { 0 }),
{
    let count = plan.clusters.len();
    let runner = crew.runners[cluster];
    let (after, resting) = settled(state, runner);
    let now = settled_by(crew, cluster, resting);
    let taken = held_after(held, runner, resting);
    lemma_settle_keeps_order(plan, state, held, started, done, runner);
    if runner.ready != 0 {
        assert(now.runners =~= crew.runners);
        assert(taken =~= held);
    } else if state.ready[cluster as int] != 0 {
        let found = Runner { ready: state.ready[cluster as int], ..runner };
        assert(now.runners =~= crew.runners.insert(cluster, found));
        assert forall|other: ClusterId| #[trigger] now.runners.contains_key(other) implies {
            let runner = now.runners[other];
            &&& other < count
            &&& runner.cluster == other
            &&& after.queued[other as int]
            &&& taken[other as int] == runner.ready
            &&& !now.handed.contains(other)
            &&& runner.next matches Some(next) ==> next < count && after.queued[next as int]
                && !now.runners.contains_key(next) && !now.handed.contains(next)
        } by {
            assert(crew.runners.contains_key(other));
        }
        assert forall|left: ClusterId, right: ClusterId|
            #![trigger now.runners.contains_key(left), now.runners.contains_key(right)]
            now.runners.contains_key(left) && now.runners.contains_key(right) && left != right
                && now.runners[left].next is Some implies now.runners[left].next
            != now.runners[right].next by {
            assert(crew.runners.contains_key(left) && crew.runners.contains_key(right));
        }
        assert forall|other: ClusterId|
            other < count && !#[trigger] now.runners.contains_key(other) implies taken[other as int]
            == 0 by {
            assert(!crew.runners.contains_key(other));
        }
        assert forall|other: ClusterId|
            other < count && #[trigger] after.queued[other as int] implies now.runners.contains_key(
            other,
        ) || now.handed.contains(other) || now.goes_on_with(other) by {
            assert(state.queued[other as int]);
            if crew.goes_on_with(other) {
                let by = choose|by: ClusterId| #[trigger]
                    crew.runners.contains_key(by) && crew.runners[by].next == Some(other);
                assert(now.runners.contains_key(by) && now.runners[by].next == Some(other));
            }
        }
        assert forall|other: ClusterId| #[trigger] now.busy.contains_key(other) implies {
            let job = now.busy[other];
            &&& now.runners.contains_key(other)
            &&& job < plan.placements.len()
            &&& plan.placements[job as int].cluster == other
            &&& started.contains(job)
            &&& !done.contains(job)
        } by {
            assert(crew.busy.contains_key(other));
        }
    } else {
        lemma_leaving_keeps_one_runner(plan, state, held, started, done, crew, cluster);
        let left = state.with_queued(cluster, false);
        let gone = left_by(crew, cluster);
        match runner.next {
            None => {
                assert(now =~= gone);
                assert(taken =~= held);
            },
            Some(next) => {
                beginning_keeps_one_runner(plan, left, held, started, done, gone, next);
                let ready = left.ready[next as int];
                let following = Runner { cluster: next, ready, next: None };
                let new = joined_by(gone, following);
                let begun = left.with_ready(next, 0);
                let more = held.update(next as int, ready);
                settling_keeps_one_runner(plan, begun, more, started, done, new, next);
                assert(new.runners[next] == following);
                assert(settled(begun, following) == (after, resting));
                let last = settled_by(new, next, resting);
                assert(!crew.runners.contains_key(next));
                assert(last.runners =~= now.runners);
                assert(last.handed =~= now.handed);
                assert(last =~= now);
                assert(held_after(more, following, resting) =~= taken);
            },
        }
    }
}

/// The crew once the runner of a cluster has started a job.
pub open spec fn started_by(crew: Crew, cluster: ClusterId, local: LocalIndex, job: JobId) -> Crew {
    let runner = crew.runners[cluster];
    Crew {
        runners: crew.runners.insert(
            cluster,
            Runner { ready: runner.ready & !bit_of(local), ..runner },
        ),
        busy: crew.busy.insert(cluster, job),
        ..crew
    }
}

/// Starting one of the ready jobs that a runner has taken, where the runner runs no other, keeps the
/// state right: no other job of the cluster is running, and all that the job waits for is done.
pub proof fn starting_keeps_order(
    plan: KernelPlan,
    state: KernelState,
    held: Seq<u64>,
    started: Set<JobId>,
    done: Set<JobId>,
    crew: Crew,
    job: JobId,
)
    requires
        plan.fits(),
        plan.in_hand(state, held, started, done, crew),
        job < plan.placements.len(),
        ({
            let place = plan.placements[job as int];
            &&& crew.runners.contains_key(place.cluster)
            &&& !crew.busy.contains_key(place.cluster)
            &&& word_bit(crew.runners[place.cluster].ready, place.local as int)
        }),
    ensures
        ({
            let place = plan.placements[job as int];
            let word = held[place.cluster as int] & !bit_of(place.local);
            plan.in_hand(
                state,
                held.update(place.cluster as int, word),
                started.insert(job),
                done,
                started_by(crew, place.cluster, place.local, job),
            )
        }),
        !started.contains(job),
        plan.may_start(done, job),
        forall|other: JobId|
            other < plan.placements.len() && plan.placements[other as int].cluster
                == plan.placements[job as int].cluster && #[trigger] started.contains(other)
                ==> done.contains(other),
{
    let count = plan.clusters.len();
    let place = plan.placements[job as int];
    let cluster = place.cluster;
    let word = held[cluster as int] & !bit_of(place.local);
    let taken = held.update(cluster as int, word);
    let now = started_by(crew, cluster, place.local, job);
    let begun = started.insert(job);
    lemma_manned_is_one_at_a_time(plan, state, held, started, done, crew);
    assert forall|other: JobId|
        other < plan.placements.len() && plan.placements[other as int].cluster == cluster
            && #[trigger] started.contains(other) implies done.contains(other) by {
        if !done.contains(other) {
            assert(crew.busy.contains_key(cluster));
        }
    }
    lemma_start_keeps_order(plan, state, held, started, done, job);
    assert(!done.contains(job)) by {
        assert(plan.right_about(state, held, started, done, job));
    }
    assert forall|other: ClusterId| #[trigger] now.runners.contains_key(other) implies {
        let runner = now.runners[other];
        &&& other < count
        &&& runner.cluster == other
        &&& state.queued[other as int]
        &&& taken[other as int] == runner.ready
        &&& !now.handed.contains(other)
        &&& runner.next matches Some(next) ==> next < count && state.queued[next as int]
            && !now.runners.contains_key(next) && !now.handed.contains(next)
    } by {
        assert(crew.runners.contains_key(other));
    }
    assert forall|left: ClusterId, right: ClusterId|
        #![trigger now.runners.contains_key(left), now.runners.contains_key(right)]
        now.runners.contains_key(left) && now.runners.contains_key(right) && left != right
            && now.runners[left].next is Some implies now.runners[left].next
        != now.runners[right].next by {
        assert(crew.runners.contains_key(left) && crew.runners.contains_key(right));
    }
    assert forall|other: ClusterId|
        other < count && !#[trigger] now.runners.contains_key(other) implies taken[other as int]
        == 0 by {
        assert(!crew.runners.contains_key(other));
    }
    assert forall|other: ClusterId|
        other < count && #[trigger] state.queued[other as int] implies now.runners.contains_key(
        other,
    ) || now.handed.contains(other) || now.goes_on_with(other) by {
        if crew.goes_on_with(other) {
            let by = choose|by: ClusterId| #[trigger]
                crew.runners.contains_key(by) && crew.runners[by].next == Some(other);
            assert(now.runners.contains_key(by) && now.runners[by].next == Some(other));
        }
    }
    assert forall|other: ClusterId| #[trigger] now.busy.contains_key(other) implies {
        let at = now.busy[other];
        &&& now.runners.contains_key(other)
        &&& at < plan.placements.len()
        &&& plan.placements[at as int].cluster == other
        &&& begun.contains(at)
        &&& !done.contains(at)
    } by {
        if other != cluster {
            assert(crew.busy.contains_key(other));
        }
    }
    assert forall|other: JobId|
        other < plan.placements.len() && #[trigger] begun.contains(other) && !done.contains(
            other,
        ) implies now.busy.contains_key(plan.placements[other as int].cluster)
        && now.busy[plan.placements[other as int].cluster] == other by {
        if other != job {
            assert(started.contains(other));
        }
    }
}

/// Where each cluster that is run has one runner, who runs one job, no two jobs of a cluster run at
/// the same time.
pub(crate) proof fn lemma_manned_is_one_at_a_time(
    plan: KernelPlan,
    state: KernelState,
    held: Seq<u64>,
    started: Set<JobId>,
    done: Set<JobId>,
    crew: Crew,
)
    requires
        plan.manned(state, held, started, done, crew),
    ensures
        plan.one_at_a_time(started, done),
{
}

/// What is claimed while jobs are woken was not queued, is queued now, and is named once.
pub(crate) proof fn lemma_claims(
    shapes: Seq<ClusterShape>,
    state: KernelState,
    list: Seq<RemoteSuccessor>,
    until: int,
)
    requires
        0 <= until <= list.len(),
        forall|index: int|
            0 <= index < list.len() ==> (#[trigger] list[index]).cluster < state.queued.len(),
    ensures
        ({
            let (after, claimed) = wake_all(shapes, state, list, until);
            &&& after.queued.len() == state.queued.len()
            &&& claimed.no_duplicates()
            &&& forall|cluster: ClusterId|
                cluster < state.queued.len() ==> #[trigger] after.queued[cluster as int] == (
                state.queued[cluster as int] || claimed.contains(cluster))
            &&& forall|cluster: ClusterId| #[trigger]
                claimed.contains(cluster) ==> cluster < state.queued.len()
                    && !state.queued[cluster as int]
        }),
    decreases until,
{
    if until > 0 {
        lemma_claims(shapes, state, list, until - 1);
        let (before, claimed) = wake_all(shapes, state, list, until - 1);
        let (after, all) = wake_all(shapes, state, list, until);
        let last = list[until - 1].cluster;
        assert(before.queued[last as int] == (state.queued[last as int] || claimed.contains(last)));
        assert forall|cluster: ClusterId| #[trigger] all.contains(cluster) == (claimed.contains(
            cluster,
        ) || all != claimed && cluster == last) by {
            if all != claimed {
                if claimed.contains(cluster) {
                    assert(all[claimed.index_of(cluster)] == cluster);
                }
                if cluster == last {
                    assert(all[claimed.len() as int] == last);
                }
                if all.contains(cluster) {
                    let at = all.index_of(cluster);
                    if at < claimed.len() {
                        assert(claimed[at] == cluster);
                    }
                }
            }
        }
        assert forall|cluster: ClusterId|
            cluster < state.queued.len() implies #[trigger] after.queued[cluster as int] == (
        state.queued[cluster as int] || all.contains(cluster)) by {
            assert(before.queued[cluster as int] == (state.queued[cluster as int]
                || claimed.contains(cluster)));
        }
        assert(all.no_duplicates()) by {
            if all != claimed {
                assert forall|left: int, right: int|
                    0 <= left < all.len() && 0 <= right < all.len() && left
                        != right implies all[left] != all[right] by {
                    if left < claimed.len() {
                        assert(claimed.contains(claimed[left]));
                    }
                    if right < claimed.len() {
                        assert(claimed.contains(claimed[right]));
                    }
                }
            }
        }
    }
}

/// The crew once the job of a runner has finished, and clusters were handed to others.
pub open spec fn finished_by(crew: Crew, runner: Runner, spawned: Seq<ClusterId>) -> Crew {
    Crew {
        runners: crew.runners.insert(runner.cluster, runner),
        busy: crew.busy.remove(runner.cluster),
        handed: crew.handed.union(spawned.to_set()),
    }
}

/// When the job of a runner has finished, the state stays right. The clusters that are handed to
/// others are run by nobody, are handed out once, and are not the one that the runner goes on with.
pub proof fn finishing_keeps_order(
    plan: KernelPlan,
    shapes: Seq<ClusterShape>,
    state: KernelState,
    held: Seq<u64>,
    started: Set<JobId>,
    done: Set<JobId>,
    crew: Crew,
    cluster: ClusterId,
)
    requires
        plan.fits(),
        plan.shaped(shapes),
        plan.in_hand(state, held, started, done, crew),
        crew.busy.contains_key(cluster),
    ensures
        ({
            let job = crew.busy[cluster];
            let local = plan.placements[job as int].local;
            let (after, runner, spawned) = finished(shapes, state, crew.runners[cluster], local);
            &&& plan.in_hand(
                after,
                held.update(cluster as int, runner.ready),
                started,
                done.insert(job),
                finished_by(crew, runner, spawned),
            )
            &&& none_left_behind(state) ==> none_left_behind(after)
            &&& spawned.no_duplicates()
            &&& forall|other: ClusterId| #[trigger]
                spawned.contains(other) ==> !crew.handed.contains(other)
                    && !crew.runners.contains_key(other)
        }),
{
    let count = plan.clusters.len();
    let job = crew.busy[cluster];
    let place = plan.placements[job as int];
    let local = place.local;
    let first = crew.runners[cluster];
    let (after, runner, spawned) = finished(shapes, state, first, local);
    let now = finished_by(crew, runner, spawned);
    let taken = held.update(cluster as int, runner.ready);
    let finish = done.insert(job);
    lemma_manned_is_one_at_a_time(plan, state, held, started, done, crew);
    lemma_finish_keeps_order(plan, shapes, state, held, started, done, first, job);
    let list = shapes[cluster as int].remotes[local as int];
    let middle = state.with_done(cluster, state.done[cluster as int] | bit_of(local));
    assert(shapes[cluster as int].fits());
    assert(shapes[cluster as int].names == plan.clusters[cluster as int]);
    assert forall|index: int| 0 <= index < list.len() implies (#[trigger] list[index]).cluster
        < middle.queued.len() by {
        assert(shapes[cluster as int].remotes[local as int][index].cluster < shapes.len());
    }
    lemma_claims(shapes, middle, list, list.len() as int);
    let claimed = wake_all(shapes, middle, list, list.len() as int).1;
    let goes_on = first.next is None && claimed.len() > 0;
    assert forall|other: ClusterId| #[trigger] claimed.contains(other) == (spawned.contains(other)
        || goes_on && runner.next == Some(other)) by {
        if goes_on {
            if claimed.contains(other) {
                let at = claimed.index_of(other);
                if at > 0 {
                    assert(spawned[at - 1] == other);
                }
            }
            if spawned.contains(other) {
                let at = spawned.index_of(other);
                assert(claimed[at + 1] == other);
            }
            assert(claimed[0] == claimed[0]);
        }
    }
    if goes_on {
        assert(claimed.contains(claimed[0]));
        assert(!spawned.contains(claimed[0])) by {
            if spawned.contains(claimed[0]) {
                let at = spawned.index_of(claimed[0]);
                assert(claimed[at + 1] == claimed[0]);
            }
        }
    }
    assert(spawned.no_duplicates());
    assert forall|other: ClusterId| #[trigger] claimed.contains(other) implies !crew.handed.contains(
        other,
    ) && !crew.runners.contains_key(other) && !crew.goes_on_with(other) && other < count by {
        assert(!state.queued[other as int]);
        if crew.goes_on_with(other) {
            let by = choose|by: ClusterId| #[trigger]
                crew.runners.contains_key(by) && crew.runners[by].next == Some(other);
            assert(crew.runners.contains_key(by));
        }
    }
    assert(crew.runners.contains_key(cluster));
    assert forall|other: ClusterId| #[trigger] now.runners.contains_key(other) implies {
        let runner = now.runners[other];
        &&& other < count
        &&& runner.cluster == other
        &&& after.queued[other as int]
        &&& taken[other as int] == runner.ready
        &&& !now.handed.contains(other)
        &&& runner.next matches Some(next) ==> next < count && after.queued[next as int]
            && !now.runners.contains_key(next) && !now.handed.contains(next)
    } by {
        assert(crew.runners.contains_key(other));
        assert(after.queued[other as int]);
        assert(now.handed.contains(other) == (crew.handed.contains(other) || spawned.contains(
            other,
        )));
        assert(!claimed.contains(other));
        if let Some(next) = now.runners[other].next {
            if other == cluster && goes_on {
                assert(next == claimed[0]);
                assert(claimed.contains(next));
            } else {
                assert(crew.runners[other].next == Some(next));
                assert(crew.goes_on_with(next));
                assert(!claimed.contains(next));
            }
            assert(now.handed.contains(next) == (crew.handed.contains(next) || spawned.contains(
                next,
            )));
            assert(after.queued[next as int]);
        }
    }
    assert forall|left: ClusterId, right: ClusterId|
        #![trigger now.runners.contains_key(left), now.runners.contains_key(right)]
        now.runners.contains_key(left) && now.runners.contains_key(right) && left != right
            && now.runners[left].next is Some implies now.runners[left].next
        != now.runners[right].next by {
        assert(crew.runners.contains_key(left) && crew.runners.contains_key(right));
        if goes_on {
            let next = claimed[0];
            assert(!crew.goes_on_with(next));
            if left == cluster {
                assert(crew.runners[right].next != Some(next));
            }
            if right == cluster {
                assert(crew.runners[left].next != Some(next));
            }
        }
    }
    assert forall|other: ClusterId| #[trigger] now.handed.contains(other) implies other < count
        && after.queued[other as int] by {
        if spawned.contains(other) {
            assert(claimed.contains(other));
        }
        assert(after.queued[other as int] == (state.queued[other as int] || claimed.contains(
            other,
        )));
    }
    assert forall|other: ClusterId|
        other < count && !#[trigger] now.runners.contains_key(other) implies taken[other as int]
        == 0 by {
        assert(!crew.runners.contains_key(other));
    }
    assert forall|other: ClusterId|
        other < count && #[trigger] after.queued[other as int] implies now.runners.contains_key(
        other,
    ) || now.handed.contains(other) || now.goes_on_with(other) by {
        if state.queued[other as int] {
            if crew.goes_on_with(other) {
                let by = choose|by: ClusterId| #[trigger]
                    crew.runners.contains_key(by) && crew.runners[by].next == Some(other);
                assert(now.runners.contains_key(by) && now.runners[by].next == Some(other));
            }
        } else {
            assert(claimed.contains(other));
            if !spawned.contains(other) {
                assert(now.runners.contains_key(cluster) && now.runners[cluster].next == Some(
                    other,
                ));
            }
        }
    }
    assert forall|other: ClusterId| #[trigger] now.busy.contains_key(other) implies {
        let at = now.busy[other];
        &&& now.runners.contains_key(other)
        &&& at < plan.placements.len()
        &&& plan.placements[at as int].cluster == other
        &&& started.contains(at)
        &&& !finish.contains(at)
    } by {
        assert(crew.busy.contains_key(other));
    }
    assert forall|other: ClusterId| #[trigger] spawned.contains(other) implies !crew.handed.contains(
        other,
    ) && !crew.runners.contains_key(other) by {
        assert(claimed.contains(other));
    }
}

/// Related jobs do not overlap: where both have started, one of them is done; and where they are
/// strictly related, the one that is declared first is done before the other starts.
pub proof fn related_jobs_of_clusters_do_not_overlap(
    declared: Seq<Seq<DependencyView>>,
    plan: KernelPlan,
    state: KernelState,
    held: Seq<u64>,
    started: Set<JobId>,
    done: Set<JobId>,
    crew: Crew,
    left: JobId,
    right: JobId,
)
    requires
        all_consistent(declared),
        kernel_planned(declared, plan),
        plan.in_hand(state, held, started, done, crew),
        left < right < declared.len(),
        relation_of(declared[left as int], declared[right as int]) != Relation::Free,
    ensures
        started.contains(left) && started.contains(right) ==> done.contains(left) || done.contains(
            right,
        ),
        relation_of(declared[left as int], declared[right as int]) == Relation::Strict
            && started.contains(right) ==> done.contains(left),
{
    lemma_manned_is_one_at_a_time(plan, state, held, started, done, crew);
    lemma_keeping_order_is_orderly(plan, state, held, started, done);
    lemma_one_at_a_time_is_apart(declared, plan, started, done, left, right);
}

/// A run ends only when all jobs are done: where nobody runs a cluster or is about to, there is no
/// job left.
pub proof fn cluster_runs_end(
    declared: Seq<Seq<DependencyView>>,
    plan: KernelPlan,
    state: KernelState,
    held: Seq<u64>,
    done: Set<JobId>,
    job: JobId,
)
    requires
        kernel_planned(declared, plan),
        plan.in_hand(state, held, done, done, Crew::nobody()),
        none_left_behind(state),
        job < plan.placements.len(),
    ensures
        done.contains(job),
{
    if !done.contains(job) {
        planned_jobs_follow_their_predecessors(declared, plan);
        let next = cluster_runs_do_not_stall(plan, state, held, done, job);
        let place = plan.placements[next as int];
        assert(!Crew::nobody().runners.contains_key(place.cluster));
        assert(held[place.cluster as int] == 0);
        assert(plan.clusters[place.cluster as int].len() <= 16);
        lemma_join_bits(0, 0, place.local as u64);
        assert(!state.queued[place.cluster as int]);
        assert(state.ready[place.cluster as int] == 0);
    }
}

} // verus!
