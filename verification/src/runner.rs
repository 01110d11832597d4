//! Running the clusters of a schedule: who runs a cluster takes its ready jobs one at a time, and
//! wakes the jobs that wait for them.

use crate::bits::{lemma_join_bits, word_bit, word_ones};
use crate::clusters::{ClusterId, LocalIndex, MAX_CLUSTER_JOBS};
use crate::dag::JobId;
use crate::kernel::{Cluster, ClusterJob, ClusterMode, LocalPriority, RemoteSuccessor, Schedule};
use crate::order::{is_worth_more, numbers, worth_more};
use crate::pages::{covered, range_within};
use vstd::prelude::*;

verus! {

/// What does not change of a cluster while it is run.
#[verifier::ext_equal]
pub struct ClusterShape {
    pub mode: ClusterMode,
    pub ready_initial: u64,
    pub names: Seq<JobId>,
    pub masks: Seq<u64>,
    pub wait_initials: Seq<u32>,
    pub conflicts: Seq<u64>,
    pub priorities: Seq<LocalPriority>,
    pub locals: Seq<Seq<LocalIndex>>,
    pub remotes: Seq<Seq<RemoteSuccessor>>,
}

impl ClusterShape {
    /// Whether the lists of the cluster fit one another.
    pub open spec fn fits(self) -> bool {
        let count = self.names.len();
        &&& 0 < count <= MAX_CLUSTER_JOBS
        &&& self.masks.len() == count
        &&& self.wait_initials.len() == count
        &&& self.conflicts.len() == count
        &&& self.priorities.len() == count
        &&& self.locals.len() == count
        &&& self.remotes.len() == count
        &&& forall|local: int, index: int|
            0 <= local < count && 0 <= index < self.locals[local].len() ==> (
            #[trigger] self.locals[local][index]) < count
    }
}

/// Whether the successors in other clusters are jobs of these.
pub open spec fn remotes_fit(shapes: Seq<ClusterShape>) -> bool {
    forall|cluster: int, local: int, index: int|
        0 <= cluster < shapes.len() && 0 <= local < shapes[cluster].remotes.len() && 0 <= index
            < shapes[cluster].remotes[local].len() ==> {
            let successor = #[trigger] shapes[cluster].remotes[local][index];
            successor.cluster < shapes.len() && successor.job
                < shapes[successor.cluster as int].names.len()
        }
}

/// What changes of the clusters while they are run: which jobs are ready and which are done, as
/// bits, whether someone runs the cluster, and how many jobs of other clusters each job waits for.
#[verifier::ext_equal]
pub struct KernelState {
    pub ready: Seq<u64>,
    pub done: Seq<u64>,
    pub queued: Seq<bool>,
    pub waits: Seq<Seq<u32>>,
}

impl KernelState {
    pub open spec fn with_ready(self, cluster: ClusterId, ready: u64) -> Self {
        KernelState { ready: self.ready.update(cluster as int, ready), ..self }
    }

    pub open spec fn with_done(self, cluster: ClusterId, done: u64) -> Self {
        KernelState { done: self.done.update(cluster as int, done), ..self }
    }

    pub open spec fn with_queued(self, cluster: ClusterId, queued: bool) -> Self {
        KernelState { queued: self.queued.update(cluster as int, queued), ..self }
    }

    pub open spec fn with_wait(self, cluster: ClusterId, local: LocalIndex, wait: u32) -> Self {
        KernelState {
            waits: self.waits.update(
                cluster as int,
                self.waits[cluster as int].update(local as int, wait),
            ),
            ..self
        }
    }
}

impl Cluster {
    pub open spec fn locals_of(self, local: int) -> Seq<LocalIndex> {
        covered(self.local_successors@, self.jobs@[local].local_successor_range)
    }

    pub open spec fn remotes_of(self, local: int) -> Seq<RemoteSuccessor> {
        covered(self.remote_successors@, self.jobs@[local].remote_successor_range)
    }

    /// What does not change of the cluster while it is run.
    pub open spec fn shape(self) -> ClusterShape {
        ClusterShape {
            mode: self.mode,
            ready_initial: self.ready_mask_initial,
            names: self.jobs@.map_values(|job: ClusterJob| job.job),
            masks: self.jobs@.map_values(|job: ClusterJob| job.local_predecessor_mask),
            wait_initials: self.jobs@.map_values(|job: ClusterJob| job.external_wait_initial),
            conflicts: self.jobs@.map_values(|job: ClusterJob| job.dynamic_conflict_mask),
            priorities: self.jobs@.map_values(|job: ClusterJob| job.priority),
            locals: Seq::new(self.jobs@.len(), |local: int| self.locals_of(local)),
            remotes: Seq::new(self.jobs@.len(), |local: int| self.remotes_of(local)),
        }
    }

    /// How many jobs of other clusters each job waits for.
    pub open spec fn waits(self) -> Seq<u32> {
        self.jobs@.map_values(|job: ClusterJob| job.external_wait)
    }

    /// Whether the ranges of the jobs are ranges of the lists.
    pub open spec fn ranged(self) -> bool {
        forall|local: int|
            #![trigger self.jobs@[local]]
            0 <= local < self.jobs@.len() ==> range_within(
                self.local_successors@,
                self.jobs@[local].local_successor_range,
            ) && range_within(self.remote_successors@, self.jobs@[local].remote_successor_range)
    }

    /// Whether another cluster differs in nothing but what changes while it is run.
    pub open spec fn resembles(self, other: Self) -> bool {
        &&& self.mode == other.mode
        &&& self.ready_mask_initial == other.ready_mask_initial
        &&& self.local_successors == other.local_successors
        &&& self.remote_successors == other.remote_successors
        &&& self.priority_height == other.priority_height
        &&& self.jobs@.len() == other.jobs@.len()
        &&& forall|local: int|
            #![trigger self.jobs@[local]]
            #![trigger other.jobs@[local]]
            0 <= local < self.jobs@.len() ==> self.jobs@[local] == (ClusterJob {
                external_wait: self.jobs@[local].external_wait,
                ..other.jobs@[local]
            })
    }
}

proof fn lemma_resembles(left: Cluster, right: Cluster)
    requires
        left.resembles(right),
    ensures
        left.shape() == right.shape(),
        right.ranged() ==> left.ranged(),
{
    assert(left.shape().names =~= right.shape().names);
    assert(left.shape().masks =~= right.shape().masks);
    assert(left.shape().wait_initials =~= right.shape().wait_initials);
    assert(left.shape().conflicts =~= right.shape().conflicts);
    assert(left.shape().priorities =~= right.shape().priorities);
    assert(left.shape().locals =~= right.shape().locals) by {
        assert forall|local: int| 0 <= local < left.jobs@.len() implies left.locals_of(local)
            == right.locals_of(local) by {
            assert(left.jobs@[local].local_successor_range
                == right.jobs@[local].local_successor_range);
        }
    }
    assert(left.shape().remotes =~= right.shape().remotes) by {
        assert forall|local: int| 0 <= local < left.jobs@.len() implies left.remotes_of(local)
            == right.remotes_of(local) by {
            assert(left.jobs@[local].remote_successor_range
                == right.jobs@[local].remote_successor_range);
        }
    }
    if right.ranged() {
        assert forall|local: int|
            #![trigger left.jobs@[local]]
            0 <= local < left.jobs@.len() implies range_within(
            left.local_successors@,
            left.jobs@[local].local_successor_range,
        ) && range_within(left.remote_successors@, left.jobs@[local].remote_successor_range) by {
            assert(right.jobs@[local].local_successor_range
                == left.jobs@[local].local_successor_range);
        }
    }
}

pub open spec fn shapes(clusters: Seq<Cluster>) -> Seq<ClusterShape> {
    clusters.map_values(|cluster: Cluster| cluster.shape())
}

pub open spec fn state_of(clusters: Seq<Cluster>) -> KernelState {
    KernelState {
        ready: clusters.map_values(|cluster: Cluster| cluster.ready_mask),
        done: clusters.map_values(|cluster: Cluster| cluster.done_mask),
        queued: clusters.map_values(|cluster: Cluster| cluster.queued),
        waits: clusters.map_values(|cluster: Cluster| cluster.waits()),
    }
}

/// Whether the clusters can be run.
pub open spec fn runnable(clusters: Seq<Cluster>) -> bool {
    &&& forall|cluster: int|
        #![trigger clusters[cluster]]
        0 <= cluster < clusters.len() ==> clusters[cluster].ranged()
            && clusters[cluster].shape().fits()
    &&& remotes_fit(shapes(clusters))
}

/// Replacing a cluster by one that resembles it keeps the shapes.
proof fn lemma_replaced(before: Seq<Cluster>, cluster: int, after: Seq<Cluster>)
    requires
        runnable(before),
        0 <= cluster < before.len(),
        after.len() == before.len(),
        after[cluster].resembles(before[cluster]),
        forall|other: int|
            0 <= other < before.len() && other != cluster ==> #[trigger] after[other]
                == before[other],
    ensures
        runnable(after),
        shapes(after) == shapes(before),
        state_of(after).ready == state_of(before).ready.update(cluster, after[cluster].ready_mask),
        state_of(after).done == state_of(before).done.update(cluster, after[cluster].done_mask),
        state_of(after).queued == state_of(before).queued.update(cluster, after[cluster].queued),
        state_of(after).waits == state_of(before).waits.update(cluster, after[cluster].waits()),
{
    lemma_resembles(after[cluster], before[cluster]);
    assert(shapes(after) =~= shapes(before));
    assert forall|other: int|
        #![trigger after[other]]
        0 <= other < after.len() implies after[other].ranged() && after[other].shape().fits() by {
        if other != cluster {
            assert(after[other] == before[other]);
        }
        assert(before[other].ranged() && before[other].shape().fits());
    }
    assert(state_of(after).ready =~= state_of(before).ready.update(
        cluster,
        after[cluster].ready_mask,
    ));
    assert(state_of(after).done =~= state_of(before).done.update(
        cluster,
        after[cluster].done_mask,
    ));
    assert(state_of(after).queued =~= state_of(before).queued.update(
        cluster,
        after[cluster].queued,
    ));
    assert(state_of(after).waits =~= state_of(before).waits.update(
        cluster,
        after[cluster].waits(),
    ));
}

/// Whether all the jobs of a mask are done.
pub open spec fn covers(done: u64, mask: u64) -> bool {
    done & mask == mask
}

/// The mask of one job.
pub open spec fn bit_of(local: LocalIndex) -> u64 {
    1u64 << (local as u64)
}

/// Who runs a cluster: which of its jobs they have yet to run, and which cluster they go on with.
#[derive(Debug, Copy, Clone, PartialEq, Eq, Structural)]
pub struct Runner {
    pub cluster: ClusterId,
    pub ready: u64,
    pub next: Option<ClusterId>,
}

/// What becomes of a job of another cluster when a job that it waits for has finished, and whether
/// someone must run its cluster now.
pub open spec fn wake(
    shapes: Seq<ClusterShape>,
    state: KernelState,
    successor: RemoteSuccessor,
) -> (KernelState, bool) {
    let cluster = successor.cluster as int;
    let local = successor.job as int;
    let bit = bit_of(successor.job);
    let wait = state.waits[cluster][local];
    let counted = state.with_wait(successor.cluster, successor.job, wait.wrapping_sub(1));
    let done = state.done[cluster];
    if wait != 1 || done & bit != 0 || !covers(done, shapes[cluster].masks[local])
        || state.ready[cluster] & bit != 0 {
        (counted, false)
    } else {
        let readied = counted.with_ready(successor.cluster, state.ready[cluster] | bit);
        if state.queued[cluster] {
            (readied, false)
        } else {
            (readied.with_queued(successor.cluster, true), true)
        }
    }
}

/// What becomes of the first `until` jobs of a list, and which clusters someone must run now.
pub open spec fn wake_all(
    shapes: Seq<ClusterShape>,
    state: KernelState,
    list: Seq<RemoteSuccessor>,
    until: int,
) -> (KernelState, Seq<ClusterId>)
    decreases until,
{
    if until <= 0 {
        (state, Seq::empty())
    } else {
        let (before, claimed) = wake_all(shapes, state, list, until - 1);
        let (after, claims) = wake(shapes, before, list[until - 1]);
        (
            after,
            if claims {
                claimed.push(list[until - 1].cluster)
            } else {
                claimed
            },
        )
    }
}

/// The ready jobs of a cluster, with those of the first `until` jobs of a list that wait for nothing
/// any more.
pub open spec fn unlock(
    shape: ClusterShape,
    waits: Seq<u32>,
    done: u64,
    ready: u64,
    list: Seq<LocalIndex>,
    until: int,
) -> u64
    decreases until,
{
    if until <= 0 {
        ready
    } else {
        let rest = unlock(shape, waits, done, ready, list, until - 1);
        let local = list[until - 1];
        if done & bit_of(local) == 0 && waits[local as int] == 0 && covers(
            done,
            shape.masks[local as int],
        ) {
            rest | bit_of(local)
        } else {
            rest
        }
    }
}

impl<R> Schedule<R> {
    pub open spec fn shapes(self) -> Seq<ClusterShape> {
        shapes(self.clusters@)
    }

    pub open spec fn state(self) -> KernelState {
        state_of(self.clusters@)
    }

    pub open spec fn sound(self) -> bool {
        runnable(self.clusters@)
    }

    /// Whether another schedule differs in nothing but what changes while it is run.
    pub open spec fn same_but_state(self, other: Self) -> bool {
        &&& self.shapes() == other.shapes()
        &&& self.clusters@.len() == other.clusters@.len()
        &&& forall|cluster: int|
            #![trigger self.clusters@[cluster]]
            0 <= cluster < self.clusters@.len() ==> self.clusters@[cluster].resembles(
                other.clusters@[cluster],
            )
        &&& self.jobs == other.jobs
        &&& self.roots == other.roots
        &&& self.serial_chain == other.serial_chain
        &&& self.trivial_parallel == other.trivial_parallel
        &&& self.singleton_dag == other.singleton_dag
    }

    /// Lets someone run a cluster, where it has ready jobs and nobody runs it yet.
    pub fn claim(&mut self, cluster: ClusterId) -> (claimed: bool)
        requires
            old(self).sound(),
            cluster < old(self).clusters@.len(),
        ensures
            final(self).sound(),
            final(self).same_but_state(*old(self)),
            claimed == (old(self).state().ready[cluster as int] != 0 && !old(
                self,
            ).state().queued[cluster as int]),
            final(self).state() == (if claimed {
                old(self).state().with_queued(cluster, true)
            } else {
                old(self).state()
            }),
    {
        let ghost before = self.clusters@;
        let at: usize = cluster as usize;
        if self.clusters[at].ready_mask == 0 || self.clusters[at].queued {
            return false;
        }
        self.clusters[at].queued = true;
        proof {
            lemma_replaced(before, at as int, self.clusters@);
            let after = self.state();
            assert(after.ready =~= state_of(before).ready);
            assert(after.done =~= state_of(before).done);
            assert(after.waits =~= state_of(before).waits);
        }
        true
    }

    /// Takes the ready jobs of a cluster.
    fn take_ready(&mut self, cluster: ClusterId) -> (ready: u64)
        requires
            old(self).sound(),
            cluster < old(self).clusters@.len(),
        ensures
            final(self).sound(),
            final(self).same_but_state(*old(self)),
            ready == old(self).state().ready[cluster as int],
            final(self).state() == old(self).state().with_ready(cluster, 0),
    {
        let ghost before = self.clusters@;
        let at: usize = cluster as usize;
        let ready = self.clusters[at].ready_mask;
        self.clusters[at].ready_mask = 0;
        proof {
            lemma_replaced(before, at as int, self.clusters@);
            let after = self.state();
            assert(after.queued =~= state_of(before).queued);
            assert(after.done =~= state_of(before).done);
            assert(after.waits =~= state_of(before).waits);
        }
        ready
    }

    /// Nobody runs a cluster any more.
    pub fn leave(&mut self, cluster: ClusterId)
        requires
            old(self).sound(),
            cluster < old(self).clusters@.len(),
        ensures
            final(self).sound(),
            final(self).same_but_state(*old(self)),
            final(self).state() == old(self).state().with_queued(cluster, false),
    {
        let ghost before = self.clusters@;
        let at: usize = cluster as usize;
        self.clusters[at].queued = false;
        proof {
            lemma_replaced(before, at as int, self.clusters@);
            let after = self.state();
            assert(after.ready =~= state_of(before).ready);
            assert(after.done =~= state_of(before).done);
            assert(after.waits =~= state_of(before).waits);
        }
    }

    /// Begins to run a cluster that has been claimed.
    pub fn begin(&mut self, cluster: ClusterId) -> (runner: Runner)
        requires
            old(self).sound(),
            cluster < old(self).clusters@.len(),
            old(self).state().queued[cluster as int],
        ensures
            final(self).sound(),
            final(self).same_but_state(*old(self)),
            runner == (Runner {
                cluster,
                ready: old(self).state().ready[cluster as int],
                next: None,
            }),
            final(self).state() == old(self).state().with_ready(cluster, 0),
    {
        let ready = self.take_ready(cluster);
        Runner { cluster, ready, next: None }
    }

    /// Makes all clusters ready to be run.
    pub fn prepare_run(&mut self)
        requires
            old(self).sound(),
        ensures
            final(self).sound(),
            final(self).same_but_state(*old(self)),
            final(self).state() == initial_state(old(self).shapes()),
    {
        let ghost before = *self;
        let count: usize = self.clusters.len();
        for cluster in 0..count
            invariant
                count == before.clusters@.len(),
                self.clusters@.len() == count,
                before.sound(),
                self.jobs == before.jobs,
                self.roots == before.roots,
                self.serial_chain == before.serial_chain,
                self.trivial_parallel == before.trivial_parallel,
                self.singleton_dag == before.singleton_dag,
                forall|at: int|
                    #![trigger self.clusters@[at]]
                    0 <= at < count ==> self.clusters@[at].resembles(before.clusters@[at]),
                forall|at: int|
                    #![trigger self.clusters@[at]]
                    0 <= at < cluster ==> {
                        &&& self.clusters@[at].ready_mask == self.clusters@[at].ready_mask_initial
                        &&& self.clusters@[at].done_mask == 0
                        &&& !self.clusters@[at].queued
                        &&& forall|local: int|
                            #![trigger self.clusters@[at].jobs@[local]]
                            0 <= local < self.clusters@[at].jobs@.len()
                                ==> self.clusters@[at].jobs@[local].external_wait
                                == self.clusters@[at].jobs@[local].external_wait_initial
                    },
        {
            let ghost held = self.clusters@;
            let ready_mask = self.clusters[cluster].ready_mask_initial;
            self.clusters[cluster].ready_mask = ready_mask;
            self.clusters[cluster].done_mask = 0;
            self.clusters[cluster].queued = false;
            let jobs: usize = self.clusters[cluster].jobs.len();
            for local in 0..jobs
                invariant
                    cluster < count,
                    self.clusters@.len() == count,
                    held.len() == count,
                    self.jobs == before.jobs,
                    self.roots == before.roots,
                    self.serial_chain == before.serial_chain,
                    self.trivial_parallel == before.trivial_parallel,
                    self.singleton_dag == before.singleton_dag,
                    jobs == self.clusters@[cluster as int].jobs@.len(),
                    forall|at: int|
                        0 <= at < count && at != cluster ==> #[trigger] self.clusters@[at]
                            == held[at],
                    self.clusters@[cluster as int].resembles(before.clusters@[cluster as int]),
                    self.clusters@[cluster as int].ready_mask
                        == self.clusters@[cluster as int].ready_mask_initial,
                    self.clusters@[cluster as int].done_mask == 0,
                    !self.clusters@[cluster as int].queued,
                    forall|at: int|
                        #![trigger self.clusters@[cluster as int].jobs@[at]]
                        0 <= at < local
                            ==> self.clusters@[cluster as int].jobs@[at].external_wait
                            == self.clusters@[cluster as int].jobs@[at].external_wait_initial,
            {
                let ghost middle = self.clusters@[cluster as int];
                let wait = self.clusters[cluster].jobs[local].external_wait_initial;
                self.clusters[cluster].jobs[local].external_wait = wait;
                let ghost now = self.clusters@[cluster as int];
                assert forall|at: int|
                    #![trigger now.jobs@[at]]
                    0 <= at < now.jobs@.len() implies now.jobs@[at] == (ClusterJob {
                    external_wait: now.jobs@[at].external_wait,
                    ..before.clusters@[cluster as int].jobs@[at]
                }) by {
                    assert(middle.jobs@[at] == (ClusterJob {
                        external_wait: middle.jobs@[at].external_wait,
                        ..before.clusters@[cluster as int].jobs@[at]
                    }));
                }
            }
        }
        proof {
            assert forall|at: int|
                #![trigger self.clusters@[at]]
                0 <= at < count implies self.clusters@[at].ranged()
                && self.clusters@[at].shape().fits() && self.clusters@[at].shape()
                == before.clusters@[at].shape() by {
                lemma_resembles(self.clusters@[at], before.clusters@[at]);
                assert(before.clusters@[at].ranged());
            }
            assert(self.shapes() =~= before.shapes());
            let goal = initial_state(before.shapes());
            let state = self.state();
            assert forall|at: int| 0 <= at < count implies state.ready[at] == goal.ready[at]
                && state.waits[at] == goal.waits[at] by {
                assert(self.clusters@[at].shape() == before.clusters@[at].shape());
                assert(self.clusters@[at].waits() =~= self.clusters@[at].shape().wait_initials);
            }
            assert(state.ready =~= goal.ready);
            assert(state.done =~= goal.done);
            assert(state.queued =~= goal.queued);
            assert(state.waits =~= goal.waits);
        }
    }
}

/// The state before a run.
pub open spec fn initial_state(shapes: Seq<ClusterShape>) -> KernelState {
    KernelState {
        ready: shapes.map_values(|shape: ClusterShape| shape.ready_initial),
        done: shapes.map_values(|shape: ClusterShape| 0u64),
        queued: shapes.map_values(|shape: ClusterShape| false),
        waits: shapes.map_values(|shape: ClusterShape| shape.wait_initials),
    }
}

/// How many of the first `until` jobs of a list would wait for nothing any more.
pub open spec fn local_unlocks(
    shape: ClusterShape,
    waits: Seq<u32>,
    done: u64,
    list: Seq<LocalIndex>,
    until: int,
) -> int
    decreases until,
{
    if until <= 0 {
        0
    } else {
        let local = list[until - 1] as int;
        local_unlocks(shape, waits, done, list, until - 1) + (if waits[local] == 0 && covers(
            done,
            shape.masks[local],
        ) {
            1int
        } else {
            0
        })
    }
}

/// How many of the first `until` jobs of a list wait for one more job only.
pub open spec fn remote_unlocks(
    shapes: Seq<ClusterShape>,
    state: KernelState,
    list: Seq<RemoteSuccessor>,
    until: int,
) -> int
    decreases until,
{
    if until <= 0 {
        0
    } else {
        let cluster = list[until - 1].cluster as int;
        let local = list[until - 1].job as int;
        remote_unlocks(shapes, state, list, until - 1) + (if state.waits[cluster][local] == 1
            && covers(state.done[cluster], shapes[cluster].masks[local]) {
            1int
        } else {
            0
        })
    }
}

/// What it is worth to run a job next: the numbers by which ready jobs are told apart, the most
/// important first.
pub open spec fn ready_worth(
    shapes: Seq<ClusterShape>,
    state: KernelState,
    cluster: ClusterId,
    local: LocalIndex,
    ready: u64,
) -> Seq<int> {
    let shape = shapes[cluster as int];
    let done = state.done[cluster as int] | bit_of(local);
    let locals = shape.locals[local as int];
    let remotes = shape.remotes[local as int];
    let priority = shape.priorities[local as int];
    let here = local_unlocks(
        shape,
        state.waits[cluster as int],
        done,
        locals,
        locals.len() as int,
    );
    let there = remote_unlocks(shapes, state, remotes, remotes.len() as int);
    let conflicts = word_ones(ready & shape.conflicts[local as int], 64);
    seq![
        here * 2 + there * 3 - conflicts,
        there,
        priority.strict_height as int,
        priority.remote_successors as int,
        priority.local_successors as int,
        priority.hot_write_score as int,
        priority.dynamic_degree as int,
        priority.reads as int,
        priority.writes as int,
        priority.accesses as int,
    ]
}

/// Whether a job is the one to be run next: the first of the ready jobs or, where they conflict, the
/// first of those that none is worth more than.
pub open spec fn selected(
    shapes: Seq<ClusterShape>,
    state: KernelState,
    cluster: ClusterId,
    ready: u64,
    local: LocalIndex,
) -> bool {
    &&& local < shapes[cluster as int].names.len()
    &&& word_bit(ready, local as int)
    &&& forall|other: LocalIndex|
        other < shapes[cluster as int].names.len() && other != local && #[trigger] word_bit(
            ready,
            other as int,
        ) ==> if shapes[cluster as int].mode != ClusterMode::Dynamic {
            local < other
        } else if other < local {
            worth_more(
                ready_worth(shapes, state, cluster, local, ready),
                ready_worth(shapes, state, cluster, other, ready),
            )
        } else {
            !worth_more(
                ready_worth(shapes, state, cluster, other, ready),
                ready_worth(shapes, state, cluster, local, ready),
            )
        }
}

/// Where one list is worth more than another, it is worth more than all that are not worth more than
/// that.
proof fn lemma_worth_above(left: Seq<int>, middle: Seq<int>, right: Seq<int>)
    requires
        left.len() == middle.len() == right.len(),
        worth_more(left, middle),
        !worth_more(right, middle),
    ensures
        worth_more(left, right),
    decreases left.len(),
{
    if left[0] == middle[0] && middle[0] == right[0] {
        lemma_worth_above(left.drop_first(), middle.drop_first(), right.drop_first());
    }
}

proof fn lemma_worth_one_way(left: Seq<int>, right: Seq<int>)
    requires
        left.len() == right.len(),
        worth_more(left, right),
    ensures
        !worth_more(right, left),
    decreases left.len(),
{
    if left[0] == right[0] {
        lemma_worth_one_way(left.drop_first(), right.drop_first());
    }
}

proof fn lemma_ones_bound(word: u64, until: int)
    requires
        0 <= until,
    ensures
        0 <= word_ones(word, until) <= until,
    decreases until,
{
    if until > 0 {
        lemma_ones_bound(word, until - 1);
    }
}

impl<R> Schedule<R> {
    /// What it is worth to run a job next.
    fn ready_score(&self, cluster: ClusterId, local: LocalIndex, ready: u64) -> (score: Vec<i128>)
        requires
            self.sound(),
            cluster < self.clusters@.len(),
            local < self.clusters@[cluster as int].jobs@.len(),
        ensures
            numbers(score@) == ready_worth(self.shapes(), self.state(), cluster, local, ready),
    {
        let ghost shapes = self.shapes();
        let ghost state = self.state();
        let ghost shape = shapes[cluster as int];
        let ghost at = local as int;
        let ghost locals = shape.locals[at];
        let ghost remotes = shape.remotes[at];
        let own = &self.clusters[cluster as usize];
        let job = &own.jobs[local as usize];
        assert(shape == own.shape());
        assert(own.ranged() && shape.fits());
        let done_after = own.done_mask | (1u64 << (local as u64));
        let start: usize = job.local_successor_range.start as usize;
        let end: usize = job.local_successor_range.end as usize;
        assert(locals == own.locals_of(at));
        assert(remotes == own.remotes_of(at));
        let mut here: i128 = 0;
        for index in 0..(end - start)
            invariant
                self.sound(),
                cluster < self.clusters@.len(),
                own == &self.clusters@[cluster as int],
                shape == own.shape(),
                shape.fits(),
                0 <= at < own.jobs@.len(),
                locals == shape.locals[at],
                locals == own.locals_of(at),
                start == own.jobs@[at].local_successor_range.start,
                end == own.jobs@[at].local_successor_range.end,
                start <= end <= own.local_successors@.len(),
                locals.len() == end - start,
                here == local_unlocks(shape, own.waits(), done_after, locals, index as int),
                0 <= here <= index,
        {
            let successor = own.local_successors[start + index];
            assert(locals[index as int] == successor);
            assert(shape.locals[at][index as int] < shape.names.len());
            let found = &own.jobs[successor as usize];
            assert(own.waits()[successor as int] == found.external_wait);
            assert(shape.masks[successor as int] == found.local_predecessor_mask);
            if found.external_wait == 0 && done_after & found.local_predecessor_mask
                == found.local_predecessor_mask {
                here += 1;
            }
        }
        let first: usize = job.remote_successor_range.start as usize;
        let last: usize = job.remote_successor_range.end as usize;
        let mut there: i128 = 0;
        for index in 0..(last - first)
            invariant
                self.sound(),
                cluster < self.clusters@.len(),
                shapes == self.shapes(),
                state == self.state(),
                own == &self.clusters@[cluster as int],
                shape == shapes[cluster as int],
                shape == own.shape(),
                0 <= at < own.jobs@.len(),
                remotes == shape.remotes[at],
                remotes == own.remotes_of(at),
                first == own.jobs@[at].remote_successor_range.start,
                last == own.jobs@[at].remote_successor_range.end,
                first <= last <= own.remote_successors@.len(),
                remotes.len() == last - first,
                there == remote_unlocks(shapes, state, remotes, index as int),
                0 <= there <= index,
        {
            let successor = own.remote_successors[first + index];
            proof {
                assert(remotes[index as int] == successor);
                assert(remotes_fit(shapes));
                let same = shapes[cluster as int].remotes[at][index as int];
                assert(same == successor);
                assert(shapes[successor.cluster as int]
                    == self.clusters@[successor.cluster as int].shape());
            }
            let target = &self.clusters[successor.cluster as usize];
            let found = &target.jobs[successor.job as usize];
            proof {
                assert(state.waits[successor.cluster as int] == target.waits());
                assert(target.waits()[successor.job as int] == found.external_wait);
                assert(shapes[successor.cluster as int].masks[successor.job as int]
                    == found.local_predecessor_mask);
            }
            if found.external_wait == 1 && target.done_mask & found.local_predecessor_mask
                == found.local_predecessor_mask {
                there += 1;
            }
        }
        proof {
            lemma_ones_bound(ready & job.dynamic_conflict_mask, 64);
            assert(state.waits[cluster as int] == own.waits());
            assert(shape.conflicts[at] == job.dynamic_conflict_mask);
            assert(shape.priorities[at] == job.priority);
        }
        let conflicts: i128 = (ready & job.dynamic_conflict_mask).count_ones() as i128;
        let balance: i128 = here * 2 + there * 3 - conflicts;
        let score = vec![
            balance,
            there,
            job.priority.strict_height as i128,
            job.priority.remote_successors as i128,
            job.priority.local_successors as i128,
            job.priority.hot_write_score,
            job.priority.dynamic_degree as i128,
            job.priority.reads as i128,
            job.priority.writes as i128,
            job.priority.accesses as i128,
        ];
        assert(numbers(score@) =~= ready_worth(shapes, state, cluster, local, ready));
        score
    }

    /// The job of a cluster to be run next.
    pub fn select_ready_job(&self, cluster: ClusterId, ready: u64) -> (local: LocalIndex)
        requires
            self.sound(),
            cluster < self.clusters@.len(),
            exists|local: int|
                0 <= local < self.clusters@[cluster as int].jobs@.len() && #[trigger] word_bit(
                    ready,
                    local,
                ),
        ensures
            selected(self.shapes(), self.state(), cluster, ready, local),
    {
        let ghost shapes = self.shapes();
        let ghost state = self.state();
        let own = &self.clusters[cluster as usize];
        assert(shapes[cluster as int] == own.shape());
        assert(own.shape().fits());
        let dynamic = match own.mode {
            ClusterMode::Dynamic => true,
            _ => false,
        };
        let count: usize = own.jobs.len();
        let mut best: Option<LocalIndex> = None;
        for local in 0..count
            invariant
                self.sound(),
                cluster < self.clusters@.len(),
                shapes == self.shapes(),
                state == self.state(),
                own == &self.clusters@[cluster as int],
                shapes[cluster as int] == own.shape(),
                own.shape().fits(),
                count == own.jobs@.len(),
                dynamic == (own.mode == ClusterMode::Dynamic),
                best is None ==> forall|other: LocalIndex|
                    other < local ==> !#[trigger] word_bit(ready, other as int),
                best matches Some(chosen) ==> {
                    &&& chosen < local
                    &&& word_bit(ready, chosen as int)
                    &&& forall|other: LocalIndex|
                        other < local && other != chosen && #[trigger] word_bit(ready, other as int)
                            ==> if !dynamic {
                            chosen < other
                        } else if other < chosen {
                            worth_more(
                                ready_worth(shapes, state, cluster, chosen, ready),
                                ready_worth(shapes, state, cluster, other, ready),
                            )
                        } else {
                            !worth_more(
                                ready_worth(shapes, state, cluster, other, ready),
                                ready_worth(shapes, state, cluster, chosen, ready),
                            )
                        }
                },
        {
            let candidate = local as LocalIndex;
            if ready & (1u64 << (local as u64)) != 0 {
                assert(word_bit(ready, local as int));
                match best {
                    None => {
                        best = Some(candidate);
                    },
                    Some(chosen) => {
                        if dynamic {
                            let left = self.ready_score(cluster, candidate, ready);
                            let right = self.ready_score(cluster, chosen, ready);
                            let ghost l = ready_worth(shapes, state, cluster, candidate, ready);
                            let ghost r = ready_worth(shapes, state, cluster, chosen, ready);
                            assert(left@.len() == l.len() && right@.len() == r.len());
                            if is_worth_more(&left, &right) {
                                assert forall|other: LocalIndex|
                                    other < local && other != candidate && #[trigger] word_bit(
                                        ready,
                                        other as int,
                                    ) implies worth_more(
                                    l,
                                    ready_worth(shapes, state, cluster, other, ready),
                                ) by {
                                    let o = ready_worth(shapes, state, cluster, other, ready);
                                    if other != chosen {
                                        if other < chosen {
                                            lemma_worth_one_way(r, o);
                                        }
                                        lemma_worth_above(l, r, o);
                                    }
                                }
                                best = Some(candidate);
                            }
                        }
                    },
                }
            } else {
                assert(!word_bit(ready, local as int));
            }
        }
        match best {
            Some(chosen) => chosen,
            None => {
                proof {
                    let some = choose|local: int|
                        0 <= local < own.jobs@.len() && #[trigger] word_bit(ready, local);
                    assert(!word_bit(ready, (some as LocalIndex) as int));
                }
                0
            },
        }
    }

    /// Tells a job of another cluster that a job that it waits for has finished. Returns whether
    /// someone must run its cluster now.
    fn wake_one(&mut self, successor: RemoteSuccessor) -> (claimed: bool)
        requires
            old(self).sound(),
            successor.cluster < old(self).clusters@.len(),
            successor.job < old(self).clusters@[successor.cluster as int].jobs@.len(),
        ensures
            final(self).sound(),
            final(self).same_but_state(*old(self)),
            (final(self).state(), claimed) == wake(old(self).shapes(), old(self).state(), successor),
    {
        let ghost before = self.clusters@;
        let ghost goal = wake(self.shapes(), self.state(), successor);
        let at: usize = successor.cluster as usize;
        let local: usize = successor.job as usize;
        let ghost c = at as int;
        proof {
            let cluster = before[c];
            assert(cluster.shape().fits());
            assert(self.shapes()[c] == cluster.shape());
            assert(cluster.shape().masks[local as int]
                == cluster.jobs@[local as int].local_predecessor_mask);
            assert(self.state().waits[c] == cluster.waits());
            assert(cluster.waits()[local as int] == cluster.jobs@[local as int].external_wait);
        }
        let bit = 1u64 << (successor.job as u64);
        let wait = self.clusters[at].jobs[local].external_wait;
        self.clusters[at].jobs[local].external_wait = wait.wrapping_sub(1);
        let mask = self.clusters[at].jobs[local].local_predecessor_mask;
        let done = self.clusters[at].done_mask;
        let mut claimed = false;
        if wait == 1 && done & bit == 0 && done & mask == mask && self.clusters[at].ready_mask & bit
            == 0 {
            let ready = self.clusters[at].ready_mask;
            self.clusters[at].ready_mask = ready | bit;
            if !self.clusters[at].queued {
                self.clusters[at].queued = true;
                claimed = true;
            }
        }
        proof {
            let after = self.clusters@;
            assert(after[c].waits() =~= before[c].waits().update(
                local as int,
                wait.wrapping_sub(1),
            ));
            lemma_replaced(before, c, after);
            let state = self.state();
            assert(state.ready =~= goal.0.ready);
            assert(state.done =~= goal.0.done);
            assert(state.queued =~= goal.0.queued);
            assert(state.waits =~= goal.0.waits);
        }
        claimed
    }

    /// Tells the jobs of other clusters that wait for a job that it has finished. Returns the
    /// clusters that someone must run now.
    fn wake_remote_successors(&mut self, cluster: ClusterId, local: LocalIndex) -> (claimed: Vec<
        ClusterId,
    >)
        requires
            old(self).sound(),
            cluster < old(self).clusters@.len(),
            local < old(self).clusters@[cluster as int].jobs@.len(),
        ensures
            final(self).sound(),
            final(self).same_but_state(*old(self)),
            ({
                let list = old(self).shapes()[cluster as int].remotes[local as int];
                (final(self).state(), claimed@) == wake_all(
                    old(self).shapes(),
                    old(self).state(),
                    list,
                    list.len() as int,
                )
            }),
    {
        let ghost before = *self;
        let ghost shapes = self.shapes();
        let ghost c = cluster as int;
        let ghost list = shapes[c].remotes[local as int];
        let at: usize = cluster as usize;
        let first: usize = self.clusters[at].jobs[local as usize].remote_successor_range.start as usize;
        let last: usize = self.clusters[at].jobs[local as usize].remote_successor_range.end as usize;
        proof {
            assert(shapes[c] == before.clusters@[c].shape());
            assert(list == before.clusters@[c].remotes_of(local as int));
            assert(before.clusters@[c].ranged());
            assert(before.clusters@[c].jobs@[local as int].remote_successor_range.start == first);
        }
        let mut claimed: Vec<ClusterId> = Vec::new();
        for index in 0..(last - first)
            invariant
                at == cluster,
                c == cluster,
                shapes == before.shapes(),
                before.sound(),
                c < before.clusters@.len(),
                0 <= c,
                local < before.clusters@[c].jobs@.len(),
                list == shapes[c].remotes[local as int],
                list == before.clusters@[c].remotes_of(local as int),
                first == before.clusters@[c].jobs@[local as int].remote_successor_range.start,
                last == before.clusters@[c].jobs@[local as int].remote_successor_range.end,
                first <= last <= before.clusters@[c].remote_successors@.len(),
                list.len() == last - first,
                self.sound(),
                self.same_but_state(before),
                self.clusters@.len() == before.clusters@.len(),
                self.clusters@[c].remote_successors == before.clusters@[c].remote_successors,
                (self.state(), claimed@) == wake_all(shapes, before.state(), list, index as int),
        {
            let ghost held = *self;
            let successor = self.clusters[at].remote_successors[first + index];
            proof {
                assert(list[index as int] == successor);
                assert(remotes_fit(shapes));
                assert(shapes[c].remotes[local as int][index as int] == successor);
                assert(self.shapes()[successor.cluster as int]
                    == self.clusters@[successor.cluster as int].shape());
            }
            let claims = self.wake_one(successor);
            if claims {
                claimed.push(successor.cluster);
            }
            assert forall|other: int|
                #![trigger self.clusters@[other]]
                0 <= other < self.clusters@.len() implies self.clusters@[other].resembles(
                before.clusters@[other],
            ) by {
                lemma_resembling(
                    self.clusters@[other],
                    held.clusters@[other],
                    before.clusters@[other],
                );
            }
        }
        claimed
    }
}

pub(crate) proof fn lemma_resembling(left: Cluster, middle: Cluster, right: Cluster)
    requires
        left.resembles(middle),
        middle.resembles(right),
    ensures
        left.resembles(right),
{
    assert forall|local: int|
        #![trigger left.jobs@[local]]
        0 <= local < left.jobs@.len() implies left.jobs@[local] == (ClusterJob {
        external_wait: left.jobs@[local].external_wait,
        ..right.jobs@[local]
    }) by {
        assert(middle.jobs@[local] == (ClusterJob {
            external_wait: middle.jobs@[local].external_wait,
            ..right.jobs@[local]
        }));
    }
}

/// What becomes of the clusters, and of who runs one of them, when a job of it has finished; and
/// which clusters someone else must run now.
pub open spec fn finished(
    shapes: Seq<ClusterShape>,
    state: KernelState,
    runner: Runner,
    local: LocalIndex,
) -> (KernelState, Runner, Seq<ClusterId>) {
    let cluster = runner.cluster as int;
    let shape = shapes[cluster];
    let done = state.done[cluster] | bit_of(local);
    let locals = shape.locals[local as int];
    let considered = if shape.mode == ClusterMode::Serial && locals.len() > 1 {
        1
    } else {
        locals.len() as int
    };
    let remotes = shape.remotes[local as int];
    let (woken, claimed) = wake_all(
        shapes,
        state.with_done(runner.cluster, done),
        remotes,
        remotes.len() as int,
    );
    let goes_on = runner.next is None && claimed.len() > 0;
    (
        woken,
        Runner {
            cluster: runner.cluster,
            ready: unlock(
                shape,
                state.waits[cluster],
                done,
                runner.ready,
                locals,
                considered,
            ),
            next: if goes_on {
                Some(claimed[0])
            } else {
                runner.next
            },
        },
        if goes_on {
            claimed.drop_first()
        } else {
            claimed
        },
    )
}

/// What becomes of the clusters, and of who runs one of them, until there is a ready job to run: they
/// take the jobs that have been woken meanwhile, or go on with the next cluster, or leave.
pub open spec fn settled(state: KernelState, runner: Runner) -> (KernelState, Option<Runner>)
    decreases (if runner.next is Some { 1int } else { 0 }),
{
    let cluster = runner.cluster as int;
    if runner.ready != 0 {
        (state, Some(runner))
    } else if state.ready[cluster] != 0 {
        (
            state.with_ready(runner.cluster, 0),
            Some(Runner { ready: state.ready[cluster], ..runner }),
        )
    } else {
        let left = state.with_queued(runner.cluster, false);
        match runner.next {
            None => (left, None),
            Some(next) => settled(
                left.with_ready(next, 0),
                Runner { cluster: next, ready: left.ready[next as int], next: None },
            ),
        }
    }
}

/// Whether a word has bits for the jobs of a cluster only.
pub open spec fn names_jobs(word: u64, count: int) -> bool {
    forall|local: int| 0 <= local < 64 && #[trigger] word_bit(word, local) ==> local < count
}

/// Whether only jobs of each cluster are marked as ready.
pub open spec fn ready_names_jobs(shapes: Seq<ClusterShape>, state: KernelState) -> bool {
    forall|cluster: int|
        0 <= cluster < shapes.len() ==> names_jobs(
            #[trigger] state.ready[cluster],
            shapes[cluster].names.len() as int,
        )
}

/// Whether a runner runs jobs of its cluster, and goes on with a cluster that there is.
pub open spec fn runner_fits(shapes: Seq<ClusterShape>, runner: Runner) -> bool {
    &&& runner.cluster < shapes.len()
    &&& names_jobs(runner.ready, shapes[runner.cluster as int].names.len() as int)
    &&& runner.next matches Some(next) ==> next < shapes.len()
}

impl<R> Schedule<R> {
    /// Takes note that a job has finished, makes those ready that waited for nothing else, and
    /// returns the clusters that someone else must run now.
    pub fn finish(&mut self, runner: &mut Runner, local: LocalIndex) -> (spawned: Vec<ClusterId>)
        requires
            old(self).sound(),
            old(runner).cluster < old(self).clusters@.len(),
            local < old(self).clusters@[old(runner).cluster as int].jobs@.len(),
        ensures
            final(self).sound(),
            final(self).same_but_state(*old(self)),
            (final(self).state(), *final(runner), spawned@) == finished(
                old(self).shapes(),
                old(self).state(),
                *old(runner),
                local,
            ),
    {
        let ghost before = *self;
        let ghost shapes = self.shapes();
        let ghost first_runner = *runner;
        let cluster = runner.cluster;
        let at: usize = cluster as usize;
        let ghost c = at as int;
        let ghost shape = shapes[c];
        let ghost locals = shape.locals[local as int];
        proof {
            assert(before.clusters@[c].ranged() && before.clusters@[c].shape().fits());
            assert(shape == before.clusters@[c].shape());
            assert(locals == before.clusters@[c].locals_of(local as int));
        }
        let done = self.clusters[at].done_mask | (1u64 << (local as u64));
        self.clusters[at].done_mask = done;
        proof {
            lemma_replaced(before.clusters@, c, self.clusters@);
            let state = self.state();
            assert(state.ready =~= before.state().ready);
            assert(state.queued =~= before.state().queued);
            assert(state.waits =~= before.state().waits);
        }
        let start: usize = self.clusters[at].jobs[local as usize].local_successor_range.start as usize;
        let mut count: usize = self.clusters[at].jobs[local as usize].local_successor_range.end as usize
            - start;
        assert(locals.len() == count);
        if let ClusterMode::Serial = self.clusters[at].mode {
            if count > 1 {
                count = 1;
            }
        }
        let mut ready = runner.ready;
        for index in 0..count
            invariant
                c == at,
                at < self.clusters@.len(),
                self.clusters@[c].shape() == shape,
                self.clusters@[c].waits() == before.clusters@[c].waits(),
                self.clusters@[c].local_successors == before.clusters@[c].local_successors,
                shape.fits(),
                local < shape.names.len(),
                locals == shape.locals[local as int],
                locals == before.clusters@[c].locals_of(local as int),
                start == before.clusters@[c].jobs@[local as int].local_successor_range.start,
                range_within(
                    before.clusters@[c].local_successors@,
                    before.clusters@[c].jobs@[local as int].local_successor_range,
                ),
                count <= locals.len(),
                ready == unlock(
                    shape,
                    before.clusters@[c].waits(),
                    done,
                    first_runner.ready,
                    locals,
                    index as int,
                ),
        {
            let successor = self.clusters[at].local_successors[start + index];
            proof {
                assert(locals[index as int] == successor);
                assert(shape.locals[local as int][index as int] < shape.names.len());
                assert(self.clusters@[c].shape().names.len() == self.clusters@[c].jobs@.len());
                assert(self.clusters@[c].waits()[successor as int]
                    == self.clusters@[c].jobs@[successor as int].external_wait);
                assert(shape.masks[successor as int]
                    == self.clusters@[c].jobs@[successor as int].local_predecessor_mask);
            }
            let bit = 1u64 << (successor as u64);
            let wait = self.clusters[at].jobs[successor as usize].external_wait;
            let mask = self.clusters[at].jobs[successor as usize].local_predecessor_mask;
            if done & bit == 0 && wait == 0 && done & mask == mask {
                ready = ready | bit;
            }
        }
        runner.ready = ready;
        let ghost middle = *self;
        let mut claimed = self.wake_remote_successors(cluster, local);
        proof {
            assert forall|other: int|
                #![trigger self.clusters@[other]]
                0 <= other < self.clusters@.len() implies self.clusters@[other].resembles(
                before.clusters@[other],
            ) by {
                lemma_resembling(
                    self.clusters@[other],
                    middle.clusters@[other],
                    before.clusters@[other],
                );
            }
        }
        if runner.next.is_none() && claimed.len() > 0 {
            let ghost all = claimed@;
            let next = claimed.remove(0);
            runner.next = Some(next);
            assert(claimed@ =~= all.drop_first());
        }
        claimed
    }

    /// Finds the job to be run next. Where there is none, whoever runs the cluster leaves it. Where
    /// the run has been cancelled, they leave at once.
    pub fn next(&mut self, runner: Runner, cancelled: bool) -> (found: Option<(Runner, LocalIndex)>)
        requires
            old(self).sound(),
            runner_fits(old(self).shapes(), runner),
            ready_names_jobs(old(self).shapes(), old(self).state()),
        ensures
            final(self).sound(),
            final(self).same_but_state(*old(self)),
            ready_names_jobs(final(self).shapes(), final(self).state()),
            cancelled ==> found is None && final(self).state() == old(self).state().with_queued(
                runner.cluster,
                false,
            ),
            !cancelled ==> final(self).state() == settled(old(self).state(), runner).0,
            !cancelled ==> match settled(old(self).state(), runner).1 {
                None => found is None,
                Some(resting) => found matches Some((running, local)) && selected(
                    final(self).shapes(),
                    final(self).state(),
                    resting.cluster,
                    resting.ready,
                    local,
                ) && running == (Runner { ready: resting.ready & !bit_of(local), ..resting })
                    && runner_fits(final(self).shapes(), running),
            },
    {
        let ghost before = *self;
        let ghost shapes = self.shapes();
        if cancelled {
            self.leave(runner.cluster);
            return None;
        }
        let mut resting = runner;
        let mut searching = true;
        while searching && resting.ready == 0
            invariant
                before.sound(),
                shapes == before.shapes(),
                self.sound(),
                self.same_but_state(before),
                runner_fits(shapes, resting),
                ready_names_jobs(shapes, self.state()),
                searching ==> settled(before.state(), runner) == settled(self.state(), resting),
                !searching ==> settled(before.state(), runner) == (self.state(), None::<Runner>),
            decreases
                    (if searching { 1int } else { 0 }),
                    (if resting.ready == 0 { 1int } else { 0 }),
                    (if resting.next is Some { 1int } else { 0 }),
        {
            let ghost held = *self;
            let ghost state = self.state();
            let cluster = resting.cluster;
            assert(self.shapes().len() == self.clusters@.len());
            assert(state.ready[cluster as int] == self.clusters@[cluster as int].ready_mask);
            if self.clusters[cluster as usize].ready_mask != 0 {
                let ready = self.take_ready(cluster);
                resting.ready = ready;
                proof {
                    lemma_no_ready(shapes, state, cluster);
                }
            } else {
                self.leave(cluster);
                let ghost left = *self;
                match resting.next {
                    None => {
                        searching = false;
                        assert forall|other: int|
                            #![trigger self.clusters@[other]]
                            0 <= other < self.clusters@.len() implies self.clusters@[other].resembles(
                            before.clusters@[other],
                        ) by {
                            lemma_resembling(
                                self.clusters@[other],
                                held.clusters@[other],
                                before.clusters@[other],
                            );
                        }
                    },
                    Some(next) => {
                        let ready = self.take_ready(next);
                        proof {
                            assert(ready_names_jobs(shapes, left.state()));
                            lemma_no_ready(shapes, left.state(), next);
                            assert(names_jobs(
                                left.state().ready[next as int],
                                shapes[next as int].names.len() as int,
                            ));
                        }
                        resting = Runner { cluster: next, ready, next: None };
                        assert forall|other: int|
                            #![trigger self.clusters@[other]]
                            0 <= other < self.clusters@.len() implies self.clusters@[other].resembles(
                            held.clusters@[other],
                        ) by {
                            lemma_resembling(
                                self.clusters@[other],
                                left.clusters@[other],
                                held.clusters@[other],
                            );
                        }
                    },
                }
            }
            assert forall|other: int|
                #![trigger self.clusters@[other]]
                0 <= other < self.clusters@.len() implies self.clusters@[other].resembles(
                before.clusters@[other],
            ) by {
                lemma_resembling(
                    self.clusters@[other],
                    held.clusters@[other],
                    before.clusters@[other],
                );
            }
        }
        if !searching {
            return None;
        }
        proof {
            let at = crate::bits::lemma_some_word_bit(resting.ready);
            assert(word_bit(resting.ready, at));
            assert(self.shapes()[resting.cluster as int]
                == self.clusters@[resting.cluster as int].shape());
        }
        let local = self.select_ready_job(resting.cluster, resting.ready);
        let ready = resting.ready & !(1u64 << (local as u64));
        proof {
            assert(shapes[resting.cluster as int].fits()) by {
                assert(self.clusters@[resting.cluster as int].shape().fits());
            }
            assert forall|other: int| 0 <= other < 64 && #[trigger] word_bit(ready, other) implies other
                < shapes[resting.cluster as int].names.len() by {
                crate::bits::lemma_clear_bit(resting.ready, local as u64, other as u64);
                assert(word_bit(resting.ready, other));
            }
        }
        Some((Runner { ready, ..resting }, local))
    }
}

/// A cluster without ready jobs has no others marked.
pub(crate) proof fn lemma_no_ready(shapes: Seq<ClusterShape>, state: KernelState, cluster: ClusterId)
    requires
        ready_names_jobs(shapes, state),
        cluster < state.ready.len(),
        shapes.len() == state.ready.len(),
    ensures
        ready_names_jobs(shapes, state.with_ready(cluster, 0)),
{
    let after = state.with_ready(cluster, 0);
    assert forall|other: int| 0 <= other < shapes.len() implies names_jobs(
        #[trigger] after.ready[other],
        shapes[other].names.len() as int,
    ) by {
        if other == cluster {
            assert forall|local: int| 0 <= local < 64 implies !#[trigger] word_bit(0u64, local) by {
                lemma_join_bits(0, 0, local as u64);
            }
        } else {
            assert(after.ready[other] == state.ready[other]);
        }
    }
}

} // verus!
