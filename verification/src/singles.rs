//! The simpler ways to run a schedule of clusters: one job after the other, all jobs at once, or, where
//! every cluster has one job, the clusters as a graph.

use crate::chain::Chain;
use crate::clusters::ClusterId;
use crate::dag::JobId;
use crate::depend::DependencyView;
use crate::exclusion::{
    at_place, lemma_all_missing_outside, lemma_missing_outside, lemma_one_at_a_time_is_apart,
    lemma_one_less_outside, lemma_outside, planned_jobs_follow_their_predecessors,
};
use crate::kernel::{
    is_serial, kernel_planned, ranked_forward, KernelPlan, RemoteSuccessor,
};
use crate::normalize::{relation_of, Relation};
use crate::plan::all_consistent;
use vstd::prelude::*;

verus! {

/// The jobs that are done, and those that have started, once the first `count` jobs of a chain have
/// finished.
pub open spec fn first_of(chain: Seq<JobId>, count: int) -> Set<JobId> {
    chain.take(count).to_set()
}

pub(crate) proof fn lemma_first_of(chain: Seq<JobId>, count: int, index: int)
    requires
        chain.no_duplicates(),
        0 <= count <= chain.len(),
        0 <= index < chain.len(),
    ensures
        first_of(chain, count).contains(chain[index]) == (index < count),
{
    let first = chain.take(count);
    if index < count {
        assert(first[index] == chain[index]);
    }
    if first.contains(chain[index]) {
        let at = first.index_of(chain[index]);
        assert(chain[at] == chain[index]);
    }
}

/// Where jobs are run one after the other along a serial chain, each starts when all that it waits for
/// is done, and one runs at a time.
pub proof fn serial_runs_are_orderly(plan: KernelPlan, chain: Seq<JobId>, count: int, begun: int)
    requires
        plan.fits(),
        is_serial(plan.predecessors, chain),
        0 <= count <= begun <= chain.len(),
        begun <= count + 1,
    ensures
        plan.orderly(first_of(chain, begun), first_of(chain, count)),
        plan.one_at_a_time(first_of(chain, begun), first_of(chain, count)),
{
    let started = first_of(chain, begun);
    let done = first_of(chain, count);
    assert forall|job: JobId| job < plan.placements.len() implies (#[trigger] started.contains(job)
        ==> plan.may_start(done, job)) && (done.contains(job) ==> started.contains(job)) by {
        assert(chain.contains(job));
        let at = chain.index_of(job);
        lemma_first_of(chain, begun, at);
        lemma_first_of(chain, count, at);
        if started.contains(job) {
            assert forall|index: int|
                0 <= index < plan.predecessors[job as int].len() implies done.contains(
                #[trigger] plan.predecessors[job as int][index],
            ) by {
                if at > 0 {
                    assert(plan.predecessors[chain[at] as int] == seq![chain[at - 1]]);
                    lemma_first_of(chain, count, at - 1);
                }
            }
        }
    }
    assert forall|left: JobId, right: JobId|
        #![trigger started.contains(left), started.contains(right)]
        left < plan.placements.len() && right < plan.placements.len()
            && plan.placements[left as int].cluster == plan.placements[right as int].cluster
            && started.contains(left) && started.contains(right) && !done.contains(left)
            && !done.contains(right) implies left == right by {
        assert(chain.contains(left) && chain.contains(right));
        let l = chain.index_of(left);
        let r = chain.index_of(right);
        lemma_first_of(chain, begun, l);
        lemma_first_of(chain, count, l);
        lemma_first_of(chain, begun, r);
        lemma_first_of(chain, count, r);
    }
}

/// Strictly related jobs stand in a serial chain in the order of their declaration.
pub proof fn serial_chains_keep_order(
    declared: Seq<Seq<DependencyView>>,
    plan: KernelPlan,
    chain: Seq<JobId>,
    left: int,
    right: int,
)
    requires
        all_consistent(declared),
        kernel_planned(declared, plan),
        is_serial(plan.predecessors, chain),
        0 <= left < chain.len(),
        0 <= right < chain.len(),
        chain[left] < chain[right],
        relation_of(declared[chain[left] as int], declared[chain[right] as int])
            == Relation::Strict,
    ensures
        left < right,
{
    serial_runs_are_orderly(plan, chain, right, right + 1);
    lemma_first_of(chain, right + 1, right);
    lemma_first_of(chain, right, left);
    lemma_one_at_a_time_is_apart(
        declared,
        plan,
        first_of(chain, right + 1),
        first_of(chain, right),
        chain[left],
        chain[right],
    );
}

impl KernelPlan {
    /// Whether every cluster has one job.
    pub open spec fn lonely(self) -> bool {
        forall|cluster: int|
            0 <= cluster < self.clusters.len() ==> (#[trigger] self.clusters[cluster]).len() == 1
    }

    /// The one job of a cluster.
    pub open spec fn lone(self, cluster: int) -> JobId {
        self.clusters[cluster][0]
    }

    /// The clusters of the jobs that wait for the one job of a cluster.
    pub open spec fn lone_successors(self, cluster: int) -> Seq<JobId> {
        self.remote_list(self.lone(cluster)).map_values(
            |successor: RemoteSuccessor| successor.cluster,
        )
    }

    /// Whether a graph is that of the clusters, each of which has one job.
    pub open spec fn links(self, chain: Chain) -> bool {
        &&& self.lonely()
        &&& chain.sound()
        &&& chain.nodes@.len() == self.clusters.len()
        &&& forall|cluster: int|
            0 <= cluster < self.clusters.len() ==> #[trigger] chain.successors_of(cluster)
                == self.lone_successors(cluster)
        &&& forall|cluster: int|
            0 <= cluster < self.clusters.len() ==> (
            #[trigger] chain.nodes@[cluster]).wait_initial == self.external(self.lone(cluster))
    }

    /// Whether each cluster of a graph waits for those jobs that are not done, and has started only
    /// when all were; and those that are done wait for what they waited for in the beginning.
    pub open spec fn counts_down(
        self,
        chain: Chain,
        started: Set<JobId>,
        done: Set<JobId>,
    ) -> bool {
        &&& self.links(chain)
        &&& self.orderly(started, done)
        &&& forall|job: JobId|
            job < self.placements.len() && !#[trigger] started.contains(job)
                ==> chain.nodes@[self.placements[job as int].cluster as int].wait
                == self.external_left(done, job)
        &&& forall|job: JobId|
            job < self.placements.len() && #[trigger] done.contains(job)
                ==> chain.nodes@[self.placements[job as int].cluster as int].wait
                == chain.nodes@[self.placements[job as int].cluster as int].wait_initial
    }
}

pub(crate) proof fn lemma_lone(plan: KernelPlan, job: JobId)
    requires
        plan.fits(),
        plan.lonely(),
        job < plan.placements.len(),
    ensures
        plan.placements[job as int].cluster < plan.clusters.len(),
        plan.placements[job as int].local == 0,
        plan.lone(plan.placements[job as int].cluster as int) == job,
{
    let place = plan.placements[job as int];
    assert(plan.clusters[place.cluster as int].len() == 1);
}

pub(crate) proof fn lemma_lone_cluster(plan: KernelPlan, cluster: ClusterId)
    requires
        plan.fits(),
        plan.lonely(),
        cluster < plan.clusters.len(),
    ensures
        plan.lone(cluster as int) < plan.placements.len(),
        plan.placements[plan.lone(cluster as int) as int].cluster == cluster,
{
    assert(plan.clusters[cluster as int].len() == 1);
    assert(plan.clusters[cluster as int][0] < plan.placements.len());
}

/// Where every cluster has one job, no two jobs of a cluster run at the same time.
pub(crate) proof fn lemma_lonely_is_one_at_a_time(
    plan: KernelPlan,
    started: Set<JobId>,
    done: Set<JobId>,
)
    requires
        plan.fits(),
        plan.lonely(),
    ensures
        plan.one_at_a_time(started, done),
{
    assert forall|left: JobId, right: JobId|
        #![trigger started.contains(left), started.contains(right)]
        left < plan.placements.len() && right < plan.placements.len()
            && plan.placements[left as int].cluster
            == plan.placements[right as int].cluster implies left == right by {
        lemma_lone(plan, left);
        lemma_lone(plan, right);
    }
}

/// Where every cluster has one job, a job may start just where no job of another cluster is missing.
pub(crate) proof fn lemma_lone_may_start(plan: KernelPlan, done: Set<JobId>, job: JobId)
    requires
        plan.fits(),
        plan.lonely(),
        ranked_forward(plan.orientation.rank, plan.predecessors),
        job < plan.placements.len(),
    ensures
        plan.may_start(done, job) == (plan.external_left(done, job) == 0),
{
    let list = plan.predecessors[job as int];
    let cluster = plan.placements[job as int].cluster;
    lemma_missing_outside(plan.placements, cluster, list, done, list.len() as int);
    assert forall|index: int| 0 <= index < list.len() implies plan.placements[(
    #[trigger] list[index]) as int].cluster != cluster by {
        let other = plan.predecessors[job as int][index];
        assert(plan.orientation.rank[other as int] < plan.orientation.rank[job as int]);
        assert(other < plan.placements.len());
        lemma_lone(plan, other);
        lemma_lone(plan, job);
    }
    if plan.may_start(done, job) {
        assert forall|index: int|
            0 <= index < list.len() && plan.placements[(#[trigger] list[index]) as int].cluster
                != cluster implies done.contains(list[index]) by {
            assert(done.contains(plan.predecessors[job as int][index]));
        }
    }
    if plan.external_left(done, job) == 0 {
        assert forall|index: int| 0 <= index < list.len() implies done.contains(
            #[trigger] plan.predecessors[job as int][index],
        ) by {
            assert(done.contains(list[index]));
        }
    }
}

/// A run of the graph begins with each cluster waiting for what it waits for, and those may start
/// that wait for nothing.
pub proof fn single_runs_begin(
    declared: Seq<Seq<DependencyView>>,
    plan: KernelPlan,
    chain: Chain,
)
    requires
        kernel_planned(declared, plan),
        plan.links(chain),
        forall|cluster: int|
            0 <= cluster < plan.clusters.len() ==> (#[trigger] chain.nodes@[cluster]).wait
                == chain.nodes@[cluster].wait_initial,
    ensures
        plan.counts_down(chain, Set::empty(), Set::empty()),
{
    let nothing = Set::<JobId>::empty();
    assert forall|job: JobId|
        job < plan.placements.len() && !#[trigger] nothing.contains(
            job,
        ) implies chain.nodes@[plan.placements[job as int].cluster as int].wait
        == plan.external_left(nothing, job) by {
        let place = plan.placements[job as int];
        let list = plan.predecessors[job as int];
        lemma_lone(plan, job);
        lemma_all_missing_outside(plan.placements, place.cluster, list, list.len() as int);
        assert(chain.nodes@[place.cluster as int].wait_initial == plan.external(job));
    }
}

/// Clusters that wait for nothing may start.
pub(crate) proof fn lemma_singles_start(
    declared: Seq<Seq<DependencyView>>,
    plan: KernelPlan,
    chain: Chain,
    started: Set<JobId>,
    done: Set<JobId>,
    more: Set<JobId>,
)
    requires
        kernel_planned(declared, plan),
        plan.counts_down(chain, started, done),
        forall|job: JobId| #[trigger]
            more.contains(job) ==> job < plan.placements.len() && !started.contains(job)
                && chain.nodes@[plan.placements[job as int].cluster as int].wait == 0,
    ensures
        plan.counts_down(chain, started.union(more), done),
        forall|job: JobId| #[trigger] more.contains(job) ==> plan.may_start(done, job),
{
    planned_jobs_follow_their_predecessors(declared, plan);
    let now = started.union(more);
    assert forall|job: JobId| #[trigger] more.contains(job) implies plan.may_start(done, job) by {
        lemma_lone_may_start(plan, done, job);
    }
    assert forall|other: JobId| other < plan.placements.len() implies (#[trigger] now.contains(other)
        ==> plan.may_start(done, other)) && (done.contains(other) ==> now.contains(other)) by {
        assert(now.contains(other) == (started.contains(other) || more.contains(other)));
    }
    assert forall|other: JobId|
        other < plan.placements.len() && !#[trigger] now.contains(
            other,
        ) implies chain.nodes@[plan.placements[other as int].cluster as int].wait
        == plan.external_left(done, other) by {
        assert(!started.contains(other));
    }
}

/// When a cluster that waits for nothing starts, all that its job waits for is done.
pub proof fn single_jobs_start(
    declared: Seq<Seq<DependencyView>>,
    plan: KernelPlan,
    chain: Chain,
    started: Set<JobId>,
    done: Set<JobId>,
    job: JobId,
)
    requires
        kernel_planned(declared, plan),
        plan.counts_down(chain, started, done),
        job < plan.placements.len(),
        !started.contains(job),
        chain.nodes@[plan.placements[job as int].cluster as int].wait == 0,
    ensures
        plan.counts_down(chain, started.insert(job), done),
        plan.may_start(done, job),
{
    let more = set![job];
    lemma_singles_start(declared, plan, chain, started, done, more);
    assert(more.contains(job));
    assert(started.union(more) =~= started.insert(job));
}

/// The jobs that wait for the one job of a cluster are those of the successors of the cluster.
pub(crate) proof fn lemma_lone_successors(plan: KernelPlan, job: JobId, other: JobId)
    requires
        plan.fits(),
        plan.lonely(),
        ranked_forward(plan.orientation.rank, plan.predecessors),
        job < plan.placements.len(),
        other < plan.placements.len(),
    ensures
        plan.lone_successors(plan.placements[job as int].cluster as int).contains(
            plan.placements[other as int].cluster,
        ) == plan.predecessors[other as int].contains(job),
        plan.lone_successors(plan.placements[job as int].cluster as int).no_duplicates(),
        forall|index: int|
            0 <= index < plan.lone_successors(plan.placements[job as int].cluster as int).len()
                ==> (#[trigger] plan.lone_successors(
                plan.placements[job as int].cluster as int,
            )[index]) < plan.clusters.len() && plan.lone_successors(
                plan.placements[job as int].cluster as int,
            )[index] != plan.placements[job as int].cluster,
{
    lemma_lone(plan, job);
    lemma_lone(plan, other);
    let cluster = plan.placements[job as int].cluster;
    let there = plan.placements[other as int].cluster;
    let followers = plan.successors[job as int];
    let list = plan.remote_list(job);
    let named = plan.lone_successors(cluster as int);
    assert forall|index: int| 0 <= index < followers.len() implies (#[trigger] followers[index])
        < plan.placements.len() by {
        assert(followers.contains(followers[index]));
    }
    lemma_outside(plan, cluster, followers, followers.len() as int);
    assert(followers.take(followers.len() as int) =~= followers);
    assert(named =~= list.map_values(|successor: RemoteSuccessor| successor.cluster));
    assert forall|index: int| 0 <= index < list.len() implies {
        let found = #[trigger] list[index];
        &&& found.cluster < plan.clusters.len()
        &&& found.job == 0
        &&& found.cluster != cluster
        &&& followers.contains(plan.lone(found.cluster as int))
        &&& named[index] == found.cluster
    } by {
        assert(list.contains(list[index]));
        assert(plan.clusters[list[index].cluster as int].len() == 1);
    }
    if named.contains(there) {
        let at = named.index_of(there);
        assert(list[at].cluster == there);
        assert(followers.contains(other));
    }
    if plan.predecessors[other as int].contains(job) {
        assert(followers.contains(other));
        let index = plan.predecessors[other as int].index_of(job);
        assert(plan.predecessors[other as int][index] == job);
        assert(plan.orientation.rank[job as int] < plan.orientation.rank[other as int]);
        assert(there != cluster);
        assert(list.contains(at_place(plan.placements[other as int])));
        let at = list.index_of(at_place(plan.placements[other as int]));
        assert(named[at] == there);
    }
    assert forall|left: int, right: int|
        0 <= left < named.len() && 0 <= right < named.len() && left != right implies named[left]
        != named[right] by {
        assert(list[left] != list[right]);
        assert(list[left].job == 0 && list[right].job == 0);
    }
    assert forall|index: int| 0 <= index < named.len() implies (#[trigger] named[index])
        < plan.clusters.len() && named[index] != cluster by {
        assert(list[index].cluster == named[index]);
    }
}

/// When the job of a cluster has finished, the clusters that wait for it count it.
pub proof fn single_jobs_finish(
    declared: Seq<Seq<DependencyView>>,
    plan: KernelPlan,
    chain: Chain,
    after: Chain,
    started: Set<JobId>,
    done: Set<JobId>,
    job: JobId,
)
    requires
        kernel_planned(declared, plan),
        plan.counts_down(chain, started, done),
        job < plan.placements.len(),
        started.contains(job),
        !done.contains(job),
        after.sound(),
        chain.finishes(plan.placements[job as int].cluster as int, after),
    ensures
        plan.counts_down(after, started, done.insert(job)),
{
    planned_jobs_follow_their_predecessors(declared, plan);
    let cluster = plan.placements[job as int].cluster;
    let now = done.insert(job);
    lemma_lone(plan, job);
    assert(chain.successors_of(cluster as int) == plan.lone_successors(cluster as int));
    assert forall|other: int| 0 <= other < plan.clusters.len() implies #[trigger] after.successors_of(
        other,
    ) == plan.lone_successors(other) by {
        assert(after.nodes@[other].successor_range == chain.nodes@[other].successor_range);
        assert(after.successors_of(other) == chain.successors_of(other));
    }
    assert forall|other: int| 0 <= other < plan.clusters.len() implies (
    #[trigger] after.nodes@[other]).wait_initial == plan.external(plan.lone(other)) by {
        assert(chain.nodes@[other].wait_initial == plan.external(plan.lone(other)));
    }
    assert forall|other: JobId| other < plan.placements.len() implies (#[trigger] started.contains(
        other,
    ) ==> plan.may_start(now, other)) && (now.contains(other) ==> started.contains(other)) by {
        if started.contains(other) {
            assert(plan.may_start(done, other));
        }
    }
    assert forall|other: JobId|
        other < plan.placements.len() && !#[trigger] started.contains(
            other,
        ) implies after.nodes@[plan.placements[other as int].cluster as int].wait
        == plan.external_left(now, other) by {
        let there = plan.placements[other as int].cluster;
        let list = plan.predecessors[other as int];
        lemma_lone(plan, other);
        lemma_lone_successors(plan, job, other);
        lemma_one_less_outside(plan.placements, there, list, done, job, list.len() as int);
        assert(list.take(list.len() as int) =~= list);
        lemma_missing_outside(plan.placements, there, list, done, list.len() as int);
        assert(there != cluster);
        if list.contains(job) {
            let index = list.index_of(job);
            assert(!done.contains(list[index]));
        }
    }
    assert forall|other: JobId|
        other < plan.placements.len() && #[trigger] now.contains(
            other,
        ) implies after.nodes@[plan.placements[other as int].cluster as int].wait
        == after.nodes@[plan.placements[other as int].cluster as int].wait_initial by {
        let there = plan.placements[other as int].cluster;
        lemma_lone(plan, other);
        if other != job {
            assert(done.contains(other));
            lemma_lone_successors(plan, job, other);
            let list = plan.predecessors[other as int];
            if list.contains(job) {
                let index = list.index_of(job);
                assert(started.contains(other) && plan.may_start(done, other)) by {
                    assert(started.contains(other) || !started.contains(other));
                }
                assert(done.contains(plan.predecessors[other as int][index]));
            }
            assert(there != cluster);
        }
    }
}

/// A run of the graph ends only when all jobs are done: where no job runs, some cluster waits for
/// nothing until then.
pub proof fn single_runs_do_not_stall(
    declared: Seq<Seq<DependencyView>>,
    plan: KernelPlan,
    chain: Chain,
    done: Set<JobId>,
    job: JobId,
) -> (next: JobId)
    requires
        kernel_planned(declared, plan),
        plan.counts_down(chain, done, done),
        job < plan.placements.len(),
        !done.contains(job),
    ensures
        next < plan.placements.len(),
        !done.contains(next),
        chain.nodes@[plan.placements[next as int].cluster as int].wait == 0,
    decreases plan.orientation.rank[job as int],
{
    planned_jobs_follow_their_predecessors(declared, plan);
    lemma_lone_may_start(plan, done, job);
    if plan.may_start(done, job) {
        job
    } else {
        let index = choose|index: int|
            0 <= index < plan.predecessors[job as int].len() && !done.contains(
                #[trigger] plan.predecessors[job as int][index],
            );
        let earlier = plan.predecessors[job as int][index];
        single_runs_do_not_stall(declared, plan, chain, done, earlier)
    }
}

} // verus!
