//! What has been compiled can be run.

use crate::bits::{lemma_join_bits, lemma_some_word_bit, word_bit};
use crate::chain::{chains_keep_their_lists, Chain};
use crate::clusters::ClusterId;
use crate::dag::JobId;
use crate::depend::DependencyView;
use crate::exclusion::{
    compiled_clusters_are_sound, lemma_all_missing_outside, planned_jobs_follow_their_predecessors,
};
use crate::kernel::{
    kernel_planned, runs_first, single_waits, waiting_clusters, KernelPlan, RemoteSuccessor,
    Schedule,
};
use crate::layout::joined;
use crate::singles::{
    lemma_lone, lemma_lone_cluster, lemma_lone_may_start, lemma_lone_successors,
};
use vstd::prelude::*;

verus! {

/// Where every cluster has one job, the graph of the clusters is that of the plan.
proof fn lemma_compiled_links<R>(
    declared: Seq<Seq<DependencyView>>,
    plan: KernelPlan,
    runs: Seq<R>,
    schedule: Schedule<R>,
    chain: Chain,
)
    requires
        kernel_planned(declared, plan),
        schedule.follows(plan, runs),
        schedule.singleton_dag == Some(chain),
        joined(waiting_clusters(schedule.clusters@), schedule.clusters@.len() as int).len()
            <= u32::MAX,
    ensures
        plan.links(chain),
        forall|cluster: int|
            0 <= cluster < chain.nodes@.len() ==> (#[trigger] chain.nodes@[cluster]).wait
                == chain.nodes@[cluster].wait_initial,
        forall|cluster: ClusterId| #[trigger]
            schedule.roots@.contains(cluster) == (cluster < plan.clusters.len()
                && chain.nodes@[cluster as int].wait_initial == 0),
{
    planned_jobs_follow_their_predecessors(declared, plan);
    let clusters = schedule.clusters@;
    let waits = single_waits(clusters);
    let lists = waiting_clusters(clusters);
    assert forall|cluster: int| 0 <= cluster < plan.clusters.len() implies (
    #[trigger] plan.clusters[cluster]).len() == 1 by {
        assert(clusters[cluster].jobs@.len() == 1);
        assert(plan.plans_cluster(cluster, clusters[cluster]));
    }
    assert forall|cluster: int|
        #![trigger lists[cluster]]
        0 <= cluster < lists.len() implies lists[cluster] == plan.lone_successors(cluster)
        && lists[cluster].no_duplicates() && (forall|index: int|
        0 <= index < lists[cluster].len() ==> (#[trigger] lists[cluster][index]) < waits.len()
            && lists[cluster][index] != cluster) && waits[cluster] == plan.external(
        plan.lone(cluster),
    ) by {
        let made = clusters[cluster];
        let all = plan.remote_lists(cluster);
        let job = plan.lone(cluster);
        assert(plan.plans_cluster(cluster, made));
        assert(plan.clusters[cluster].len() == 1);
        assert(plan.plans_job(job, made.jobs@[0]));
        assert(joined(all, 0) == Seq::<RemoteSuccessor>::empty());
        assert(joined(all, 1) =~= all[0]);
        assert(all[0] == plan.remote_list(job));
        assert(lists[cluster] =~= plan.lone_successors(cluster));
        lemma_lone_cluster(plan, cluster as ClusterId);
        lemma_lone_successors(plan, job, job);
    }
    chains_keep_their_lists(chain, waits, lists, schedule.roots@);
    assert forall|cluster: int| 0 <= cluster < plan.clusters.len() implies #[trigger] chain.successors_of(
        cluster,
    ) == plan.lone_successors(cluster) by {
        assert(lists[cluster] == plan.lone_successors(cluster));
    }
    assert forall|cluster: int| 0 <= cluster < plan.clusters.len() implies (
    #[trigger] chain.nodes@[cluster]).wait_initial == plan.external(plan.lone(cluster)) by {
        assert(lists[cluster] == plan.lone_successors(cluster));
        assert(waits[cluster] == plan.external(plan.lone(cluster)));
    }
    assert forall|cluster: ClusterId| #[trigger] schedule.roots@.contains(cluster) == (cluster
        < plan.clusters.len() && chain.nodes@[cluster as int].wait_initial == 0) by {
        if cluster < plan.clusters.len() {
            let made = clusters[cluster as int];
            let word = made.ready_mask_initial;
            assert(plan.plans_cluster(cluster as int, made));
            assert(plan.clusters[cluster as int].len() == 1);
            assert(made.jobs@[0].local_predecessor_mask == 0);
            assert(chain.nodes@[cluster as int].wait_initial == waits[cluster as int]);
            if word != 0 {
                let index = lemma_some_word_bit(word);
                assert(word_bit(word, index));
            } else {
                lemma_join_bits(0, 0, 0);
                assert(!word_bit(word, 0));
            }
        }
    }
}

/// Where all jobs are to be run at once, each may start before any other is done.
proof fn lemma_compiled_at_once<R>(
    declared: Seq<Seq<DependencyView>>,
    plan: KernelPlan,
    runs: Seq<R>,
    schedule: Schedule<R>,
)
    requires
        kernel_planned(declared, plan),
        schedule.follows(plan, runs),
        schedule.trivial_parallel,
    ensures
        plan.lonely(),
        forall|job: JobId|
            job < plan.placements.len() ==> #[trigger] plan.may_start(Set::empty(), job),
{
    planned_jobs_follow_their_predecessors(declared, plan);
    let clusters = schedule.clusters@;
    assert forall|cluster: int| 0 <= cluster < plan.clusters.len() implies (
    #[trigger] plan.clusters[cluster]).len() == 1 by {
        assert(clusters[cluster].jobs@.len() == 1);
        assert(plan.plans_cluster(cluster, clusters[cluster]));
    }
    assert forall|job: JobId| job < plan.placements.len() implies #[trigger] plan.may_start(
        Set::empty(),
        job,
    ) by {
        let place = plan.placements[job as int];
        let list = plan.predecessors[job as int];
        lemma_lone(plan, job);
        let made = clusters[place.cluster as int];
        assert(made.jobs@.len() == 1);
        assert(plan.plans_cluster(place.cluster as int, made));
        assert(plan.plans_job(job, made.jobs@[0]));
        let word = made.ready_mask_initial;
        assert(word == 1);
        let index = lemma_some_word_bit(word);
        assert(word_bit(word, index));
        assert(index == 0);
        lemma_lone_may_start(plan, Set::empty(), job);
        lemma_all_missing_outside(plan.placements, place.cluster, list, list.len() as int);
    }
}

/// A schedule that has just been compiled carries its plan and is at rest, unless the lists of
/// successors are too long for their ranges.
pub proof fn compiled_schedules_are_carried<R>(
    declared: Seq<Seq<DependencyView>>,
    plan: KernelPlan,
    runs: Seq<R>,
    schedule: Schedule<R>,
)
    requires
        kernel_planned(declared, plan),
        schedule.follows(plan, runs),
        runs.len() == declared.len(),
        forall|cluster: int|
            #![trigger plan.clusters[cluster]]
            0 <= cluster < plan.clusters.len() ==> joined(
                plan.local_lists(cluster),
                plan.clusters[cluster].len() as int,
            ).len() <= u32::MAX && joined(
                plan.remote_lists(cluster),
                plan.clusters[cluster].len() as int,
            ).len() <= u32::MAX,
        schedule.singleton_dag is Some ==> joined(
            waiting_clusters(schedule.clusters@),
            schedule.clusters@.len() as int,
        ).len() <= u32::MAX,
    ensures
        schedule.carries(plan),
        schedule.at_rest(),
{
    compiled_clusters_are_sound(plan, runs, schedule);
    let roots = schedule.roots@;
    assert(roots.no_duplicates()) by {
        assert forall|left: int, right: int|
            0 <= left < roots.len() && 0 <= right < roots.len() && left != right implies roots[left]
            != roots[right] by {
            if left < right {
                assert(runs_first(schedule.clusters@, roots[left], roots[right]));
            } else {
                assert(runs_first(schedule.clusters@, roots[right], roots[left]));
            }
        }
    }
    assert forall|cluster: ClusterId| #[trigger] roots.contains(cluster) == (cluster
        < plan.clusters.len() && schedule.shapes()[cluster as int].ready_initial != 0) by {
        if cluster < plan.clusters.len() {
            assert(schedule.shapes()[cluster as int] == schedule.clusters@[cluster as int].shape());
        }
    }
    if schedule.trivial_parallel {
        lemma_compiled_at_once(declared, plan, runs, schedule);
    }
    if let Some(chain) = schedule.singleton_dag {
        lemma_compiled_links(declared, plan, runs, schedule, chain);
    }
}

} // verus!
