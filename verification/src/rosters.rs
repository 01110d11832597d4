//! Whom the jobs of clusters wait for, and which of those that are ready is run.

use crate::bits::{lemma_part_of, lemma_set_bit, word_bit, word_ones};
use crate::clusters::{ClusterId, ClusterPlacement, LocalIndex};
use crate::dag::JobId;
use crate::depend::{DependencyView, KeyView, Order};
use crate::directions::{jobs_wait_for_related_ones_only, lemma_clashing_normals};
use crate::kernel::{
    count_outside, dynamic_in, is_serial, kernel_planned, kernel_worths, mode_of, rooted,
    runs_first, strict_in, Cluster,
    ClusterJob, ClusterMode, KernelPlan, LocalPriority, RemoteSuccessor, Schedule,
};
use crate::measures::lemma_first_difference;
use crate::normalize::{normal_forms_are_related_as_jobs, NormalView, Relation};
use crate::orient::{accesses_key, permutes, writes_in};
use crate::order::worth_more;
use crate::plan::{all_consistent, relation_between};
use crate::runner::{
    bit_of, local_unlocks, ready_worth, remote_unlocks, unlock, wake, wake_all, ClusterShape,
    KernelState, Runner,
};
use vstd::prelude::*;

verus! {

/// Whether each job that accesses a key does so under a relaxed order and is in a cluster.
pub open spec fn kept_in(plan: KernelPlan, key: KeyView, cluster: ClusterId) -> bool {
    forall|job: int, at: int|
        #![trigger plan.placements[job], plan.setting.normals[job]->Known_0[at]]
        0 <= job < plan.setting.normals.len() && plan.setting.normals[job] is Known && 0 <= at
            < plan.setting.normals[job]->Known_0.len() && plan.setting.normals[job]->Known_0[at].key
            == key ==> {
            &&& plan.setting.normals[job]->Known_0[at].order == Order::Relax
            &&& plan.placements[job].cluster == cluster
        }
}

/// A key is settled while a cluster runs exactly where some job writes it, no job accesses it
/// strictly, and all that access it are in one cluster.
pub proof fn keys_of_one_cluster_are_settled_there(plan: KernelPlan, key: KeyView)
    ensures
        plan.left_out().contains(key) == ((exists|job: int|
            0 <= job < plan.setting.normals.len() && writes_in(
                #[trigger] plan.setting.normals[job],
                key,
            )) && (exists|cluster: ClusterId| #[trigger] kept_in(plan, key, cluster))),
{
    let normals = plan.setting.normals;
    if plan.left_out().contains(key) {
        let cluster = choose|cluster: ClusterId| #[trigger]
            dynamic_in(normals, plan.placements, key, cluster);
        assert forall|job: int, at: int|
            #![trigger plan.placements[job], plan.setting.normals[job]->Known_0[at]]
            0 <= job < normals.len() && normals[job] is Known && 0 <= at
                < normals[job]->Known_0.len() && normals[job]->Known_0[at].key == key implies {
            &&& normals[job]->Known_0[at].order == Order::Relax
            &&& plan.placements[job].cluster == cluster
        } by {
            let accesses = normals[job]->Known_0;
            assert(normals[job] == NormalView::Known(accesses));
            assert(accesses[at].key == key);
            assert(accesses_key(normals[job], key));
            assert(!strict_in(normals[job], key));
        }
        assert(kept_in(plan, key, cluster));
    }
    if exists|cluster: ClusterId| #[trigger] kept_in(plan, key, cluster) {
        let cluster = choose|cluster: ClusterId| #[trigger] kept_in(plan, key, cluster);
        assert forall|job: int|
            0 <= job < normals.len() && accesses_key(
                #[trigger] normals[job],
                key,
            ) implies !strict_in(normals[job], key) && plan.placements[job].cluster == cluster by {
            let accesses = normals[job]->Known_0;
            let at = choose|at: int|
                0 <= at < accesses.len() && (#[trigger] accesses[at]).key == key;
            assert(plan.setting.normals[job]->Known_0[at].key == key);
            assert(plan.placements[job].cluster == cluster);
            if strict_in(normals[job], key) {
                let strict = choose|index: int|
                    0 <= index < accesses.len() && (#[trigger] accesses[index]).key == key
                        && accesses[index].order == Order::Strict;
                assert(plan.setting.normals[job]->Known_0[strict].order == Order::Relax);
            }
        }
        if exists|job: int| 0 <= job < normals.len() && writes_in(#[trigger] normals[job], key) {
            assert(dynamic_in(normals, plan.placements, key, cluster));
        }
    }
}

/// A job waits for another one only where the two are related: strictly, or by a key that is not
/// settled while a cluster runs. The one that is waited for has the higher priority.
pub proof fn clustered_jobs_wait_for_related_ones_only(
    declared: Seq<Seq<DependencyView>>,
    plan: KernelPlan,
    left: JobId,
    right: JobId,
)
    requires
        all_consistent(declared),
        declared.len() <= u32::MAX,
        kernel_planned(declared, plan),
        right < declared.len(),
        plan.predecessors[right as int].contains(left),
    ensures
        left < declared.len(),
        plan.orientation.rank[left as int] < plan.orientation.rank[right as int],
        relation_between(declared, left as int, right as int) != Relation::Free,
        ({
            let l = plan.setting.normals[left as int];
            let r = plan.setting.normals[right as int];
            ||| relation_between(declared, left as int, right as int) == Relation::Strict
            ||| exists|key: KeyView|
                !plan.left_out().contains(key) && #[trigger] accesses_key(l, key) && accesses_key(
                    r,
                    key,
                ) && (writes_in(l, key) || writes_in(r, key))
        }),
{
    let rank = plan.orientation.rank;
    let order = plan.orientation.order;
    assert(order[rank[right as int] as int] == right);
    assert(left < order.len());
    assert(order[rank[left as int] as int] == left);
    jobs_wait_for_related_ones_only(
        declared,
        Some(KeyView::Identifier(usize::MAX as int)),
        plan.setting,
        kernel_worths(plan.setting.stats),
        plan.left_out(),
        plan.orientation,
        rank[left as int],
        rank[right as int] as int,
    );
}

/// A job waits for as many jobs of other clusters as there are among its predecessors.
pub proof fn other_clusters_are_counted(
    placements: Seq<ClusterPlacement>,
    cluster: ClusterId,
    list: Seq<JobId>,
    until: int,
)
    requires
        0 <= until <= list.len(),
    ensures
        count_outside(placements, cluster, list, until) == list.take(until).filter(
            |job: JobId| placements[job as int].cluster != cluster,
        ).len(),
    decreases until,
{
    let elsewhere = |job: JobId| placements[job as int].cluster != cluster;
    reveal(Seq::filter);
    if until > 0 {
        other_clusters_are_counted(placements, cluster, list, until - 1);
        assert(list.take(until).drop_last() =~= list.take(until - 1));
        assert(list.take(until).last() == list[until - 1]);
    }
}

/// Clusters that are run first hold a job that is ready. The higher come first, of those that are as
/// high the larger, and of those that are as large the one that was made first.
pub proof fn high_clusters_come_first(
    clusters: Seq<Cluster>,
    roots: Seq<ClusterId>,
    left: int,
    right: int,
)
    requires
        rooted(clusters, roots),
        0 <= left < right < roots.len(),
    ensures
        ({
            let l = clusters[roots[left] as int];
            let r = clusters[roots[right] as int];
            &&& l.ready_mask_initial != 0
            &&& r.ready_mask_initial != 0
            &&& l.priority_height >= r.priority_height
            &&& l.priority_height == r.priority_height ==> l.jobs@.len() >= r.jobs@.len()
            &&& l.priority_height == r.priority_height && l.jobs@.len() == r.jobs@.len()
                ==> roots[left] < roots[right]
        }),
{
    assert(runs_first(clusters, roots[left], roots[right]));
    assert(roots.contains(roots[left]));
    assert(roots.contains(roots[right]));
}

/// Whether one job ranks above another of its cluster: it is higher, or as high and followed by more
/// jobs of other clusters, or by as many and by more of its own, or it writes hotter keys, conflicts
/// with more, reads more, writes more, or accesses more.
pub open spec fn ranks_above(left: LocalPriority, right: LocalPriority) -> bool {
    if left.strict_height != right.strict_height {
        left.strict_height > right.strict_height
    } else if left.remote_successors != right.remote_successors {
        left.remote_successors > right.remote_successors
    } else if left.local_successors != right.local_successors {
        left.local_successors > right.local_successors
    } else if left.hot_write_score != right.hot_write_score {
        left.hot_write_score > right.hot_write_score
    } else if left.dynamic_degree != right.dynamic_degree {
        left.dynamic_degree > right.dynamic_degree
    } else if left.reads != right.reads {
        left.reads > right.reads
    } else if left.writes != right.writes {
        left.writes > right.writes
    } else {
        left.accesses > right.accesses
    }
}

/// Where no conflict is settled while a cluster runs, the first of its jobs that are ready is run.
/// Otherwise it is the one that lets the most jobs go on, those of other clusters counted thrice and
/// those of its own twice, less the ready jobs that it conflicts with. Of those that are worth as much
/// it is one that lets the most jobs of other clusters go on, of these one that none ranks above, and
/// of equal ones the first.
pub proof fn the_most_useful_ready_job_is_run<R>(
    schedule: Schedule<R>,
    cluster: ClusterId,
    ready: u64,
    local: LocalIndex,
    other: LocalIndex,
)
    requires
        call_ensures(Schedule::<R>::select_ready_job, (&schedule, cluster, ready), local),
        cluster < schedule.clusters@.len(),
        other < schedule.clusters@[cluster as int].jobs@.len(),
        other != local,
        word_bit(ready, other as int),
    ensures
        ({
            let shapes = schedule.shapes();
            let shape = shapes[cluster as int];
            let state = schedule.state();
            let waits = state.waits[cluster as int];
            let here = |job: LocalIndex|
                local_unlocks(
                    shape,
                    waits,
                    state.done[cluster as int] | bit_of(job),
                    shape.locals[job as int],
                    shape.locals[job as int].len() as int,
                );
            let there = |job: LocalIndex|
                remote_unlocks(
                    shapes,
                    state,
                    shape.remotes[job as int],
                    shape.remotes[job as int].len() as int,
                );
            let conflicts = |job: LocalIndex|
                word_ones(ready & shape.conflicts[job as int], 64);
            let use_of = |job: LocalIndex| 2 * here(job) + 3 * there(job) - conflicts(job);
            &&& word_bit(ready, local as int)
            &&& schedule.clusters@[cluster as int].mode != ClusterMode::Dynamic ==> local < other
            &&& schedule.clusters@[cluster as int].mode == ClusterMode::Dynamic ==> {
                &&& use_of(local) >= use_of(other)
                &&& use_of(local) == use_of(other) ==> there(local) >= there(other)
                &&& use_of(local) == use_of(other) && there(local) == there(other)
                    ==> !ranks_above(
                    shape.priorities[other as int],
                    shape.priorities[local as int],
                )
                &&& use_of(local) == use_of(other) && there(local) == there(other)
                    && shape.priorities[local as int] == shape.priorities[other as int] ==> local
                    < other
            }
        }),
{
    let shapes = schedule.shapes();
    let state = schedule.state();
    assert(shapes[cluster as int] == schedule.clusters@[cluster as int].shape());
    let l = ready_worth(shapes, state, cluster, local, ready);
    let r = ready_worth(shapes, state, cluster, other, ready);
    if schedule.clusters@[cluster as int].mode == ClusterMode::Dynamic {
        if other < local {
            assert(worth_more(l, r));
            assert(l.len() == 10 && r.len() == 10);
            lemma_first_difference(l, r, 0);
            lemma_first_difference(l, r, 1);
            lemma_first_difference(l, r, 2);
            lemma_first_difference(l, r, 3);
            lemma_first_difference(l, r, 4);
            lemma_first_difference(l, r, 5);
            lemma_first_difference(l, r, 6);
            lemma_first_difference(l, r, 7);
            lemma_first_difference(l, r, 8);
            lemma_first_difference(l, r, 9);
            lemma_equal_is_not_more(l, r);
        } else {
            assert(!worth_more(r, l));
            assert(l.len() == 10 && r.len() == 10);
            lemma_not_more(r, l, 0);
            lemma_not_more(r, l, 1);
            lemma_not_more(r, l, 2);
            lemma_not_more(r, l, 3);
            lemma_not_more(r, l, 4);
            lemma_not_more(r, l, 5);
            lemma_not_more(r, l, 6);
            lemma_not_more(r, l, 7);
            lemma_not_more(r, l, 8);
            lemma_not_more(r, l, 9);
        }
    }
}

proof fn lemma_equal_is_not_more(left: Seq<int>, right: Seq<int>)
    requires
        left.len() == right.len(),
    ensures
        (forall|at: int| 0 <= at < left.len() ==> #[trigger] left[at] == right[at]) ==> !worth_more(
            left,
            right,
        ),
    decreases left.len(),
{
    if left.len() > 0 && forall|at: int|
        0 <= at < left.len() ==> #[trigger] left[at] == right[at] {
        let l = left.drop_first();
        let r = right.drop_first();
        assert forall|at: int| 0 <= at < l.len() implies #[trigger] l[at] == r[at] by {
            assert(left[at + 1] == right[at + 1]);
        }
        lemma_equal_is_not_more(l, r);
    }
}

proof fn lemma_not_more(left: Seq<int>, right: Seq<int>, at: int)
    requires
        !worth_more(left, right),
        left.len() == right.len(),
        0 <= at < left.len(),
    ensures
        (forall|before: int| 0 <= before < at ==> #[trigger] left[before] == right[before])
            ==> left[at] <= right[at],
    decreases at,
{
    if left[0] == right[0] && at > 0 {
        let l = left.drop_first();
        let r = right.drop_first();
        lemma_not_more(l, r, at - 1);
        if forall|before: int| 0 <= before < at ==> #[trigger] left[before] == right[before] {
            assert forall|before: int| 0 <= before < at - 1 implies #[trigger] l[before]
                == r[before] by {
                assert(left[before + 1] == right[before + 1]);
            }
        }
    }
}

/// A job that has finished makes those of its successors in the cluster ready that are not done, that
/// wait for no job of another cluster, and whose predecessors in the cluster are all done.
pub proof fn finished_jobs_make_others_ready(
    shape: ClusterShape,
    waits: Seq<u32>,
    done: u64,
    ready: u64,
    list: Seq<LocalIndex>,
    until: int,
    local: LocalIndex,
)
    requires
        0 <= until <= list.len(),
        local < 64,
        forall|at: int| 0 <= at < list.len() ==> (#[trigger] list[at]) < 64,
    ensures
        word_bit(unlock(shape, waits, done, ready, list, until), local as int) == (word_bit(
            ready,
            local as int,
        ) || list.take(until).contains(local) && !word_bit(done, local as int) && waits[local as int]
            == 0 && (forall|other: int|
            0 <= other < 64 && #[trigger] word_bit(shape.masks[local as int], other) ==> word_bit(
                done,
                other,
            ))),
    decreases until,
{
    if until > 0 {
        let last = list[until - 1];
        finished_jobs_make_others_ready(shape, waits, done, ready, list, until - 1, local);
        let rest = unlock(shape, waits, done, ready, list, until - 1);
        lemma_set_bit(rest, last as u64, local as u64);
        lemma_part_of(done, shape.masks[last as int]);
        let shorter = list.take(until - 1);
        let longer = list.take(until);
        assert(longer =~= shorter.push(last));
        assert(longer.contains(local) == (shorter.contains(local) || local == last)) by {
            if shorter.contains(local) {
                assert(longer[shorter.index_of(local)] == local);
            }
            assert(longer[until - 1] == last);
            if longer.contains(local) {
                let at = longer.index_of(local);
                if at < until - 1 {
                    assert(shorter[at] == local);
                }
            }
        }
        assert((last as u64 == local as u64) == (last == local));
        if last == local {
            assert((done & bit_of(last) == 0) == !word_bit(done, local as int));
        }
    }
}

/// A job that waits for a job of another cluster waits for one job less once that has finished. It is
/// ready then where it waited for no other, is not done or ready already, and all its predecessors in
/// its own cluster are done; and its cluster is to be run where nobody runs it.
pub proof fn remote_jobs_are_woken(
    shapes: Seq<ClusterShape>,
    state: KernelState,
    successor: RemoteSuccessor,
)
    requires
        successor.cluster < state.ready.len(),
        state.ready.len() == state.done.len(),
        state.ready.len() == state.queued.len(),
        state.ready.len() == state.waits.len(),
        successor.job < state.waits[successor.cluster as int].len(),
        successor.job < 64,
    ensures
        ({
            let (after, claims) = wake(shapes, state, successor);
            let cluster = successor.cluster as int;
            let local = successor.job as int;
            let wait = state.waits[cluster][local];
            let fresh = wait == 1 && !word_bit(state.done[cluster], local) && !word_bit(
                state.ready[cluster],
                local,
            ) && (forall|other: int|
                0 <= other < 64 && #[trigger] word_bit(shapes[cluster].masks[local], other)
                    ==> word_bit(state.done[cluster], other));
            &&& wait > 0 ==> after.waits[cluster][local] == wait - 1
            &&& word_bit(after.ready[cluster], local) == (word_bit(state.ready[cluster], local)
                || fresh)
            &&& claims == (fresh && !state.queued[cluster])
            &&& after.queued[cluster] == (state.queued[cluster] || fresh)
            &&& after.done == state.done
        }),
{
    let cluster = successor.cluster as int;
    let local = successor.job;
    lemma_part_of(state.done[cluster], shapes[cluster].masks[local as int]);
    lemma_set_bit(state.ready[cluster], local as u64, local as u64);
    assert((state.done[cluster] & bit_of(local) == 0) == !word_bit(
        state.done[cluster],
        local as int,
    ));
    assert((state.ready[cluster] & bit_of(local) == 0) == !word_bit(
        state.ready[cluster],
        local as int,
    ));
}

/// As many jobs of its own cluster can go on after a job as there are among its successors that wait
/// for no other cluster and whose predecessors in the cluster are done then.
pub proof fn local_jobs_that_go_on_are_counted(
    shape: ClusterShape,
    waits: Seq<u32>,
    done: u64,
    list: Seq<LocalIndex>,
    until: int,
)
    requires
        0 <= until <= list.len(),
    ensures
        local_unlocks(shape, waits, done, list, until) == list.take(until).filter(
            |local: LocalIndex|
                waits[local as int] == 0 && done & shape.masks[local as int]
                    == shape.masks[local as int],
        ).len(),
    decreases until,
{
    reveal(Seq::filter);
    if until > 0 {
        local_jobs_that_go_on_are_counted(shape, waits, done, list, until - 1);
        assert(list.take(until).drop_last() =~= list.take(until - 1));
        assert(list.take(until).last() == list[until - 1]);
    }
}

/// As many jobs of other clusters can go on after a job as there are among its successors that wait
/// for it alone and whose predecessors in their cluster are done.
pub proof fn remote_jobs_that_go_on_are_counted(
    shapes: Seq<ClusterShape>,
    state: KernelState,
    list: Seq<RemoteSuccessor>,
    until: int,
)
    requires
        0 <= until <= list.len(),
    ensures
        remote_unlocks(shapes, state, list, until) == list.take(until).filter(
            |next: RemoteSuccessor|
                state.waits[next.cluster as int][next.job as int] == 1 && state.done[
                    next.cluster as int
                ] & shapes[next.cluster as int].masks[next.job as int]
                    == shapes[next.cluster as int].masks[next.job as int],
        ).len(),
    decreases until,
{
    reveal(Seq::filter);
    if until > 0 {
        remote_jobs_that_go_on_are_counted(shapes, state, list, until - 1);
        assert(list.take(until).drop_last() =~= list.take(until - 1));
        assert(list.take(until).last() == list[until - 1]);
    }
}

/// A job of a cluster is marked as waiting for those of the cluster that are its predecessors, and as
/// in conflict with those that it is related to by a key that is settled while the cluster runs.
pub proof fn clusters_mark_related_jobs_only(
    declared: Seq<Seq<DependencyView>>,
    plan: KernelPlan,
    job: JobId,
    made: ClusterJob,
    local: int,
)
    requires
        all_consistent(declared),
        declared.len() <= u32::MAX,
        kernel_planned(declared, plan),
        job < declared.len(),
        plan.plans_job(job, made),
        0 <= local < plan.clusters[plan.placements[job as int].cluster as int].len(),
        local < 64,
    ensures
        ({
            let other = plan.clusters[plan.placements[job as int].cluster as int][local];
            &&& word_bit(made.local_predecessor_mask, local)
                == plan.predecessors[job as int].contains(other)
            &&& word_bit(made.dynamic_conflict_mask, local) ==> other != job && relation_between(
                declared,
                job as int,
                other as int,
            ) != Relation::Free
            &&& made.priority.strict_height
                == plan.orientation.heights[plan.orientation.rank[job as int] as int]
        }),
{
    let cluster = plan.placements[job as int].cluster as int;
    let other = plan.clusters[cluster][local];
    let members = plan.clusters[cluster];
    assert(word_bit(made.local_predecessor_mask, local) == (local < members.len()
        && plan.predecessors[job as int].contains(members[local])));
    if word_bit(made.dynamic_conflict_mask, local) {
        let l = plan.setting.normals[job as int];
        let r = plan.setting.normals[other as int];
        let key = choose|key: KeyView| plan.left_out().contains(key) && #[trigger]
            crate::orient::clash_on(l, r, key);
        assert(other < plan.placements.len());
        lemma_clashing_normals(l, r, key);
        lemma_clashing_normals(r, l, key);
        assert(crate::normalize::consistent(declared[job as int]));
        assert(crate::normalize::consistent(declared[other as int]));
        assert(crate::normalize::normalizes(declared[job as int], l));
        assert(crate::normalize::normalizes(declared[other as int], r));
        normal_forms_are_related_as_jobs(declared[job as int], declared[other as int], l, r);
        normal_forms_are_related_as_jobs(declared[other as int], declared[job as int], r, l);
        reveal(relation_between);
    }
}

/// A cluster is as high as the highest of its jobs.
pub proof fn clusters_are_as_high_as_their_jobs(
    plan: KernelPlan,
    list: Seq<JobId>,
    until: int,
    at: int,
)
    requires
        0 <= at < until <= list.len(),
    ensures
        plan.height(list[at]) <= plan.top_height(list, until),
        plan.top_height(list, until) == 0 || exists|top: int|
            0 <= top < until && plan.height(#[trigger] list[top]) == plan.top_height(list, until),
    decreases until,
{
    if until > 1 {
        clusters_are_as_high_as_their_jobs(plan, list, until - 1, if at < until - 1 {
            at
        } else {
            0
        });
        let rest = plan.top_height(list, until - 1);
        let own = plan.height(list[until - 1]);
        if own > rest {
            assert(plan.height(list[until - 1]) == plan.top_height(list, until));
        } else if rest > 0 {
            let top = choose|top: int|
                0 <= top < until - 1 && plan.height(#[trigger] list[top]) == rest;
            assert(plan.height(list[top]) == plan.top_height(list, until));
        }
    } else {
        assert(plan.top_height(list, 0) == 0);
        assert(plan.height(list[0]) == plan.top_height(list, until));
    }
}

/// A schedule is a serial chain exactly where its jobs can be lined up so that the first waits for none
/// and each other one for the one before it alone; and the chain is such a line.
pub proof fn lined_up_jobs_make_a_serial_chain<R>(
    plan: KernelPlan,
    runs: Seq<R>,
    schedule: Schedule<R>,
    order: Seq<JobId>,
    at: int,
)
    requires
        schedule.follows(plan, runs),
        permutes(order, plan.predecessors.len() as int),
        forall|place: int|
            #![trigger order[place]]
            0 <= place < order.len() ==> plan.predecessors[order[place] as int] == if place == 0 {
                Seq::<JobId>::empty()
            } else {
                seq![order[place - 1]]
            },
    ensures
        schedule.serial_chain is Some,
        schedule.serial_chain matches Some(chain) ==> {
            &&& chain@.len() == plan.predecessors.len()
            &&& at == 0 && chain@.len() > 0 ==> plan.predecessors[chain@[0] as int].len() == 0
            &&& 0 < at < chain@.len() ==> plan.predecessors[chain@[at] as int] == seq![
                chain@[at - 1],
            ]
        },
{
    assert forall|left: int, right: int|
        0 <= left < order.len() && right == left + 1 && right
            < order.len() implies plan.predecessors[(#[trigger] order[right]) as int] == seq![
        #[trigger] order[left],
    ] by {}
    if order.len() > 0 {
        assert(plan.predecessors[order[0] as int] == Seq::<JobId>::empty());
    }
    assert(is_serial(plan.predecessors, order));
    if let Some(chain) = schedule.serial_chain {
        if 0 < at < chain@.len() {
            assert(plan.predecessors[chain@[at] as int] == seq![chain@[at - 1]]);
        }
    }
}

/// A schedule is run all at once exactly where every cluster is to be run first, has one job, and no
/// job follows it. Where every cluster has one job, and only there, its clusters are run as a graph of
/// their own, unless it is run all at once.
pub proof fn single_jobs_are_run_without_clusters<R>(
    plan: KernelPlan,
    runs: Seq<R>,
    schedule: Schedule<R>,
)
    requires
        schedule.follows(plan, runs),
    ensures
        schedule.trivial_parallel == (schedule.roots@.len() == schedule.clusters@.len() && forall|
            cluster: int,
        |
            0 <= cluster < schedule.clusters@.len() ==> (
            #[trigger] schedule.clusters@[cluster]).jobs@.len() == 1
                && schedule.clusters@[cluster].ready_mask_initial == 1
                && schedule.clusters@[cluster].local_successors@.len() == 0
                && schedule.clusters@[cluster].remote_successors@.len() == 0),
        schedule.singleton_dag is Some == (!schedule.trivial_parallel && forall|cluster: int|
            0 <= cluster < schedule.clusters@.len() ==> (
            #[trigger] schedule.clusters@[cluster]).jobs@.len() == 1
                && schedule.clusters@[cluster].local_successors@.len() == 0
                && schedule.clusters@[cluster].jobs@[0].local_predecessor_mask == 0),
{
}

/// A cluster settles conflicts while it runs exactly where one of its jobs conflicts with another. A
/// cluster that does not is run serially only where each of its jobs waits for one other at most, and
/// is followed by one at most.
pub proof fn conflicts_decide_how_clusters_run(
    plan: KernelPlan,
    cluster: int,
    made: Cluster,
    at: int,
)
    requires
        plan.plans_cluster(cluster, made),
        0 <= at < made.jobs@.len(),
    ensures
        (made.mode == ClusterMode::Dynamic) == (exists|local: int|
            0 <= local < made.jobs@.len() && (
            #[trigger] made.jobs@[local]).dynamic_conflict_mask != 0),
        made.mode == ClusterMode::Serial ==> word_ones(
            made.jobs@[at].local_predecessor_mask,
            64,
        ) <= 1 && plan.local_lists(cluster)[at].len() <= 1 && word_ones(
            made.ready_mask_initial,
            64,
        ) <= 1,
{
    let jobs = made.jobs@;
    let lists = plan.local_lists(cluster);
    assert(made.mode == mode_of(jobs, made.ready_mask_initial, lists));
    if made.mode == ClusterMode::Serial {
        assert(!(exists|local: int|
            0 <= local < jobs.len() && (#[trigger] jobs[local]).dynamic_conflict_mask != 0));
        assert(word_ones(jobs[at].local_predecessor_mask, 64) <= 1 && lists[at].len() <= 1);
    }
}

/// Whoever has run a job hands out the clusters that it woke, but for one to go on with, unless there
/// is one already. So nothing is handed out where there is nothing to go on with. The job is done, and
/// no other job of its cluster is done that was not.
pub proof fn runners_keep_one_cluster_to_go_on_with<R>(
    schedule: &mut Schedule<R>,
    runner: &mut Runner,
    local: LocalIndex,
    spawned: Vec<ClusterId>,
    other: LocalIndex,
)
    requires
        old(schedule).sound(),
        old(runner).cluster < old(schedule).clusters@.len(),
        local < old(schedule).clusters@[old(runner).cluster as int].jobs@.len(),
        local < 64,
        other < 64,
        call_ensures(Schedule::<R>::finish, (schedule, runner, local), spawned),
    ensures
        final(runner).cluster == old(runner).cluster,
        final(runner).next is None ==> old(runner).next is None && spawned@.len() == 0,
        old(runner).next is Some ==> final(runner).next == old(runner).next,
        ({
            let cluster = old(runner).cluster as int;
            word_bit(final(schedule).state().done[cluster], other as int) == (word_bit(
                old(schedule).state().done[cluster],
                other as int,
            ) || other == local)
        }),
{
    let shapes = old(schedule).shapes();
    let state = old(schedule).state();
    let cluster = old(runner).cluster;
    let done = state.done[cluster as int] | bit_of(local);
    let remotes = shapes[cluster as int].remotes[local as int];
    lemma_waking_keeps_done(
        shapes,
        state.with_done(cluster, done),
        remotes,
        remotes.len() as int,
    );
    lemma_set_bit(state.done[cluster as int], local as u64, other as u64);
    assert((local as u64 == other as u64) == (local == other));
}

proof fn lemma_waking_keeps_done(
    shapes: Seq<ClusterShape>,
    state: KernelState,
    list: Seq<RemoteSuccessor>,
    until: int,
)
    ensures
        wake_all(shapes, state, list, until).0.done == state.done,
    decreases until,
{
    if until > 0 {
        lemma_waking_keeps_done(shapes, state, list, until - 1);
    }
}

} // verus!
