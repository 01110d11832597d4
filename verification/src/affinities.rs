//! Which jobs are drawn into one cluster.

use crate::clusters::{
    affinity, affinity_until, clustered, shared_hot_key_affinity, taken, ClusterPlacement,
};
use crate::dag::JobId;
use crate::depend::KeyView;
use crate::keys::KeyMap;
use crate::normalize::{normal_relation, AccessView, NormalView, NormalizedDeps, Relation};
use crate::orient::{KeyHeat, Setting};
use vstd::prelude::*;

verus! {

/// What a job does with a key: whether it writes it, where it accesses it.
pub open spec fn use_of(normal: NormalView, key: KeyView) -> Option<bool> {
    match normal {
        NormalView::Unknown => None,
        NormalView::Known(accesses) => if exists|at: int|
            0 <= at < accesses.len() && (#[trigger] accesses[at]).key == key && accesses[at].write {
            Some(true)
        } else if exists|at: int|
            0 <= at < accesses.len() && (#[trigger] accesses[at]).key == key {
            Some(false)
        } else {
            None
        },
    }
}

proof fn lemma_affinity_prefix(
    left: Seq<AccessView>,
    right: Seq<AccessView>,
    other: NormalView,
    heat: Map<KeyView, KeyHeat>,
    until: int,
)
    requires
        until <= left.len(),
        until <= right.len(),
        forall|at: int| 0 <= at < until ==> #[trigger] left[at] == right[at],
    ensures
        affinity_until(left, other, heat, until) == affinity_until(right, other, heat, until),
    decreases until,
{
    if until > 0 {
        lemma_affinity_prefix(left, right, other, heat, until - 1);
        assert(left[until - 1] == right[until - 1]);
    }
}

/// How much two jobs have to do with each other is added up over the keys that the first accesses. A
/// key that the second does not access, or that both read, adds nothing. A key that at most 16 jobs
/// access draws them together, the more so the hotter it is. A hotter one draws them together only
/// where both write it, and keeps them apart otherwise. A job that depends on everything has nothing
/// to do with any.
pub proof fn each_shared_key_counts(
    accesses: Seq<AccessView>,
    access: AccessView,
    other: NormalView,
    heat: Map<KeyView, KeyHeat>,
)
    requires
        other is Known,
    ensures
        affinity(NormalView::Known(Seq::empty()), other, heat) == 0,
        affinity(NormalView::Unknown, other, heat) == 0,
        affinity(NormalView::Known(accesses), NormalView::Unknown, heat) == 0,
        affinity(NormalView::Known(accesses.push(access)), other, heat) == affinity(
            NormalView::Known(accesses),
            other,
            heat,
        ) + ({
            let own = heat[access.key];
            match use_of(other, access.key) {
                None => 0int,
                Some(writes) => if !writes && !access.write {
                    0int
                } else if own.touches <= 16 {
                    64 + own.touches + own.writes + own.writes
                } else if writes && access.write {
                    24 + own.writes as int / 2
                } else {
                    0 - own.touches - own.writes - own.writes
                },
            }
        }),
{
    let longer = accesses.push(access);
    let end = accesses.len() as int;
    lemma_affinity_prefix(longer, accesses, other, heat, end);
    assert(longer[end] == access);
    assert(affinity_until(longer, other, heat, end + 1) == affinity_until(longer, other, heat, end)
        + crate::clusters::key_affinity(access, other, heat));
}

/// How much a job gains by having another one in its cluster: what strict and relaxed relations add,
/// what their keys add, and what the other job is worth.
pub proof fn pairs_are_weighed(setting: Setting, left: JobId, right: JobId)
    ensures
        ({
            let l = setting.normals[left as int];
            let r = setting.normals[right as int];
            let stats = setting.stats[right as int];
            let keys = affinity(l, r, setting.heat);
            let worth = 8 * stats.strict_height + 4 * stats.strict_fanout + 8 * stats.writes + 2
                * stats.reads;
            &&& normal_relation(l, r) == Relation::Strict ==> setting.pair_weight(left, right) == 48
                + keys + worth
            &&& normal_relation(l, r) == Relation::Relaxed ==> setting.pair_weight(left, right)
                == 24 + keys + worth
            &&& normal_relation(l, r) == Relation::Free ==> setting.pair_weight(left, right) == keys
                + worth
        }),
{
}

/// Clusters have 16 jobs at most. A job is added to a cluster only where it is a neighbor, a
/// predecessor or a successor of one that is in it already; and a job that is left for a later cluster
/// is none of these to any job of a cluster that is not full, or it would be worth nothing there.
pub proof fn clusters_draw_in_linked_jobs(
    setting: Setting,
    rank: Seq<u32>,
    grown: Seq<Seq<JobId>>,
    clusters: Seq<Seq<JobId>>,
    placements: Seq<ClusterPlacement>,
    cluster: int,
    at: int,
    later: int,
    job: JobId,
)
    requires
        clustered(setting, rank, grown, clusters, placements),
        0 <= cluster < later < grown.len(),
        0 <= at < grown[cluster].len(),
        grown[later].contains(job),
        job < setting.normals.len(),
    ensures
        ({
            let members = grown[cluster];
            &&& clusters[cluster].len() == members.len()
            &&& 1 <= members.len() <= 16
            &&& at > 0 ==> exists|before: int|
                0 <= before < at && (setting.neighbors[(
                #[trigger] members[before]) as int].contains(members[at])
                    || setting.predecessors[members[before] as int].contains(members[at])
                    || setting.successors[members[before] as int].contains(members[at]))
            &&& members.len() < 16 && (setting.neighbors[members[at] as int].contains(job)
                || setting.predecessors[members[at] as int].contains(job)
                || setting.successors[members[at] as int].contains(job)) ==> setting.score(
                members,
                job,
            ) <= 0
            &&& rank[members[0] as int] < rank[job as int]
        }),
{
    let members = grown[cluster];
    let before = taken(grown, cluster);
    assert(setting.grows(rank, before, members));
    assert(clusters[cluster].len() == members.len());
    if at > 0 {
        let prefix = members.take(at);
        assert(setting.joins(rank, prefix, before.union(prefix.to_set()), members[at]));
        let index = choose|index: int|
            0 <= index < at && setting.links(#[trigger] prefix[index], members[at]);
        assert(prefix[index] == members[index]);
    }
    lemma_not_taken(setting, rank, grown, clusters, placements, cluster, later, job);
    let all = before.union(members.to_set());
    assert(!all.contains(job)) by {
        if members.to_set().contains(job) {
            assert(members.contains(job));
        }
    }
    assert(!setting.may_join(members, all, job) || members.len() >= 16);
    if setting.links(members[at], job) {
        assert(setting.is_linked(members, job, members.len() as int));
    }
    assert(!before.contains(job));
    if job == members[0] {
        assert(members.contains(job));
    }
}

/// A job of a later cluster is in none of those before it.
proof fn lemma_not_taken(
    setting: Setting,
    rank: Seq<u32>,
    grown: Seq<Seq<JobId>>,
    clusters: Seq<Seq<JobId>>,
    placements: Seq<ClusterPlacement>,
    cluster: int,
    later: int,
    job: JobId,
)
    requires
        clustered(setting, rank, grown, clusters, placements),
        0 <= cluster < later < grown.len(),
        grown[later].contains(job),
    ensures
        !taken(grown, cluster).contains(job),
        !grown[cluster].contains(job),
{
    let index = grown[later].index_of(job);
    let assigned = taken(grown, later);
    assert(setting.grows(rank, assigned, grown[later]));
    if index > 0 {
        let prefix = grown[later].take(index);
        assert(setting.joins(rank, prefix, assigned.union(prefix.to_set()), grown[later][index]));
    }
    assert(!assigned.contains(job));
    if grown[cluster].contains(job) {
        assert(assigned.contains(job));
    }
    if taken(grown, cluster).contains(job) {
        let other = choose|other: int|
            0 <= other < cluster && (#[trigger] grown[other]).contains(job);
        assert(assigned.contains(job));
    }
}

/// What is computed of two jobs is how much they have to do with each other, and nothing where one of
/// them depends on everything.
pub proof fn affinities_are_computed(
    left: NormalizedDeps,
    right: NormalizedDeps,
    heat: KeyMap<KeyHeat>,
    score: i128,
)
    requires
        call_ensures(shared_hot_key_affinity, (&left, &right, &heat), score),
    ensures
        left@ is Unknown || right@ is Unknown ==> score == 0,
        left@ matches NormalView::Known(accesses) ==> accesses.len() == 0 ==> score == 0,
        score == affinity(left@, right@, heat@),
{
}

} // verus!
