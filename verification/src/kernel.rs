//! Schedules of clusters. Keys that only the jobs of one cluster access, all in a relaxed way, give
//! rise to no order in advance, since a cluster runs one job at a time.

use crate::bits::{lemma_join_bits, lemma_set_bit, word_bit, word_ones};
use crate::chain::Chain;
use crate::clusters::{
    build_clusters, clustered, placed_in, taken, ClusterId, ClusterPlacement, LocalIndex,
    MAX_CLUSTER_JOBS,
};
use crate::dag::{
    ascending, backward, build_successors, insert_ascending, inverted, lists, proper, JobId,
};
use crate::depend::{DependencyView, Key, KeyView, Order};
use crate::error::Error;
use crate::job::Job;
use crate::keys::KeyMap;
use crate::layout::{contents, join, joined, joined_range};
use crate::normalize::{sorted_accesses, Access, NormalView, NormalizedDeps};
use crate::order::{lemma_distinct_bound, numbers, within};
use crate::orient::{
    accesses_key, all_sorted, clash_on, find_access, inverse_order, lemma_all_named, order_by_worth,
    orient, orients, permutes, prepare, prioritized, ranks, setting_of, worths_of, writes_in,
    JobStats, Orientation, Setting,
};
use crate::plan::{
    all_consistent, declarations, jobs_rejected_with, normal_views, normalize_jobs, payloads,
};
use crate::ready::lemma_push_to_set;
use std::ops::Range;
use vstd::prelude::*;

verus! {

/// Whether a job accesses a key strictly.
pub open spec fn strict_in(normal: NormalView, key: KeyView) -> bool {
    match normal {
        NormalView::Unknown => false,
        NormalView::Known(accesses) => exists|index: int|
            0 <= index < accesses.len() && (#[trigger] accesses[index]).key == key
                && accesses[index].order == Order::Strict,
    }
}

/// Whether some job writes a key, and all the jobs that access it do so in a relaxed way and are in
/// the same cluster.
pub open spec fn dynamic_in(
    normals: Seq<NormalView>,
    placements: Seq<ClusterPlacement>,
    key: KeyView,
    cluster: ClusterId,
) -> bool {
    &&& exists|job: int| 0 <= job < normals.len() && writes_in(#[trigger] normals[job], key)
    &&& forall|job: int|
        0 <= job < normals.len() && accesses_key(#[trigger] normals[job], key) ==> !strict_in(
            normals[job],
            key,
        ) && placements[job].cluster == cluster
}

/// Whether a key gives rise to no order in advance.
pub open spec fn is_dynamic(
    normals: Seq<NormalView>,
    placements: Seq<ClusterPlacement>,
    key: KeyView,
) -> bool {
    exists|cluster: ClusterId| #[trigger] dynamic_in(normals, placements, key, cluster)
}

/// The keys that give rise to no order in advance.
pub open spec fn dynamic_keys(
    normals: Seq<NormalView>,
    placements: Seq<ClusterPlacement>,
) -> Set<KeyView> {
    Set::new(|key: KeyView| is_dynamic(normals, placements, key))
}

proof fn lemma_write_is_access(normal: NormalView, key: KeyView)
    ensures
        writes_in(normal, key) ==> accesses_key(normal, key),
{
    if writes_in(normal, key) {
        let accesses = normal->Known_0;
        let index = choose|index: int|
            0 <= index < accesses.len() && (#[trigger] accesses[index]).key == key
                && accesses[index].write;
        assert(accesses[index].key == key);
    }
}

/// Finds what a job does with a key: whether it writes it, and how strictly, where it accesses it.
fn find_ordered_access(dependencies: &NormalizedDeps, key: &Key) -> (found: Option<(bool, Order)>)
    requires
        dependencies@ matches NormalView::Known(accesses) ==> sorted_accesses(accesses),
    ensures
        match found {
            None => !accesses_key(dependencies@, key@) && !writes_in(dependencies@, key@),
            Some((write, order)) => {
                &&& accesses_key(dependencies@, key@)
                &&& write == writes_in(dependencies@, key@)
                &&& (order == Order::Strict) == strict_in(dependencies@, key@)
            },
        },
{
    proof {
        lemma_write_is_access(dependencies@, key@);
    }
    match dependencies {
        NormalizedDeps::Unknown => None,
        NormalizedDeps::Known(accesses) => {
            let ghost views = dependencies@->Known_0;
            for index in 0..accesses.len()
                invariant
                    dependencies@ == NormalView::Known(views),
                    views == accesses@.map_values(|access: Access| access@),
                    sorted_accesses(views),
                    forall|at: int| 0 <= at < index ==> (#[trigger] views[at]).key != key@,
            {
                assert(views[index as int] == accesses@[index as int]@);
                if accesses[index].key == *key {
                    assert(views[index as int].key == key@);
                    assert forall|at: int|
                        0 <= at < views.len() && (#[trigger] views[at]).key
                            == key@ implies at == index by {
                        if at > index {
                            assert(views[index as int].key.before(views[at].key));
                            key@.before_is_irreflexive();
                        }
                    }
                    return Some((accesses[index].write, accesses[index].order));
                }
            }
            None
        },
    }
}

/// The cluster whose jobs alone access a key, where the key gives rise to no order in advance.
fn dynamic_cluster(
    normals: &[NormalizedDeps],
    placements: &[ClusterPlacement],
    key: &Key,
) -> (found: Option<ClusterId>)
    requires
        all_sorted(normal_views(normals@)),
        placements@.len() == normals@.len(),
    ensures
        match found {
            Some(cluster) => dynamic_in(normal_views(normals@), placements@, key@, cluster),
            None => !is_dynamic(normal_views(normals@), placements@, key@),
        },
{
    let ghost views = normal_views(normals@);
    let mut any_write = false;
    let mut first: Option<ClusterId> = None;
    for job in 0..normals.len()
        invariant
            views == normal_views(normals@),
            all_sorted(views),
            placements@.len() == normals@.len(),
            any_write == exists|at: int| 0 <= at < job && writes_in(#[trigger] views[at], key@),
            first is None ==> forall|at: int|
                0 <= at < job ==> !accesses_key(#[trigger] views[at], key@),
            first matches Some(cluster) ==> (exists|at: int|
                0 <= at < job && accesses_key(#[trigger] views[at], key@)) && forall|at: int|
                0 <= at < job && accesses_key(#[trigger] views[at], key@) ==> !strict_in(
                    views[at],
                    key@,
                ) && placements@[at].cluster == cluster,
    {
        let ghost at = job as int;
        assert(views[at] == normals@[at]@);
        let found = find_ordered_access(&normals[job], key);
        if let Some((write, order)) = found {
            let here = placements[job].cluster;
            let joined_here = match first {
                Some(cluster) => cluster == here,
                None => true,
            };
            if order == Order::Strict || !joined_here {
                proof {
                    if is_dynamic(views, placements@, key@) {
                        let cluster = choose|cluster: ClusterId| #[trigger]
                            dynamic_in(views, placements@, key@, cluster);
                        assert(!strict_in(views[at], key@) && placements@[at].cluster == cluster);
                        let other = choose|other: int|
                            0 <= other < at && accesses_key(#[trigger] views[other], key@);
                        assert(placements@[other].cluster == cluster);
                    }
                }
                return None;
            }
            if write {
                any_write = true;
                assert(writes_in(views[at], key@));
            }
            first = Some(here);
            assert(accesses_key(views[at], key@));
        }
    }
    if any_write {
        proof {
            if first is None {
                let writer = choose|writer: int|
                    0 <= writer < views.len() && writes_in(#[trigger] views[writer], key@);
                lemma_write_is_access(views[writer], key@);
            }
        }
        first
    } else {
        None
    }
}

/// Finds the keys that give rise to no order in advance, and the cluster of each.
pub(crate) fn find_dynamic_keys(
    normals: &[NormalizedDeps],
    placements: &[ClusterPlacement],
) -> (keys: KeyMap<ClusterId>)
    requires
        all_sorted(normal_views(normals@)),
        placements@.len() == normals@.len(),
    ensures
        keys@.dom() == dynamic_keys(normal_views(normals@), placements@),
{
    let ghost views = normal_views(normals@);
    let mut keys: KeyMap<ClusterId> = KeyMap::new();
    for job in 0..normals.len()
        invariant
            views == normal_views(normals@),
            all_sorted(views),
            placements@.len() == normals@.len(),
            forall|key: KeyView| #[trigger]
                keys@.contains_key(key) ==> is_dynamic(views, placements@, key),
            forall|key: KeyView, at: int|
                0 <= at < job && #[trigger] accesses_key(views[at], key) && is_dynamic(
                    views,
                    placements@,
                    key,
                ) ==> keys@.contains_key(key),
    {
        let ghost at = job as int;
        let ghost before = keys@;
        assert(views[at] == normals@[at]@);
        if let NormalizedDeps::Known(accesses) = &normals[job] {
            let ghost own = views[at]->Known_0;
            for index in 0..accesses.len()
                invariant
                    views == normal_views(normals@),
                    all_sorted(views),
                    placements@.len() == normals@.len(),
                    0 <= at < normals@.len(),
                    views[at] == NormalView::Known(own),
                    own == accesses@.map_values(|access: Access| access@),
                    forall|key: KeyView| #[trigger]
                        keys@.contains_key(key) ==> is_dynamic(views, placements@, key),
                    forall|key: KeyView| #[trigger]
                        before.contains_key(key) ==> keys@.contains_key(key),
                    forall|place: int|
                        0 <= place < index && is_dynamic(
                            views,
                            placements@,
                            (#[trigger] own[place]).key,
                        ) ==> keys@.contains_key(own[place].key),
            {
                let access = &accesses[index];
                assert(own[index as int] == access@);
                if !keys.contains(&access.key) {
                    if let Some(cluster) = dynamic_cluster(normals, placements, &access.key) {
                        assert(dynamic_in(views, placements@, access.key@, cluster));
                        keys.insert(access.key.clone(), cluster);
                    }
                }
            }
            assert forall|key: KeyView| #[trigger] accesses_key(views[at], key) && is_dynamic(
                views,
                placements@,
                key,
            ) implies keys@.contains_key(key) by {
                let place = choose|place: int|
                    0 <= place < own.len() && (#[trigger] own[place]).key == key;
                assert(own[place].key == key);
            }
        }
        assert forall|key: KeyView, other: int|
            0 <= other < job + 1 && #[trigger] accesses_key(views[other], key) && is_dynamic(
                views,
                placements@,
                key,
            ) implies keys@.contains_key(key) by {
            if other < job {
                assert(before.contains_key(key));
            }
        }
    }
    assert forall|key: KeyView| keys@.dom().contains(key) == dynamic_keys(
        views,
        placements@,
    ).contains(key) by {
        if is_dynamic(views, placements@, key) {
            let cluster = choose|cluster: ClusterId| #[trigger]
                dynamic_in(views, placements@, key, cluster);
            let writer = choose|writer: int|
                0 <= writer < views.len() && writes_in(#[trigger] views[writer], key);
            lemma_write_is_access(views[writer], key);
            assert(accesses_key(views[writer], key));
            assert(keys@.contains_key(key));
        }
        if keys@.dom().contains(key) {
            assert(keys@.contains_key(key));
        }
    }
    assert(keys@.dom() =~= dynamic_keys(views, placements@));
    keys
}

/// Whether `jobs` holds, in order, for each job those whose places are among the places of its
/// place.
pub open spec fn renamed(
    order: Seq<JobId>,
    rank: Seq<u32>,
    places: Seq<Seq<JobId>>,
    jobs: Seq<Seq<JobId>>,
) -> bool {
    &&& jobs.len() == order.len()
    &&& forall|job: int|
        #![trigger jobs[job]]
        0 <= job < jobs.len() ==> ascending(jobs[job]) && within(jobs[job], order.len() as int)
            && forall|other: JobId| #[trigger]
            jobs[job].contains(other) == (other < order.len() && places[rank[job] as int].contains(
                rank[other as int],
            ))
}

/// Names jobs in place of their places.
pub(crate) fn rename(order: &[JobId], rank: &[u32], places: &[Vec<JobId>]) -> (jobs: Vec<
    Vec<JobId>,
>)
    requires
        order@.len() <= u32::MAX,
        permutes(order@, order@.len() as int),
        ranks(order@, rank@),
        places@.len() == order@.len(),
        forall|place: int|
            0 <= place < places@.len() ==> within(
                (#[trigger] places@[place])@,
                order@.len() as int,
            ),
    ensures
        renamed(order@, rank@, lists(places@), lists(jobs@)),
{
    let ghost all = lists(places@);
    let mut jobs: Vec<Vec<JobId>> = Vec::new();
    for job in 0..order.len()
        invariant
            order@.len() <= u32::MAX,
            permutes(order@, order@.len() as int),
            ranks(order@, rank@),
            places@.len() == order@.len(),
            all == lists(places@),
            forall|place: int|
                0 <= place < places@.len() ==> within(
                    (#[trigger] places@[place])@,
                    order@.len() as int,
                ),
            jobs@.len() == job,
            forall|at: int|
                #![trigger jobs@[at]]
                0 <= at < job ==> ascending(jobs@[at]@) && within(jobs@[at]@, order@.len() as int)
                    && forall|other: JobId| #[trigger]
                    jobs@[at]@.contains(other) == (other < order@.len()
                        && all[rank@[at] as int].contains(rank@[other as int])),
    {
        let place = rank[job] as usize;
        assert(order@[rank@[job as int] as int] == job);
        let ghost own = all[place as int];
        assert(own == places@[place as int]@);
        let mut list: Vec<JobId> = Vec::new();
        let length: usize = places[place].len();
        for index in 0..length
            invariant
                order@.len() <= u32::MAX,
                permutes(order@, order@.len() as int),
                ranks(order@, rank@),
                place < places@.len(),
                places@.len() == order@.len(),
                own == places@[place as int]@,
                length == own.len(),
                within(own, order@.len() as int),
                ascending(list@),
                forall|other: JobId| #[trigger]
                    list@.contains(other) == (other < order@.len() && own.take(
                        index as int,
                    ).contains(rank@[other as int])),
        {
            let ghost held = list@;
            let ghost shorter = own.take(index as int);
            let at = places[place][index];
            proof {
                assert(own[index as int] == at);
                assert(own.take(index + 1) =~= shorter.push(at));
                lemma_push_to_set(shorter, at);
                assert(rank@[order@[at as int] as int] == at);
            }
            let found = order[at as usize];
            insert_ascending(&mut list, found);
            assert forall|other: JobId| #[trigger] list@.contains(other) == (other < order@.len()
                && own.take(index + 1).contains(rank@[other as int])) by {
                assert(held.contains(other) == (other < order@.len() && shorter.contains(
                    rank@[other as int],
                )));
                if other < order@.len() && rank@[other as int] == at {
                    assert(order@[rank@[other as int] as int] == other);
                }
            }
        }
        proof {
            assert(own.take(length as int) =~= own);
            assert forall|index: int| 0 <= index < list@.len() implies (#[trigger] list@[index])
                < order@.len() by {
                assert(list@.contains(list@[index]));
            }
        }
        jobs.push(list);
    }
    proof {
        let result = lists(jobs@);
        assert forall|job: int|
            #![trigger result[job]]
            0 <= job < result.len() implies ascending(result[job]) && within(
            result[job],
            order@.len() as int,
        ) && forall|other: JobId| #[trigger]
            result[job].contains(other) == (other < order@.len() && all[rank@[job] as int].contains(
                rank@[other as int],
            )) by {
            assert(result[job] == jobs@[job]@);
        }
    }
    jobs
}

/// Whether an order takes all jobs one after the other, each job waiting for just the one before.
pub open spec fn is_serial(predecessors: Seq<Seq<JobId>>, order: Seq<JobId>) -> bool {
    &&& permutes(order, predecessors.len() as int)
    &&& order.len() > 0 ==> predecessors[order[0] as int] == Seq::<JobId>::empty()
    &&& follows_one(predecessors, order)
}

/// Whether each job of a list but the first waits for just the one before.
pub open spec fn follows_one(predecessors: Seq<Seq<JobId>>, order: Seq<JobId>) -> bool {
    forall|left: int, right: int|
        0 <= left < order.len() && right == left + 1 && right < order.len() ==> predecessors[(
        #[trigger] order[right]) as int] == seq![#[trigger] order[left]]
}

proof fn lemma_serial_lengths(predecessors: Seq<Seq<JobId>>, order: Seq<JobId>, index: int)
    requires
        is_serial(predecessors, order),
        0 <= index < order.len(),
    ensures
        index == 0 ==> predecessors[order[index] as int].len() == 0,
        index > 0 ==> predecessors[order[index] as int] == seq![order[index - 1]],
{
    if index > 0 {
        assert(order[index - 1] == order[index - 1]);
    }
}

/// Whether the first jobs of a serial order have been walked through, and which comes next.
spec fn walked(
    rank: Seq<u32>,
    before: Seq<Seq<JobId>>,
    after: Seq<Seq<JobId>>,
    order: Seq<JobId>,
    current: Option<JobId>,
) -> bool {
    &&& within(order, before.len() as int)
    &&& order.no_duplicates()
    &&& order.len() > 0 ==> before[order[0] as int] == Seq::<JobId>::empty()
    &&& follows_one(before, order)
    &&& follows_one_back(after, order)
    &&& current is None ==> order.len() > 0 && after[order.last() as int] == Seq::<JobId>::empty()
    &&& current matches Some(job) ==> {
        &&& job < before.len()
        &&& order.len() == 0 ==> before[job as int] == Seq::<JobId>::empty()
        &&& order.len() > 0 ==> before[job as int] == seq![order.last()] && after[order.last() as int]
            == seq![job]
        &&& forall|index: int|
            0 <= index < order.len() ==> rank[(#[trigger] order[index]) as int] < rank[job as int]
    }
}

/// Whether each job of a list but the last is waited for by just the one behind.
spec fn follows_one_back(successors: Seq<Seq<JobId>>, order: Seq<JobId>) -> bool {
    forall|left: int, right: int|
        0 <= left < order.len() && right == left + 1 && right < order.len() ==> successors[(
        #[trigger] order[left]) as int] == seq![#[trigger] order[right]]
}

proof fn lemma_walked(
    rank: Seq<u32>,
    before: Seq<Seq<JobId>>,
    after: Seq<Seq<JobId>>,
    order: Seq<JobId>,
    job: JobId,
    current: Option<JobId>,
)
    requires
        walked(rank, before, after, order, Some(job)),
        inverted(before, after),
        proper(before),
        before.len() <= u32::MAX,
        ranked_forward(rank, before),
        forall|at: int| 0 <= at < before.len() ==> (#[trigger] before[at]).len() <= 1,
        current is None ==> after[job as int] == Seq::<JobId>::empty(),
        current matches Some(next) ==> after[job as int] == seq![next],
    ensures
        walked(rank, before, after, order.push(job), current),
        order.len() < before.len(),
{
    let longer = order.push(job);
    assert forall|l: int, r: int|
        0 <= l < longer.len() && 0 <= r < longer.len() && l != r implies longer[l] != longer[r] by {
        if l == order.len() {
            assert(rank[order[r] as int] < rank[job as int]);
        } else if r == order.len() {
            assert(rank[order[l] as int] < rank[job as int]);
        }
    }
    lemma_distinct_bound(longer, before.len() as int);
    assert forall|left: int, right: int|
        0 <= left < longer.len() && right == left + 1 && right < longer.len() implies before[(
    #[trigger] longer[right]) as int] == seq![#[trigger] longer[left]] by {
        if right < order.len() {
            assert(before[order[right] as int] == seq![order[left]]);
        }
    }
    assert forall|left: int, right: int|
        0 <= left < longer.len() && right == left + 1 && right < longer.len() implies after[(
    #[trigger] longer[left]) as int] == seq![#[trigger] longer[right]] by {
        if right < order.len() {
            assert(after[order[left] as int] == seq![order[right]]);
        }
    }
    if let Some(next) = current {
        assert(after[job as int][0] == next);
        assert(after[job as int].contains(next));
        assert(before[next as int].contains(job));
        let index = before[next as int].index_of(job);
        assert(before[next as int][index] == job);
        assert(rank[before[next as int][index] as int] < rank[next as int]);
        assert(before[next as int].len() <= 1);
        assert(before[next as int] =~= seq![job]);
        assert forall|index: int| 0 <= index < longer.len() implies rank[(
        #[trigger] longer[index]) as int] < rank[next as int] by {
            if index < order.len() {
                assert(rank[order[index] as int] < rank[job as int]);
            }
        }
    }
}

/// Whether the jobs lead forward in an order of priority.
pub open spec fn ranked_forward(rank: Seq<u32>, predecessors: Seq<Seq<JobId>>) -> bool {
    forall|job: int, index: int|
        0 <= job < predecessors.len() && 0 <= index < predecessors[job].len() ==> rank[(
        #[trigger] predecessors[job][index]) as int] < rank[job]
}

/// Where the jobs can only be run one after the other, the order in which they are.
pub(crate) fn build_serial_chain(
    Ghost(rank): Ghost<Seq<u32>>,
    predecessors: &[Vec<JobId>],
    successors: &[Vec<JobId>],
) -> (serial: Option<Vec<JobId>>)
    requires
        predecessors@.len() <= u32::MAX,
        proper(lists(predecessors@)),
        inverted(lists(predecessors@), lists(successors@)),
        rank.len() == predecessors@.len(),
        ranked_forward(rank, lists(predecessors@)),
    ensures
        match serial {
            Some(order) => is_serial(lists(predecessors@), order@),
            None => forall|order: Seq<JobId>| !#[trigger]
                is_serial(lists(predecessors@), order),
        },
{
    let ghost before = lists(predecessors@);
    let ghost after = lists(successors@);
    let count: usize = predecessors.len();
    if count == 0 {
        return Some(Vec::new());
    }
    let mut root: Option<JobId> = None;
    for job in 0..count
        invariant
            count == predecessors@.len(),
            count == successors@.len(),
            count <= u32::MAX,
            before == lists(predecessors@),
            after == lists(successors@),
            proper(before),
            inverted(before, after),
            forall|at: int| 0 <= at < job ==> (#[trigger] before[at]).len() <= 1,
            forall|at: int| 0 <= at < job ==> (#[trigger] after[at]).len() <= 1,
            root is None ==> forall|at: int| 0 <= at < job ==> (#[trigger] before[at]).len() == 1,
            root matches Some(first) ==> first < job && before[first as int].len() == 0 && forall|
                at: int,
            |
                0 <= at < job && at != first ==> (#[trigger] before[at]).len() == 1,
    {
        let ghost at = job as int;
        assert(before[at] == predecessors@[at]@);
        assert(after[at] == successors@[at]@);
        if predecessors[job].len() > 1 {
            proof {
                assert forall|order: Seq<JobId>| !#[trigger] is_serial(before, order) by {
                    if is_serial(before, order) {
                        assert(order.contains(at as JobId));
                        let index = order.index_of(at as JobId);
                        lemma_serial_lengths(before, order, index);
                    }
                }
            }
            return None;
        }
        if successors[job].len() > 1 {
            proof {
                let left = after[at][0];
                let right = after[at][1];
                assert(after[at].contains(left) && after[at].contains(right));
                assert(before[left as int].contains(at as JobId));
                assert(before[right as int].contains(at as JobId));
                assert forall|order: Seq<JobId>| !#[trigger] is_serial(before, order) by {
                    if is_serial(before, order) {
                        assert(order.contains(left) && order.contains(right));
                        let l = order.index_of(left);
                        let r = order.index_of(right);
                        lemma_serial_lengths(before, order, l);
                        lemma_serial_lengths(before, order, r);
                        assert(before[order[l] as int].contains(at as JobId));
                        assert(before[order[r] as int].contains(at as JobId));
                        assert(order[l - 1] == at && order[r - 1] == at);
                        assert(l == r);
                        assert(left < right);
                    }
                }
            }
            return None;
        }
        if predecessors[job].len() == 0 {
            if let Some(first) = root {
                proof {
                    assert forall|order: Seq<JobId>| !#[trigger] is_serial(before, order) by {
                        if is_serial(before, order) {
                            assert(order.contains(at as JobId) && order.contains(first));
                            let l = order.index_of(at as JobId);
                            let r = order.index_of(first);
                            lemma_serial_lengths(before, order, l);
                            lemma_serial_lengths(before, order, r);
                            assert(l == 0 && r == 0);
                        }
                    }
                }
                return None;
            }
            root = Some(job as JobId);
        }
    }
    let first = match root {
        Some(first) => first,
        None => {
            proof {
                assert forall|order: Seq<JobId>| !#[trigger] is_serial(before, order) by {
                    if is_serial(before, order) {
                        assert(before[order[0] as int].len() == 0);
                    }
                }
            }
            return None;
        },
    };
    let mut order: Vec<JobId> = Vec::new();
    let mut current: Option<JobId> = Some(first);
    assert(before[first as int] =~= Seq::empty());
    while current.is_some()
        invariant
            count == predecessors@.len(),
            count == successors@.len(),
            0 < count <= u32::MAX,
            before == lists(predecessors@),
            after == lists(successors@),
            rank.len() == count,
            proper(before),
            inverted(before, after),
            ranked_forward(rank, before),
            forall|at: int| 0 <= at < count ==> (#[trigger] before[at]).len() <= 1,
            forall|at: int| 0 <= at < count ==> (#[trigger] after[at]).len() <= 1,
            first < count,
            before[first as int].len() == 0,
            forall|at: int|
                0 <= at < count && at != first ==> (#[trigger] before[at]).len() == 1,
            walked(rank, before, after, order@, current),
        decreases (if current is None { 0int } else { 1 + count - order@.len() }),
    {
        let ghost held = order@;
        let job = current.unwrap();
        order.push(job);
        assert(after[job as int] == successors@[job as int]@);
        if successors[job as usize].len() > 0 {
            current = Some(successors[job as usize][0]);
            assert(after[job as int] =~= seq![after[job as int][0]]);
        } else {
            current = None;
            assert(after[job as int] =~= Seq::empty());
        }
        proof {
            lemma_walked(rank, before, after, held, job, current);
        }
    }
    proof {
        assert forall|job: JobId| job < count implies #[trigger] order@.contains(job) by {
            lemma_serial_covers(rank, before, after, order@, first, job);
        }
        lemma_all_named(order@, count as int);
    }
    Some(order)
}

proof fn lemma_serial_covers(
    rank: Seq<u32>,
    before: Seq<Seq<JobId>>,
    after: Seq<Seq<JobId>>,
    order: Seq<JobId>,
    first: JobId,
    job: JobId,
)
    requires
        rank.len() == before.len(),
        before.len() <= u32::MAX,
        inverted(before, after),
        proper(before),
        ranked_forward(rank, before),
        first < before.len(),
        before[first as int].len() == 0,
        forall|at: int|
            0 <= at < before.len() && at != first ==> (#[trigger] before[at]).len() == 1,
        order.len() > 0,
        within(order, before.len() as int),
        before[order[0] as int].len() == 0,
        follows_one_back(after, order),
        after[order.last() as int] == Seq::<JobId>::empty(),
        job < before.len(),
    ensures
        order.contains(job),
    decreases rank[job as int],
{
    if job == first {
        assert(order[0] == first);
    } else {
        let list = before[job as int];
        let previous = list[0];
        assert(before[job as int][0] < before.len());
        assert(rank[before[job as int][0] as int] < rank[job as int]);
        lemma_serial_covers(rank, before, after, order, first, previous);
        let index = order.index_of(previous);
        assert(list.contains(previous));
        assert(after[previous as int].contains(job));
        assert(after[order[index] as int].contains(job));
        if index + 1 < order.len() {
            assert(after[order[index] as int] == seq![order[index + 1]]);
            assert(order[index + 1] == job);
        }
    }
}

/// A job of another cluster.
#[derive(Debug, Copy, Clone, PartialEq, Eq, Structural)]
pub struct RemoteSuccessor {
    pub cluster: ClusterId,
    pub job: LocalIndex,
}

/// What makes a job of a cluster urgent.
#[derive(Debug, Copy, Clone, PartialEq, Eq, Structural)]
pub struct LocalPriority {
    pub strict_height: u32,
    pub remote_successors: u32,
    pub local_successors: u32,
    pub dynamic_degree: u32,
    pub hot_write_score: i128,
    pub writes: usize,
    pub reads: usize,
    pub accesses: usize,
}

/// A job of a cluster: which jobs of the cluster it waits for, how many of other clusters, which
/// jobs of the cluster it conflicts with, and where its successors are.
#[derive(Debug)]
pub struct ClusterJob {
    pub job: JobId,
    pub local_predecessor_mask: u64,
    pub external_wait_initial: u32,
    pub external_wait: u32,
    pub dynamic_conflict_mask: u64,
    pub local_successor_range: Range<u32>,
    pub remote_successor_range: Range<u32>,
    pub priority: LocalPriority,
}

/// How the next job of a cluster is chosen.
#[derive(Debug, Copy, Clone, PartialEq, Eq, Structural)]
pub enum ClusterMode {
    Dynamic,
    Static,
    Serial,
}

/// Jobs that are run one at a time: which are ready, which are done, and whether someone runs them.
#[derive(Debug)]
pub struct Cluster {
    pub mode: ClusterMode,
    pub ready_mask_initial: u64,
    pub ready_mask: u64,
    pub done_mask: u64,
    pub queued: bool,
    pub jobs: Vec<ClusterJob>,
    pub local_successors: Vec<LocalIndex>,
    pub remote_successors: Vec<RemoteSuccessor>,
    pub priority_height: u32,
}

/// What a schedule of clusters is made from.
pub struct KernelPlan {
    pub setting: Setting,
    pub orientation: Orientation,
    pub grown: Seq<Seq<JobId>>,
    pub clusters: Seq<Seq<JobId>>,
    pub placements: Seq<ClusterPlacement>,
    pub predecessors: Seq<Seq<JobId>>,
    pub successors: Seq<Seq<JobId>>,
}

/// How many of the first `until` jobs of a list are in other clusters.
pub open spec fn count_outside(
    placements: Seq<ClusterPlacement>,
    cluster: ClusterId,
    list: Seq<JobId>,
    until: int,
) -> int
    decreases until,
{
    if until <= 0 {
        0
    } else {
        count_outside(placements, cluster, list, until - 1) + (if
        placements[list[until - 1] as int].cluster != cluster {
            1int
        } else {
            0
        })
    }
}

/// The places of those of the first `until` jobs of a list that are in a cluster.
pub open spec fn inside(
    placements: Seq<ClusterPlacement>,
    cluster: ClusterId,
    list: Seq<JobId>,
    until: int,
) -> Seq<LocalIndex>
    decreases until,
{
    if until <= 0 {
        Seq::empty()
    } else {
        let rest = inside(placements, cluster, list, until - 1);
        let place = placements[list[until - 1] as int];
        if place.cluster == cluster {
            rest.push(place.local)
        } else {
            rest
        }
    }
}

/// The places of those of the first `until` jobs of a list that are in other clusters.
pub open spec fn outside(
    placements: Seq<ClusterPlacement>,
    cluster: ClusterId,
    list: Seq<JobId>,
    until: int,
) -> Seq<RemoteSuccessor>
    decreases until,
{
    if until <= 0 {
        Seq::empty()
    } else {
        let rest = outside(placements, cluster, list, until - 1);
        let place = placements[list[until - 1] as int];
        if place.cluster != cluster {
            rest.push(RemoteSuccessor { cluster: place.cluster, job: place.local })
        } else {
            rest
        }
    }
}

/// Whether two jobs access a key, one of them writing it, that gives rise to no order in advance.
pub open spec fn clash_dynamically(
    left: NormalView,
    right: NormalView,
    left_out: Set<KeyView>,
) -> bool {
    exists|key: KeyView| left_out.contains(key) && #[trigger] clash_on(left, right, key)
}

/// How many of the first `until` jobs wait for no job of their cluster.
pub open spec fn local_roots(jobs: Seq<ClusterJob>, until: int) -> int
    decreases until,
{
    if until <= 0 {
        0
    } else {
        local_roots(jobs, until - 1) + (if jobs[until - 1].local_predecessor_mask == 0 {
            1int
        } else {
            0
        })
    }
}

/// How the next job of a cluster is to be chosen.
pub open spec fn mode_of(
    jobs: Seq<ClusterJob>,
    ready_mask: u64,
    local_lists: Seq<Seq<LocalIndex>>,
) -> ClusterMode {
    if exists|local: int|
        0 <= local < jobs.len() && (#[trigger] jobs[local]).dynamic_conflict_mask != 0 {
        ClusterMode::Dynamic
    } else if word_ones(ready_mask, 64) <= 1 && local_roots(jobs, jobs.len() as int) <= 1 && forall|
        local: int,
    |
        0 <= local < jobs.len() ==> word_ones((#[trigger] jobs[local]).local_predecessor_mask, 64)
            <= 1 && local_lists[local].len() <= 1 {
        ClusterMode::Serial
    } else {
        ClusterMode::Static
    }
}

impl KernelPlan {
    /// The keys that give rise to no order in advance.
    pub open spec fn left_out(self) -> Set<KeyView> {
        dynamic_keys(self.setting.normals, self.placements)
    }

    /// The places of the successors of a job in its own cluster.
    pub open spec fn local_list(self, job: JobId) -> Seq<LocalIndex> {
        let list = self.successors[job as int];
        inside(self.placements, self.placements[job as int].cluster, list, list.len() as int)
    }

    /// The places of the successors of a job in other clusters.
    pub open spec fn remote_list(self, job: JobId) -> Seq<RemoteSuccessor> {
        let list = self.successors[job as int];
        outside(self.placements, self.placements[job as int].cluster, list, list.len() as int)
    }

    /// The places of the successors in their own cluster, of each job of a cluster.
    pub open spec fn local_lists(self, cluster: int) -> Seq<Seq<LocalIndex>> {
        self.clusters[cluster].map_values(|job: JobId| self.local_list(job))
    }

    /// The places of the successors in other clusters, of each job of a cluster.
    pub open spec fn remote_lists(self, cluster: int) -> Seq<Seq<RemoteSuccessor>> {
        self.clusters[cluster].map_values(|job: JobId| self.remote_list(job))
    }

    /// The longest path that starts at a job.
    pub open spec fn height(self, job: JobId) -> u32 {
        self.orientation.heights[self.orientation.rank[job as int] as int]
    }

    /// How many jobs of other clusters a job waits for.
    pub open spec fn external(self, job: JobId) -> int {
        let list = self.predecessors[job as int];
        count_outside(self.placements, self.placements[job as int].cluster, list, list.len() as int)
    }

    /// Whether a mask tells which jobs of its cluster a job waits for.
    pub open spec fn masks_predecessors(self, job: JobId, mask: u64) -> bool {
        let members = self.clusters[self.placements[job as int].cluster as int];
        forall|local: int|
            0 <= local < 64 ==> #[trigger] word_bit(mask, local) == (local < members.len()
                && self.predecessors[job as int].contains(members[local]))
    }

    /// Whether a mask tells which jobs of its cluster a job conflicts with.
    pub open spec fn masks_conflicts(self, job: JobId, mask: u64) -> bool {
        let members = self.clusters[self.placements[job as int].cluster as int];
        forall|local: int|
            0 <= local < 64 ==> #[trigger] word_bit(mask, local) == (local < members.len()
                && members[local] != job && clash_dynamically(
                self.setting.normals[job as int],
                self.setting.normals[members[local] as int],
                self.left_out(),
            ))
    }

    /// Whether a job of a cluster is that of the plan.
    pub open spec fn plans_job(self, job: JobId, made: ClusterJob) -> bool {
        let stats = self.setting.stats[job as int];
        &&& made.job == job
        &&& self.masks_predecessors(job, made.local_predecessor_mask)
        &&& made.external_wait_initial == self.external(job)
        &&& made.external_wait == made.external_wait_initial
        &&& self.masks_conflicts(job, made.dynamic_conflict_mask)
        &&& made.priority == (LocalPriority {
            strict_height: self.height(job),
            remote_successors: self.remote_list(job).len() as u32,
            local_successors: self.local_list(job).len() as u32,
            dynamic_degree: word_ones(made.dynamic_conflict_mask, 64) as u32,
            hot_write_score: stats.hot_write_score,
            writes: stats.writes,
            reads: stats.reads,
            accesses: stats.accesses,
        })
    }

    /// The longest path that starts at one of the first `until` jobs of a list.
    pub open spec fn top_height(self, list: Seq<JobId>, until: int) -> int
        decreases until,
    {
        if until <= 0 {
            0
        } else {
            let rest = self.top_height(list, until - 1);
            let own = self.height(list[until - 1]) as int;
            if own > rest {
                own
            } else {
                rest
            }
        }
    }

    /// Whether a cluster is that of the plan, before anything has run.
    pub open spec fn plans_cluster(self, cluster: int, made: Cluster) -> bool {
        let members = self.clusters[cluster];
        &&& made.jobs@.len() == members.len()
        &&& forall|local: int|
            #![trigger made.jobs@[local]]
            0 <= local < members.len() ==> {
                &&& self.plans_job(members[local], made.jobs@[local])
                &&& made.jobs@[local].local_successor_range == joined_range(
                    self.local_lists(cluster),
                    local,
                )
                &&& made.jobs@[local].remote_successor_range == joined_range(
                    self.remote_lists(cluster),
                    local,
                )
            }
        &&& made.local_successors@ == joined(self.local_lists(cluster), members.len() as int)
        &&& made.remote_successors@ == joined(self.remote_lists(cluster), members.len() as int)
        &&& forall|local: int|
            0 <= local < 64 ==> #[trigger] word_bit(made.ready_mask_initial, local) == (local
                < members.len() && made.jobs@[local].local_predecessor_mask == 0
                && made.jobs@[local].external_wait_initial == 0)
        &&& made.ready_mask == made.ready_mask_initial
        &&& made.done_mask == 0
        &&& !made.queued
        &&& made.priority_height == self.top_height(members, members.len() as int)
        &&& made.mode == mode_of(made.jobs@, made.ready_mask_initial, self.local_lists(cluster))
    }

    /// Whether the lists of the plan fit one another.
    pub open spec fn fits(self) -> bool {
        let count = self.setting.normals.len() as int;
        &&& count <= u32::MAX
        &&& self.clusters.len() <= u32::MAX
        &&& self.placements.len() == count
        &&& self.predecessors.len() == count
        &&& self.successors.len() == count
        &&& proper(self.predecessors)
        &&& inverted(self.predecessors, self.successors)
        &&& placed_in(self.clusters, self.placements)
        &&& forall|cluster: int|
            0 <= cluster < self.clusters.len() ==> 0 < (#[trigger] self.clusters[cluster]).len()
                <= MAX_CLUSTER_JOBS
        &&& permutes(self.orientation.order, count)
        &&& ranks(self.orientation.order, self.orientation.rank)
        &&& self.orientation.heights.len() == count
    }
}

/// Finds which jobs of its cluster a job waits for, and how many of other clusters.
fn split_predecessors(
    Ghost(plan): Ghost<KernelPlan>,
    placements: &[ClusterPlacement],
    job: JobId,
    predecessors: &[JobId],
) -> (split: (u64, u32))
    requires
        plan.fits(),
        placements@ == plan.placements,
        job < placements@.len(),
        predecessors@ == plan.predecessors[job as int],
    ensures
        plan.masks_predecessors(job, split.0),
        split.1 == plan.external(job),
{
    let target = placements[job as usize].cluster;
    let ghost members = plan.clusters[target as int];
    let ghost count = placements@.len() as int;
    proof {
        assert(ascending(plan.predecessors[job as int]));
        lemma_distinct_bound(predecessors@, count);
    }
    let mut mask: u64 = 0;
    let mut external: u32 = 0;
    assert forall|local: int| 0 <= local < 64 implies !#[trigger] word_bit(mask, local) by {
        lemma_join_bits(0, 0, local as u64);
    }
    for index in 0..predecessors.len()
        invariant
            plan.fits(),
            count == plan.placements.len(),
            placements@ == plan.placements,
            job < placements@.len(),
            predecessors@ == plan.predecessors[job as int],
            predecessors@.len() <= count <= u32::MAX,
            target == placements@[job as int].cluster,
            members == plan.clusters[target as int],
            external == count_outside(plan.placements, target, predecessors@, index as int),
            external <= index,
            forall|local: int|
                0 <= local < 64 ==> #[trigger] word_bit(mask, local) == (local < members.len()
                    && predecessors@.take(index as int).contains(members[local])),
    {
        let pred = predecessors[index];
        let ghost held = mask;
        let ghost shorter = predecessors@.take(index as int);
        let ghost longer = predecessors@.take(index + 1);
        proof {
            assert(plan.predecessors[job as int][index as int] < count);
            assert(longer =~= shorter.push(pred));
            lemma_push_to_set(shorter, pred);
        }
        let source = placements[pred as usize];
        assert(plan.placements[pred as int] == source);
        if source.cluster == target {
            assert(source.local < 16);
            mask = mask | (1u64 << (source.local as u64));
            assert forall|local: int| 0 <= local < 64 implies #[trigger] word_bit(mask, local) == (
            local < members.len() && longer.contains(members[local])) by {
                lemma_set_bit(held, source.local as u64, local as u64);
                assert(word_bit(held, local) == (local < members.len() && shorter.contains(
                    members[local],
                )));
                if local < members.len() && members[local] == pred {
                    assert(plan.clusters[target as int][local] == pred);
                }
            }
        } else {
            external += 1;
            assert forall|local: int| 0 <= local < 64 implies #[trigger] word_bit(mask, local) == (
            local < members.len() && longer.contains(members[local])) by {
                if local < members.len() && members[local] == pred {
                    assert(plan.clusters[target as int][local] == pred);
                }
            }
        }
    }
    assert(predecessors@.take(predecessors@.len() as int) =~= predecessors@);
    (mask, external)
}

/// Finds the places of the successors of a job, in its cluster and in others.
fn split_successors(
    placements: &[ClusterPlacement],
    cluster: ClusterId,
    successors: &[JobId],
) -> (split: (Vec<LocalIndex>, Vec<RemoteSuccessor>))
    requires
        within(successors@, placements@.len() as int),
    ensures
        split.0@ == inside(placements@, cluster, successors@, successors@.len() as int),
        split.1@ == outside(placements@, cluster, successors@, successors@.len() as int),
{
    let mut local: Vec<LocalIndex> = Vec::new();
    let mut remote: Vec<RemoteSuccessor> = Vec::new();
    for index in 0..successors.len()
        invariant
            within(successors@, placements@.len() as int),
            local@ == inside(placements@, cluster, successors@, index as int),
            remote@ == outside(placements@, cluster, successors@, index as int),
    {
        let place = placements[successors[index] as usize];
        if place.cluster == cluster {
            local.push(place.local);
        } else {
            remote.push(RemoteSuccessor { cluster: place.cluster, job: place.local });
        }
    }
    (local, remote)
}

/// Whether two jobs access a key, one of them writing it, that gives rise to no order in advance.
fn find_dynamic_clash(
    left: &NormalizedDeps,
    right: &NormalizedDeps,
    dynamic: &KeyMap<ClusterId>,
) -> (clash: bool)
    requires
        left@ matches NormalView::Known(accesses) ==> sorted_accesses(accesses),
        right@ matches NormalView::Known(accesses) ==> sorted_accesses(accesses),
    ensures
        clash == clash_dynamically(left@, right@, dynamic@.dom()),
{
    match left {
        NormalizedDeps::Unknown => false,
        NormalizedDeps::Known(accesses) => {
            let ghost own = left@->Known_0;
            for index in 0..accesses.len()
                invariant
                    left@ == NormalView::Known(own),
                    own == accesses@.map_values(|access: Access| access@),
                    sorted_accesses(own),
                    right@ matches NormalView::Known(accesses) ==> sorted_accesses(accesses),
                    forall|at: int|
                        0 <= at < index ==> !(dynamic@.contains_key((#[trigger] own[at]).key)
                            && clash_on(left@, right@, own[at].key)),
            {
                let access = &accesses[index];
                assert(own[index as int] == access@);
                let ghost key = access.key@;
                proof {
                    assert(accesses_key(left@, key));
                    if writes_in(left@, key) {
                        let at = choose|at: int|
                            0 <= at < own.len() && (#[trigger] own[at]).key == key && own[at].write;
                        if at < index {
                            assert(own[at].key.before(own[index as int].key));
                        } else if at > index {
                            assert(own[index as int].key.before(own[at].key));
                        }
                        key.before_is_irreflexive();
                    }
                    if access.write {
                        assert(own[index as int].write);
                        assert(writes_in(left@, key));
                    }
                }
                if dynamic.contains(&access.key) {
                    if let Some(write) = find_access(right, &access.key) {
                        if access.write || write {
                            assert(clash_on(left@, right@, key));
                            assert(dynamic@.dom().contains(key));
                            return true;
                        }
                    }
                }
            }
            proof {
                if clash_dynamically(left@, right@, dynamic@.dom()) {
                    let key = choose|key: KeyView|
                        dynamic@.dom().contains(key) && #[trigger] clash_on(left@, right@, key);
                    let at = choose|at: int|
                        0 <= at < own.len() && (#[trigger] own[at]).key == key;
                    assert(dynamic@.contains_key(own[at].key));
                }
            }
            false
        },
    }
}

/// Finds which jobs of its cluster a job conflicts with.
fn find_conflicts(
    Ghost(plan): Ghost<KernelPlan>,
    normals: &[NormalizedDeps],
    dynamic: &KeyMap<ClusterId>,
    members: &[JobId],
    job: JobId,
) -> (mask: u64)
    requires
        plan.fits(),
        plan.setting.normals == normal_views(normals@),
        all_sorted(plan.setting.normals),
        dynamic@.dom() == plan.left_out(),
        job < normals@.len(),
        members@ == plan.clusters[plan.placements[job as int].cluster as int],
    ensures
        plan.masks_conflicts(job, mask),
{
    let ghost target = plan.placements[job as int].cluster as int;
    let ghost own = plan.setting.normals[job as int];
    assert(own == normals@[job as int]@);
    assert(target < plan.clusters.len());
    let mut mask: u64 = 0;
    assert forall|local: int| 0 <= local < 64 implies !#[trigger] word_bit(mask, local) by {
        lemma_join_bits(0, 0, local as u64);
    }
    for index in 0..members.len()
        invariant
            plan.fits(),
            plan.setting.normals == normal_views(normals@),
            all_sorted(plan.setting.normals),
            dynamic@.dom() == plan.left_out(),
            job < normals@.len(),
            own == plan.setting.normals[job as int],
            own == normals@[job as int]@,
            0 <= target < plan.clusters.len(),
            members@ == plan.clusters[target],
            members@.len() <= 16,
            forall|local: int|
                0 <= local < 64 ==> #[trigger] word_bit(mask, local) == (local < index
                    && members@[local] != job && clash_dynamically(
                    own,
                    plan.setting.normals[members@[local] as int],
                    plan.left_out(),
                )),
    {
        let other = members[index];
        let ghost held = mask;
        proof {
            assert(plan.clusters[target][index as int] < plan.placements.len());
            assert(plan.setting.normals[other as int] == normals@[other as int]@);
        }
        if other != job && find_dynamic_clash(
            &normals[job as usize],
            &normals[other as usize],
            dynamic,
        ) {
            mask = mask | (1u64 << (index as u64));
        }
        assert forall|local: int| 0 <= local < 64 implies #[trigger] word_bit(mask, local) == (local
            < index + 1 && members@[local] != job && clash_dynamically(
            own,
            plan.setting.normals[members@[local] as int],
            plan.left_out(),
        )) by {
            lemma_set_bit(held, index as u64, local as u64);
            assert(word_bit(held, local) == (local < index && members@[local] != job
                && clash_dynamically(
                own,
                plan.setting.normals[members@[local] as int],
                plan.left_out(),
            )));
        }
    }
    mask
}

/// How the next job of a cluster is to be chosen.
fn classify_cluster_mode(
    ready_mask: u64,
    jobs: &[ClusterJob],
    local_lists: &[Vec<LocalIndex>],
) -> (mode: ClusterMode)
    requires
        local_lists@.len() == jobs@.len(),
        jobs@.len() <= MAX_CLUSTER_JOBS,
    ensures
        mode == mode_of(jobs@, ready_mask, contents(local_lists@)),
{
    let ghost all = contents(local_lists@);
    let mut roots: usize = 0;
    let mut narrow = true;
    for local in 0..jobs.len()
        invariant
            all == contents(local_lists@),
            local_lists@.len() == jobs@.len(),
            jobs@.len() <= MAX_CLUSTER_JOBS,
            forall|at: int|
                0 <= at < local ==> (#[trigger] jobs@[at]).dynamic_conflict_mask == 0,
            roots == local_roots(jobs@, local as int),
            roots <= local,
            narrow == forall|at: int|
                0 <= at < local ==> word_ones((#[trigger] jobs@[at]).local_predecessor_mask, 64)
                    <= 1 && all[at].len() <= 1,
    {
        assert(all[local as int] == local_lists@[local as int]@);
        if jobs[local].dynamic_conflict_mask != 0 {
            assert(jobs@[local as int].dynamic_conflict_mask != 0);
            return ClusterMode::Dynamic;
        }
        if jobs[local].local_predecessor_mask == 0 {
            roots += 1;
        }
        let predecessor_count = jobs[local].local_predecessor_mask.count_ones();
        if predecessor_count > 1 || local_lists[local].len() > 1 {
            narrow = false;
            assert(!(word_ones(jobs@[local as int].local_predecessor_mask, 64) <= 1
                && all[local as int].len() <= 1));
        }
    }
    if ready_mask.count_ones() <= 1 && roots <= 1 && narrow {
        ClusterMode::Serial
    } else {
        ClusterMode::Static
    }
}

/// What the clusters of a schedule are built from.
struct Parts<'a> {
    normals: &'a [NormalizedDeps],
    stats: &'a [JobStats],
    placements: &'a [ClusterPlacement],
    dynamic: &'a KeyMap<ClusterId>,
    rank: &'a [u32],
    heights: &'a [u32],
    predecessors: &'a [Vec<JobId>],
    successors: &'a [Vec<JobId>],
}

impl<'a> Parts<'a> {
    /// Whether these are the parts of a plan.
    spec fn show(self, plan: KernelPlan) -> bool {
        let count = plan.setting.normals.len();
        &&& plan.fits()
        &&& plan.setting.normals == normal_views(self.normals@)
        &&& all_sorted(plan.setting.normals)
        &&& self.normals@.len() == count
        &&& self.stats@ == plan.setting.stats
        &&& self.stats@.len() == count
        &&& self.placements@ == plan.placements
        &&& self.dynamic@.dom() == plan.left_out()
        &&& self.rank@ == plan.orientation.rank
        &&& self.rank@.len() == count
        &&& self.heights@ == plan.orientation.heights
        &&& self.heights@.len() == count
        &&& lists(self.predecessors@) == plan.predecessors
        &&& lists(self.successors@) == plan.successors
        &&& self.predecessors@.len() == count
        &&& self.successors@.len() == count
    }
}

/// Builds one job of a cluster; its ranges are still empty.
fn build_job(
    Ghost(plan): Ghost<KernelPlan>,
    parts: &Parts,
    members: &[JobId],
    job: JobId,
) -> (built: (ClusterJob, Vec<LocalIndex>, Vec<RemoteSuccessor>))
    requires
        parts.show(plan),
        job < plan.setting.normals.len(),
        members@ == plan.clusters[plan.placements[job as int].cluster as int],
    ensures
        plan.plans_job(job, built.0),
        built.1@ == plan.local_list(job),
        built.2@ == plan.remote_list(job),
{
    let ghost count = plan.setting.normals.len() as int;
    proof {
        assert(plan.predecessors[job as int] == parts.predecessors@[job as int]@);
        assert(plan.successors[job as int] == parts.successors@[job as int]@);
        let list = plan.successors[job as int];
        assert forall|index: int| 0 <= index < list.len() implies (#[trigger] list[index])
            < count by {
            assert(list.contains(list[index]));
        }
        assert(plan.orientation.order[plan.orientation.rank[job as int] as int] == job);
    }
    let cluster = parts.placements[job as usize].cluster;
    let (local_predecessor_mask, external) = split_predecessors(
        Ghost(plan),
        parts.placements,
        job,
        &parts.predecessors[job as usize],
    );
    let (local, remote) = split_successors(
        parts.placements,
        cluster,
        &parts.successors[job as usize],
    );
    let dynamic_conflict_mask = find_conflicts(
        Ghost(plan),
        parts.normals,
        parts.dynamic,
        members,
        job,
    );
    let stats = parts.stats[job as usize];
    let height = parts.heights[parts.rank[job as usize] as usize];
    let priority = LocalPriority {
        strict_height: height,
        remote_successors: remote.len() as u32,
        local_successors: local.len() as u32,
        dynamic_degree: dynamic_conflict_mask.count_ones(),
        hot_write_score: stats.hot_write_score,
        writes: stats.writes,
        reads: stats.reads,
        accesses: stats.accesses,
    };
    let built = ClusterJob {
        job,
        local_predecessor_mask,
        external_wait_initial: external,
        external_wait: external,
        dynamic_conflict_mask,
        local_successor_range: 0..0,
        remote_successor_range: 0..0,
        priority,
    };
    (built, local, remote)
}

/// Builds one cluster.
fn build_cluster(
    Ghost(plan): Ghost<KernelPlan>,
    parts: &Parts,
    Ghost(cluster): Ghost<int>,
    members: &[JobId],
) -> (made: Cluster)
    requires
        parts.show(plan),
        0 <= cluster < plan.clusters.len() <= u32::MAX,
        members@ == plan.clusters[cluster],
    ensures
        plan.plans_cluster(cluster, made),
{
    let mut jobs: Vec<ClusterJob> = Vec::new();
    let mut local_lists: Vec<Vec<LocalIndex>> = Vec::new();
    let mut remote_lists: Vec<Vec<RemoteSuccessor>> = Vec::new();
    let mut ready_mask: u64 = 0;
    let mut priority_height: u32 = 0;
    assert forall|local: int| 0 <= local < 64 implies !#[trigger] word_bit(ready_mask, local) by {
        lemma_join_bits(0, 0, local as u64);
    }
    for local in 0..members.len()
        invariant
            parts.show(plan),
            0 <= cluster < plan.clusters.len() <= u32::MAX,
            members@ == plan.clusters[cluster],
            members@.len() <= 16,
            jobs@.len() == local,
            local_lists@.len() == local,
            remote_lists@.len() == local,
            forall|at: int|
                0 <= at < local ==> plan.plans_job(members@[at], #[trigger] jobs@[at]),
            forall|at: int|
                0 <= at < local ==> (#[trigger] local_lists@[at])@ == plan.local_list(members@[at]),
            forall|at: int|
                0 <= at < local ==> (#[trigger] remote_lists@[at])@ == plan.remote_list(
                    members@[at],
                ),
            priority_height == plan.top_height(members@, local as int),
            forall|at: int|
                0 <= at < 64 ==> #[trigger] word_bit(ready_mask, at) == (at < local
                    && jobs@[at].local_predecessor_mask == 0 && jobs@[at].external_wait_initial
                    == 0),
    {
        let job = members[local];
        let ghost held = ready_mask;
        let ghost jobs_before = jobs@;
        proof {
            assert(plan.clusters[cluster][local as int] < plan.placements.len());
            assert(plan.placements[plan.clusters[cluster][local as int] as int].cluster == cluster);
        }
        let (built, local_list, remote_list) = build_job(Ghost(plan), parts, members, job);
        if built.local_predecessor_mask == 0 && built.external_wait_initial == 0 {
            ready_mask = ready_mask | (1u64 << (local as u64));
        }
        if built.priority.strict_height > priority_height {
            priority_height = built.priority.strict_height;
        }
        let ghost ready_now = built.local_predecessor_mask == 0 && built.external_wait_initial == 0;
        jobs.push(built);
        local_lists.push(local_list);
        remote_lists.push(remote_list);
        assert forall|at: int| 0 <= at < 64 implies #[trigger] word_bit(ready_mask, at) == (at
            < local + 1 && jobs@[at].local_predecessor_mask == 0 && jobs@[at].external_wait_initial
            == 0) by {
            lemma_set_bit(held, local as u64, at as u64);
            assert(word_bit(held, at) == (at < local && jobs_before[at].local_predecessor_mask == 0
                && jobs_before[at].external_wait_initial == 0));
        }
    }
    let (local_successors, local_ranges) = join(&local_lists);
    let (remote_successors, remote_ranges) = join(&remote_lists);
    proof {
        assert(contents(local_lists@) =~= plan.local_lists(cluster));
        assert(contents(remote_lists@) =~= plan.remote_lists(cluster));
    }
    let ghost built_jobs = jobs@;
    let count: usize = jobs.len();
    for local in 0..count
        invariant
            count == members@.len(),
            count == jobs@.len(),
            count == built_jobs.len(),
            members@ == plan.clusters[cluster],
            local_ranges@.len() == count,
            remote_ranges@.len() == count,
            forall|at: int|
                0 <= at < count ==> #[trigger] local_ranges@[at] == joined_range(
                    plan.local_lists(cluster),
                    at,
                ),
            forall|at: int|
                0 <= at < count ==> #[trigger] remote_ranges@[at] == joined_range(
                    plan.remote_lists(cluster),
                    at,
                ),
            forall|at: int|
                0 <= at < count ==> plan.plans_job(members@[at], #[trigger] jobs@[at]),
            forall|at: int|
                #![trigger jobs@[at]]
                0 <= at < count ==> jobs@[at].local_predecessor_mask
                    == built_jobs[at].local_predecessor_mask && jobs@[at].external_wait_initial
                    == built_jobs[at].external_wait_initial && jobs@[at].dynamic_conflict_mask
                    == built_jobs[at].dynamic_conflict_mask,
            forall|at: int|
                #![trigger jobs@[at]]
                0 <= at < local ==> jobs@[at].local_successor_range == joined_range(
                    plan.local_lists(cluster),
                    at,
                ) && jobs@[at].remote_successor_range == joined_range(
                    plan.remote_lists(cluster),
                    at,
                ),
    {
        assert(plan.plans_job(members@[local as int], jobs@[local as int]));
        assert(local_ranges@[local as int] == joined_range(plan.local_lists(cluster), local as int));
        assert(remote_ranges@[local as int] == joined_range(
            plan.remote_lists(cluster),
            local as int,
        ));
        let local_range = local_ranges[local].start..local_ranges[local].end;
        let remote_range = remote_ranges[local].start..remote_ranges[local].end;
        jobs[local].local_successor_range = local_range;
        jobs[local].remote_successor_range = remote_range;
    }
    let mode = classify_cluster_mode(ready_mask, &jobs, &local_lists);
    assert forall|at: int| 0 <= at < 64 implies #[trigger] word_bit(ready_mask, at) == (at
        < members@.len() && jobs@[at].local_predecessor_mask == 0 && jobs@[at].external_wait_initial
        == 0) by {
        assert(word_bit(ready_mask, at) == (at < members@.len()
            && built_jobs[at].local_predecessor_mask == 0 && built_jobs[at].external_wait_initial
            == 0));
    }
    Cluster {
        mode,
        ready_mask_initial: ready_mask,
        ready_mask,
        done_mask: 0,
        queued: false,
        jobs,
        local_successors,
        remote_successors,
        priority_height,
    }
}

/// Whether one cluster is to be run before another: a longer path starts in it, or as long a one
/// and it has more jobs, or as many and it comes first.
pub open spec fn runs_first(clusters: Seq<Cluster>, left: ClusterId, right: ClusterId) -> bool {
    let l = clusters[left as int];
    let r = clusters[right as int];
    ||| l.priority_height > r.priority_height
    ||| l.priority_height == r.priority_height && l.jobs@.len() > r.jobs@.len()
    ||| l.priority_height == r.priority_height && l.jobs@.len() == r.jobs@.len() && left < right
}

/// Whether `roots` holds the clusters that can be run at once, in the order in which they are.
pub open spec fn rooted(clusters: Seq<Cluster>, roots: Seq<ClusterId>) -> bool {
    &&& forall|left: int, right: int|
        0 <= left < right < roots.len() ==> runs_first(
            clusters,
            #[trigger] roots[left],
            #[trigger] roots[right],
        )
    &&& forall|cluster: ClusterId| #[trigger]
        roots.contains(cluster) == (cluster < clusters.len()
            && clusters[cluster as int].ready_mask_initial != 0)
}

/// Finds the clusters that can be run at once, in the order in which they are.
fn find_cluster_roots(clusters: &[Cluster]) -> (roots: Vec<ClusterId>)
    requires
        clusters@.len() <= u32::MAX,
        forall|cluster: int|
            0 <= cluster < clusters@.len() ==> (#[trigger] clusters@[cluster]).jobs@.len()
                <= MAX_CLUSTER_JOBS,
    ensures
        rooted(clusters@, roots@),
{
    let mut keys: Vec<u64> = Vec::new();
    for cluster in 0..clusters.len()
        invariant
            clusters@.len() <= u32::MAX,
            forall|at: int|
                0 <= at < clusters@.len() ==> (#[trigger] clusters@[at]).jobs@.len()
                    <= MAX_CLUSTER_JOBS,
            keys@.len() == cluster,
            forall|at: int|
                0 <= at < cluster ==> #[trigger] keys@[at] == (u32::MAX
                    - clusters@[at].priority_height) * 32 + (16 - clusters@[at].jobs@.len()),
    {
        assert(clusters@[cluster as int].jobs@.len() <= MAX_CLUSTER_JOBS);
        let above: u64 = (u32::MAX - clusters[cluster].priority_height) as u64;
        let below: u64 = (16 - clusters[cluster].jobs.len()) as u64;
        keys.push(above * 32 + below);
    }
    let mut roots: Vec<ClusterId> = Vec::new();
    for cluster in 0..clusters.len()
        invariant
            clusters@.len() <= u32::MAX,
            keys@.len() == clusters@.len(),
            within(roots@, keys@.len() as int),
            crate::order::ordered_by(keys@, roots@),
            forall|at: ClusterId| #[trigger]
                roots@.contains(at) == (at < cluster && clusters@[at as int].ready_mask_initial
                    != 0),
    {
        if clusters[cluster].ready_mask_initial != 0 {
            crate::order::insert_by_key(&keys, &mut roots, cluster as ClusterId);
        }
    }
    assert forall|left: int, right: int| 0 <= left < right < roots@.len() implies runs_first(
        clusters@,
        #[trigger] roots@[left],
        #[trigger] roots@[right],
    ) by {
        let l = roots@[left] as int;
        let r = roots@[right] as int;
        assert(crate::order::key_before(keys@, roots@[left], roots@[right]));
        assert(keys@[l] == (u32::MAX - clusters@[l].priority_height) * 32 + (16
            - clusters@[l].jobs@.len()));
        assert(keys@[r] == (u32::MAX - clusters@[r].priority_height) * 32 + (16
            - clusters@[r].jobs@.len()));
        assert(clusters@[l].jobs@.len() <= MAX_CLUSTER_JOBS);
        assert(clusters@[r].jobs@.len() <= MAX_CLUSTER_JOBS);
    }
    roots
}

/// Builds all clusters, and finds those that can be run at once.
fn build_compiled_clusters(
    Ghost(plan): Ghost<KernelPlan>,
    parts: &Parts,
    cluster_jobs: &[Vec<JobId>],
) -> (built: (Vec<Cluster>, Vec<ClusterId>))
    requires
        parts.show(plan),
        lists(cluster_jobs@) == plan.clusters,
        plan.clusters.len() <= u32::MAX,
    ensures
        built.0@.len() == plan.clusters.len(),
        forall|cluster: int|
            0 <= cluster < built.0@.len() ==> plan.plans_cluster(
                cluster,
                #[trigger] built.0@[cluster],
            ),
        rooted(built.0@, built.1@),
{
    let mut clusters: Vec<Cluster> = Vec::new();
    for cluster in 0..cluster_jobs.len()
        invariant
            parts.show(plan),
            lists(cluster_jobs@) == plan.clusters,
            cluster_jobs@.len() == plan.clusters.len(),
            plan.clusters.len() <= u32::MAX,
            clusters@.len() == cluster,
            forall|at: int|
                0 <= at < cluster ==> plan.plans_cluster(at, #[trigger] clusters@[at]),
    {
        assert(plan.clusters[cluster as int] == cluster_jobs@[cluster as int]@);
        clusters.push(
            build_cluster(Ghost(plan), parts, Ghost(cluster as int), &cluster_jobs[cluster]),
        );
    }
    proof {
        assert forall|cluster: int| 0 <= cluster < clusters@.len() implies (
        #[trigger] clusters@[cluster]).jobs@.len() <= MAX_CLUSTER_JOBS by {
            assert(plan.plans_cluster(cluster, clusters@[cluster]));
            assert(plan.clusters[cluster].len() <= MAX_CLUSTER_JOBS);
        }
    }
    let roots = find_cluster_roots(&clusters);
    (clusters, roots)
}

/// Whether every cluster has one job, and none waits for another.
pub open spec fn trivially_parallel(clusters: Seq<Cluster>, roots: Seq<ClusterId>) -> bool {
    &&& roots.len() == clusters.len()
    &&& forall|cluster: int|
        0 <= cluster < clusters.len() ==> {
            &&& (#[trigger] clusters[cluster]).jobs@.len() == 1
            &&& clusters[cluster].ready_mask_initial == 1
            &&& clusters[cluster].local_successors@.len() == 0
            &&& clusters[cluster].remote_successors@.len() == 0
        }
}

fn is_trivial_parallel_schedule(clusters: &[Cluster], roots: &[ClusterId]) -> (trivial: bool)
    ensures
        trivial == trivially_parallel(clusters@, roots@),
{
    if roots.len() != clusters.len() {
        return false;
    }
    for cluster in 0..clusters.len()
        invariant
            roots@.len() == clusters@.len(),
            forall|at: int|
                0 <= at < cluster ==> {
                    &&& (#[trigger] clusters@[at]).jobs@.len() == 1
                    &&& clusters@[at].ready_mask_initial == 1
                    &&& clusters@[at].local_successors@.len() == 0
                    &&& clusters@[at].remote_successors@.len() == 0
                },
    {
        let found = &clusters[cluster];
        if found.jobs.len() != 1 || found.ready_mask_initial != 1 || found.local_successors.len()
            != 0 || found.remote_successors.len() != 0 {
            assert(clusters@[cluster as int] == *found);
            return false;
        }
    }
    true
}

/// Whether every cluster has one job.
pub open spec fn all_single(clusters: Seq<Cluster>) -> bool {
    forall|cluster: int|
        0 <= cluster < clusters.len() ==> {
            &&& (#[trigger] clusters[cluster]).jobs@.len() == 1
            &&& clusters[cluster].local_successors@.len() == 0
            &&& clusters[cluster].jobs@[0].local_predecessor_mask == 0
        }
}

/// The clusters that wait for each of a list of clusters.
pub open spec fn waiting_clusters(clusters: Seq<Cluster>) -> Seq<Seq<JobId>> {
    clusters.map_values(
        |cluster: Cluster|
            cluster.remote_successors@.map_values(
                |successor: RemoteSuccessor| successor.cluster,
            ),
    )
}

/// How many clusters each of a list of clusters waits for, where each has one job.
pub open spec fn single_waits(clusters: Seq<Cluster>) -> Seq<int> {
    clusters.map_values(|cluster: Cluster| cluster.jobs@[0].external_wait_initial as int)
}

/// Where every cluster has one job, the graph of the clusters.
fn build_singleton_dag(clusters: &[Cluster], roots: &[ClusterId]) -> (dag: Option<Chain>)
    ensures
        match dag {
            Some(chain) => all_single(clusters@) && chain.made_of(
                single_waits(clusters@),
                waiting_clusters(clusters@),
                roots@,
            ),
            None => !all_single(clusters@),
        },
{
    let mut waits: Vec<u32> = Vec::new();
    let mut successors: Vec<Vec<JobId>> = Vec::new();
    for cluster in 0..clusters.len()
        invariant
            waits@.len() == cluster,
            successors@.len() == cluster,
            forall|at: int|
                0 <= at < cluster ==> {
                    &&& (#[trigger] clusters@[at]).jobs@.len() == 1
                    &&& clusters@[at].local_successors@.len() == 0
                    &&& clusters@[at].jobs@[0].local_predecessor_mask == 0
                },
            forall|at: int|
                0 <= at < cluster ==> #[trigger] waits@[at]
                    == clusters@[at].jobs@[0].external_wait_initial,
            forall|at: int|
                0 <= at < cluster ==> (#[trigger] successors@[at])@
                    == clusters@[at].remote_successors@.map_values(
                    |successor: RemoteSuccessor| successor.cluster,
                ),
    {
        let found = &clusters[cluster];
        assert(clusters@[cluster as int] == *found);
        if found.jobs.len() != 1 || found.local_successors.len() != 0
            || found.jobs[0].local_predecessor_mask != 0 {
            return None;
        }
        waits.push(found.jobs[0].external_wait_initial);
        let mut list: Vec<JobId> = Vec::new();
        for index in 0..found.remote_successors.len()
            invariant
                list@ == found.remote_successors@.map_values(
                    |successor: RemoteSuccessor| successor.cluster,
                ).take(index as int),
        {
            let ghost all = found.remote_successors@.map_values(
                |successor: RemoteSuccessor| successor.cluster,
            );
            list.push(found.remote_successors[index].cluster);
            assert(list@ =~= all.take(index + 1));
        }
        assert(list@ =~= found.remote_successors@.map_values(
            |successor: RemoteSuccessor| successor.cluster,
        ));
        successors.push(list);
    }
    let mut starts: Vec<JobId> = Vec::new();
    for index in 0..roots.len()
        invariant
            starts@ == roots@.take(index as int),
    {
        starts.push(roots[index]);
        assert(starts@ =~= roots@.take(index + 1));
    }
    proof {
        assert(starts@ =~= roots@);
        assert(waits@.map_values(|wait: u32| wait as int) =~= single_waits(clusters@));
        assert(contents(successors@) =~= waiting_clusters(clusters@));
    }
    Some(Chain::assemble(waits, &successors, starts))
}

/// A schedule of clusters. Where the jobs can only be run one after the other, or none waits for
/// another, or every cluster has one job, there is a simpler way to run them.
#[derive(Debug)]
pub struct Schedule<R> {
    pub jobs: Vec<R>,
    pub clusters: Vec<Cluster>,
    pub roots: Vec<ClusterId>,
    pub serial_chain: Option<Vec<JobId>>,
    pub trivial_parallel: bool,
    pub singleton_dag: Option<Chain>,
}

/// What a job is worth when it comes to its priority: the numbers by which jobs are told apart, the
/// most important first.
pub open spec fn kernel_worth(stats: JobStats, job: int) -> Seq<int> {
    seq![
        stats.strict_height as int,
        stats.strict_fanout as int,
        stats.relaxed_degree as int,
        stats.hot_write_score as int,
        stats.reads as int,
        stats.writes as int,
        stats.accesses as int,
        -job,
    ]
}

/// What each job is worth.
pub open spec fn kernel_worths(stats: Seq<JobStats>) -> Seq<Seq<int>> {
    Seq::new(stats.len(), |job: int| kernel_worth(stats[job], job))
}

/// Takes the jobs one after the other, each time the one that is worth most among those whose
/// predecessors have been taken.
fn build_priority_order(
    fixed_predecessors: &[Vec<JobId>],
    fixed_successors: &[Vec<JobId>],
    stats: &[JobStats],
) -> (order: Vec<JobId>)
    requires
        fixed_predecessors@.len() <= u32::MAX,
        proper(lists(fixed_predecessors@)),
        backward(lists(fixed_predecessors@)),
        inverted(lists(fixed_predecessors@), lists(fixed_successors@)),
        stats@.len() == fixed_predecessors@.len(),
    ensures
        prioritized(lists(fixed_predecessors@), kernel_worths(stats@), order@),
        permutes(order@, fixed_predecessors@.len() as int),
{
    let mut worths: Vec<Vec<i128>> = Vec::new();
    for job in 0..stats.len()
        invariant
            worths@.len() == job,
            forall|at: int|
                0 <= at < job ==> numbers((#[trigger] worths@[at])@) == kernel_worth(
                    stats@[at],
                    at,
                ),
    {
        let own = stats[job];
        let last: i128 = -(job as i128);
        let worth = vec![
            own.strict_height as i128,
            own.strict_fanout as i128,
            own.relaxed_degree as i128,
            own.hot_write_score,
            own.reads as i128,
            own.writes as i128,
            own.accesses as i128,
            last,
        ];
        assert(numbers(worth@) =~= kernel_worth(own, job as int));
        worths.push(worth);
    }
    proof {
        assert(worths_of(worths@) =~= kernel_worths(stats@));
        assert forall|job: int| 0 <= job < worths@.len() implies (
        #[trigger] worths_of(worths@)[job]).len() == 8 && worths_of(worths@)[job].last()
            == -job by {
            assert(worths_of(worths@)[job] == kernel_worth(stats@[job], job));
        }
    }
    order_by_worth(fixed_predecessors, fixed_successors, &worths, Ghost(8))
}

/// Whether a plan is that of declared jobs.
pub open spec fn kernel_planned(declared: Seq<Seq<DependencyView>>, plan: KernelPlan) -> bool {
    &&& setting_of(declared, Some(KeyView::Identifier(usize::MAX as int)), plan.setting)
    &&& clustered(
        plan.setting,
        plan.orientation.rank,
        plan.grown,
        plan.clusters,
        plan.placements,
    )
    &&& orients(
        plan.setting,
        kernel_worths(plan.setting.stats),
        plan.left_out(),
        plan.orientation,
    )
    &&& renamed(
        plan.orientation.order,
        plan.orientation.rank,
        plan.orientation.before,
        plan.predecessors,
    )
    &&& inverted(plan.predecessors, plan.successors)
    &&& plan.fits()
}

/// The links of the setting of declared jobs are jobs, in order.
proof fn lemma_linked_well(
    declared: Seq<Seq<DependencyView>>,
    unknown_key: Option<KeyView>,
    setting: Setting,
)
    requires
        setting_of(declared, unknown_key, setting),
        proper(setting.predecessors),
    ensures
        setting.linked_well(),
{
    let count = setting.normals.len() as int;
    assert forall|job: int|
        #![trigger setting.neighbors[job]]
        0 <= job < count implies ascending(setting.neighbors[job]) && within(
        setting.neighbors[job],
        count,
    ) by {
        let list = setting.neighbors[job];
        assert forall|index: int| 0 <= index < list.len() implies (#[trigger] list[index])
            < count by {
            assert(list.contains(list[index]));
        }
    }
    assert forall|job: int|
        #![trigger setting.successors[job]]
        0 <= job < count implies ascending(setting.successors[job]) && within(
        setting.successors[job],
        count,
    ) by {
        let list = setting.successors[job];
        assert forall|index: int| 0 <= index < list.len() implies (#[trigger] list[index])
            < count by {
            assert(list.contains(list[index]));
        }
    }
}

impl<R> Schedule<R> {
    /// Whether the schedule is that of a plan, before anything has run.
    pub open spec fn follows(self, plan: KernelPlan, runs: Seq<R>) -> bool {
        &&& self.jobs@ == runs
        &&& self.clusters@.len() == plan.clusters.len()
        &&& forall|cluster: int|
            0 <= cluster < self.clusters@.len() ==> plan.plans_cluster(
                cluster,
                #[trigger] self.clusters@[cluster],
            )
        &&& rooted(self.clusters@, self.roots@)
        &&& match self.serial_chain {
            Some(order) => is_serial(plan.predecessors, order@),
            None => forall|order: Seq<JobId>| !#[trigger] is_serial(plan.predecessors, order),
        }
        &&& self.trivial_parallel == trivially_parallel(self.clusters@, self.roots@)
        &&& match self.singleton_dag {
            Some(chain) => !self.trivial_parallel && all_single(self.clusters@) && chain.made_of(
                single_waits(self.clusters@),
                waiting_clusters(self.clusters@),
                self.roots@,
            ),
            None => self.trivial_parallel || !all_single(self.clusters@),
        }
    }

    /// Compiles jobs, unless the dependencies of one of them clash.
    pub fn compile(jobs: Vec<Job<R>>) -> (result: Result<Self, Error>)
        requires
            jobs@.len() <= u32::MAX,
        ensures
            match result {
                Ok(schedule) => {
                    &&& all_consistent(declarations(jobs@))
                    &&& exists|plan: KernelPlan| #[trigger]
                        kernel_planned(declarations(jobs@), plan) && schedule.follows(
                            plan,
                            payloads(jobs@),
                        )
                },
                Err(error) => jobs_rejected_with(declarations(jobs@), error@),
            },
    {
        let ghost declared = declarations(jobs@);
        let ghost runs_of_jobs = payloads(jobs@);
        let (runs, normals) = match normalize_jobs(jobs) {
            Ok(parts) => parts,
            Err(error) => {
                return Err(error);
            },
        };
        assert(all_consistent(declared));
        let unknown_key = Key::Identifier(usize::MAX);
        let (prepared, Ghost(setting)) = prepare(Ghost(declared), &normals, Some(&unknown_key));
        proof {
            lemma_linked_well(declared, Some(unknown_key@), setting);
        }
        let priority = build_priority_order(
            &prepared.fixed_predecessors,
            &prepared.fixed_successors,
            &prepared.stats,
        );
        let rank = inverse_order(&priority);
        let (cluster_jobs, placements, Ghost(grown)) = build_clusters(
            Ghost(setting),
            &normals,
            &prepared,
            &priority,
            &rank,
        );
        let dynamic = find_dynamic_keys(&normals, &placements);
        let (oriented, Ghost(orientation)) = orient(
            Ghost(setting),
            Ghost(kernel_worths(setting.stats)),
            &normals,
            &prepared,
            &priority,
            &rank,
            &dynamic,
        );
        proof {
            assert forall|place: int| 0 <= place < oriented.before@.len() implies within(
                (#[trigger] oriented.before@[place])@,
                normals@.len() as int,
            ) by {
                assert(orientation.before[place] == oriented.before@[place]@);
            }
        }
        let final_predecessors = rename(&priority, &rank, &oriented.before);
        proof {
            let named = lists(final_predecessors@);
            assert forall|to: int|
                #![trigger named[to]]
                0 <= to < named.len() implies ascending(named[to]) && forall|index: int|
                0 <= index < named[to].len() ==> (#[trigger] named[to][index]) < named.len() by {}
            assert forall|job: int, index: int|
                0 <= job < named.len() && 0 <= index < named[job].len() implies rank@[(
            #[trigger] named[job][index]) as int] < rank@[job] by {
                let other = named[job][index];
                assert(named[job].contains(other));
                let list = orientation.before[rank@[job] as int];
                assert(priority@[rank@[job] as int] == job);
                let at = list.index_of(rank@[other as int]);
                assert(orientation.before[rank@[job] as int][at] < rank@[job]);
            }
        }
        let final_successors = build_successors(&final_predecessors);
        let serial_chain = build_serial_chain(
            Ghost(rank@),
            &final_predecessors,
            &final_successors,
        );
        let ghost plan = KernelPlan {
            setting,
            orientation,
            grown,
            clusters: lists(cluster_jobs@),
            placements: placements@,
            predecessors: lists(final_predecessors@),
            successors: lists(final_successors@),
        };
        proof {
            assert forall|cluster: int| 0 <= cluster < plan.clusters.len() implies 0 < (
            #[trigger] plan.clusters[cluster]).len() <= MAX_CLUSTER_JOBS by {
                assert(setting.grows(rank@, taken(grown, cluster), grown[cluster]));
                assert(plan.clusters[cluster].len() == grown[cluster].len());
            }
            assert(plan.fits());
        }
        let parts = Parts {
            normals: &normals,
            stats: &prepared.stats,
            placements: &placements,
            dynamic: &dynamic,
            rank: &rank,
            heights: &oriented.heights,
            predecessors: &final_predecessors,
            successors: &final_successors,
        };
        let (clusters, roots) = build_compiled_clusters(Ghost(plan), &parts, &cluster_jobs);
        let trivial_parallel = is_trivial_parallel_schedule(&clusters, &roots);
        let singleton_dag = if trivial_parallel {
            None
        } else {
            build_singleton_dag(&clusters, &roots)
        };
        let schedule = Schedule {
            jobs: runs,
            clusters,
            roots,
            serial_chain,
            trivial_parallel,
            singleton_dag,
        };
        assert(kernel_planned(declared, plan));
        assert(schedule.follows(plan, runs_of_jobs));
        Ok(schedule)
    }
}

} // verus!
