//! Clusters: jobs that have much to do with one another, and that are run one at a time.

use crate::dag::{ascending, lists, JobId};
use crate::depend::KeyView;
use crate::keys::KeyMap;
use crate::normalize::{
    normal_relation, relation, sorted_accesses, Access, AccessView, NormalView, NormalizedDeps,
    Relation,
};
use crate::order::{insert_by_key, key_before, ordered_by, within};
use crate::orient::{
    accesses_key, find_access, permutes, ranks, writes_in, KeyHeat, Prepared, Setting,
};
use crate::plan::normal_views;
use vstd::prelude::*;

verus! {

pub type ClusterId = u32;

/// The place of a job in its cluster.
pub type LocalIndex = u8;

/// How many jobs a cluster has room for.
pub const MAX_CLUSTER_JOBS: usize = 16;

/// The place of a job: its cluster, and its place there.
#[derive(Debug, Copy, Clone, PartialEq, Eq, Structural)]
pub struct ClusterPlacement {
    pub cluster: ClusterId,
    pub local: LocalIndex,
}

/// What an access to a key adds to the affinity of the job that makes it to another one.
pub open spec fn key_affinity(
    access: AccessView,
    other: NormalView,
    heat: Map<KeyView, KeyHeat>,
) -> int {
    let own = heat[access.key];
    let hotness = own.touches + 2 * own.writes;
    let writes = writes_in(other, access.key);
    if !accesses_key(other, access.key) || !(access.write || writes) {
        0
    } else if own.touches <= MAX_CLUSTER_JOBS {
        64 + hotness
    } else if access.write && writes {
        24 + own.writes as int / 2
    } else {
        -hotness
    }
}

/// What the first `until` accesses add to the affinity of a job to another one.
pub open spec fn affinity_until(
    accesses: Seq<AccessView>,
    other: NormalView,
    heat: Map<KeyView, KeyHeat>,
    until: int,
) -> int
    decreases until,
{
    if until <= 0 {
        0
    } else {
        affinity_until(accesses, other, heat, until - 1) + key_affinity(
            accesses[until - 1],
            other,
            heat,
        )
    }
}

/// How much two jobs have to do with each other, by the keys that both access and one writes. Keys
/// that many jobs access keep jobs apart, unless both write them.
pub open spec fn affinity(
    left: NormalView,
    right: NormalView,
    heat: Map<KeyView, KeyHeat>,
) -> int {
    match (left, right) {
        (NormalView::Known(accesses), NormalView::Known(_)) => affinity_until(
            accesses,
            right,
            heat,
            accesses.len() as int,
        ),
        _ => 0,
    }
}

/// How much two jobs have to do with each other, by the keys that both access and one writes.
pub fn shared_hot_key_affinity(
    left: &NormalizedDeps,
    right: &NormalizedDeps,
    key_heat: &KeyMap<KeyHeat>,
) -> (score: i128)
    requires
        left@ matches NormalView::Known(accesses) ==> sorted_accesses(accesses),
        right@ matches NormalView::Known(accesses) ==> sorted_accesses(accesses),
        forall|key: KeyView| #[trigger] accesses_key(left@, key) ==> key_heat@.contains_key(key),
    ensures
        score == affinity(left@, right@, key_heat@),
        -0x1_0000_0000_0000_0000_0000_0000_0000 <= score
            <= 0x1_0000_0000_0000_0000_0000_0000_0000,
{
    match (left, right) {
        (NormalizedDeps::Known(accesses), NormalizedDeps::Known(_)) => {
            let ghost list = left@->Known_0;
            let mut score: i128 = 0;
            for index in 0..accesses.len()
                invariant
                    left@ == NormalView::Known(list),
                    list == accesses@.map_values(|access: Access| access@),
                    right@ is Known,
                    right@ matches NormalView::Known(accesses) ==> sorted_accesses(accesses),
                    forall|key: KeyView| #[trigger]
                        accesses_key(left@, key) ==> key_heat@.contains_key(key),
                    score == affinity_until(list, right@, key_heat@, index as int),
                    -0x4_0000_0000 * index <= score <= 0x4_0000_0000 * index,
            {
                let access = &accesses[index];
                assert(list[index as int] == access@);
                assert(accesses_key(left@, access.key@));
                let found = find_access(right, &access.key);
                if let Some(write) = found {
                    if access.write || write {
                        let heat = match key_heat.get(&access.key) {
                            Some(heat) => *heat,
                            None => KeyHeat { touches: 0, writes: 0 },
                        };
                        let footprint: usize = heat.touches as usize;
                        let hotness: i128 = heat.touches as i128 + heat.writes as i128 * 2;
                        if footprint <= MAX_CLUSTER_JOBS {
                            score += 64 + hotness;
                        } else if access.write && write {
                            score += 24 + (heat.writes / 2) as i128;
                        } else {
                            score -= hotness;
                        }
                    }
                }
            }
            score
        },
        _ => 0,
    }
}

/// What a relation adds to the weight of a pair of jobs.
pub open spec fn relation_weight(relation: Relation) -> int {
    match relation {
        Relation::Free => 0,
        Relation::Strict => 48,
        Relation::Relaxed => 24,
    }
}

impl Setting {
    /// How much a job gains by having another one in its cluster.
    pub open spec fn pair_weight(self, left: JobId, right: JobId) -> int {
        let l = self.normals[left as int];
        let r = self.normals[right as int];
        let stats = self.stats[right as int];
        relation_weight(normal_relation(l, r)) + affinity(l, r, self.heat) + stats.strict_height * 8
            + stats.strict_fanout * 4 + stats.writes * 8 + stats.reads * 2
    }

    /// Whether two jobs are linked: as neighbors, as predecessor or as successor.
    pub open spec fn links(self, member: JobId, job: JobId) -> bool {
        ||| self.neighbors[member as int].contains(job)
        ||| self.predecessors[member as int].contains(job)
        ||| self.successors[member as int].contains(job)
    }

    /// The weight of a pair of jobs, once for each way in which they are linked.
    pub open spec fn linked_weight(self, member: JobId, job: JobId) -> int {
        (if self.neighbors[member as int].contains(job) {
            self.pair_weight(member, job)
        } else {
            0
        }) + (if self.predecessors[member as int].contains(job) {
            self.pair_weight(member, job)
        } else {
            0
        }) + (if self.successors[member as int].contains(job) {
            self.pair_weight(member, job)
        } else {
            0
        })
    }

    /// The weight of a job for the first `until` members of a cluster.
    pub open spec fn gathered(self, cluster: Seq<JobId>, job: JobId, until: int) -> int
        decreases until,
    {
        if until <= 0 {
            0
        } else {
            self.gathered(cluster, job, until - 1) + self.linked_weight(cluster[until - 1], job)
        }
    }

    /// What it is worth to add a job to a cluster.
    pub open spec fn score(self, cluster: Seq<JobId>, job: JobId) -> int {
        self.gathered(cluster, job, cluster.len() as int) + self.stats[job as int].strict_height * 8
    }

    /// Whether a job is linked to one of the first `until` members of a cluster.
    pub open spec fn is_linked(self, cluster: Seq<JobId>, job: JobId, until: int) -> bool {
        exists|index: int| 0 <= index < until && self.links(#[trigger] cluster[index], job)
    }

    /// Whether a job may be added to a cluster: it is in no cluster yet, it is linked to a member,
    /// and it is worth something.
    pub open spec fn may_join(
        self,
        cluster: Seq<JobId>,
        assigned: Set<JobId>,
        job: JobId,
    ) -> bool {
        &&& job < self.normals.len()
        &&& !assigned.contains(job)
        &&& self.is_linked(cluster, job, cluster.len() as int)
        &&& self.score(cluster, job) > 0
    }

    /// Whether a job is the one to be added to a cluster: none that may be added is worth more, nor
    /// as much and of a higher priority.
    pub open spec fn joins(
        self,
        rank: Seq<u32>,
        cluster: Seq<JobId>,
        assigned: Set<JobId>,
        job: JobId,
    ) -> bool {
        &&& self.may_join(cluster, assigned, job)
        &&& forall|other: JobId| #[trigger]
            self.may_join(cluster, assigned, other) && other != job ==> self.score(cluster, job)
                > self.score(cluster, other) || self.score(cluster, job) == self.score(
                cluster,
                other,
            ) && rank[job as int] < rank[other as int]
    }

    /// Whether a cluster has grown from the first job that was in none, one job after the other,
    /// until it was full or no job could be added.
    pub open spec fn grows(
        self,
        rank: Seq<u32>,
        assigned: Set<JobId>,
        cluster: Seq<JobId>,
    ) -> bool {
        &&& 0 < cluster.len() <= MAX_CLUSTER_JOBS
        &&& cluster[0] < self.normals.len()
        &&& !assigned.contains(cluster[0])
        &&& forall|job: JobId|
            job < self.normals.len() && !#[trigger] assigned.contains(job) && job != cluster[0]
                ==> rank[cluster[0] as int] < rank[job as int]
        &&& forall|index: int|
            0 < index < cluster.len() ==> self.joins(
                rank,
                cluster.take(index),
                assigned.union(cluster.take(index).to_set()),
                #[trigger] cluster[index],
            )
        &&& cluster.len() < MAX_CLUSTER_JOBS ==> forall|job: JobId| !#[trigger]
            self.may_join(cluster, assigned.union(cluster.to_set()), job)
    }
}

/// The marked jobs.
pub open spec fn marked(marks: Seq<bool>) -> Set<JobId> {
    Set::new(|job: JobId| job < marks.len() && marks[job as int])
}

/// No weight of a pair of jobs is greater than this, nor smaller than this below zero.
pub const WEIGHT_BOUND: i128 = 0x2_0000_0000_0000_0000_0000_0000_0000;

/// How much a job gains by having another one in its cluster.
pub(crate) fn pair_cluster_weight(
    Ghost(setting): Ghost<Setting>,
    normals: &[NormalizedDeps],
    prepared: &Prepared,
    left: JobId,
    right: JobId,
) -> (weight: i128)
    requires
        setting.normals == normal_views(normals@),
        prepared.shows(setting),
        left < normals@.len(),
        right < normals@.len(),
    ensures
        weight == setting.pair_weight(left, right),
        -WEIGHT_BOUND <= weight <= WEIGHT_BOUND,
{
    proof {
        assert(setting.normals[left as int] == normals@[left as int]@);
        assert(setting.normals[right as int] == normals@[right as int]@);
    }
    let relation_score: i128 = match relation(
        &normals[left as usize],
        &normals[right as usize],
    ) {
        Relation::Free => 0,
        Relation::Strict => 48,
        Relation::Relaxed => 24,
    };
    let shared_affinity = shared_hot_key_affinity(
        &normals[left as usize],
        &normals[right as usize],
        &prepared.key_heat,
    );
    let stats = prepared.stats[right as usize];
    relation_score + shared_affinity + stats.strict_height as i128 * 8 + stats.strict_fanout as i128
        * 4 + stats.writes as i128 * 8 + stats.reads as i128 * 2
}

/// Adds the weight of a member to the score of each job of a list that is in no cluster.
fn gather_list(
    Ghost(setting): Ghost<Setting>,
    normals: &[NormalizedDeps],
    prepared: &Prepared,
    member: JobId,
    list: &[JobId],
    assigned: &[bool],
    scores: &mut Vec<i128>,
    found: &mut Vec<bool>,
    Ghost(bound): Ghost<int>,
)
    requires
        setting.normals == normal_views(normals@),
        prepared.shows(setting),
        member < normals@.len() <= u32::MAX,
        ascending(list@),
        within(list@, normals@.len() as int),
        assigned@.len() == normals@.len(),
        old(scores)@.len() == normals@.len(),
        old(found)@.len() == normals@.len(),
        0 <= bound <= 48 * WEIGHT_BOUND,
        forall|job: int|
            0 <= job < old(scores)@.len() ==> -bound <= #[trigger] old(scores)@[job] <= bound,
    ensures
        final(scores)@.len() == normals@.len(),
        final(found)@.len() == normals@.len(),
        forall|job: int|
            #![trigger final(scores)@[job]]
            0 <= job < normals@.len() ==> final(scores)@[job] == old(scores)@[job] + (if
            list@.contains(job as JobId) && !assigned@[job] {
                setting.pair_weight(member, job as JobId)
            } else {
                0
            }) && -bound - WEIGHT_BOUND <= final(scores)@[job] <= bound + WEIGHT_BOUND,
        forall|job: int|
            0 <= job < normals@.len() ==> #[trigger] final(found)@[job] == (old(found)@[job]
                || list@.contains(job as JobId) && !assigned@[job]),
{
    let ghost before = scores@;
    let ghost found_before = found@;
    for index in 0..list.len()
        invariant
            setting.normals == normal_views(normals@),
            prepared.shows(setting),
            member < normals@.len() <= u32::MAX,
            ascending(list@),
            within(list@, normals@.len() as int),
            assigned@.len() == normals@.len(),
            before.len() == normals@.len(),
            found_before.len() == normals@.len(),
            scores@.len() == normals@.len(),
            found@.len() == normals@.len(),
            0 <= bound <= 48 * WEIGHT_BOUND,
            forall|job: int| 0 <= job < before.len() ==> -bound <= #[trigger] before[job] <= bound,
            forall|job: int|
                #![trigger scores@[job]]
                0 <= job < normals@.len() ==> scores@[job] == before[job] + (if list@.take(
                    index as int,
                ).contains(job as JobId) && !assigned@[job] {
                    setting.pair_weight(member, job as JobId)
                } else {
                    0
                }) && -bound - WEIGHT_BOUND <= scores@[job] <= bound + WEIGHT_BOUND,
            forall|job: int|
                0 <= job < normals@.len() ==> #[trigger] found@[job] == (found_before[job]
                    || list@.take(index as int).contains(job as JobId) && !assigned@[job]),
    {
        let candidate = list[index];
        let ghost shorter = list@.take(index as int);
        let ghost longer = list@.take(index + 1);
        let ghost scores_before = scores@;
        let ghost found_now = found@;
        proof {
            assert(longer =~= shorter.push(candidate));
            crate::ready::lemma_push_to_set(shorter, candidate);
            if shorter.contains(candidate) {
                let at = shorter.index_of(candidate);
                assert(list@[at] < list@[index as int]);
            }
        }
        if !assigned[candidate as usize] {
            let weight = pair_cluster_weight(
                Ghost(setting),
                normals,
                prepared,
                member,
                candidate,
            );
            assert(scores@[candidate as int] == before[candidate as int]);
            let score = scores[candidate as usize];
            scores.set(candidate as usize, score + weight);
            found.set(candidate as usize, true);
        }
        assert forall|job: int|
            #![trigger scores@[job]]
            0 <= job < normals@.len() implies scores@[job] == before[job] + (if longer.contains(
            job as JobId,
        ) && !assigned@[job] {
            setting.pair_weight(member, job as JobId)
        } else {
            0
        }) && -bound - WEIGHT_BOUND <= scores@[job] <= bound + WEIGHT_BOUND by {
            assert(scores_before[job] == before[job] + (if shorter.contains(job as JobId)
                && !assigned@[job] {
                setting.pair_weight(member, job as JobId)
            } else {
                0
            }));
        }
        assert forall|job: int| 0 <= job < normals@.len() implies #[trigger] found@[job] == (
        found_before[job] || longer.contains(job as JobId) && !assigned@[job]) by {
            assert(found_now[job] == (found_before[job] || shorter.contains(job as JobId)
                && !assigned@[job]));
        }
    }
    assert(list@.take(list@.len() as int) =~= list@);
}

impl Setting {
    /// Whether scores are those of the jobs in no cluster, for the first `until` members.
    spec fn scored(
        self,
        cluster: Seq<JobId>,
        assigned: Seq<bool>,
        scores: Seq<i128>,
        found: Seq<bool>,
        until: int,
    ) -> bool {
        &&& scores.len() == self.normals.len()
        &&& found.len() == self.normals.len()
        &&& forall|job: int|
            #![trigger scores[job]]
            0 <= job < scores.len() ==> {
                &&& !assigned[job] ==> scores[job] == self.gathered(cluster, job as JobId, until)
                &&& -3 * until * WEIGHT_BOUND <= scores[job] <= 3 * until * WEIGHT_BOUND
            }
        &&& forall|job: int|
            0 <= job < found.len() ==> #[trigger] found[job] == (!assigned[job] && self.is_linked(
                cluster,
                job as JobId,
                until,
            ))
    }
}

/// Scores the jobs that are in no cluster by what they have to do with the members of one.
fn score_candidates(
    Ghost(setting): Ghost<Setting>,
    normals: &[NormalizedDeps],
    prepared: &Prepared,
    cluster: &[JobId],
    assigned: &[bool],
) -> (result: (Vec<i128>, Vec<bool>))
    requires
        setting.normals == normal_views(normals@),
        prepared.shows(setting),
        normals@.len() <= u32::MAX,
        setting.linked_well(),
        within(cluster@, normals@.len() as int),
        cluster@.len() < MAX_CLUSTER_JOBS,
        assigned@.len() == normals@.len(),
    ensures
        setting.scored(cluster@, assigned@, result.0@, result.1@, cluster@.len() as int),
{
    let count: usize = normals.len();
    let mut scores: Vec<i128> = Vec::new();
    let mut found: Vec<bool> = Vec::new();
    scores.resize(count, 0i128);
    found.resize(count, false);
    for index in 0..cluster.len()
        invariant
            setting.normals == normal_views(normals@),
            prepared.shows(setting),
            normals@.len() <= u32::MAX,
            setting.linked_well(),
            within(cluster@, normals@.len() as int),
            cluster@.len() < MAX_CLUSTER_JOBS,
            assigned@.len() == normals@.len(),
            setting.scored(cluster@, assigned@, scores@, found@, index as int),
    {
        let member = cluster[index];
        let ghost at = index as int;
        let ghost bound = 3 * at * WEIGHT_BOUND;
        let ghost first = scores@;
        let ghost first_found = found@;
        proof {
            assert(setting.neighbors[member as int]
                == prepared.relaxed_neighbors@[member as int]@);
            assert(setting.predecessors[member as int]
                == prepared.fixed_predecessors@[member as int]@);
            assert(setting.successors[member as int]
                == prepared.fixed_successors@[member as int]@);
            assert(bound <= 45 * WEIGHT_BOUND) by (nonlinear_arith)
                requires
                    bound == 3 * at * WEIGHT_BOUND,
                    at <= 15,
                    WEIGHT_BOUND >= 0,
            ;
            assert(bound >= 0) by (nonlinear_arith)
                requires
                    bound == 3 * at * WEIGHT_BOUND,
                    at >= 0,
                    WEIGHT_BOUND >= 0,
            ;
            assert(-bound == -3 * at * WEIGHT_BOUND) by (nonlinear_arith)
                requires
                    bound == 3 * at * WEIGHT_BOUND,
            ;
            assert(3 * (at + 1) * WEIGHT_BOUND == bound + 3 * WEIGHT_BOUND) by (nonlinear_arith)
                requires
                    bound == 3 * at * WEIGHT_BOUND,
            ;
            assert(-3 * (at + 1) * WEIGHT_BOUND == -bound - 3 * WEIGHT_BOUND) by (nonlinear_arith)
                requires
                    bound == 3 * at * WEIGHT_BOUND,
            ;
        }
        gather_list(
            Ghost(setting),
            normals,
            prepared,
            member,
            &prepared.relaxed_neighbors[member as usize],
            assigned,
            &mut scores,
            &mut found,
            Ghost(bound),
        );
        let ghost second = scores@;
        let ghost second_found = found@;
        gather_list(
            Ghost(setting),
            normals,
            prepared,
            member,
            &prepared.fixed_predecessors[member as usize],
            assigned,
            &mut scores,
            &mut found,
            Ghost(bound + WEIGHT_BOUND),
        );
        let ghost third = scores@;
        let ghost third_found = found@;
        gather_list(
            Ghost(setting),
            normals,
            prepared,
            member,
            &prepared.fixed_successors[member as usize],
            assigned,
            &mut scores,
            &mut found,
            Ghost(bound + 2 * WEIGHT_BOUND),
        );
        proof {
            assert forall|job: int|
                #![trigger scores@[job]]
                0 <= job < scores@.len() implies (!assigned@[job] ==> scores@[job]
                == setting.gathered(cluster@, job as JobId, at + 1)) && -3 * (at + 1)
                * WEIGHT_BOUND <= scores@[job] <= 3 * (at + 1) * WEIGHT_BOUND by {
                assert(first[job] == first[job]);
                assert(second[job] == second[job]);
                assert(third[job] == third[job]);
            }
            assert forall|job: int| 0 <= job < found@.len() implies #[trigger] found@[job] == (
            !assigned@[job] && setting.is_linked(cluster@, job as JobId, at + 1)) by {
                assert(first_found[job] == (!assigned@[job] && setting.is_linked(
                    cluster@,
                    job as JobId,
                    at,
                )));
                assert(second_found[job] == second_found[job]);
                assert(third_found[job] == third_found[job]);
                if setting.is_linked(cluster@, job as JobId, at) {
                    let earlier = choose|earlier: int|
                        0 <= earlier < at && setting.links(#[trigger] cluster@[earlier], job as JobId);
                    assert(setting.links(cluster@[earlier], job as JobId));
                }
                if setting.links(member, job as JobId) {
                    assert(setting.links(cluster@[at], job as JobId));
                }
            }
        }
    }
    (scores, found)
}

impl Setting {
    /// Whether the neighbors, the predecessors and the successors of each job are jobs, in order.
    pub open spec fn linked_well(self) -> bool {
        let count = self.normals.len() as int;
        &&& self.neighbors.len() == count
        &&& self.predecessors.len() == count
        &&& self.successors.len() == count
        &&& forall|job: int|
            #![trigger self.neighbors[job]]
            0 <= job < count ==> ascending(self.neighbors[job]) && within(
                self.neighbors[job],
                count,
            )
        &&& forall|job: int|
            #![trigger self.predecessors[job]]
            0 <= job < count ==> ascending(self.predecessors[job]) && within(
                self.predecessors[job],
                count,
            )
        &&& forall|job: int|
            #![trigger self.successors[job]]
            0 <= job < count ==> ascending(self.successors[job]) && within(
                self.successors[job],
                count,
            )
    }
}

/// Finds the job to be added to a cluster.
fn find_best(
    Ghost(setting): Ghost<Setting>,
    normals: &[NormalizedDeps],
    prepared: &Prepared,
    order: &[JobId],
    Ghost(rank): Ghost<Seq<u32>>,
    cluster: &[JobId],
    assigned: &[bool],
) -> (best: Option<JobId>)
    requires
        setting.normals == normal_views(normals@),
        prepared.shows(setting),
        normals@.len() <= u32::MAX,
        setting.linked_well(),
        permutes(order@, normals@.len() as int),
        ranks(order@, rank),
        within(cluster@, normals@.len() as int),
        cluster@.len() < MAX_CLUSTER_JOBS,
        assigned@.len() == normals@.len(),
    ensures
        match best {
            Some(job) => setting.joins(rank, cluster@, marked(assigned@), job),
            None => forall|job: JobId| !#[trigger]
                setting.may_join(cluster@, marked(assigned@), job),
        },
{
    let count: usize = normals.len();
    let ghost done = marked(assigned@);
    let (scores, found) = score_candidates(Ghost(setting), normals, prepared, cluster, assigned);
    let ghost members = cluster@.len() as int;
    let mut best: Option<JobId> = None;
    let mut best_score: i128 = 0;
    assert(3 * members * WEIGHT_BOUND <= 48 * WEIGHT_BOUND) by (nonlinear_arith)
        requires
            members <= 16,
            WEIGHT_BOUND >= 0,
    ;
    for place in 0..count
        invariant
            count == normals@.len(),
            count == order@.len(),
            count <= u32::MAX,
            members == cluster@.len(),
            setting.normals == normal_views(normals@),
            prepared.shows(setting),
            permutes(order@, count as int),
            ranks(order@, rank),
            assigned@.len() == count,
            done == marked(assigned@),
            setting.scored(cluster@, assigned@, scores@, found@, members),
            3 * members * WEIGHT_BOUND <= 48 * WEIGHT_BOUND,
            best_score >= 0,
            best is None ==> best_score == 0 && forall|at: int|
                0 <= at < place ==> !setting.may_join(cluster@, done, #[trigger] order@[at]),
            best matches Some(job) ==> {
                &&& setting.may_join(cluster@, done, job)
                &&& best_score == setting.score(cluster@, job)
                &&& rank[job as int] < place
                &&& forall|at: int|
                    0 <= at < place && order@[at] != job && setting.may_join(
                        cluster@,
                        done,
                        #[trigger] order@[at],
                    ) ==> best_score > setting.score(cluster@, order@[at]) || best_score
                        == setting.score(cluster@, order@[at]) && rank[job as int] < at
            },
    {
        let candidate = order[place];
        let ghost at = candidate as int;
        assert(rank[order@[place as int] as int] == place);
        assert(found@[at] == (!assigned@[at] && setting.is_linked(cluster@, candidate, members)));
        if found[candidate as usize] {
            assert(scores@[at] == setting.gathered(cluster@, candidate, members));
            let score: i128 = scores[candidate as usize]
                + prepared.stats[candidate as usize].strict_height as i128 * 8;
            assert(score == setting.score(cluster@, candidate));
            if score > 0 && score > best_score {
                best = Some(candidate);
                best_score = score;
            }
        }
    }
    assert forall|job: JobId| #[trigger] setting.may_join(cluster@, done, job) implies order@[
        rank[job as int] as int] == job && rank[job as int] < count by {
        assert(order@.contains(job));
        assert(rank[job as int] < order@.len());
    }
    best
}

/// What holds of a cluster and the marks holds once the next job has been added.
proof fn lemma_cluster_grows(
    setting: Setting,
    rank: Seq<u32>,
    start: Seq<bool>,
    held: Seq<JobId>,
    marks: Seq<bool>,
    job: JobId,
)
    requires
        start.len() == marks.len(),
        marks.len() == setting.normals.len(),
        marked(marks) == marked(start).union(held.to_set()),
        held.len() > 0,
        held.no_duplicates(),
        within(held, marks.len() as int),
        forall|index: int| 0 <= index < held.len() ==> !start[(#[trigger] held[index]) as int],
        forall|index: int|
            0 < index < held.len() ==> setting.joins(
                rank,
                held.take(index),
                marked(start).union(held.take(index).to_set()),
                #[trigger] held[index],
            ),
        setting.joins(rank, held, marked(marks), job),
    ensures
        ({
            let cluster = held.push(job);
            &&& cluster[0] == held[0]
            &&& cluster.no_duplicates()
            &&& within(cluster, marks.len() as int)
            &&& forall|index: int|
                0 <= index < cluster.len() ==> !start[(#[trigger] cluster[index]) as int]
            &&& marked(marks.update(job as int, true)) == marked(start).union(cluster.to_set())
            &&& forall|index: int|
                0 < index < cluster.len() ==> setting.joins(
                    rank,
                    cluster.take(index),
                    marked(start).union(cluster.take(index).to_set()),
                    #[trigger] cluster[index],
                )
        }),
{
    let cluster = held.push(job);
    let before = marked(start);
    let after = marks.update(job as int, true);
    assert(setting.may_join(held, marked(marks), job));
    assert(!marked(marks).contains(job));
    crate::ready::lemma_push_to_set(held, job);
    assert forall|other: JobId| marked(after).contains(other) == before.union(
        cluster.to_set(),
    ).contains(other) by {
        assert(marked(marks).contains(other) == before.union(held.to_set()).contains(other));
        assert(cluster.to_set().contains(other) == (held.to_set().contains(other) || other == job));
    }
    assert(marked(after) =~= before.union(cluster.to_set()));
    assert(!held.contains(job)) by {
        if held.contains(job) {
            assert(held.to_set().contains(job));
        }
    }
    assert(!start[job as int]) by {
        if start[job as int] {
            assert(before.contains(job));
        }
    }
    assert forall|l: int, r: int|
        0 <= l < cluster.len() && 0 <= r < cluster.len() && l != r implies cluster[l]
        != cluster[r] by {
        if l == held.len() {
            assert(held.contains(held[r]));
        } else if r == held.len() {
            assert(held.contains(held[l]));
        }
    }
    assert forall|index: int| 0 < index < cluster.len() implies setting.joins(
        rank,
        cluster.take(index),
        before.union(cluster.take(index).to_set()),
        #[trigger] cluster[index],
    ) by {
        assert(cluster.take(index) =~= held.take(index));
        if index == held.len() {
            assert(held.take(index) =~= held);
        } else {
            assert(cluster[index] == held[index]);
        }
    }
}

/// Grows a cluster from a job, and marks its members.
#[verifier::rlimit(40)]
fn grow_cluster(
    Ghost(setting): Ghost<Setting>,
    normals: &[NormalizedDeps],
    prepared: &Prepared,
    order: &[JobId],
    Ghost(rank): Ghost<Seq<u32>>,
    seed: JobId,
    assigned: &mut Vec<bool>,
) -> (cluster: Vec<JobId>)
    requires
        setting.normals == normal_views(normals@),
        prepared.shows(setting),
        normals@.len() <= u32::MAX,
        setting.linked_well(),
        permutes(order@, normals@.len() as int),
        ranks(order@, rank),
        old(assigned)@.len() == normals@.len(),
        seed < normals@.len(),
        !old(assigned)@[seed as int],
        forall|job: JobId|
            job < normals@.len() && !#[trigger] marked(old(assigned)@).contains(job) && job != seed
                ==> rank[seed as int] < rank[job as int],
    ensures
        setting.grows(rank, marked(old(assigned)@), cluster@),
        cluster@[0] == seed,
        final(assigned)@.len() == normals@.len(),
        marked(final(assigned)@) == marked(old(assigned)@).union(cluster@.to_set()),
        cluster@.no_duplicates(),
        within(cluster@, normals@.len() as int),
        forall|index: int|
            0 <= index < cluster@.len() ==> !old(
                assigned,
            )@[(#[trigger] cluster@[index]) as int],
{
    let ghost before = marked(assigned@);
    let ghost count = normals@.len() as int;
    let mut cluster: Vec<JobId> = Vec::new();
    cluster.push(seed);
    assigned.set(seed as usize, true);
    let ghost start = old(assigned)@;
    proof {
        assert(cluster@ =~= seq![seed]);
        assert forall|job: JobId| marked(assigned@).contains(job) == before.union(
            cluster@.to_set(),
        ).contains(job) by {
            assert(cluster@.contains(seed)) by {
                assert(cluster@[0] == seed);
            }
        }
        assert(marked(assigned@) =~= before.union(cluster@.to_set()));
    }
    let mut growing = true;
    while growing && cluster.len() < MAX_CLUSTER_JOBS
        invariant
            count == normals@.len(),
            setting.normals == normal_views(normals@),
            prepared.shows(setting),
            normals@.len() <= u32::MAX,
            setting.linked_well(),
            permutes(order@, count),
            ranks(order@, rank),
            start.len() == count,
            before == marked(start),
            assigned@.len() == count,
            0 < cluster@.len() <= MAX_CLUSTER_JOBS,
            cluster@[0] == seed,
            cluster@.no_duplicates(),
            within(cluster@, count),
            forall|index: int|
                0 <= index < cluster@.len() ==> !start[(#[trigger] cluster@[index]) as int],
            marked(assigned@) == before.union(cluster@.to_set()),
            forall|index: int|
                0 < index < cluster@.len() ==> setting.joins(
                    rank,
                    cluster@.take(index),
                    before.union(cluster@.take(index).to_set()),
                    #[trigger] cluster@[index],
                ),
            !growing ==> forall|job: JobId| !#[trigger]
                setting.may_join(cluster@, before.union(cluster@.to_set()), job),
        decreases MAX_CLUSTER_JOBS - cluster@.len(), (if growing { 1int } else { 0int }),
    {
        let found = find_best(
            Ghost(setting),
            normals,
            prepared,
            order,
            Ghost(rank),
            &cluster,
            assigned,
        );
        match found {
            Some(job) => {
                let ghost held = cluster@;
                let ghost held_marks = assigned@;
                assert(setting.may_join(held, marked(assigned@), job));
                assert(!marked(held_marks).contains(job));
                assigned.set(job as usize, true);
                cluster.push(job);
                proof {
                    lemma_cluster_grows(setting, rank, start, held, held_marks, job);
                    assert(cluster@ == held.push(job));
                    assert(assigned@ == held_marks.update(job as int, true));
                }
            },
            None => {
                growing = false;
            },
        }
    }
    assert forall|job: JobId|
        job < setting.normals.len() && !#[trigger] before.contains(job) && job
            != cluster@[0] implies rank[cluster@[0] as int] < rank[job as int] by {}
    cluster
}

/// The jobs that are in one of the first `until` clusters.
pub open spec fn taken(clusters: Seq<Seq<JobId>>, until: int) -> Set<JobId> {
    Set::new(
        |job: JobId|
            exists|cluster: int|
                0 <= cluster < until && (#[trigger] clusters[cluster]).contains(job),
    )
}

/// Whether the jobs of a list are in the order of their ranks.
pub open spec fn rank_ordered(rank: Seq<u32>, list: Seq<JobId>) -> bool {
    forall|left: int, right: int|
        0 <= left < right < list.len() ==> rank[(#[trigger] list[left]) as int] < rank[(
        #[trigger] list[right]) as int]
}

/// Whether each job has its place.
pub open spec fn placed_in(
    clusters: Seq<Seq<JobId>>,
    placements: Seq<ClusterPlacement>,
) -> bool {
    &&& forall|job: int|
        #![trigger placements[job]]
        0 <= job < placements.len() ==> {
            &&& placements[job].cluster < clusters.len()
            &&& placements[job].local < clusters[placements[job].cluster as int].len()
            &&& clusters[placements[job].cluster as int][placements[job].local as int] == job
        }
    &&& forall|cluster: int, local: int|
        0 <= cluster < clusters.len() && 0 <= local < clusters[cluster].len() ==> {
            &&& (#[trigger] clusters[cluster][local]) < placements.len()
            &&& placements[clusters[cluster][local] as int].cluster == cluster
            &&& placements[clusters[cluster][local] as int].local == local
        }
}

/// Whether `clusters` are what has `grown`, one cluster after the other until every job was in one,
/// each with its members in the order of priority.
pub open spec fn clustered(
    setting: Setting,
    rank: Seq<u32>,
    grown: Seq<Seq<JobId>>,
    clusters: Seq<Seq<JobId>>,
    placements: Seq<ClusterPlacement>,
) -> bool {
    &&& clusters.len() == grown.len()
    &&& forall|cluster: int|
        0 <= cluster < grown.len() ==> setting.grows(
            rank,
            taken(grown, cluster),
            #[trigger] grown[cluster],
        )
    &&& forall|job: JobId|
        job < setting.normals.len() ==> #[trigger] taken(grown, grown.len() as int).contains(job)
    &&& forall|cluster: int|
        #![trigger clusters[cluster]]
        0 <= cluster < clusters.len() ==> {
            &&& rank_ordered(rank, clusters[cluster])
            &&& clusters[cluster].len() == grown[cluster].len()
            &&& forall|job: JobId| #[trigger]
                clusters[cluster].contains(job) == grown[cluster].contains(job)
        }
    &&& placements.len() == setting.normals.len()
    &&& placed_in(clusters, placements)
}

/// Puts the members of a cluster in the order of priority.
fn sort_members(keys: &[u64], Ghost(rank): Ghost<Seq<u32>>, cluster: &[JobId]) -> (sorted: Vec<
    JobId,
>)
    requires
        keys@.len() == rank.len(),
        forall|job: int| 0 <= job < rank.len() ==> #[trigger] keys@[job] == rank[job],
        forall|l: int, r: int|
            0 <= l < rank.len() && 0 <= r < rank.len() && l != r ==> #[trigger] rank[l]
                != #[trigger] rank[r],
        cluster@.no_duplicates(),
        within(cluster@, keys@.len() as int),
    ensures
        rank_ordered(rank, sorted@),
        within(sorted@, keys@.len() as int),
        sorted@.len() == cluster@.len(),
        forall|job: JobId| #[trigger] sorted@.contains(job) == cluster@.contains(job),
{
    let mut sorted: Vec<JobId> = Vec::new();
    for index in 0..cluster.len()
        invariant
            cluster@.no_duplicates(),
            within(cluster@, keys@.len() as int),
            within(sorted@, keys@.len() as int),
            ordered_by(keys@, sorted@),
            sorted@.len() == index,
            forall|job: JobId| #[trigger]
                sorted@.contains(job) == cluster@.take(index as int).contains(job),
    {
        let job = cluster[index];
        let ghost shorter = cluster@.take(index as int);
        proof {
            assert(cluster@.take(index + 1) =~= shorter.push(job));
            crate::ready::lemma_push_to_set(shorter, job);
            if shorter.contains(job) {
                let at = shorter.index_of(job);
                assert(cluster@[at] == cluster@[index as int]);
            }
        }
        insert_by_key(keys, &mut sorted, job);
    }
    assert(cluster@.take(cluster@.len() as int) =~= cluster@);
    assert forall|left: int, right: int| 0 <= left < right < sorted@.len() implies rank[(
    #[trigger] sorted@[left]) as int] < rank[(#[trigger] sorted@[right]) as int] by {
        assert(key_before(keys@, sorted@[left], sorted@[right]));
        assert(keys@[sorted@[left] as int] == rank[sorted@[left] as int]);
        assert(keys@[sorted@[right] as int] == rank[sorted@[right] as int]);
    }
    sorted
}

/// Whether the marked jobs are those in a cluster, and have their place there.
spec fn places_marked(
    clusters: Seq<Seq<JobId>>,
    placements: Seq<ClusterPlacement>,
    marks: Seq<bool>,
) -> bool {
    &&& placements.len() == marks.len()
    &&& forall|job: int|
        #![trigger placements[job]]
        0 <= job < placements.len() && marks[job] ==> {
            &&& placements[job].cluster < clusters.len()
            &&& placements[job].local < clusters[placements[job].cluster as int].len()
            &&& clusters[placements[job].cluster as int][placements[job].local as int] == job
        }
    &&& forall|cluster: int, local: int|
        0 <= cluster < clusters.len() && 0 <= local < clusters[cluster].len() ==> {
            &&& (#[trigger] clusters[cluster][local]) < placements.len()
            &&& marks[clusters[cluster][local] as int]
            &&& placements[clusters[cluster][local] as int].cluster == cluster
            &&& placements[clusters[cluster][local] as int].local == local
        }
}

/// Gives the members of a new cluster their places.
fn place_members(
    Ghost(clusters): Ghost<Seq<Seq<JobId>>>,
    Ghost(marks): Ghost<Seq<bool>>,
    Ghost(marks_after): Ghost<Seq<bool>>,
    cluster_id: ClusterId,
    cluster: &[JobId],
    placements: &mut Vec<ClusterPlacement>,
)
    requires
        places_marked(clusters, old(placements)@, marks),
        cluster_id == clusters.len(),
        cluster@.len() <= MAX_CLUSTER_JOBS,
        cluster@.no_duplicates(),
        within(cluster@, marks.len() as int),
        marks.len() <= u32::MAX,
        forall|index: int|
            0 <= index < cluster@.len() ==> !marks[(#[trigger] cluster@[index]) as int],
        marks_after.len() == marks.len(),
        marked(marks_after) == marked(marks).union(cluster@.to_set()),
    ensures
        places_marked(clusters.push(cluster@), final(placements)@, marks_after),
{
    let ghost before = placements@;
    for local in 0..cluster.len()
        invariant
            before.len() == marks.len(),
            placements@.len() == marks.len(),
            cluster@.len() <= MAX_CLUSTER_JOBS,
            cluster@.no_duplicates(),
            within(cluster@, marks.len() as int),
            forall|index: int|
                #![trigger cluster@[index]]
                0 <= index < local ==> placements@[cluster@[index] as int] == (ClusterPlacement {
                    cluster: cluster_id,
                    local: index as LocalIndex,
                }),
            forall|job: int|
                0 <= job < marks.len() && !cluster@.contains(job as JobId)
                    ==> #[trigger] placements@[job] == before[job],
    {
        let job = cluster[local];
        let ghost held = placements@;
        assert(cluster@.contains(job)) by {
            assert(cluster@[local as int] == job);
        }
        placements.set(
            job as usize,
            ClusterPlacement { cluster: cluster_id, local: local as LocalIndex },
        );
        assert forall|index: int|
            #![trigger cluster@[index]]
            0 <= index < local + 1 implies placements@[cluster@[index] as int] == (
        ClusterPlacement { cluster: cluster_id, local: index as LocalIndex }) by {
            if index < local {
                assert(cluster@[index] != cluster@[local as int]);
            }
        }
    }
    proof {
        let longer = clusters.push(cluster@);
        assert forall|job: int|
            #![trigger placements@[job]]
            0 <= job < placements@.len() && marks_after[job] implies {
            &&& placements@[job].cluster < longer.len()
            &&& placements@[job].local < longer[placements@[job].cluster as int].len()
            &&& longer[placements@[job].cluster as int][placements@[job].local as int] == job
        } by {
            assert(marked(marks_after).contains(job as JobId));
            if cluster@.contains(job as JobId) {
                let index = cluster@.index_of(job as JobId);
                assert(cluster@[index] == job);
            } else {
                assert(!cluster@.to_set().contains(job as JobId));
                assert(marked(marks).contains(job as JobId));
                assert(placements@[job] == before[job]);
            }
        }
        assert forall|k: int, local: int|
            0 <= k < longer.len() && 0 <= local < longer[k].len() implies {
            &&& (#[trigger] longer[k][local]) < placements@.len()
            &&& marks_after[longer[k][local] as int]
            &&& placements@[longer[k][local] as int].cluster == k
            &&& placements@[longer[k][local] as int].local == local
        } by {
            let job = longer[k][local];
            if k < clusters.len() {
                assert(clusters[k][local] == job);
                assert(marks[job as int]);
                assert(marked(marks).contains(job));
                assert(marked(marks_after).contains(job));
                if cluster@.contains(job) {
                    let index = cluster@.index_of(job);
                    assert(!marks[cluster@[index] as int]);
                }
                assert(placements@[job as int] == before[job as int]);
            } else {
                assert(cluster@[local] == job);
                assert(cluster@.contains(job));
                assert(cluster@.to_set().contains(job));
                assert(marked(marks_after).contains(job));
            }
        }
    }
}

/// Gathers jobs in clusters.
pub(crate) fn build_clusters(
    Ghost(setting): Ghost<Setting>,
    normals: &[NormalizedDeps],
    prepared: &Prepared,
    order: &[JobId],
    rank: &[u32],
) -> (result: (Vec<Vec<JobId>>, Vec<ClusterPlacement>, Ghost<Seq<Seq<JobId>>>))
    requires
        setting.normals == normal_views(normals@),
        prepared.shows(setting),
        normals@.len() <= u32::MAX,
        setting.linked_well(),
        permutes(order@, normals@.len() as int),
        ranks(order@, rank@),
    ensures
        clustered(setting, rank@, result.2@, lists(result.0@), result.1@),
        result.0@.len() <= normals@.len(),
{
    let count: usize = normals.len();
    let mut assigned: Vec<bool> = Vec::new();
    assigned.resize(count, false);
    let mut placements: Vec<ClusterPlacement> = Vec::new();
    placements.resize(count, ClusterPlacement { cluster: 0, local: 0 });
    let mut keys: Vec<u64> = Vec::new();
    for job in 0..count
        invariant
            count == rank@.len(),
            keys@.len() == job,
            forall|at: int| 0 <= at < job ==> #[trigger] keys@[at] == rank@[at],
    {
        keys.push(rank[job] as u64);
    }
    let mut clusters: Vec<Vec<JobId>> = Vec::new();
    let ghost mut grown: Seq<Seq<JobId>> = Seq::empty();
    proof {
        assert(marked(assigned@) =~= taken(grown, 0));
        assert forall|l: int, r: int|
            0 <= l < rank@.len() && 0 <= r < rank@.len() && l != r implies #[trigger] rank@[l]
            != #[trigger] rank@[r] by {
            assert(order@[rank@[l] as int] == l);
            assert(order@[rank@[r] as int] == r);
        }
    }
    for place in 0..count
        invariant
            count == normals@.len(),
            setting.normals == normal_views(normals@),
            prepared.shows(setting),
            normals@.len() <= u32::MAX,
            setting.linked_well(),
            permutes(order@, count as int),
            ranks(order@, rank@),
            keys@.len() == count,
            forall|at: int| 0 <= at < count ==> #[trigger] keys@[at] == rank@[at],
            forall|l: int, r: int|
                0 <= l < rank@.len() && 0 <= r < rank@.len() && l != r ==> #[trigger] rank@[l]
                    != #[trigger] rank@[r],
            assigned@.len() == count,
            clusters@.len() == grown.len(),
            clusters@.len() <= place,
            marked(assigned@) == taken(grown, grown.len() as int),
            forall|at: int| 0 <= at < place ==> assigned@[(#[trigger] order@[at]) as int],
            forall|cluster: int|
                0 <= cluster < grown.len() ==> setting.grows(
                    rank@,
                    taken(grown, cluster),
                    #[trigger] grown[cluster],
                ),
            forall|cluster: int|
                #![trigger clusters@[cluster]]
                0 <= cluster < clusters@.len() ==> {
                    &&& rank_ordered(rank@, clusters@[cluster]@)
                    &&& clusters@[cluster]@.len() == grown[cluster].len()
                    &&& forall|job: JobId| #[trigger]
                        clusters@[cluster]@.contains(job) == grown[cluster].contains(job)
                },
            places_marked(lists(clusters@), placements@, assigned@),
    {
        let seed = order[place];
        assert(rank@[order@[place as int] as int] == place);
        if !assigned[seed as usize] {
            let ghost marks = assigned@;
            let ghost grown_before = grown;
            let ghost clusters_before = clusters@;
            proof {
                assert forall|job: JobId|
                    job < count && !#[trigger] marked(marks).contains(job) && job
                        != seed implies rank@[seed as int] < rank@[job as int] by {
                    let at = rank@[job as int];
                    assert(order@[at as int] == job);
                    if at < place {
                        assert(marks[order@[at as int] as int]);
                    }
                }
            }
            let cluster = grow_cluster(
                Ghost(setting),
                normals,
                prepared,
                order,
                Ghost(rank@),
                seed,
                &mut assigned,
            );
            let sorted = sort_members(&keys, Ghost(rank@), &cluster);
            proof {
                assert(sorted@.no_duplicates()) by {
                    assert forall|l: int, r: int|
                        0 <= l < sorted@.len() && 0 <= r < sorted@.len() && l
                            != r implies sorted@[l] != sorted@[r] by {
                        if l < r {
                            assert(rank@[sorted@[l] as int] < rank@[sorted@[r] as int]);
                        } else {
                            assert(rank@[sorted@[r] as int] < rank@[sorted@[l] as int]);
                        }
                    }
                }
                assert(sorted@.to_set() =~= cluster@.to_set());
                assert forall|index: int| 0 <= index < sorted@.len() implies !marks[(
                #[trigger] sorted@[index]) as int] by {
                    assert(sorted@.contains(sorted@[index]));
                    assert(cluster@.contains(sorted@[index]));
                    let at = cluster@.index_of(sorted@[index]);
                    assert(!marks[cluster@[at] as int]);
                }
                assert(marks.len() == assigned@.len());
            }
            let cluster_id = clusters.len() as ClusterId;
            place_members(
                Ghost(lists(clusters@)),
                Ghost(marks),
                Ghost(assigned@),
                cluster_id,
                &sorted,
                &mut placements,
            );
            clusters.push(sorted);
            proof {
                grown = grown.push(cluster@);
                assert(lists(clusters@) =~= lists(clusters_before).push(sorted@));
                let end = grown_before.len() as int;
                assert forall|k: int| 0 <= k <= end implies #[trigger] taken(grown, k) == taken(
                    grown_before,
                    k,
                ) by {
                    assert(taken(grown, k) =~= taken(grown_before, k)) by {
                        assert forall|job: JobId| taken(grown, k).contains(job) == taken(
                            grown_before,
                            k,
                        ).contains(job) by {
                            if taken(grown, k).contains(job) {
                                let c = choose|c: int|
                                    0 <= c < k && (#[trigger] grown[c]).contains(job);
                                assert(grown_before[c].contains(job));
                            }
                            if taken(grown_before, k).contains(job) {
                                let c = choose|c: int|
                                    0 <= c < k && (#[trigger] grown_before[c]).contains(job);
                                assert(grown[c].contains(job));
                            }
                        }
                    }
                }
                assert(marked(assigned@) =~= taken(grown, end + 1)) by {
                    assert forall|job: JobId| marked(assigned@).contains(job) == taken(
                        grown,
                        end + 1,
                    ).contains(job) by {
                        assert(taken(grown, end) == taken(grown_before, end));
                        if taken(grown, end + 1).contains(job) {
                            let c = choose|c: int|
                                0 <= c < end + 1 && (#[trigger] grown[c]).contains(job);
                            if c < end {
                                assert(grown_before[c].contains(job));
                            }
                        }
                        if taken(grown_before, end).contains(job) {
                            let c = choose|c: int|
                                0 <= c < end && (#[trigger] grown_before[c]).contains(job);
                            assert(grown[c].contains(job));
                        }
                        if cluster@.contains(job) {
                            assert(grown[end].contains(job));
                        }
                    }
                }
                assert forall|k: int| 0 <= k < grown.len() implies setting.grows(
                    rank@,
                    taken(grown, k),
                    #[trigger] grown[k],
                ) by {
                    assert(taken(grown, k) == taken(grown_before, k));
                    if k < end {
                        assert(grown[k] == grown_before[k]);
                    }
                }
                assert forall|at: int| 0 <= at < place + 1 implies assigned@[(
                #[trigger] order@[at]) as int] by {
                    let job = order@[at];
                    if at < place {
                        assert(marks[order@[at] as int]);
                        assert(marked(marks).contains(job));
                    } else {
                        assert(cluster@[0] == seed);
                        assert(cluster@.to_set().contains(seed));
                    }
                    assert(marked(assigned@).contains(job));
                }
            }
        }
    }
    proof {
        let all = lists(clusters@);
        assert forall|job: JobId| job < count implies assigned@[job as int] by {
            let at = rank@[job as int];
            assert(order@[at as int] == job);
        }
        assert forall|job: JobId| job < setting.normals.len() implies #[trigger] taken(
            grown,
            grown.len() as int,
        ).contains(job) by {
            assert(marked(assigned@).contains(job));
        }
        assert(placed_in(all, placements@));
        assert forall|cluster: int|
            #![trigger all[cluster]]
            0 <= cluster < all.len() implies {
            &&& rank_ordered(rank@, all[cluster])
            &&& all[cluster].len() == grown[cluster].len()
            &&& forall|job: JobId| #[trigger]
                all[cluster].contains(job) == grown[cluster].contains(job)
        } by {
            assert(all[cluster] == clusters@[cluster]@);
        }
    }
    (clusters, placements, Ghost(grown))
}

} // verus!
