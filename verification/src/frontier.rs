//! Schedules that run groups of jobs one after the other, where the groups are built from the jobs
//! that are ready.
//!
//! A group starts from the ready job that most others wait for, and grows by ready jobs that do not
//! conflict with it. Where this does not pay, jobs are placed in the first group that suits them.

use crate::bits::{bit, bit_intersection_count, bit_set, common_bits, lemma_no_bits};
use crate::dag::{
    ascending, backward, build_successors, compute_strict_heights, forward, insert_ascending,
    inverted, lists, measured, proper, reaches, reduce_strict, reduced, JobId,
};
use crate::depend::DependencyView;
use crate::error::Error;
use crate::groups::{
    compile_first_fit_layout, first_fit, free_of, grouped_by, in_order, lemma_first_fit_counts,
    lemma_joined_contains, lemma_joined_distinct, lemma_placement_partitions, partitions, picked,
    regroup, takes, Group, GroupSummary,
};
use crate::job::Job;
use crate::layout::{joined, joined_range, undirected};
use crate::normalize::{normalizes, relation_of, NormalView, NormalizedDeps, Relation};
use crate::order::{
    lemma_distinct_bound, lemma_worth_more, lemma_worth_total, lemma_worth_transitive, within,
    worth_more,
};
use crate::pages::lemma_relaxed_is_undirected;
use crate::plan::{
    all_consistent, all_normalized, declarations, jobs_rejected_with, lemma_reduced_is_proper,
    lemma_strict_is_backward, normal_views, normalize_jobs, payloads, relate_jobs, relaxed_beside,
    strict_jobs_are_connected, strictly_after,
};
use crate::ready::{
    indegrees_tell, is_ready, lemma_missing_shrinks, lemma_push_to_set, lemma_removed,
    lemma_some_ready, release_successors,
};
use crate::waits::{lemma_missing, lemma_nothing_done, lemma_one_done, missing};
use vstd::prelude::*;

verus! {

impl NormalizedDeps {
    /// How many keys a job accesses, where it does not depend on everything.
    pub fn access_count(&self) -> (count: usize)
        ensures
            count == access_count(self@),
    {
        match self {
            NormalizedDeps::Unknown => 0,
            NormalizedDeps::Known(accesses) => accesses.len(),
        }
    }
}

/// How many keys a job accesses, where it does not depend on everything.
pub open spec fn access_count(dependencies: NormalView) -> int {
    match dependencies {
        NormalView::Unknown => 0,
        NormalView::Known(accesses) => accesses.len() as int,
    }
}

/// What groups are built from.
pub struct Field {
    pub declared: Seq<Seq<DependencyView>>,
    pub normals: Seq<NormalView>,
    pub predecessors: Seq<Seq<JobId>>,
    pub neighbors: Seq<Seq<JobId>>,
    pub heights: Seq<u32>,
}

/// How many of the first `until` jobs are neighbors of both of two jobs.
pub open spec fn common_neighbors(
    neighbors: Seq<Seq<JobId>>,
    left: JobId,
    right: JobId,
    until: int,
) -> int
    decreases until,
{
    if until <= 0 {
        0
    } else {
        common_neighbors(neighbors, left, right, until - 1) + (if
        neighbors[left as int].contains((until - 1) as JobId)
            && neighbors[right as int].contains((until - 1) as JobId) {
            1int
        } else {
            0
        })
    }
}

impl Field {
    pub open spec fn count(self) -> int {
        self.declared.len() as int
    }

    /// Whether a job may be placed: it has not been, and its predecessors have.
    pub open spec fn is_ready(self, done: Set<JobId>, job: JobId) -> bool {
        is_ready(self.predecessors, done, job)
    }

    /// How many neighbors of a job have not been placed.
    pub open spec fn open_neighbors(self, done: Set<JobId>, job: JobId) -> int {
        missing(self.neighbors[job as int], done, self.neighbors[job as int].len() as int)
    }

    /// How many neighbors a job has in common with the first `until` jobs of a list, counted for
    /// each of them.
    pub open spec fn overlap(self, job: JobId, picks: Seq<JobId>, until: int) -> int
        decreases until,
    {
        if until <= 0 {
            0
        } else {
            self.overlap(job, picks, until - 1) + common_neighbors(
                self.neighbors,
                job,
                picks[until - 1],
                self.count(),
            )
        }
    }

    /// What a ready job is worth as the start of a group.
    pub open spec fn seed_worth(self, done: Set<JobId>, job: JobId) -> Seq<int> {
        seq![
            self.heights[job as int] as int,
            self.open_neighbors(done, job),
            access_count(self.normals[job as int]),
            -(job as int),
        ]
    }

    /// What a ready job is worth as the next job of a group.
    pub open spec fn candidate_worth(
        self,
        done: Set<JobId>,
        picks: Seq<JobId>,
        job: JobId,
    ) -> Seq<int> {
        seq![
            -self.open_neighbors(done, job),
            self.overlap(job, picks, picks.len() as int),
            self.heights[job as int] as int,
            access_count(self.normals[job as int]),
            -(job as int),
        ]
    }

    /// Whether a job can be the next one of a group.
    pub open spec fn is_candidate(
        self,
        done: Set<JobId>,
        picks: Seq<JobId>,
        job: JobId,
    ) -> bool {
        &&& self.is_ready(done, job)
        &&& !picks.contains(job)
        &&& takes(self.declared, picks.to_set(), job as int)
    }

    /// Whether a group has been picked by worth: its first job is worth most among the ready ones,
    /// and each further job is worth most among those that can be the next one.
    pub open spec fn picked_by_worth(self, done: Set<JobId>, picks: Seq<JobId>) -> bool {
        &&& picks.len() > 0
        &&& self.is_ready(done, picks[0])
        &&& forall|job: JobId| #[trigger]
            self.is_ready(done, job) && job != picks[0] ==> worth_more(
                self.seed_worth(done, picks[0]),
                self.seed_worth(done, job),
            )
        &&& forall|index: int|
            1 <= index < picks.len() ==> self.picked_next(
                done,
                picks.take(index),
                #[trigger] picks[index],
            )
    }

    /// Whether a job is worth most among those that can be the next one of a group.
    pub open spec fn picked_next(
        self,
        done: Set<JobId>,
        picks: Seq<JobId>,
        job: JobId,
    ) -> bool {
        &&& self.is_candidate(done, picks, job)
        &&& forall|other: JobId| #[trigger]
            self.is_candidate(done, picks, other) && other != job ==> worth_more(
                self.candidate_worth(done, picks, job),
                self.candidate_worth(done, picks, other),
            )
    }

    /// Whether `group` is the group that is built next: it is picked by worth, and no job can be
    /// added to it.
    pub open spec fn next_group(self, done: Set<JobId>, group: Seq<JobId>) -> bool {
        ascending(group) && exists|picks: Seq<JobId>| #[trigger]
            self.picked_by_worth(done, picks) && (forall|job: JobId|
                !#[trigger] self.is_candidate(done, picks, job)) && group.to_set()
                == picks.to_set()
    }

    /// Whether `groups` are the groups that are built one after the other until every job is
    /// placed.
    pub open spec fn built(self, groups: Seq<Seq<JobId>>) -> bool {
        &&& forall|group: int|
            0 <= group < groups.len() ==> self.next_group(
                placed_before(groups, group),
                #[trigger] groups[group],
            )
        &&& forall|job: JobId| #[trigger]
            placed_before(groups, groups.len() as int).contains(job) == (job < self.count())
    }
}

/// The jobs of the first `until` groups.
pub open spec fn placed_before(groups: Seq<Seq<JobId>>, until: int) -> Set<JobId> {
    Set::new(
        |job: JobId|
            exists|group: int| 0 <= group < until && (#[trigger] groups[group]).contains(job),
    )
}

/// What a ready job is worth as the start of a group.
fn seed_priority(
    job: JobId,
    access_counts: &[usize],
    remaining_relaxed_degree: &[u32],
    strict_heights: &[u32],
) -> (priority: (u32, u32, usize, JobId))
    requires
        job < access_counts@.len(),
        job < remaining_relaxed_degree@.len(),
        job < strict_heights@.len(),
    ensures
        priority.0 == strict_heights@[job as int],
        priority.1 == remaining_relaxed_degree@[job as int],
        priority.2 == access_counts@[job as int],
        priority.3 == job,
{
    (
        strict_heights[job as usize],
        remaining_relaxed_degree[job as usize],
        access_counts[job as usize],
        job,
    )
}

/// Whether one start of a group is worth more than another.
fn is_better_seed(left: (u32, u32, usize, JobId), right: (u32, u32, usize, JobId)) -> (better: bool)
    ensures
        better == worth_more(
            seq![left.0 as int, left.1 as int, left.2 as int, -(left.3 as int)],
            seq![right.0 as int, right.1 as int, right.2 as int, -(right.3 as int)],
        ),
{
    proof {
        let l = seq![left.0 as int, left.1 as int, left.2 as int, -(left.3 as int)];
        let r = seq![right.0 as int, right.1 as int, right.2 as int, -(right.3 as int)];
        let (l1, r1) = (l.drop_first(), r.drop_first());
        let (l2, r2) = (l1.drop_first(), r1.drop_first());
        let (l3, r3) = (l2.drop_first(), r2.drop_first());
        let (l4, r4) = (l3.drop_first(), r3.drop_first());
        assert(worth_more(l4, r4) == false);
        lemma_worth_more(l3, r3);
        lemma_worth_more(l2, r2);
        lemma_worth_more(l1, r1);
        lemma_worth_more(l, r);
    }
    if left.0 != right.0 {
        left.0 > right.0
    } else if left.1 != right.1 {
        left.1 > right.1
    } else if left.2 != right.2 {
        left.2 > right.2
    } else {
        left.3 < right.3
    }
}

/// Whether one next job of a group is worth more than another.
fn is_better_candidate(
    left: (u32, u64, u32, usize, JobId),
    right: (u32, u64, u32, usize, JobId),
) -> (better: bool)
    ensures
        better == worth_more(
            seq![
                -(left.0 as int),
                left.1 as int,
                left.2 as int,
                left.3 as int,
                -(left.4 as int),
            ],
            seq![
                -(right.0 as int),
                right.1 as int,
                right.2 as int,
                right.3 as int,
                -(right.4 as int),
            ],
        ),
{
    proof {
        let l = seq![
            -(left.0 as int),
            left.1 as int,
            left.2 as int,
            left.3 as int,
            -(left.4 as int),
        ];
        let r = seq![
            -(right.0 as int),
            right.1 as int,
            right.2 as int,
            right.3 as int,
            -(right.4 as int),
        ];
        let (l1, r1) = (l.drop_first(), r.drop_first());
        let (l2, r2) = (l1.drop_first(), r1.drop_first());
        let (l3, r3) = (l2.drop_first(), r2.drop_first());
        let (l4, r4) = (l3.drop_first(), r3.drop_first());
        let (l5, r5) = (l4.drop_first(), r4.drop_first());
        assert(worth_more(l5, r5) == false);
        lemma_worth_more(l4, r4);
        lemma_worth_more(l3, r3);
        lemma_worth_more(l2, r2);
        lemma_worth_more(l1, r1);
        lemma_worth_more(l, r);
    }
    if left.0 != right.0 {
        left.0 < right.0
    } else if left.1 != right.1 {
        left.1 > right.1
    } else if left.2 != right.2 {
        left.2 > right.2
    } else if left.3 != right.3 {
        left.3 > right.3
    } else {
        left.4 < right.4
    }
}

/// Whether sets of bits tell the neighbors of each job.
spec fn sets_tell(neighbors: Seq<Seq<JobId>>, sets: Seq<Vec<u64>>) -> bool {
    &&& sets.len() == neighbors.len()
    &&& forall|job: int|
        #![trigger sets[job]]
        0 <= job < sets.len() ==> sets[job]@.len() == neighbors.len() / 64 + 1 && forall|
            other: int,
        |
            0 <= other < 64 * (neighbors.len() / 64 + 1) ==> #[trigger] bit(sets[job]@, other) == (
            other < neighbors.len() && neighbors[job].contains(other as JobId))
}

/// The neighbors of each job, as sets of bits.
fn build_relaxed_sets(relaxed_neighbors: &[Vec<JobId>]) -> (sets: Vec<Vec<u64>>)
    requires
        relaxed_neighbors@.len() <= u32::MAX,
        undirected(lists(relaxed_neighbors@)),
    ensures
        sets_tell(lists(relaxed_neighbors@), sets@),
{
    let ghost neighbors = lists(relaxed_neighbors@);
    let len: usize = relaxed_neighbors.len();
    let words: usize = len / 64 + 1;
    let mut sets: Vec<Vec<u64>> = Vec::new();
    for job in 0..len
        invariant
            neighbors == lists(relaxed_neighbors@),
            undirected(neighbors),
            len == neighbors.len(),
            len <= u32::MAX,
            words == len / 64 + 1,
            sets@.len() == job,
            forall|at: int|
                #![trigger sets@[at]]
                0 <= at < job ==> sets@[at]@.len() == words && forall|other: int|
                    0 <= other < 64 * words ==> #[trigger] bit(sets@[at]@, other) == (other < len
                        && neighbors[at].contains(other as JobId)),
    {
        let ghost own = neighbors[job as int];
        assert(own == relaxed_neighbors@[job as int]@);
        let mut set: Vec<u64> = Vec::new();
        set.resize(words, 0u64);
        assert forall|other: int| 0 <= other < 64 * words implies !#[trigger] bit(set@, other) by {
            lemma_no_bits(set@, other);
        }
        let degree: usize = relaxed_neighbors[job].len();
        for index in 0..degree
            invariant
                neighbors == lists(relaxed_neighbors@),
                undirected(neighbors),
                len == neighbors.len(),
                len <= u32::MAX,
                words == len / 64 + 1,
                job < len,
                own == neighbors[job as int],
                own == relaxed_neighbors@[job as int]@,
                degree == own.len(),
                set@.len() == words,
                forall|other: int|
                    0 <= other < 64 * words ==> #[trigger] bit(set@, other) == (other < len
                        && own.take(index as int).contains(other as JobId)),
        {
            let ghost before = set@;
            let neighbor = relaxed_neighbors[job][index];
            assert(neighbors[job as int][index as int] == neighbor);
            bit_set(&mut set, neighbor as usize);
            assert forall|other: int| 0 <= other < 64 * words implies #[trigger] bit(set@, other)
                == (other < len && own.take(index + 1).contains(other as JobId)) by {
                let shorter = own.take(index as int);
                let longer = own.take(index + 1);
                assert(longer =~= shorter.push(neighbor));
                assert(bit(before, other) == (other < len && shorter.contains(other as JobId)));
                if shorter.contains(other as JobId) {
                    assert(longer[shorter.index_of(other as JobId)] == other as JobId);
                }
                if other == neighbor {
                    assert(longer[index as int] == other as JobId);
                }
                if longer.contains(other as JobId) && other < len {
                    let at = longer.index_of(other as JobId);
                    if at < index {
                        assert(shorter[at] == other as JobId);
                    }
                }
            }
        }
        assert(own.take(degree as int) =~= own);
        sets.push(set);
    }
    sets
}

proof fn lemma_common_neighbors(
    neighbors: Seq<Seq<JobId>>,
    sets: Seq<Vec<u64>>,
    left: JobId,
    right: JobId,
    until: int,
)
    requires
        sets_tell(neighbors, sets),
        left < neighbors.len(),
        right < neighbors.len(),
        0 <= until <= 64 * (neighbors.len() / 64 + 1),
    ensures
        common_bits(sets[left as int]@, sets[right as int]@, until) == common_neighbors(
            neighbors,
            left,
            right,
            if until < neighbors.len() {
                until
            } else {
                neighbors.len() as int
            },
        ),
    decreases until,
{
    if until > 0 {
        lemma_common_neighbors(neighbors, sets, left, right, until - 1);
        assert(sets[left as int]@.len() == neighbors.len() / 64 + 1);
        assert(sets[right as int]@.len() == neighbors.len() / 64 + 1);
        assert(bit(sets[left as int]@, until - 1) == (until - 1 < neighbors.len()
            && neighbors[left as int].contains((until - 1) as JobId)));
        assert(bit(sets[right as int]@, until - 1) == (until - 1 < neighbors.len()
            && neighbors[right as int].contains((until - 1) as JobId)));
    }
}

proof fn lemma_common_bound(neighbors: Seq<Seq<JobId>>, left: JobId, right: JobId, until: int)
    requires
        0 <= until,
    ensures
        0 <= common_neighbors(neighbors, left, right, until) <= until,
    decreases until,
{
    if until > 0 {
        lemma_common_bound(neighbors, left, right, until - 1);
    }
}

proof fn lemma_overlap_bound(field: Field, job: JobId, picks: Seq<JobId>, until: int)
    requires
        0 <= until <= picks.len(),
    ensures
        0 <= field.overlap(job, picks, until) <= until * field.count(),
    decreases until,
{
    if until > 0 {
        lemma_overlap_bound(field, job, picks, until - 1);
        lemma_common_bound(field.neighbors, job, picks[until - 1], field.count());
        assert((until - 1) * field.count() + field.count() == until * field.count())
            by (nonlinear_arith);
    } else {
        assert(0 * field.count() == 0);
    }
}

/// How many neighbors a job has in common with the jobs of a group, counted for each of them.
fn find_overlap(
    Ghost(field): Ghost<Field>,
    job: JobId,
    group: &[JobId],
    relaxed_sets: &[Vec<u64>],
) -> (overlap: u64)
    requires
        field.count() <= u32::MAX,
        field.neighbors.len() == field.count(),
        sets_tell(field.neighbors, relaxed_sets@),
        job < field.count(),
        within(group@, field.count()),
        group@.len() <= field.count(),
    ensures
        overlap == field.overlap(job, group@, group@.len() as int),
{
    let mut overlap: u64 = 0;
    for index in 0..group.len()
        invariant
            field.count() <= u32::MAX,
            field.neighbors.len() == field.count(),
            sets_tell(field.neighbors, relaxed_sets@),
            job < field.count(),
            within(group@, field.count()),
            group@.len() <= field.count(),
            overlap == field.overlap(job, group@, index as int),
    {
        let member = group[index];
        let ghost count = field.count();
        proof {
            let words = count / 64 + 1;
            assert(relaxed_sets@[job as int]@.len() == words);
            assert(relaxed_sets@[member as int]@.len() == words);
            lemma_common_neighbors(
                field.neighbors,
                relaxed_sets@,
                job,
                member,
                64 * words,
            );
            lemma_overlap_bound(field, job, group@, index + 1);
            assert((index + 1) * count <= u32::MAX * u32::MAX) by (nonlinear_arith)
                requires
                    0 <= index + 1 <= u32::MAX,
                    0 <= count <= u32::MAX,
            ;
        }
        overlap += bit_intersection_count(
            &relaxed_sets[job as usize],
            &relaxed_sets[member as usize],
        );
    }
    overlap
}

/// What is known of the jobs while groups are built.
struct Board<'a> {
    normals: &'a [NormalizedDeps],
    access_counts: &'a [usize],
    relaxed_sets: &'a [Vec<u64>],
    strict_heights: &'a [u32],
}

impl<'a> Board<'a> {
    spec fn shows(self, field: Field) -> bool {
        let count = field.count();
        &&& count <= u32::MAX
        &&& all_normalized(field.declared, self.normals@)
        &&& field.normals == normal_views(self.normals@)
        &&& self.access_counts@.len() == count
        &&& forall|job: int|
            0 <= job < count ==> #[trigger] self.access_counts@[job] == access_count(
                field.normals[job],
            )
        &&& field.neighbors.len() == count
        &&& field.predecessors.len() == count
        &&& sets_tell(field.neighbors, self.relaxed_sets@)
        &&& self.strict_heights@ == field.heights
        &&& field.heights.len() == count
    }
}

/// Whether counts tell how many neighbors of each job that has not been placed have not been placed
/// either.
spec fn degrees_tell(field: Field, done: Set<JobId>, degrees: Seq<u32>) -> bool {
    &&& degrees.len() == field.count()
    &&& forall|job: JobId|
        job < field.count() && !#[trigger] done.contains(job) ==> degrees[job as int]
            == field.open_neighbors(done, job)
}

/// Finds the ready job that is worth most as the start of a group.
fn find_seed(
    Ghost(field): Ghost<Field>,
    Ghost(done): Ghost<Set<JobId>>,
    ready: &[JobId],
    board: &Board,
    remaining_relaxed_degree: &[u32],
) -> (best: usize)
    requires
        board.shows(field),
        degrees_tell(field, done, remaining_relaxed_degree@),
        ready@.len() > 0,
        ready@.no_duplicates(),
        forall|job: JobId| #[trigger] ready@.contains(job) == field.is_ready(done, job),
    ensures
        best < ready@.len(),
        forall|index: int|
            0 <= index < ready@.len() && index != best ==> worth_more(
                field.seed_worth(done, ready@[best as int]),
                field.seed_worth(done, #[trigger] ready@[index]),
            ),
{
    let mut best: usize = 0;
    for index in 1..ready.len()
        invariant
            board.shows(field),
            degrees_tell(field, done, remaining_relaxed_degree@),
            ready@.no_duplicates(),
            forall|job: JobId| #[trigger] ready@.contains(job) == field.is_ready(done, job),
            best < index,
            best < ready@.len(),
            forall|at: int|
                0 <= at < index && at != best ==> worth_more(
                    field.seed_worth(done, ready@[best as int]),
                    field.seed_worth(done, #[trigger] ready@[at]),
                ),
    {
        let left = ready[index];
        let right = ready[best];
        assert(ready@.contains(left) && ready@.contains(right));
        assert(field.is_ready(done, left) && field.is_ready(done, right));
        let ghost l = field.seed_worth(done, left);
        let ghost r = field.seed_worth(done, right);
        let better = is_better_seed(
            seed_priority(
                left,
                board.access_counts,
                remaining_relaxed_degree,
                board.strict_heights,
            ),
            seed_priority(
                right,
                board.access_counts,
                remaining_relaxed_degree,
                board.strict_heights,
            ),
        );
        assert(better == worth_more(l, r));
        proof {
            assert(ready@[index as int] != ready@[best as int]);
            assert(l.last() == -(left as int) && r.last() == -(right as int));
            lemma_worth_total(l, r);
        }
        if better {
            assert forall|at: int| 0 <= at < index + 1 && at != index implies worth_more(
                l,
                field.seed_worth(done, #[trigger] ready@[at]),
            ) by {
                if at != best {
                    lemma_worth_transitive(l, r, field.seed_worth(done, ready@[at]));
                }
            }
            best = index;
        }
    }
    best
}

/// Finds the ready job that is worth most as the next job of a group, among those that the group
/// takes.
fn find_candidate(
    Ghost(field): Ghost<Field>,
    Ghost(done): Ghost<Set<JobId>>,
    ready: &[JobId],
    group: &[JobId],
    summary: &GroupSummary,
    board: &Board,
    remaining_relaxed_degree: &[u32],
) -> (found: Option<usize>)
    requires
        board.shows(field),
        degrees_tell(field, done, remaining_relaxed_degree@),
        ready@.no_duplicates(),
        forall|job: JobId| #[trigger]
            ready@.contains(job) == (field.is_ready(done, job) && !group@.contains(job)),
        summary.tells(field.declared, group@.to_set()),
        within(group@, field.count()),
        group@.len() <= field.count(),
    ensures
        match found {
            None => forall|job: JobId| !#[trigger] field.is_candidate(done, group@, job),
            Some(best) => {
                &&& best < ready@.len()
                &&& field.picked_next(done, group@, ready@[best as int])
            },
        },
{
    let mut found: Option<usize> = None;
    for index in 0..ready.len()
        invariant
            board.shows(field),
            degrees_tell(field, done, remaining_relaxed_degree@),
            ready@.no_duplicates(),
            forall|job: JobId| #[trigger]
                ready@.contains(job) == (field.is_ready(done, job) && !group@.contains(job)),
            summary.tells(field.declared, group@.to_set()),
            within(group@, field.count()),
            group@.len() <= field.count(),
            match found {
                None => forall|at: int|
                    0 <= at < index ==> !field.is_candidate(done, group@, #[trigger] ready@[at]),
                Some(best) => {
                    &&& best < index
                    &&& field.is_candidate(done, group@, ready@[best as int])
                    &&& forall|at: int|
                        0 <= at < index && at != best && field.is_candidate(
                            done,
                            group@,
                            #[trigger] ready@[at],
                        ) ==> worth_more(
                            field.candidate_worth(done, group@, ready@[best as int]),
                            field.candidate_worth(done, group@, ready@[at]),
                        )
                },
            },
    {
        let job = ready[index];
        assert(ready@.contains(job));
        assert(field.is_ready(done, job));
        proof {
            let at = job as int;
            assert(normalizes(field.declared[at], board.normals@[at]@));
        }
        let compatible = summary.is_compatible(
            Ghost(field.declared),
            Ghost(group@.to_set()),
            Ghost(job as int),
            &board.normals[job as usize],
        );
        assert(compatible == field.is_candidate(done, group@, job));
        if compatible {
            match found {
                None => {
                    found = Some(index);
                },
                Some(best) => {
                    let other = ready[best];
                    assert(ready@.contains(other));
                    let ghost l = field.candidate_worth(done, group@, job);
                    let ghost r = field.candidate_worth(done, group@, other);
                    let left = (
                        remaining_relaxed_degree[job as usize],
                        find_overlap(Ghost(field), job, group, board.relaxed_sets),
                        board.strict_heights[job as usize],
                        board.access_counts[job as usize],
                        job,
                    );
                    let right = (
                        remaining_relaxed_degree[other as usize],
                        find_overlap(Ghost(field), other, group, board.relaxed_sets),
                        board.strict_heights[other as usize],
                        board.access_counts[other as usize],
                        other,
                    );
                    let better = is_better_candidate(left, right);
                    assert(better == worth_more(l, r));
                    proof {
                        assert(ready@[index as int] != ready@[best as int]);
                        assert(l.last() == -(job as int) && r.last() == -(other as int));
                        lemma_worth_total(l, r);
                    }
                    if better {
                        assert forall|at: int|
                            0 <= at < index + 1 && at != index && field.is_candidate(
                                done,
                                group@,
                                #[trigger] ready@[at],
                            ) implies worth_more(
                            l,
                            field.candidate_worth(done, group@, ready@[at]),
                        ) by {
                            if at != best {
                                lemma_worth_transitive(
                                    l,
                                    r,
                                    field.candidate_worth(done, group@, ready@[at]),
                                );
                            }
                        }
                        found = Some(index);
                    }
                },
            }
        }
    }
    proof {
        assert forall|job: JobId| #[trigger] field.is_candidate(
            done,
            group@,
            job,
        ) implies ready@.contains(job) by {}
        if found is None {
            assert forall|job: JobId| !#[trigger] field.is_candidate(done, group@, job) by {
                if field.is_candidate(done, group@, job) {
                    let at = ready@.index_of(job);
                    assert(!field.is_candidate(done, group@, ready@[at]));
                }
            }
        } else {
            let best = found->0;
            assert forall|other: JobId| #[trigger]
                field.is_candidate(done, group@, other) && other
                    != ready@[best as int] implies worth_more(
                field.candidate_worth(done, group@, ready@[best as int]),
                field.candidate_worth(done, group@, other),
            ) by {
                let at = ready@.index_of(other);
                assert(ready@[at] == other);
            }
        }
    }
    found
}

/// Takes the jobs of the next group out of the ready ones.
fn build_group(
    Ghost(field): Ghost<Field>,
    Ghost(done): Ghost<Set<JobId>>,
    ready: &mut Vec<JobId>,
    board: &Board,
    remaining_relaxed_degree: &[u32],
) -> (group: Vec<JobId>)
    requires
        board.shows(field),
        degrees_tell(field, done, remaining_relaxed_degree@),
        old(ready)@.len() > 0,
        old(ready)@.no_duplicates(),
        forall|job: JobId| #[trigger] old(ready)@.contains(job) == field.is_ready(done, job),
    ensures
        field.picked_by_worth(done, group@),
        forall|job: JobId| !#[trigger] field.is_candidate(done, group@, job),
        group@.no_duplicates(),
        forall|job: JobId| #[trigger] group@.contains(job) ==> field.is_ready(done, job),
        final(ready)@.no_duplicates(),
        forall|job: JobId| #[trigger]
            final(ready)@.contains(job) == (field.is_ready(done, job) && !group@.contains(job)),
{
    let ghost whole = ready@;
    let seed_index = find_seed(
        Ghost(field),
        Ghost(done),
        ready,
        board,
        remaining_relaxed_degree,
    );
    let seed = ready.swap_remove(seed_index);
    let mut summary = GroupSummary::new();
    proof {
        assert(whole[seed_index as int] == seed);
        assert(whole.contains(seed));
        lemma_removed(whole, seed_index as int, ready@);
        assert forall|job: JobId| #[trigger]
            field.is_ready(done, job) && job != seed implies worth_more(
            field.seed_worth(done, seed),
            field.seed_worth(done, job),
        ) by {
            assert(whole.contains(job));
            let at = whole.index_of(job);
            assert(whole[at] == job);
        }
        let at = seed as int;
        assert(normalizes(field.declared[at], board.normals@[at]@));
        assert(summary.tells(field.declared, Set::empty()));
    }
    summary.insert(
        Ghost(field.declared),
        Ghost(Set::empty()),
        Ghost(seed),
        &board.normals[seed as usize],
    );
    let mut group: Vec<JobId> = vec![seed];
    proof {
        assert(group@ =~= Seq::<JobId>::empty().push(seed));
        lemma_push_to_set(Seq::empty(), seed);
        assert(Seq::<JobId>::empty().to_set() =~= Set::empty());
        assert(group@.to_set() =~= Set::<JobId>::empty().insert(seed));
        assert(group@.contains(seed));
        assert forall|job: JobId| #[trigger] group@.contains(job) implies job == seed by {}
    }
    loop
        invariant
            board.shows(field),
            degrees_tell(field, done, remaining_relaxed_degree@),
            ready@.no_duplicates(),
            forall|job: JobId| #[trigger]
                ready@.contains(job) == (field.is_ready(done, job) && !group@.contains(job)),
            summary.tells(field.declared, group@.to_set()),
            group@.no_duplicates(),
            group@.len() > 0,
            forall|job: JobId| #[trigger] group@.contains(job) ==> field.is_ready(done, job),
            field.picked_by_worth(done, group@),
        ensures
            forall|job: JobId| !#[trigger] field.is_candidate(done, group@, job),
        decreases ready@.len(),
    {
        proof {
            assert forall|index: int| 0 <= index < group@.len() implies (#[trigger] group@[index])
                < field.count() by {
                assert(group@.contains(group@[index]));
            }
            lemma_distinct_bound(group@, field.count());
        }
        match find_candidate(
            Ghost(field),
            Ghost(done),
            ready,
            &group,
            &summary,
            board,
            remaining_relaxed_degree,
        ) {
            None => {
                break ;
            },
            Some(index) => {
                let ghost held = ready@;
                let ghost picks = group@;
                let candidate = ready.swap_remove(index);
                proof {
                    assert(held[index as int] == candidate);
                    assert(held.contains(candidate));
                    lemma_removed(held, index as int, ready@);
                    let at = candidate as int;
                    assert(normalizes(field.declared[at], board.normals@[at]@));
                    lemma_push_to_set(picks, candidate);
                }
                summary.insert(
                    Ghost(field.declared),
                    Ghost(picks.to_set()),
                    Ghost(candidate),
                    &board.normals[candidate as usize],
                );
                group.push(candidate);
                proof {
                    assert(group@ == picks.push(candidate));
                    assert forall|at: int| 1 <= at < group@.len() implies field.picked_next(
                        done,
                        group@.take(at),
                        #[trigger] group@[at],
                    ) by {
                        assert(group@.take(at) =~= picks.take(at));
                        if at < picks.len() {
                            assert(group@[at] == picks[at]);
                        } else {
                            assert(picks.take(at) =~= picks);
                        }
                    }
                    assert(group@[0] == picks[0]);
                    assert(group@.no_duplicates()) by {
                        assert forall|left: int, right: int|
                            0 <= left < group@.len() && 0 <= right < group@.len() && left
                                != right implies group@[left] != group@[right] by {
                            if left == picks.len() {
                                assert(picks.contains(picks[right]));
                            } else if right == picks.len() {
                                assert(picks.contains(picks[left]));
                            }
                        }
                    }
                }
            },
        }
    }
    group
}

/// The jobs of a set and of the first `until` jobs of a list.
spec fn with_first(done: Set<JobId>, group: Seq<JobId>, until: int) -> Set<JobId> {
    done.union(group.take(until).to_set())
}

proof fn lemma_with_next(done: Set<JobId>, group: Seq<JobId>, until: int)
    requires
        0 <= until < group.len(),
    ensures
        with_first(done, group, until + 1) == with_first(done, group, until).insert(group[until]),
{
    let shorter = group.take(until);
    assert(group.take(until + 1) =~= shorter.push(group[until]));
    lemma_push_to_set(shorter, group[until]);
    assert(with_first(done, group, until + 1) =~= with_first(done, group, until).insert(
        group[until],
    ));
}

/// Takes one off the open neighbors of the neighbors of a job that are not placed.
fn close_neighbors(
    Ghost(field): Ghost<Field>,
    Ghost(before): Ghost<Set<JobId>>,
    scheduled: &[bool],
    job: JobId,
    relaxed_neighbors: &[Vec<JobId>],
    degrees: &mut Vec<u32>,
)
    requires
        field.count() <= u32::MAX,
        field.neighbors == lists(relaxed_neighbors@),
        relaxed_neighbors@.len() == field.count(),
        undirected(field.neighbors),
        forall|at: int|
            #![trigger field.neighbors[at]]
            0 <= at < field.count() ==> ascending(field.neighbors[at]),
        job < field.count(),
        !before.contains(job),
        scheduled@.len() == field.count(),
        old(degrees)@.len() == field.count(),
        forall|at: JobId|
            #![trigger scheduled@[at as int]]
            at < field.count() && !scheduled@[at as int] ==> old(degrees)@[at as int]
                == field.open_neighbors(before, at),
    ensures
        final(degrees)@.len() == field.count(),
        forall|at: JobId|
            #![trigger scheduled@[at as int]]
            at < field.count() && !scheduled@[at as int] ==> final(degrees)@[at as int]
                == field.open_neighbors(before.insert(job), at),
{
    let ghost own = field.neighbors[job as int];
    assert(own == relaxed_neighbors@[job as int]@);
    let ghost start = degrees@;
    let length: usize = relaxed_neighbors[job as usize].len();
    for index in 0..length
        invariant
            field.count() <= u32::MAX,
            field.neighbors == lists(relaxed_neighbors@),
            relaxed_neighbors@.len() == field.count(),
            undirected(field.neighbors),
            job < field.count(),
            own == field.neighbors[job as int],
            own == relaxed_neighbors@[job as int]@,
            ascending(own),
            length == own.len(),
            !before.contains(job),
            scheduled@.len() == field.count(),
            start.len() == field.count(),
            forall|at: JobId|
                #![trigger scheduled@[at as int]]
                at < field.count() && !scheduled@[at as int] ==> start[at as int]
                    == field.open_neighbors(before, at),
            degrees@.len() == field.count(),
            forall|at: JobId|
                #![trigger scheduled@[at as int]]
                at < field.count() && !scheduled@[at as int] ==> degrees@[at as int]
                    == start[at as int] - (if own.take(index as int).contains(at) {
                    1int
                } else {
                    0
                }),
    {
        let neighbor = relaxed_neighbors[job as usize][index];
        let ghost shorter = own.take(index as int);
        let ghost longer = own.take(index + 1);
        let ghost middle = degrees@;
        proof {
            assert(field.neighbors[job as int][index as int] == neighbor);
            assert(own.contains(neighbor));
            assert(longer =~= shorter.push(neighbor));
            lemma_push_to_set(shorter, neighbor);
            if shorter.contains(neighbor) {
                let at = shorter.index_of(neighbor);
                assert(own[at] < own[index as int]);
            }
            assert(field.neighbors[neighbor as int].contains(job));
        }
        if !scheduled[neighbor as usize] {
            proof {
                let list = field.neighbors[neighbor as int];
                assert(!scheduled@[neighbor as int]);
                lemma_missing(list, before, list.len() as int);
                if start[neighbor as int] == 0 {
                    let at = list.index_of(job);
                    assert(before.contains(list[at]));
                }
            }
            let degree: u32 = degrees[neighbor as usize];
            degrees.set(neighbor as usize, degree - 1);
        }
        assert forall|at: JobId|
            #![trigger scheduled@[at as int]]
            at < field.count() && !scheduled@[at as int] implies degrees@[at as int]
            == start[at as int] - (if longer.contains(at) {
            1int
        } else {
            0
        }) by {
            assert(longer.contains(at) == (shorter.contains(at) || at == neighbor));
        }
    }
    assert(own.take(length as int) =~= own);
    assert forall|at: JobId|
        #![trigger scheduled@[at as int]]
        at < field.count() && !scheduled@[at as int] implies degrees@[at as int]
        == field.open_neighbors(before.insert(job), at) by {
        let list = field.neighbors[at as int];
        lemma_one_done(list, before, job, list.len() as int);
        assert(list.take(list.len() as int) =~= list);
        assert(own.contains(at) == list.contains(job)) by {
            if own.contains(at) {
                assert(list.contains(job));
            }
            if list.contains(job) {
                assert(own.contains(at));
            }
        }
    }
}

/// Builds groups from the ready jobs until every job is placed.
fn compile_frontier_layout(
    Ghost(field): Ghost<Field>,
    board: &Board,
    predecessors: &[Vec<JobId>],
    successors: &[Vec<JobId>],
    relaxed_neighbors: &[Vec<JobId>],
) -> (groups: Vec<Vec<JobId>>)
    requires
        board.shows(field),
        field.predecessors == lists(predecessors@),
        predecessors@.len() == field.count(),
        proper(field.predecessors),
        backward(field.predecessors),
        inverted(field.predecessors, lists(successors@)),
        field.neighbors == lists(relaxed_neighbors@),
        relaxed_neighbors@.len() == field.count(),
        undirected(field.neighbors),
        forall|at: int|
            #![trigger field.neighbors[at]]
            0 <= at < field.count() ==> ascending(field.neighbors[at]),
    ensures
        field.built(lists(groups@)),
{
    let ghost count = field.count();
    let len: usize = predecessors.len();
    let ghost nothing = Set::<JobId>::empty();
    let mut degrees: Vec<u32> = Vec::new();
    let mut indegree: Vec<u32> = Vec::new();
    let mut ready: Vec<JobId> = Vec::new();
    let mut scheduled: Vec<bool> = Vec::new();
    for job in 0..len
        invariant
            count == field.count(),
            count <= u32::MAX,
            len == count,
            field.predecessors == lists(predecessors@),
            predecessors@.len() == count,
            proper(field.predecessors),
            field.neighbors == lists(relaxed_neighbors@),
            relaxed_neighbors@.len() == count,
            undirected(field.neighbors),
            forall|at: int|
                #![trigger field.neighbors[at]]
                0 <= at < count ==> ascending(field.neighbors[at]),
            nothing == Set::<JobId>::empty(),
            degrees@.len() == job,
            indegree@.len() == job,
            scheduled@.len() == job,
            forall|at: int|
                0 <= at < job ==> #[trigger] degrees@[at] == field.neighbors[at].len(),
            forall|at: int|
                0 <= at < job ==> #[trigger] indegree@[at] == field.predecessors[at].len(),
            forall|at: int| 0 <= at < job ==> !#[trigger] scheduled@[at],
            ready@.no_duplicates(),
            forall|at: JobId| #[trigger]
                ready@.contains(at) == (at < job && field.predecessors[at as int].len() == 0),
    {
        proof {
            let near = field.neighbors[job as int];
            assert(near == relaxed_neighbors@[job as int]@);
            assert(near.no_duplicates());
            assert forall|index: int| 0 <= index < near.len() implies (#[trigger] near[index])
                < count by {
                assert(field.neighbors[job as int][index] < field.neighbors.len());
            }
            lemma_distinct_bound(near, count);
            let before = field.predecessors[job as int];
            assert(before == predecessors@[job as int]@);
            assert(before.no_duplicates());
            lemma_distinct_bound(before, count);
        }
        degrees.push(relaxed_neighbors[job].len() as u32);
        indegree.push(predecessors[job].len() as u32);
        scheduled.push(false);
        if predecessors[job].len() == 0 {
            let ghost held = ready@;
            ready.push(job as JobId);
            proof {
                lemma_push_to_set(held, job as JobId);
                assert forall|l: int, r: int|
                    0 <= l < ready@.len() && 0 <= r < ready@.len() && l != r implies ready@[l]
                    != ready@[r] by {
                    if l == held.len() {
                        assert(held.contains(held[r]));
                    } else if r == held.len() {
                        assert(held.contains(held[l]));
                    }
                }
            }
        }
    }
    let mut groups: Vec<Vec<JobId>> = Vec::new();
    let ghost mut done: Set<JobId> = nothing;
    proof {
        assert(lists(groups@) =~= Seq::<Seq<JobId>>::empty());
        assert(placed_before(lists(groups@), 0) =~= nothing);
        assert forall|at: int| 0 <= at < count implies #[trigger] indegree@[at] == missing(
            field.predecessors[at],
            nothing,
            field.predecessors[at].len() as int,
        ) by {
            lemma_nothing_done(field.predecessors[at], field.predecessors[at].len() as int);
        }
        assert forall|at: JobId| at < count && !#[trigger] nothing.contains(at) implies degrees@[at
            as int] == field.open_neighbors(nothing, at) by {
            lemma_nothing_done(field.neighbors[at as int], field.neighbors[at as int].len() as int);
        }
        assert forall|at: JobId| #[trigger] ready@.contains(at) == field.is_ready(nothing, at) by {
            if at < count {
                lemma_nothing_done(
                    field.predecessors[at as int],
                    field.predecessors[at as int].len() as int,
                );
            }
        }
    }
    let ghost mut order: Seq<JobId> = Seq::empty();
    while ready.len() > 0
        invariant
            board.shows(field),
            count == field.count(),
            len == count,
            field.predecessors == lists(predecessors@),
            predecessors@.len() == count,
            proper(field.predecessors),
            backward(field.predecessors),
            inverted(field.predecessors, lists(successors@)),
            field.neighbors == lists(relaxed_neighbors@),
            relaxed_neighbors@.len() == count,
            undirected(field.neighbors),
            forall|at: int|
                #![trigger field.neighbors[at]]
                0 <= at < count ==> ascending(field.neighbors[at]),
            done == placed_before(lists(groups@), groups@.len() as int),
            forall|job: JobId| #[trigger]
                done.contains(job) ==> job < count && missing(
                    field.predecessors[job as int],
                    done,
                    field.predecessors[job as int].len() as int,
                ) == 0,
            forall|group: int|
                0 <= group < groups@.len() ==> field.next_group(
                    placed_before(lists(groups@), group),
                    #[trigger] lists(groups@)[group],
                ),
            indegrees_tell(field.predecessors, done, indegree@),
            degrees_tell(field, done, degrees@),
            scheduled@.len() == count,
            forall|at: JobId|
                #![trigger scheduled@[at as int]]
                at < count ==> scheduled@[at as int] == done.contains(at),
            ready@.no_duplicates(),
            forall|at: JobId| #[trigger] ready@.contains(at) == field.is_ready(done, at),
            order.no_duplicates(),
            within(order, count),
            order.to_set() == done,
        decreases count - order.len(),
    {
        let ghost before = done;
        let ghost old_groups = lists(groups@);
        let picks = build_group(Ghost(field), Ghost(done), &mut ready, board, &degrees);
        // The jobs of the group, in order.
        let mut group: Vec<JobId> = Vec::new();
        for index in 0..picks.len()
            invariant
                count == field.count(),
                scheduled@.len() == count,
                within(picks@, count),
                ascending(group@),
                forall|at: JobId| #[trigger]
                    group@.contains(at) == picks@.take(index as int).contains(at),
                forall|at: JobId|
                    #![trigger scheduled@[at as int]]
                    at < count ==> scheduled@[at as int] == (before.contains(at) || picks@.take(
                        index as int,
                    ).contains(at)),
        {
            let job = picks[index];
            let ghost shorter = picks@.take(index as int);
            proof {
                assert(picks@.take(index + 1) =~= shorter.push(job));
                lemma_push_to_set(shorter, job);
            }
            insert_ascending(&mut group, job);
            scheduled.set(job as usize, true);
        }
        proof {
            assert(picks@.take(picks@.len() as int) =~= picks@);
            assert(group@.to_set() =~= picks@.to_set()) by {
                assert forall|at: JobId| group@.to_set().contains(at)
                    == picks@.to_set().contains(at) by {
                    assert(group@.contains(at) == picks@.contains(at));
                }
            }
            assert(group@.no_duplicates());
            assert(with_first(before, group@, 0) =~= before) by {
                assert(group@.take(0) =~= Seq::<JobId>::empty());
            }
            assert forall|at: JobId| #[trigger] group@.contains(at) implies field.is_ready(
                before,
                at,
            ) by {
                assert(picks@.contains(at));
            }
            assert forall|at: JobId|
                #![trigger scheduled@[at as int]]
                at < count && !scheduled@[at as int] implies degrees@[at as int]
                == field.open_neighbors(with_first(before, group@, 0), at) by {
                assert(!before.contains(at));
            }
        }
        let ghost left_ready = ready@;
        let mut newly_ready: Vec<JobId> = Vec::new();
        let length: usize = group.len();
        for index in 0..length
            invariant
                count == field.count(),
                count <= u32::MAX,
                length == group@.len(),
                field.predecessors.len() == count,
                proper(field.predecessors),
                inverted(field.predecessors, lists(successors@)),
                field.neighbors == lists(relaxed_neighbors@),
                relaxed_neighbors@.len() == count,
                undirected(field.neighbors),
                forall|at: int|
                    #![trigger field.neighbors[at]]
                    0 <= at < count ==> ascending(field.neighbors[at]),
                group@.no_duplicates(),
                forall|at: JobId| #[trigger]
                    group@.contains(at) ==> field.is_ready(before, at),
                scheduled@.len() == count,
                indegrees_tell(field.predecessors, with_first(before, group@, index as int), indegree@),
                degrees@.len() == count,
                forall|at: JobId|
                    #![trigger scheduled@[at as int]]
                    at < count && !scheduled@[at as int] ==> degrees@[at as int]
                        == field.open_neighbors(with_first(before, group@, index as int), at),
                newly_ready@.no_duplicates(),
                forall|at: int|
                    0 <= at < newly_ready@.len() ==> (#[trigger] newly_ready@[at]) < count
                        && indegree@[newly_ready@[at] as int] == 0,
                forall|at: JobId| #[trigger]
                    newly_ready@.contains(at) == (at < count && missing(
                        field.predecessors[at as int],
                        before,
                        field.predecessors[at as int].len() as int,
                    ) != 0 && missing(
                        field.predecessors[at as int],
                        with_first(before, group@, index as int),
                        field.predecessors[at as int].len() as int,
                    ) == 0),
        {
            let job = group[index];
            let ghost current = with_first(before, group@, index as int);
            let ghost following = with_first(before, group@, index + 1);
            let ghost collected = newly_ready@;
            proof {
                assert(group@.contains(group@[index as int]));
                lemma_with_next(before, group@, index as int);
                if current.contains(job) {
                    let first = group@.take(index as int);
                    let at = first.index_of(job);
                    assert(group@[at] == group@[index as int]);
                }
            }
            close_neighbors(
                Ghost(field),
                Ghost(current),
                &scheduled,
                job,
                relaxed_neighbors,
                &mut degrees,
            );
            release_successors(
                Ghost(field.predecessors),
                Ghost(current),
                job,
                successors,
                &mut indegree,
                &mut newly_ready,
            );
            proof {
                assert forall|at: JobId| #[trigger] newly_ready@.contains(at) == (at < count
                    && missing(
                    field.predecessors[at as int],
                    before,
                    field.predecessors[at as int].len() as int,
                ) != 0 && missing(
                    field.predecessors[at as int],
                    following,
                    field.predecessors[at as int].len() as int,
                ) == 0) by {
                    if at < count {
                        let list = field.predecessors[at as int];
                        let end = list.len() as int;
                        lemma_missing(list, before, end);
                        lemma_missing(list, current, end);
                        lemma_missing(list, following, end);
                        lemma_one_done(list, current, job, end);
                        assert(list.take(end) =~= list);
                        assert(indegree@[at as int] == missing(list, following, end));
                        assert(collected.contains(at) == (missing(list, before, end) != 0
                            && missing(list, current, end) == 0));
                        if list.contains(job) && missing(list, before, end) == 0 {
                            let place = list.index_of(job);
                            assert(before.contains(list[place]));
                        }
                    }
                }
            }
        }
        let ghost added = newly_ready@;
        ready.append(&mut newly_ready);
        groups.push(group);
        proof {
            let all = lists(groups@);
            let last = old_groups.len() as int;
            let following = with_first(before, group@, length as int);
            assert(all =~= old_groups.push(group@));
            assert(group@.take(length as int) =~= group@);
            assert forall|until: int| 0 <= until <= last implies #[trigger] placed_before(all, until)
                == placed_before(old_groups, until) by {
                assert(placed_before(all, until) =~= placed_before(old_groups, until)) by {
                    assert forall|job: JobId| placed_before(all, until).contains(job)
                        == placed_before(old_groups, until).contains(job) by {
                        if placed_before(all, until).contains(job) {
                            let at = choose|at: int|
                                0 <= at < until && (#[trigger] all[at]).contains(job);
                            assert(old_groups[at].contains(job));
                        }
                        if placed_before(old_groups, until).contains(job) {
                            let at = choose|at: int|
                                0 <= at < until && (#[trigger] old_groups[at]).contains(job);
                            assert(all[at].contains(job));
                        }
                    }
                }
            }
            done = placed_before(all, last + 1);
            assert(done =~= following) by {
                assert forall|job: JobId| done.contains(job) == following.contains(job) by {
                    assert(placed_before(all, last) == before);
                    if done.contains(job) {
                        let at = choose|at: int|
                            0 <= at < last + 1 && (#[trigger] all[at]).contains(job);
                        if at < last {
                            assert(placed_before(all, last).contains(job));
                        } else {
                            assert(group@.contains(job));
                        }
                    }
                    if before.contains(job) {
                        let at = choose|at: int|
                            0 <= at < last && (#[trigger] all[at]).contains(job);
                        assert(all[at].contains(job));
                    }
                    if group@.contains(job) {
                        assert(all[last].contains(job));
                    }
                }
            }
            assert forall|at: int| 0 <= at < all.len() implies field.next_group(
                placed_before(all, at),
                #[trigger] all[at],
            ) by {
                if at < last {
                    assert(field.next_group(placed_before(old_groups, at), old_groups[at]));
                } else {
                    assert(field.picked_by_worth(before, picks@));
                    assert(placed_before(all, last) == before);
                }
            }
            assert forall|at: JobId| #[trigger] done.contains(at) implies at < count && missing(
                field.predecessors[at as int],
                done,
                field.predecessors[at as int].len() as int,
            ) == 0 by {
                if !before.contains(at) {
                    assert(group@.contains(at));
                }
                let list = field.predecessors[at as int];
                lemma_missing_shrinks(list, before, following, list.len() as int);
            }
            assert forall|at: JobId|
                #![trigger scheduled@[at as int]]
                at < count implies scheduled@[at as int] == done.contains(at) by {
                assert(group@.contains(at) == picks@.contains(at));
            }
            assert forall|at: JobId| at < count && !#[trigger] done.contains(at) implies degrees@[at
                as int] == field.open_neighbors(done, at) by {
                assert(!scheduled@[at as int]);
            }
            // The ready jobs: those that were left, and those that nothing holds back any more.
            assert(ready@ =~= left_ready + added);
            assert forall|at: JobId| #[trigger] ready@.contains(at) == (left_ready.contains(at)
                || added.contains(at)) by {
                if left_ready.contains(at) {
                    assert(ready@[left_ready.index_of(at)] == at);
                }
                if added.contains(at) {
                    assert(ready@[left_ready.len() + added.index_of(at)] == at);
                }
                if ready@.contains(at) {
                    let place = ready@.index_of(at);
                    if place < left_ready.len() {
                        assert(left_ready[place] == at);
                    } else {
                        assert(added[place - left_ready.len()] == at);
                    }
                }
            }
            assert forall|at: JobId| #[trigger] ready@.contains(at) == field.is_ready(done, at) by {
                if at < count {
                    let list = field.predecessors[at as int];
                    let end = list.len() as int;
                    assert(added.contains(at) == (missing(list, before, end) != 0 && missing(
                        list,
                        following,
                        end,
                    ) == 0));
                    lemma_missing_shrinks(list, before, following, end);
                    if before.contains(at) {
                        assert(missing(list, before, end) == 0);
                    }
                    assert(left_ready.contains(at) == (field.is_ready(before, at)
                        && !picks@.contains(at)));
                    assert(group@.contains(at) == picks@.contains(at));
                }
            }
            assert(ready@.no_duplicates()) by {
                assert forall|l: int, r: int|
                    0 <= l < ready@.len() && 0 <= r < ready@.len() && l != r implies ready@[l]
                    != ready@[r] by {
                    let start = left_ready.len();
                    if l < start && r >= start {
                        assert(left_ready.contains(left_ready[l]));
                        assert(added.contains(added[r - start]));
                    }
                    if r < start && l >= start {
                        assert(left_ready.contains(left_ready[r]));
                        assert(added.contains(added[l - start]));
                    }
                    if l >= start && r >= start {
                        assert(added[l - start] != added[r - start]);
                    }
                }
            }
            let longer = order + group@;
            assert(longer.no_duplicates()) by {
                assert forall|l: int, r: int|
                    0 <= l < longer.len() && 0 <= r < longer.len() && l != r implies longer[l]
                    != longer[r] by {
                    let start = order.len();
                    if l < start && r >= start {
                        assert(order.to_set().contains(order[l]));
                        assert(group@.contains(group@[r - start]));
                    }
                    if r < start && l >= start {
                        assert(order.to_set().contains(order[r]));
                        assert(group@.contains(group@[l - start]));
                    }
                    if l >= start && r >= start {
                        assert(group@[l - start] != group@[r - start]);
                    }
                }
            }
            assert forall|at: int| 0 <= at < longer.len() implies (#[trigger] longer[at])
                < count by {
                if at >= order.len() {
                    assert(group@.contains(group@[at - order.len()]));
                }
            }
            assert(longer.to_set() =~= done) by {
                assert forall|job: JobId| longer.to_set().contains(job) == done.contains(job) by {
                    if order.to_set().contains(job) {
                        assert(longer[order.index_of(job)] == job);
                    }
                    if group@.contains(job) {
                        assert(longer[order.len() + group@.index_of(job)] == job);
                    }
                    if longer.contains(job) {
                        let at = longer.index_of(job);
                        if at < order.len() {
                            assert(order.to_set().contains(order[at]));
                        } else {
                            assert(group@.contains(group@[at - order.len()]));
                        }
                    }
                }
            }
            lemma_distinct_bound(longer, count);
            assert(group@.len() > 0) by {
                assert(picks@.contains(picks@[0]));
                assert(group@.contains(picks@[0]));
            }
            order = longer;
        }
    }
    proof {
        assert forall|job: JobId| #[trigger]
            placed_before(lists(groups@), groups@.len() as int).contains(job) == (job < count) by {
            if job < count && !done.contains(job) {
                let ready_job = lemma_some_ready(field.predecessors, done, job);
                assert(ready@.contains(ready_job));
                let at = ready@.index_of(ready_job);
            }
        }
    }
    groups
}

/// How many rounds it takes to run the first `until` groups with a number of threads.
pub open spec fn waves(groups: Seq<Seq<JobId>>, threads: int, until: int) -> int
    decreases until,
{
    if until <= 0 {
        0
    } else {
        waves(groups, threads, until - 1) + (groups[until - 1].len() + threads - 1) / threads
    }
}

/// The number of jobs of the largest of the first `until` groups.
pub open spec fn widest(groups: Seq<Seq<JobId>>, until: int) -> int
    decreases until,
{
    if until <= 0 {
        0
    } else {
        let before = widest(groups, until - 1);
        if before < groups[until - 1].len() {
            groups[until - 1].len() as int
        } else {
            before
        }
    }
}

/// What groups cost: rounds, then groups, then the size of the largest one.
pub open spec fn layout_cost(groups: Seq<Seq<JobId>>, threads: int) -> Seq<int> {
    let at_least_one = if threads < 1 {
        1
    } else {
        threads
    };
    seq![
        waves(groups, at_least_one, groups.len() as int),
        groups.len() as int,
        widest(groups, groups.len() as int),
    ]
}

/// Whether groups that were built from the ready jobs are to be used: no group has more jobs than
/// there are threads, and they cost less than the other ones.
pub open spec fn prefers_built(
    built: Seq<Seq<JobId>>,
    first_fit: Seq<Seq<JobId>>,
    threads: int,
) -> bool {
    widest(built, built.len() as int) <= threads && worth_more(
        layout_cost(first_fit, threads),
        layout_cost(built, threads),
    )
}

proof fn lemma_round_up(length: int, threads: int)
    requires
        0 <= length,
        1 <= threads,
    ensures
        0 <= (length + threads - 1) / threads <= length,
{
    assert(0 <= (length + threads - 1) / threads <= length) by (nonlinear_arith)
        requires
            0 <= length,
            1 <= threads,
    ;
}

/// What groups cost.
fn layout_score(groups: &[Vec<JobId>], threads: usize, Ghost(count): Ghost<int>) -> (score: (
    usize,
    usize,
    usize,
))
    requires
        0 <= count <= u32::MAX,
        partitions(lists(groups@), count),
    ensures
        layout_cost(lists(groups@), threads as int) == seq![
            score.0 as int,
            score.1 as int,
            score.2 as int,
        ],
{
    let ghost all = lists(groups@);
    let threads: usize = if threads < 1 {
        1
    } else {
        threads
    };
    let mut rounds: usize = 0;
    let mut width: usize = 0;
    proof {
        let order = joined(all, all.len() as int);
        assert forall|index: int| 0 <= index < order.len() implies (#[trigger] order[index])
            < count by {
            assert(order.contains(order[index]));
        }
        lemma_distinct_bound(order, count);
    }
    for group in 0..groups.len()
        invariant
            all == lists(groups@),
            threads >= 1,
            joined(all, all.len() as int).len() <= count <= u32::MAX,
            rounds == waves(all, threads as int, group as int),
            width == widest(all, group as int),
            rounds <= joined(all, group as int).len(),
    {
        let length: usize = groups[group].len();
        proof {
            assert(all[group as int] == groups@[group as int]@);
            lemma_round_up(length as int, threads as int);
            crate::groups::lemma_joined_prefix(all, group + 1, all.len() as int);
        }
        let round: usize = if length == 0 {
            0
        } else {
            (length - 1) / threads + 1
        };
        proof {
            if length > 0 {
                assert((length + threads - 1) / threads as int == (length - 1) / threads as int + 1)
                    by (nonlinear_arith)
                    requires
                        threads >= 1,
                        length >= 1,
                ;
            } else {
                assert((threads - 1) / threads as int == 0) by (nonlinear_arith)
                    requires
                        threads >= 1,
                ;
            }
        }
        rounds += round;
        if width < length {
            width = length;
        }
    }
    (rounds, groups.len(), width)
}

/// Chooses between groups that were built from the ready jobs and groups by first fit.
fn select_group_layout(
    frontier: Vec<Vec<JobId>>,
    first_fit: Vec<Vec<JobId>>,
    threads: usize,
    Ghost(count): Ghost<int>,
) -> (groups: Vec<Vec<JobId>>)
    requires
        0 <= count <= u32::MAX,
        partitions(lists(frontier@), count),
        partitions(lists(first_fit@), count),
    ensures
        groups@ == (if prefers_built(lists(frontier@), lists(first_fit@), threads as int) {
            frontier@
        } else {
            first_fit@
        }),
{
    let built = layout_score(&frontier, threads, Ghost(count));
    let fitted = layout_score(&first_fit, threads, Ghost(count));
    proof {
        let l = seq![fitted.0 as int, fitted.1 as int, fitted.2 as int];
        let r = seq![built.0 as int, built.1 as int, built.2 as int];
        let b = layout_cost(lists(frontier@), threads as int);
        assert(b[2] == r[2]);
        let (l1, r1) = (l.drop_first(), r.drop_first());
        let (l2, r2) = (l1.drop_first(), r1.drop_first());
        let (l3, r3) = (l2.drop_first(), r2.drop_first());
        assert(worth_more(l3, r3) == false);
        lemma_worth_more(l2, r2);
        lemma_worth_more(l1, r1);
        lemma_worth_more(l, r);
    }
    let cheaper = if built.0 != fitted.0 {
        built.0 < fitted.0
    } else if built.1 != fitted.1 {
        built.1 < fitted.1
    } else {
        built.2 < fitted.2
    };
    if built.2 <= threads && cheaper {
        frontier
    } else {
        first_fit
    }
}

/// Whether groups are built from these jobs on this field.
pub open spec fn field_of(declared: Seq<Seq<DependencyView>>, field: Field) -> bool {
    &&& field.declared == declared
    &&& field.normals.len() == declared.len()
    &&& forall|job: int|
        0 <= job < declared.len() ==> normalizes(declared[job], #[trigger] field.normals[job])
    &&& relaxed_beside(declared, field.neighbors)
    &&& exists|candidates: Seq<Seq<JobId>>, successors: Seq<Seq<JobId>>|
        {
            &&& #[trigger] reduced(candidates, field.predecessors)
            &&& strictly_after(declared, candidates)
            &&& #[trigger] inverted(field.predecessors, successors)
            &&& measured(successors, field.heights)
        }
}

/// A job is in one group only.
pub(crate) proof fn lemma_one_group(
    field: Field,
    groups: Seq<Seq<JobId>>,
    left: int,
    right: int,
    job: JobId,
)
    requires
        field.built(groups),
        0 <= left < groups.len(),
        0 <= right < groups.len(),
        groups[left].contains(job),
        groups[right].contains(job),
    ensures
        left == right,
{
    lemma_group_was_ready(field, groups, left, job);
    lemma_group_was_ready(field, groups, right, job);
    if left < right {
        assert(placed_before(groups, right).contains(job));
    }
    if right < left {
        assert(placed_before(groups, left).contains(job));
    }
}

/// The jobs of a group were ready when it was built.
proof fn lemma_group_was_ready(field: Field, groups: Seq<Seq<JobId>>, group: int, job: JobId)
    requires
        field.built(groups),
        0 <= group < groups.len(),
        groups[group].contains(job),
    ensures
        field.is_ready(placed_before(groups, group), job),
{
    let done = placed_before(groups, group);
    assert(field.next_group(done, groups[group]));
    let picks = choose|picks: Seq<JobId>| #[trigger]
        field.picked_by_worth(done, picks) && (forall|job: JobId|
            !#[trigger] field.is_candidate(done, picks, job)) && groups[group].to_set()
            == picks.to_set();
    assert(groups[group].to_set().contains(job));
    assert(picks.to_set().contains(job));
    let at = picks.index_of(job);
    if at > 0 {
        assert(field.picked_next(done, picks.take(at), picks[at]));
    }
}

/// Groups that are built from the ready jobs name each job once.
pub proof fn built_groups_place_each_job_once(field: Field, groups: Seq<Seq<JobId>>)
    requires
        field.built(groups),
    ensures
        partitions(groups, field.count()),
{
    assert forall|group: int| 0 <= group < groups.len() implies (
    #[trigger] groups[group]).no_duplicates() by {
        assert(field.next_group(placed_before(groups, group), groups[group]));
    }
    assert forall|left: int, right: int, job: JobId|
        0 <= left < groups.len() && 0 <= right < groups.len() && #[trigger] groups[left].contains(
            job,
        ) && #[trigger] groups[right].contains(job) implies left == right by {
        lemma_one_group(field, groups, left, right, job);
    }
    lemma_joined_distinct(groups, groups.len() as int);
    let order = joined(groups, groups.len() as int);
    assert forall|job: JobId| #[trigger] order.contains(job) == (job < field.count()) by {
        lemma_joined_contains(groups, groups.len() as int, job);
        assert(placed_before(groups, groups.len() as int).contains(job) == (job < field.count()));
    }
}

/// Groups that are built from the ready jobs keep jobs in the order in which they wait for one
/// another.
proof fn lemma_built_groups_follow_paths(
    field: Field,
    groups: Seq<Seq<JobId>>,
    from: JobId,
    to: JobId,
    left: int,
    right: int,
)
    requires
        field.built(groups),
        field.predecessors.len() == field.count(),
        0 <= left < groups.len(),
        0 <= right < groups.len(),
        groups[left].contains(from),
        groups[right].contains(to),
        reaches(field.predecessors, from as int, to as int),
    ensures
        left < right,
    decreases to,
{
    let list = field.predecessors[to as int];
    let done = placed_before(groups, right);
    let index = choose|index: int|
        0 <= index < list.len() && (#[trigger] field.predecessors[to as int][index]) < to && (
        field.predecessors[to as int][index] == from || reaches(
            field.predecessors,
            from as int,
            field.predecessors[to as int][index] as int,
        ));
    let middle = list[index];
    lemma_group_was_ready(field, groups, right, to);
    lemma_missing(list, done, list.len() as int);
    assert(done.contains(middle));
    let between = choose|group: int|
        0 <= group < right && (#[trigger] groups[group]).contains(middle);
    if middle == from {
        lemma_one_group(field, groups, left, between, from);
    } else {
        lemma_built_groups_follow_paths(field, groups, from, middle, left, between);
    }
}

/// Two strictly related jobs are in groups in the order of their declaration, where the groups are
/// built from the ready jobs.
pub proof fn built_groups_keep_strict_order(
    declared: Seq<Seq<DependencyView>>,
    field: Field,
    groups: Seq<Seq<JobId>>,
    from: JobId,
    to: JobId,
    left: int,
    right: int,
)
    requires
        field_of(declared, field),
        field.built(groups),
        declared.len() <= u32::MAX,
        0 <= left < groups.len(),
        0 <= right < groups.len(),
        groups[left].contains(from),
        groups[right].contains(to),
        from < to < declared.len(),
        relation_of(declared[from as int], declared[to as int]) == Relation::Strict,
    ensures
        left < right,
{
    let (candidates, successors) = choose|
        candidates: Seq<Seq<JobId>>,
        successors: Seq<Seq<JobId>>,
    |
        {
            &&& #[trigger] reduced(candidates, field.predecessors)
            &&& strictly_after(declared, candidates)
            &&& #[trigger] inverted(field.predecessors, successors)
            &&& measured(successors, field.heights)
        };
    strict_jobs_are_connected(
        declared,
        candidates,
        field.predecessors,
        from as int,
        to as int,
    );
    lemma_built_groups_follow_paths(field, groups, from, to, left, right);
}

/// No two jobs of a group conflict, where the groups are built from the ready jobs.
pub proof fn built_groups_do_not_conflict(
    declared: Seq<Seq<DependencyView>>,
    field: Field,
    groups: Seq<Seq<JobId>>,
    group: int,
    from: JobId,
    to: JobId,
)
    requires
        field_of(declared, field),
        field.built(groups),
        declared.len() <= u32::MAX,
        0 <= group < groups.len(),
        groups[group].contains(from),
        groups[group].contains(to),
        from < to < declared.len(),
    ensures
        relation_of(declared[from as int], declared[to as int]) == Relation::Free,
{
    let l = declared[from as int];
    let r = declared[to as int];
    if relation_of(l, r) == Relation::Strict {
        built_groups_keep_strict_order(declared, field, groups, from, to, group, group);
    } else if relation_of(l, r) == Relation::Relaxed {
        let done = placed_before(groups, group);
        assert(field.next_group(done, groups[group]));
        let picks = choose|picks: Seq<JobId>| #[trigger]
            field.picked_by_worth(done, picks) && (forall|job: JobId|
                !#[trigger] field.is_candidate(done, picks, job)) && groups[group].to_set()
                == picks.to_set();
        assert(groups[group].to_set().contains(from) && groups[group].to_set().contains(to));
        assert(picks.to_set().contains(from) && picks.to_set().contains(to));
        let first = picks.index_of(from);
        let second = picks.index_of(to);
        if first < second {
            let before = picks.take(second);
            assert(field.picked_next(done, before, picks[second]));
            assert(before[first] == from);
            assert(before.to_set().contains(from));
            assert(free_of(declared, before.to_set(), to as int));
        } else {
            let before = picks.take(first);
            assert(field.picked_next(done, before, picks[first]));
            assert(before[second] == to);
            assert(before.to_set().contains(to));
            assert(free_of(declared, before.to_set(), from as int));
            lemma_relation_symmetric(l, r);
        }
    }
}

/// Jobs that do not conflict one way do not conflict the other way.
proof fn lemma_relation_symmetric(left: Seq<DependencyView>, right: Seq<DependencyView>)
    requires
        relation_of(right, left) == Relation::Free,
    ensures
        relation_of(left, right) == Relation::Free,
{
    assert forall|l: int, r: int|
        0 <= l < left.len() && 0 <= r < right.len() implies (#[trigger] left[l]).relation(
        #[trigger] right[r],
    ) == Relation::Free by {
        let back = right[r].relation(left[l]);
        assert(left[l].relation(right[r]) == back);
        if back != Relation::Free {
            assert(crate::normalize::some_pair(right, left, back));
        }
    }
}

/// Groups that are built from the ready jobs are in order.
pub proof fn built_groups_are_in_order(
    declared: Seq<Seq<DependencyView>>,
    field: Field,
    groups: Seq<Seq<JobId>>,
)
    requires
        field_of(declared, field),
        field.built(groups),
        declared.len() <= u32::MAX,
    ensures
        in_order(declared, groups),
{
    built_groups_place_each_job_once(field, groups);
    assert forall|left: JobId, right: JobId, first: int, second: int|
        #![trigger groups[first].contains(left), groups[second].contains(right)]
        0 <= first < groups.len() && 0 <= second < groups.len() && groups[first].contains(left)
            && groups[second].contains(right) && left < right < declared.len() implies {
        let relation = relation_of(declared[left as int], declared[right as int]);
        &&& relation != Relation::Free ==> first != second
        &&& relation == Relation::Strict ==> first < second
    } by {
        if first == second {
            built_groups_do_not_conflict(declared, field, groups, first, left, right);
        }
        if relation_of(declared[left as int], declared[right as int]) == Relation::Strict {
            built_groups_keep_strict_order(declared, field, groups, left, right, first, second);
        }
    }
}

/// Jobs in groups that are run one after the other.
#[derive(Debug)]
pub struct Schedule<R> {
    pub jobs: Vec<R>,
    pub groups: Vec<Group>,
}

impl<R> Schedule<R> {
    /// Whether the schedule runs the given groups of jobs.
    pub open spec fn runs_groups(self, runs: Seq<R>, groups: Seq<Seq<JobId>>) -> bool {
        &&& self.jobs@ == picked(runs, joined(groups, groups.len() as int))
        &&& self.groups@.len() == groups.len()
        &&& forall|group: int|
            0 <= group < groups.len() ==> (#[trigger] self.groups@[group]).job_range
                == joined_range(groups, group)
    }

    /// Builds the schedule of jobs for a number of threads, unless the dependencies of one of the
    /// jobs clash.
    pub fn compile(threads: usize, jobs: Vec<Job<R>>) -> (result: Result<Self, Error>)
        requires
            jobs@.len() <= u32::MAX,
        ensures
            match result {
                Ok(schedule) => {
                    &&& all_consistent(declarations(jobs@))
                    &&& exists|
                        field: Field,
                        built: Seq<Seq<JobId>>,
                        placement: Seq<int>,
                        fitted: Seq<Seq<JobId>>,
                    |
                        {
                            &&& field_of(declarations(jobs@), field)
                            &&& #[trigger] field.built(built)
                            &&& placement.len() == jobs@.len()
                            &&& first_fit(declarations(jobs@), placement, jobs@.len() as int)
                            &&& #[trigger] grouped_by(placement, fitted)
                            &&& schedule.runs_groups(
                                payloads(jobs@),
                                if prefers_built(built, fitted, threads as int) {
                                    built
                                } else {
                                    fitted
                                },
                            )
                        }
                },
                Err(error) => jobs_rejected_with(declarations(jobs@), error@),
            },
    {
        let ghost declared = declarations(jobs@);
        let ghost count = jobs@.len() as int;
        let (runs, normals) = match normalize_jobs(jobs) {
            Ok(parts) => parts,
            Err(error) => {
                return Err(error);
            },
        };
        assert(all_consistent(declared));
        let (strict_candidates, relaxed_neighbors) = relate_jobs(Ghost(declared), &normals);
        proof {
            lemma_strict_is_backward(declared, lists(strict_candidates@));
            lemma_relaxed_is_undirected(declared, lists(relaxed_neighbors@));
        }
        let predecessors = reduce_strict(&strict_candidates);
        proof {
            lemma_reduced_is_proper(lists(strict_candidates@), lists(predecessors@));
        }
        let successors = build_successors(&predecessors);
        proof {
            lemma_inverted_is_forward(lists(predecessors@), lists(successors@));
        }
        let strict_heights = compute_strict_heights(&successors);
        let relaxed_sets = build_relaxed_sets(&relaxed_neighbors);
        let mut access_counts: Vec<usize> = Vec::new();
        for job in 0..normals.len()
            invariant
                access_counts@.len() == job,
                forall|at: int|
                    0 <= at < job ==> #[trigger] access_counts@[at] == access_count(
                        normal_views(normals@)[at],
                    ),
        {
            access_counts.push(normals[job].access_count());
        }
        let ghost field = Field {
            declared,
            normals: normal_views(normals@),
            predecessors: lists(predecessors@),
            neighbors: lists(relaxed_neighbors@),
            heights: strict_heights@,
        };
        proof {
            assert forall|job: int| 0 <= job < declared.len() implies normalizes(
                declared[job],
                #[trigger] field.normals[job],
            ) by {
                assert(normalizes(declared[job], normals@[job]@));
            }
            assert(reduced(lists(strict_candidates@), field.predecessors));
            assert(inverted(field.predecessors, lists(successors@)));
            assert(field_of(declared, field));
        }
        let board = Board {
            normals: &normals,
            access_counts: &access_counts,
            relaxed_sets: &relaxed_sets,
            strict_heights: &strict_heights,
        };
        let built = compile_frontier_layout(
            Ghost(field),
            &board,
            &predecessors,
            &successors,
            &relaxed_neighbors,
        );
        let fitted = compile_first_fit_layout(Ghost(declared), &normals);
        let ghost placement = choose|placement: Seq<int>|
            placement.len() == declared.len() && #[trigger] first_fit(
                declared,
                placement,
                declared.len() as int,
            ) && grouped_by(placement, lists(fitted@));
        proof {
            built_groups_place_each_job_once(field, lists(built@));
            lemma_first_fit_counts(declared, placement);
            lemma_placement_partitions(placement, lists(fitted@));
        }
        let groups = select_group_layout(built, fitted, threads, Ghost(count));
        let laid = regroup(runs, &groups);
        let schedule = Schedule { jobs: laid.jobs, groups: laid.groups };
        proof {
            assert(field.built(lists(built@)) && grouped_by(placement, lists(fitted@)));
        }
        Ok(schedule)
    }
}

pub(crate) proof fn lemma_inverted_is_forward(
    predecessors: Seq<Seq<JobId>>,
    successors: Seq<Seq<JobId>>,
)
    requires
        backward(predecessors),
        inverted(predecessors, successors),
        predecessors.len() <= u32::MAX,
    ensures
        forward(successors),
{
    assert forall|from: int, index: int|
        0 <= from < successors.len() && 0 <= index < successors[from].len() implies from < (
    #[trigger] successors[from][index]) < successors.len() by {
        let to = successors[from][index];
        assert(successors[from].contains(to));
        let at = predecessors[to as int].index_of(from as JobId);
        assert(predecessors[to as int][at] < to);
    }
}

} // verus!
