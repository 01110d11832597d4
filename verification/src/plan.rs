//! What the dependencies of a list of jobs ask of their schedule.

use crate::dag::{ascending, backward, lists, proper, reaches, reduced, reduction_keeps_paths, JobId};
use crate::depend::DependencyView;
use crate::error::{Error, ErrorView};
use crate::job::Job;
use crate::normalize::{
    consistent, normal_forms_are_related_as_jobs, normalize_dependencies, normalizes,
    rejected_with, relation, relation_of, NormalView, NormalizedDeps, Relation,
};
use vstd::prelude::*;

verus! {

/// The dependencies of each job.
pub open spec fn declarations<R>(jobs: Seq<Job<R>>) -> Seq<Seq<DependencyView>> {
    jobs.map_values(|job: Job<R>| job.declared())
}

/// What each job is to run.
pub open spec fn payloads<R>(jobs: Seq<Job<R>>) -> Seq<R> {
    jobs.map_values(|job: Job<R>| job.payload())
}

/// Whether no job's dependencies clash among themselves.
pub open spec fn all_consistent(declared: Seq<Seq<DependencyView>>) -> bool {
    forall|job: int| 0 <= job < declared.len() ==> consistent(#[trigger] declared[job])
}

/// Whether `error` is what a list of jobs is rejected with: it is for the first job whose
/// dependencies clash among themselves.
pub open spec fn jobs_rejected_with(
    declared: Seq<Seq<DependencyView>>,
    error: ErrorView,
) -> bool {
    exists|job: int|
        {
            &&& 0 <= job < declared.len()
            &&& rejected_with(#[trigger] declared[job], error)
            &&& all_consistent(declared.take(job))
        }
}

/// The relation between two jobs of a list, whichever of them is declared first.
#[verifier::opaque]
pub open spec fn relation_between(
    declared: Seq<Seq<DependencyView>>,
    left: int,
    right: int,
) -> Relation {
    if left <= right {
        relation_of(declared[left], declared[right])
    } else {
        relation_of(declared[right], declared[left])
    }
}

/// The abstract values of normal forms.
pub open spec fn normal_views(normals: Seq<NormalizedDeps>) -> Seq<NormalView> {
    normals.map_values(|normal: NormalizedDeps| normal@)
}

/// Whether `normals` holds the normal form of each job, and each job has one.
pub open spec fn all_normalized(
    declared: Seq<Seq<DependencyView>>,
    normals: Seq<NormalizedDeps>,
) -> bool {
    &&& normals.len() == declared.len()
    &&& forall|job: int|
        #![trigger declared[job]]
        #![trigger normals[job]]
        0 <= job < declared.len() ==> consistent(declared[job]) && normalizes(
            declared[job],
            normals[job]@,
        )
}

/// Whether `candidates` holds, in order, for each job the earlier jobs that it is strictly related
/// to.
pub open spec fn strictly_after(
    declared: Seq<Seq<DependencyView>>,
    candidates: Seq<Seq<JobId>>,
) -> bool {
    &&& candidates.len() == declared.len()
    &&& forall|to: int|
        #![trigger candidates[to]]
        0 <= to < candidates.len() ==> ascending(candidates[to]) && forall|from: JobId| #[trigger]
            candidates[to].contains(from) == (from < to && relation_between(
                declared,
                from as int,
                to,
            ) == Relation::Strict)
}

/// Whether `neighbors` holds, in order, for each job the jobs that it is related to in a relaxed
/// way.
pub open spec fn relaxed_beside(
    declared: Seq<Seq<DependencyView>>,
    neighbors: Seq<Seq<JobId>>,
) -> bool {
    &&& neighbors.len() == declared.len()
    &&& forall|job: int|
        #![trigger neighbors[job]]
        0 <= job < neighbors.len() ==> ascending(neighbors[job]) && forall|other: JobId| #[trigger]
            neighbors[job].contains(other) == (other < declared.len() && other != job
                && relation_between(declared, other as int, job) == Relation::Relaxed)
}

/// Takes jobs apart and brings their dependencies into normal form.
pub fn normalize_jobs<R>(jobs: Vec<Job<R>>) -> (result: Result<
    (Vec<R>, Vec<NormalizedDeps>),
    Error,
>)
    ensures
        match result {
            Ok((runs, normals)) => {
                &&& runs@ == payloads(jobs@)
                &&& all_normalized(declarations(jobs@), normals@)
            },
            Err(error) => jobs_rejected_with(declarations(jobs@), error@),
        },
{
    let ghost declared = declarations(jobs@);
    let mut runs: Vec<R> = Vec::new();
    let mut normals: Vec<NormalizedDeps> = Vec::new();
    for job in iterator: jobs
        invariant
            iterator.seq() == jobs@,
            declared == declarations(jobs@),
            runs@ == payloads(jobs@).take(iterator.index()),
            normals.len() == iterator.index(),
            forall|at: int|
                #![trigger declared[at]]
                #![trigger normals@[at]]
                0 <= at < iterator.index() ==> consistent(declared[at]) && normalizes(
                    declared[at],
                    normals@[at]@,
                ),
    {
        let ghost index = iterator.index();
        assert(declared[index] == job.declared());
        let (run, dependencies) = job.into_parts();
        match normalize_dependencies(dependencies) {
            Ok(normal) => {
                runs.push(run);
                normals.push(normal);
                assert(runs@ =~= payloads(jobs@).take(index + 1));
            },
            Err(error) => {
                proof {
                    assert(rejected_with(declared[index], error@));
                    assert forall|at: int| 0 <= at < index implies consistent(
                        #[trigger] declared.take(index)[at],
                    ) by {
                        assert(consistent(declared[at]));
                    }
                }
                return Err(error);
            },
        }
    }
    assert(payloads(jobs@).take(jobs@.len() as int) =~= payloads(jobs@));
    Ok((runs, normals))
}

proof fn lemma_push_ascending(list: Seq<JobId>, value: JobId)
    requires
        ascending(list),
        forall|index: int| 0 <= index < list.len() ==> #[trigger] list[index] < value,
    ensures
        ascending(list.push(value)),
        forall|other: JobId| #[trigger]
            list.push(value).contains(other) == (list.contains(other) || other == value),
{
    let longer = list.push(value);
    assert forall|other: JobId| #[trigger] longer.contains(other) == (list.contains(other) || other
        == value) by {
        if list.contains(other) {
            assert(longer[list.index_of(other)] == other);
        }
        if other == value {
            assert(longer[list.len() as int] == other);
        }
    }
}

pub proof fn lemma_relation_is_mutual(
    declared: Seq<Seq<DependencyView>>,
    left: int,
    right: int,
)
    ensures
        relation_between(declared, left, right) == relation_between(declared, right, left),
{
    reveal(relation_between);
}

/// The relation between two jobs of a list.
fn relate_pair(
    Ghost(declared): Ghost<Seq<Seq<DependencyView>>>,
    normals: &[NormalizedDeps],
    left: usize,
    right: usize,
) -> (found: Relation)
    requires
        all_normalized(declared, normals@),
        left < right < normals@.len(),
    ensures
        found == relation_between(declared, left as int, right as int),
{
    proof {
        let l = left as int;
        let r = right as int;
        reveal(relation_between);
        normal_forms_are_related_as_jobs(declared[l], declared[r], normals@[l]@, normals@[r]@);
    }
    relation(&normals[left], &normals[right])
}

/// Finds for each job the earlier jobs that it is strictly related to, and the jobs that it is
/// related to in a relaxed way.
pub(crate) fn relate_jobs(
    Ghost(declared): Ghost<Seq<Seq<DependencyView>>>,
    normals: &[NormalizedDeps],
) -> (related: (Vec<Vec<JobId>>, Vec<Vec<JobId>>))
    requires
        normals@.len() <= u32::MAX,
        all_normalized(declared, normals@),
    ensures
        strictly_after(declared, lists(related.0@)),
        relaxed_beside(declared, lists(related.1@)),
{
    let count: usize = normals.len();
    let mut strict: Vec<Vec<JobId>> = Vec::new();
    let mut relaxed: Vec<Vec<JobId>> = Vec::new();
    for right in 0..count
        invariant
            count == declared.len(),
            count == normals@.len(),
            count <= u32::MAX,
            all_normalized(declared, normals@),
            strict.len() == right,
            relaxed.len() == right,
            forall|to: int|
                #![trigger strict@[to]]
                0 <= to < right ==> ascending(strict@[to]@) && forall|from: JobId| #[trigger]
                    strict@[to]@.contains(from) == (from < to && relation_between(
                        declared,
                        from as int,
                        to,
                    ) == Relation::Strict),
            forall|job: int|
                #![trigger relaxed@[job]]
                0 <= job < right ==> ascending(relaxed@[job]@) && forall|other: JobId| #[trigger]
                    relaxed@[job]@.contains(other) == (other < right && other != job
                        && relation_between(declared, other as int, job) == Relation::Relaxed),
    {
        let mut before_right: Vec<JobId> = Vec::new();
        let mut beside_right: Vec<JobId> = Vec::new();
        for left in 0..right
            invariant
                count == declared.len(),
                count == normals@.len(),
                count <= u32::MAX,
                right < count,
                all_normalized(declared, normals@),
                relaxed.len() == right,
                forall|job: int|
                    #![trigger relaxed@[job]]
                    0 <= job < right ==> ascending(relaxed@[job]@) && forall|other: JobId|
                        #[trigger]
                        relaxed@[job]@.contains(other) == (other != job && (other < right || other
                            == right && job < left) && relation_between(
                            declared,
                            other as int,
                            job,
                        ) == Relation::Relaxed),
                ascending(before_right@),
                forall|from: JobId| #[trigger]
                    before_right@.contains(from) == (from < left && relation_between(
                        declared,
                        from as int,
                        right as int,
                    ) == Relation::Strict),
                ascending(beside_right@),
                forall|from: JobId| #[trigger]
                    beside_right@.contains(from) == (from < left && relation_between(
                        declared,
                        from as int,
                        right as int,
                    ) == Relation::Relaxed),
        {
            let ghost l = left as int;
            let ghost before = relaxed@;
            proof {
                assert forall|index: int| 0 <= index < before_right.len() implies #[trigger]
                    before_right@[index] < left as JobId by {
                    assert(before_right@.contains(before_right@[index]));
                }
                assert forall|index: int| 0 <= index < beside_right.len() implies #[trigger]
                    beside_right@[index] < left as JobId by {
                    assert(beside_right@.contains(beside_right@[index]));
                }
                assert forall|index: int| 0 <= index < before[l]@.len() implies #[trigger]
                    before[l]@[index] < right as JobId by {
                    assert(before[l]@.contains(before[l]@[index]));
                }
                lemma_relation_is_mutual(declared, l, right as int);
                lemma_push_ascending(before_right@, left as JobId);
                lemma_push_ascending(beside_right@, left as JobId);
                lemma_push_ascending(before[l]@, right as JobId);
            }
            match relate_pair(Ghost(declared), normals, left, right) {
                Relation::Free => {},
                Relation::Relaxed => {
                    relaxed[left].push(right as JobId);
                    beside_right.push(left as JobId);
                },
                Relation::Strict => {
                    before_right.push(left as JobId);
                },
            }
            assert forall|job: int|
                #![trigger relaxed@[job]]
                0 <= job < right implies ascending(relaxed@[job]@) && forall|other: JobId| #[trigger]
                relaxed@[job]@.contains(other) == (other != job && (other < right || other == right
                    && job < left + 1) && relation_between(declared, other as int, job)
                    == Relation::Relaxed) by {
                if job != l {
                    assert(relaxed@[job] == before[job]);
                }
            }
        }
        let ghost before = relaxed@;
        strict.push(before_right);
        relaxed.push(beside_right);
        assert forall|job: int|
            #![trigger relaxed@[job]]
            0 <= job < right + 1 implies ascending(relaxed@[job]@) && forall|other: JobId| #[trigger]
            relaxed@[job]@.contains(other) == (other < right + 1 && other != job
                && relation_between(declared, other as int, job) == Relation::Relaxed) by {
            if job < right {
                assert(relaxed@[job] == before[job]);
            }
        }
    }
    proof {
        let strict_lists = lists(strict@);
        let relaxed_lists = lists(relaxed@);
        assert forall|to: int|
            #![trigger strict_lists[to]]
            0 <= to < count implies ascending(strict_lists[to]) && forall|from: JobId| #[trigger]
            strict_lists[to].contains(from) == (from < to && relation_between(
                declared,
                from as int,
                to,
            ) == Relation::Strict) by {
            assert(strict_lists[to] == strict@[to]@);
        }
        assert forall|job: int|
            #![trigger relaxed_lists[job]]
            0 <= job < count implies ascending(relaxed_lists[job]) && forall|other: JobId|
            #[trigger]
            relaxed_lists[job].contains(other) == (other < declared.len() && other != job
                && relation_between(declared, other as int, job) == Relation::Relaxed) by {
            assert(relaxed_lists[job] == relaxed@[job]@);
        }
    }
    (strict, relaxed)
}

/// The lists of strictly earlier jobs lead backward.
pub proof fn lemma_strict_is_backward(
    declared: Seq<Seq<DependencyView>>,
    candidates: Seq<Seq<JobId>>,
)
    requires
        strictly_after(declared, candidates),
    ensures
        backward(candidates),
{
    assert forall|to: int, index: int|
        0 <= to < candidates.len() && 0 <= index < candidates[to].len() implies (
    #[trigger] candidates[to][index]) < to by {
        assert(candidates[to].contains(candidates[to][index]));
    }
}

/// A reduced graph leads backward, and names each predecessor once.
pub proof fn lemma_reduced_is_proper(
    candidates: Seq<Seq<JobId>>,
    predecessors: Seq<Seq<JobId>>,
)
    requires
        backward(candidates),
        reduced(candidates, predecessors),
    ensures
        proper(predecessors),
        backward(predecessors),
{
    assert forall|to: int, index: int|
        0 <= to < predecessors.len() && 0 <= index < predecessors[to].len() implies (
    #[trigger] predecessors[to][index]) < to by {
        let job = predecessors[to][index];
        assert(predecessors[to].contains(job));
        let at = choose|at: int| #[trigger]
            crate::dag::essential(candidates, to, at) && candidates[to][at] == job;
        assert(candidates[to][at] < to);
    }
    assert forall|to: int|
        #![trigger predecessors[to]]
        0 <= to < predecessors.len() implies ascending(predecessors[to]) && forall|index: int|
        0 <= index < predecessors[to].len() ==> (#[trigger] predecessors[to][index])
            < predecessors.len() by {}
}

/// Between any two strictly related jobs a path leads from the one that is declared first to the
/// other, in what is left of the strict relations when they are reduced; and every path leads from
/// an earlier to a later job.
pub proof fn strict_jobs_are_connected(
    declared: Seq<Seq<DependencyView>>,
    candidates: Seq<Seq<JobId>>,
    predecessors: Seq<Seq<JobId>>,
    left: int,
    right: int,
)
    requires
        strictly_after(declared, candidates),
        reduced(candidates, predecessors),
        0 <= left < right < declared.len(),
        left <= u32::MAX,
        relation_of(declared[left], declared[right]) == Relation::Strict,
    ensures
        reaches(predecessors, left, right),
{
    reveal(relation_between);
    lemma_strict_is_backward(declared, candidates);
    assert(candidates[right].contains(left as JobId));
    let index = candidates[right].index_of(left as JobId);
    crate::dag::lemma_reaches_edge(candidates, left, right, index);
    reduction_keeps_paths(candidates, predecessors, left, right);
}

} // verus!
