//! Jobs that wait for nothing any more.

use crate::dag::{ascending, backward, inverted, lists, proper, JobId};
use crate::waits::{lemma_missing, lemma_one_done, missing};
use vstd::prelude::*;

verus! {

/// Whether a job is not done, and all its predecessors are.
pub open spec fn is_ready(predecessors: Seq<Seq<JobId>>, done: Set<JobId>, job: JobId) -> bool {
    &&& job < predecessors.len()
    &&& !done.contains(job)
    &&& missing(predecessors[job as int], done, predecessors[job as int].len() as int) == 0
}

pub(crate) proof fn lemma_push_to_set(list: Seq<JobId>, job: JobId)
    ensures
        list.push(job).to_set() == list.to_set().insert(job),
        forall|other: JobId| #[trigger]
            list.push(job).contains(other) == (list.contains(other) || other == job),
{
    let longer = list.push(job);
    assert forall|other: JobId| #[trigger] longer.contains(other) == (list.contains(other) || other
        == job) by {
        if list.contains(other) {
            assert(longer[list.index_of(other)] == other);
        }
        assert(longer[list.len() as int] == job);
    }
    assert forall|other: JobId| longer.to_set().contains(other) == list.to_set().insert(
        job,
    ).contains(other) by {
        assert(longer.contains(other) == (list.contains(other) || other == job));
    }
    assert(longer.to_set() =~= list.to_set().insert(job));
}

pub(crate) proof fn lemma_removed(list: Seq<JobId>, index: int, after: Seq<JobId>)
    requires
        list.no_duplicates(),
        0 <= index < list.len(),
        after == list.update(index, list.last()).drop_last(),
    ensures
        after.no_duplicates(),
        forall|job: JobId| #[trigger]
            after.contains(job) == (list.contains(job) && job != list[index]),
{
    assert forall|left: int, right: int|
        0 <= left < after.len() && 0 <= right < after.len() && left != right implies after[left]
        != after[right] by {
        let l = if left == index {
            list.len() - 1
        } else {
            left
        };
        let r = if right == index {
            list.len() - 1
        } else {
            right
        };
        assert(after[left] == list[l] && after[right] == list[r]);
    }
    assert forall|job: JobId| #[trigger] after.contains(job) == (list.contains(job) && job
        != list[index]) by {
        if after.contains(job) {
            let at = after.index_of(job);
            let from = if at == index {
                list.len() - 1
            } else {
                at
            };
            assert(list[from] == job);
            assert(from != index);
        }
        if list.contains(job) && job != list[index] {
            let at = list.index_of(job);
            if at == list.len() - 1 {
                assert(after[index] == job);
            } else {
                assert(after[at] == job);
            }
        }
    }
}

/// The lowest job that is not done and is not ready has a lower predecessor that is not done.
pub(crate) proof fn lemma_some_ready(predecessors: Seq<Seq<JobId>>, done: Set<JobId>, job: JobId) -> (ready: JobId)
    requires
        predecessors.len() <= u32::MAX,
        backward(predecessors),
        job < predecessors.len(),
        !done.contains(job),
    ensures
        is_ready(predecessors, done, ready),
    decreases job,
{
    let list = predecessors[job as int];
    if missing(list, done, list.len() as int) == 0 {
        job
    } else {
        lemma_missing_one(list, done, list.len() as int);
        let index = choose|index: int|
            0 <= index < list.len() && !done.contains(#[trigger] list[index]);
        assert(predecessors[job as int][index] < job);
        lemma_some_ready(predecessors, done, list[index])
    }
}

pub(crate) proof fn lemma_missing_one(list: Seq<JobId>, done: Set<JobId>, until: int)
    requires
        0 <= until <= list.len(),
        missing(list, done, until) != 0,
    ensures
        exists|index: int| 0 <= index < until && !done.contains(#[trigger] list[index]),
    decreases until,
{
    if done.contains(list[until - 1]) {
        lemma_missing_one(list, done, until - 1);
    } else {
        assert(!done.contains(list[until - 1]));
    }
}

pub(crate) proof fn lemma_missing_shrinks(
    list: Seq<JobId>,
    done: Set<JobId>,
    more: Set<JobId>,
    until: int,
)
    requires
        0 <= until <= list.len(),
        done.subset_of(more),
    ensures
        missing(list, more, until) <= missing(list, done, until),
        0 <= missing(list, more, until),
    decreases until,
{
    if until > 0 {
        lemma_missing_shrinks(list, done, more, until - 1);
    }
}

/// Whether counts tell how many predecessors of each job are not done.
pub open spec fn indegrees_tell(predecessors: Seq<Seq<JobId>>, done: Set<JobId>, indegrees: Seq<u32>) -> bool {
    &&& indegrees.len() == predecessors.len()
    &&& forall|job: int|
        #![trigger indegrees[job]]
        0 <= job < predecessors.len() ==> indegrees[job] == missing(
            predecessors[job],
            done,
            predecessors[job].len() as int,
        )
}

/// Takes one off what the successors of a job wait for, and collects those that wait for nothing.
pub(crate) fn release_successors(
    Ghost(predecessors): Ghost<Seq<Seq<JobId>>>,
    Ghost(before): Ghost<Set<JobId>>,
    job: JobId,
    successors: &[Vec<JobId>],
    indegree: &mut Vec<u32>,
    newly_ready: &mut Vec<JobId>,
)
    requires
        predecessors.len() <= u32::MAX,
        proper(predecessors),
        inverted(predecessors, lists(successors@)),
        job < predecessors.len(),
        !before.contains(job),
        indegrees_tell(predecessors, before, old(indegree)@),
        old(newly_ready)@.no_duplicates(),
        forall|at: int|
            0 <= at < old(newly_ready)@.len() ==> (#[trigger] old(newly_ready)@[at])
                < predecessors.len() && old(indegree)@[old(newly_ready)@[at] as int] == 0,
    ensures
        indegrees_tell(predecessors, before.insert(job), final(indegree)@),
        final(newly_ready)@.no_duplicates(),
        forall|at: JobId| #[trigger]
            final(newly_ready)@.contains(at) == (old(newly_ready)@.contains(at) || at
                < predecessors.len() && predecessors[at as int].contains(job) && final(indegree)@[at as int] == 0),
        forall|at: int|
            0 <= at < final(newly_ready)@.len() ==> (#[trigger] final(newly_ready)@[at])
                < predecessors.len() && final(indegree)@[final(newly_ready)@[at] as int] == 0,
{
    let ghost edges = lists(successors@);
    let ghost own = edges[job as int];
    assert(own == successors@[job as int]@);
    let ghost start = indegree@;
    let ghost collected = newly_ready@;
    let length: usize = successors[job as usize].len();
    for index in 0..length
        invariant
            predecessors.len() <= u32::MAX,
            edges == lists(successors@),
            inverted(predecessors, edges),
            job < predecessors.len(),
            own == edges[job as int],
            own == successors@[job as int]@,
            ascending(own),
            length == own.len(),
            !before.contains(job),
            indegrees_tell(predecessors, before, start),
            forall|at: int|
                0 <= at < collected.len() ==> (#[trigger] collected[at]) < predecessors.len()
                    && start[collected[at] as int] == 0,
            indegree@.len() == predecessors.len(),
            forall|at: int|
                #![trigger indegree@[at]]
                0 <= at < predecessors.len() ==> indegree@[at] == start[at] - (if own.take(
                    index as int,
                ).contains(at as JobId) {
                    1int
                } else {
                    0
                }),
            newly_ready@.no_duplicates(),
            forall|at: JobId| #[trigger]
                newly_ready@.contains(at) == (collected.contains(at) || own.take(
                    index as int,
                ).contains(at) && indegree@[at as int] == 0),
    {
        let successor = successors[job as usize][index];
        let ghost shorter = own.take(index as int);
        let ghost longer = own.take(index + 1);
        let ghost middle = indegree@;
        let ghost held = newly_ready@;
        proof {
            assert(own[index as int] == successor);
            assert(own.contains(successor));
            assert(successor < predecessors.len() && predecessors[successor as int].contains(job));
            assert(longer =~= shorter.push(successor));
            lemma_push_to_set(shorter, successor);
            if shorter.contains(successor) {
                let at = shorter.index_of(successor);
                assert(own[at] < own[index as int]);
            }
            let list = predecessors[successor as int];
            lemma_missing(list, before, list.len() as int);
            assert(start[successor as int] == missing(list, before, list.len() as int));
            if start[successor as int] == 0 {
                let at = list.index_of(job);
                assert(before.contains(list[at]));
            }
            assert(middle[successor as int] == start[successor as int]);
            if held.contains(successor) {
                assert(collected.contains(successor));
                let at = collected.index_of(successor);
                assert(start[collected[at] as int] == 0);
            }
        }
        let left: u32 = indegree[successor as usize] - 1;
        indegree.set(successor as usize, left);
        if left == 0 {
            newly_ready.push(successor);
            proof {
                lemma_push_to_set(held, successor);
                assert(newly_ready@.no_duplicates()) by {
                    assert forall|l: int, r: int|
                        0 <= l < newly_ready@.len() && 0 <= r < newly_ready@.len() && l
                            != r implies newly_ready@[l] != newly_ready@[r] by {
                        if l == held.len() {
                            assert(held.contains(held[r]));
                        } else if r == held.len() {
                            assert(held.contains(held[l]));
                        }
                    }
                }
            }
        }
        assert forall|at: JobId| #[trigger]
            newly_ready@.contains(at) == (collected.contains(at) || longer.contains(at)
                && indegree@[at as int] == 0) by {
            assert(longer.contains(at) == (shorter.contains(at) || at == successor));
            assert(held.contains(at) == (collected.contains(at) || shorter.contains(at)
                && middle[at as int] == 0));
            if shorter.contains(at) {
                let place = shorter.index_of(at);
                assert(own[place] == at);
                assert(own.contains(at));
                assert(middle[at as int] == indegree@[at as int] || at == successor);
            }
        }
    }
    proof {
        assert(own.take(length as int) =~= own);
        assert forall|at: int|
            #![trigger indegree@[at]]
            0 <= at < predecessors.len() implies indegree@[at] == missing(
            predecessors[at],
            before.insert(job),
            predecessors[at].len() as int,
        ) by {
            let list = predecessors[at];
            assert(start[at] == missing(list, before, list.len() as int));
            lemma_one_done(list, before, job, list.len() as int);
            assert(list.take(list.len() as int) =~= list);
            assert(own.contains(at as JobId) == list.contains(job));
        }
        assert forall|at: JobId| #[trigger]
            newly_ready@.contains(at) == (collected.contains(at) || at < predecessors.len()
                && predecessors[at as int].contains(job) && indegree@[at as int] == 0) by {
            assert(own.contains(at) == (at < predecessors.len() && predecessors[at
                as int].contains(job)));
        }
        assert forall|at: int| 0 <= at < newly_ready@.len() implies (#[trigger] newly_ready@[at])
            < predecessors.len() && indegree@[newly_ready@[at] as int] == 0 by {
            let id = newly_ready@[at];
            assert(newly_ready@.contains(id));
            if collected.contains(id) {
                let place = collected.index_of(id);
                assert(start[collected[place] as int] == 0);
                assert(indegree@[id as int] == start[id as int] - (if own.contains(id) {
                    1int
                } else {
                    0
                }));
            }
        }
    }
}

} // verus!
