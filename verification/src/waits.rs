//! Counting down the jobs that a job waits for.

use crate::dag::{ascending, reaches, JobId};
use vstd::prelude::*;

verus! {

/// How many of the first `until` jobs of a list are not done.
pub open spec fn missing(list: Seq<JobId>, done: Set<JobId>, until: int) -> int
    decreases until,
{
    if until <= 0 {
        0
    } else {
        missing(list, done, until - 1) + (if done.contains(list[until - 1]) {
            0int
        } else {
            1
        })
    }
}

/// Whether each job that has not started waits for those of its predecessors that are not done,
/// each job that has started had all of them done, and only jobs that have started are done.
pub open spec fn in_step(
    predecessors: Seq<Seq<JobId>>,
    waits: Seq<int>,
    started: Set<JobId>,
    done: Set<JobId>,
) -> bool {
    &&& waits.len() == predecessors.len()
    &&& forall|job: JobId|
        job < waits.len() && !#[trigger] started.contains(job) ==> waits[job as int] == missing(
            predecessors[job as int],
            done,
            predecessors[job as int].len() as int,
        )
    &&& forall|job: JobId, index: int|
        #![trigger started.contains(job), predecessors[job as int][index]]
        started.contains(job) && job < predecessors.len() && 0 <= index
            < predecessors[job as int].len() ==> done.contains(predecessors[job as int][index])
    &&& forall|job: JobId| #[trigger] done.contains(job) ==> started.contains(job)
}

pub(crate) proof fn lemma_missing(list: Seq<JobId>, done: Set<JobId>, until: int)
    requires
        0 <= until <= list.len(),
    ensures
        0 <= missing(list, done, until) <= until,
        missing(list, done, until) == 0 ==> forall|index: int|
            0 <= index < until ==> done.contains(#[trigger] list[index]),
    decreases until,
{
    if until > 0 {
        lemma_missing(list, done, until - 1);
    }
}

pub(crate) proof fn lemma_nothing_done(list: Seq<JobId>, until: int)
    requires
        0 <= until <= list.len(),
    ensures
        missing(list, Set::empty(), until) == until,
    decreases until,
{
    if until > 0 {
        lemma_nothing_done(list, until - 1);
    }
}

pub(crate) proof fn lemma_one_done(list: Seq<JobId>, done: Set<JobId>, job: JobId, until: int)
    requires
        0 <= until <= list.len(),
        ascending(list),
        !done.contains(job),
    ensures
        missing(list, done.insert(job), until) == missing(list, done, until) - (if list.take(
            until,
        ).contains(job) {
            1int
        } else {
            0
        }),
    decreases until,
{
    if until > 0 {
        lemma_one_done(list, done, job, until - 1);
        let shorter = list.take(until - 1);
        let longer = list.take(until);
        assert(longer =~= shorter.push(list[until - 1]));
        if shorter.contains(job) {
            let at = shorter.index_of(job);
            assert(longer[at] == job);
            assert(list[at] < list[until - 1]);
        }
        if longer.contains(job) {
            let at = longer.index_of(job);
            if at < until - 1 {
                assert(shorter[at] == job);
            }
        }
        if list[until - 1] == job {
            assert(longer[until - 1] == job);
        }
    }
}

/// Before a run, with each job waiting for all its predecessors, the counts are in step.
pub proof fn runs_begin_in_step(predecessors: Seq<Seq<JobId>>, waits: Seq<int>)
    requires
        waits.len() == predecessors.len(),
        forall|job: int|
            0 <= job < waits.len() ==> #[trigger] waits[job] == predecessors[job].len(),
    ensures
        in_step(predecessors, waits, Set::empty(), Set::empty()),
{
    assert forall|job: JobId|
        job < waits.len() && !#[trigger] Set::<JobId>::empty().contains(
            job,
        ) implies waits[job as int] == missing(
        predecessors[job as int],
        Set::empty(),
        predecessors[job as int].len() as int,
    ) by {
        lemma_nothing_done(predecessors[job as int], predecessors[job as int].len() as int);
    }
}

/// When a job that waits for nothing starts, all its predecessors are done, and the counts stay in
/// step whatever the job's own count becomes.
pub proof fn starting_stays_in_step(
    predecessors: Seq<Seq<JobId>>,
    waits: Seq<int>,
    started: Set<JobId>,
    done: Set<JobId>,
    job: JobId,
    wait: int,
)
    requires
        in_step(predecessors, waits, started, done),
        job < waits.len(),
        !started.contains(job),
        waits[job as int] == 0,
    ensures
        in_step(predecessors, waits.update(job as int, wait), started.insert(job), done),
{
    let list = predecessors[job as int];
    lemma_missing(list, done, list.len() as int);
}

/// When a job is done, and the counts of the jobs that it is a predecessor of go down by one, the
/// counts stay in step.
pub proof fn finishing_stays_in_step(
    predecessors: Seq<Seq<JobId>>,
    waits: Seq<int>,
    after: Seq<int>,
    started: Set<JobId>,
    done: Set<JobId>,
    job: JobId,
)
    requires
        in_step(predecessors, waits, started, done),
        started.contains(job),
        !done.contains(job),
        after.len() == waits.len(),
        forall|to: int|
            #![trigger predecessors[to]]
            0 <= to < predecessors.len() ==> ascending(predecessors[to]),
        forall|other: JobId|
            other < waits.len() && !#[trigger] started.contains(other) ==> after[other as int]
                == waits[other as int] - (if predecessors[other as int].contains(job) {
                1int
            } else {
                0
            }),
    ensures
        in_step(predecessors, after, started, done.insert(job)),
{
    assert forall|other: JobId|
        other < after.len() && !#[trigger] started.contains(other) implies after[other as int]
        == missing(
        predecessors[other as int],
        done.insert(job),
        predecessors[other as int].len() as int,
    ) by {
        let list = predecessors[other as int];
        assert(list.take(list.len() as int) =~= list);
        lemma_one_done(list, done, job, list.len() as int);
    }
}

/// A job that has not started and has an unfinished predecessor waits: its count is above zero.
pub proof fn unfinished_predecessors_are_waited_for(
    predecessors: Seq<Seq<JobId>>,
    waits: Seq<int>,
    started: Set<JobId>,
    done: Set<JobId>,
    job: JobId,
    index: int,
)
    requires
        in_step(predecessors, waits, started, done),
        job < waits.len(),
        !started.contains(job),
        0 <= index < predecessors[job as int].len(),
        !done.contains(predecessors[job as int][index]),
    ensures
        waits[job as int] > 0,
{
    let list = predecessors[job as int];
    lemma_missing(list, done, list.len() as int);
}

/// A job starts only when every job from which a path leads to it is done.
pub proof fn jobs_start_after_those_that_reach_them(
    predecessors: Seq<Seq<JobId>>,
    waits: Seq<int>,
    started: Set<JobId>,
    done: Set<JobId>,
    from: JobId,
    to: JobId,
)
    requires
        in_step(predecessors, waits, started, done),
        reaches(predecessors, from as int, to as int),
        started.contains(to),
    ensures
        done.contains(from),
    decreases to,
{
    let index = choose|index: int|
        0 <= index < predecessors[to as int].len() && (#[trigger] predecessors[to as int][index])
            < to && (predecessors[to as int][index] == from || reaches(
            predecessors,
            from as int,
            predecessors[to as int][index] as int,
        ));
    let middle = predecessors[to as int][index];
    assert(done.contains(middle));
    if middle != from {
        jobs_start_after_those_that_reach_them(predecessors, waits, started, done, from, middle);
    }
}

} // verus!
