//! What trying a job and ending one does to the state of a worker.

use crate::progress::{Word, WorkShape, WorkState};
use vstd::prelude::*;

verus! {

proof fn lemma_sweep_spawns_members(
    shape: WorkShape,
    word: Word,
    cluster: int,
    tried: u32,
    until: int,
    at: int,
)
    requires
        0 <= until <= shape.members[cluster].len(),
        0 <= at < shape.sweep(word, cluster, tried, until).1.len(),
    ensures
        shape.members[cluster].contains(shape.sweep(word, cluster, tried, until).1[at]),
    decreases until,
{
    if until > 0 {
        let (rest, before) = shape.sweep(word, cluster, tried, until - 1);
        let node = shape.members[cluster][until - 1];
        assert(shape.members[cluster].contains(node));
        if at < before.len() {
            lemma_sweep_spawns_members(shape, word, cluster, tried, until - 1, at);
        }
    }
}

/// A job that is in no cluster starts when it is tried. One that is in a cluster starts exactly where
/// none of the bits that it locks is locked, and with it only members of its cluster; otherwise
/// nothing starts, and it is marked as ready. No job waits for anything else than before, and no other
/// cluster changes.
pub proof fn tried_jobs_start_where_they_may(
    shape: WorkShape,
    state: WorkState,
    node: usize,
    other: int,
    at: int,
)
    requires
        shape.fits(),
        node < shape.locks.len(),
        shape.members.len() == state.words.len(),
    ensures
        ({
            let (after, spawned) = shape.begin(state, node);
            let cluster = shape.clusters[node as int];
            let word = state.words[cluster as int];
            let lock = shape.locks[node as int];
            &&& after.waits == state.waits
            &&& after.words.len() == state.words.len()
            &&& 0 <= other < state.words.len() && other != cluster ==> after.words[other]
                == state.words[other]
            &&& cluster >= shape.members.len() ==> spawned == seq![node] && after == state
            &&& cluster < shape.members.len() ==> {
                &&& (spawned.len() > 0) == (word.lock & lock == 0)
                &&& spawned.len() > 0 ==> spawned[0] == node
                &&& 0 < at < spawned.len() ==> shape.members[cluster as int].contains(spawned[at])
                &&& spawned.len() == 0 ==> after.words[cluster as int].lock == word.lock
                    && after.words[cluster as int].ready == word.ready | shape.bits[node as int]
            }
        }),
{
    let cluster = shape.clusters[node as int] as int;
    let (after, spawned) = shape.begin(state, node);
    if cluster < shape.members.len() {
        let word = state.words[cluster];
        let lock = shape.locks[node as int];
        let bit = shape.bits[node as int];
        if word.lock & lock == 0 {
            let fresh = Word { ready: word.ready, lock: word.lock | lock };
            let tried = word.ready & (!lock & !bit);
            let count = shape.members[cluster].len() as int;
            let more = shape.sweep(fresh, cluster, tried, count).1;
            assert(spawned == seq![node] + more);
            assert(spawned[0] == node);
            if 0 < at < spawned.len() {
                assert(spawned[at] == more[at - 1]);
                lemma_sweep_spawns_members(shape, fresh, cluster, tried, count, at - 1);
            }
        }
    }
}

proof fn lemma_notified_waits(
    shape: WorkShape,
    state: WorkState,
    list: Seq<usize>,
    until: int,
    other: usize,
)
    requires
        shape.fits(),
        shape.locks.len() == state.waits.len(),
        0 <= until <= list.len(),
        list.no_duplicates(),
        forall|at: int| 0 <= at < list.len() ==> (#[trigger] list[at]) < shape.locks.len(),
        other < state.waits.len(),
    ensures
        ({
            let after = shape.notify(state, list, until).0;
            &&& after.waits.len() == state.waits.len()
            &&& after.waits[other as int] == if list.take(until).contains(other) {
                state.waits[other as int].wrapping_sub(1)
            } else {
                state.waits[other as int]
            }
        }),
    decreases until,
{
    if until > 0 {
        let last = until - 1;
        let node = list[last];
        lemma_notified_waits(shape, state, list, last, other);
        lemma_notified_waits(shape, state, list, last, node);
        let shorter = list.take(last);
        let longer = list.take(until);
        assert(longer =~= shorter.push(node));
        assert(!shorter.contains(node)) by {
            if shorter.contains(node) {
                let at = shorter.index_of(node);
                assert(list[at] == list[last]);
            }
        }
        assert(longer.contains(other) == (shorter.contains(other) || other == node)) by {
            if shorter.contains(other) {
                assert(longer[shorter.index_of(other)] == other);
            }
            assert(longer[last] == node);
            if longer.contains(other) {
                let at = longer.index_of(other);
                if at < last {
                    assert(shorter[at] == other);
                }
            }
        }
    }
}

/// Once a job is done each job that waits for it waits for one job less. The job itself waits again for
/// all that it waits for, and no other job for anything else than before.
pub proof fn finished_jobs_are_waited_for_no_longer(
    shape: WorkShape,
    state: WorkState,
    node: usize,
    other: usize,
)
    requires
        shape.fits(),
        node < shape.locks.len(),
        shape.locks.len() == state.waits.len(),
        shape.next[node as int].no_duplicates(),
        other < state.waits.len(),
    ensures
        ({
            let after = shape.finish(state, node).0;
            let wait = state.waits[other as int];
            let follows = shape.next[node as int].contains(other);
            &&& other == node && shape.previous[node as int].len() <= usize::MAX
                ==> after.waits[other as int] == shape.previous[node as int].len()
            &&& other != node && follows && wait > 0 ==> after.waits[other as int] == wait - 1
            &&& other != node && !follows ==> after.waits[other as int] == wait
        }),
{
    let list = shape.next[node as int];
    let unlocked = shape.unlock(state, node).0;
    assert(unlocked.waits == state.waits);
    assert forall|at: int| 0 <= at < list.len() implies (#[trigger] list[at])
        < shape.locks.len() by {
        assert(shape.next[node as int][at] < shape.locks.len());
    }
    lemma_notified_waits(shape, unlocked, list, list.len() as int, other);
    assert(list.take(list.len() as int) =~= list);
}

} // verus!
