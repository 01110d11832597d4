//! No job of a worker is left behind.

use crate::bonds::Course;
use crate::progress::{shape_shows, shape_shows_node, Word, WorkShape, WorkState};
use crate::word::{lemma_mask_join, lemma_mask_single, lemma_set_slot, mask_bit};
use crate::work::{slot_bit, Net};
use vstd::prelude::*;

verus! {

/// Whether the job at a place of a cluster cannot run for what is locked.
pub open spec fn held_back(shape: WorkShape, word: Word, cluster: int, slot: int) -> bool {
    word.lock & shape.locks[shape.members[cluster][slot] as int] != 0
}

/// Whether each ready job of a cluster is held back by what is locked.
pub open spec fn none_stuck_in(shape: WorkShape, word: Word, cluster: int) -> bool {
    forall|slot: int|
        0 <= slot < shape.members[cluster].len() && #[trigger] mask_bit(word.ready, slot)
            ==> held_back(shape, word, cluster, slot)
}

/// Whether each ready job is held back by what is locked.
pub open spec fn none_stuck(shape: WorkShape, state: WorkState) -> bool {
    forall|cluster: int|
        0 <= cluster < shape.members.len() ==> none_stuck_in(
            shape,
            #[trigger] state.words[cluster],
            cluster,
        )
}

/// Whether the bit of each job of a cluster is that of its place.
spec fn numbered(shape: WorkShape, cluster: int) -> bool {
    &&& shape.members[cluster].len() <= 32
    &&& forall|slot: int|
        0 <= slot < shape.members[cluster].len() ==> {
            &&& #[trigger] shape.members[cluster][slot] < shape.locks.len()
            &&& shape.bits[shape.members[cluster][slot] as int] == slot_bit(slot)
            &&& shape.clusters[shape.members[cluster][slot] as int] == cluster
        }
}

proof fn lemma_lock_more(lock: u32, more: u32, other: u32)
    by (bit_vector)
    ensures
        lock & other != 0 ==> (lock | more) & other != 0,
{
}

proof fn lemma_own_bit(ready: u32, slot: u32)
    by (bit_vector)
    requires
        slot < 32,
    ensures
        (ready & (1u32 << slot) == (1u32 << slot)) == (ready & (1u32 << slot) != 0),
{
}

proof fn lemma_numbered(net: Net, shape: WorkShape, cluster: int)
    requires
        shape_shows(net, shape),
        0 <= cluster < shape.members.len(),
    ensures
        numbered(shape, cluster),
{
    assert forall|slot: int| 0 <= slot < shape.members[cluster].len() implies {
        &&& #[trigger] shape.members[cluster][slot] < shape.locks.len()
        &&& shape.bits[shape.members[cluster][slot] as int] == slot_bit(slot)
        &&& shape.clusters[shape.members[cluster][slot] as int] == cluster
    } by {
        let node = net.clusters[cluster][slot];
        assert(net.homes[node as int] is Some);
        assert(shape_shows_node(net, shape, node as int));
    }
    assert(net.clusters[cluster].len() <= 32);
}

proof fn lemma_sweep_leaves_none(
    shape: WorkShape,
    word: Word,
    cluster: int,
    tried: u32,
    until: int,
)
    requires
        0 <= cluster < shape.members.len(),
        numbered(shape, cluster),
        0 <= until <= shape.members[cluster].len(),
    ensures
        ({
            let after = shape.sweep(word, cluster, tried, until).0;
            &&& forall|other: u32| word.lock & other != 0 ==> #[trigger] (after.lock & other) != 0
            &&& forall|slot: int|
                0 <= slot < 32 && #[trigger] mask_bit(after.ready, slot) ==> mask_bit(
                    word.ready,
                    slot,
                )
            &&& forall|slot: int|
                0 <= slot < until && #[trigger] mask_bit(after.ready, slot) && mask_bit(tried, slot)
                    ==> held_back(shape, after, cluster, slot)
        }),
    decreases until,
{
    if until > 0 {
        lemma_sweep_leaves_none(shape, word, cluster, tried, until - 1);
        let (rest, spawned) = shape.sweep(word, cluster, tried, until - 1);
        let node = shape.members[cluster][until - 1];
        let bit = shape.bits[node as int];
        let lock = shape.locks[node as int];
        let after = shape.sweep(word, cluster, tried, until).0;
        let last = until - 1;
        lemma_own_bit(rest.ready, last as u32);
        assert forall|other: u32| word.lock & other != 0 implies #[trigger] (after.lock & other)
            != 0 by {
            assert(rest.lock & other != 0);
            lemma_lock_more(rest.lock, lock, other);
        }
        assert forall|slot: int| 0 <= slot < 32 && #[trigger] mask_bit(
            after.ready,
            slot,
        ) implies mask_bit(rest.ready, slot) && mask_bit(word.ready, slot) by {
            lemma_mask_join(rest.ready, bit, slot as u32);
        }
        assert forall|slot: int|
            0 <= slot < until && #[trigger] mask_bit(after.ready, slot) && mask_bit(
                tried,
                slot,
            ) implies held_back(shape, after, cluster, slot) by {
            assert(mask_bit(rest.ready, slot));
            let other = shape.locks[shape.members[cluster][slot] as int];
            lemma_lock_more(rest.lock, lock, other);
            if slot == last {
                lemma_mask_join(rest.ready, bit, slot as u32);
                lemma_mask_single(slot as u32, slot as u32);
            } else {
                assert(held_back(shape, rest, cluster, slot));
            }
        }
    }
}

/// At the start of a run no job is stuck.
pub proof fn worker_runs_begin_unstuck(shape: WorkShape, state: WorkState)
    requires
        state.words.len() == shape.members.len(),
        shape.fits(),
        forall|cluster: int|
            0 <= cluster < state.words.len() ==> (#[trigger] state.words[cluster]).ready == 0,
    ensures
        none_stuck(shape, state),
{
    assert forall|cluster: int| 0 <= cluster < shape.members.len() implies none_stuck_in(
        shape,
        #[trigger] state.words[cluster],
        cluster,
    ) by {
        assert forall|slot: int| 0 <= slot < shape.members[cluster].len() implies !#[trigger] mask_bit(
            state.words[cluster].ready,
            slot,
        ) by {
            lemma_mask_join(0, 0, slot as u32);
        }
    }
}

/// Trying to run a job leaves no job stuck.
pub proof fn trying_leaves_none_stuck(net: Net, shape: WorkShape, state: WorkState, node: usize)
    requires
        shape_shows(net, shape),
        state.words.len() == shape.members.len(),
        node < shape.locks.len(),
        none_stuck(shape, state),
    ensures
        none_stuck(shape, shape.begin(state, node).0),
        shape.begin(state, node).0.words.len() == shape.members.len(),
{
    let after = shape.begin(state, node).0;
    if shape.is_housed(node) {
        let cluster = shape.clusters[node as int] as int;
        lemma_numbered(net, shape, cluster);
        assert(shape_shows_node(net, shape, node as int));
        let word = state.words[cluster];
        let bit = shape.bits[node as int];
        let lock = shape.locks[node as int];
        assert(none_stuck_in(shape, word, cluster));
        let seat = net.homes[node as int]->0;
        assert(shape.members[cluster][seat.slot] == node);
        let next = after.words[cluster];
        if word.lock & lock != 0 {
            assert forall|slot: int|
                0 <= slot < shape.members[cluster].len() && #[trigger] mask_bit(
                    next.ready,
                    slot,
                ) implies held_back(shape, next, cluster, slot) by {
                lemma_mask_join(word.ready, bit, slot as u32);
                lemma_mask_single(seat.slot as u32, slot as u32);
                if slot != seat.slot {
                    assert(mask_bit(word.ready, slot));
                }
            }
        } else {
            let locked = Word { ready: word.ready, lock: word.lock | lock };
            lemma_sweep_leaves_none(
                shape,
                locked,
                cluster,
                word.ready & (!lock & !bit),
                shape.members[cluster].len() as int,
            );
            assert forall|slot: int|
                0 <= slot < shape.members[cluster].len() && #[trigger] mask_bit(
                    next.ready,
                    slot,
                ) implies held_back(shape, next, cluster, slot) by {
                assert(mask_bit(word.ready, slot));
                let other = shape.locks[shape.members[cluster][slot] as int];
                lemma_lock_more(word.lock, lock, other);
                assert((locked.lock & other) != 0);
                assert((next.lock & other) != 0);
            }
        }
        assert(none_stuck_in(shape, next, cluster));
        assert forall|other: int| 0 <= other < shape.members.len() implies none_stuck_in(
            shape,
            #[trigger] after.words[other],
            other,
        ) by {
            if other != cluster {
                assert(none_stuck_in(shape, state.words[other], other));
            }
        }
    }
}

proof fn lemma_unlocking_leaves_none(net: Net, shape: WorkShape, state: WorkState, node: usize)
    requires
        shape_shows(net, shape),
        state.words.len() == shape.members.len(),
        node < shape.locks.len(),
        none_stuck(shape, state),
        shape.is_housed(node) ==> state.words[shape.clusters[node as int] as int].ready
            & shape.bits[node as int] == 0,
    ensures
        none_stuck(shape, shape.unlock(state, node).0),
        shape.unlock(state, node).0.words.len() == shape.members.len(),
{
    let after = shape.unlock(state, node).0;
    if shape.is_housed(node) {
        let cluster = shape.clusters[node as int] as int;
        lemma_numbered(net, shape, cluster);
        assert(shape_shows_node(net, shape, node as int));
        let word = state.words[cluster];
        let bit = shape.bits[node as int];
        let lock = shape.locks[node as int];
        assert(none_stuck_in(shape, word, cluster));
        let seat = net.homes[node as int]->0;
        assert(shape.members[cluster][seat.slot] == node);
        let next = after.words[cluster];
        let freed = Word { ready: word.ready, lock: word.lock & !lock };
        let tried = word.ready & !bit;
        lemma_sweep_leaves_none(
            shape,
            freed,
            cluster,
            tried,
            shape.members[cluster].len() as int,
        );
        assert forall|slot: int|
            0 <= slot < shape.members[cluster].len() && #[trigger] mask_bit(
                next.ready,
                slot,
            ) implies held_back(shape, next, cluster, slot) by {
            assert(mask_bit(word.ready, slot));
            let other = shape.locks[shape.members[cluster][slot] as int];
            if slot != seat.slot {
                lemma_mask_single(seat.slot as u32, slot as u32);
                lemma_tried_bit(word.ready, bit, slot as u32);
                assert(mask_bit(tried, slot));
            }
        }
        assert(none_stuck_in(shape, next, cluster));
        assert forall|place: int| 0 <= place < shape.members.len() implies none_stuck_in(
            shape,
            #[trigger] after.words[place],
            place,
        ) by {
            if place != cluster {
                assert(none_stuck_in(shape, state.words[place], place));
            }
        }
    }
}

proof fn lemma_tried_bit(ready: u32, bit: u32, slot: u32)
    by (bit_vector)
    requires
        slot < 32,
        ready & (1u32 << slot) != 0,
        bit & (1u32 << slot) == 0,
    ensures
        (ready & !bit) & (1u32 << slot) != 0,
{
}

proof fn lemma_notifying_leaves_none(
    net: Net,
    shape: WorkShape,
    state: WorkState,
    list: Seq<usize>,
    until: int,
)
    requires
        shape_shows(net, shape),
        state.words.len() == shape.members.len(),
        0 <= until <= list.len(),
        forall|index: int| 0 <= index < list.len() ==> #[trigger] list[index] < shape.locks.len(),
        none_stuck(shape, state),
    ensures
        none_stuck(shape, shape.notify(state, list, until).0),
        shape.notify(state, list, until).0.words.len() == shape.members.len(),
    decreases until,
{
    if until > 0 {
        lemma_notifying_leaves_none(net, shape, state, list, until - 1);
        let before = shape.notify(state, list, until - 1).0;
        let node = list[until - 1];
        let wait = before.waits[node as int];
        let counted = WorkState {
            waits: before.waits.update(node as int, wait.wrapping_sub(1)),
            ..before
        };
        assert(none_stuck(shape, counted)) by {
            assert forall|cluster: int| 0 <= cluster < shape.members.len() implies none_stuck_in(
                shape,
                #[trigger] counted.words[cluster],
                cluster,
            ) by {
                assert(none_stuck_in(shape, before.words[cluster], cluster));
            }
        }
        if wait == 1 {
            trying_leaves_none_stuck(net, shape, counted, node);
        }
    }
}

/// Taking note that a running job has finished leaves no job stuck.
pub proof fn finished_jobs_leave_none_stuck(
    course: Course,
    net: Net,
    shape: WorkShape,
    state: WorkState,
    node: usize,
)
    requires
        shape_shows(net, shape),
        course.keeps_order(net, shape, state),
        course.running.contains(node),
        node < shape.locks.len(),
        none_stuck(shape, state),
    ensures
        none_stuck(shape, shape.finish(state, node).0),
{
    assert(course.right_about(net, shape, state, node));
    assert(shape_shows_node(net, shape, node as int));
    if shape.is_housed(node) {
        let seat = net.homes[node as int]->0;
        assert(net.homes[node as int] is Some);
        assert(net.clusters[seat.cluster].len() <= 32);
        assert(!mask_bit(state.words[seat.cluster].ready, seat.slot));
    }
    lemma_unlocking_leaves_none(net, shape, state, node);
    let unlocked = shape.unlock(state, node).0;
    let list = shape.next[node as int];
    lemma_notifying_leaves_none(net, shape, unlocked, list, list.len() as int);
    let notified = shape.notify(unlocked, list, list.len() as int).0;
    let after = shape.finish(state, node).0;
    assert forall|cluster: int| 0 <= cluster < shape.members.len() implies none_stuck_in(
        shape,
        #[trigger] after.words[cluster],
        cluster,
    ) by {
        assert(none_stuck_in(shape, notified.words[cluster], cluster));
    }
}

/// When no job is running, none is left to be tried and none is stuck, all jobs have started.
pub proof fn worker_runs_do_not_stall(
    course: Course,
    net: Net,
    shape: WorkShape,
    state: WorkState,
    node: usize,
)
    requires
        shape_shows(net, shape),
        course.keeps_order(net, shape, state),
        none_stuck(shape, state),
        course.running == Set::<usize>::empty(),
        course.untried == Set::<usize>::empty(),
        course.told == Set::<usize>::empty(),
        forall|other: usize| #[trigger]
            course.started.contains(other) ==> course.done.contains(other),
        forall|at: int, index: int|
            0 <= at < shape.previous.len() && 0 <= index < shape.previous[at].len() ==> (
            #[trigger] shape.previous[at][index]) < at,
        node < shape.locks.len(),
    ensures
        course.started.contains(node),
    decreases node,
{
    let list = shape.previous[node as int];
    assert forall|index: int| 0 <= index < list.len() implies course.known_done(node).contains(
        #[trigger] list[index],
    ) by {
        assert(shape.previous[node as int][index] < node);
        worker_runs_do_not_stall(course, net, shape, state, list[index]);
    }
    assert(course.may_start(shape, node));
    assert(course.right_about(net, shape, state, node));
    assert(shape_shows_node(net, shape, node as int));
    if !course.started.contains(node) {
        assert(net.homes[node as int] is Some);
        let seat = net.homes[node as int]->0;
        let word = state.words[seat.cluster];
        assert(net.clusters[seat.cluster].len() <= 32);
        assert(mask_bit(word.ready, seat.slot));
        assert(none_stuck_in(shape, word, seat.cluster));
        assert(held_back(shape, word, seat.cluster, seat.slot));
        let slot = lemma_set_slot(word.lock & shape.locks[node as int]);
        lemma_both_locked(word.lock, shape.locks[node as int], slot);
        assert(mask_bit(word.lock, slot as int));
        assert(course.locked(net, shape, seat.cluster, slot as int));
    }
}

proof fn lemma_both_locked(left: u32, right: u32, slot: u32)
    by (bit_vector)
    requires
        slot < 32,
        (left & right) & (1u32 << slot) != 0,
    ensures
        left & (1u32 << slot) != 0,
{
}

} // verus!
