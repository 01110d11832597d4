//! What holds of the bonds between the jobs of a worker, and while they are run: strictly related
//! jobs run in the order in which they were pushed, and related jobs do not overlap.

use crate::depend::DependencyView;
use crate::normalize::{relation_of, Relation};
use crate::progress::{shape_shows, shape_shows_node, Word, WorkShape, WorkState};
use crate::word::{lemma_mask_join, lemma_mask_single, lemma_masks_disjoint, mask_bit};
use crate::work::{climbing, net_of, Net};
use vstd::prelude::*;

verus! {

impl Net {
    /// Whether a job waits for an earlier one however indirectly, or must not overlap with it.
    pub open spec fn apart(self, left: int, right: int) -> bool {
        self.reach[right].contains(left as usize) || self.weak[right].contains(left as usize)
    }

    /// Whether a job and an earlier one are bound as they are related.
    pub open spec fn bound_as_related(
        self,
        declared: Seq<Seq<DependencyView>>,
        left: int,
        right: int,
    ) -> bool {
        &&& relation_of(declared[left], declared[right]) != Relation::Free ==> self.apart(
            left,
            right,
        )
        &&& relation_of(declared[left], declared[right]) == Relation::Strict
            ==> self.reach[right].contains(left as usize)
    }

    /// Whether what each job waits for however indirectly is what it waits for, and what that waits
    /// for.
    pub open spec fn closed_under_waiting(self) -> bool {
        forall|right: int, left: usize| #[trigger]
            self.reach[right].contains(left) && 0 <= right < self.reach.len() ==> exists|
                middle: usize,
            | #[trigger]
                self.strong[right].contains(middle) && middle < right && (middle == left
                    || self.reach[middle as int].contains(left))
    }

    /// Whether nothing that binds the jobs of another net is missing.
    pub open spec fn extends(self, other: Net) -> bool {
        &&& self.reach.len() == other.reach.len()
        &&& self.weak.len() == other.weak.len()
        &&& self.strong.len() == other.strong.len()
        &&& forall|right: int, left: usize| #[trigger]
            other.reach[right].contains(left) && 0 <= right < other.reach.len()
                ==> self.reach[right].contains(left)
        &&& forall|right: int, left: usize| #[trigger]
            other.weak[right].contains(left) && 0 <= right < other.weak.len()
                ==> self.weak[right].contains(left)
    }

    /// Whether all lists are of the same length.
    pub open spec fn even(self, count: int) -> bool {
        &&& self.homes.len() == count
        &&& self.strong.len() == count
        &&& self.reach.len() == count
        &&& self.weak.len() == count
    }
}

proof fn lemma_bind(
    declared: Seq<Seq<DependencyView>>,
    net: Net,
    left: int,
    right: int,
)
    requires
        net.even(declared.len() as int),
        0 <= left < right < declared.len() <= usize::MAX,
        net.closed_under_waiting(),
    ensures
        net.bind(declared, left, right).even(declared.len() as int),
        net.bind(declared, left, right).extends(net),
        net.bind(declared, left, right).bound_as_related(declared, left, right),
        net.bind(declared, left, right).closed_under_waiting(),
{
    let after = net.bind(declared, left, right);
    let following = net.follow(left, right);
    assert(following.closed_under_waiting()) by {
        assert forall|r: int, l: usize| #[trigger]
            following.reach[r].contains(l) && 0 <= r < following.reach.len() implies exists|
            middle: usize,
        | #[trigger]
            following.strong[r].contains(middle) && middle < r && (middle == l
                || following.reach[middle as int].contains(l)) by {
            if r != right {
                assert(net.reach[r].contains(l));
                let middle = choose|middle: usize| #[trigger]
                    net.strong[r].contains(middle) && middle < r && (middle == l
                        || net.reach[middle as int].contains(l));
                assert(following.strong[r].contains(middle));
                if middle == right && middle != l {
                    assert(following.reach[right].contains(l));
                }
            } else if net.reach[right].contains(l) {
                let middle = choose|middle: usize| #[trigger]
                    net.strong[right].contains(middle) && middle < right && (middle == l
                        || net.reach[middle as int].contains(l));
                assert(following.strong[right].contains(middle));
            } else {
                let middle = left as usize;
                assert(following.strong[right].contains(middle));
                if l != middle {
                    assert(net.reach[left].contains(l));
                }
            }
        }
    }
    if let Some(shared) = net.share(left, right) {
        let opposing = shared.oppose(left, right);
        assert(shared.strong == net.strong && shared.reach == net.reach && shared.weak == net.weak);
        assert(opposing.closed_under_waiting()) by {
            assert forall|r: int, l: usize| #[trigger]
                opposing.reach[r].contains(l) && 0 <= r < opposing.reach.len() implies exists|
                middle: usize,
            | #[trigger]
                opposing.strong[r].contains(middle) && middle < r && (middle == l
                    || opposing.reach[middle as int].contains(l)) by {
                assert(net.reach[r].contains(l));
                let middle = choose|middle: usize| #[trigger]
                    net.strong[r].contains(middle) && middle < r && (middle == l
                        || net.reach[middle as int].contains(l));
                assert(opposing.strong[r].contains(middle));
            }
        }
    }
}

proof fn lemma_extends(first: Net, second: Net, third: Net)
    requires
        second.extends(first),
        third.extends(second),
    ensures
        third.extends(first),
{
    assert forall|right: int, left: usize| #[trigger]
        first.reach[right].contains(left) && 0 <= right < first.reach.len() implies
        third.reach[right].contains(left) by {
        assert(second.reach[right].contains(left));
    }
    assert forall|right: int, left: usize| #[trigger]
        first.weak[right].contains(left) && 0 <= right < first.weak.len() implies
        third.weak[right].contains(left) by {
        assert(second.weak[right].contains(left));
    }
}

proof fn lemma_resolve(
    declared: Seq<Seq<DependencyView>>,
    net: Net,
    right: int,
    until: int,
)
    requires
        net.even(declared.len() as int),
        0 <= until <= right < declared.len() <= usize::MAX,
        net.closed_under_waiting(),
    ensures
        net.resolve(declared, right, until).even(declared.len() as int),
        net.resolve(declared, right, until).extends(net),
        net.resolve(declared, right, until).closed_under_waiting(),
        forall|left: int|
            until <= left < right ==> #[trigger] net.resolve(
                declared,
                right,
                until,
            ).bound_as_related(declared, left, right),
    decreases right - until,
{
    let after = net.resolve(declared, right, until);
    if until < right {
        let before = net.resolve(declared, right, until + 1);
        lemma_resolve(declared, net, right, until + 1);
        lemma_bind(declared, before, until, right);
        lemma_extends(net, before, after);
        assert forall|left: int| until <= left < right implies #[trigger] after.bound_as_related(
            declared,
            left,
            right,
        ) by {
            if left > until {
                assert(before.bound_as_related(declared, left, right));
            }
        }
    }
}

/// Jobs are bound as they are related: a job waits, however indirectly, for each earlier job that it
/// is strictly related to; and it waits for each earlier job that it is related to in a relaxed way,
/// or must not overlap with it.
pub proof fn jobs_are_bound_as_related(
    declared: Seq<Seq<DependencyView>>,
    until: int,
    left: int,
    right: int,
)
    requires
        0 <= until <= declared.len() <= usize::MAX,
    ensures
        net_of(declared, until).even(declared.len() as int),
        net_of(declared, until).closed_under_waiting(),
        0 <= left < right < until ==> net_of(declared, until).bound_as_related(
            declared,
            left,
            right,
        ),
    decreases until,
{
    if until > 0 {
        jobs_are_bound_as_related(declared, until - 1, left, right);
        let before = net_of(declared, until - 1);
        lemma_resolve(declared, before, until - 1, 0);
        let after = net_of(declared, until);
        assert(after == before.resolve(declared, until - 1, 0));
        if 0 <= left < right < until - 1 {
            assert(before.bound_as_related(declared, left, right));
        } else if 0 <= left < right < until {
            assert(after.bound_as_related(declared, left, right));
        }
    } else {
        assert(Net::unbound(declared.len() as int).closed_under_waiting());
    }
}

/// How many of the first `until` jobs of a list are not done.
pub open spec fn unmet(list: Seq<usize>, done: Set<usize>, until: int) -> int
    decreases until,
{
    if until <= 0 {
        0
    } else {
        unmet(list, done, until - 1) + (if done.contains(list[until - 1]) {
            0int
        } else {
            1
        })
    }
}

/// Where the jobs of a worker are: which have been found to wait for nothing but have not been tried
/// yet, which have started, which hold their locks, and which are done. Of the jobs that wait for
/// one that is about to be done, some have been told.
pub struct Course {
    pub untried: Set<usize>,
    pub started: Set<usize>,
    pub running: Set<usize>,
    pub done: Set<usize>,
    pub finishing: usize,
    pub told: Set<usize>,
}

impl Course {
    /// What a job knows to be done.
    pub open spec fn known_done(self, node: usize) -> Set<usize> {
        if self.told.contains(node) {
            self.done.insert(self.finishing)
        } else {
            self.done
        }
    }

    /// Whether all that a job waits for is known to be done.
    pub open spec fn may_start(self, shape: WorkShape, node: usize) -> bool {
        let list = shape.previous[node as int];
        forall|index: int|
            0 <= index < list.len() ==> self.known_done(node).contains(#[trigger] list[index])
    }

    /// Whether the state of a worker is right about a job.
    pub open spec fn right_about(
        self,
        net: Net,
        shape: WorkShape,
        state: WorkState,
        node: usize,
    ) -> bool {
        node < shape.locks.len() ==> {
            let list = shape.previous[node as int];
            &&& !self.started.contains(node) ==> state.waits[node as int] == unmet(
                list,
                self.known_done(node),
                list.len() as int,
            )
            &&& self.started.contains(node) ==> self.may_start(shape, node)
            &&& self.done.contains(node) ==> state.waits[node as int] == list.len()
            &&& self.untried.contains(node) ==> !self.started.contains(node) && self.may_start(
                shape,
                node,
            )
            &&& match net.homes[node as int] {
                None => !self.started.contains(node) && self.may_start(shape, node)
                    ==> self.untried.contains(node),
                Some(seat) => mask_bit(state.words[seat.cluster].ready, seat.slot) == (
                !self.started.contains(node) && self.may_start(shape, node)
                    && !self.untried.contains(node)),
            }
        }
    }

    /// Whether a bit of a cluster is locked by a running job.
    pub open spec fn locked(
        self,
        net: Net,
        shape: WorkShape,
        cluster: int,
        slot: int,
    ) -> bool {
        exists|node: usize|
            node < shape.locks.len() && #[trigger] self.running.contains(node)
                && net.homes[node as int] is Some && net.seat(node as int).cluster == cluster
                && mask_bit(shape.locks[node as int], slot)
    }

    /// Whether the state of a worker is right about all jobs, and the running jobs of a cluster hold
    /// different locks.
    pub open spec fn keeps_order(self, net: Net, shape: WorkShape, state: WorkState) -> bool {
        &&& state.waits.len() == shape.locks.len()
        &&& state.words.len() == net.clusters.len()
        &&& forall|cluster: int, slot: int|
            0 <= cluster < net.clusters.len() && 0 <= slot < 32 && #[trigger] mask_bit(
                state.words[cluster].ready,
                slot,
            ) ==> slot < net.clusters[cluster].len()
        &&& forall|node: usize| #[trigger] self.done.contains(node) ==> self.started.contains(node)
        &&& forall|node: usize| #[trigger]
            self.running.contains(node) ==> self.started.contains(node)
        &&& forall|node: usize| #[trigger] self.right_about(net, shape, state, node)
        &&& forall|cluster: int, slot: int|
            0 <= cluster < net.clusters.len() && 0 <= slot < 32 ==> mask_bit(
                state.words[cluster].lock,
                slot,
            ) == #[trigger] self.locked(net, shape, cluster, slot)
        &&& forall|left: usize, right: usize, slot: int|
            #![trigger self.running.contains(left), self.running.contains(right), mask_bit(shape.locks[left as int], slot)]
            left < shape.locks.len() && right < shape.locks.len() && left != right
                && self.running.contains(left) && self.running.contains(right)
                && net.homes[left as int] is Some && net.homes[right as int] is Some && net.seat(
                left as int,
            ).cluster == net.seat(right as int).cluster && 0 <= slot < 32 && mask_bit(
                shape.locks[left as int],
                slot,
            ) ==> !mask_bit(shape.locks[right as int], slot)
    }

    /// A job starts, and holds its locks.
    pub open spec fn start(self, node: usize) -> Course {
        Course {
            untried: self.untried.remove(node),
            started: self.started.insert(node),
            running: self.running.insert(node),
            ..self
        }
    }

    /// Jobs start one after the other.
    pub open spec fn start_all(self, nodes: Seq<usize>, until: int) -> Course
        decreases until,
    {
        if until <= 0 {
            self
        } else {
            self.start_all(nodes, until - 1).start(nodes[until - 1])
        }
    }
}

/// Jobs that must not overlap do not run at the same time.
pub proof fn rivals_do_not_overlap(
    course: Course,
    net: Net,
    shape: WorkShape,
    state: WorkState,
    left: usize,
    right: usize,
)
    requires
        shape_shows(net, shape),
        course.keeps_order(net, shape, state),
        left < net.homes.len(),
        right < net.homes.len(),
        left != right,
        net.rivals(left as int, right as int),
    ensures
        !(course.running.contains(left) && course.running.contains(right)),
{
    assert(net.weak[right as int].contains(left) || net.weak[left as int].contains(right));
    let seat = net.seat(left as int);
    assert(net.homes[left as int] == Some(seat));
    assert(net.homes[right as int] is Some);
    assert(net.clusters[seat.cluster].len() <= 32);
    assert(shape_shows_node(net, shape, left as int));
    assert(shape_shows_node(net, shape, right as int));
    assert(net.locks(left as int, seat.slot)) by {
        assert(net.rivals(left as int, right as int));
    }
    assert(net.locks(right as int, seat.slot)) by {
        assert(net.rivals(right as int, left as int));
    }
    assert(mask_bit(shape.locks[left as int], seat.slot));
    assert(mask_bit(shape.locks[right as int], seat.slot));
}

/// A job that has started has all done that it waits for, however indirectly.
pub proof fn jobs_start_after_what_they_wait_for(
    course: Course,
    net: Net,
    shape: WorkShape,
    state: WorkState,
    left: usize,
    right: usize,
)
    requires
        shape_shows(net, shape),
        net.closed_under_waiting(),
        course.keeps_order(net, shape, state),
        course.told == Set::<usize>::empty(),
        right < net.homes.len(),
        net.reach[right as int].contains(left),
        course.started.contains(right),
    ensures
        course.done.contains(left),
    decreases right,
{
    let middle = choose|middle: usize| #[trigger]
        net.strong[right as int].contains(middle) && middle < right && (middle == left
            || net.reach[middle as int].contains(left));
    assert(course.right_about(net, shape, state, right));
    assert(shape_shows_node(net, shape, right as int));
    let list = shape.previous[right as int];
    assert(list.contains(middle));
    let index = list.index_of(middle);
    assert(course.known_done(right).contains(list[index]));
    assert(course.done.contains(middle));
    if middle != left {
        jobs_start_after_what_they_wait_for(course, net, shape, state, left, middle);
    }
}

/// Related jobs do not overlap: where both have started, one of them is not running; and where they
/// are strictly related, the one that was pushed first is done before the other starts.
pub proof fn related_jobs_of_a_worker_do_not_overlap(
    declared: Seq<Seq<DependencyView>>,
    course: Course,
    shape: WorkShape,
    state: WorkState,
    left: usize,
    right: usize,
)
    requires
        shape_shows(net_of(declared, declared.len() as int), shape),
        course.keeps_order(net_of(declared, declared.len() as int), shape, state),
        course.told == Set::<usize>::empty(),
        forall|node: usize|
            course.running.contains(node) ==> !#[trigger] course.done.contains(node),
        left < right < declared.len() <= usize::MAX,
        relation_of(declared[left as int], declared[right as int]) != Relation::Free,
    ensures
        !(course.running.contains(left) && course.running.contains(right)),
        relation_of(declared[left as int], declared[right as int]) == Relation::Strict
            && course.started.contains(right) ==> course.done.contains(left),
{
    let net = net_of(declared, declared.len() as int);
    jobs_are_bound_as_related(declared, declared.len() as int, left as int, right as int);
    assert(net.bound_as_related(declared, left as int, right as int));
    if net.reach[right as int].contains(left) {
        if course.started.contains(right) {
            jobs_start_after_what_they_wait_for(course, net, shape, state, left, right);
        }
    } else {
        assert(net.rivals(left as int, right as int));
        rivals_do_not_overlap(course, net, shape, state, left, right);
    }
}

/// Where a job has failed, and so is never done, no job that is strictly related to it and was pushed
/// later starts.
pub proof fn failed_jobs_of_a_worker_hold_back(
    declared: Seq<Seq<DependencyView>>,
    course: Course,
    shape: WorkShape,
    state: WorkState,
    failed: usize,
    node: usize,
)
    requires
        shape_shows(net_of(declared, declared.len() as int), shape),
        course.keeps_order(net_of(declared, declared.len() as int), shape, state),
        course.told == Set::<usize>::empty(),
        forall|other: usize|
            course.running.contains(other) ==> !#[trigger] course.done.contains(other),
        failed < node < declared.len() <= usize::MAX,
        relation_of(declared[failed as int], declared[node as int]) == Relation::Strict,
        !course.done.contains(failed),
    ensures
        !course.started.contains(node),
{
    related_jobs_of_a_worker_do_not_overlap(declared, course, shape, state, failed, node);
}

proof fn lemma_unmet(list: Seq<usize>, done: Set<usize>, until: int)
    requires
        0 <= until <= list.len(),
    ensures
        0 <= unmet(list, done, until) <= until,
        (unmet(list, done, until) == 0) == forall|index: int|
            0 <= index < until ==> done.contains(#[trigger] list[index]),
    decreases until,
{
    if until > 0 {
        lemma_unmet(list, done, until - 1);
        assert(list[until - 1] == list[until - 1]);
    }
}

proof fn lemma_all_unmet(list: Seq<usize>, until: int)
    requires
        0 <= until <= list.len(),
    ensures
        unmet(list, Set::empty(), until) == until,
    decreases until,
{
    if until > 0 {
        lemma_all_unmet(list, until - 1);
    }
}

proof fn lemma_one_met(list: Seq<usize>, done: Set<usize>, node: usize, until: int)
    requires
        0 <= until <= list.len(),
        climbing(list),
        !done.contains(node),
    ensures
        unmet(list, done.insert(node), until) == unmet(list, done, until) - (if list.take(
            until,
        ).contains(node) {
            1int
        } else {
            0
        }),
    decreases until,
{
    if until > 0 {
        lemma_one_met(list, done, node, until - 1);
        let shorter = list.take(until - 1);
        let longer = list.take(until);
        assert(longer =~= shorter.push(list[until - 1]));
        if shorter.contains(node) {
            let at = shorter.index_of(node);
            assert(longer[at] == node);
            assert(list[at] < list[until - 1]);
        }
        if longer.contains(node) {
            let at = longer.index_of(node);
            if at < until - 1 {
                assert(shorter[at] == node);
            }
        }
        if list[until - 1] == node {
            assert(longer[until - 1] == node);
        }
    }
}

/// Whether a course is the one before a run: nothing has started, and the jobs that wait for none
/// are to be tried.
pub open spec fn at_rest(shape: WorkShape, course: Course) -> bool {
    &&& course.started == Set::<usize>::empty()
    &&& course.running == Set::<usize>::empty()
    &&& course.done == Set::<usize>::empty()
    &&& course.told == Set::<usize>::empty()
    &&& forall|node: usize| #[trigger]
        course.untried.contains(node) == (node < shape.locks.len()
            && shape.previous[node as int].len() == 0)
}

/// Before a run the state of a worker is right about all jobs.
pub proof fn worker_runs_begin_in_order(
    course: Course,
    net: Net,
    shape: WorkShape,
    state: WorkState,
)
    requires
        shape_shows(net, shape),
        at_rest(shape, course),
        state.waits.len() == shape.locks.len(),
        state.words.len() == net.clusters.len(),
        forall|node: int|
            0 <= node < state.waits.len() ==> #[trigger] state.waits[node]
                == shape.previous[node].len(),
        forall|cluster: int|
            0 <= cluster < state.words.len() ==> (#[trigger] state.words[cluster]).ready == 0
                && state.words[cluster].lock == 0,
    ensures
        course.keeps_order(net, shape, state),
{
    assert forall|slot: int| 0 <= slot < 32 implies !#[trigger] mask_bit(0u32, slot) by {
        lemma_mask_join(0, 0, slot as u32);
    }
    assert forall|node: usize| #[trigger] course.right_about(net, shape, state, node) by {
        if node < shape.locks.len() {
            let list = shape.previous[node as int];
            lemma_all_unmet(list, list.len() as int);
            assert(course.may_start(shape, node) == (list.len() == 0)) by {
                if list.len() > 0 {
                    assert(!course.known_done(node).contains(list[0]));
                }
            }
            assert(state.waits[node as int] == list.len());
            if let Some(seat) = net.homes[node as int] {
                assert(net.clusters[seat.cluster].len() <= 32);
            }
        }
    }
    assert forall|cluster: int, slot: int|
        0 <= cluster < net.clusters.len() && 0 <= slot < 32 implies mask_bit(
        state.words[cluster].lock,
        slot,
    ) == #[trigger] course.locked(net, shape, cluster, slot) by {}
    assert forall|cluster: int, slot: int|
        0 <= cluster < net.clusters.len() && 0 <= slot < 32 && #[trigger] mask_bit(
            state.words[cluster].ready,
            slot,
        ) implies slot < net.clusters[cluster].len() by {}
}

/// Starting a job of a cluster, where none of the bits that it locks is locked, keeps the state
/// right.
proof fn lemma_start_one(
    course: Course,
    net: Net,
    shape: WorkShape,
    state: WorkState,
    node: usize,
    word: Word,
)
    requires
        shape_shows(net, shape),
        course.keeps_order(net, shape, state),
        node < shape.locks.len(),
        net.homes[node as int] is Some,
        !course.started.contains(node),
        course.may_start(shape, node),
        ({
            let seat = net.seat(node as int);
            let before = state.words[seat.cluster];
            &&& before.lock & shape.locks[node as int] == 0
            &&& word.lock == before.lock | shape.locks[node as int]
            &&& forall|slot: int|
                0 <= slot < 32 ==> #[trigger] mask_bit(word.ready, slot) == (slot != seat.slot
                    && mask_bit(before.ready, slot))
        }),
    ensures
        course.start(node).keeps_order(
            net,
            shape,
            (WorkState { words: state.words.update(net.seat(node as int).cluster, word), ..state }),
        ),
{
    let seat = net.seat(node as int);
    let c = seat.cluster;
    let before = state.words[c];
    let lock = shape.locks[node as int];
    let after = WorkState { words: state.words.update(c, word), ..state };
    let now = course.start(node);
    assert(net.homes[node as int] == Some(seat));
    assert(net.clusters[c].len() <= 32);
    assert(shape_shows_node(net, shape, node as int));
    assert forall|other: usize| #[trigger] now.right_about(net, shape, after, other) by {
        assert(course.right_about(net, shape, state, other));
        if other < shape.locks.len() {
            assert(now.known_done(other) == course.known_done(other));
            assert(now.may_start(shape, other) == course.may_start(shape, other)) by {
                let list = shape.previous[other as int];
                if now.may_start(shape, other) {
                    assert forall|index: int| 0 <= index < list.len() implies course.known_done(
                        other,
                    ).contains(#[trigger] list[index]) by {
                        assert(now.known_done(other).contains(list[index]));
                    }
                }
                if course.may_start(shape, other) {
                    assert forall|index: int| 0 <= index < list.len() implies now.known_done(
                        other,
                    ).contains(#[trigger] list[index]) by {
                        assert(course.known_done(other).contains(list[index]));
                    }
                }
            }
            if let Some(there) = net.homes[other as int] {
                assert(net.clusters[there.cluster].len() <= 32);
                assert(net.clusters[there.cluster][there.slot] == other);
                if there.cluster == c {
                    assert(mask_bit(word.ready, there.slot) == (there.slot != seat.slot && mask_bit(
                        before.ready,
                        there.slot,
                    )));
                    if there.slot == seat.slot {
                        assert(other == node);
                    }
                }
            }
        }
    }
    assert forall|cluster: int, slot: int|
        0 <= cluster < net.clusters.len() && 0 <= slot < 32 implies mask_bit(
        after.words[cluster].lock,
        slot,
    ) == #[trigger] now.locked(net, shape, cluster, slot) by {
        assert(mask_bit(state.words[cluster].lock, slot) == course.locked(
            net,
            shape,
            cluster,
            slot,
        ));
        if course.locked(net, shape, cluster, slot) {
            let holder = choose|holder: usize|
                holder < shape.locks.len() && #[trigger] course.running.contains(holder)
                    && net.homes[holder as int] is Some && net.seat(holder as int).cluster
                    == cluster && mask_bit(shape.locks[holder as int], slot);
            assert(now.running.contains(holder));
        }
        if now.locked(net, shape, cluster, slot) {
            let holder = choose|holder: usize|
                holder < shape.locks.len() && #[trigger] now.running.contains(holder)
                    && net.homes[holder as int] is Some && net.seat(holder as int).cluster
                    == cluster && mask_bit(shape.locks[holder as int], slot);
            if holder != node {
                assert(course.running.contains(holder));
            }
        }
        if cluster == c {
            lemma_mask_join(before.lock, lock, slot as u32);
            if mask_bit(lock, slot) {
                assert(now.running.contains(node));
            }
        }
    }
    assert forall|left: usize, right: usize, slot: int|
        #![trigger now.running.contains(left), now.running.contains(right), mask_bit(shape.locks[left as int], slot)]
        left < shape.locks.len() && right < shape.locks.len() && left != right
            && now.running.contains(left) && now.running.contains(right)
            && net.homes[left as int] is Some && net.homes[right as int] is Some && net.seat(
            left as int,
        ).cluster == net.seat(right as int).cluster && 0 <= slot < 32 && mask_bit(
            shape.locks[left as int],
            slot,
        ) implies !mask_bit(shape.locks[right as int], slot) by {
        lemma_masks_disjoint(before.lock, lock, slot as u32);
        if left == node {
            if mask_bit(shape.locks[right as int], slot) {
                assert(course.running.contains(right));
                assert(course.locked(net, shape, c, slot));
            }
        } else if right == node {
            if mask_bit(shape.locks[right as int], slot) {
                assert(course.running.contains(left));
                assert(course.locked(net, shape, c, slot));
            }
        } else {
            assert(course.running.contains(left) && course.running.contains(right));
        }
    }
    assert forall|cluster: int, slot: int|
        0 <= cluster < net.clusters.len() && 0 <= slot < 32 && #[trigger] mask_bit(
            after.words[cluster].ready,
            slot,
        ) implies slot < net.clusters[cluster].len() by {
        if cluster == c {
            assert(mask_bit(word.ready, slot));
        }
        assert(mask_bit(state.words[cluster].ready, slot));
    }
}

/// Letting ready jobs of a cluster try to run keeps the state right.
proof fn lemma_sweep(
    course: Course,
    net: Net,
    shape: WorkShape,
    state: WorkState,
    cluster: int,
    tried: u32,
    until: int,
)
    requires
        shape_shows(net, shape),
        course.keeps_order(net, shape, state),
        0 <= cluster < net.clusters.len(),
        0 <= until <= net.clusters[cluster].len(),
    ensures
        ({
            let (word, spawned) = shape.sweep(state.words[cluster], cluster, tried, until);
            &&& course.start_all(spawned, spawned.len() as int).keeps_order(
                net,
                shape,
                (WorkState { words: state.words.update(cluster, word), ..state }),
            )
            &&& course.start_all(spawned, spawned.len() as int).done == course.done
            &&& course.start_all(spawned, spawned.len() as int).told == course.told
            &&& course.start_all(spawned, spawned.len() as int).finishing == course.finishing
            &&& forall|node: usize| #[trigger]
                spawned.contains(node) ==> node < shape.locks.len() && !course.started.contains(
                    node,
                ) && !course.untried.contains(node)
            &&& spawned.no_duplicates()
        }),
    decreases until,
{
    let start = state.words[cluster];
    if until <= 0 {
        assert(state.words.update(cluster, start) =~= state.words);
    } else {
        lemma_sweep(course, net, shape, state, cluster, tried, until - 1);
        let (rest, spawned) = shape.sweep(start, cluster, tried, until - 1);
        let slot = until - 1;
        let node = shape.members[cluster][slot];
        let bit = shape.bits[node as int];
        let lock = shape.locks[node as int];
        let middle = course.start_all(spawned, spawned.len() as int);
        let between = WorkState { words: state.words.update(cluster, rest), ..state };
        assert(net.clusters[cluster][slot] == node);
        assert(net.clusters[cluster].len() <= 32);
        assert(net.homes[node as int] is Some && net.seat(node as int).cluster == cluster
            && net.seat(node as int).slot == slot);
        assert(shape_shows_node(net, shape, node as int));
        if mask_bit(tried, slot) && rest.ready & bit == bit && rest.lock & lock == 0 {
            let word = Word { ready: rest.ready & !bit, lock: rest.lock | lock };
            let longer = spawned.push(node);
            assert(mask_bit(rest.ready, slot)) by {
                lemma_whole_bit(rest.ready, slot as u32);
            }
            assert(middle.right_about(net, shape, between, node));
            assert(between.words[cluster] == rest);
            assert forall|at: int| 0 <= at < 32 implies #[trigger] mask_bit(word.ready, at) == (at
                != slot && mask_bit(rest.ready, at)) by {
                lemma_mask_join(rest.ready, bit, at as u32);
                lemma_mask_single(slot as u32, at as u32);
            }
            lemma_start_one(middle, net, shape, between, node, word);
            assert(between.words.update(cluster, word) =~= state.words.update(cluster, word));
            lemma_start_push(course, spawned, node);
            lemma_started(course, spawned, spawned.len() as int);
            assert forall|other: usize| #[trigger] longer.contains(other) implies other
                < shape.locks.len() && !course.started.contains(other) && !course.untried.contains(
                other,
            ) by {
                if other == node {
                    assert(!middle.started.contains(node) && !middle.untried.contains(node));
                    if course.untried.contains(node) {
                        assert(!spawned.contains(node)) by {
                            if spawned.contains(node) {
                                assert(middle.started.contains(node));
                            }
                        }
                    }
                } else {
                    let at = longer.index_of(other);
                    assert(spawned[at] == other);
                    assert(spawned.contains(other));
                }
            }
            assert(!spawned.contains(node)) by {
                if spawned.contains(node) {
                    assert(middle.started.contains(node));
                }
            }
            lemma_joined_once(spawned, seq![node]);
            assert(longer =~= spawned + seq![node]);
        }
    }
}

/// Two lists without repetition that have nothing in common make one.
proof fn lemma_joined_once(left: Seq<usize>, right: Seq<usize>)
    requires
        left.no_duplicates(),
        right.no_duplicates(),
        forall|index: int| 0 <= index < right.len() ==> !left.contains(#[trigger] right[index]),
    ensures
        (left + right).no_duplicates(),
{
    let all = left + right;
    assert forall|i: int, j: int| 0 <= i < all.len() && 0 <= j < all.len() && i != j implies all[i]
        != all[j] by {
        if i < left.len() && j >= left.len() {
            assert(all[j] == right[j - left.len()]);
            assert(left.contains(left[i]));
        }
        if j < left.len() && i >= left.len() {
            assert(all[i] == right[i - left.len()]);
            assert(left.contains(left[j]));
        }
    }
}

proof fn lemma_whole_bit(word: u32, slot: u32)
    requires
        slot < 32,
        word & (1u32 << slot) == (1u32 << slot),
    ensures
        word & (1u32 << slot) != 0,
{
    assert(1u32 << slot != 0) by (bit_vector)
        requires
            slot < 32,
    ;
}

/// What it means that jobs have started one after the other.
pub(crate) proof fn lemma_started(course: Course, nodes: Seq<usize>, until: int)
    requires
        0 <= until <= nodes.len(),
    ensures
        forall|node: usize| #[trigger]
            course.start_all(nodes, until).started.contains(node) == (course.started.contains(node)
                || nodes.take(until).contains(node)),
        forall|node: usize| #[trigger]
            course.start_all(nodes, until).running.contains(node) == (course.running.contains(node)
                || nodes.take(until).contains(node)),
        forall|node: usize| #[trigger]
            course.start_all(nodes, until).untried.contains(node) == (course.untried.contains(node)
                && !nodes.take(until).contains(node)),
        course.start_all(nodes, until).done == course.done,
        course.start_all(nodes, until).told == course.told,
        course.start_all(nodes, until).finishing == course.finishing,
        forall|node: usize| nodes.contains(node) == #[trigger] nodes.take(
            nodes.len() as int,
        ).contains(node),
    decreases until,
{
    assert(nodes.take(nodes.len() as int) =~= nodes);
    if until > 0 {
        lemma_started(course, nodes, until - 1);
        let shorter = nodes.take(until - 1);
        let longer = nodes.take(until);
        assert(longer =~= shorter.push(nodes[until - 1]));
        assert forall|node: usize| #[trigger] longer.contains(node) == (shorter.contains(node)
            || node == nodes[until - 1]) by {
            if shorter.contains(node) {
                assert(longer[shorter.index_of(node)] == node);
            }
            if node == nodes[until - 1] {
                assert(longer[until - 1] == node);
            }
            if longer.contains(node) {
                let at = longer.index_of(node);
                if at < until - 1 {
                    assert(shorter[at] == node);
                }
            }
        }
        assert forall|node: usize| #[trigger] course.start_all(nodes, until).untried.contains(node)
            == (course.untried.contains(node) && !longer.contains(node)) by {
            assert(course.start_all(nodes, until - 1).untried.contains(node) == (
            course.untried.contains(node) && !shorter.contains(node)));
        }
    } else {
        assert(nodes.take(until) =~= Seq::empty());
    }
}

/// Starting one job more.
proof fn lemma_start_push(course: Course, nodes: Seq<usize>, node: usize)
    ensures
        course.start_all(nodes.push(node), nodes.len() as int + 1) == course.start_all(
            nodes,
            nodes.len() as int,
        ).start(node),
{
    let end = nodes.len() as int;
    assert(nodes.take(end) =~= nodes.push(node).take(end));
    lemma_start_prefix(course, nodes, nodes.push(node), end);
}

proof fn lemma_start_prefix(course: Course, left: Seq<usize>, right: Seq<usize>, until: int)
    requires
        0 <= until <= left.len(),
        until <= right.len(),
        left.take(until) == right.take(until),
    ensures
        course.start_all(left, until) == course.start_all(right, until),
    decreases until,
{
    if until > 0 {
        assert(left[until - 1] == left.take(until)[until - 1]);
        assert(right[until - 1] == right.take(until)[until - 1]);
        assert(left.take(until - 1) =~= left.take(until).take(until - 1));
        assert(right.take(until - 1) =~= right.take(until).take(until - 1));
        lemma_start_prefix(course, left, right, until - 1);
    }
}

/// Starting one job and more after it.
proof fn lemma_start_first(course: Course, node: usize, nodes: Seq<usize>, until: int)
    requires
        0 <= until <= nodes.len(),
    ensures
        course.start_all(seq![node] + nodes, until + 1) == course.start(node).start_all(
            nodes,
            until,
        ),
    decreases until,
{
    let all = seq![node] + nodes;
    if until > 0 {
        lemma_start_first(course, node, nodes, until - 1);
        assert(all[until] == nodes[until - 1]);
    } else {
        assert(all[0] == node);
        assert(course.start_all(all, 1) == course.start_all(all, 0).start(all[0]));
    }
}

/// Starting some jobs and then more.
proof fn lemma_start_more(course: Course, first: Seq<usize>, second: Seq<usize>, until: int)
    requires
        0 <= until <= second.len(),
    ensures
        course.start_all(first + second, first.len() + until) == course.start_all(
            first,
            first.len() as int,
        ).start_all(second, until),
    decreases until,
{
    let all = first + second;
    if until > 0 {
        lemma_start_more(course, first, second, until - 1);
        assert(all[first.len() + until - 1] == second[until - 1]);
    } else {
        assert(all.take(first.len() as int) =~= first.take(first.len() as int));
        lemma_start_prefix(course, first, all, first.len() as int);
    }
}

impl Course {
    /// A job has been tried.
    pub open spec fn try_one(self, node: usize) -> Course {
        Course { untried: self.untried.remove(node), ..self }
    }
}

/// Trying to run a job that waits for nothing keeps the state right.
pub proof fn trying_keeps_order(
    course: Course,
    net: Net,
    shape: WorkShape,
    state: WorkState,
    node: usize,
)
    requires
        shape_shows(net, shape),
        course.keeps_order(net, shape, state),
        node < shape.locks.len(),
        course.untried.contains(node),
    ensures
        ({
            let (after, spawned) = shape.begin(state, node);
            &&& course.try_one(node).start_all(spawned, spawned.len() as int).keeps_order(
                net,
                shape,
                after,
            )
            &&& after.waits == state.waits
            &&& forall|other: usize| #[trigger]
                spawned.contains(other) ==> other < shape.locks.len() && !course.started.contains(
                    other,
                ) && (other == node || !course.untried.contains(other))
            &&& spawned.no_duplicates()
        }),
{
    let (after, spawned) = shape.begin(state, node);
    let tried = course.try_one(node);
    assert(shape_shows_node(net, shape, node as int));
    assert(course.right_about(net, shape, state, node));
    match net.homes[node as int] {
        None => {
            let now = course.start(node);
            assert(spawned =~= seq![node]);
            assert(tried.start_all(spawned, 1) == tried.start_all(spawned, 0).start(spawned[0]));
            assert(tried.start(node).untried =~= now.untried);
            assert forall|other: usize| #[trigger] now.right_about(net, shape, state, other) by {
                assert(course.right_about(net, shape, state, other));
                if other < shape.locks.len() {
                    lemma_same_start(course, now, shape, other);
                }
            }
            assert forall|cluster: int, slot: int|
                0 <= cluster < net.clusters.len() && 0 <= slot < 32 implies mask_bit(
                state.words[cluster].lock,
                slot,
            ) == #[trigger] now.locked(net, shape, cluster, slot) by {
                assert(mask_bit(state.words[cluster].lock, slot) == course.locked(
                    net,
                    shape,
                    cluster,
                    slot,
                ));
                if course.locked(net, shape, cluster, slot) {
                    let holder = choose|holder: usize|
                        holder < shape.locks.len() && #[trigger] course.running.contains(holder)
                            && net.homes[holder as int] is Some && net.seat(holder as int).cluster
                            == cluster && mask_bit(shape.locks[holder as int], slot);
                    assert(now.running.contains(holder));
                }
                if now.locked(net, shape, cluster, slot) {
                    let holder = choose|holder: usize|
                        holder < shape.locks.len() && #[trigger] now.running.contains(holder)
                            && net.homes[holder as int] is Some && net.seat(holder as int).cluster
                            == cluster && mask_bit(shape.locks[holder as int], slot);
                    assert(course.running.contains(holder));
                }
            }
            assert forall|left: usize, right: usize, slot: int|
                #![trigger now.running.contains(left), now.running.contains(right), mask_bit(shape.locks[left as int], slot)]
                left < shape.locks.len() && right < shape.locks.len() && left != right
                    && now.running.contains(left) && now.running.contains(right)
                    && net.homes[left as int] is Some && net.homes[right as int] is Some
                    && net.seat(left as int).cluster == net.seat(right as int).cluster && 0 <= slot
                    < 32 && mask_bit(shape.locks[left as int], slot) implies !mask_bit(
                shape.locks[right as int],
                slot,
            ) by {
                assert(course.running.contains(left) && course.running.contains(right));
            }
        },
        Some(seat) => {
            let c = seat.cluster;
            let word = state.words[c];
            let bit = shape.bits[node as int];
            let lock = shape.locks[node as int];
            assert(net.clusters[c].len() <= 32);
            if word.lock & lock != 0 {
                assert(spawned =~= Seq::empty());
                assert(tried.start_all(spawned, 0) == tried);
                assert forall|at: int| 0 <= at < 32 implies #[trigger] mask_bit(
                    after.words[c].ready,
                    at,
                ) == (mask_bit(word.ready, at) || at == seat.slot) by {
                    lemma_mask_join(word.ready, bit, at as u32);
                    lemma_mask_single(seat.slot as u32, at as u32);
                }
                assert forall|other: usize| #[trigger] tried.right_about(
                    net,
                    shape,
                    after,
                    other,
                ) by {
                    assert(course.right_about(net, shape, state, other));
                    if other < shape.locks.len() {
                        lemma_same_start(course, tried, shape, other);
                        if let Some(there) = net.homes[other as int] {
                            assert(net.clusters[there.cluster].len() <= 32);
                            assert(net.clusters[there.cluster][there.slot] == other);
                            if there.cluster == c {
                                assert(mask_bit(after.words[c].ready, there.slot) == (mask_bit(
                                    word.ready,
                                    there.slot,
                                ) || there.slot == seat.slot));
                                if there.slot == seat.slot {
                                    assert(net.clusters[c][seat.slot] == node);
                                }
                            }
                        }
                    }
                }
                assert forall|cluster: int, slot: int|
                    0 <= cluster < net.clusters.len() && 0 <= slot < 32 implies mask_bit(
                    after.words[cluster].lock,
                    slot,
                ) == #[trigger] tried.locked(net, shape, cluster, slot) by {
                    assert(mask_bit(state.words[cluster].lock, slot) == course.locked(
                        net,
                        shape,
                        cluster,
                        slot,
                    ));
                    lemma_same_locked(course, tried, net, shape, cluster, slot);
                }
                assert forall|left: usize, right: usize, slot: int|
                    #![trigger tried.running.contains(left), tried.running.contains(right), mask_bit(shape.locks[left as int], slot)]
                    left < shape.locks.len() && right < shape.locks.len() && left != right
                        && tried.running.contains(left) && tried.running.contains(right)
                        && net.homes[left as int] is Some && net.homes[right as int] is Some
                        && net.seat(left as int).cluster == net.seat(right as int).cluster && 0
                        <= slot < 32 && mask_bit(shape.locks[left as int], slot) implies !mask_bit(
                    shape.locks[right as int],
                    slot,
                ) by {
                    assert(course.running.contains(left) && course.running.contains(right));
                }
                assert forall|cluster: int, slot: int|
                    0 <= cluster < net.clusters.len() && 0 <= slot < 32 && #[trigger] mask_bit(
                        after.words[cluster].ready,
                        slot,
                    ) implies slot < net.clusters[cluster].len() by {
                    if cluster != c || slot != seat.slot {
                        assert(mask_bit(state.words[cluster].ready, slot));
                    }
                }
            } else {
                let reserved = Word { ready: word.ready, lock: word.lock | lock };
                let between = WorkState { words: state.words.update(c, reserved), ..state };
                assert(!mask_bit(word.ready, seat.slot));
                assert forall|at: int| 0 <= at < 32 implies #[trigger] mask_bit(reserved.ready, at)
                    == (at != seat.slot && mask_bit(word.ready, at)) by {}
                lemma_start_one(course, net, shape, state, node, reserved);
                let mask = word.ready & (!lock & !bit);
                let end = shape.members[c].len() as int;
                lemma_sweep(course.start(node), net, shape, between, c, mask, end);
                let (swept, more) = shape.sweep(reserved, c, mask, end);
                assert(between.words[c] == reserved);
                assert(between.words.update(c, swept) =~= state.words.update(c, swept));
                assert(spawned == seq![node] + more);
                lemma_start_first(tried, node, more, more.len() as int);
                assert(tried.start(node).untried =~= course.start(node).untried);
                assert(tried.start(node) == course.start(node));
                assert forall|other: usize| #[trigger] spawned.contains(other) implies other
                    < shape.locks.len() && !course.started.contains(other) && (other == node
                    || !course.untried.contains(other)) by {
                    let at = spawned.index_of(other);
                    if at > 0 {
                        assert(more[at - 1] == other);
                        assert(more.contains(other));
                    }
                }
                assert forall|index: int| 0 <= index < more.len() implies !seq![node].contains(
                    #[trigger] more[index],
                ) by {
                    assert(more.contains(more[index]));
                    assert(course.start(node).started.contains(node));
                }
                lemma_joined_once(seq![node], more);
            }
        },
    }
}

/// What a job knows to be done does not change with what has been tried, has started or runs.
proof fn lemma_same_start(left: Course, right: Course, shape: WorkShape, node: usize)
    requires
        left.done == right.done,
        left.told == right.told,
        left.finishing == right.finishing,
    ensures
        left.known_done(node) == right.known_done(node),
        left.may_start(shape, node) == right.may_start(shape, node),
{
    let list = shape.previous[node as int];
    if left.may_start(shape, node) {
        assert forall|index: int| 0 <= index < list.len() implies right.known_done(node).contains(
            #[trigger] list[index],
        ) by {
            assert(left.known_done(node).contains(list[index]));
        }
    }
    if right.may_start(shape, node) {
        assert forall|index: int| 0 <= index < list.len() implies left.known_done(node).contains(
            #[trigger] list[index],
        ) by {
            assert(right.known_done(node).contains(list[index]));
        }
    }
}

proof fn lemma_same_locked(
    left: Course,
    right: Course,
    net: Net,
    shape: WorkShape,
    cluster: int,
    slot: int,
)
    requires
        left.running == right.running,
    ensures
        left.locked(net, shape, cluster, slot) == right.locked(net, shape, cluster, slot),
{
    if left.locked(net, shape, cluster, slot) {
        let holder = choose|holder: usize|
            holder < shape.locks.len() && #[trigger] left.running.contains(holder)
                && net.homes[holder as int] is Some && net.seat(holder as int).cluster == cluster
                && mask_bit(shape.locks[holder as int], slot);
        assert(right.running.contains(holder));
    }
    if right.locked(net, shape, cluster, slot) {
        let holder = choose|holder: usize|
            holder < shape.locks.len() && #[trigger] right.running.contains(holder)
                && net.homes[holder as int] is Some && net.seat(holder as int).cluster == cluster
                && mask_bit(shape.locks[holder as int], slot);
        assert(left.running.contains(holder));
    }
}

impl Course {
    /// A job has unlocked what it locked, and is about to be done.
    pub open spec fn release(self, node: usize) -> Course {
        Course {
            running: self.running.remove(node),
            finishing: node,
            told: Set::empty(),
            ..self
        }
    }

    /// The first `until` jobs of a list have been told that a job is about to be done.
    pub open spec fn tell(self, list: Seq<usize>, until: int) -> Course {
        Course { told: list.take(until).to_set(), ..self }
    }

    /// A job is done.
    pub open spec fn complete(self) -> Course {
        Course { done: self.done.insert(self.finishing), told: Set::empty(), ..self }
    }
}

/// Unlocking what a job locked, and letting others try, keeps the state right.
proof fn lemma_unlocking(
    course: Course,
    net: Net,
    shape: WorkShape,
    state: WorkState,
    node: usize,
)
    requires
        shape_shows(net, shape),
        course.keeps_order(net, shape, state),
        course.told == Set::<usize>::empty(),
        node < shape.locks.len(),
        course.running.contains(node),
        !course.done.contains(node),
    ensures
        ({
            let (after, spawned) = shape.unlock(state, node);
            &&& course.release(node).start_all(spawned, spawned.len() as int).keeps_order(
                net,
                shape,
                after,
            )
            &&& after.waits == state.waits
            &&& forall|other: usize| #[trigger]
                spawned.contains(other) ==> other < shape.locks.len() && !course.started.contains(
                    other,
                ) && !course.untried.contains(other)
            &&& spawned.no_duplicates()
        }),
{
    let released = course.release(node);
    let (after, spawned) = shape.unlock(state, node);
    assert(shape_shows_node(net, shape, node as int));
    let between = match net.homes[node as int] {
        None => state,
        Some(seat) => WorkState {
            words: state.words.update(
                seat.cluster,
                Word {
                    ready: state.words[seat.cluster].ready,
                    lock: state.words[seat.cluster].lock & !shape.locks[node as int],
                },
            ),
            ..state
        },
    };
    assert forall|other: usize| #[trigger] released.right_about(net, shape, between, other) by {
        assert(course.right_about(net, shape, state, other));
        if other < shape.locks.len() {
            assert(course.known_done(other) == released.known_done(other));
            lemma_same_known(course, released, shape, other);
        }
    }
    assert forall|cluster: int, slot: int|
        0 <= cluster < net.clusters.len() && 0 <= slot < 32 implies mask_bit(
        between.words[cluster].lock,
        slot,
    ) == #[trigger] released.locked(net, shape, cluster, slot) by {
        assert(mask_bit(state.words[cluster].lock, slot) == course.locked(
            net,
            shape,
            cluster,
            slot,
        ));
        if released.locked(net, shape, cluster, slot) {
            let holder = choose|holder: usize|
                holder < shape.locks.len() && #[trigger] released.running.contains(holder)
                    && net.homes[holder as int] is Some && net.seat(holder as int).cluster
                    == cluster && mask_bit(shape.locks[holder as int], slot);
            assert(course.running.contains(holder));
            assert(course.locked(net, shape, cluster, slot));
            if net.homes[node as int] is Some && net.seat(node as int).cluster == cluster {
                assert(!mask_bit(shape.locks[node as int], slot));
                lemma_mask_join(
                    state.words[cluster].lock,
                    shape.locks[node as int],
                    slot as u32,
                );
            }
        }
        if mask_bit(between.words[cluster].lock, slot) {
            if net.homes[node as int] is Some && net.seat(node as int).cluster == cluster {
                lemma_mask_join(
                    state.words[cluster].lock,
                    shape.locks[node as int],
                    slot as u32,
                );
                assert(!mask_bit(shape.locks[node as int], slot));
            }
            let holder = choose|holder: usize|
                holder < shape.locks.len() && #[trigger] course.running.contains(holder)
                    && net.homes[holder as int] is Some && net.seat(holder as int).cluster
                    == cluster && mask_bit(shape.locks[holder as int], slot);
            assert(holder != node);
            assert(released.running.contains(holder));
        }
    }
    assert forall|left: usize, right: usize, slot: int|
        #![trigger released.running.contains(left), released.running.contains(right), mask_bit(shape.locks[left as int], slot)]
        left < shape.locks.len() && right < shape.locks.len() && left != right
            && released.running.contains(left) && released.running.contains(right)
            && net.homes[left as int] is Some && net.homes[right as int] is Some && net.seat(
            left as int,
        ).cluster == net.seat(right as int).cluster && 0 <= slot < 32 && mask_bit(
            shape.locks[left as int],
            slot,
        ) implies !mask_bit(shape.locks[right as int], slot) by {
        assert(course.running.contains(left) && course.running.contains(right));
    }
    assert forall|cluster: int, slot: int|
        0 <= cluster < net.clusters.len() && 0 <= slot < 32 && #[trigger] mask_bit(
            between.words[cluster].ready,
            slot,
        ) implies slot < net.clusters[cluster].len() by {
        assert(mask_bit(state.words[cluster].ready, slot));
    }
    assert(released.keeps_order(net, shape, between));
    match net.homes[node as int] {
        None => {
            assert(spawned =~= Seq::empty());
            assert(released.start_all(spawned, 0) == released);
        },
        Some(seat) => {
            let c = seat.cluster;
            let word = state.words[c];
            let bit = shape.bits[node as int];
            let lock = shape.locks[node as int];
            let mask = word.ready & !bit;
            let end = shape.members[c].len() as int;
            lemma_sweep(released, net, shape, between, c, mask, end);
            let swept = shape.sweep(between.words[c], c, mask, end).0;
            assert(between.words.update(c, swept) =~= state.words.update(c, swept));
        },
    }
}

proof fn lemma_same_known(left: Course, right: Course, shape: WorkShape, node: usize)
    requires
        left.known_done(node) == right.known_done(node),
    ensures
        left.may_start(shape, node) == right.may_start(shape, node),
{
    let list = shape.previous[node as int];
    if left.may_start(shape, node) {
        assert forall|index: int| 0 <= index < list.len() implies right.known_done(node).contains(
            #[trigger] list[index],
        ) by {
            assert(left.known_done(node).contains(list[index]));
        }
    }
    if right.may_start(shape, node) {
        assert forall|index: int| 0 <= index < list.len() implies left.known_done(node).contains(
            #[trigger] list[index],
        ) by {
            assert(right.known_done(node).contains(list[index]));
        }
    }
}

/// Telling one job that a job that it waits for is about to be done keeps the state right; the job is
/// to be tried where it waits for nothing else.
proof fn lemma_tell_one(
    course: Course,
    net: Net,
    shape: WorkShape,
    state: WorkState,
    index: int,
)
    requires
        shape_shows(net, shape),
        course.keeps_order(net, shape, state),
        course.finishing < shape.locks.len(),
        !course.done.contains(course.finishing),
        0 <= index < shape.next[course.finishing as int].len(),
        course.told == shape.next[course.finishing as int].take(index).to_set(),
    ensures
        ({
            let list = shape.next[course.finishing as int];
            let node = list[index];
            let wait = state.waits[node as int];
            let counted = WorkState {
                waits: state.waits.update(node as int, wait.wrapping_sub(1)),
                ..state
            };
            let told = course.tell(list, index + 1);
            let now = Course {
                untried: if wait == 1 {
                    told.untried.insert(node)
                } else {
                    told.untried
                },
                ..told
            };
            &&& now.keeps_order(net, shape, counted)
            &&& node < shape.locks.len()
            &&& !course.started.contains(node)
            &&& !course.untried.contains(node)
        }),
{
    let finishing = course.finishing;
    let list = shape.next[finishing as int];
    let node = list[index];
    let wait = state.waits[node as int];
    let counted = WorkState { waits: state.waits.update(node as int, wait.wrapping_sub(1)), ..state };
    let told = course.tell(list, index + 1);
    let now = Course {
        untried: if wait == 1 {
            told.untried.insert(node)
        } else {
            told.untried
        },
        ..told
    };
    assert(shape_shows_node(net, shape, finishing as int));
    assert(list.contains(node));
    assert(shape_shows_node(net, shape, node as int));
    let own = shape.previous[node as int];
    assert(own.contains(finishing));
    let shorter = list.take(index);
    let longer = list.take(index + 1);
    assert(longer =~= shorter.push(node));
    assert(!shorter.contains(node)) by {
        if shorter.contains(node) {
            let at = shorter.index_of(node);
            assert(list[at] < list[index]);
        }
    }
    assert forall|other: usize| #[trigger] longer.contains(other) == (shorter.contains(other)
        || other == node) by {
        if shorter.contains(other) {
            assert(longer[shorter.index_of(other)] == other);
        }
        if other == node {
            assert(longer[index] == node);
        }
        if longer.contains(other) {
            let at = longer.index_of(other);
            if at < index {
                assert(shorter[at] == other);
            }
        }
    }
    assert(course.right_about(net, shape, state, node));
    assert(course.known_done(node) == course.done);
    let at = own.index_of(finishing);
    assert(!course.known_done(node).contains(own[at]));
    assert(!course.may_start(shape, node));
    lemma_unmet(own, course.done, own.len() as int);
    lemma_one_met(own, course.done, finishing, own.len() as int);
    assert(own.take(own.len() as int) =~= own);
    lemma_unmet(own, course.done.insert(finishing), own.len() as int);
    assert(now.known_done(node) == course.done.insert(finishing));
    assert(now.may_start(shape, node) == (unmet(
        own,
        course.done.insert(finishing),
        own.len() as int,
    ) == 0));
    assert forall|other: usize| #[trigger] now.right_about(net, shape, counted, other) by {
        assert(course.right_about(net, shape, state, other));
        if other < shape.locks.len() && other != node {
            assert(now.known_done(other) == course.known_done(other));
            lemma_same_known(course, now, shape, other);
        }
    }
    assert forall|cluster: int, slot: int|
        0 <= cluster < net.clusters.len() && 0 <= slot < 32 implies mask_bit(
        counted.words[cluster].lock,
        slot,
    ) == #[trigger] now.locked(net, shape, cluster, slot) by {
        assert(mask_bit(state.words[cluster].lock, slot) == course.locked(
            net,
            shape,
            cluster,
            slot,
        ));
        lemma_same_locked(course, now, net, shape, cluster, slot);
    }
    assert forall|left: usize, right: usize, slot: int|
        #![trigger now.running.contains(left), now.running.contains(right), mask_bit(shape.locks[left as int], slot)]
        left < shape.locks.len() && right < shape.locks.len() && left != right
            && now.running.contains(left) && now.running.contains(right)
            && net.homes[left as int] is Some && net.homes[right as int] is Some && net.seat(
            left as int,
        ).cluster == net.seat(right as int).cluster && 0 <= slot < 32 && mask_bit(
            shape.locks[left as int],
            slot,
        ) implies !mask_bit(shape.locks[right as int], slot) by {
        assert(course.running.contains(left) && course.running.contains(right));
    }
    assert forall|cluster: int, slot: int|
        0 <= cluster < net.clusters.len() && 0 <= slot < 32 && #[trigger] mask_bit(
            counted.words[cluster].ready,
            slot,
        ) implies slot < net.clusters[cluster].len() by {
        assert(mask_bit(state.words[cluster].ready, slot));
    }
}

/// Telling the jobs that wait for a job keeps the state right.
proof fn lemma_telling(
    course: Course,
    net: Net,
    shape: WorkShape,
    state: WorkState,
    until: int,
)
    requires
        shape_shows(net, shape),
        course.keeps_order(net, shape, state),
        course.told == Set::<usize>::empty(),
        course.finishing < shape.locks.len(),
        !course.done.contains(course.finishing),
        0 <= until <= shape.next[course.finishing as int].len(),
    ensures
        ({
            let list = shape.next[course.finishing as int];
            let (after, spawned) = shape.notify(state, list, until);
            let told = course.tell(list, until).start_all(spawned, spawned.len() as int);
            &&& told.keeps_order(net, shape, after)
            &&& told.done == course.done
            &&& told.finishing == course.finishing
            &&& told.told == list.take(until).to_set()
            &&& forall|node: usize| #[trigger]
                spawned.contains(node) ==> node < shape.locks.len() && !course.started.contains(
                    node,
                ) && !course.untried.contains(node)
            &&& spawned.no_duplicates()
        }),
    decreases until,
{
    let list = shape.next[course.finishing as int];
    let (after, spawned) = shape.notify(state, list, until);
    if until <= 0 {
        assert(list.take(until).to_set() =~= Set::<usize>::empty());
        assert(course.tell(list, until) == course);
    } else {
        lemma_telling(course, net, shape, state, until - 1);
        let (before, earlier) = shape.notify(state, list, until - 1);
        let reached = course.tell(list, until - 1).start_all(earlier, earlier.len() as int);
        lemma_tell_one(reached, net, shape, before, until - 1);
        let node = list[until - 1];
        let wait = before.waits[node as int];
        let counted = WorkState {
            waits: before.waits.update(node as int, wait.wrapping_sub(1)),
            ..before
        };
        let told = reached.tell(list, until);
        lemma_started(course.tell(list, until - 1), earlier, earlier.len() as int);
        lemma_started(course.tell(list, until), earlier, earlier.len() as int);
        let other_way = course.tell(list, until).start_all(earlier, earlier.len() as int);
        assert(other_way == told) by {
            assert(other_way.untried =~= told.untried);
            assert(other_way.started =~= told.started);
            assert(other_way.running =~= told.running);
        }
        if wait == 1 {
            let marked = Course { untried: told.untried.insert(node), ..told };
            trying_keeps_order(marked, net, shape, counted, node);
            let (last, more) = shape.begin(counted, node);
            assert(marked.try_one(node).untried =~= told.untried) by {
                assert(!reached.untried.contains(node));
            }
            assert(marked.try_one(node) == told);
            lemma_start_more(course.tell(list, until), earlier, more, more.len() as int);
            assert(spawned == earlier + more);
            lemma_started(course.tell(list, until), spawned, spawned.len() as int);
            assert forall|other: usize| #[trigger] more.contains(other) implies other
                < shape.locks.len() && !course.started.contains(other) && !course.untried.contains(
                other,
            ) && !earlier.contains(other) by {
                assert(!marked.started.contains(other));
                assert(!told.untried.contains(other)) by {
                    assert(!reached.untried.contains(node));
                }
                assert(earlier.take(earlier.len() as int) =~= earlier);
            }
            assert forall|other: usize| #[trigger] spawned.contains(other) implies other
                < shape.locks.len() && !course.started.contains(other) && !course.untried.contains(
                other,
            ) by {
                let at = spawned.index_of(other);
                if at < earlier.len() {
                    assert(earlier[at] == other);
                    assert(earlier.contains(other));
                } else {
                    assert(more[at - earlier.len()] == other);
                    assert(more.contains(other));
                }
            }
            assert forall|index: int| 0 <= index < more.len() implies !earlier.contains(
                #[trigger] more[index],
            ) by {
                assert(more.contains(more[index]));
            }
            lemma_joined_once(earlier, more);
        } else {
            assert(Course { untried: told.untried, ..told } == told);
        }
    }
}

/// Taking note that a job has finished keeps the state right, and starts only jobs that had not
/// started.
pub proof fn finished_jobs_keep_order(
    course: Course,
    net: Net,
    shape: WorkShape,
    state: WorkState,
    node: usize,
)
    requires
        shape_shows(net, shape),
        course.keeps_order(net, shape, state),
        course.told == Set::<usize>::empty(),
        node < shape.locks.len(),
        course.running.contains(node),
        !course.done.contains(node),
        forall|at: int|
            0 <= at < shape.previous.len() ==> (#[trigger] shape.previous[at]).len() <= usize::MAX,
    ensures
        ({
            let (after, spawned) = shape.finish(state, node);
            &&& course.release(node).start_all(
                spawned,
                spawned.len() as int,
            ).complete().keeps_order(net, shape, after)
            &&& forall|other: usize| #[trigger]
                spawned.contains(other) ==> other < shape.locks.len() && !course.started.contains(
                    other,
                ) && !course.untried.contains(other)
            &&& spawned.no_duplicates()
        }),
{
    let (unlocked, first) = shape.unlock(state, node);
    lemma_unlocking(course, net, shape, state, node);
    let released = course.release(node);
    let ready = released.start_all(first, first.len() as int);
    lemma_started(released, first, first.len() as int);
    let list = shape.next[node as int];
    let end = list.len() as int;
    lemma_telling(ready, net, shape, unlocked, end);
    let (notified, second) = shape.notify(unlocked, list, end);
    let told = ready.tell(list, end).start_all(second, second.len() as int);
    lemma_started(ready.tell(list, end), second, second.len() as int);
    let (after, spawned) = shape.finish(state, node);
    let now = released.start_all(spawned, spawned.len() as int).complete();
    lemma_start_more(released, first, second, second.len() as int);
    lemma_started(ready, second, second.len() as int);
    assert(spawned == first + second);
    assert(now.started =~= told.started);
    assert(now.running =~= told.running);
    assert(now.untried =~= told.untried);
    assert(now.done == course.done.insert(node));
    assert(list.take(end) =~= list);
    assert(shape_shows_node(net, shape, node as int));
    assert forall|other: usize| #[trigger] now.right_about(net, shape, after, other) by {
        assert(told.right_about(net, shape, notified, other));
        if other < shape.locks.len() {
            let own = shape.previous[other as int];
            assert(shape_shows_node(net, shape, other as int));
            assert(own.contains(node) == list.contains(other)) by {
                assert(net.strong[other as int].contains(node) == own.contains(node));
            }
            if !told.told.contains(other) {
                assert(!list.contains(other));
                lemma_one_met(own, course.done, node, own.len() as int);
                assert(own.take(own.len() as int) =~= own);
                assert(now.may_start(shape, other) == told.may_start(shape, other)) by {
                    if now.may_start(shape, other) {
                        assert forall|index: int| 0 <= index < own.len() implies told.known_done(
                            other,
                        ).contains(#[trigger] own[index]) by {
                            assert(now.known_done(other).contains(own[index]));
                            assert(own.contains(own[index]));
                        }
                    }
                    if told.may_start(shape, other) {
                        assert forall|index: int| 0 <= index < own.len() implies now.known_done(
                            other,
                        ).contains(#[trigger] own[index]) by {
                            assert(told.known_done(other).contains(own[index]));
                        }
                    }
                }
            } else {
                assert(now.known_done(other) == told.known_done(other));
                lemma_same_known(now, told, shape, other);
            }
            if other == node {
                assert(told.started.contains(node));
            }
        }
    }
    assert forall|cluster: int, slot: int|
        0 <= cluster < net.clusters.len() && 0 <= slot < 32 implies mask_bit(
        after.words[cluster].lock,
        slot,
    ) == #[trigger] now.locked(net, shape, cluster, slot) by {
        assert(mask_bit(notified.words[cluster].lock, slot) == told.locked(
            net,
            shape,
            cluster,
            slot,
        ));
        lemma_same_locked(told, now, net, shape, cluster, slot);
    }
    assert forall|left: usize, right: usize, slot: int|
        #![trigger now.running.contains(left), now.running.contains(right), mask_bit(shape.locks[left as int], slot)]
        left < shape.locks.len() && right < shape.locks.len() && left != right
            && now.running.contains(left) && now.running.contains(right)
            && net.homes[left as int] is Some && net.homes[right as int] is Some && net.seat(
            left as int,
        ).cluster == net.seat(right as int).cluster && 0 <= slot < 32 && mask_bit(
            shape.locks[left as int],
            slot,
        ) implies !mask_bit(shape.locks[right as int], slot) by {
        assert(told.running.contains(left) && told.running.contains(right));
    }
    assert forall|cluster: int, slot: int|
        0 <= cluster < net.clusters.len() && 0 <= slot < 32 && #[trigger] mask_bit(
            after.words[cluster].ready,
            slot,
        ) implies slot < net.clusters[cluster].len() by {
        assert(mask_bit(notified.words[cluster].ready, slot));
    }
    assert forall|other: usize| #[trigger] now.done.contains(
        other,
    ) implies now.started.contains(other) by {
        if other == node {
            assert(course.started.contains(node));
        } else {
            assert(course.done.contains(other));
        }
    }
    assert(first.take(first.len() as int) =~= first);
    assert forall|other: usize| #[trigger] second.contains(other) implies !first.contains(other)
        && !course.started.contains(other) && !course.untried.contains(other) by {
        assert(!ready.started.contains(other) && !ready.untried.contains(other));
    }
    assert forall|other: usize| #[trigger] spawned.contains(other) implies other
        < shape.locks.len() && !course.started.contains(other) && !course.untried.contains(
        other,
    ) by {
        let at = spawned.index_of(other);
        if at < first.len() {
            assert(first[at] == other);
            assert(first.contains(other));
        } else {
            assert(second[at - first.len()] == other);
            assert(second.contains(other));
        }
    }
    assert forall|index: int| 0 <= index < second.len() implies !first.contains(
        #[trigger] second[index],
    ) by {
        assert(second.contains(second[index]));
    }
    lemma_joined_once(first, second);
}

/// When all jobs are done, and none is running, each waits again for all that it waits for in the
/// beginning, and no job is ready or locked.
pub proof fn complete_runs_leave_all_at_rest(
    course: Course,
    net: Net,
    shape: WorkShape,
    state: WorkState,
)
    requires
        shape_shows(net, shape),
        course.keeps_order(net, shape, state),
        course.running == Set::<usize>::empty(),
        forall|node: usize| node < shape.locks.len() ==> #[trigger] course.done.contains(node),
    ensures
        forall|node: int|
            0 <= node < state.waits.len() ==> #[trigger] state.waits[node]
                == shape.previous[node].len(),
        forall|cluster: int|
            0 <= cluster < state.words.len() ==> (#[trigger] state.words[cluster]).ready == 0
                && state.words[cluster].lock == 0,
{
    assert forall|node: int| 0 <= node < state.waits.len() implies #[trigger] state.waits[node]
        == shape.previous[node].len() by {
        assert(course.done.contains(node as usize));
        assert(course.right_about(net, shape, state, node as usize));
    }
    assert forall|cluster: int| 0 <= cluster < state.words.len() implies (
    #[trigger] state.words[cluster]).ready == 0 && state.words[cluster].lock == 0 by {
        let word = state.words[cluster];
        if word.lock != 0 {
            let slot = crate::word::lemma_set_slot(word.lock);
            assert(mask_bit(word.lock, slot as int));
            assert(course.locked(net, shape, cluster, slot as int));
        }
        if word.ready != 0 {
            let slot = crate::word::lemma_set_slot(word.ready);
            assert(mask_bit(word.ready, slot as int));
            let node = net.clusters[cluster][slot as int];
            assert(net.homes[node as int] is Some);
            assert(course.right_about(net, shape, state, node));
            assert(course.done.contains(node));
        }
    }
}

} // verus!
