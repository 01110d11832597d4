//! The course of a run of a worker: the jobs that wait for none are tried first, and when a job has
//! finished, others are tried on that account. Each job starts once, related jobs do not overlap, and
//! the run ends only when all are done.

use crate::bonds::{
    at_rest, complete_runs_leave_all_at_rest, finished_jobs_keep_order, lemma_started,
    related_jobs_of_a_worker_do_not_overlap, trying_keeps_order, worker_runs_begin_in_order, Course,
};
use crate::depend::DependencyView;
use crate::normalize::{relation_of, Relation};
use crate::progress::{shape_shows, shape_shows_node, WorkShape, WorkState};
use crate::stalls::{
    finished_jobs_leave_none_stuck, none_stuck, trying_leaves_none_stuck,
    worker_runs_begin_unstuck, worker_runs_do_not_stall,
};
use crate::work::{climbing, net_of, Net, Worker};
use vstd::prelude::*;

verus! {

/// Whether a course is one in which the given jobs are still to be tried, run and are done.
pub open spec fn follows_course(
    net: Net,
    shape: WorkShape,
    state: WorkState,
    untried: Set<usize>,
    done: Set<usize>,
    running: Set<usize>,
    course: Course,
) -> bool {
    &&& course.untried == untried
    &&& course.done == done
    &&& course.running == running
    &&& course.started == done.union(running)
    &&& course.told == Set::<usize>::empty()
    &&& course.keeps_order(net, shape, state)
}

/// Whether a run of declared jobs is in order in which some are still to be tried, some are done, and
/// some run.
pub open spec fn works_on(
    declared: Seq<Seq<DependencyView>>,
    shape: WorkShape,
    state: WorkState,
    untried: Set<usize>,
    done: Set<usize>,
    running: Set<usize>,
) -> bool {
    let net = net_of(declared, declared.len() as int);
    &&& shape_shows(net, shape)
    &&& shape.locks.len() == declared.len()
    &&& done.disjoint(running)
    &&& forall|node: usize| #[trigger] untried.contains(node) ==> node < declared.len()
    &&& forall|node: usize| #[trigger] done.contains(node) ==> node < declared.len()
    &&& forall|node: usize| #[trigger] running.contains(node) ==> node < declared.len()
    &&& none_stuck(shape, state)
    &&& exists|course: Course| #[trigger]
        follows_course(net, shape, state, untried, done, running, course)
}

/// The values of a climbing list grow at least as fast as their places.
proof fn lemma_climbing_floor(list: Seq<usize>, index: int)
    requires
        climbing(list),
        0 <= index < list.len(),
    ensures
        index <= list[index],
    decreases index,
{
    if index > 0 {
        lemma_climbing_floor(list, index - 1);
        assert(list[index - 1] < list[index]);
    }
}

/// Each job waits for earlier ones, each named once.
proof fn lemma_previous(net: Net, shape: WorkShape, node: int)
    requires
        shape_shows(net, shape),
        0 <= node < shape.previous.len(),
    ensures
        shape.previous[node].len() <= node <= usize::MAX,
        forall|index: int|
            0 <= index < shape.previous[node].len() ==> (#[trigger] shape.previous[node][index])
                < node,
{
    let list = shape.previous[node];
    assert(shape_shows_node(net, shape, node));
    assert forall|index: int| 0 <= index < list.len() implies (#[trigger] list[index]) < node by {
        assert(list.contains(list[index]));
        assert(net.strong[node].contains(list[index]));
    }
    if list.len() > 0 {
        lemma_climbing_floor(list, list.len() - 1);
    }
}

/// A run of a worker that is at rest begins in order, with its roots to be tried.
pub proof fn worker_runs_begin<R>(worker: Worker<R>)
    requires
        worker.sound(),
        !worker.is_pending(),
        worker.rests(),
    ensures
        works_on(
            worker.declarations(),
            worker.shape(),
            worker.state(),
            worker.root_nodes().to_set(),
            Set::empty(),
            Set::empty(),
        ),
        worker.root_nodes().no_duplicates(),
{
    let declared = worker.declarations();
    let net = worker.net();
    let shape = worker.shape();
    let state = worker.state();
    let roots = worker.root_nodes();
    let nothing = Set::<usize>::empty();
    worker.bound_jobs_fit();
    worker.resting_shows_in_the_state();
    worker.lemma_bound(net);
    worker.lemma_root_nodes();
    let course = Course {
        untried: roots.to_set(),
        started: nothing.union(nothing),
        running: nothing,
        done: nothing,
        finishing: 0,
        told: nothing,
    };
    assert(nothing.union(nothing) =~= nothing);
    assert forall|node: usize| #[trigger] course.untried.contains(node) == (node
        < shape.locks.len() && shape.previous[node as int].len() == 0) by {
        assert(course.untried.contains(node) == roots.contains(node));
        if node < shape.locks.len() {
            assert(shape_shows_node(net, shape, node as int));
            let list = shape.previous[node as int];
            if list.len() == 0 {
                assert(net.strong[node as int] =~= Set::<usize>::empty()) by {
                    assert forall|other: usize| !net.strong[node as int].contains(other) by {
                        assert(!list.contains(other));
                    }
                }
            } else {
                assert(list.contains(list[0]));
                assert(net.strong[node as int].contains(list[0]));
            }
        }
    }
    assert(at_rest(shape, course));
    worker_runs_begin_in_order(course, net, shape, state);
    worker_runs_begin_unstuck(shape, state);
    assert(follows_course(net, shape, state, roots.to_set(), nothing, nothing, course));
}

/// Trying a job that is to be tried keeps a run in order. The jobs that start are different ones, and
/// none of them has started before or is still to be tried.
pub proof fn worker_runs_try(
    declared: Seq<Seq<DependencyView>>,
    shape: WorkShape,
    state: WorkState,
    untried: Set<usize>,
    done: Set<usize>,
    running: Set<usize>,
    node: usize,
)
    requires
        works_on(declared, shape, state, untried, done, running),
        untried.contains(node),
    ensures
        ({
            let (after, begun) = shape.begin(state, node);
            &&& works_on(
                declared,
                shape,
                after,
                untried.remove(node),
                done,
                running.union(begun.to_set()),
            )
            &&& begun.no_duplicates()
            &&& forall|other: usize| #[trigger]
                begun.contains(other) ==> other < declared.len() && !done.contains(other)
                    && !running.contains(other) && !untried.remove(node).contains(other)
        }),
{
    let net = net_of(declared, declared.len() as int);
    let (after, begun) = shape.begin(state, node);
    let course = choose|course: Course| #[trigger]
        follows_course(net, shape, state, untried, done, running, course);
    trying_keeps_order(course, net, shape, state, node);
    trying_leaves_none_stuck(net, shape, state, node);
    let tried = course.try_one(node);
    let next = tried.start_all(begun, begun.len() as int);
    lemma_started(tried, begun, begun.len() as int);
    let runs = running.union(begun.to_set());
    assert forall|other: usize| begun.to_set().contains(other) == begun.contains(other) by {}
    assert(begun.take(begun.len() as int) =~= begun);
    assert(next.untried =~= untried.remove(node));
    assert(next.running =~= runs);
    assert(next.started =~= done.union(runs));
    assert(done.disjoint(runs)) by {
        assert forall|other: usize| !(done.contains(other) && runs.contains(other)) by {
            if done.contains(other) && begun.contains(other) {
                assert(course.started.contains(other));
            }
        }
    }
    assert(follows_course(net, shape, after, untried.remove(node), done, runs, next));
    assert forall|other: usize| #[trigger] begun.contains(other) implies !done.contains(other)
        && !running.contains(other) by {
        assert(!course.started.contains(other));
    }
}

/// Taking note that a running job has finished keeps a run in order. The jobs that start are different
/// ones, and none of them has started before or is still to be tried.
pub proof fn worker_runs_go_on(
    declared: Seq<Seq<DependencyView>>,
    shape: WorkShape,
    state: WorkState,
    untried: Set<usize>,
    done: Set<usize>,
    running: Set<usize>,
    node: usize,
)
    requires
        works_on(declared, shape, state, untried, done, running),
        running.contains(node),
    ensures
        ({
            let (after, begun) = shape.finish(state, node);
            &&& works_on(
                declared,
                shape,
                after,
                untried,
                done.insert(node),
                running.remove(node).union(begun.to_set()),
            )
            &&& begun.no_duplicates()
            &&& forall|other: usize| #[trigger]
                begun.contains(other) ==> other < declared.len() && !done.contains(other)
                    && !running.contains(other) && !untried.contains(other)
        }),
{
    let net = net_of(declared, declared.len() as int);
    let (after, begun) = shape.finish(state, node);
    let course = choose|course: Course| #[trigger]
        follows_course(net, shape, state, untried, done, running, course);
    assert forall|at: int| 0 <= at < shape.previous.len() implies (
    #[trigger] shape.previous[at]).len() <= usize::MAX by {
        lemma_previous(net, shape, at);
    }
    finished_jobs_keep_order(course, net, shape, state, node);
    finished_jobs_leave_none_stuck(course, net, shape, state, node);
    let released = course.release(node);
    let next = released.start_all(begun, begun.len() as int).complete();
    lemma_started(released, begun, begun.len() as int);
    let finish = done.insert(node);
    let runs = running.remove(node).union(begun.to_set());
    assert forall|other: usize| begun.to_set().contains(other) == begun.contains(other) by {}
    assert(begun.take(begun.len() as int) =~= begun);
    assert forall|other: usize| #[trigger] begun.contains(other) implies !done.contains(other)
        && !running.contains(other) by {
        assert(!course.started.contains(other));
    }
    assert(next.untried =~= untried);
    assert(next.running =~= runs);
    assert(next.done =~= finish);
    assert(next.started =~= finish.union(runs));
    assert(finish.disjoint(runs)) by {
        assert forall|other: usize| !(finish.contains(other) && runs.contains(other)) by {
            if begun.contains(other) {
                assert(!done.contains(other) && !running.contains(other));
            }
        }
    }
    assert(follows_course(net, shape, after, untried, finish, runs, next));
}

/// In a run of declared jobs, related jobs do not overlap: where both have started, one of them is
/// done; and where they are strictly related, the one that was pushed first is done before the other
/// starts. So where a job has failed, no job that follows it strictly starts.
pub proof fn working_jobs_do_not_overlap(
    declared: Seq<Seq<DependencyView>>,
    shape: WorkShape,
    state: WorkState,
    untried: Set<usize>,
    done: Set<usize>,
    running: Set<usize>,
    left: usize,
    right: usize,
)
    requires
        works_on(declared, shape, state, untried, done, running),
        left < right < declared.len(),
        relation_of(declared[left as int], declared[right as int]) != Relation::Free,
    ensures
        !(running.contains(left) && running.contains(right)),
        relation_of(declared[left as int], declared[right as int]) == Relation::Strict && (
        running.contains(right) || done.contains(right)) ==> done.contains(left),
{
    let net = net_of(declared, declared.len() as int);
    let course = choose|course: Course| #[trigger]
        follows_course(net, shape, state, untried, done, running, course);
    related_jobs_of_a_worker_do_not_overlap(declared, course, shape, state, left, right);
}

/// A run of declared jobs ends only when all are done: where no job runs and none is to be tried,
/// there is none left, and each waits again for all that it waits for in the beginning.
pub proof fn worker_runs_end(
    declared: Seq<Seq<DependencyView>>,
    shape: WorkShape,
    state: WorkState,
    done: Set<usize>,
)
    requires
        works_on(declared, shape, state, Set::empty(), done, Set::empty()),
    ensures
        forall|node: usize| node < declared.len() ==> #[trigger] done.contains(node),
        forall|node: int|
            0 <= node < state.waits.len() ==> #[trigger] state.waits[node]
                == shape.previous[node].len(),
        forall|cluster: int|
            0 <= cluster < state.words.len() ==> (#[trigger] state.words[cluster]).ready == 0
                && state.words[cluster].lock == 0,
{
    let net = net_of(declared, declared.len() as int);
    let nothing = Set::<usize>::empty();
    let course = choose|course: Course| #[trigger]
        follows_course(net, shape, state, nothing, done, nothing, course);
    assert(done.union(nothing) =~= done);
    assert forall|at: int, index: int|
        0 <= at < shape.previous.len() && 0 <= index < shape.previous[at].len() implies (
    #[trigger] shape.previous[at][index]) < at by {
        lemma_previous(net, shape, at);
    }
    assert forall|node: usize| node < declared.len() implies #[trigger] done.contains(node) by {
        worker_runs_do_not_stall(course, net, shape, state, node);
    }
    complete_runs_leave_all_at_rest(course, net, shape, state);
}

} // verus!
