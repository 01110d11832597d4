//! What holds of a run of a schedule of clusters, in whichever way it is run: every job starts once,
//! related jobs do not overlap, strictly related ones start in order, and the run ends only when all
//! are done.

use crate::chain::Chain;
use crate::clusters::{ClusterId, LocalIndex};
use crate::conduct::{claim_path, claims, locals, looks_on, take_path, takes_on, Started};
use crate::crews::{
    beginning_keeps_one_runner, claiming_keeps_one_runner, cluster_runs_begin, joined_by,
    nothing_held, settled_by, settling_keeps_one_runner, started_by, starting_keeps_order, Crew,
};
use crate::dag::JobId;
use crate::exclusion::{held_after, none_left_behind, settling_leaves_none_behind};
use crate::kernel::{is_serial, KernelPlan, Schedule};
use crate::runner::{
    bit_of, initial_state, ready_names_jobs, settled, ClusterShape, KernelState, Runner,
};
use crate::singles::first_of;
use vstd::prelude::*;

verus! {

/// The jobs that runners are running, as jobs that have started.
pub open spec fn tickets(plan: KernelPlan, crew: Crew) -> Set<Started> {
    Set::new(
        |started: Started|
            started matches Started::Local(runner, local) && crew.busy.contains_key(runner.cluster)
                && crew.runners[runner.cluster] == runner && local
                == plan.placements[crew.busy[runner.cluster] as int].local,
    )
}

/// Whether the runners who run no job are among those of another crew.
pub open spec fn no_more_idle(before: Crew, after: Crew) -> bool {
    forall|cluster: ClusterId| #[trigger]
        after.runners.contains_key(cluster) && !after.busy.contains_key(cluster)
            ==> before.runners.contains_key(cluster) && !before.busy.contains_key(cluster)
}

/// Whether a cluster has the same runner in two crews, who does the same.
pub open spec fn same_for(before: Crew, after: Crew, cluster: ClusterId) -> bool {
    &&& before.runners.contains_key(cluster) == after.runners.contains_key(cluster)
    &&& before.runners[cluster] == after.runners[cluster]
    &&& before.busy.contains_key(cluster) == after.busy.contains_key(cluster)
}

/// The jobs that have started, once a job may have been found.
pub open spec fn with_found(
    plan: KernelPlan,
    started: Set<JobId>,
    found: Option<(Runner, LocalIndex)>,
) -> Set<JobId> {
    match found {
        None => started,
        Some((runner, local)) => started.insert(
            plan.clusters[runner.cluster as int][local as int],
        ),
    }
}

/// The jobs that run, once a job may have been found.
pub open spec fn with_ticket(
    running: Set<Started>,
    found: Option<(Runner, LocalIndex)>,
) -> Set<Started> {
    match found {
        None => running,
        Some((runner, local)) => running.insert(Started::Local(runner, local)),
    }
}

/// Whether a job that may have been found is a job, and has not started.
pub open spec fn finds_new(
    plan: KernelPlan,
    started: Set<JobId>,
    found: Option<(Runner, LocalIndex)>,
) -> bool {
    found matches Some((runner, local)) ==> runner.cluster < plan.clusters.len() && local
        < plan.clusters[runner.cluster as int].len() && !started.contains(
        plan.clusters[runner.cluster as int][local as int],
    )
}

/// A runner who looks for a ready job and starts it keeps the run in hand.
pub(crate) proof fn lemma_look_on(
    plan: KernelPlan,
    shapes: Seq<ClusterShape>,
    state: KernelState,
    held: Seq<u64>,
    started: Set<JobId>,
    done: Set<JobId>,
    crew: Crew,
    cluster: ClusterId,
    found: Option<(Runner, LocalIndex)>,
    after: KernelState,
) -> (next: (Seq<u64>, Crew))
    requires
        plan.fits(),
        plan.shaped(shapes),
        plan.in_hand(state, held, started, done, crew),
        crew.runners.contains_key(cluster),
        !crew.busy.contains_key(cluster),
        looks_on(shapes, state, crew.runners[cluster], found, after),
    ensures
        plan.in_hand(after, next.0, with_found(plan, started, found), done, next.1),
        next.1.handed == crew.handed,
        tickets(plan, next.1) == with_ticket(tickets(plan, crew), found),
        no_more_idle(crew, next.1),
        !(next.1.runners.contains_key(cluster) && !next.1.busy.contains_key(cluster)),
        finds_new(plan, started, found),
        none_left_behind(state) ==> none_left_behind(after),
        forall|other: int|
            0 <= other < state.ready.len() && #[trigger] after.ready[other] != 0
                ==> state.ready[other] != 0 && after.queued[other] == state.queued[other],
        after.ready.len() == state.ready.len(),
        crew.runners[cluster].next is None ==> forall|other: ClusterId|
            other != cluster ==> #[trigger] same_for(crew, next.1, other),
{
    let runner = crew.runners[cluster];
    let (settled_state, resting) = settled(state, runner);
    settling_keeps_one_runner(plan, state, held, started, done, crew, cluster);
    settling_leaves_none_behind(state, runner);
    let one = settled_by(crew, cluster, resting);
    let taken = held_after(held, runner, resting);
    match resting {
        None => {
            assert(tickets(plan, one) =~= tickets(plan, crew));
            (taken, one)
        },
        Some(resting) => {
            let (running, local) = found->Some_0;
            let at = resting.cluster;
            assert(one.runners.contains_key(at));
            assert(one.runners[at] == resting);
            assert(shapes[at as int].names == plan.clusters[at as int]);
            let job = plan.clusters[at as int][local as int];
            assert(job < plan.placements.len());
            assert(plan.placements[job as int].cluster == at);
            assert(plan.placements[job as int].local == local);
            starting_keeps_order(plan, after, taken, started, done, one, job);
            let two = started_by(one, at, local, job);
            let word = taken[at as int] & !bit_of(local);
            assert(tickets(plan, two) =~= tickets(plan, crew).insert(
                Started::Local(running, local),
            )) by {
                assert forall|other: Started| tickets(plan, two).contains(other) == tickets(
                    plan,
                    crew,
                ).insert(Started::Local(running, local)).contains(other) by {
                    if let Started::Local(by, place) = other {
                        if by.cluster != at && crew.busy.contains_key(by.cluster) {
                            assert(crew.runners.contains_key(by.cluster));
                            assert(by.cluster != cluster);
                        }
                    }
                }
            }
            (taken.update(at as int, word), two)
        },
    }
}

/// One who begins with a cluster that has been claimed keeps the run in hand.
proof fn lemma_take_on(
    plan: KernelPlan,
    shapes: Seq<ClusterShape>,
    state: KernelState,
    held: Seq<u64>,
    started: Set<JobId>,
    done: Set<JobId>,
    crew: Crew,
    cluster: ClusterId,
    found: Option<(Runner, LocalIndex)>,
    after: KernelState,
) -> (next: (Seq<u64>, Crew))
    requires
        plan.fits(),
        plan.shaped(shapes),
        plan.in_hand(state, held, started, done, crew),
        crew.handed.contains(cluster),
        takes_on(shapes, state, cluster, found, after),
    ensures
        plan.in_hand(after, next.0, with_found(plan, started, found), done, next.1),
        next.1.handed == crew.handed.remove(cluster),
        tickets(plan, next.1) == with_ticket(tickets(plan, crew), found),
        no_more_idle(crew, next.1),
        finds_new(plan, started, found),
        none_left_behind(state) ==> none_left_behind(after),
        forall|other: int|
            0 <= other < state.ready.len() && #[trigger] after.ready[other] != 0
                ==> state.ready[other] != 0 && after.queued[other] == state.queued[other],
        after.ready.len() == state.ready.len(),
        forall|other: ClusterId| other != cluster ==> #[trigger] same_for(crew, next.1, other),
{
    let ready = state.ready[cluster as int];
    let begun = state.with_ready(cluster, 0);
    let taken = held.update(cluster as int, ready);
    let runner = Runner { cluster, ready, next: None };
    let one = joined_by(crew, runner);
    beginning_keeps_one_runner(plan, state, held, started, done, crew, cluster);
    assert(tickets(plan, one) =~= tickets(plan, crew));
    if none_left_behind(state) {
        assert forall|other: int|
            0 <= other < begun.ready.len() && #[trigger] begun.ready[other]
                != 0 implies begun.queued[other] by {
            assert(state.ready[other] != 0);
        }
    }
    let next = lemma_look_on(
        plan,
        shapes,
        begun,
        taken,
        started,
        done,
        one,
        cluster,
        found,
        after,
    );
    assert forall|other: ClusterId| other != cluster implies #[trigger] same_for(
        crew,
        next.1,
        other,
    ) by {
        assert(same_for(one, next.1, other));
    }
    assert(no_more_idle(crew, next.1)) by {
        assert forall|other: ClusterId| #[trigger]
            next.1.runners.contains_key(other) && !next.1.busy.contains_key(
                other,
            ) implies crew.runners.contains_key(other) && !crew.busy.contains_key(other) by {
            assert(one.runners.contains_key(other) && !one.busy.contains_key(other));
        }
    }
    assert forall|other: int|
        0 <= other < state.ready.len() && #[trigger] after.ready[other]
            != 0 implies state.ready[other] != 0 && after.queued[other]
        == state.queued[other] by {
        assert(begun.ready[other] != 0);
    }
    next
}

/// The jobs that have started, once the first `until` jobs that were found have.
pub open spec fn began(
    plan: KernelPlan,
    started: Set<JobId>,
    founds: Seq<Option<(Runner, LocalIndex)>>,
    until: int,
) -> Set<JobId>
    decreases until,
{
    if until <= 0 {
        started
    } else {
        with_found(plan, began(plan, started, founds, until - 1), founds[until - 1])
    }
}

/// The jobs that run, once the first `until` jobs that were found do.
pub open spec fn ticketed(
    running: Set<Started>,
    founds: Seq<Option<(Runner, LocalIndex)>>,
    until: int,
) -> Set<Started>
    decreases until,
{
    if until <= 0 {
        running
    } else {
        with_ticket(ticketed(running, founds, until - 1), founds[until - 1])
    }
}

/// Whether each of the first `until` jobs that were found had not started before.
pub open spec fn all_new(
    plan: KernelPlan,
    started: Set<JobId>,
    founds: Seq<Option<(Runner, LocalIndex)>>,
    until: int,
) -> bool {
    forall|index: int|
        0 <= index < until ==> finds_new(
            plan,
            began(plan, started, founds, index),
            #[trigger] founds[index],
        )
}

/// Beginning with clusters one after another keeps the run in hand.
pub(crate) proof fn lemma_take_path(
    plan: KernelPlan,
    shapes: Seq<ClusterShape>,
    held: Seq<u64>,
    started: Set<JobId>,
    done: Set<JobId>,
    crew: Crew,
    list: Seq<ClusterId>,
    founds: Seq<Option<(Runner, LocalIndex)>>,
    states: Seq<KernelState>,
    until: int,
) -> (next: (Seq<u64>, Crew))
    requires
        plan.fits(),
        plan.shaped(shapes),
        take_path(shapes, list, founds, states),
        plan.in_hand(states[0], held, started, done, crew),
        none_left_behind(states[0]),
        list.no_duplicates(),
        forall|index: int| 0 <= index < list.len() ==> crew.handed.contains(#[trigger] list[index]),
        0 <= until <= list.len(),
    ensures
        plan.in_hand(states[until], next.0, began(plan, started, founds, until), done, next.1),
        none_left_behind(states[until]),
        forall|cluster: ClusterId| #[trigger]
            next.1.handed.contains(cluster) == (crew.handed.contains(cluster) && !list.take(
                until,
            ).contains(cluster)),
        tickets(plan, next.1) == ticketed(tickets(plan, crew), founds, until),
        no_more_idle(crew, next.1),
        all_new(plan, started, founds, until),
        forall|cluster: ClusterId|
            !list.take(until).contains(cluster) ==> #[trigger] same_for(crew, next.1, cluster),
    decreases until,
{
    if until == 0 {
        (held, crew)
    } else {
        let at = until - 1;
        let (taken, one) = lemma_take_path(
            plan,
            shapes,
            held,
            started,
            done,
            crew,
            list,
            founds,
            states,
            at,
        );
        let cluster = list[at];
        assert(!list.take(at).contains(cluster)) by {
            if list.take(at).contains(cluster) {
                let other = list.take(at).index_of(cluster);
                assert(list[other] == list[at]);
            }
        }
        assert(one.handed.contains(cluster));
        let next = lemma_take_on(
            plan,
            shapes,
            states[at],
            taken,
            began(plan, started, founds, at),
            done,
            one,
            cluster,
            founds[at],
            states[until],
        );
        assert forall|other: ClusterId| #[trigger] next.1.handed.contains(other) == (
        crew.handed.contains(other) && !list.take(until).contains(other)) by {
            let shorter = list.take(at);
            let longer = list.take(until);
            assert(longer =~= shorter.push(cluster));
            if shorter.contains(other) {
                assert(longer[shorter.index_of(other)] == other);
            }
            if other == cluster {
                assert(longer[at] == other);
            }
            if longer.contains(other) {
                let place = longer.index_of(other);
                if place < at {
                    assert(shorter[place] == other);
                }
            }
        }
        assert forall|other: ClusterId| !list.take(until).contains(other) implies #[trigger] same_for(
            crew,
            next.1,
            other,
        ) by {
            let shorter = list.take(at);
            let longer = list.take(until);
            if shorter.contains(other) {
                assert(longer[shorter.index_of(other)] == other);
            }
            assert(longer[at] == cluster);
            assert(same_for(crew, one, other));
            assert(same_for(one, next.1, other));
        }
        assert(no_more_idle(crew, next.1)) by {
            assert forall|other: ClusterId| #[trigger]
                next.1.runners.contains_key(other) && !next.1.busy.contains_key(
                    other,
                ) implies crew.runners.contains_key(other) && !crew.busy.contains_key(other) by {
                assert(one.runners.contains_key(other) && !one.busy.contains_key(other));
            }
        }
        next
    }
}

/// What has started and what runs goes by the jobs that were found until then.
pub(crate) proof fn lemma_until(
    plan: KernelPlan,
    started: Set<JobId>,
    running: Set<Started>,
    founds: Seq<Option<(Runner, LocalIndex)>>,
    last: Option<(Runner, LocalIndex)>,
    until: int,
)
    requires
        0 <= until <= founds.len(),
    ensures
        began(plan, started, founds.push(last), until) == began(plan, started, founds, until),
        ticketed(running, founds.push(last), until) == ticketed(running, founds, until),
    decreases until,
{
    if until > 0 {
        lemma_until(plan, started, running, founds, last, until - 1);
        assert(founds.push(last)[until - 1] == founds[until - 1]);
    }
}

/// Whether a cluster is among those of a list that come after the first `until`.
pub open spec fn comes_later(list: Seq<ClusterId>, until: int, cluster: int) -> bool {
    exists|index: int| until <= index < list.len() && #[trigger] list[index] == cluster
}

/// Claiming clusters and beginning with them, one after another, keeps the run in hand.
#[verifier::rlimit(40)]
#[verifier::spinoff_prover]
pub(crate) proof fn lemma_claim_path(
    plan: KernelPlan,
    shapes: Seq<ClusterShape>,
    list: Seq<ClusterId>,
    founds: Seq<Option<(Runner, LocalIndex)>>,
    states: Seq<KernelState>,
    until: int,
) -> (next: (Seq<u64>, Crew))
    requires
        plan.fits(),
        plan.shaped(shapes),
        ready_names_jobs(shapes, initial_state(shapes)),
        claim_path(shapes, list, founds, states),
        states[0] == initial_state(shapes),
        forall|index: int|
            0 <= index < list.len() ==> (#[trigger] list[index]) < plan.clusters.len(),
        forall|cluster: int|
            0 <= cluster < plan.clusters.len() && (#[trigger] shapes[cluster]).ready_initial != 0
                ==> comes_later(list, 0, cluster),
        0 <= until <= list.len(),
    ensures
        ({
            let nothing = Set::<JobId>::empty();
            &&& plan.in_hand(
                states[until],
                next.0,
                began(plan, nothing, founds, until),
                nothing,
                next.1,
            )
            &&& next.1.handed == Set::<ClusterId>::empty()
            &&& tickets(plan, next.1) == ticketed(Set::empty(), founds, until)
            &&& no_more_idle(Crew::nobody(), next.1)
            &&& all_new(plan, nothing, founds, until)
            &&& states[until].ready.len() == plan.clusters.len()
            &&& forall|cluster: int|
                0 <= cluster < plan.clusters.len() && #[trigger] states[until].ready[cluster] != 0
                    ==> states[until].queued[cluster] || comes_later(list, until, cluster)
        }),
    decreases until,
{
    let nothing = Set::<JobId>::empty();
    if until == 0 {
        cluster_runs_begin(plan, shapes);
        let crew = Crew::nobody();
        assert(tickets(plan, crew) =~= Set::empty());
        assert forall|cluster: int|
            0 <= cluster < plan.clusters.len() && #[trigger] states[0].ready[cluster]
                != 0 implies comes_later(list, 0, cluster) by {
            assert(shapes[cluster].ready_initial != 0);
        }
        (nothing_held(plan.clusters.len()), crew)
    } else {
        let at = until - 1;
        let (taken, one) = lemma_claim_path(plan, shapes, list, founds, states, at);
        let cluster = list[at];
        let state = states[at];
        let after = states[until];
        let started = began(plan, nothing, founds, at);
        assert(claims(shapes, state, list[at], founds[at], after));
        if state.ready[cluster as int] != 0 && !state.queued[cluster as int] {
            claiming_keeps_one_runner(plan, state, taken, started, nothing, one, cluster);
            let two = Crew { handed: one.handed.insert(cluster), ..one };
            assert(tickets(plan, two) =~= tickets(plan, one));
            let claimed = state.with_queued(cluster, true);
            let next = lemma_take_on(
                plan,
                shapes,
                claimed,
                taken,
                started,
                nothing,
                two,
                cluster,
                founds[at],
                after,
            );
            assert(next.1.handed =~= Set::empty());
            assert(no_more_idle(Crew::nobody(), next.1)) by {
                assert forall|other: ClusterId| #[trigger]
                    next.1.runners.contains_key(other) && !next.1.busy.contains_key(
                        other,
                    ) implies Crew::nobody().runners.contains_key(other)
                    && !Crew::nobody().busy.contains_key(other) by {
                    assert(two.runners.contains_key(other) && !two.busy.contains_key(other));
                    assert(one.runners.contains_key(other) && !one.busy.contains_key(other));
                }
            }
            assert forall|other: int|
                0 <= other < plan.clusters.len() && #[trigger] after.ready[other]
                    != 0 implies after.queued[other] || comes_later(list, until, other) by {
                assert(claimed.ready[other] != 0);
                if !claimed.queued[other] {
                    let index = choose|index: int|
                        at <= index < list.len() && #[trigger] list[index] == other;
                    assert(list[index] == other && until <= index);
                }
            }
            next
        } else {
            assert forall|other: int|
                0 <= other < plan.clusters.len() && #[trigger] after.ready[other]
                    != 0 implies after.queued[other] || comes_later(list, until, other) by {
                if !state.queued[other] {
                    let index = choose|index: int|
                        at <= index < list.len() && #[trigger] list[index] == other;
                    assert(list[index] == other && until <= index);
                }
            }
            (taken, one)
        }
    }
}

/// The jobs that were found, as a list and as a set.
pub(crate) proof fn lemma_ticketed(
    running: Set<Started>,
    founds: Seq<Option<(Runner, LocalIndex)>>,
    until: int,
)
    requires
        0 <= until <= founds.len(),
    ensures
        ticketed(running, founds, until) == running.union(locals(founds, until).to_set()),
    decreases until,
{
    let list = locals(founds, until);
    if until == 0 {
        assert(list.to_set() =~= Set::empty());
        assert(running.union(list.to_set()) =~= running);
    } else {
        lemma_ticketed(running, founds, until - 1);
        let before = locals(founds, until - 1);
        if let Some((runner, local)) = founds[until - 1] {
            before.lemma_push_to_set_commute(Started::Local(runner, local));
            assert(ticketed(running, founds, until) =~= running.union(list.to_set()));
        }
    }
}

/// The jobs that have started, by their tickets.
pub open spec fn named<R>(schedule: Schedule<R>, begun: Seq<Started>) -> Set<JobId> {
    Set::new(
        |job: JobId|
            exists|started: Started| #[trigger]
                begun.contains(started) && schedule.names(started) == job,
    )
}

/// Whether a run along a serial chain has come to the given place.
pub open spec fn serial_run(
    chain: Seq<JobId>,
    started: Set<JobId>,
    done: Set<JobId>,
    running: Set<Started>,
    count: int,
) -> bool {
    &&& 0 <= count <= chain.len()
    &&& started == first_of(
        chain,
        if count < chain.len() {
            count + 1
        } else {
            count
        },
    )
    &&& done == first_of(chain, count)
    &&& forall|ticket: Started| #[trigger]
        running.contains(ticket) == (ticket matches Started::Serial(at) && at == count && count
            < chain.len())
}

/// Whether a run in which all jobs have started at once is in order.
pub open spec fn trivial_run(
    plan: KernelPlan,
    started: Set<JobId>,
    done: Set<JobId>,
    running: Set<Started>,
) -> bool {
    &&& forall|job: JobId| job < plan.placements.len() ==> #[trigger] started.contains(job)
    &&& forall|ticket: Started| #[trigger]
        running.contains(ticket) == (ticket matches Started::Single(cluster) && cluster
            < plan.clusters.len() && !done.contains(plan.lone(cluster as int)))
}

/// Whether a run of the graph of clusters is in order.
pub open spec fn single_run(
    plan: KernelPlan,
    chain: Chain,
    started: Set<JobId>,
    done: Set<JobId>,
    running: Set<Started>,
) -> bool {
    &&& plan.counts_down(chain, started, done)
    &&& forall|job: JobId|
        job < plan.placements.len() && !#[trigger] started.contains(job)
            ==> chain.nodes@[plan.placements[job as int].cluster as int].wait > 0
    &&& forall|ticket: Started| #[trigger]
        running.contains(ticket) == (ticket matches Started::Single(cluster) && cluster
            < plan.clusters.len() && started.contains(plan.lone(cluster as int)) && !done.contains(
            plan.lone(cluster as int),
        ))
}

/// Whether a run of clusters is in order, in which nobody is without a job.
pub open spec fn cluster_run(
    plan: KernelPlan,
    state: KernelState,
    started: Set<JobId>,
    done: Set<JobId>,
    running: Set<Started>,
    held: Seq<u64>,
    crew: Crew,
) -> bool {
    &&& plan.in_hand(state, held, started, done, crew)
    &&& none_left_behind(state)
    &&& crew.handed == Set::<ClusterId>::empty()
    &&& no_more_idle(Crew::nobody(), crew)
    &&& running == tickets(plan, crew)
}

impl<R> Schedule<R> {
    /// Whether what does not change of the schedule while it is run is that of a plan.
    pub open spec fn carries(self, plan: KernelPlan) -> bool {
        &&& self.sound()
        &&& self.jobs@.len() == plan.placements.len()
        &&& plan.shaped(self.shapes())
        &&& ready_names_jobs(self.shapes(), initial_state(self.shapes()))
        &&& self.roots@.no_duplicates()
        &&& forall|cluster: ClusterId| #[trigger]
            self.roots@.contains(cluster) == (cluster < plan.clusters.len()
                && self.shapes()[cluster as int].ready_initial != 0)
        &&& self.serial_chain matches Some(chain) ==> is_serial(plan.predecessors, chain@)
        &&& self.trivial_parallel ==> self.singleton_dag is None && plan.lonely() && forall|
            job: JobId,
        |
            job < plan.placements.len() ==> #[trigger] plan.may_start(Set::empty(), job)
        &&& self.singleton_dag matches Some(chain) ==> {
            &&& plan.links(chain)
            &&& chain.roots@ == self.roots@
            &&& forall|cluster: ClusterId| #[trigger]
                self.roots@.contains(cluster) == (cluster < plan.clusters.len()
                    && chain.nodes@[cluster as int].wait_initial == 0)
        }
    }

    /// Whether every cluster of the graph, where there is one, waits for what it waits for in the
    /// beginning.
    pub open spec fn at_rest(self) -> bool {
        self.singleton_dag matches Some(chain) ==> forall|cluster: int|
            0 <= cluster < chain.nodes@.len() ==> (#[trigger] chain.nodes@[cluster]).wait
                == chain.nodes@[cluster].wait_initial
    }

    /// Whether a run is in order in which some jobs have started, some of them are done, and the
    /// others run.
    pub open spec fn conducts(
        self,
        plan: KernelPlan,
        started: Set<JobId>,
        done: Set<JobId>,
        running: Set<Started>,
    ) -> bool {
        &&& self.carries(plan)
        &&& forall|job: JobId| #[trigger] started.contains(job) ==> job < plan.placements.len()
        &&& forall|job: JobId| #[trigger] done.contains(job) ==> started.contains(job)
        &&& match self.serial_chain {
            Some(chain) => self.at_rest() && exists|count: int| #[trigger]
                serial_run(chain@, started, done, running, count),
            None => if self.trivial_parallel {
                trivial_run(plan, started, done, running)
            } else {
                match self.singleton_dag {
                    Some(chain) => single_run(plan, chain, started, done, running),
                    None => exists|held: Seq<u64>, crew: Crew| #[trigger]
                        cluster_run(plan, self.state(), started, done, running, held, crew),
                }
            },
        }
    }
}

/// What a ticket names does not change while a schedule is run.
pub(crate) proof fn lemma_names<R>(plan: KernelPlan, schedule: Schedule<R>)
    requires
        schedule.carries(plan),
    ensures
        forall|cluster: ClusterId, local: LocalIndex|
            cluster < plan.clusters.len() && local < plan.clusters[cluster as int].len()
                ==> (#[trigger] schedule.clusters@[cluster as int].jobs@[local as int]).job
                == plan.clusters[cluster as int][local as int],
        schedule.clusters@.len() == plan.clusters.len(),
        forall|cluster: int|
            0 <= cluster < plan.clusters.len() ==> (
            #[trigger] schedule.clusters@[cluster]).jobs@.len() == plan.clusters[cluster].len(),
{
    assert forall|cluster: int| 0 <= cluster < plan.clusters.len() implies (
    #[trigger] schedule.clusters@[cluster]).jobs@.len() == plan.clusters[cluster].len() by {
        assert(schedule.shapes()[cluster].names == plan.clusters[cluster]);
    }
    assert forall|cluster: ClusterId, local: LocalIndex|
        cluster < plan.clusters.len() && local < plan.clusters[cluster as int].len() implies (
    #[trigger] schedule.clusters@[cluster as int].jobs@[local as int]).job
        == plan.clusters[cluster as int][local as int] by {
        assert(schedule.shapes()[cluster as int].names == plan.clusters[cluster as int]);
        assert(schedule.shapes()[cluster as int].names[local as int]
            == schedule.clusters@[cluster as int].jobs@[local as int].job);
    }
}

/// The jobs that were found one after another are different ones, and the tickets name them.
pub(crate) proof fn lemma_began<R>(
    plan: KernelPlan,
    schedule: Schedule<R>,
    started: Set<JobId>,
    founds: Seq<Option<(Runner, LocalIndex)>>,
    until: int,
)
    requires
        plan.fits(),
        schedule.carries(plan),
        0 <= until <= founds.len(),
        all_new(plan, started, founds, until),
    ensures
        began(plan, started, founds, until) == started.union(
            named(schedule, locals(founds, until)),
        ),
        locals(founds, until).no_duplicates(),
        forall|ticket: Started| #[trigger]
            locals(founds, until).contains(ticket) ==> schedule.has(ticket) && !started.contains(
                schedule.names(ticket),
            ) && schedule.names(ticket) < plan.placements.len(),
    decreases until,
{
    let list = locals(founds, until);
    lemma_names(plan, schedule);
    if until == 0 {
        assert(named(schedule, list) =~= Set::empty());
        assert(started.union(named(schedule, list)) =~= started);
    } else {
        lemma_began(plan, schedule, started, founds, until - 1);
        let before = locals(founds, until - 1);
        let old = began(plan, started, founds, until - 1);
        assert(finds_new(plan, old, founds[until - 1]));
        if let Some((runner, local)) = founds[until - 1] {
            let ticket = Started::Local(runner, local);
            let job = plan.clusters[runner.cluster as int][local as int];
            assert(plan.clusters[runner.cluster as int].len() <= 16);
            assert(schedule.clusters@[runner.cluster as int].jobs@[local as int].job == job);
            assert(schedule.names(ticket) == job);
            assert(job < plan.placements.len());
            assert(!before.contains(ticket)) by {
                if before.contains(ticket) {
                    assert(named(schedule, before).contains(job));
                }
            }
            assert forall|other: Started| #[trigger] list.contains(other) == (before.contains(other)
                || other == ticket) by {
                if before.contains(other) {
                    assert(list[before.index_of(other)] == other);
                }
                if other == ticket {
                    assert(list[before.len() as int] == other);
                }
                if list.contains(other) {
                    let at = list.index_of(other);
                    if at < before.len() {
                        assert(before[at] == other);
                    }
                }
            }
            assert(began(plan, started, founds, until) =~= started.union(named(schedule, list)))
                by {
                assert forall|other: JobId| #[trigger] named(schedule, list).contains(other) == (
                named(schedule, before).contains(other) || other == job) by {
                    if named(schedule, before).contains(other) {
                        let by = choose|by: Started| #[trigger]
                            before.contains(by) && schedule.names(by) == other;
                        assert(list.contains(by));
                    }
                    if other == job {
                        assert(list.contains(ticket));
                    }
                }
            }
            assert(list.no_duplicates()) by {
                assert forall|left: int, right: int|
                    0 <= left < list.len() && 0 <= right < list.len() && left
                        != right implies list[left] != list[right] by {
                    if left < before.len() {
                        assert(before.contains(before[left]));
                    }
                    if right < before.len() {
                        assert(before.contains(before[right]));
                    }
                }
            }
        }
    }
}

} // verus!
