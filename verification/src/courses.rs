//! The course of a run of a schedule of clusters: how it begins, goes on and ends.

use crate::chain::{lemma_finished_sound, lemma_woken, woken_of, Chain};
use crate::clusters::{ClusterId, LocalIndex};
use crate::conduct::{claim_path, locals, looks_on, singles, take_path, Started};
use crate::crews::{
    cluster_runs_end, finished_by, finishing_keeps_order, lemma_manned_is_one_at_a_time, Crew,
};
use crate::dag::JobId;
use crate::depend::DependencyView;
use crate::exclusion::{
    lemma_keeping_order_is_orderly, lemma_one_at_a_time_is_apart,
    planned_jobs_follow_their_predecessors,
};
use crate::kernel::{kernel_planned, KernelPlan, Schedule};
use crate::normalize::{relation_of, Relation};
use crate::order::within;
use crate::plan::all_consistent;
use crate::rounds::{
    all_new, began, cluster_run, comes_later, finds_new, lemma_began, lemma_claim_path,
    lemma_look_on, lemma_names, lemma_take_path, lemma_ticketed, lemma_until, named, no_more_idle,
    same_for, serial_run, single_run, tickets,
};
use crate::runner::{
    finished, initial_state, names_jobs, ready_names_jobs, runner_fits, KernelState, Runner,
};
use crate::singles::{
    first_of, lemma_first_of, lemma_lone, lemma_lone_cluster, lemma_lone_successors,
    lemma_lonely_is_one_at_a_time, lemma_singles_start, serial_runs_are_orderly,
    single_jobs_finish, single_runs_begin, single_runs_do_not_stall,
};
use vstd::prelude::*;

verus! {

/// When a job of a cluster has finished, those who look for their next jobs keep the run in order.
#[verifier::rlimit(40)]
#[verifier::spinoff_prover]
proof fn lemma_clusters_go_on<R>(
    plan: KernelPlan,
    schedule: Schedule<R>,
    started: Set<JobId>,
    done: Set<JobId>,
    running: Set<Started>,
    held: Seq<u64>,
    crew: Crew,
    runner: Runner,
    local: LocalIndex,
    begun: Seq<Started>,
    after: Schedule<R>,
) -> (next: (Seq<u64>, Crew))
    requires
        plan.fits(),
        schedule.carries(plan),
        cluster_run(plan, schedule.state(), started, done, running, held, crew),
        running.contains(Started::Local(runner, local)),
        schedule.moves_on(Started::Local(runner, local), begun, after),
    ensures
        cluster_run(
            plan,
            after.state(),
            started.union(named(schedule, begun)),
            done.insert(schedule.names(Started::Local(runner, local))),
            running.remove(Started::Local(runner, local)).union(begun.to_set()),
            next.0,
            next.1,
        ),
        begun.no_duplicates(),
        forall|ticket: Started| #[trigger]
            begun.contains(ticket) ==> schedule.has(ticket) && !started.contains(
                schedule.names(ticket),
            ) && schedule.names(ticket) < plan.placements.len(),
{
    let shapes = schedule.shapes();
    let state = schedule.state();
    let cluster = runner.cluster;
    let ticket = Started::Local(runner, local);
    let job = crew.busy[cluster];
    assert(crew.busy.contains_key(cluster) && crew.runners.contains_key(cluster));
    lemma_names(plan, schedule);
    assert(plan.placements[job as int].cluster == cluster);
    assert(plan.clusters[cluster as int][local as int] == job);
    assert(local < plan.clusters[cluster as int].len());
    assert(schedule.clusters@[cluster as int].jobs@[local as int].job == job);
    let (first, resting, spawned) = finished(shapes, state, runner, local);
    finishing_keeps_order(plan, shapes, state, held, started, done, crew, cluster);
    let one = finished_by(crew, resting, spawned);
    let now = done.insert(job);
    let (founds, states, last) = choose|
        founds: Seq<Option<(Runner, LocalIndex)>>,
        states: Seq<KernelState>,
        last: Option<(Runner, LocalIndex)>,
    |
        {
            &&& #[trigger] take_path(shapes, spawned, founds, states)
            &&& states[0] == first
            &&& #[trigger] looks_on(shapes, states.last(), resting, last, after.state())
            &&& begun == locals(founds.push(last), founds.len() as int + 1)
        };
    let count = spawned.len() as int;
    assert forall|index: int| 0 <= index < spawned.len() implies one.handed.contains(
        #[trigger] spawned[index],
    ) by {
        assert(spawned.to_set().contains(spawned[index]));
    }
    let (taken, two) = lemma_take_path(
        plan,
        shapes,
        held.update(cluster as int, resting.ready),
        started,
        now,
        one,
        spawned,
        founds,
        states,
        count,
    );
    assert(spawned.take(count) =~= spawned);
    assert(two.handed =~= Set::empty());
    assert(resting.cluster == cluster);
    assert(!spawned.contains(cluster));
    assert(same_for(one, two, cluster));
    let reached = began(plan, started, founds, count);
    let next = lemma_look_on(
        plan,
        shapes,
        states[count],
        taken,
        reached,
        now,
        two,
        cluster,
        last,
        after.state(),
    );
    let all = founds.push(last);
    lemma_until(plan, started, tickets(plan, one), founds, last, count);
    assert(all[count] == last);
    assert forall|index: int| 0 <= index < count + 1 implies finds_new(
        plan,
        began(plan, started, all, index),
        #[trigger] all[index],
    ) by {
        if index < count {
            lemma_until(plan, started, tickets(plan, one), founds, last, index);
            assert(all[index] == founds[index]);
        }
    }
    assert(all_new(plan, started, all, count + 1));
    lemma_began(plan, schedule, started, all, count + 1);
    lemma_ticketed(tickets(plan, one), all, count + 1);
    assert(tickets(plan, one) =~= running.remove(ticket));
    assert(no_more_idle(Crew::nobody(), next.1)) by {
        assert forall|other: ClusterId| #[trigger]
            next.1.runners.contains_key(other) && !next.1.busy.contains_key(
                other,
            ) implies Crew::nobody().runners.contains_key(other)
            && !Crew::nobody().busy.contains_key(other) by {
            assert(two.runners.contains_key(other) && !two.busy.contains_key(other));
            assert(one.runners.contains_key(other) && !one.busy.contains_key(other));
            assert(other != cluster);
            assert(crew.runners.contains_key(other) && !crew.busy.contains_key(other));
        }
    }
    next
}

/// The clusters that a run begins with bring it in order.
proof fn lemma_clusters_begin<R>(
    plan: KernelPlan,
    schedule: Schedule<R>,
    begun: Seq<Started>,
    after: Schedule<R>,
) -> (next: (Seq<u64>, Crew))
    requires
        plan.fits(),
        schedule.carries(plan),
        schedule.serial_chain is None,
        !schedule.trivial_parallel,
        schedule.singleton_dag is None,
        schedule.begins(begun, after),
    ensures
        cluster_run(
            plan,
            after.state(),
            named(schedule, begun),
            Set::empty(),
            begun.to_set(),
            next.0,
            next.1,
        ),
        begun.no_duplicates(),
        forall|ticket: Started| #[trigger]
            begun.contains(ticket) ==> schedule.has(ticket) && schedule.names(ticket)
                < plan.placements.len(),
{
    let shapes = schedule.shapes();
    let roots = schedule.roots@;
    let nothing = Set::<JobId>::empty();
    let (founds, states) = choose|
        founds: Seq<Option<(Runner, LocalIndex)>>,
        states: Seq<KernelState>,
    |
        {
            &&& #[trigger] claim_path(shapes, roots, founds, states)
            &&& states[0] == initial_state(shapes)
            &&& states.last() == after.state()
            &&& begun == locals(founds, founds.len() as int)
        };
    let count = roots.len() as int;
    assert forall|index: int| 0 <= index < roots.len() implies (#[trigger] roots[index])
        < plan.clusters.len() by {
        assert(roots.contains(roots[index]));
    }
    assert forall|cluster: int|
        0 <= cluster < plan.clusters.len() && (#[trigger] shapes[cluster]).ready_initial
            != 0 implies comes_later(roots, 0, cluster) by {
        assert(roots.contains(cluster as ClusterId));
        let index = roots.index_of(cluster as ClusterId);
        assert(roots[index] == cluster);
    }
    let next = lemma_claim_path(plan, shapes, roots, founds, states, count);
    lemma_began(plan, schedule, nothing, founds, count);
    lemma_ticketed(Set::empty(), founds, count);
    assert(nothing.union(named(schedule, begun)) =~= named(schedule, begun));
    assert(Set::<Started>::empty().union(begun.to_set()) =~= begun.to_set());
    assert forall|cluster: int|
        0 <= cluster < plan.clusters.len() && #[trigger] states[count].ready[cluster]
            != 0 implies states[count].queued[cluster] by {
        assert(!comes_later(roots, count, cluster));
    }
    next
}

/// The jobs of a list of tickets are that of the last and those of the others.
proof fn lemma_named_push<R>(schedule: Schedule<R>, begun: Seq<Started>, ticket: Started)
    ensures
        named(schedule, begun.push(ticket)) == named(schedule, begun).insert(
            schedule.names(ticket),
        ),
{
    let longer = begun.push(ticket);
    assert forall|job: JobId| named(schedule, longer).contains(job) == named(
        schedule,
        begun,
    ).insert(schedule.names(ticket)).contains(job) by {
        if named(schedule, begun).contains(job) {
            let by = choose|by: Started| #[trigger]
                begun.contains(by) && schedule.names(by) == job;
            assert(longer[begun.index_of(by)] == by);
            assert(longer.contains(by));
        }
        assert(longer[begun.len() as int] == ticket);
        assert(longer.contains(ticket));
        if named(schedule, longer).contains(job) {
            let by = choose|by: Started| #[trigger]
                longer.contains(by) && schedule.names(by) == job;
            let at = longer.index_of(by);
            if at < begun.len() {
                assert(begun[at] == by);
                assert(begun.contains(by));
            }
        }
    }
    assert(named(schedule, longer) =~= named(schedule, begun).insert(schedule.names(ticket)));
}

proof fn lemma_first_of_next(chain: Seq<JobId>, count: int)
    requires
        0 <= count < chain.len(),
    ensures
        first_of(chain, count + 1) == first_of(chain, count).insert(chain[count]),
{
    assert(chain.take(count + 1) =~= chain.take(count).push(chain[count]));
    chain.take(count).lemma_push_to_set_commute(chain[count]);
}

/// Along a serial chain, the next job starts when one has finished.
proof fn lemma_serial_begins(chain: Seq<JobId>, running: Set<Started>, count: int)
    requires
        0 <= count <= chain.len(),
        forall|ticket: Started| #[trigger]
            running.contains(ticket) == (ticket matches Started::Serial(at) && at == count && count
                < chain.len()),
    ensures
        serial_run(
            chain,
            if count < chain.len() {
                first_of(chain, count).insert(chain[count])
            } else {
                first_of(chain, count)
            },
            first_of(chain, count),
            running,
            count,
        ),
{
    if count < chain.len() {
        lemma_first_of_next(chain, count);
    }
}

/// Clusters of one job each, as tickets and as jobs.
proof fn lemma_singles<R>(plan: KernelPlan, schedule: Schedule<R>, list: Seq<ClusterId>)
    requires
        plan.fits(),
        schedule.carries(plan),
        plan.lonely(),
        list.no_duplicates(),
        forall|index: int|
            0 <= index < list.len() ==> (#[trigger] list[index]) < plan.clusters.len(),
    ensures
        singles(list).no_duplicates(),
        forall|ticket: Started| #[trigger]
            singles(list).contains(ticket) == (ticket matches Started::Single(cluster)
                && list.contains(cluster)),
        forall|ticket: Started| #[trigger]
            singles(list).contains(ticket) ==> schedule.has(ticket) && schedule.names(ticket)
                < plan.placements.len(),
        forall|job: JobId| #[trigger]
            named(schedule, singles(list)).contains(job) == (job < plan.placements.len()
                && list.contains(plan.placements[job as int].cluster)),
        forall|cluster: ClusterId|
            cluster < plan.clusters.len() ==> #[trigger] schedule.names(Started::Single(cluster))
                == plan.lone(cluster as int),
{
    let made = singles(list);
    lemma_names(plan, schedule);
    assert forall|cluster: ClusterId| cluster < plan.clusters.len() implies #[trigger] schedule.names(
        Started::Single(cluster),
    ) == plan.lone(cluster as int) && plan.lone(cluster as int) < plan.placements.len()
        && plan.placements[plan.lone(cluster as int) as int].cluster == cluster by {
        lemma_lone_cluster(plan, cluster);
        assert(plan.clusters[cluster as int].len() == 1);
        let local: LocalIndex = 0;
        assert(schedule.clusters@[cluster as int].jobs@[local as int].job
            == plan.clusters[cluster as int][local as int]);
    }
    assert forall|ticket: Started| #[trigger] made.contains(ticket) == (ticket matches Started::Single(
        cluster,
    ) && list.contains(cluster)) by {
        if made.contains(ticket) {
            let at = made.index_of(ticket);
            assert(made[at] == Started::Single(list[at]));
            assert(list.contains(list[at]));
        }
        if let Started::Single(cluster) = ticket {
            if list.contains(cluster) {
                let at = list.index_of(cluster);
                assert(made[at] == Started::Single(list[at]));
            }
        }
    }
    assert forall|ticket: Started| #[trigger] made.contains(ticket) implies schedule.has(ticket)
        && schedule.names(ticket) < plan.placements.len() by {
        if let Started::Single(cluster) = ticket {
            let at = list.index_of(cluster);
            assert(list[at] < plan.clusters.len());
            assert(schedule.names(Started::Single(cluster)) == plan.lone(cluster as int));
        }
    }
    assert(made.no_duplicates()) by {
        assert forall|left: int, right: int|
            0 <= left < made.len() && 0 <= right < made.len() && left != right implies made[left]
            != made[right] by {
            assert(list[left] != list[right]);
        }
    }
    assert forall|job: JobId| #[trigger] named(schedule, made).contains(job) == (job
        < plan.placements.len() && list.contains(plan.placements[job as int].cluster)) by {
        if named(schedule, made).contains(job) {
            let by = choose|by: Started| #[trigger] made.contains(by) && schedule.names(by) == job;
            if let Started::Single(cluster) = by {
                let at = list.index_of(cluster);
                assert(list[at] < plan.clusters.len());
                assert(schedule.names(Started::Single(cluster)) == plan.lone(cluster as int));
            }
        }
        if job < plan.placements.len() && list.contains(plan.placements[job as int].cluster) {
            lemma_lone(plan, job);
            let cluster = plan.placements[job as int].cluster;
            assert(made.contains(Started::Single(cluster)));
            assert(schedule.names(Started::Single(cluster)) == job);
        }
    }
}

/// Where every cluster has one job, those that wait for nothing begin.
proof fn lemma_singles_begin<R>(
    declared: Seq<Seq<DependencyView>>,
    plan: KernelPlan,
    schedule: Schedule<R>,
    chain: Chain,
)
    requires
        kernel_planned(declared, plan),
        schedule.carries(plan),
        schedule.singleton_dag == Some(chain),
        schedule.at_rest(),
    ensures
        single_run(
            plan,
            chain,
            named(schedule, singles(chain.roots@)),
            Set::empty(),
            singles(chain.roots@).to_set(),
        ),
{
    let nothing = Set::<JobId>::empty();
    let roots = chain.roots@;
    let begun = singles(roots);
    let more = named(schedule, begun);
    assert forall|index: int| 0 <= index < roots.len() implies (#[trigger] roots[index])
        < plan.clusters.len() by {
        assert(schedule.roots@.contains(roots[index]));
    }
    lemma_singles(plan, schedule, roots);
    single_runs_begin(declared, plan, chain);
    assert forall|job: JobId| #[trigger] more.contains(job) implies job < plan.placements.len()
        && chain.nodes@[plan.placements[job as int].cluster as int].wait == 0 by {
        let cluster = plan.placements[job as int].cluster;
        assert(schedule.roots@.contains(cluster));
        assert(chain.nodes@[cluster as int].wait == chain.nodes@[cluster as int].wait_initial);
    }
    lemma_singles_start(declared, plan, chain, nothing, nothing, more);
    assert(nothing.union(more) =~= more);
    assert forall|job: JobId|
        job < plan.placements.len() && !#[trigger] more.contains(
            job,
        ) implies chain.nodes@[plan.placements[job as int].cluster as int].wait > 0 by {
        let cluster = plan.placements[job as int].cluster;
        lemma_lone(plan, job);
        assert(!schedule.roots@.contains(cluster));
        assert(chain.nodes@[cluster as int].wait == chain.nodes@[cluster as int].wait_initial);
    }
    assert forall|ticket: Started| #[trigger] begun.to_set().contains(ticket) == (
    ticket matches Started::Single(cluster) && cluster < plan.clusters.len() && more.contains(
        plan.lone(cluster as int),
    ) && !nothing.contains(plan.lone(cluster as int))) by {
        if let Started::Single(cluster) = ticket {
            if cluster < plan.clusters.len() {
                lemma_lone_cluster(plan, cluster);
            }
            if roots.contains(cluster) {
                assert(roots[roots.index_of(cluster)] < plan.clusters.len());
            }
        }
        assert(begun.to_set().contains(ticket) == begun.contains(ticket));
    }
}

/// Where every cluster has one job, those begin that wait for nothing when a job has finished.
#[verifier::rlimit(40)]
#[verifier::spinoff_prover]
proof fn lemma_singles_go_on<R>(
    declared: Seq<Seq<DependencyView>>,
    plan: KernelPlan,
    schedule: Schedule<R>,
    chain: Chain,
    now: Chain,
    started: Set<JobId>,
    done: Set<JobId>,
    running: Set<Started>,
    cluster: ClusterId,
)
    requires
        kernel_planned(declared, plan),
        schedule.carries(plan),
        schedule.singleton_dag == Some(chain),
        single_run(plan, chain, started, done, running),
        running.contains(Started::Single(cluster)),
        chain.finishes(cluster as int, now),
    ensures
        ({
            let list = chain.successors_of(cluster as int);
            let begun = singles(woken_of(chain.nodes@, list, list.len() as int));
            &&& single_run(
                plan,
                now,
                started.union(named(schedule, begun)),
                done.insert(schedule.names(Started::Single(cluster))),
                running.remove(Started::Single(cluster)).union(begun.to_set()),
            )
            &&& begun.no_duplicates()
            &&& forall|ticket: Started| #[trigger]
                begun.contains(ticket) ==> schedule.has(ticket) && !started.contains(
                    schedule.names(ticket),
                ) && schedule.names(ticket) < plan.placements.len()
        }),
{
    planned_jobs_follow_their_predecessors(declared, plan);
    let list = chain.successors_of(cluster as int);
    let woken = woken_of(chain.nodes@, list, list.len() as int);
    let begun = singles(woken);
    let more = named(schedule, begun);
    let job = plan.lone(cluster as int);
    let finish = done.insert(job);
    let next = started.union(more);
    lemma_lone_cluster(plan, cluster);
    lemma_lone_successors(plan, job, job);
    lemma_woken(chain.nodes@, list, list.len() as int);
    assert(list.take(list.len() as int) =~= list);
    assert forall|index: int| 0 <= index < woken.len() implies (#[trigger] woken[index])
        < plan.clusters.len() by {
        assert(woken.contains(woken[index]));
        let at = list.index_of(woken[index]);
        assert(list[at] == woken[index]);
    }
    lemma_singles(plan, schedule, woken);
    assert(schedule.names(Started::Single(cluster)) == job);
    lemma_finished_sound(chain, cluster as int, now);
    single_jobs_finish(declared, plan, chain, now, started, done, job);
    assert forall|other: JobId| #[trigger] more.contains(other) implies other
        < plan.placements.len() && !started.contains(other)
        && now.nodes@[plan.placements[other as int].cluster as int].wait == 0 by {
        let there = plan.placements[other as int].cluster;
        assert(woken.contains(there));
        lemma_lone(plan, other);
        lemma_lone_successors(plan, job, other);
        let waited = plan.predecessors[other as int];
        assert(waited.contains(job));
        let at = waited.index_of(job);
        if started.contains(other) {
            assert(plan.may_start(done, other));
            assert(done.contains(plan.predecessors[other as int][at]));
        }
        assert(there != cluster) by {
            let place = list.index_of(there);
            assert(list[place] == there);
        }
        assert(now.nodes@[there as int].wait == chain.nodes@[there as int].wait.wrapping_sub(1));
    }
    lemma_singles_start(declared, plan, now, started, finish, more);
    assert forall|other: JobId|
        other < plan.placements.len() && !#[trigger] next.contains(
            other,
        ) implies now.nodes@[plan.placements[other as int].cluster as int].wait > 0 by {
        let there = plan.placements[other as int].cluster;
        lemma_lone(plan, other);
        assert(!started.contains(other));
        assert(!more.contains(other));
        assert(!woken.contains(there));
        assert(there != cluster);
        assert(chain.nodes@[there as int].wait > 0);
    }
    let runs = running.remove(Started::Single(cluster)).union(begun.to_set());
    assert forall|ticket: Started| #[trigger] runs.contains(ticket) == (ticket matches Started::Single(
        other,
    ) && other < plan.clusters.len() && next.contains(plan.lone(other as int)) && !finish.contains(
        plan.lone(other as int),
    )) by {
        assert(begun.to_set().contains(ticket) == begun.contains(ticket));
        if let Started::Single(other) = ticket {
            if other < plan.clusters.len() {
                lemma_lone_cluster(plan, other);
                let one = plan.lone(other as int);
                assert(more.contains(one) == woken.contains(other));
                if more.contains(one) {
                    assert(!started.contains(one));
                    assert(done.contains(one) ==> started.contains(one));
                }
            }
            if woken.contains(other) {
                assert(woken[woken.index_of(other)] < plan.clusters.len());
            }
        }
    }
    assert forall|ticket: Started| #[trigger] begun.contains(ticket) implies !started.contains(
        schedule.names(ticket),
    ) by {
        assert(more.contains(schedule.names(ticket)));
    }
}

/// A schedule that differs from another in nothing but what changes while it is run carries the same
/// plan.
proof fn lemma_carried<R>(plan: KernelPlan, schedule: Schedule<R>, after: Schedule<R>)
    requires
        schedule.carries(plan),
        after.same_but_state(schedule),
        after.sound(),
    ensures
        after.carries(plan),
{
}

/// A schedule with another graph, of the same clusters, carries the same plan.
proof fn lemma_carried_on<R>(
    plan: KernelPlan,
    schedule: Schedule<R>,
    chain: Chain,
    now: Chain,
    after: Schedule<R>,
)
    requires
        schedule.carries(plan),
        schedule.singleton_dag == Some(chain),
        after == (Schedule { singleton_dag: Some(now), ..schedule }),
        plan.links(now),
        now.roots == chain.roots,
    ensures
        after.carries(plan),
        after.shapes() == schedule.shapes(),
{
    assert(after.shapes() =~= schedule.shapes());
    assert forall|cluster: ClusterId| #[trigger] after.roots@.contains(cluster) == (cluster
        < plan.clusters.len() && now.nodes@[cluster as int].wait_initial == 0) by {
        assert(schedule.roots@.contains(cluster) == (cluster < plan.clusters.len()
            && chain.nodes@[cluster as int].wait_initial == 0));
        if cluster < plan.clusters.len() {
            assert(now.nodes@[cluster as int].wait_initial == plan.external(
                plan.lone(cluster as int),
            ));
            assert(chain.nodes@[cluster as int].wait_initial == plan.external(
                plan.lone(cluster as int),
            ));
        }
    }
}

/// A schedule that carries its plan can begin a run.
pub proof fn runs_can_begin<R>(
    declared: Seq<Seq<DependencyView>>,
    plan: KernelPlan,
    schedule: Schedule<R>,
)
    requires
        kernel_planned(declared, plan),
        schedule.carries(plan),
    ensures
        schedule.sound(),
        schedule.clusters@.len() <= u32::MAX,
        within(schedule.roots@, schedule.clusters@.len() as int),
        ready_names_jobs(schedule.shapes(), initial_state(schedule.shapes())),
{
    lemma_names(plan, schedule);
    let roots = schedule.roots@;
    assert forall|index: int| 0 <= index < roots.len() implies (#[trigger] roots[index])
        < schedule.clusters@.len() by {
        assert(roots.contains(roots[index]));
    }
}

/// A run begins in order: the jobs that start are different ones, and nothing is done.
pub proof fn runs_begin<R>(
    declared: Seq<Seq<DependencyView>>,
    plan: KernelPlan,
    schedule: Schedule<R>,
    begun: Seq<Started>,
    after: Schedule<R>,
)
    requires
        kernel_planned(declared, plan),
        schedule.carries(plan),
        schedule.at_rest(),
        schedule.begins(begun, after),
        after.sound(),
    ensures
        after.conducts(plan, named(schedule, begun), Set::empty(), begun.to_set()),
        begun.no_duplicates(),
{
    let nothing = Set::<JobId>::empty();
    let started = named(schedule, begun);
    match schedule.serial_chain {
        Some(chain) => {
            let running = begun.to_set();
            assert(first_of(chain@, 0) =~= nothing);
            assert(named(schedule, Seq::empty()) =~= nothing);
            if chain@.len() > 0 {
                let ticket = Started::Serial(0);
                assert(begun =~= Seq::empty().push(ticket));
                lemma_named_push(schedule, Seq::empty(), ticket);
                assert(begun[0] == ticket);
                assert(running =~= set![ticket]);
            }
            lemma_serial_begins(chain@, running, 0);
            assert(serial_run(chain@, started, nothing, running, 0));
        },
        None => if schedule.trivial_parallel {
            let list = Seq::new(plan.clusters.len(), |cluster: int| cluster as ClusterId);
            lemma_names(plan, schedule);
            assert(begun =~= singles(list));
            lemma_singles(plan, schedule, list);
            assert forall|cluster: ClusterId| cluster < plan.clusters.len() implies #[trigger] list.contains(
                cluster,
            ) by {
                assert(list[cluster as int] == cluster);
            }
            assert forall|job: JobId| job < plan.placements.len() implies #[trigger] started.contains(
                job,
            ) by {
                lemma_lone(plan, job);
                assert(list.contains(plan.placements[job as int].cluster));
            }
            assert forall|ticket: Started| #[trigger] begun.to_set().contains(ticket) == (
            ticket matches Started::Single(cluster) && cluster < plan.clusters.len()
                && !nothing.contains(plan.lone(cluster as int))) by {
                assert(begun.to_set().contains(ticket) == begun.contains(ticket));
                if let Started::Single(cluster) = ticket {
                    if list.contains(cluster) {
                        assert(list[list.index_of(cluster)] < plan.clusters.len());
                    }
                }
            }
        } else {
            match schedule.singleton_dag {
                Some(chain) => {
                    lemma_singles_begin(declared, plan, schedule, chain);
                    assert forall|index: int| 0 <= index < chain.roots@.len() implies (
                    #[trigger] chain.roots@[index]) < plan.clusters.len() by {
                        assert(schedule.roots@.contains(chain.roots@[index]));
                    }
                    lemma_singles(plan, schedule, chain.roots@);
                },
                None => {
                    let (held, crew) = lemma_clusters_begin(plan, schedule, begun, after);
                    lemma_carried(plan, schedule, after);
                    assert(cluster_run(
                        plan,
                        after.state(),
                        started,
                        nothing,
                        begun.to_set(),
                        held,
                        crew,
                    ));
                    assert forall|job: JobId| #[trigger] started.contains(job) implies job
                        < plan.placements.len() by {
                        let by = choose|by: Started| #[trigger]
                            begun.contains(by) && schedule.names(by) == job;
                        assert(schedule.has(by));
                    }
                },
            }
        },
    }
    if let Some(chain) = schedule.serial_chain {
        assert forall|job: JobId| #[trigger] started.contains(job) implies job
            < plan.placements.len() by {
            if chain@.len() > 0 {
                assert(chain@[0] < plan.placements.len());
            }
        }
    }
}

/// A run goes on in order when a job has finished: the jobs that start are different ones, and none
/// of them has started before.
pub proof fn runs_go_on<R>(
    declared: Seq<Seq<DependencyView>>,
    plan: KernelPlan,
    schedule: Schedule<R>,
    started: Set<JobId>,
    done: Set<JobId>,
    running: Set<Started>,
    ticket: Started,
    begun: Seq<Started>,
    after: Schedule<R>,
)
    requires
        kernel_planned(declared, plan),
        schedule.conducts(plan, started, done, running),
        running.contains(ticket),
        schedule.moves_on(ticket, begun, after),
        after.sound(),
    ensures
        after.conducts(
            plan,
            started.union(named(schedule, begun)),
            done.insert(schedule.names(ticket)),
            running.remove(ticket).union(begun.to_set()),
        ),
        begun.no_duplicates(),
        forall|other: Started| #[trigger]
            begun.contains(other) ==> !started.contains(schedule.names(other)),
{
    let nothing = Set::<JobId>::empty();
    let next = started.union(named(schedule, begun));
    let job = schedule.names(ticket);
    let finish = done.insert(job);
    let runs = running.remove(ticket).union(begun.to_set());
    assert(named(schedule, Seq::empty()) =~= nothing);
    assert(forall|other: Started| begun.to_set().contains(other) == begun.contains(other));
    match schedule.serial_chain {
        Some(chain) => {
            let chain = chain@;
            let count = choose|count: int| #[trigger]
                serial_run(chain, started, done, running, count);
            assert(ticket == Started::Serial(count as usize));
            lemma_first_of_next(chain, count);
            if count + 1 < chain.len() {
                let other = Started::Serial((count + 1) as usize);
                assert(begun =~= Seq::empty().push(other));
                lemma_named_push(schedule, Seq::empty(), other);
                assert(begun[0] == other);
                lemma_first_of(chain, count + 1, count + 1);
                assert(chain[count + 1] < plan.placements.len());
                assert(next =~= first_of(chain, count + 1).insert(chain[count + 1]));
            } else {
                assert(next =~= started);
            }
            assert forall|other: Started| #[trigger] runs.contains(other) == (
            other matches Started::Serial(at) && at == count + 1 && count + 1 < chain.len()) by {}
            lemma_serial_begins(chain, runs, count + 1);
            assert(serial_run(chain, next, finish, runs, count + 1));
            assert(started.contains(chain[count])) by {
                lemma_first_of(chain, count + 1, count);
            }
        },
        None => if schedule.trivial_parallel {
            lemma_singles(plan, schedule, Seq::empty());
            if let Started::Single(cluster) = ticket {
                lemma_lone_cluster(plan, cluster);
                assert(job == plan.lone(cluster as int));
                assert(next =~= started);
                assert forall|other: Started| #[trigger] runs.contains(other) == (
                other matches Started::Single(there) && there < plan.clusters.len()
                    && !finish.contains(plan.lone(there as int))) by {
                    if let Started::Single(there) = other {
                        if there < plan.clusters.len() {
                            lemma_lone_cluster(plan, there);
                        }
                    }
                }
            }
        } else {
            match schedule.singleton_dag {
                Some(chain) => {
                    if let Started::Single(cluster) = ticket {
                        let list = chain.successors_of(cluster as int);
                        let now = choose|now: Chain|
                            {
                                &&& #[trigger] chain.finishes(cluster as int, now)
                                &&& after == (Schedule { singleton_dag: Some(now), ..schedule })
                                &&& begun == singles(
                                    woken_of(chain.nodes@, list, list.len() as int),
                                )
                            };
                        lemma_singles_go_on(
                            declared,
                            plan,
                            schedule,
                            chain,
                            now,
                            started,
                            done,
                            running,
                            cluster,
                        );
                        lemma_carried_on(plan, schedule, chain, now, after);
                        lemma_lone_cluster(plan, cluster);
                        lemma_singles(plan, schedule, Seq::empty());
                        assert(job == plan.lone(cluster as int));
                    }
                },
                None => {
                    let (held, crew) = choose|held: Seq<u64>, crew: Crew| #[trigger]
                        cluster_run(plan, schedule.state(), started, done, running, held, crew);
                    if let Started::Local(runner, local) = ticket {
                        let (taken, one) = lemma_clusters_go_on(
                            plan,
                            schedule,
                            started,
                            done,
                            running,
                            held,
                            crew,
                            runner,
                            local,
                            begun,
                            after,
                        );
                        lemma_carried(plan, schedule, after);
                        assert(cluster_run(plan, after.state(), next, finish, runs, taken, one));
                        lemma_names(plan, schedule);
                        assert(crew.busy.contains_key(runner.cluster));
                        assert(plan.clusters[runner.cluster as int][local as int]
                            == crew.busy[runner.cluster]);
                        assert(schedule.clusters@[runner.cluster as int].jobs@[local as int].job
                            == job);
                    }
                },
            }
        },
    }
    assert forall|one: JobId| #[trigger] next.contains(one) implies one < plan.placements.len() by {
        if !started.contains(one) {
            let by = choose|by: Started| #[trigger] begun.contains(by) && schedule.names(by) == one;
            assert(begun.contains(by));
        }
    }
}

/// The jobs that have started in a run follow what they wait for, and no two jobs of a cluster run at
/// the same time.
proof fn lemma_conducted<R>(
    declared: Seq<Seq<DependencyView>>,
    plan: KernelPlan,
    schedule: Schedule<R>,
    started: Set<JobId>,
    done: Set<JobId>,
    running: Set<Started>,
)
    requires
        kernel_planned(declared, plan),
        schedule.conducts(plan, started, done, running),
    ensures
        plan.orderly(started, done),
        plan.one_at_a_time(started, done),
{
    match schedule.serial_chain {
        Some(chain) => {
            let count = choose|count: int| #[trigger]
                serial_run(chain@, started, done, running, count);
            serial_runs_are_orderly(
                plan,
                chain@,
                count,
                if count < chain@.len() {
                    count + 1
                } else {
                    count
                },
            );
        },
        None => if schedule.trivial_parallel {
            lemma_lonely_is_one_at_a_time(plan, started, done);
            assert forall|job: JobId| job < plan.placements.len() implies (
            #[trigger] started.contains(job) ==> plan.may_start(done, job)) && (done.contains(job)
                ==> started.contains(job)) by {
                assert(plan.may_start(Set::empty(), job));
                if plan.predecessors[job as int].len() > 0 {
                    assert(Set::<JobId>::empty().contains(plan.predecessors[job as int][0]));
                }
            }
        } else {
            match schedule.singleton_dag {
                Some(chain) => {
                    lemma_lonely_is_one_at_a_time(plan, started, done);
                },
                None => {
                    let (held, crew) = choose|held: Seq<u64>, crew: Crew| #[trigger]
                        cluster_run(plan, schedule.state(), started, done, running, held, crew);
                    lemma_manned_is_one_at_a_time(
                        plan,
                        schedule.state(),
                        held,
                        started,
                        done,
                        crew,
                    );
                    lemma_keeping_order_is_orderly(plan, schedule.state(), held, started, done);
                },
            }
        },
    }
}

/// In whichever way a schedule is run, related jobs do not overlap: where both have started, one of
/// them is done; and where they are strictly related, the one that is declared first is done before
/// the other starts.
pub proof fn related_jobs_do_not_overlap<R>(
    declared: Seq<Seq<DependencyView>>,
    plan: KernelPlan,
    schedule: Schedule<R>,
    started: Set<JobId>,
    done: Set<JobId>,
    running: Set<Started>,
    left: JobId,
    right: JobId,
)
    requires
        all_consistent(declared),
        kernel_planned(declared, plan),
        schedule.conducts(plan, started, done, running),
        left < right < declared.len(),
        relation_of(declared[left as int], declared[right as int]) != Relation::Free,
    ensures
        started.contains(left) && started.contains(right) ==> done.contains(left) || done.contains(
            right,
        ),
        relation_of(declared[left as int], declared[right as int]) == Relation::Strict
            && started.contains(right) ==> done.contains(left),
{
    lemma_conducted(declared, plan, schedule, started, done, running);
    lemma_one_at_a_time_is_apart(declared, plan, started, done, left, right);
}

/// Where a job has failed, and so is never done, no job that is strictly related to it and declared
/// later starts.
pub proof fn failed_jobs_hold_back<R>(
    declared: Seq<Seq<DependencyView>>,
    plan: KernelPlan,
    schedule: Schedule<R>,
    started: Set<JobId>,
    done: Set<JobId>,
    running: Set<Started>,
    failed: JobId,
    job: JobId,
)
    requires
        all_consistent(declared),
        kernel_planned(declared, plan),
        schedule.conducts(plan, started, done, running),
        failed < job < declared.len(),
        relation_of(declared[failed as int], declared[job as int]) == Relation::Strict,
        !done.contains(failed),
    ensures
        !started.contains(job),
{
    related_jobs_do_not_overlap(declared, plan, schedule, started, done, running, failed, job);
}

/// Each job that has started and is not done runs under one ticket, and each ticket that runs can be
/// finished.
pub proof fn running_jobs_have_tickets<R>(
    declared: Seq<Seq<DependencyView>>,
    plan: KernelPlan,
    schedule: Schedule<R>,
    started: Set<JobId>,
    done: Set<JobId>,
    running: Set<Started>,
)
    requires
        kernel_planned(declared, plan),
        schedule.conducts(plan, started, done, running),
    ensures
        forall|ticket: Started| #[trigger]
            running.contains(ticket) ==> {
                &&& schedule.has(ticket)
                &&& started.contains(schedule.names(ticket))
                &&& !done.contains(schedule.names(ticket))
                &&& match ticket {
                    Started::Serial(_) => true,
                    Started::Single(cluster) => schedule.singleton_dag matches Some(chain)
                        ==> chain.sound() && cluster < chain.nodes@.len(),
                    Started::Local(runner, _) => runner_fits(schedule.shapes(), runner)
                        && ready_names_jobs(schedule.shapes(), schedule.state()),
                }
            },
        forall|left: Started, right: Started|
            #![trigger running.contains(left), running.contains(right)]
            running.contains(left) && running.contains(right) && schedule.names(left)
                == schedule.names(right) ==> left == right,
        forall|job: JobId| #[trigger]
            started.contains(job) && !done.contains(job) ==> exists|ticket: Started| #[trigger]
                running.contains(ticket) && schedule.names(ticket) == job,
{
    lemma_names(plan, schedule);
    match schedule.serial_chain {
        Some(chain) => {
            let chain = chain@;
            let count = choose|count: int| #[trigger]
                serial_run(chain, started, done, running, count);
            if count < chain.len() {
                lemma_first_of(chain, count + 1, count);
                lemma_first_of(chain, count, count);
                lemma_first_of_next(chain, count);
                assert(running.contains(Started::Serial(count as usize)));
            }
        },
        None => if schedule.trivial_parallel || schedule.singleton_dag is Some {
            lemma_singles(plan, schedule, Seq::empty());
            assert forall|ticket: Started| #[trigger] running.contains(ticket) implies (
            ticket matches Started::Single(cluster) && cluster < plan.clusters.len()
                && schedule.names(ticket) == plan.lone(cluster as int)
                && plan.placements[plan.lone(cluster as int) as int].cluster == cluster
                && started.contains(plan.lone(cluster as int)) && !done.contains(
                plan.lone(cluster as int),
            )) by {
                if let Started::Single(cluster) = ticket {
                    lemma_lone_cluster(plan, cluster);
                    assert(schedule.names(Started::Single(cluster)) == plan.lone(cluster as int));
                }
            }
            assert forall|job: JobId| #[trigger]
                started.contains(job) && !done.contains(job) implies exists|ticket: Started|
                #[trigger] running.contains(ticket) && schedule.names(ticket) == job by {
                lemma_lone(plan, job);
                let cluster = plan.placements[job as int].cluster;
                assert(schedule.names(Started::Single(cluster)) == plan.lone(cluster as int));
                assert(running.contains(Started::Single(cluster)));
            }
        } else {
            let (held, crew) = choose|held: Seq<u64>, crew: Crew| #[trigger]
                cluster_run(plan, schedule.state(), started, done, running, held, crew);
            let shapes = schedule.shapes();
            assert forall|cluster: int| 0 <= cluster < shapes.len() implies names_jobs(
                #[trigger] schedule.state().ready[cluster],
                shapes[cluster].names.len() as int,
            ) by {
                assert(shapes[cluster].names == plan.clusters[cluster]);
            }
            assert forall|ticket: Started| #[trigger] running.contains(ticket) implies (
            ticket matches Started::Local(runner, local) && schedule.has(ticket)
                && schedule.names(ticket) == crew.busy[runner.cluster]
                && crew.busy.contains_key(runner.cluster) && runner_fits(shapes, runner)
                && plan.placements[crew.busy[runner.cluster] as int].cluster == runner.cluster
                && local == plan.placements[crew.busy[runner.cluster] as int].local
                && crew.runners[runner.cluster] == runner) by {
                if let Started::Local(runner, local) = ticket {
                    assert(crew.busy.contains_key(runner.cluster));
                    assert(crew.runners.contains_key(runner.cluster));
                    assert(plan.clusters[runner.cluster as int][local as int]
                        == crew.busy[runner.cluster]);
                    assert(schedule.clusters@[runner.cluster as int].jobs@[local as int].job
                        == crew.busy[runner.cluster]);
                    assert(held[runner.cluster as int] == runner.ready);
                    assert(shapes[runner.cluster as int].names
                        == plan.clusters[runner.cluster as int]);
                }
            }
            assert forall|job: JobId| #[trigger]
                started.contains(job) && !done.contains(job) implies exists|ticket: Started|
                #[trigger] running.contains(ticket) && schedule.names(ticket) == job by {
                let place = plan.placements[job as int];
                assert(crew.busy[place.cluster] == job && crew.busy.contains_key(place.cluster));
                let runner = crew.runners[place.cluster];
                assert(crew.runners.contains_key(place.cluster));
                assert(runner.cluster == place.cluster);
                let ticket = Started::Local(runner, place.local);
                assert(running.contains(ticket));
            }
        },
    }
}

/// A run ends only when all jobs are done: where no job runs, there is none left.
pub proof fn runs_end<R>(
    declared: Seq<Seq<DependencyView>>,
    plan: KernelPlan,
    schedule: Schedule<R>,
    started: Set<JobId>,
    done: Set<JobId>,
)
    requires
        kernel_planned(declared, plan),
        schedule.conducts(plan, started, done, Set::empty()),
    ensures
        forall|job: JobId| job < plan.placements.len() ==> #[trigger] done.contains(job),
        schedule.at_rest(),
{
    let idle = Set::<Started>::empty();
    running_jobs_have_tickets(declared, plan, schedule, started, done, idle);
    assert(started =~= done) by {
        assert forall|job: JobId| started.contains(job) == done.contains(job) by {
            if started.contains(job) && !done.contains(job) {
                assert(exists|ticket: Started| #[trigger]
                    idle.contains(ticket) && schedule.names(ticket) == job);
            }
        }
    }
    assert forall|job: JobId| job < plan.placements.len() implies #[trigger] done.contains(
        job,
    ) by {
        match schedule.serial_chain {
            Some(chain) => {
                let count = choose|count: int| #[trigger]
                    serial_run(chain@, started, done, idle, count);
                assert(!idle.contains(Started::Serial(count as usize)));
                assert(count == chain@.len());
                assert(chain@.contains(job));
                lemma_first_of(chain@, count, chain@.index_of(job));
            },
            None => if schedule.trivial_parallel {
                lemma_lone(plan, job);
                assert(!idle.contains(Started::Single(plan.placements[job as int].cluster)));
            } else {
                match schedule.singleton_dag {
                    Some(chain) => if !done.contains(job) {
                        let next = single_runs_do_not_stall(declared, plan, chain, done, job);
                        assert(!started.contains(next));
                    },
                    None => {
                        let (held, crew) = choose|held: Seq<u64>, crew: Crew| #[trigger]
                            cluster_run(plan, schedule.state(), started, done, idle, held, crew);
                        assert forall|cluster: ClusterId| !crew.busy.contains_key(cluster) by {
                            if crew.busy.contains_key(cluster) {
                                let runner = crew.runners[cluster];
                                assert(crew.runners.contains_key(cluster));
                                assert(tickets(plan, crew).contains(
                                    Started::Local(
                                        runner,
                                        plan.placements[crew.busy[cluster] as int].local,
                                    ),
                                ));
                            }
                        }
                        assert forall|cluster: ClusterId| !crew.runners.contains_key(cluster) by {
                            if crew.runners.contains_key(cluster) {
                                assert(!crew.busy.contains_key(cluster));
                                assert(!Crew::nobody().runners.contains_key(cluster));
                            }
                        }
                        assert(crew.busy =~= Map::empty());
                        assert(crew.runners =~= Map::empty());
                        assert(crew == Crew::nobody());
                        cluster_runs_end(declared, plan, schedule.state(), held, done, job);
                    },
                }
            },
        }
    }
    if let Some(chain) = schedule.singleton_dag {
        if schedule.serial_chain is None {
            assert forall|cluster: int| 0 <= cluster < chain.nodes@.len() implies (
            #[trigger] chain.nodes@[cluster]).wait == chain.nodes@[cluster].wait_initial by {
                lemma_lone_cluster(plan, cluster as ClusterId);
                assert(done.contains(plan.lone(cluster)));
            }
        }
    }
}

/// Whether a run failed or not, a schedule whose run has ended begins the next as it began the first:
/// it carries the same plan, and every cluster of its graph waits for what it waits for in the
/// beginning.
pub proof fn next_runs_begin_anew<R>(
    declared: Seq<Seq<DependencyView>>,
    plan: KernelPlan,
    schedule: Schedule<R>,
    started: Set<JobId>,
    done: Set<JobId>,
    running: Set<Started>,
    failed: bool,
    after: Schedule<R>,
)
    requires
        kernel_planned(declared, plan),
        schedule.conducts(plan, started, done, running),
        failed || running == Set::<Started>::empty(),
        schedule.ends(failed, after),
    ensures
        after.carries(plan),
        after.at_rest(),
        after.shapes() == schedule.shapes(),
        after.roots == schedule.roots,
        after.serial_chain == schedule.serial_chain,
        after.trivial_parallel == schedule.trivial_parallel,
{
    if failed {
        if let Some(chain) = schedule.singleton_dag {
            let now = choose|now: Chain| #[trigger]
                chain.resets(now) && after == (Schedule { singleton_dag: Some(now), ..schedule });
            assert forall|cluster: int|
                #![trigger now.nodes@[cluster]]
                #![trigger chain.nodes@[cluster]]
                0 <= cluster < now.nodes@.len() implies now.nodes@[cluster].successor_range
                == chain.nodes@[cluster].successor_range && now.nodes@[cluster].wait_initial
                == chain.nodes@[cluster].wait_initial && now.successors_of(cluster)
                == chain.successors_of(cluster) && now.nodes@[cluster].wait
                == now.nodes@[cluster].wait_initial by {
                assert(now.nodes@[cluster].successor_range == chain.nodes@[cluster].successor_range);
            }
            assert(plan.links(now)) by {
                assert forall|cluster: int| 0 <= cluster < plan.clusters.len() implies #[trigger] now.successors_of(
                    cluster,
                ) == plan.lone_successors(cluster) by {
                    assert(now.nodes@[cluster].successor_range
                        == chain.nodes@[cluster].successor_range);
                    assert(chain.successors_of(cluster) == plan.lone_successors(cluster));
                }
            }
            lemma_carried_on(plan, schedule, chain, now, after);
        }
    } else {
        runs_end(declared, plan, schedule, started, done);
    }
}

/// Where all jobs of a schedule are run at once, no two of them are related.
pub proof fn jobs_run_at_once_are_unrelated<R>(
    declared: Seq<Seq<DependencyView>>,
    plan: KernelPlan,
    schedule: Schedule<R>,
    left: JobId,
    right: JobId,
)
    requires
        all_consistent(declared),
        kernel_planned(declared, plan),
        schedule.carries(plan),
        schedule.trivial_parallel,
        left < right < declared.len(),
    ensures
        relation_of(declared[left as int], declared[right as int]) == Relation::Free,
{
    let all = Set::new(|job: JobId| true);
    let nothing = Set::<JobId>::empty();
    lemma_lonely_is_one_at_a_time(plan, all, nothing);
    assert forall|job: JobId| job < plan.placements.len() implies (#[trigger] all.contains(job)
        ==> plan.may_start(nothing, job)) && (nothing.contains(job) ==> all.contains(job)) by {
        assert(plan.may_start(nothing, job));
    }
    assert(all.contains(left) && all.contains(right));
    if relation_of(declared[left as int], declared[right as int]) != Relation::Free {
        lemma_one_at_a_time_is_apart(declared, plan, all, nothing, left, right);
    }
}

} // verus!
