//! Running the jobs of a schedule of clusters, in whichever way it is run: which jobs start first, and
//! which start when a job has finished.

use crate::bits::{lemma_set_bit, word_bit};
use crate::chain::{woken_of, Chain};
use crate::clusters::{ClusterId, LocalIndex};
use crate::crews::lemma_claims;
use crate::dag::JobId;
use crate::kernel::{RemoteSuccessor, Schedule};
use crate::order::within;
use crate::runner::{
    bit_of, finished, initial_state, lemma_no_ready, lemma_resembling, names_jobs,
    ready_names_jobs, remotes_fit, runner_fits, selected, settled, shapes, unlock, wake_all,
    ClusterShape, KernelState, Runner,
};
use vstd::prelude::*;

verus! {

/// A job that has started: its place in the chain where jobs are run one after the other, its cluster
/// where every cluster has one job, or else the runner of its cluster and its place there.
#[derive(Debug, Copy, Clone, PartialEq, Eq, Structural)]
pub enum Started {
    Serial(usize),
    Single(ClusterId),
    Local(Runner, LocalIndex),
}

/// Whether a runner who looks for a ready job finds the given one.
pub open spec fn looks_on(
    shapes: Seq<ClusterShape>,
    state: KernelState,
    runner: Runner,
    found: Option<(Runner, LocalIndex)>,
    after: KernelState,
) -> bool {
    let (settled_state, resting) = settled(state, runner);
    &&& after == settled_state
    &&& match resting {
        None => found is None,
        Some(resting) => found matches Some((running, local)) && selected(
            shapes,
            after,
            resting.cluster,
            resting.ready,
            local,
        ) && running == (Runner { ready: resting.ready & !bit_of(local), ..resting }),
    }
}

/// Whether one who begins with a cluster that has been claimed finds the given job.
pub open spec fn takes_on(
    shapes: Seq<ClusterShape>,
    state: KernelState,
    cluster: ClusterId,
    found: Option<(Runner, LocalIndex)>,
    after: KernelState,
) -> bool {
    looks_on(
        shapes,
        state.with_ready(cluster, 0),
        Runner { cluster, ready: state.ready[cluster as int], next: None },
        found,
        after,
    )
}

/// Whether one who begins with a cluster, unless nothing is ready in it or someone runs it, finds the
/// given job.
pub open spec fn claims(
    shapes: Seq<ClusterShape>,
    state: KernelState,
    cluster: ClusterId,
    found: Option<(Runner, LocalIndex)>,
    after: KernelState,
) -> bool {
    if state.ready[cluster as int] != 0 && !state.queued[cluster as int] {
        takes_on(shapes, state.with_queued(cluster, true), cluster, found, after)
    } else {
        found is None && after == state
    }
}

/// Whether clusters were begun with one after another, and `states` are the states in between.
pub open spec fn take_path(
    shapes: Seq<ClusterShape>,
    list: Seq<ClusterId>,
    founds: Seq<Option<(Runner, LocalIndex)>>,
    states: Seq<KernelState>,
) -> bool {
    &&& founds.len() == list.len()
    &&& states.len() == list.len() + 1
    &&& forall|index: int|
        #![trigger list[index]]
        0 <= index < list.len() ==> takes_on(
            shapes,
            states[index],
            list[index],
            founds[index],
            states[index + 1],
        )
}

/// Whether clusters were claimed and begun with one after another, and `states` are the states in
/// between.
pub open spec fn claim_path(
    shapes: Seq<ClusterShape>,
    list: Seq<ClusterId>,
    founds: Seq<Option<(Runner, LocalIndex)>>,
    states: Seq<KernelState>,
) -> bool {
    &&& founds.len() == list.len()
    &&& states.len() == list.len() + 1
    &&& forall|index: int|
        #![trigger list[index]]
        0 <= index < list.len() ==> claims(
            shapes,
            states[index],
            list[index],
            founds[index],
            states[index + 1],
        )
}

/// The jobs among the first `until` that were found, as jobs that have started.
pub open spec fn locals(
    founds: Seq<Option<(Runner, LocalIndex)>>,
    until: int,
) -> Seq<Started>
    decreases until,
{
    if until <= 0 {
        Seq::empty()
    } else {
        let before = locals(founds, until - 1);
        match founds[until - 1] {
            None => before,
            Some((runner, local)) => before.push(Started::Local(runner, local)),
        }
    }
}

/// Clusters, as jobs that have started where every cluster has one job.
pub open spec fn singles(list: Seq<ClusterId>) -> Seq<Started> {
    list.map_values(|cluster: ClusterId| Started::Single(cluster))
}

impl<R> Schedule<R> {
    /// Whether the schedule has a job that has started.
    pub open spec fn has(self, started: Started) -> bool {
        match started {
            Started::Serial(at) => self.serial_chain matches Some(chain) && at < chain@.len(),
            Started::Single(cluster) => cluster < self.clusters@.len(),
            Started::Local(runner, local) => runner.cluster < self.clusters@.len() && local
                < self.clusters@[runner.cluster as int].jobs@.len(),
        }
    }

    /// Which job has started.
    pub open spec fn names(self, started: Started) -> JobId {
        match started {
            Started::Serial(at) => self.serial_chain->Some_0@[at as int],
            Started::Single(cluster) => self.clusters@[cluster as int].jobs@[0].job,
            Started::Local(runner, local) => {
                self.clusters@[runner.cluster as int].jobs@[local as int].job
            },
        }
    }

    /// Which job has started.
    pub fn job_of(&self, started: Started) -> (job: JobId)
        requires
            self.sound(),
            self.has(started),
        ensures
            job == self.names(started),
    {
        match started {
            Started::Serial(at) => match &self.serial_chain {
                Some(chain) => chain[at],
                None => 0,
            },
            Started::Single(cluster) => {
                assert(self.clusters@[cluster as int].shape().fits());
                self.clusters[cluster as usize].jobs[0].job
            },
            Started::Local(runner, local) => {
                self.clusters[runner.cluster as usize].jobs[local as usize].job
            },
        }
    }

    /// Whether `begun` are the jobs that start when a run begins, and `after` is the schedule then.
    pub open spec fn begins(self, begun: Seq<Started>, after: Self) -> bool {
        match self.serial_chain {
            Some(chain) => after == self && begun == if chain@.len() == 0 {
                Seq::<Started>::empty()
            } else {
                seq![Started::Serial(0)]
            },
            None => if self.trivial_parallel {
                after == self && begun == Seq::new(
                    self.clusters@.len(),
                    |cluster: int| Started::Single(cluster as ClusterId),
                )
            } else {
                match self.singleton_dag {
                    Some(chain) => after == self && begun == singles(chain.roots@),
                    None => after.same_but_state(self) && exists|
                        founds: Seq<Option<(Runner, LocalIndex)>>,
                        states: Seq<KernelState>,
                    |
                        {
                            &&& #[trigger] claim_path(self.shapes(), self.roots@, founds, states)
                            &&& states[0] == initial_state(self.shapes())
                            &&& states.last() == after.state()
                            &&& begun == locals(founds, founds.len() as int)
                        },
                }
            },
        }
    }

    /// Whether `begun` are the jobs that start when a job has finished, and `after` is the schedule
    /// then.
    pub open spec fn moves_on(self, started: Started, begun: Seq<Started>, after: Self) -> bool {
        match started {
            Started::Serial(at) => after == self && begun == if at + 1
                < self.serial_chain->Some_0@.len() {
                seq![Started::Serial((at + 1) as usize)]
            } else {
                Seq::<Started>::empty()
            },
            Started::Single(cluster) => match self.singleton_dag {
                None => after == self && begun == Seq::<Started>::empty(),
                Some(chain) => exists|now: Chain|
                    {
                        let list = chain.successors_of(cluster as int);
                        &&& #[trigger] chain.finishes(cluster as int, now)
                        &&& after == (Schedule { singleton_dag: Some(now), ..self })
                        &&& begun == singles(woken_of(chain.nodes@, list, list.len() as int))
                    },
            },
            Started::Local(runner, local) => {
                let (first, running, spawned) = finished(
                    self.shapes(),
                    self.state(),
                    runner,
                    local,
                );
                &&& after.same_but_state(self)
                &&& exists|
                    founds: Seq<Option<(Runner, LocalIndex)>>,
                    states: Seq<KernelState>,
                    last: Option<(Runner, LocalIndex)>,
                |
                    {
                        &&& #[trigger] take_path(self.shapes(), spawned, founds, states)
                        &&& states[0] == first
                        &&& #[trigger] looks_on(
                            self.shapes(),
                            states.last(),
                            running,
                            last,
                            after.state(),
                        )
                        &&& begun == locals(founds.push(last), founds.len() as int + 1)
                    }
            },
        }
    }
}

pub(crate) proof fn lemma_locals(
    shorter: Seq<Option<(Runner, LocalIndex)>>,
    longer: Seq<Option<(Runner, LocalIndex)>>,
    until: int,
)
    requires
        0 <= until <= shorter.len() <= longer.len(),
        forall|index: int| 0 <= index < until ==> #[trigger] shorter[index] == longer[index],
    ensures
        locals(shorter, until) == locals(longer, until),
    decreases until,
{
    if until > 0 {
        lemma_locals(shorter, longer, until - 1);
        assert(shorter[until - 1] == longer[until - 1]);
    }
}

/// Who runs a cluster and goes on with no other leaves no cluster but that one.
proof fn lemma_settled_queued(state: KernelState, runner: Runner)
    requires
        runner.next is None,
        runner.cluster < state.queued.len(),
        state.ready.len() == state.queued.len(),
    ensures
        settled(state, runner).0.queued.len() == state.queued.len(),
        settled(state, runner).0.ready.len() == state.ready.len(),
        forall|other: ClusterId|
            other != runner.cluster && other < state.queued.len() ==> #[trigger] settled(
                state,
                runner,
            ).0.queued[other as int] == state.queued[other as int],
{
}

/// Waking jobs marks none but jobs of the clusters as ready.
proof fn lemma_wake_names_jobs(
    shapes: Seq<ClusterShape>,
    state: KernelState,
    list: Seq<RemoteSuccessor>,
    until: int,
)
    requires
        0 <= until <= list.len(),
        state.ready.len() == shapes.len(),
        state.queued.len() == shapes.len(),
        ready_names_jobs(shapes, state),
        forall|cluster: int| 0 <= cluster < shapes.len() ==> (#[trigger] shapes[cluster]).fits(),
        forall|index: int|
            0 <= index < list.len() ==> (#[trigger] list[index]).cluster < shapes.len()
                && list[index].job < shapes[list[index].cluster as int].names.len(),
    ensures
        wake_all(shapes, state, list, until).0.ready.len() == shapes.len(),
        wake_all(shapes, state, list, until).0.queued.len() == state.queued.len(),
        ready_names_jobs(shapes, wake_all(shapes, state, list, until).0),
    decreases until,
{
    if until > 0 {
        lemma_wake_names_jobs(shapes, state, list, until - 1);
        let before = wake_all(shapes, state, list, until - 1).0;
        let after = wake_all(shapes, state, list, until).0;
        let last = list[until - 1];
        let c = last.cluster as int;
        assert(shapes[c].fits());
        assert forall|cluster: int| 0 <= cluster < shapes.len() implies names_jobs(
            #[trigger] after.ready[cluster],
            shapes[cluster].names.len() as int,
        ) by {
            assert(names_jobs(before.ready[cluster], shapes[cluster].names.len() as int));
            if after.ready[cluster] != before.ready[cluster] {
                assert forall|local: int|
                    0 <= local < 64 && #[trigger] word_bit(after.ready[cluster], local) implies local
                    < shapes[cluster].names.len() by {
                    lemma_set_bit(before.ready[c], last.job as u64, local as u64);
                    if local != last.job {
                        assert(word_bit(before.ready[c], local));
                    }
                }
            }
        }
    }
}

proof fn lemma_unlock_names_jobs(
    shape: ClusterShape,
    waits: Seq<u32>,
    done: u64,
    ready: u64,
    list: Seq<LocalIndex>,
    until: int,
)
    requires
        shape.fits(),
        0 <= until <= list.len(),
        forall|index: int|
            0 <= index < list.len() ==> (#[trigger] list[index]) < shape.names.len(),
        names_jobs(ready, shape.names.len() as int),
    ensures
        names_jobs(
            unlock(shape, waits, done, ready, list, until),
            shape.names.len() as int,
        ),
    decreases until,
{
    if until > 0 {
        lemma_unlock_names_jobs(shape, waits, done, ready, list, until - 1);
        let before = unlock(shape, waits, done, ready, list, until - 1);
        let after = unlock(shape, waits, done, ready, list, until);
        let last = list[until - 1];
        if after != before {
            assert forall|local: int|
                0 <= local < 64 && #[trigger] word_bit(after, local) implies local
                < shape.names.len() by {
                lemma_set_bit(before, last as u64, local as u64);
                if local != last {
                    assert(word_bit(before, local));
                }
            }
        }
    }
}

/// What holds of a schedule that can be run still holds when a job has finished, and the clusters that
/// others must run are named once and queued.
proof fn lemma_finished_fits(
    shapes: Seq<ClusterShape>,
    state: KernelState,
    runner: Runner,
    local: LocalIndex,
)
    requires
        forall|cluster: int| 0 <= cluster < shapes.len() ==> (#[trigger] shapes[cluster]).fits(),
        remotes_fit(shapes),
        state.ready.len() == shapes.len(),
        state.queued.len() == shapes.len(),
        ready_names_jobs(shapes, state),
        runner_fits(shapes, runner),
        local < shapes[runner.cluster as int].names.len(),
    ensures
        ({
            let (after, running, spawned) = finished(shapes, state, runner, local);
            &&& ready_names_jobs(shapes, after)
            &&& after.queued.len() == shapes.len()
            &&& runner_fits(shapes, running)
            &&& running.cluster == runner.cluster
            &&& within(spawned, shapes.len() as int)
            &&& spawned.no_duplicates()
            &&& forall|index: int|
                0 <= index < spawned.len() ==> after.queued[(#[trigger] spawned[index]) as int]
        }),
{
    let c = runner.cluster as int;
    let shape = shapes[c];
    let (after, running, spawned) = finished(shapes, state, runner, local);
    let middle = state.with_done(runner.cluster, state.done[c] | bit_of(local));
    let list = shape.remotes[local as int];
    assert(shape.fits());
    assert forall|index: int| 0 <= index < list.len() implies (#[trigger] list[index]).cluster
        < shapes.len() && list[index].job < shapes[list[index].cluster as int].names.len() by {
        assert(shapes[c].remotes[local as int][index] == list[index]);
    }
    lemma_wake_names_jobs(shapes, middle, list, list.len() as int);
    lemma_claims(shapes, middle, list, list.len() as int);
    let claimed = wake_all(shapes, middle, list, list.len() as int).1;
    let near = shape.locals[local as int];
    assert forall|index: int| 0 <= index < near.len() implies (#[trigger] near[index])
        < shape.names.len() by {
        assert(shape.locals[local as int][index] == near[index]);
    }
    lemma_unlock_names_jobs(
        shape,
        state.waits[c],
        state.done[c] | bit_of(local),
        runner.ready,
        near,
        if near.len() > 1 {
            1
        } else {
            near.len() as int
        },
    );
    lemma_unlock_names_jobs(
        shape,
        state.waits[c],
        state.done[c] | bit_of(local),
        runner.ready,
        near,
        near.len() as int,
    );
    if claimed.len() > 0 {
        assert(claimed.contains(claimed[0]));
    }
    assert forall|index: int| 0 <= index < spawned.len() implies (#[trigger] spawned[index])
        < shapes.len() && after.queued[spawned[index] as int] by {
        if runner.next is None && claimed.len() > 0 {
            assert(claimed[index + 1] == spawned[index]);
            assert(claimed.contains(claimed[index + 1]));
        } else {
            assert(claimed.contains(claimed[index]));
        }
        assert(after.queued[spawned[index] as int]);
    }
}

impl<R> Schedule<R> {
    /// Looks for a job to run, and adds it to those that start.
    fn look_on(&mut self, runner: Runner, begun: &mut Vec<Started>) -> (found: Option<
        (Runner, LocalIndex),
    >)
        requires
            old(self).sound(),
            runner_fits(old(self).shapes(), runner),
            ready_names_jobs(old(self).shapes(), old(self).state()),
        ensures
            final(self).sound(),
            final(self).same_but_state(*old(self)),
            ready_names_jobs(final(self).shapes(), final(self).state()),
            looks_on(old(self).shapes(), old(self).state(), runner, found, final(self).state()),
            final(begun)@ == match found {
                None => old(begun)@,
                Some((runner, local)) => old(begun)@.push(Started::Local(runner, local)),
            },
    {
        let found = self.next(runner, false);
        if let Some((running, local)) = found {
            begun.push(Started::Local(running, local));
        }
        found
    }

    /// Begins with a cluster that has been claimed.
    fn take_on(&mut self, cluster: ClusterId, begun: &mut Vec<Started>) -> (found: Option<
        (Runner, LocalIndex),
    >)
        requires
            old(self).sound(),
            cluster < old(self).clusters@.len(),
            old(self).state().queued[cluster as int],
            ready_names_jobs(old(self).shapes(), old(self).state()),
        ensures
            final(self).sound(),
            final(self).same_but_state(*old(self)),
            ready_names_jobs(final(self).shapes(), final(self).state()),
            takes_on(old(self).shapes(), old(self).state(), cluster, found, final(self).state()),
            forall|other: ClusterId|
                other != cluster && other < old(self).clusters@.len()
                    ==> #[trigger] final(self).state().queued[other as int]
                    == old(self).state().queued[other as int],
            final(begun)@ == match found {
                None => old(begun)@,
                Some((runner, local)) => old(begun)@.push(Started::Local(runner, local)),
            },
    {
        let ghost before = *self;
        proof {
            lemma_no_ready(self.shapes(), self.state(), cluster);
            assert(names_jobs(
                before.state().ready[cluster as int],
                before.shapes()[cluster as int].names.len() as int,
            ));
        }
        let runner = self.begin(cluster);
        let ghost middle = *self;
        let found = self.look_on(runner, begun);
        proof {
            lemma_settled_queued(middle.state(), runner);
            assert forall|other: int|
                #![trigger self.clusters@[other]]
                0 <= other < self.clusters@.len() implies self.clusters@[other].resembles(
                before.clusters@[other],
            ) by {
                lemma_resembling(
                    self.clusters@[other],
                    middle.clusters@[other],
                    before.clusters@[other],
                );
            }
        }
        found
    }

    /// Begins with the clusters that can be run at once.
    fn begin_clusters(&mut self) -> (begun: Vec<Started>)
        requires
            old(self).sound(),
            within(old(self).roots@, old(self).clusters@.len() as int),
            ready_names_jobs(old(self).shapes(), initial_state(old(self).shapes())),
        ensures
            final(self).sound(),
            final(self).same_but_state(*old(self)),
            ready_names_jobs(final(self).shapes(), final(self).state()),
            exists|founds: Seq<Option<(Runner, LocalIndex)>>, states: Seq<KernelState>|
                {
                    &&& #[trigger] claim_path(old(self).shapes(), old(self).roots@, founds, states)
                    &&& states[0] == initial_state(old(self).shapes())
                    &&& states.last() == final(self).state()
                    &&& begun@ == locals(founds, founds.len() as int)
                },
    {
        let ghost before = *self;
        let ghost shapes = self.shapes();
        let ghost mut founds: Seq<Option<(Runner, LocalIndex)>> = Seq::empty();
        self.prepare_run();
        let ghost mut states: Seq<KernelState> = seq![self.state()];
        let mut begun: Vec<Started> = Vec::new();
        let count: usize = self.roots.len();
        for index in 0..count
            invariant
                before == *old(self),
                before.sound(),
                shapes == before.shapes(),
                count == before.roots@.len(),
                within(before.roots@, before.clusters@.len() as int),
                self.sound(),
                self.same_but_state(before),
                ready_names_jobs(shapes, self.state()),
                claim_path(shapes, before.roots@.take(index as int), founds, states),
                states[0] == initial_state(shapes),
                states.last() == self.state(),
                begun@ == locals(founds, index as int),
        {
            let ghost held = *self;
            let ghost earlier = founds;
            let root = self.roots[index];
            let mut found: Option<(Runner, LocalIndex)> = None;
            if self.claim(root) {
                let ghost claimed = *self;
                assert(ready_names_jobs(shapes, claimed.state()));
                found = self.take_on(root, &mut begun);
                proof {
                    assert forall|other: int|
                        #![trigger self.clusters@[other]]
                        0 <= other < self.clusters@.len() implies self.clusters@[other].resembles(
                        held.clusters@[other],
                    ) by {
                        lemma_resembling(
                            self.clusters@[other],
                            claimed.clusters@[other],
                            held.clusters@[other],
                        );
                    }
                }
            }
            proof {
                assert forall|other: int|
                    #![trigger self.clusters@[other]]
                    0 <= other < self.clusters@.len() implies self.clusters@[other].resembles(
                    before.clusters@[other],
                ) by {
                    lemma_resembling(
                        self.clusters@[other],
                        held.clusters@[other],
                        before.clusters@[other],
                    );
                }
                assert(claims(shapes, held.state(), root, found, self.state()));
                let list = before.roots@.take(index + 1);
                assert(list.drop_last() =~= before.roots@.take(index as int));
                lemma_one_more_claimed(shapes, list, founds, states, found, self.state());
                founds = founds.push(found);
                states = states.push(self.state());
                lemma_locals(earlier, founds, index as int);
            }
        }
        assert(before.roots@.take(count as int) =~= before.roots@);
        begun
    }

    /// Begins a run, and returns the jobs that start.
    pub fn begin_run(&mut self) -> (begun: Vec<Started>)
        requires
            old(self).sound(),
            old(self).clusters@.len() <= u32::MAX,
            within(old(self).roots@, old(self).clusters@.len() as int),
            ready_names_jobs(old(self).shapes(), initial_state(old(self).shapes())),
        ensures
            final(self).sound(),
            old(self).begins(begun@, *final(self)),
    {
        let mut begun: Vec<Started> = Vec::new();
        if let Some(chain) = &self.serial_chain {
            if chain.len() > 0 {
                begun.push(Started::Serial(0));
            }
            return begun;
        }
        if self.trivial_parallel {
            for cluster in 0..self.clusters.len()
                invariant
                    *self == *old(self),
                    self.clusters@.len() <= u32::MAX,
                    begun@ == Seq::new(
                        cluster as nat,
                        |cluster: int| Started::Single(cluster as ClusterId),
                    ),
            {
                begun.push(Started::Single(cluster as ClusterId));
                assert(begun@ =~= Seq::new(
                    (cluster + 1) as nat,
                    |cluster: int| Started::Single(cluster as ClusterId),
                ));
            }
            return begun;
        }
        if let Some(chain) = &self.singleton_dag {
            return single_tickets(&chain.roots);
        }
        self.begin_clusters()
    }

    /// Takes note that a job has finished, and returns the jobs that start on that account.
    pub fn finish_job(&mut self, started: Started) -> (begun: Vec<Started>)
        requires
            old(self).sound(),
            old(self).has(started),
            match started {
                Started::Serial(_) => true,
                Started::Single(cluster) => old(self).singleton_dag matches Some(chain)
                    ==> chain.sound() && cluster < chain.nodes@.len(),
                Started::Local(runner, _) => runner_fits(old(self).shapes(), runner)
                    && ready_names_jobs(old(self).shapes(), old(self).state()),
            },
        ensures
            final(self).sound(),
            old(self).moves_on(started, begun@, *final(self)),
    {
        match started {
            Started::Serial(at) => {
                let mut begun: Vec<Started> = Vec::new();
                if let Some(chain) = &self.serial_chain {
                    if chain.len() - at > 1 {
                        begun.push(Started::Serial(at + 1));
                    }
                }
                begun
            },
            Started::Single(cluster) => {
                let ghost whole = *self;
                match self.singleton_dag.take() {
                    None => {
                        assert(*self == whole);
                        Vec::new()
                    },
                    Some(before) => {
                        let mut chain = before;
                        let woken = chain.finish(cluster);
                        self.singleton_dag = Some(chain);
                        proof {
                            assert(before.finishes(cluster as int, chain));
                            assert(*self == (Schedule { singleton_dag: Some(chain), ..whole }));
                        }
                        single_tickets(&woken)
                    },
                }
            },
            Started::Local(runner, local) => self.finish_local(runner, local),
        }
    }

    /// Takes note that a job of a cluster has finished: the runner, and those who begin with the
    /// clusters that others must run now, look for their next jobs.
    fn finish_local(&mut self, runner: Runner, local: LocalIndex) -> (begun: Vec<Started>)
        requires
            old(self).sound(),
            old(self).has(Started::Local(runner, local)),
            runner_fits(old(self).shapes(), runner),
            ready_names_jobs(old(self).shapes(), old(self).state()),
        ensures
            final(self).sound(),
            old(self).moves_on(Started::Local(runner, local), begun@, *final(self)),
    {
        let ghost before = *self;
        let ghost shapes = self.shapes();
        proof {
            assert forall|cluster: int| 0 <= cluster < shapes.len() implies (
            #[trigger] shapes[cluster]).fits() by {
                assert(shapes[cluster] == before.clusters@[cluster].shape());
            }
            lemma_finished_fits(shapes, before.state(), runner, local);
        }
        let mut running = runner;
        let spawned = self.finish(&mut running, local);
        let ghost first = self.state();
        let ghost mut founds: Seq<Option<(Runner, LocalIndex)>> = Seq::empty();
        let ghost mut states: Seq<KernelState> = seq![first];
        let mut begun: Vec<Started> = Vec::new();
        for index in 0..spawned.len()
            invariant
                before.sound(),
                shapes == before.shapes(),
                within(spawned@, before.clusters@.len() as int),
                spawned@.no_duplicates(),
                self.sound(),
                self.same_but_state(before),
                ready_names_jobs(shapes, self.state()),
                forall|at: int|
                    index <= at < spawned@.len() ==> self.state().queued[(
                    #[trigger] spawned@[at]) as int],
                take_path(shapes, spawned@.take(index as int), founds, states),
                states[0] == first,
                states.last() == self.state(),
                begun@ == locals(founds, index as int),
        {
            let ghost held = *self;
            let ghost earlier = founds;
            let cluster: ClusterId = spawned[index];
            assert(self.state().queued[spawned@[index as int] as int]);
            let found = self.take_on(cluster, &mut begun);
            proof {
                assert forall|other: int|
                    #![trigger self.clusters@[other]]
                    0 <= other < self.clusters@.len() implies self.clusters@[other].resembles(
                    before.clusters@[other],
                ) by {
                    lemma_resembling(
                        self.clusters@[other],
                        held.clusters@[other],
                        before.clusters@[other],
                    );
                }
                assert forall|at: int| index + 1 <= at < spawned@.len() implies self.state().queued[(
                #[trigger] spawned@[at]) as int] by {
                    assert(spawned@[at] != spawned@[index as int]);
                    assert(held.state().queued[spawned@[at] as int]);
                }
                let list = spawned@.take(index + 1);
                assert(list.drop_last() =~= spawned@.take(index as int));
                lemma_one_more_taken(shapes, list, founds, states, found, self.state());
                founds = founds.push(found);
                states = states.push(self.state());
                lemma_locals(earlier, founds, index as int);
            }
        }
        assert(spawned@.take(spawned@.len() as int) =~= spawned@);
        let ghost held = *self;
        let last = self.look_on(running, &mut begun);
        proof {
            assert forall|other: int|
                #![trigger self.clusters@[other]]
                0 <= other < self.clusters@.len() implies self.clusters@[other].resembles(
                before.clusters@[other],
            ) by {
                lemma_resembling(
                    self.clusters@[other],
                    held.clusters@[other],
                    before.clusters@[other],
                );
            }
            lemma_locals(founds, founds.push(last), founds.len() as int);
            assert(take_path(shapes, spawned@, founds, states));
            assert(looks_on(shapes, states.last(), running, last, self.state()));
            assert(begun@ == locals(founds.push(last), founds.len() as int + 1));
        }
        begun
    }

    /// Whether `after` is the schedule once a run has ended: where a job failed, every cluster of the
    /// graph waits again for what it waits for in the beginning.
    pub open spec fn ends(self, failed: bool, after: Self) -> bool {
        match self.singleton_dag {
            Some(chain) if failed => exists|now: Chain| #[trigger]
                chain.resets(now) && after == (Schedule { singleton_dag: Some(now), ..self }),
            _ => after == self,
        }
    }

    /// Ends a run. Where a job failed, every cluster of the graph waits again for what it waits for in
    /// the beginning.
    pub fn end_run(&mut self, failed: bool)
        ensures
            old(self).ends(failed, *final(self)),
    {
        if failed {
            match self.singleton_dag.take() {
                None => {},
                Some(before) => {
                    let mut chain = before;
                    chain.reset();
                    self.singleton_dag = Some(chain);
                },
            }
        }
    }
}

fn single_tickets(list: &Vec<ClusterId>) -> (begun: Vec<Started>)
    ensures
        begun@ == singles(list@),
{
    let mut begun: Vec<Started> = Vec::new();
    for index in 0..list.len()
        invariant
            begun@ == singles(list@.take(index as int)),
    {
        begun.push(Started::Single(list[index]));
        assert(begun@ =~= singles(list@.take(index + 1)));
    }
    assert(list@.take(list@.len() as int) =~= list@);
    begun
}

proof fn lemma_one_more_claimed(
    shapes: Seq<ClusterShape>,
    list: Seq<ClusterId>,
    founds: Seq<Option<(Runner, LocalIndex)>>,
    states: Seq<KernelState>,
    found: Option<(Runner, LocalIndex)>,
    after: KernelState,
)
    requires
        list.len() > 0,
        claim_path(shapes, list.drop_last(), founds, states),
        claims(shapes, states.last(), list.last(), found, after),
    ensures
        claim_path(shapes, list, founds.push(found), states.push(after)),
{
    let shorter = list.drop_last();
    assert forall|index: int|
        #![trigger list[index]]
        0 <= index < list.len() implies claims(
        shapes,
        states.push(after)[index],
        list[index],
        founds.push(found)[index],
        states.push(after)[index + 1],
    ) by {
        if index < shorter.len() {
            assert(shorter[index] == list[index]);
        }
    }
}

proof fn lemma_one_more_taken(
    shapes: Seq<ClusterShape>,
    list: Seq<ClusterId>,
    founds: Seq<Option<(Runner, LocalIndex)>>,
    states: Seq<KernelState>,
    found: Option<(Runner, LocalIndex)>,
    after: KernelState,
)
    requires
        list.len() > 0,
        take_path(shapes, list.drop_last(), founds, states),
        takes_on(shapes, states.last(), list.last(), found, after),
    ensures
        take_path(shapes, list, founds.push(found), states.push(after)),
{
    let shorter = list.drop_last();
    assert forall|index: int|
        #![trigger list[index]]
        0 <= index < list.len() implies takes_on(
        shapes,
        states.push(after)[index],
        list[index],
        founds.push(found)[index],
        states.push(after)[index + 1],
    ) by {
        if index < shorter.len() {
            assert(shorter[index] == list[index]);
        }
    }
}

} // verus!
