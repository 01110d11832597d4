use elude::conduct::Started;
use elude::depend::{Dependency, Key, Order, Scope};
use elude::error::Error;
use elude::frontier;
use elude::groups;
use elude::job::Job;
use elude::kernel;
use elude::pages;
use elude::variants;
use elude::variants::{Policy, VariantKind};
use elude::work::Worker;

const RELAX: Order = Order::Relax;
const STRICT: Order = Order::Strict;

fn read(identifier: usize, order: Order) -> Dependency {
    Dependency::read_at(identifier, order)
}

fn write(identifier: usize, order: Order) -> Dependency {
    Dependency::write_at(identifier, order)
}

fn job(index: usize, dependencies: Vec<Dependency>) -> Job<usize> {
    Job::new(index, dependencies)
}

#[derive(Clone, Copy, Debug, PartialEq, Eq)]
enum Event {
    Start(usize),
    End(usize),
}

#[derive(Clone, Copy, Debug)]
enum Finish {
    First,
    Last,
}

impl Finish {
    const BOTH: [Finish; 2] = [Finish::First, Finish::Last];

    fn take<T>(self, running: &mut Vec<T>) -> Option<T> {
        if running.is_empty() {
            return None;
        }
        match self {
            Finish::First => Some(running.remove(0)),
            Finish::Last => running.pop(),
        }
    }
}

trait Driver: Sized {
    fn compile(jobs: Vec<Job<usize>>) -> Result<Self, Error>;
    fn run(&mut self, finish: Finish) -> Vec<Event>;
}

fn run_groups(
    jobs: &[usize],
    groups: &[groups::Group],
    finish: Finish,
    events: &mut Vec<Event>,
) {
    for group in groups {
        let mut running = Vec::new();
        for at in group.job_range.start..group.job_range.end {
            events.push(Event::Start(jobs[at as usize]));
            running.push(jobs[at as usize]);
        }
        while let Some(job) = finish.take(&mut running) {
            events.push(Event::End(job));
        }
    }
}

struct Grouped(groups::Schedule<usize>);

impl Driver for Grouped {
    fn compile(jobs: Vec<Job<usize>>) -> Result<Self, Error> {
        Ok(Grouped(groups::Schedule::compile(jobs)?))
    }

    fn run(&mut self, finish: Finish) -> Vec<Event> {
        let mut events = Vec::new();
        run_groups(&self.0.jobs, &self.0.groups, finish, &mut events);
        events
    }
}

struct Frontier(frontier::Schedule<usize>);

impl Driver for Frontier {
    fn compile(jobs: Vec<Job<usize>>) -> Result<Self, Error> {
        Ok(Frontier(frontier::Schedule::compile(2, jobs)?))
    }

    fn run(&mut self, finish: Finish) -> Vec<Event> {
        let mut events = Vec::new();
        run_groups(&self.0.jobs, &self.0.groups, finish, &mut events);
        events
    }
}

fn run_chain(
    chain: &mut elude::chain::Chain,
    jobs: &[usize],
    finish: Finish,
    events: &mut Vec<Event>,
) {
    let mut running: Vec<u32> = Vec::new();
    for &root in &chain.roots {
        events.push(Event::Start(jobs[root as usize]));
        running.push(root);
    }
    while let Some(job) = finish.take(&mut running) {
        events.push(Event::End(jobs[job as usize]));
        for woken in chain.finish(job) {
            events.push(Event::Start(jobs[woken as usize]));
            running.push(woken);
        }
    }
}

struct Adaptive(variants::Schedule<usize>);

impl Driver for Adaptive {
    fn compile(jobs: Vec<Job<usize>>) -> Result<Self, Error> {
        Ok(Adaptive(variants::Schedule::compile(Policy::Adaptive, jobs)?))
    }

    fn run(&mut self, finish: Finish) -> Vec<Event> {
        let mut events = Vec::new();
        let index = self.0.select_variant_index();
        run_chain(&mut self.0.variants[index].chain, &self.0.jobs, finish, &mut events);
        self.0.end_run(index, 1, false);
        events
    }
}

struct Clustered(kernel::Schedule<usize>);

impl Clustered {
    fn name(&self, started: Started) -> usize {
        self.0.jobs[self.0.job_of(started) as usize]
    }
}

impl Driver for Clustered {
    fn compile(jobs: Vec<Job<usize>>) -> Result<Self, Error> {
        Ok(Clustered(kernel::Schedule::compile(jobs)?))
    }

    fn run(&mut self, finish: Finish) -> Vec<Event> {
        let mut events = Vec::new();
        let mut running: Vec<Started> = Vec::new();
        for started in self.0.begin_run() {
            events.push(Event::Start(self.name(started)));
            running.push(started);
        }
        while let Some(job) = finish.take(&mut running) {
            events.push(Event::End(self.name(job)));
            for started in self.0.finish_job(job) {
                events.push(Event::Start(self.name(started)));
                running.push(started);
            }
        }
        self.0.end_run(false);
        events
    }
}

struct Paged(pages::Schedule<usize>);

impl Driver for Paged {
    fn compile(jobs: Vec<Job<usize>>) -> Result<Self, Error> {
        Ok(Paged(pages::Schedule::compile(jobs)?))
    }

    fn run(&mut self, finish: Finish) -> Vec<Event> {
        let mut events = Vec::new();
        let mut running: Vec<u32> = Vec::new();
        for job in self.0.begin_run() {
            events.push(Event::Start(self.0.jobs[job as usize].run));
            running.push(job);
        }
        while let Some(job) = finish.take(&mut running) {
            events.push(Event::End(self.0.jobs[job as usize].run));
            for started in self.0.finish_job(job) {
                events.push(Event::Start(self.0.jobs[started as usize].run));
                running.push(started);
            }
        }
        assert!(self.0.pages.iter().all(|page| page.state == 0));
        assert!(self.0.jobs.iter().all(|job| job.strict_wait == job.strict_wait_initial));
        events
    }
}

struct Working(Worker<usize>);

impl Driver for Working {
    fn compile(jobs: Vec<Job<usize>>) -> Result<Self, Error> {
        let mut worker = Worker::new();
        worker.extend(jobs);
        worker.update()?;
        Ok(Working(worker))
    }

    fn run(&mut self, finish: Finish) -> Vec<Event> {
        let mut events = Vec::new();
        let mut running: Vec<usize> = Vec::new();
        for root in self.0.begin_run().unwrap() {
            for job in self.0.progress(root) {
                events.push(Event::Start(job));
                running.push(job);
            }
        }
        while let Some(job) = finish.take(&mut running) {
            events.push(Event::End(job));
            for spawned in self.0.progress_local(job) {
                events.push(Event::Start(spawned));
                running.push(spawned);
            }
        }
        assert!(self.0.is_at_rest());
        self.0.end_run(false);
        events
    }
}

#[derive(Clone, Copy, Debug, PartialEq, Eq, PartialOrd, Ord)]
enum Relation {
    Free,
    Relaxed,
    Strict,
}

#[derive(Clone, Copy, Debug)]
enum Case {
    Nothing,
    Unknown,
    ReadRelaxA,
    ReadStrictA,
    WriteRelaxA,
    WriteStrictA,
    ReadRelaxB,
    ReadStrictB,
    WriteRelaxB,
    WriteStrictB,
}

impl Case {
    const ALL: [Case; 10] = [
        Case::Nothing,
        Case::Unknown,
        Case::ReadRelaxA,
        Case::ReadStrictA,
        Case::WriteRelaxA,
        Case::WriteStrictA,
        Case::ReadRelaxB,
        Case::ReadStrictB,
        Case::WriteRelaxB,
        Case::WriteStrictB,
    ];

    fn dependencies(self) -> Vec<Dependency> {
        match self {
            Case::Nothing => vec![],
            Case::Unknown => vec![Dependency::Unknown],
            Case::ReadRelaxA => vec![read(0, RELAX)],
            Case::ReadStrictA => vec![read(0, STRICT)],
            Case::WriteRelaxA => vec![write(0, RELAX)],
            Case::WriteStrictA => vec![write(0, STRICT)],
            Case::ReadRelaxB => vec![read(1, RELAX)],
            Case::ReadStrictB => vec![read(1, STRICT)],
            Case::WriteRelaxB => vec![write(1, RELAX)],
            Case::WriteStrictB => vec![write(1, STRICT)],
        }
    }
}

fn dependency_relation(left: &Dependency, right: &Dependency) -> Relation {
    let (left_key, left_write, left_order) = match left {
        Dependency::Unknown => return Relation::Strict,
        Dependency::Read(key, order) => (key, false, *order),
        Dependency::Write(key, order) => (key, true, *order),
    };
    let (right_key, right_write, right_order) = match right {
        Dependency::Unknown => return Relation::Strict,
        Dependency::Read(key, order) => (key, false, *order),
        Dependency::Write(key, order) => (key, true, *order),
    };
    if left_key != right_key || !(left_write || right_write) {
        Relation::Free
    } else if left_order == STRICT || right_order == STRICT {
        Relation::Strict
    } else {
        Relation::Relaxed
    }
}

fn pair_relation(left: &[Dependency], right: &[Dependency]) -> Relation {
    let left_unknown = left.contains(&Dependency::Unknown);
    let right_unknown = right.contains(&Dependency::Unknown);
    if left_unknown || right_unknown {
        return Relation::Strict;
    }
    let mut relation = Relation::Free;
    for one in left {
        for other in right {
            relation = relation.max(dependency_relation(one, other));
        }
    }
    relation
}

fn expected_internal_error(dependencies: &[Dependency]) -> Option<Error> {
    let mut seen: Vec<(Key, Order, bool)> = Vec::new();
    for dependency in dependencies {
        let (key, is_write, order) = match dependency {
            Dependency::Unknown => continue,
            Dependency::Read(key, order) => (key, false, *order),
            Dependency::Write(key, order) => (key, true, *order),
        };
        match seen.iter_mut().find(|entry| entry.0 == *key) {
            None => seen.push((key.clone(), order, is_write)),
            Some(entry) => {
                let joined = if entry.1 == STRICT || order == STRICT { STRICT } else { RELAX };
                if is_write && entry.2 {
                    return Some(Error::WriteWriteConflict(key.clone(), Scope::Inner, joined));
                }
                if is_write != entry.2 {
                    return Some(Error::ReadWriteConflict(key.clone(), Scope::Inner, joined));
                }
                entry.1 = joined;
            }
        }
    }
    None
}

/// Whether related jobs did not overlap, and strictly related ones kept order.
fn assert_ordered(jobs: &[Vec<Dependency>], events: &[Event], label: &str) {
    let at = |event: Event| events.iter().position(|&other| other == event);
    for left in 0..jobs.len() {
        for right in left + 1..jobs.len() {
            if at(Event::Start(left)).is_none() || at(Event::Start(right)).is_none() {
                continue;
            }
            let relation = pair_relation(&jobs[left], &jobs[right]);
            let left_first = at(Event::End(left)) < at(Event::Start(right));
            let right_first = at(Event::End(right)) < at(Event::Start(left));
            match relation {
                Relation::Free => {}
                Relation::Relaxed => assert!(left_first || right_first, "{label}: overlap"),
                Relation::Strict => assert!(left_first, "{label}: order"),
            }
        }
    }
}

/// Whether each job ran once, related jobs did not overlap, and strictly related ones kept order.
fn assert_respected(jobs: &[Vec<Dependency>], events: &[Event], label: &str) {
    for index in 0..jobs.len() {
        assert_eq!(
            events.iter().filter(|&&event| event == Event::Start(index)).count(),
            1,
            "{label}: job {index} did not start exactly once"
        );
        assert_eq!(
            events.iter().filter(|&&event| event == Event::End(index)).count(),
            1,
            "{label}: job {index} did not end exactly once"
        );
    }
    assert_ordered(jobs, events, label);
}

fn run_case<D: Driver>(jobs: Vec<Vec<Dependency>>, label: &str) {
    for finish in Finish::BOTH {
        let list = jobs
            .iter()
            .enumerate()
            .map(|(index, dependencies)| job(index, dependencies.clone()))
            .collect();
        let mut driver = D::compile(list).unwrap();
        for _ in 0..2 {
            let events = driver.run(finish);
            assert_respected(&jobs, &events, label);
        }
    }
}

fn empty_schedule_runs<D: Driver>() {
    let mut driver = D::compile(Vec::new()).unwrap();
    assert_eq!(driver.run(Finish::First), Vec::new());
}

fn repeated_runs_execute_each_job_once<D: Driver>() {
    let runs = 4;
    let mut calls = [0usize; 8];
    let jobs = (0..8).map(|index| job(index, vec![write(index % 2, RELAX)])).collect();
    let mut driver = D::compile(jobs).unwrap();
    for _ in 0..runs {
        for event in driver.run(Finish::First) {
            if let Event::Start(index) = event {
                calls[index] += 1;
            }
        }
    }
    for (index, calls) in calls.iter().enumerate() {
        assert_eq!(*calls, runs, "job {index} did not run exactly once per iteration");
    }
}

fn exhaustive_pairwise_conflict_matrix<D: Driver>() {
    for left in Case::ALL {
        for right in Case::ALL {
            let label = format!("{left:?} -> {right:?}");
            run_case::<D>(vec![left.dependencies(), right.dependencies()], &label);
        }
    }
}

fn exhaustive_internal_dependency_matrix<D: Driver>() {
    for left in Case::ALL {
        for right in Case::ALL {
            let mut dependencies = left.dependencies();
            dependencies.extend(right.dependencies());
            let label = format!("internal {left:?} + {right:?}");
            let expected = expected_internal_error(&dependencies);
            match (D::compile(vec![job(0, dependencies)]), expected) {
                (Ok(mut driver), None) => {
                    let events = driver.run(Finish::First);
                    assert_eq!(events, vec![Event::Start(0), Event::End(0)], "{label}");
                }
                (Err(error), Some(expected)) => {
                    assert_eq!(format!("{error:?}"), format!("{expected:?}"), "{label}");
                }
                (Ok(_), Some(expected)) => panic!("{label}: accepted {expected:?}"),
                (Err(error), None) => panic!("{label}: rejected with {error:?}"),
            }
        }
    }
}

fn duplicate_reads_within_a_job_are_allowed<D: Driver>() {
    let mut driver = D::compile(vec![job(0, vec![read(0, RELAX), read(0, STRICT)])]).unwrap();
    assert_eq!(driver.run(Finish::First), vec![Event::Start(0), Event::End(0)]);
}

fn invalid_internal_conflicts_are_rejected<D: Driver>() {
    match D::compile(vec![job(0, vec![read(0, RELAX), write(0, RELAX)])]) {
        Err(Error::ReadWriteConflict(Key::Identifier(0), Scope::Inner, Order::Relax)) => {}
        Err(error) => panic!("wrong error {error:?}"),
        Ok(_) => panic!("accepted an internally conflicting job"),
    }
    match D::compile(vec![job(0, vec![write(1, RELAX), write(1, STRICT)])]) {
        Err(Error::WriteWriteConflict(Key::Identifier(1), Scope::Inner, Order::Strict)) => {}
        Err(error) => panic!("wrong error {error:?}"),
        Ok(_) => panic!("accepted an internally conflicting job"),
    }
}

fn unknown_dependency_is_a_strict_barrier<D: Driver>() {
    let jobs = vec![job(0, vec![]), job(1, vec![Dependency::Unknown]), job(2, vec![])];
    let mut driver = D::compile(jobs).unwrap();
    assert_eq!(
        driver.run(Finish::First),
        vec![
            Event::Start(0),
            Event::End(0),
            Event::Start(1),
            Event::End(1),
            Event::Start(2),
            Event::End(2),
        ]
    );
}

fn strict_write_chain_preserves_declaration_order<D: Driver>() {
    let jobs = (0..4).map(|index| job(index, vec![write(0, STRICT)])).collect();
    let mut driver = D::compile(jobs).unwrap();
    let order: Vec<usize> = driver
        .run(Finish::First)
        .into_iter()
        .filter_map(|event| match event {
            Event::End(index) => Some(index),
            Event::Start(_) => None,
        })
        .collect();
    assert_eq!(order, vec![0, 1, 2, 3]);
}

fn strict_conflict_dominates_when_multiple_dependencies_are_present<D: Driver>() {
    let dependencies = || vec![write(0, RELAX), write(1, STRICT)];
    run_case::<D>(vec![dependencies(), dependencies()], "multi-dependency strict dominance");
}

fn three_job_mixed_constraints_are_respected<D: Driver>() {
    run_case::<D>(
        vec![
            vec![write(0, RELAX)],
            vec![write(0, RELAX), write(1, STRICT)],
            vec![write(1, STRICT)],
        ],
        "mixed three-job constraints",
    );
}

fn overlaps(events: &[Event]) -> bool {
    matches!(events, [Event::Start(_), Event::Start(_), Event::End(_), Event::End(_)])
}

fn independent_jobs_can_overlap<D: Driver>() {
    let mut driver = D::compile(vec![job(0, vec![]), job(1, vec![])]).unwrap();
    assert!(overlaps(&driver.run(Finish::First)), "independent jobs did not overlap");
}

fn shared_reads_can_overlap<D: Driver>() {
    let jobs = vec![job(0, vec![read(0, RELAX)]), job(1, vec![read(0, STRICT)])];
    let mut driver = D::compile(jobs).unwrap();
    assert!(overlaps(&driver.run(Finish::First)), "shared reads did not overlap");
}

fn random(seed: &mut u64) -> usize {
    *seed = seed.wrapping_mul(6364136223846793005).wrapping_add(1442695040888963407);
    (*seed >> 33) as usize
}

/// Random jobs over few keys, without clashes within a job.
fn random_jobs(seed: &mut u64) -> Vec<Vec<Dependency>> {
    random_jobs_with(seed, |seed| if random(seed) % 3 == 0 { STRICT } else { RELAX })
}

fn random_jobs_with(seed: &mut u64, order: fn(&mut u64) -> Order) -> Vec<Vec<Dependency>> {
    let count = random(seed) % 40;
    let mut jobs = Vec::new();
    for _ in 0..count {
        let mut dependencies = Vec::new();
        if random(seed) % 30 == 0 {
            dependencies.push(Dependency::Unknown);
        }
        for key in 0..6 {
            let order = order(seed);
            match random(seed) % 8 {
                0 => dependencies.push(write(key, order)),
                1 | 2 => dependencies.push(read(key, order)),
                _ => {}
            }
        }
        jobs.push(dependencies);
    }
    jobs
}

fn random_jobs_are_respected<D: Driver>() {
    let mut seed = 7;
    for round in 0..60 {
        let jobs = random_jobs(&mut seed);
        run_case::<D>(jobs, &format!("round {round}"));
    }
    for round in 0..60 {
        let jobs = random_jobs_with(&mut seed, |_| RELAX);
        run_case::<D>(jobs, &format!("relaxed round {round}"));
    }
}

#[test]
fn experiment_02_empty_schedule_runs() {
    empty_schedule_runs::<Grouped>();
}

#[test]
fn experiment_02_repeated_runs_execute_each_job_once() {
    repeated_runs_execute_each_job_once::<Grouped>();
}

#[test]
fn experiment_02_exhaustive_pairwise_conflict_matrix() {
    exhaustive_pairwise_conflict_matrix::<Grouped>();
}

#[test]
fn experiment_02_exhaustive_internal_dependency_matrix() {
    exhaustive_internal_dependency_matrix::<Grouped>();
}

#[test]
fn experiment_02_duplicate_reads_within_a_job_are_allowed() {
    duplicate_reads_within_a_job_are_allowed::<Grouped>();
}

#[test]
fn experiment_02_invalid_internal_conflicts_are_rejected() {
    invalid_internal_conflicts_are_rejected::<Grouped>();
}

#[test]
fn experiment_02_unknown_dependency_is_a_strict_barrier() {
    unknown_dependency_is_a_strict_barrier::<Grouped>();
}

#[test]
fn experiment_02_strict_write_chain_preserves_declaration_order() {
    strict_write_chain_preserves_declaration_order::<Grouped>();
}

#[test]
fn experiment_02_strict_conflict_dominates_when_multiple_dependencies_are_present() {
    strict_conflict_dominates_when_multiple_dependencies_are_present::<Grouped>();
}

#[test]
fn experiment_02_three_job_mixed_constraints_are_respected() {
    three_job_mixed_constraints_are_respected::<Grouped>();
}

#[test]
fn experiment_02_independent_jobs_can_overlap() {
    independent_jobs_can_overlap::<Grouped>();
}

#[test]
fn experiment_02_shared_reads_can_overlap() {
    shared_reads_can_overlap::<Grouped>();
}

#[test]
fn experiment_03_empty_schedule_runs() {
    empty_schedule_runs::<Frontier>();
    empty_schedule_runs::<Adaptive>();
    empty_schedule_runs::<Clustered>();
}

#[test]
fn experiment_03_repeated_runs_execute_each_job_once() {
    repeated_runs_execute_each_job_once::<Frontier>();
    repeated_runs_execute_each_job_once::<Adaptive>();
    repeated_runs_execute_each_job_once::<Clustered>();
}

#[test]
fn experiment_03_exhaustive_pairwise_conflict_matrix() {
    exhaustive_pairwise_conflict_matrix::<Frontier>();
    exhaustive_pairwise_conflict_matrix::<Adaptive>();
    exhaustive_pairwise_conflict_matrix::<Clustered>();
}

#[test]
fn experiment_03_exhaustive_internal_dependency_matrix() {
    exhaustive_internal_dependency_matrix::<Frontier>();
    exhaustive_internal_dependency_matrix::<Adaptive>();
    exhaustive_internal_dependency_matrix::<Clustered>();
}

#[test]
fn experiment_03_duplicate_reads_within_a_job_are_allowed() {
    duplicate_reads_within_a_job_are_allowed::<Frontier>();
    duplicate_reads_within_a_job_are_allowed::<Adaptive>();
    duplicate_reads_within_a_job_are_allowed::<Clustered>();
}

#[test]
fn experiment_03_invalid_internal_conflicts_are_rejected() {
    invalid_internal_conflicts_are_rejected::<Frontier>();
    invalid_internal_conflicts_are_rejected::<Adaptive>();
    invalid_internal_conflicts_are_rejected::<Clustered>();
}

#[test]
fn experiment_03_unknown_dependency_is_a_strict_barrier() {
    unknown_dependency_is_a_strict_barrier::<Frontier>();
    unknown_dependency_is_a_strict_barrier::<Adaptive>();
    unknown_dependency_is_a_strict_barrier::<Clustered>();
}

#[test]
fn experiment_03_strict_write_chain_preserves_declaration_order() {
    strict_write_chain_preserves_declaration_order::<Frontier>();
    strict_write_chain_preserves_declaration_order::<Adaptive>();
    strict_write_chain_preserves_declaration_order::<Clustered>();
}

#[test]
fn experiment_03_strict_conflict_dominates_when_multiple_dependencies_are_present() {
    strict_conflict_dominates_when_multiple_dependencies_are_present::<Frontier>();
    strict_conflict_dominates_when_multiple_dependencies_are_present::<Adaptive>();
    strict_conflict_dominates_when_multiple_dependencies_are_present::<Clustered>();
}

#[test]
fn experiment_03_three_job_mixed_constraints_are_respected() {
    three_job_mixed_constraints_are_respected::<Frontier>();
    three_job_mixed_constraints_are_respected::<Adaptive>();
    three_job_mixed_constraints_are_respected::<Clustered>();
}

#[test]
fn experiment_03_independent_jobs_can_overlap() {
    independent_jobs_can_overlap::<Frontier>();
    independent_jobs_can_overlap::<Adaptive>();
    independent_jobs_can_overlap::<Clustered>();
}

#[test]
fn experiment_03_shared_reads_can_overlap() {
    shared_reads_can_overlap::<Frontier>();
    shared_reads_can_overlap::<Adaptive>();
    shared_reads_can_overlap::<Clustered>();
}

#[test]
fn groups_run_every_scenario() {
    every_scenario::<Grouped>();
}

#[test]
fn strict_jobs_come_after_every_group_of_their_key() {
    let schedule = compile_groups(vec![
        vec![write(0, STRICT)],
        vec![write(0, STRICT)],
        vec![write(0, STRICT), read(1, RELAX)],
        vec![read(1, RELAX)],
        vec![write(1, STRICT)],
    ]);
    assert_eq!(group_lengths(&schedule.groups), vec![2, 1, 1, 1]);
    assert_eq!(schedule.jobs, vec![0, 3, 1, 2, 4]);

    let schedule = compile_groups(vec![
        vec![write(1, RELAX)],
        vec![write(1, RELAX)],
        vec![write(0, RELAX), write(1, RELAX)],
        vec![write(0, RELAX)],
        vec![write(0, STRICT)],
    ]);
    assert_eq!(group_lengths(&schedule.groups), vec![2, 1, 1, 1]);
    assert_eq!(schedule.jobs, vec![0, 3, 1, 2, 4]);

    let schedule = compile_groups(vec![
        vec![write(0, STRICT)],
        vec![write(0, STRICT), read(1, RELAX)],
        vec![read(1, RELAX)],
        vec![write(0, STRICT)],
    ]);
    assert_eq!(group_lengths(&schedule.groups), vec![2, 1, 1]);
    assert_eq!(schedule.jobs, vec![0, 2, 1, 3]);
}

fn every_scenario<D: Driver>() {
    empty_schedule_runs::<D>();
    repeated_runs_execute_each_job_once::<D>();
    exhaustive_pairwise_conflict_matrix::<D>();
    exhaustive_internal_dependency_matrix::<D>();
    duplicate_reads_within_a_job_are_allowed::<D>();
    invalid_internal_conflicts_are_rejected::<D>();
    unknown_dependency_is_a_strict_barrier::<D>();
    strict_write_chain_preserves_declaration_order::<D>();
    strict_conflict_dominates_when_multiple_dependencies_are_present::<D>();
    three_job_mixed_constraints_are_respected::<D>();
    independent_jobs_can_overlap::<D>();
    shared_reads_can_overlap::<D>();
    random_jobs_are_respected::<D>();
}

#[test]
fn pages_run_every_scenario() {
    every_scenario::<Paged>();
}

#[test]
fn frontier_runs_every_scenario() {
    every_scenario::<Frontier>();
}

#[test]
fn variants_run_every_scenario() {
    every_scenario::<Adaptive>();
}

#[test]
fn clusters_run_every_scenario() {
    every_scenario::<Clustered>();
}

#[test]
fn clusters_of_one_job_stand_for_their_jobs() {
    let mut jobs: Vec<Vec<Dependency>> = (0..40).map(|_| vec![read(0, RELAX)]).collect();
    jobs.push(vec![write(0, RELAX)]);
    let list: Vec<Job<usize>> = jobs
        .iter()
        .enumerate()
        .map(|(index, dependencies)| job(index, dependencies.clone()))
        .collect();
    let schedule = kernel::Schedule::compile(list).unwrap();
    assert!(schedule.serial_chain.is_none());
    assert!(!schedule.trivial_parallel);
    assert!(schedule.singleton_dag.is_some());
    assert!(schedule.clusters.iter().all(|cluster| cluster.jobs.len() == 1));
    for (cluster, found) in schedule.clusters.iter().enumerate() {
        let started = Started::Single(cluster as u32);
        assert_eq!(schedule.job_of(started), found.jobs[0].job);
    }
    assert!((0..41).any(|cluster| schedule.job_of(Started::Single(cluster)) != cluster));
    run_case::<Clustered>(jobs, "readers and a writer");
}

#[test]
fn clusters_are_run_in_the_simplest_way() {
    let strict = (0..3).map(|index| job(index, vec![write(0, STRICT)])).collect();
    let mut schedule = kernel::Schedule::compile(strict).unwrap();
    assert_eq!(schedule.begin_run(), vec![Started::Serial(0)]);
    assert_eq!(schedule.job_of(Started::Serial(0)), 0);
    assert_eq!(schedule.finish_job(Started::Serial(0)), vec![Started::Serial(1)]);
    assert_eq!(schedule.finish_job(Started::Serial(1)), vec![Started::Serial(2)]);
    assert_eq!(schedule.finish_job(Started::Serial(2)), vec![]);
    schedule.end_run(false);

    let free = (0..3).map(|index| job(index, vec![write(index, STRICT)])).collect();
    let mut schedule = kernel::Schedule::compile(free).unwrap();
    let begun = schedule.begin_run();
    assert_eq!(begun, vec![Started::Single(0), Started::Single(1), Started::Single(2)]);
    let mut named: Vec<u32> = begun.iter().map(|&started| schedule.job_of(started)).collect();
    named.sort();
    assert_eq!(named, vec![0, 1, 2]);
    for started in begun {
        assert_eq!(schedule.finish_job(started), vec![]);
    }
    schedule.end_run(false);

    let shared = vec![
        job(0, vec![write(0, RELAX)]),
        job(1, vec![read(0, RELAX)]),
        job(2, vec![write(1, STRICT)]),
    ];
    let mut schedule = kernel::Schedule::compile(shared).unwrap();
    let begun = schedule.begin_run();
    assert_eq!(begun.len(), 2);
    assert!(begun.iter().all(|started| matches!(started, Started::Local(_, _))));
    let mut named: Vec<u32> = begun.iter().map(|&started| schedule.job_of(started)).collect();
    for started in begun {
        for next in schedule.finish_job(started) {
            named.push(schedule.job_of(next));
            assert_eq!(schedule.finish_job(next), vec![]);
        }
    }
    named.sort();
    assert_eq!(named, vec![0, 1, 2]);
}

#[test]
fn failed_runs_of_clusters_leave_the_next_as_the_first() {
    let mut jobs: Vec<Job<usize>> = (0..40).map(|index| job(index, vec![read(0, RELAX)])).collect();
    jobs.push(job(40, vec![write(0, RELAX)]));
    let mut schedule = kernel::Schedule::compile(jobs).unwrap();
    let begun = schedule.begin_run();
    assert_eq!(begun.len(), 1);
    assert_eq!(schedule.job_of(begun[0]), 40);
    let woken = schedule.finish_job(begun[0]);
    assert_eq!(woken.len(), 40);
    schedule.end_run(true);
    assert_eq!(schedule.begin_run(), begun);
    assert_eq!(schedule.finish_job(begun[0]), woken);
    for &started in &woken {
        assert_eq!(schedule.finish_job(started), vec![]);
    }
    schedule.end_run(false);
    assert_eq!(schedule.begin_run(), begun);
    assert_eq!(schedule.finish_job(begun[0]), woken);
}

#[test]
fn failed_runs_of_pages_leave_the_next_as_the_first() {
    let jobs = vec![
        job(0, vec![write(0, STRICT)]),
        job(1, vec![write(0, STRICT), write(1, RELAX)]),
        job(2, vec![write(1, RELAX)]),
    ];
    let mut schedule = pages::Schedule::compile(jobs).unwrap();
    let begun = schedule.begin_run();
    assert_eq!(begun, vec![0, 2]);
    assert_eq!(schedule.finish_job(2), vec![]);
    schedule.reset();
    assert!(schedule.pages.iter().all(|page| page.state == 0));
    assert!(schedule.jobs.iter().all(|job| job.strict_wait == job.strict_wait_initial));
    assert_eq!(schedule.begin_run(), begun);
    assert_eq!(schedule.finish_job(2), vec![]);
    assert_eq!(schedule.finish_job(0), vec![1]);
    assert_eq!(schedule.finish_job(1), vec![]);
    assert_eq!(schedule.begin_run(), begun);
}

#[test]
fn failed_runs_of_variants_leave_the_next_as_the_first() {
    let jobs = vec![
        job(0, vec![write(0, STRICT)]),
        job(1, vec![write(0, STRICT)]),
        job(2, vec![write(0, STRICT), read(1, STRICT)]),
        job(3, vec![read(1, STRICT)]),
    ];
    let policy = Policy::Fixed(VariantKind::CriticalPath);
    let mut schedule = variants::Schedule::compile(policy, jobs).unwrap();
    let index = schedule.select_variant_index();
    let waits = |schedule: &variants::Schedule<usize>| -> Vec<u32> {
        schedule.variants[index].chain.nodes.iter().map(|node| node.wait).collect()
    };
    assert_eq!(waits(&schedule), vec![0, 1, 1, 0]);
    assert_eq!(schedule.variants[index].chain.finish(0), vec![1]);
    assert_eq!(waits(&schedule), vec![0, 0, 1, 0]);
    schedule.end_run(index, 1, true);
    assert_eq!(waits(&schedule), vec![0, 1, 1, 0]);
    assert_eq!(schedule.variants[index].chain.finish(0), vec![1]);
    assert_eq!(schedule.variants[index].chain.finish(1), vec![2]);
    assert_eq!(schedule.variants[index].chain.finish(2), vec![]);
    assert_eq!(schedule.variants[index].chain.finish(3), vec![]);
    schedule.end_run(index, 1, false);
    assert_eq!(waits(&schedule), vec![0, 1, 1, 0]);
}

#[test]
fn failed_runs_of_workers_leave_the_next_as_the_first() {
    let mut worker = Worker::new();
    worker.extend(vec![
        job(0, vec![write(0, STRICT)]),
        job(1, vec![write(0, STRICT)]),
        job(2, vec![write(0, STRICT)]),
    ]);
    let roots = worker.begin_run().unwrap();
    assert_eq!(roots, vec![0]);
    assert_eq!(worker.progress(0), vec![0]);
    assert_eq!(worker.progress_local(0), vec![1]);
    worker.end_run(true);
    assert_eq!(worker.begin_run().unwrap(), roots);
    assert_eq!(worker.progress(0), vec![0]);
    assert_eq!(worker.progress_local(0), vec![1]);
    assert_eq!(worker.progress_local(1), vec![2]);
    assert_eq!(worker.progress_local(2), vec![]);
    worker.end_run(false);
    assert_eq!(worker.begin_run().unwrap(), roots);
}

fn compile_groups(jobs: Vec<Vec<Dependency>>) -> groups::Schedule<usize> {
    let list = jobs
        .into_iter()
        .enumerate()
        .map(|(index, dependencies)| job(index, dependencies))
        .collect();
    groups::Schedule::compile(list).unwrap()
}

fn compile_frontier(threads: usize, jobs: Vec<Vec<Dependency>>) -> frontier::Schedule<usize> {
    let list = jobs
        .into_iter()
        .enumerate()
        .map(|(index, dependencies)| job(index, dependencies))
        .collect();
    frontier::Schedule::compile(threads, list).unwrap()
}

fn group_lengths(groups: &[groups::Group]) -> Vec<u32> {
    groups.iter().map(|group| group.job_range.end - group.job_range.start).collect()
}

#[test]
fn model_compile_packs_independent_relaxed_conflicts_into_layers() {
    let jobs = || {
        vec![
            vec![write(0, RELAX)],
            vec![write(1, RELAX)],
            vec![write(0, RELAX)],
            vec![write(1, RELAX)],
        ]
    };
    assert_eq!(group_lengths(&compile_groups(jobs()).groups), vec![2, 2]);
    assert_eq!(group_lengths(&compile_frontier(2, jobs()).groups), vec![2, 2]);
}

#[test]
fn model_compile_treats_unknown_as_a_strict_barrier() {
    let jobs = || vec![vec![], vec![Dependency::Unknown], vec![]];
    assert_eq!(group_lengths(&compile_groups(jobs()).groups), vec![1, 1, 1]);
    assert_eq!(group_lengths(&compile_frontier(2, jobs()).groups), vec![1, 1, 1]);
    for policy in [
        Policy::Adaptive,
        Policy::Fixed(VariantKind::CriticalPath),
        Policy::Fixed(VariantKind::ReadHeavy),
        Policy::Fixed(VariantKind::HotContention),
    ] {
        let jobs = vec![
            job(0, vec![read(0, RELAX)]),
            job(1, vec![Dependency::Unknown]),
            job(2, vec![write(0, RELAX)]),
        ];
        let schedule = variants::Schedule::compile(policy, jobs).unwrap();
        for variant in &schedule.variants {
            let waits: Vec<u32> =
                variant.chain.nodes.iter().map(|node| node.wait_initial).collect();
            assert_eq!(waits, vec![0, 1, 1]);
            assert_eq!(variant.chain.roots, vec![0]);
        }
    }
}

#[test]
fn compile_can_outperform_online_first_fit_on_crown_conflicts() {
    let jobs = vec![
        vec![write(0, RELAX), write(1, RELAX)],
        vec![write(2, RELAX), write(4, RELAX)],
        vec![write(2, RELAX), write(3, RELAX)],
        vec![write(0, RELAX), write(5, RELAX)],
        vec![write(4, RELAX), write(5, RELAX)],
        vec![write(1, RELAX), write(3, RELAX)],
    ];
    assert_eq!(group_lengths(&compile_frontier(8, jobs).groups), vec![3, 3]);
}

#[test]
fn compile_keeps_read_batches_free_of_read_read_edges() {
    let jobs = vec![
        job(0, vec![read(0, RELAX)]),
        job(1, vec![read(0, RELAX)]),
        job(2, vec![write(0, RELAX)]),
    ];
    let schedule = variants::Schedule::compile(Policy::Adaptive, jobs).unwrap();
    for variant in &schedule.variants {
        let waits: Vec<u32> = variant.chain.nodes.iter().map(|node| node.wait_initial).collect();
        assert_eq!(waits.iter().sum::<u32>(), 2);
        assert!(waits.iter().all(|&count| count <= 2));
    }
}

#[test]
fn local_relaxed_key_stays_dynamic_inside_a_cluster() {
    let jobs = vec![
        job(0, vec![write(0, RELAX)]),
        job(1, vec![read(0, RELAX)]),
        job(2, vec![write(1, STRICT)]),
    ];
    let schedule = kernel::Schedule::compile(jobs).unwrap();
    assert_eq!(schedule.clusters.len(), 2);
    let cluster = schedule
        .clusters
        .iter()
        .find(|cluster| cluster.jobs.len() == 2)
        .expect("expected a two-job cluster");
    assert_eq!(cluster.ready_mask_initial.count_ones(), 2);
    assert!(cluster.jobs.iter().all(|job| job.external_wait_initial == 0));
    assert!(cluster.jobs.iter().any(|job| job.dynamic_conflict_mask != 0));
}

#[test]
fn wide_local_relaxed_key_is_globally_oriented_once_it_spans_clusters() {
    let jobs = (0..elude::clusters::MAX_CLUSTER_JOBS + 1)
        .map(|index| job(index, vec![write(0, RELAX)]))
        .collect();
    let schedule = kernel::Schedule::compile(jobs).unwrap();
    assert!(schedule.clusters.len() >= 2);
    let remote_blocked = schedule
        .clusters
        .iter()
        .flat_map(|cluster| cluster.jobs.iter())
        .filter(|job| job.external_wait_initial != 0)
        .count();
    assert!(remote_blocked != 0);
}

#[test]
fn fett() {
    let mut seed = 11;
    for _ in 0..1000 {
        let jobs = random_jobs(&mut seed);
        let list = jobs
            .iter()
            .enumerate()
            .map(|(index, dependencies)| {
                let paths = dependencies
                    .iter()
                    .map(|dependency| match dependency {
                        Dependency::Unknown => Dependency::Unknown,
                        Dependency::Read(key, order) => {
                            Dependency::Read(Key::Path(format!("{key:?}")), *order)
                        }
                        Dependency::Write(key, order) => {
                            Dependency::Write(Key::Path(format!("{key:?}")), *order)
                        }
                    })
                    .collect();
                job(index, paths)
            })
            .collect();
        let mut driver = Working::compile(list).unwrap();
        let events = driver.run(Finish::First);
        assert_respected(&jobs, &events, "fett");
    }
}

#[test]
fn workers_run_every_scenario() {
    empty_schedule_runs::<Working>();
    repeated_runs_execute_each_job_once::<Working>();
    exhaustive_pairwise_conflict_matrix::<Working>();
    duplicate_reads_within_a_job_are_allowed::<Working>();
    unknown_dependency_is_a_strict_barrier::<Working>();
    strict_write_chain_preserves_declaration_order::<Working>();
    strict_conflict_dominates_when_multiple_dependencies_are_present::<Working>();
    three_job_mixed_constraints_are_respected::<Working>();
    independent_jobs_can_overlap::<Working>();
    shared_reads_can_overlap::<Working>();
    random_jobs_are_respected::<Working>();
}

#[test]
fn workers_try_all_ready_jobs_again() {
    let jobs = vec![
        vec![write(0, RELAX), write(1, RELAX)],
        vec![write(0, RELAX)],
        vec![write(1, RELAX)],
    ];
    run_case::<Working>(jobs, "jobs that are held back by the locks of a third");
    let readers = vec![vec![write(0, RELAX)], vec![read(0, RELAX)], vec![read(0, RELAX)]];
    run_case::<Working>(readers, "a writer and readers");
}

#[test]
fn adaptive_schedules_settle_on_the_fastest_variant() {
    let jobs = vec![
        job(0, vec![read(0, RELAX)]),
        job(1, vec![write(0, RELAX)]),
        job(2, vec![read(0, RELAX)]),
        job(3, vec![write(1, RELAX), read(0, RELAX)]),
        job(4, vec![write(1, RELAX)]),
    ];
    let mut schedule = variants::Schedule::compile(Policy::Adaptive, jobs).unwrap();
    let count = schedule.variants.len();
    assert!(count >= 1);
    for _ in 0..200 {
        let index = schedule.select_variant_index();
        assert!(index < count);
        schedule.end_run(index, if index + 1 == count { 10 } else { 1000 }, false);
    }
    assert_eq!(schedule.stats.iter().map(|stats| stats.runs).sum::<u64>(), 200);
    let last = schedule.stats[count - 1].runs;
    assert!(schedule.stats.iter().all(|stats| stats.runs <= last));
    assert_eq!(schedule.stats[count - 1].mean_nanos(), 10);
}

#[test]
fn lib_boba() {
    let address = 64;
    let mut worker = Worker::new();
    for i in 0..32 {
        elude::builder::Build::new().read(address).relax().job(&mut worker, i);
    }
    worker.schedule().unwrap();
    let mut working = Working(worker);
    let mut ran: Vec<usize> = working
        .run(Finish::First)
        .into_iter()
        .filter_map(|event| match event {
            Event::End(job) => Some(job),
            Event::Start(_) => None,
        })
        .collect();
    ran.sort();
    assert_eq!(ran, (0..32).collect::<Vec<_>>());
}

#[test]
fn schedulers_keep_their_jobs_in_order() {
    let compiled = elude::scheduler::Scheduler::new()
        .add(job(3, vec![write(0, STRICT)]))
        .add(job(5, vec![write(0, STRICT)]))
        .schedule()
        .unwrap();
    assert_eq!(compiled.parallelism, None);
    let events = Paged(compiled.schedule).run(Finish::First);
    assert_eq!(events, vec![Event::Start(3), Event::End(3), Event::Start(5), Event::End(5)]);

    let fixed = elude::adaptive::Scheduler::with_policy(Policy::Fixed(VariantKind::ReadHeavy))
        .add(job(1, vec![write(0, STRICT)]))
        .add(job(2, vec![read(0, STRICT)]))
        .schedule()
        .unwrap();
    assert_eq!(fixed.parallelism, None);
    assert_eq!(fixed.schedule.jobs, vec![1, 2]);
    assert_eq!(fixed.schedule.variants.len(), 1);
    assert_eq!(fixed.schedule.variants[0].chain.roots, vec![0]);

    let limited = elude::adaptive::Scheduler::with_parallelism(Some(2)).add(job(7, vec![]));
    assert_eq!(limited.policy, Policy::Adaptive);
    assert_eq!(limited.schedule().unwrap().parallelism, Some(2));

    let clash = vec![write(0, STRICT), read(0, STRICT)];
    assert!(elude::scheduler::Scheduler::with_parallelism(Some(1))
        .add(job(0, clash))
        .schedule()
        .is_err());
}
