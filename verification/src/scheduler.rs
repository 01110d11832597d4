//! Collecting jobs for a schedule of pages.

use crate::error::Error;
use crate::job::Job;
use crate::pages::{planned, Plan, Schedule};
use crate::plan::{all_consistent, declarations, jobs_rejected_with, payloads};
use vstd::prelude::*;

verus! {

/// Jobs that are to be scheduled, and how many of them may run at once.
pub struct Scheduler<R> {
    pub parallelism: Option<usize>,
    pub jobs: Vec<Job<R>>,
}

/// Jobs that were scheduled, and how many of them may run at once.
pub struct Compiled<R> {
    pub parallelism: Option<usize>,
    pub schedule: Schedule<R>,
}

impl<R> Scheduler<R> {
    /// No jobs yet.
    pub fn with_parallelism(parallelism: Option<usize>) -> (scheduler: Self)
        ensures
            scheduler.parallelism == parallelism,
            scheduler.jobs@ == Seq::<Job<R>>::empty(),
    {
        Scheduler { parallelism, jobs: Vec::new() }
    }

    /// No jobs yet, and as many at once as the machine offers.
    pub fn new() -> (scheduler: Self)
        ensures
            scheduler.parallelism is None,
            scheduler.jobs@ == Seq::<Job<R>>::empty(),
    {
        Self::with_parallelism(None)
    }

    /// Adds a job behind the others.
    pub fn add(self, job: Job<R>) -> (scheduler: Self)
        ensures
            scheduler.parallelism == self.parallelism,
            scheduler.jobs@ == self.jobs@.push(job),
    {
        let mut scheduler = self;
        scheduler.jobs.push(job);
        scheduler
    }

    /// Schedules the jobs, unless the dependencies of one of them clash.
    pub fn schedule(self) -> (result: Result<Compiled<R>, Error>)
        requires
            self.jobs@.len() <= u32::MAX,
        ensures
            match result {
                Ok(compiled) => {
                    &&& compiled.parallelism == self.parallelism
                    &&& all_consistent(declarations(self.jobs@))
                    &&& exists|plan: Plan| #[trigger]
                        planned(declarations(self.jobs@), plan) && compiled.schedule.follows_plan(
                            plan,
                            payloads(self.jobs@),
                        )
                },
                Err(error) => jobs_rejected_with(declarations(self.jobs@), error@),
            },
    {
        match Schedule::compile(self.jobs) {
            Ok(schedule) => Ok(Compiled { parallelism: self.parallelism, schedule }),
            Err(error) => Err(error),
        }
    }
}

} // verus!
