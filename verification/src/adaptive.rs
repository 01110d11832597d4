//! Collecting jobs for a schedule of variants.

use crate::error::Error;
use crate::job::Job;
use crate::orient::{setting_of, Setting};
use crate::plan::{all_consistent, declarations, jobs_rejected_with, payloads};
use crate::variants::{Policy, Schedule, VariantPlan};
use vstd::prelude::*;

verus! {

/// Jobs that are to be scheduled, how many of them may run at once, and how the variant is
/// chosen.
pub struct Scheduler<R> {
    pub parallelism: Option<usize>,
    pub policy: Policy,
    pub jobs: Vec<Job<R>>,
}

/// Jobs that were scheduled, and how many of them may run at once.
pub struct Compiled<R> {
    pub parallelism: Option<usize>,
    pub schedule: Schedule<R>,
}

impl<R> Scheduler<R> {
    /// No jobs yet.
    pub fn with_parallelism_and_policy(parallelism: Option<usize>, policy: Policy) -> (scheduler:
        Self)
        ensures
            scheduler.parallelism == parallelism,
            scheduler.policy == policy,
            scheduler.jobs@ == Seq::<Job<R>>::empty(),
    {
        Scheduler { parallelism, policy, jobs: Vec::new() }
    }

    /// No jobs yet, and as many at once as the machine offers.
    pub fn with_policy(policy: Policy) -> (scheduler: Self)
        ensures
            scheduler.parallelism is None,
            scheduler.policy == policy,
            scheduler.jobs@ == Seq::<Job<R>>::empty(),
    {
        Self::with_parallelism_and_policy(None, policy)
    }

    /// No jobs yet, and a variant that is chosen by what was measured.
    pub fn with_parallelism(parallelism: Option<usize>) -> (scheduler: Self)
        ensures
            scheduler.parallelism == parallelism,
            scheduler.policy == Policy::Adaptive,
            scheduler.jobs@ == Seq::<Job<R>>::empty(),
    {
        Self::with_parallelism_and_policy(parallelism, Policy::Adaptive)
    }

    /// Adds a job behind the others.
    pub fn add(self, job: Job<R>) -> (scheduler: Self)
        ensures
            scheduler.parallelism == self.parallelism,
            scheduler.policy == self.policy,
            scheduler.jobs@ == self.jobs@.push(job),
    {
        let mut scheduler = self;
        scheduler.jobs.push(job);
        scheduler
    }

    /// Schedules the jobs, unless the dependencies of one of them clash.
    pub fn schedule(self) -> (result: Result<Compiled<R>, Error>)
        requires
            self.jobs@.len() <= u32::MAX,
        ensures
            match result {
                Ok(compiled) => {
                    &&& compiled.parallelism == self.parallelism
                    &&& all_consistent(declarations(self.jobs@))
                    &&& compiled.schedule.sound()
                    &&& exists|setting: Setting, plans: Seq<VariantPlan>|
                        {
                            &&& #[trigger] setting_of(declarations(self.jobs@), None, setting)
                            &&& #[trigger] compiled.schedule.follows(
                                self.policy,
                                setting,
                                plans,
                                payloads(self.jobs@),
                            )
                        }
                },
                Err(error) => jobs_rejected_with(declarations(self.jobs@), error@),
            },
    {
        match Schedule::compile(self.policy, self.jobs) {
            Ok(schedule) => Ok(Compiled { parallelism: self.parallelism, schedule }),
            Err(error) => Err(error),
        }
    }
}

} // verus!
