//! Jobs: something to run, and the dependencies of running it.

use crate::depend::{views, Dependency, DependencyView};
use vstd::prelude::*;

verus! {

/// Something to run, with what it depends on. What `run` is, is left to the caller; the
/// dependencies must tell all that running it reads and writes.
#[derive(Debug)]
pub struct Job<R> {
    pub(crate) run: R,
    pub(crate) dependencies: Vec<Dependency>,
}

impl<R> Job<R> {
    /// What is to be run.
    pub closed spec fn payload(self) -> R {
        self.run
    }

    /// What running the job depends on.
    pub closed spec fn declared(self) -> Seq<DependencyView> {
        views(self.dependencies@)
    }

    pub fn new(run: R, dependencies: Vec<Dependency>) -> (job: Self)
        ensures
            job.payload() == run,
            job.declared() == views(dependencies@),
    {
        Job { run, dependencies }
    }

    /// A job without dependencies.
    pub fn with(run: R) -> (job: Self)
        ensures
            job.payload() == run,
            job.declared() == Seq::<DependencyView>::empty(),
    {
        let job = Self::new(run, Vec::new());
        assert(job.declared() =~= Seq::<DependencyView>::empty());
        job
    }

    /// The same job, with more dependencies.
    pub fn depend(self, dependencies: Vec<Dependency>) -> (job: Self)
        ensures
            job.payload() == self.payload(),
            job.declared() == self.declared() + views(dependencies@),
    {
        let mut job = self;
        let mut more = dependencies;
        job.dependencies.append(&mut more);
        assert(job.declared() =~= self.declared() + views(dependencies@));
        job
    }

    pub fn dependencies(&self) -> (dependencies: &[Dependency])
        ensures
            views(dependencies@) == self.declared(),
    {
        self.dependencies.as_slice()
    }

    pub(crate) fn into_parts(self) -> (parts: (R, Vec<Dependency>))
        ensures
            parts.0 == self.payload(),
            views(parts.1@) == self.declared(),
    {
        (self.run, self.dependencies)
    }
}

impl Job<()> {
    /// A job that does nothing.
    pub fn ok() -> (job: Self)
        ensures
            job.declared() == Seq::<DependencyView>::empty(),
    {
        Self::with(())
    }

    /// A job that does nothing, and that no other job may pass.
    pub fn barrier() -> (job: Self)
        ensures
            job.declared() == seq![DependencyView::Unknown],
    {
        let job = Self::ok().depend(vec![Dependency::Unknown]);
        assert(job.declared() =~= seq![DependencyView::Unknown]);
        job
    }
}

} // verus!
