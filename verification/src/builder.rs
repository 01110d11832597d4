//! Building jobs that read or write a part of a state.

use crate::depend::{views, Dependency, DependencyView, Key, KeyView, Order};
use crate::job::Job;
use crate::work::Worker;
use vstd::prelude::*;

verus! {

/// What a job gets out of a state.
pub struct Get<T>(pub T);

/// All of a state.
pub struct Full<T>(pub T);

/// The part of a state that is read, by its address.
pub struct Reading {
    pub address: usize,
}

/// The part of a state that is written, by its address.
pub struct Writing {
    pub address: usize,
}

/// A job that is being built: the part of the state that it reaches, how strongly a conflict over
/// it constrains the job, and what else it depends on.
pub struct Build<A> {
    pub access: A,
    pub order: Option<Order>,
    pub dependencies: Vec<Dependency>,
}

impl Build<()> {
    /// A job that reaches no part of the state yet.
    pub fn new() -> (build: Self)
        ensures
            build.order is None,
            build.dependencies@ == Seq::<Dependency>::empty(),
    {
        Build { access: (), order: None, dependencies: Vec::new() }
    }

    /// A job that reads the part of the state at an address.
    pub fn read(self, address: usize) -> (build: Build<Reading>)
        ensures
            build.access.address == address,
            build.order is None,
            build.dependencies == self.dependencies,
    {
        Build { access: Reading { address }, order: None, dependencies: self.dependencies }
    }

    /// A job that writes the part of the state at an address.
    pub fn write(self, address: usize) -> (build: Build<Writing>)
        ensures
            build.access.address == address,
            build.order is None,
            build.dependencies == self.dependencies,
    {
        Build { access: Writing { address }, order: None, dependencies: self.dependencies }
    }
}

impl<A> Build<A> {
    /// How strongly a conflict constrains the job.
    pub fn order(self, order: Order) -> (build: Self)
        ensures
            build.access == self.access,
            build.order == Some(order),
            build.dependencies == self.dependencies,
    {
        Build { access: self.access, order: Some(order), dependencies: self.dependencies }
    }

    /// A conflict only keeps the job from overlapping others.
    pub fn relax(self) -> (build: Self)
        ensures
            build.access == self.access,
            build.order == Some(Order::Relax),
            build.dependencies == self.dependencies,
    {
        self.order(Order::Relax)
    }

    /// A conflict keeps the job in order.
    pub fn strict(self) -> (build: Self)
        ensures
            build.access == self.access,
            build.order == Some(Order::Strict),
            build.dependencies == self.dependencies,
    {
        self.order(Order::Strict)
    }

    /// How strongly a conflict constrains the job, or what is usual where nothing was said.
    pub open spec fn order_or(self, usual: Order) -> Order {
        match self.order {
            Some(order) => order,
            None => usual,
        }
    }
}

impl Build<Reading> {
    /// What the job depends on: what was said before, and reading its part of the state.
    pub open spec fn depends(self, usual: Order) -> Seq<DependencyView> {
        views(self.dependencies@).push(
            DependencyView::Read(
                KeyView::Address(self.access.address as int),
                self.order_or(usual),
            ),
        )
    }

    fn resolve(&mut self, usual: Order)
        ensures
            views(final(self).dependencies@) == old(self).depends(usual),
    {
        let order = match self.order {
            Some(order) => order,
            None => usual,
        };
        let ghost before = self.dependencies@;
        self.dependencies.push(Dependency::Read(Key::Address(self.access.address), order));
        assert(views(self.dependencies@) =~= old(self).depends(usual));
    }

    /// Adds the job to a worker. Where nothing else was said, a conflict keeps it in order.
    pub fn job<R>(self, worker: &mut Worker<R>, run: R)
        ensures
            final(worker).sound(),
            final(worker).is_pending(),
            final(worker).payloads() == old(worker).payloads().push(run),
            final(worker).declarations() == old(worker).declarations().push(
                self.depends(Order::Strict),
            ),
            final(worker).declarations().last() == views(self.dependencies@).push(
                match self.order {
                    Some(order) => DependencyView::Read(
                        KeyView::Address(self.access.address as int),
                        order,
                    ),
                    None => DependencyView::Read(
                        KeyView::Address(self.access.address as int),
                        Order::Strict,
                    ),
                },
            ),
    {
        let mut build = self;
        build.resolve(Order::Strict);
        let job = Job::new(run, build.dependencies);
        worker.push(job);
    }
}

/// A job that reads a part of the state declares the read with exactly the order that was asked for,
/// whatever is usual, behind what it depended on before. Where no order was asked for, it declares
/// the read with the order that is usual.
pub proof fn reads_are_declared_as_asked(
    start: Build<()>,
    address: usize,
    order: Order,
    usual: Order,
    reading: Build<Reading>,
    ordered: Build<Reading>,
    relaxed: Build<Reading>,
    strict: Build<Reading>,
)
    requires
        call_ensures(Build::<()>::read, (start, address), reading),
        call_ensures(Build::<Reading>::order, (reading, order), ordered),
        call_ensures(Build::<Reading>::relax, (reading,), relaxed),
        call_ensures(Build::<Reading>::strict, (reading,), strict),
    ensures
        ({
            let key = KeyView::Address(address as int);
            let before = views(start.dependencies@);
            &&& reading.depends(usual) == before.push(DependencyView::Read(key, usual))
            &&& ordered.depends(usual) == before.push(DependencyView::Read(key, order))
            &&& relaxed.depends(usual) == before.push(DependencyView::Read(key, Order::Relax))
            &&& strict.depends(usual) == before.push(DependencyView::Read(key, Order::Strict))
        }),
{
}

/// A job that is added to a worker as it was built declares its read with the order that was asked
/// for, and strictly where none was.
pub proof fn built_jobs_are_added_as_asked<R>(
    build: Build<Reading>,
    worker: &mut Worker<R>,
    run: R,
)
    requires
        call_ensures(Build::<Reading>::job::<R>, (build, worker, run), ()),
    ensures
        ({
            let key = KeyView::Address(build.access.address as int);
            let before = views(build.dependencies@);
            let after = final(worker).declarations();
            &&& after.len() == old(worker).declarations().len() + 1
            &&& after.drop_last() == old(worker).declarations()
            &&& build.order == Some(Order::Relax) ==> after.last() == before.push(
                DependencyView::Read(key, Order::Relax),
            )
            &&& build.order == Some(Order::Strict) ==> after.last() == before.push(
                DependencyView::Read(key, Order::Strict),
            )
            &&& build.order is None ==> after.last() == before.push(
                DependencyView::Read(key, Order::Strict),
            )
        }),
{
    assert(final(worker).declarations().drop_last() =~= old(worker).declarations());
}

} // verus!
