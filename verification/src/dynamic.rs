//! Queries that are put together while the program runs.

use crate::depend::type_rank;
use crate::query;
use crate::store::{has_type, Column, Table};
use std::any::TypeId;
use vstd::prelude::*;

verus! {

/// A query.
pub enum Query {
    And(Vec<Query>),
    One(Access),
    All(Access),
    Many(Access),
    Filter(Filter),
}

/// What a query reads and writes.
pub enum Access {
    And(Vec<Access>),
    Option(Box<Access>),
    Read(TypeId),
    Write(TypeId),
}

/// What chooses tables.
pub enum Filter {
    And(Vec<Filter>),
    Not(Box<Filter>),
    Has(TypeId),
}

impl Filter {
    /// Whether a table with the given columns is chosen.
    pub open spec fn fits(self, columns: Seq<Column>) -> bool
        decreases self,
    {
        match self {
            Filter::And(filters) => forall|at: int|
                0 <= at < filters@.len() ==> (#[trigger] filters@[at]).fits(columns),
            Filter::Not(filter) => !filter.fits(columns),
            Filter::Has(identifier) => has_type(columns, type_rank(identifier)),
        }
    }

    /// Whether a table is chosen.
    pub fn matches(&self, table: &Table) -> (fitting: bool)
        ensures
            fitting == self.fits(table.shown()),
        decreases self,
    {
        match self {
            Filter::And(filters) => {
                let mut index: usize = 0;
                while index < filters.len()
                    invariant
                        index <= filters@.len(),
                        *self == Filter::And(*filters),
                        forall|at: int|
                            0 <= at < index ==> (#[trigger] filters@[at]).fits(table.shown()),
                    decreases filters@.len() - index,
                {
                    assert(decreases_to!(*self => filters@[index as int])) by {
                        assert(decreases_to!(*filters => filters@));
                        assert(decreases_to!(filters@ => filters@[index as int]));
                        assert(decreases_to!(*self => self->And_0));
                    }
                    if !filters[index].matches(table) {
                        assert(self->And_0 == *filters);
                        assert(!self->And_0@[index as int].fits(table.shown()));
                        return false;
                    }
                    index = index + 1;
                }
                true
            },
            Filter::Not(filter) => !filter.matches(table),
            Filter::Has(identifier) => table.has(*identifier),
        }
    }
}

impl Access {
    /// Whether a table with the given columns is chosen.
    pub open spec fn fits(self, columns: Seq<Column>) -> bool
        decreases self,
    {
        match self {
            Access::And(accesses) => forall|at: int|
                0 <= at < accesses@.len() ==> (#[trigger] accesses@[at]).fits(columns),
            Access::Option(access) => access.fits(columns),
            Access::Read(identifier) => has_type(columns, type_rank(identifier)),
            Access::Write(identifier) => has_type(columns, type_rank(identifier)),
        }
    }

    /// Whether a table is chosen.
    pub fn matches(&self, table: &Table) -> (fitting: bool)
        ensures
            fitting == self.fits(table.shown()),
        decreases self,
    {
        match self {
            Access::And(accesses) => {
                let mut index: usize = 0;
                while index < accesses.len()
                    invariant
                        index <= accesses@.len(),
                        *self == Access::And(*accesses),
                        forall|at: int|
                            0 <= at < index ==> (#[trigger] accesses@[at]).fits(table.shown()),
                    decreases accesses@.len() - index,
                {
                    assert(decreases_to!(*self => accesses@[index as int])) by {
                        assert(decreases_to!(*accesses => accesses@));
                        assert(decreases_to!(accesses@ => accesses@[index as int]));
                        assert(decreases_to!(*self => self->And_0));
                    }
                    if !accesses[index].matches(table) {
                        assert(self->And_0 == *accesses);
                        assert(!self->And_0@[index as int].fits(table.shown()));
                        return false;
                    }
                    index = index + 1;
                }
                true
            },
            Access::Option(access) => access.matches(table),
            Access::Read(identifier) => table.has(*identifier),
            Access::Write(identifier) => table.has(*identifier),
        }
    }
}

impl Query {
    /// Whether a table with the given columns is chosen.
    pub open spec fn fits(self, columns: Seq<Column>) -> bool
        decreases self,
    {
        match self {
            Query::And(queries) => forall|at: int|
                0 <= at < queries@.len() ==> (#[trigger] queries@[at]).fits(columns),
            Query::One(access) => access.fits(columns),
            Query::All(access) => access.fits(columns),
            Query::Many(access) => access.fits(columns),
            Query::Filter(filter) => filter.fits(columns),
        }
    }

    /// Whether a table is chosen.
    pub fn matches(&self, table: &Table) -> (fitting: bool)
        ensures
            fitting == self.fits(table.shown()),
        decreases self,
    {
        match self {
            Query::And(queries) => {
                let mut index: usize = 0;
                while index < queries.len()
                    invariant
                        index <= queries@.len(),
                        *self == Query::And(*queries),
                        forall|at: int|
                            0 <= at < index ==> (#[trigger] queries@[at]).fits(table.shown()),
                    decreases queries@.len() - index,
                {
                    assert(decreases_to!(*self => queries@[index as int])) by {
                        assert(decreases_to!(*queries => queries@));
                        assert(decreases_to!(queries@ => queries@[index as int]));
                        assert(decreases_to!(*self => self->And_0));
                    }
                    if !queries[index].matches(table) {
                        assert(self->And_0 == *queries);
                        assert(!self->And_0@[index as int].fits(table.shown()));
                        return false;
                    }
                    index = index + 1;
                }
                true
            },
            Query::One(access) => access.matches(table),
            Query::All(access) => access.matches(table),
            Query::Many(access) => access.matches(table),
            Query::Filter(filter) => filter.matches(table),
        }
    }
}

impl query::Filter for Query {
    open spec fn accepts(&self, columns: Seq<Column>) -> bool {
        self.fits(columns)
    }

    fn filter(&self, table: &Table) -> (accepted: bool) {
        self.matches(table)
    }
}

impl query::Filter for Access {
    open spec fn accepts(&self, columns: Seq<Column>) -> bool {
        self.fits(columns)
    }

    fn filter(&self, table: &Table) -> (accepted: bool) {
        self.matches(table)
    }
}

impl query::Filter for Filter {
    open spec fn accepts(&self, columns: Seq<Column>) -> bool {
        self.fits(columns)
    }

    fn filter(&self, table: &Table) -> (accepted: bool) {
        self.matches(table)
    }
}

} // verus!
