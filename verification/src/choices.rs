//! What queries choose, and what they find.

use crate::depend::type_rank;
use crate::dynamic;
use crate::query::{
    column_at, found_in, Access, All, Filter, Has, Join, Many, Not, One, Read, Write,
};
use crate::store::{Column, Table};
use std::any::TypeId;
use vstd::prelude::*;

verus! {

/// Whether a column of a table holds values of the type with an identifier.
pub open spec fn holds(table: Table, identifier: TypeId) -> bool {
    exists|at: int|
        0 <= at < table.shown().len() && type_rank((#[trigger] table.shown()[at]).kind().identifier)
            == type_rank(identifier)
}

/// Of a filter and its negation exactly one chooses a table.
pub proof fn a_filter_or_its_negation_chooses<F: Filter>(
    filter: F,
    negation: Not<F>,
    table: Table,
    chosen: bool,
    refused: bool,
)
    requires
        negation.0 == filter,
        call_ensures(F::filter, (&filter, &table), chosen),
        call_ensures(<Not<F> as Filter>::filter, (&negation, &table), refused),
    ensures
        refused == !chosen,
{
}

/// Asking for a column, reading it or writing it chooses the tables that have a column of the type.
pub proof fn columns_choose_the_tables_that_have_them<T>(
    has: Has<T>,
    read: Read<T>,
    write: Write<T>,
    table: Table,
    chosen: (bool, bool, bool),
)
    requires
        call_ensures(<Has<T> as Filter>::filter, (&has, &table), chosen.0),
        call_ensures(<Read<T> as Filter>::filter, (&read, &table), chosen.1),
        call_ensures(<Write<T> as Filter>::filter, (&write, &table), chosen.2),
    ensures
        chosen.0 == holds(table, has.identifier),
        chosen.1 == holds(table, read.identifier),
        chosen.2 == holds(table, write.identifier),
{
}

/// The negation of asking for a column chooses a table exactly where none of its columns is of the
/// type.
pub proof fn negations_choose_the_tables_without_a_column<T>(
    negation: Not<Has<T>>,
    table: Table,
    chosen: bool,
)
    requires
        call_ensures(<Not<Has<T>> as Filter>::filter, (&negation, &table), chosen),
    ensures
        chosen == (forall|at: int|
            0 <= at < table.shown().len() ==> type_rank(
                (#[trigger] table.shown()[at]).kind().identifier,
            ) != type_rank(negation.0.identifier)),
{
}

/// Several filters choose a table where each of them does; no filter chooses every table.
pub proof fn several_filters_choose_together<F0: Filter, F1: Filter, F2: Filter, F3: Filter>(
    filters: (F0, F1, F2, F3),
    table: Table,
    chosen: (bool, bool, bool, bool),
    together: (bool, bool, bool, bool, bool),
)
    requires
        call_ensures(F0::filter, (&filters.0, &table), chosen.0),
        call_ensures(F1::filter, (&filters.1, &table), chosen.1),
        call_ensures(F2::filter, (&filters.2, &table), chosen.2),
        call_ensures(F3::filter, (&filters.3, &table), chosen.3),
        call_ensures(<() as Filter>::filter, (&(), &table), together.0),
        call_ensures(<(F0,) as Filter>::filter, (&(filters.0,), &table), together.1),
        call_ensures(
            <(F0, F1) as Filter>::filter,
            (&(filters.0, filters.1), &table),
            together.2,
        ),
        call_ensures(
            <(F0, F1, F2) as Filter>::filter,
            (&(filters.0, filters.1, filters.2), &table),
            together.3,
        ),
        call_ensures(<(F0, F1, F2, F3) as Filter>::filter, (&filters, &table), together.4),
    ensures
        together.0,
        together.1 == chosen.0,
        together.2 == (chosen.0 && chosen.1),
        together.3 == (chosen.0 && chosen.1 && chosen.2),
        together.4 == (chosen.0 && chosen.1 && chosen.2 && chosen.3),
{
}

/// Rows are reached in the same tables, whether one by one, table by table or all at once.
pub proof fn rows_are_reached_in_the_same_tables<F: Filter>(
    one: One<F>,
    many: Many<F>,
    all: All<F>,
    table: Table,
    own: (bool, bool, bool),
    chosen: (bool, bool, bool),
)
    requires
        call_ensures(F::filter, (&one.0, &table), own.0),
        call_ensures(F::filter, (&many.0, &table), own.1),
        call_ensures(F::filter, (&all.0, &table), own.2),
        call_ensures(<One<F> as Filter>::filter, (&one, &table), chosen.0),
        call_ensures(<Many<F> as Filter>::filter, (&many, &table), chosen.1),
        call_ensures(<All<F> as Filter>::filter, (&all, &table), chosen.2),
    ensures
        chosen == own,
{
}

/// Two queries that belong together choose the tables that one of them does.
pub proof fn joins_choose_what_either_side_does<L: Filter, R: Filter, O>(
    join: Join<L, R, O>,
    table: Table,
    left: bool,
    right: bool,
    chosen: bool,
)
    requires
        call_ensures(L::filter, (&join.left, &table), left),
        call_ensures(R::filter, (&join.right, &table), right),
        call_ensures(<Join<L, R, O> as Filter>::filter, (&join, &table), chosen),
    ensures
        chosen == (left || right),
{
}

/// What may be missing leaves no table out.
pub proof fn options_leave_no_table_out<F: Filter>(
    option: Option<F>,
    table: Table,
    chosen: bool,
)
    requires
        call_ensures(<Option<F> as Filter>::filter, (&option, &table), chosen),
    ensures
        chosen,
{
}

/// Whether an address is that of the first column of a table with a type.
pub open spec fn first_column_at(table: Table, identifier: TypeId, address: usize) -> bool {
    exists|at: int|
        {
            &&& 0 <= at < table.shown().len()
            &&& type_rank((#[trigger] table.shown()[at]).kind().identifier) == type_rank(identifier)
            &&& table.shown()[at].start() == address
            &&& forall|before: int|
                0 <= before < at ==> type_rank(
                    (#[trigger] table.shown()[before]).kind().identifier,
                ) != type_rank(identifier)
        }
}

proof fn lemma_column_at(columns: Seq<Column>, rank: int)
    ensures
        match column_at(columns, rank) {
            None => forall|at: int|
                0 <= at < columns.len() ==> type_rank(
                    (#[trigger] columns[at]).kind().identifier,
                ) != rank,
            Some(address) => exists|at: int|
                {
                    &&& 0 <= at < columns.len()
                    &&& type_rank((#[trigger] columns[at]).kind().identifier) == rank
                    &&& columns[at].start() == address
                    &&& forall|before: int|
                        0 <= before < at ==> type_rank(
                            (#[trigger] columns[before]).kind().identifier,
                        ) != rank
                },
        },
    decreases columns.len(),
{
    if columns.len() > 0 {
        let first = type_rank(columns[0].kind().identifier);
        let rest = columns.skip(1);
        assert forall|at: int| 0 < at < columns.len() implies #[trigger] columns[at] == rest[at
            - 1] by {}
        if first != rank {
            lemma_column_at(rest, rank);
            if let Some(address) = column_at(rest, rank) {
                let at = choose|at: int|
                    {
                        &&& 0 <= at < rest.len()
                        &&& type_rank((#[trigger] rest[at]).kind().identifier) == rank
                        &&& rest[at].start() == address
                        &&& forall|before: int|
                            0 <= before < at ==> type_rank(
                                (#[trigger] rest[before]).kind().identifier,
                            ) != rank
                    };
                assert(columns[at + 1] == rest[at]);
                assert forall|before: int| 0 <= before < at + 1 implies type_rank(
                    (#[trigger] columns[before]).kind().identifier,
                ) != rank by {
                    if before > 0 {
                        assert(columns[before] == rest[before - 1]);
                    }
                }
            }
        } else {
            assert(columns[0].start() == column_at(columns, rank)->Some_0);
        }
    }
}

/// Reading or writing a column starts at the first column of the table with the type, and nowhere
/// where there is none.
pub proof fn columns_are_reached_where_they_are<T>(
    read: Read<T>,
    write: Write<T>,
    table: Table,
    states: (Option<usize>, Option<usize>),
)
    requires
        call_ensures(<Read<T> as Access>::initialize, (&read, &table), states.0),
        call_ensures(<Write<T> as Access>::initialize, (&write, &table), states.1),
    ensures
        match states.0 {
            Some(address) => first_column_at(table, read.identifier, address),
            None => !holds(table, read.identifier),
        },
        match states.1 {
            Some(address) => first_column_at(table, write.identifier, address),
            None => !holds(table, write.identifier),
        },
{
    lemma_column_at(table.shown(), type_rank(read.identifier));
    lemma_column_at(table.shown(), type_rank(write.identifier));
}

/// Several accesses start where each of them does, and nowhere where one of them does not.
pub proof fn several_accesses_start_together<A0: Access, A1: Access, A2: Access, A3: Access>(
    accesses: (A0, A1, A2, A3),
    table: Table,
    states: (Option<A0::State>, Option<A1::State>, Option<A2::State>, Option<A3::State>),
    none: Option<()>,
    one: Option<A0::State>,
    two: Option<(A0::State, A1::State)>,
    three: Option<(A0::State, A1::State, A2::State)>,
    four: Option<(A0::State, A1::State, A2::State, A3::State)>,
)
    requires
        call_ensures(A0::initialize, (&accesses.0, &table), states.0),
        call_ensures(A1::initialize, (&accesses.1, &table), states.1),
        call_ensures(A2::initialize, (&accesses.2, &table), states.2),
        call_ensures(A3::initialize, (&accesses.3, &table), states.3),
        call_ensures(<() as Access>::initialize, (&(), &table), none),
        call_ensures(<(A0,) as Access>::initialize, (&(accesses.0,), &table), one),
        call_ensures(<(A0, A1) as Access>::initialize, (&(accesses.0, accesses.1), &table), two),
        call_ensures(
            <(A0, A1, A2) as Access>::initialize,
            (&(accesses.0, accesses.1, accesses.2), &table),
            three,
        ),
        call_ensures(<(A0, A1, A2, A3) as Access>::initialize, (&accesses, &table), four),
    ensures
        none is Some,
        one == states.0,
        two is Some == (states.0 is Some && states.1 is Some),
        two matches Some(both) ==> Some(both.0) == states.0 && Some(both.1) == states.1,
        three is Some == (states.0 is Some && states.1 is Some && states.2 is Some),
        three matches Some(all) ==> Some(all.0) == states.0 && Some(all.1) == states.1 && Some(
            all.2,
        ) == states.2,
        four is Some == (states.0 is Some && states.1 is Some && states.2 is Some && states.3 is Some),
        four matches Some(all) ==> Some(all.0) == states.0 && Some(all.1) == states.1 && Some(all.2)
            == states.2 && Some(all.3) == states.3,
{
}

/// What is found in the tables from a place on is each table that is chosen, once, in order, with
/// where its columns are.
pub proof fn every_chosen_table_is_found<A: Access>(access: A, tables: Seq<Table>, from: int)
    requires
        0 <= from,
        tables.len() <= usize::MAX,
    ensures
        ({
            let found = found_in(access, tables, from);
            &&& forall|at: int|
                0 <= at < found.len() ==> {
                    let (state, place) = #[trigger] found[at];
                    &&& from <= place < tables.len()
                    &&& access.located(tables[place as int].shown()) == Some(state)
                }
            &&& forall|left: int, right: int|
                0 <= left < right < found.len() ==> (#[trigger] found[left]).1 < (
                #[trigger] found[right]).1
            &&& forall|place: int|
                from <= place < tables.len() && access.accepts(
                    (#[trigger] tables[place]).shown(),
                ) ==> exists|at: int| 0 <= at < found.len() && (#[trigger] found[at]).1 == place
        }),
    decreases tables.len() - from,
{
    let found = found_in(access, tables, from);
    if from < tables.len() {
        every_chosen_table_is_found(access, tables, from + 1);
        access.starts_where_it_fits(tables[from].shown());
        let rest = found_in(access, tables, from + 1);
        if let Some(state) = access.located(tables[from].shown()) {
            assert(found == seq![(state, from as usize)] + rest);
            assert(found[0] == (state, from as usize));
            assert forall|at: int| 0 < at < found.len() implies #[trigger] found[at] == rest[at
                - 1] by {}
            assert forall|place: int|
                from <= place < tables.len() && access.accepts(
                    (#[trigger] tables[place]).shown(),
                ) implies exists|at: int|
                0 <= at < found.len() && (#[trigger] found[at]).1 == place by {
                if place > from {
                    let at = choose|at: int|
                        0 <= at < rest.len() && (#[trigger] rest[at]).1 == place;
                    assert(found[at + 1] == rest[at]);
                } else {
                    assert(found[0].1 == place);
                }
            }
        }
    }
}

/// A filter that is put together while the program runs: a list of filters chooses the tables that
/// each of them does, a negation those that the other does not, and asking for a column those that
/// have one of the type.
pub proof fn composed_filters_choose_by_their_parts(
    filters: Vec<dynamic::Filter>,
    negated: Box<dynamic::Filter>,
    identifier: TypeId,
    table: Table,
    parts: Seq<bool>,
    part: bool,
    chosen: (bool, bool, bool),
)
    requires
        parts.len() == filters@.len(),
        forall|at: int|
            0 <= at < parts.len() ==> call_ensures(
                dynamic::Filter::matches,
                (&filters@[at], &table),
                #[trigger] parts[at],
            ),
        call_ensures(dynamic::Filter::matches, (&*negated, &table), part),
        call_ensures(
            dynamic::Filter::matches,
            (&dynamic::Filter::And(filters), &table),
            chosen.0,
        ),
        call_ensures(
            dynamic::Filter::matches,
            (&dynamic::Filter::Not(negated), &table),
            chosen.1,
        ),
        call_ensures(
            dynamic::Filter::matches,
            (&dynamic::Filter::Has(identifier), &table),
            chosen.2,
        ),
    ensures
        chosen.0 == (forall|at: int| 0 <= at < parts.len() ==> #[trigger] parts[at]),
        chosen.1 == !part,
        chosen.2 == holds(table, identifier),
{
    let all = dynamic::Filter::And(filters);
    assert(all->And_0 == filters);
    let fitting = forall|at: int|
        0 <= at < all->And_0@.len() ==> (#[trigger] all->And_0@[at]).fits(table.shown());
    assert(fitting == all.fits(table.shown()));
    assert forall|at: int| 0 <= at < parts.len() implies #[trigger] parts[at]
        == filters@[at].fits(table.shown()) by {}
    if fitting {
        assert forall|at: int| 0 <= at < parts.len() implies #[trigger] parts[at] by {
            assert(all->And_0@[at].fits(table.shown()));
        }
    } else {
        let at = choose|at: int|
            0 <= at < all->And_0@.len() && !(#[trigger] all->And_0@[at]).fits(table.shown());
        assert(!parts[at]);
    }
}

/// An access that is put together while the program runs: a list of accesses chooses the tables that
/// each of them does, one that may be missing those that the access does, and reading or writing a
/// column those that have one of the type.
pub proof fn composed_accesses_choose_by_their_parts(
    accesses: Vec<dynamic::Access>,
    optional: Box<dynamic::Access>,
    identifier: TypeId,
    table: Table,
    parts: Seq<bool>,
    part: bool,
    chosen: (bool, bool, bool, bool),
)
    requires
        parts.len() == accesses@.len(),
        forall|at: int|
            0 <= at < parts.len() ==> call_ensures(
                dynamic::Access::matches,
                (&accesses@[at], &table),
                #[trigger] parts[at],
            ),
        call_ensures(dynamic::Access::matches, (&*optional, &table), part),
        call_ensures(
            dynamic::Access::matches,
            (&dynamic::Access::And(accesses), &table),
            chosen.0,
        ),
        call_ensures(
            dynamic::Access::matches,
            (&dynamic::Access::Option(optional), &table),
            chosen.1,
        ),
        call_ensures(
            dynamic::Access::matches,
            (&dynamic::Access::Read(identifier), &table),
            chosen.2,
        ),
        call_ensures(
            dynamic::Access::matches,
            (&dynamic::Access::Write(identifier), &table),
            chosen.3,
        ),
    ensures
        chosen.0 == (forall|at: int| 0 <= at < parts.len() ==> #[trigger] parts[at]),
        chosen.1 == part,
        chosen.2 == holds(table, identifier),
        chosen.3 == holds(table, identifier),
{
    let all = dynamic::Access::And(accesses);
    assert(all->And_0 == accesses);
    let fitting = forall|at: int|
        0 <= at < all->And_0@.len() ==> (#[trigger] all->And_0@[at]).fits(table.shown());
    assert(fitting == all.fits(table.shown()));
    assert forall|at: int| 0 <= at < parts.len() implies #[trigger] parts[at]
        == accesses@[at].fits(table.shown()) by {}
    if fitting {
        assert forall|at: int| 0 <= at < parts.len() implies #[trigger] parts[at] by {
            assert(all->And_0@[at].fits(table.shown()));
        }
    } else {
        let at = choose|at: int|
            0 <= at < all->And_0@.len() && !(#[trigger] all->And_0@[at]).fits(table.shown());
        assert(!parts[at]);
    }
}

/// A query that is put together while the program runs: a list of queries chooses the tables that
/// each of them does, and any other query those that its access or its filter does.
pub proof fn composed_queries_choose_by_their_parts(
    queries: Vec<dynamic::Query>,
    access: dynamic::Access,
    filter: dynamic::Filter,
    table: Table,
    parts: Seq<bool>,
    accessed: bool,
    filtered: bool,
    chosen: (bool, bool, bool, bool, bool),
)
    requires
        parts.len() == queries@.len(),
        forall|at: int|
            0 <= at < parts.len() ==> call_ensures(
                dynamic::Query::matches,
                (&queries@[at], &table),
                #[trigger] parts[at],
            ),
        call_ensures(dynamic::Access::matches, (&access, &table), accessed),
        call_ensures(dynamic::Filter::matches, (&filter, &table), filtered),
        call_ensures(
            dynamic::Query::matches,
            (&dynamic::Query::And(queries), &table),
            chosen.0,
        ),
        call_ensures(dynamic::Query::matches, (&dynamic::Query::One(access), &table), chosen.1),
        call_ensures(dynamic::Query::matches, (&dynamic::Query::All(access), &table), chosen.2),
        call_ensures(dynamic::Query::matches, (&dynamic::Query::Many(access), &table), chosen.3),
        call_ensures(
            dynamic::Query::matches,
            (&dynamic::Query::Filter(filter), &table),
            chosen.4,
        ),
    ensures
        chosen.0 == (forall|at: int| 0 <= at < parts.len() ==> #[trigger] parts[at]),
        chosen.1 == accessed,
        chosen.2 == accessed,
        chosen.3 == accessed,
        chosen.4 == filtered,
{
    let all = dynamic::Query::And(queries);
    assert(all->And_0 == queries);
    let fitting = forall|at: int|
        0 <= at < all->And_0@.len() ==> (#[trigger] all->And_0@[at]).fits(table.shown());
    assert(fitting == all.fits(table.shown()));
    assert forall|at: int| 0 <= at < parts.len() implies #[trigger] parts[at]
        == queries@[at].fits(table.shown()) by {}
    if fitting {
        assert forall|at: int| 0 <= at < parts.len() implies #[trigger] parts[at] by {
            assert(all->And_0@[at].fits(table.shown()));
        }
    } else {
        let at = choose|at: int|
            0 <= at < all->And_0@.len() && !(#[trigger] all->And_0@[at]).fits(table.shown());
        assert(!parts[at]);
    }
}

/// A query, an access and a filter that are put together while the program runs choose, as filters,
/// the tables that they match.
pub proof fn composed_queries_filter_as_they_match(
    query: dynamic::Query,
    access: dynamic::Access,
    filter: dynamic::Filter,
    table: Table,
    matched: (bool, bool, bool),
    chosen: (bool, bool, bool),
)
    requires
        call_ensures(dynamic::Query::matches, (&query, &table), matched.0),
        call_ensures(dynamic::Access::matches, (&access, &table), matched.1),
        call_ensures(dynamic::Filter::matches, (&filter, &table), matched.2),
        call_ensures(<dynamic::Query as Filter>::filter, (&query, &table), chosen.0),
        call_ensures(<dynamic::Access as Filter>::filter, (&access, &table), chosen.1),
        call_ensures(<dynamic::Filter as Filter>::filter, (&filter, &table), chosen.2),
    ensures
        chosen == matched,
{
}

} // verus!
