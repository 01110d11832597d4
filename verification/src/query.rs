//! Queries: which tables they reach, and which columns they read and write.

use crate::depend::{type_id, type_id_of, type_rank};
use crate::store::{has_type, Column, Store, Table};
use std::any::TypeId;
use std::marker::PhantomData;
use vstd::prelude::*;

verus! {

/// What chooses tables by their columns.
pub trait Filter {
    /// Whether a table with the given columns is chosen.
    spec fn accepts(&self, columns: Seq<Column>) -> bool;

    /// Whether a table is chosen.
    fn filter(&self, table: &Table) -> (accepted: bool)
        ensures
            accepted == self.accepts(table.shown()),
    ;
}

/// What reaches into the columns of tables.
pub trait Access: Filter {
    /// Where the columns are.
    type State;

    /// Where the columns are, if all of them are there.
    spec fn located(&self, columns: Seq<Column>) -> Option<Self::State>;

    /// The columns are there exactly in the tables that are chosen.
    proof fn starts_where_it_fits(&self, columns: Seq<Column>)
        ensures
            self.located(columns) is Some == self.accepts(columns),
    ;

    /// Where the columns of a table are, if all of them are there.
    fn initialize(&self, table: &Table) -> (state: Option<Self::State>)
        ensures
            state == self.located(table.shown()),
    ;
}

/// Chooses the tables that another does not.
pub struct Not<Q>(pub Q);

/// Reaches all rows of all tables.
pub struct All<A>(pub A);

/// Reaches the rows of one table after the other.
pub struct Many<A>(pub A);

/// Reaches one row after the other.
pub struct One<A>(pub A);

/// Reaches the rows of two queries that belong together.
pub struct Join<L, R, O> {
    pub left: L,
    pub right: R,
    pub on: O,
}

/// Writes a column.
pub struct Write<T> {
    pub identifier: TypeId,
    pub marker: PhantomData<T>,
}

/// Reads a column.
pub struct Read<T> {
    pub identifier: TypeId,
    pub marker: PhantomData<T>,
}

/// Asks for a column without reaching into it.
pub struct Has<T> {
    pub identifier: TypeId,
    pub marker: PhantomData<T>,
}

/// Reaches all rows of all tables.
pub fn all<A: Access>(access: A) -> (query: All<A>)
    ensures
        query.0 == access,
{
    All(access)
}

/// Reaches the rows of one table after the other.
pub fn many<A: Access>(access: A) -> (query: Many<A>)
    ensures
        query.0 == access,
{
    Many(access)
}

/// Reaches one row after the other.
pub fn one<A: Access>(access: A) -> (query: One<A>)
    ensures
        query.0 == access,
{
    One(access)
}

/// Reaches the rows of two queries that belong together.
pub fn join<L: Access, R: Access, O>(left: L, right: R, on: O) -> (query: Join<L, R, O>)
    ensures
        query.left == left,
        query.right == right,
        query.on == on,
{
    Join { left, right, on }
}

impl<T> Write<T> {
    /// Writes the column for the type with the given identifier.
    pub fn with(identifier: TypeId) -> (access: Self)
        ensures
            access.identifier == identifier,
    {
        Write { identifier, marker: PhantomData }
    }
}

impl<T: 'static> Write<T> {
    /// Writes the column for a type.
    pub fn new() -> (access: Self)
        ensures
            access.identifier == type_id_of::<T>(),
    {
        Write::with(type_id::<T>())
    }
}

impl<T> Read<T> {
    /// Reads the column for the type with the given identifier.
    pub fn with(identifier: TypeId) -> (access: Self)
        ensures
            access.identifier == identifier,
    {
        Read { identifier, marker: PhantomData }
    }
}

impl<T: 'static> Read<T> {
    /// Reads the column for a type.
    pub fn new() -> (access: Self)
        ensures
            access.identifier == type_id_of::<T>(),
    {
        Read::with(type_id::<T>())
    }
}

/// Reads the column for a type.
pub fn read<T: 'static>() -> (access: Read<T>)
    ensures
        access.identifier == type_id_of::<T>(),
{
    Read::new()
}

/// Writes the column for a type.
pub fn write<T: 'static>() -> (access: Write<T>)
    ensures
        access.identifier == type_id_of::<T>(),
{
    Write::new()
}

/// Where the first column for a type is.
pub open spec fn column_at(columns: Seq<Column>, rank: int) -> Option<usize>
    decreases columns.len(),
{
    if columns.len() == 0 {
        None
    } else if type_rank(columns[0].kind().identifier) == rank {
        Some(columns[0].start())
    } else {
        column_at(columns.skip(1), rank)
    }
}

proof fn lemma_column_at(columns: Seq<Column>, rank: int)
    ensures
        column_at(columns, rank) is Some == has_type(columns, rank),
    decreases columns.len(),
{
    if columns.len() > 0 && type_rank(columns[0].kind().identifier) != rank {
        let rest = columns.skip(1);
        lemma_column_at(rest, rank);
        if has_type(columns, rank) {
            let at = choose|at: int|
                0 <= at < columns.len() && type_rank((#[trigger] columns[at]).kind().identifier)
                    == rank;
            assert(rest[at - 1] == columns[at]);
        }
        if has_type(rest, rank) {
            let at = choose|at: int|
                0 <= at < rest.len() && type_rank((#[trigger] rest[at]).kind().identifier) == rank;
            assert(columns[at + 1] == rest[at]);
        }
    } else if columns.len() > 0 {
        assert(type_rank(columns[0].kind().identifier) == rank);
    }
}

fn find_column(table: &Table, identifier: TypeId) -> (address: Option<usize>)
    ensures
        address == column_at(table.shown(), type_rank(identifier)),
{
    let columns = table.columns();
    let ghost shown = columns@;
    let mut index: usize = 0;
    assert(shown.skip(0) =~= shown);
    while index < columns.len()
        invariant
            index <= columns@.len(),
            columns@ == shown,
            shown == table.shown(),
            column_at(shown, type_rank(identifier)) == column_at(
                shown.skip(index as int),
                type_rank(identifier),
            ),
        decreases columns@.len() - index,
    {
        assert(shown.skip(index as int).skip(1) =~= shown.skip(index + 1));
        if let Some(column) = columns[index].cast_to::<Column>(identifier) {
            return Some(column.pointer());
        }
        index = index + 1;
    }
    None
}

impl Filter for () {
    open spec fn accepts(&self, columns: Seq<Column>) -> bool {
        true
    }

    fn filter(&self, table: &Table) -> (accepted: bool) {
        true
    }
}

impl<F: Filter> Filter for (F,) {
    open spec fn accepts(&self, columns: Seq<Column>) -> bool {
        self.0.accepts(columns)
    }

    fn filter(&self, table: &Table) -> (accepted: bool) {
        self.0.filter(table)
    }
}

impl<F0: Filter, F1: Filter> Filter for (F0, F1) {
    open spec fn accepts(&self, columns: Seq<Column>) -> bool {
        self.0.accepts(columns) && self.1.accepts(columns)
    }

    fn filter(&self, table: &Table) -> (accepted: bool) {
        self.0.filter(table) && self.1.filter(table)
    }
}

impl<F0: Filter, F1: Filter, F2: Filter> Filter for (F0, F1, F2) {
    open spec fn accepts(&self, columns: Seq<Column>) -> bool {
        self.0.accepts(columns) && self.1.accepts(columns) && self.2.accepts(columns)
    }

    fn filter(&self, table: &Table) -> (accepted: bool) {
        self.0.filter(table) && self.1.filter(table) && self.2.filter(table)
    }
}

impl<F0: Filter, F1: Filter, F2: Filter, F3: Filter> Filter for (F0, F1, F2, F3) {
    open spec fn accepts(&self, columns: Seq<Column>) -> bool {
        self.0.accepts(columns) && self.1.accepts(columns) && self.2.accepts(columns)
            && self.3.accepts(columns)
    }

    fn filter(&self, table: &Table) -> (accepted: bool) {
        self.0.filter(table) && self.1.filter(table) && self.2.filter(table) && self.3.filter(table)
    }
}

impl<F: Filter> Filter for One<F> {
    open spec fn accepts(&self, columns: Seq<Column>) -> bool {
        self.0.accepts(columns)
    }

    fn filter(&self, table: &Table) -> (accepted: bool) {
        self.0.filter(table)
    }
}

impl<F: Filter> Filter for Many<F> {
    open spec fn accepts(&self, columns: Seq<Column>) -> bool {
        self.0.accepts(columns)
    }

    fn filter(&self, table: &Table) -> (accepted: bool) {
        self.0.filter(table)
    }
}

impl<F: Filter> Filter for All<F> {
    open spec fn accepts(&self, columns: Seq<Column>) -> bool {
        self.0.accepts(columns)
    }

    fn filter(&self, table: &Table) -> (accepted: bool) {
        self.0.filter(table)
    }
}

impl<L: Filter, R: Filter, O> Filter for Join<L, R, O> {
    open spec fn accepts(&self, columns: Seq<Column>) -> bool {
        self.left.accepts(columns) || self.right.accepts(columns)
    }

    fn filter(&self, table: &Table) -> (accepted: bool) {
        self.left.filter(table) || self.right.filter(table)
    }
}

impl<F: Filter> Filter for Not<F> {
    open spec fn accepts(&self, columns: Seq<Column>) -> bool {
        !self.0.accepts(columns)
    }

    fn filter(&self, table: &Table) -> (accepted: bool) {
        !self.0.filter(table)
    }
}

impl<F: Filter> Filter for Option<F> {
    open spec fn accepts(&self, columns: Seq<Column>) -> bool {
        true
    }

    fn filter(&self, table: &Table) -> (accepted: bool) {
        true
    }
}

impl<T> Filter for Has<T> {
    open spec fn accepts(&self, columns: Seq<Column>) -> bool {
        has_type(columns, type_rank(self.identifier))
    }

    fn filter(&self, table: &Table) -> (accepted: bool) {
        table.has(self.identifier)
    }
}

impl<T> Filter for Write<T> {
    open spec fn accepts(&self, columns: Seq<Column>) -> bool {
        has_type(columns, type_rank(self.identifier))
    }

    fn filter(&self, table: &Table) -> (accepted: bool) {
        table.has(self.identifier)
    }
}

impl<T> Filter for Read<T> {
    open spec fn accepts(&self, columns: Seq<Column>) -> bool {
        has_type(columns, type_rank(self.identifier))
    }

    fn filter(&self, table: &Table) -> (accepted: bool) {
        table.has(self.identifier)
    }
}

impl Access for () {
    type State = ();

    open spec fn located(&self, columns: Seq<Column>) -> Option<()> {
        Some(())
    }

    proof fn starts_where_it_fits(&self, columns: Seq<Column>) {
    }

    fn initialize(&self, table: &Table) -> (state: Option<()>) {
        Some(())
    }
}

impl<A: Access> Access for (A,) {
    type State = A::State;

    open spec fn located(&self, columns: Seq<Column>) -> Option<A::State> {
        self.0.located(columns)
    }

    proof fn starts_where_it_fits(&self, columns: Seq<Column>) {
        self.0.starts_where_it_fits(columns);
    }

    fn initialize(&self, table: &Table) -> (state: Option<A::State>) {
        self.0.initialize(table)
    }
}

impl<A0: Access, A1: Access> Access for (A0, A1) {
    type State = (A0::State, A1::State);

    open spec fn located(&self, columns: Seq<Column>) -> Option<(A0::State, A1::State)> {
        match (self.0.located(columns), self.1.located(columns)) {
            (Some(first), Some(second)) => Some((first, second)),
            _ => None,
        }
    }

    proof fn starts_where_it_fits(&self, columns: Seq<Column>) {
        self.0.starts_where_it_fits(columns);
        self.1.starts_where_it_fits(columns);
    }

    fn initialize(&self, table: &Table) -> (state: Option<(A0::State, A1::State)>) {
        match (self.0.initialize(table), self.1.initialize(table)) {
            (Some(first), Some(second)) => Some((first, second)),
            _ => None,
        }
    }
}

impl<A0: Access, A1: Access, A2: Access> Access for (A0, A1, A2) {
    type State = (A0::State, A1::State, A2::State);

    open spec fn located(&self, columns: Seq<Column>) -> Option<(A0::State, A1::State, A2::State)> {
        match (self.0.located(columns), self.1.located(columns), self.2.located(columns)) {
            (Some(first), Some(second), Some(third)) => Some((first, second, third)),
            _ => None,
        }
    }

    proof fn starts_where_it_fits(&self, columns: Seq<Column>) {
        self.0.starts_where_it_fits(columns);
        self.1.starts_where_it_fits(columns);
        self.2.starts_where_it_fits(columns);
    }

    fn initialize(&self, table: &Table) -> (state: Option<(A0::State, A1::State, A2::State)>) {
        match (self.0.initialize(table), self.1.initialize(table), self.2.initialize(table)) {
            (Some(first), Some(second), Some(third)) => Some((first, second, third)),
            _ => None,
        }
    }
}

impl<A0: Access, A1: Access, A2: Access, A3: Access> Access for (A0, A1, A2, A3) {
    type State = (A0::State, A1::State, A2::State, A3::State);

    open spec fn located(&self, columns: Seq<Column>) -> Option<
        (A0::State, A1::State, A2::State, A3::State),
    > {
        match (
            self.0.located(columns),
            self.1.located(columns),
            self.2.located(columns),
            self.3.located(columns),
        ) {
            (Some(first), Some(second), Some(third), Some(fourth)) => Some(
                (first, second, third, fourth),
            ),
            _ => None,
        }
    }

    proof fn starts_where_it_fits(&self, columns: Seq<Column>) {
        self.0.starts_where_it_fits(columns);
        self.1.starts_where_it_fits(columns);
        self.2.starts_where_it_fits(columns);
        self.3.starts_where_it_fits(columns);
    }

    fn initialize(&self, table: &Table) -> (state: Option<
        (A0::State, A1::State, A2::State, A3::State),
    >) {
        match (
            self.0.initialize(table),
            self.1.initialize(table),
            self.2.initialize(table),
            self.3.initialize(table),
        ) {
            (Some(first), Some(second), Some(third), Some(fourth)) => Some(
                (first, second, third, fourth),
            ),
            _ => None,
        }
    }
}

impl<T> Access for Write<T> {
    type State = usize;

    open spec fn located(&self, columns: Seq<Column>) -> Option<usize> {
        column_at(columns, type_rank(self.identifier))
    }

    proof fn starts_where_it_fits(&self, columns: Seq<Column>) {
        lemma_column_at(columns, type_rank(self.identifier));
    }

    fn initialize(&self, table: &Table) -> (state: Option<usize>) {
        find_column(table, self.identifier)
    }
}

impl<T> Access for Read<T> {
    type State = usize;

    open spec fn located(&self, columns: Seq<Column>) -> Option<usize> {
        column_at(columns, type_rank(self.identifier))
    }

    proof fn starts_where_it_fits(&self, columns: Seq<Column>) {
        lemma_column_at(columns, type_rank(self.identifier));
    }

    fn initialize(&self, table: &Table) -> (state: Option<usize>) {
        find_column(table, self.identifier)
    }
}

/// What a query has found: how many tables it has looked at, and where the columns are in those
/// that it reaches.
pub struct Found<A: Access> {
    pub index: usize,
    pub states: Vec<(A::State, usize)>,
}

/// What is found in the tables from `index` on.
pub open spec fn found_in<A: Access>(access: A, tables: Seq<Table>, index: int) -> Seq<
    (A::State, usize),
>
    decreases tables.len() - index,
{
    if index < 0 || index >= tables.len() {
        Seq::empty()
    } else {
        let rest = found_in(access, tables, index + 1);
        match access.located(tables[index].shown()) {
            Some(state) => seq![(state, index as usize)] + rest,
            None => rest,
        }
    }
}

impl<A: Access> Found<A> {
    /// Nothing, before any table was looked at.
    pub fn new() -> (found: Self)
        ensures
            found.index == 0,
            found.states@ == Seq::<(A::State, usize)>::empty(),
    {
        Found { index: 0, states: Vec::new() }
    }

    /// Looks at the tables that were added since the last time.
    pub fn update(&mut self, access: &A, store: &Store)
        ensures
            final(self).index == if old(self).index < store.tables@.len() {
                store.tables@.len()
            } else {
                old(self).index as nat
            },
            final(self).states@ == old(self).states@ + found_in(
                *access,
                store.tables@,
                old(self).index as int,
            ),
    {
        let ghost start = self.states@;
        let ghost whole = found_in(*access, store.tables@, self.index as int);
        assert(start + whole =~= self.states@ + whole);
        while self.index < store.tables.len()
            invariant
                old(self).index <= self.index,
                self.index <= store.tables@.len() || self.index == old(self).index,
                start + whole == self.states@ + found_in(
                    *access,
                    store.tables@,
                    self.index as int,
                ),
            decreases store.tables@.len() - self.index,
        {
            let ghost earlier = self.states@;
            let ghost rest = found_in(*access, store.tables@, self.index + 1);
            let table: &Table = &store.tables[self.index];
            if let Some(state) = access.initialize(table) {
                self.states.push((state, self.index));
                assert(earlier + (seq![(state, self.index)] + rest) =~= self.states@ + rest);
            }
            self.index = self.index + 1;
        }
        assert(self.states@ + Seq::<(A::State, usize)>::empty() =~= self.states@);
    }
}

/// Looking twice finds what looking once does.
pub proof fn updates_add_up<A: Access>(
    access: A,
    earlier: Seq<Table>,
    tables: Seq<Table>,
    index: int,
)
    requires
        0 <= index <= earlier.len() <= tables.len(),
        earlier == tables.take(earlier.len() as int),
    ensures
        found_in(access, tables, index) == found_in(access, earlier, index) + found_in(
            access,
            tables,
            earlier.len() as int,
        ),
    decreases earlier.len() - index,
{
    if index < earlier.len() {
        updates_add_up(access, earlier, tables, index + 1);
        assert(earlier[index] == tables[index]);
        assert(found_in(access, tables, index) =~= found_in(access, earlier, index) + found_in(
            access,
            tables,
            earlier.len() as int,
        ));
    } else {
        assert(found_in(access, earlier, index) =~= Seq::empty());
        assert(found_in(access, tables, index) =~= found_in(access, earlier, index) + found_in(
            access,
            tables,
            index,
        ));
    }
}

} // verus!
