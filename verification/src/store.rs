//! Tables of columns.

use crate::depend::{type_id, type_id_of, type_precedes, type_rank, type_same};
use crate::schema::{key_before, lemma_one_order, Layout, LayoutError};
use slice_dst::SliceWithHeader;
use std::any::TypeId;
use std::marker::PhantomData;
use vstd::prelude::*;

verus! {

/// The type that stands for one that is not known.
pub enum Void {
    Unknown,
}

/// Whether memory can hold so many columns. A column takes no more than 64 bytes.
pub open spec fn can_be_held(count: nat) -> bool {
    count < isize::MAX / 64
}

/// Where a row is: in which table, and at which place in it.
#[derive(Debug, Clone, Copy, PartialEq, Eq, Structural)]
pub struct Row {
    pub table: u32,
    pub row: u32,
}

/// What is known of the type of a column.
#[derive(Clone, Copy)]
pub struct Meta {
    pub identifier: TypeId,
    pub size: usize,
    pub align: usize,
}

impl Meta {
    /// What is known of a type with the given identifier.
    pub fn with(identifier: TypeId, size: usize, align: usize) -> (meta: Self)
        ensures
            meta == (Meta { identifier, size, align }),
    {
        Meta { identifier, size, align }
    }

    /// What is known of a type.
    pub fn new<T: 'static>() -> (meta: Self)
        ensures
            meta.identifier == type_id_of::<T>(),
            meta.size == vstd::layout::size_of::<T>(),
            meta.align == vstd::layout::align_of::<T>(),
    {
        Meta::with(type_id::<T>(), core::mem::size_of::<T>(), core::mem::align_of::<T>())
    }

    /// The layout of a row of values. There is none where its size would be too large.
    pub fn lay(&self, count: usize) -> (layout: Result<Layout, LayoutError>)
        ensures
            match layout {
                Ok(layout) => {
                    &&& count * self.size <= isize::MAX
                    &&& layout.size == count * self.size
                    &&& layout.align == self.align
                },
                Err(_) => count * self.size > isize::MAX,
            },
    {
        match count.checked_mul(self.size) {
            Some(total) => if total <= isize::MAX as usize {
                Ok(Layout { size: total, align: self.align })
            } else {
                Err(LayoutError)
            },
            None => Err(LayoutError),
        }
    }

    /// The address that lies the given number of values behind another.
    pub fn add(&self, address: usize, count: usize) -> (place: usize)
        requires
            address + count * self.size <= usize::MAX,
        ensures
            place == address + count * self.size,
    {
        proof {
            assert(0 <= count * self.size) by (nonlinear_arith);
        }
        address + count * self.size
    }
}

/// A column, and where its values are.
pub struct Column<T = Void> {
    meta: Meta,
    address: usize,
    marker: PhantomData<T>,
}

impl<T> Column<T> {
    /// What is known of the type of the values.
    pub closed spec fn kind(self) -> Meta {
        self.meta
    }

    /// Where the values are.
    pub closed spec fn start(self) -> usize {
        self.address
    }

    /// A column whose values are at the given address.
    pub fn at(meta: Meta, address: usize) -> (column: Self)
        ensures
            column.kind() == meta,
            column.start() == address,
    {
        Column { meta, address, marker: PhantomData }
    }

    /// What is known of the type of the values.
    pub fn meta(&self) -> (meta: Meta)
        ensures
            meta == self.kind(),
    {
        self.meta
    }

    /// Where the values are.
    pub fn pointer(&self) -> (address: usize)
        ensures
            address == self.start(),
    {
        self.address
    }
}

impl Column {
    /// The column, if its values are of the type with the given identifier.
    pub fn cast_to<T>(&self, identifier: TypeId) -> (column: Option<Column<T>>)
        ensures
            column is Some == (type_rank(self.kind().identifier) == type_rank(identifier)),
            column matches Some(column) ==> column.kind() == self.kind() && column.start()
                == self.start(),
    {
        if type_same(&self.meta.identifier, &identifier) {
            Some(Column { meta: self.meta, address: self.address, marker: PhantomData })
        } else {
            None
        }
    }

    /// The column, if its values are of a type.
    pub fn cast<T: 'static>(&self) -> (column: Option<Column<T>>)
        ensures
            column is Some == (type_rank(self.kind().identifier) == type_rank(type_id_of::<T>())),
            column matches Some(column) ==> column.kind() == self.kind() && column.start()
                == self.start(),
    {
        self.cast_to::<T>(type_id::<T>())
    }
}

/// [`SliceWithHeader`] is carried as an opaque value.
#[verifier::external_type_specification]
#[verifier::external_body]
#[verifier::reject_recursive_types(H)]
#[verifier::reject_recursive_types(T)]
pub struct ExSliceWithHeader<H, T>(SliceWithHeader<H, T>);

/// The number that stands in the header of a slice.
pub uninterp spec fn slice_header(slice: Box<SliceWithHeader<usize, Column>>) -> usize;

/// The columns of a slice.
pub uninterp spec fn slice_items(slice: Box<SliceWithHeader<usize, Column>>) -> Seq<Column>;

/// Calls [`SliceWithHeader::new`], which makes a slice of the header and of the items, in their
/// order. It panics where they are more than memory can hold.
#[verifier::external_body]
fn slice_new(header: usize, items: Vec<Column>) -> (slice: Box<SliceWithHeader<usize, Column>>)
    requires
        can_be_held(items@.len()),
    ensures
        slice_header(slice) == header,
        slice_items(slice) == items@,
{
    SliceWithHeader::new(header, items)
}

/// Reads the header of a [`SliceWithHeader`].
#[verifier::external_body]
fn slice_head(slice: &Box<SliceWithHeader<usize, Column>>) -> (header: usize)
    ensures
        header == slice_header(*slice),
{
    slice.header
}

/// Reads the items of a [`SliceWithHeader`].
#[verifier::external_body]
fn slice_columns(slice: &Box<SliceWithHeader<usize, Column>>) -> (columns: &[Column])
    ensures
        columns@ == slice_items(*slice),
{
    &slice.slice
}

/// A table: how many rows it has, and its columns.
pub struct Table {
    slice: Box<SliceWithHeader<usize, Column>>,
}

/// Whether a column for a type is among columns.
pub open spec fn has_type(columns: Seq<Column>, rank: int) -> bool {
    exists|at: int|
        0 <= at < columns.len() && type_rank((#[trigger] columns[at]).kind().identifier) == rank
}

/// Whether columns come in the order of their types, none of which comes twice.
pub open spec fn type_sorted(columns: Seq<Column>) -> bool {
    forall|left: int, right: int|
        0 <= left < right < columns.len() ==> type_rank(
            (#[trigger] columns[left]).kind().identifier,
        ) < type_rank((#[trigger] columns[right]).kind().identifier)
}

/// Whether what is known of a type is the first of a list that is known of it.
pub open spec fn first_known(metas: Seq<Meta>, meta: Meta) -> bool {
    exists|first: int|
        0 <= first < metas.len() && #[trigger] metas[first] == meta && forall|earlier: int|
            0 <= earlier < first ==> type_rank((#[trigger] metas[earlier]).identifier) != type_rank(
                meta.identifier,
            )
}

/// Whether columns are those of a new table, one for each type of a list, in the order of the
/// types.
pub open spec fn tabulated(metas: Seq<Meta>, columns: Seq<Column>) -> bool {
    &&& type_sorted(columns)
    &&& forall|at: int|
        0 <= at < columns.len() ==> (#[trigger] columns[at]).start() == 1 && first_known(
            metas,
            columns[at].kind(),
        )
    &&& forall|at: int|
        0 <= at < metas.len() ==> has_type(columns, type_rank((#[trigger] metas[at]).identifier))
}

impl Table {
    /// How many rows there are.
    pub closed spec fn rows(self) -> usize {
        slice_header(self.slice)
    }

    /// The columns.
    pub closed spec fn shown(self) -> Seq<Column> {
        slice_items(self.slice)
    }

    /// A table without rows, with a column for each type of a list.
    pub fn new(metas: &Vec<Meta>) -> (table: Self)
        requires
            can_be_held(metas@.len()),
        ensures
            table.rows() == 0,
            tabulated(metas@, table.shown()),
    {
        Table { slice: slice_new(0, tabulate(metas)) }
    }

    /// How many rows there are.
    pub fn count(&self) -> (count: usize)
        ensures
            count == self.rows(),
    {
        slice_head(&self.slice)
    }

    /// Whether there is a column for a type.
    pub fn has(&self, identifier: TypeId) -> (found: bool)
        ensures
            found == has_type(self.shown(), type_rank(identifier)),
    {
        let columns = self.columns();
        let mut index: usize = 0;
        while index < columns.len()
            invariant
                index <= columns@.len(),
                columns@ == self.shown(),
                forall|at: int|
                    0 <= at < index ==> type_rank((#[trigger] columns@[at]).kind().identifier)
                        != type_rank(identifier),
            decreases columns@.len() - index,
        {
            let meta: Meta = columns[index].meta();
            if type_same(&meta.identifier, &identifier) {
                return true;
            }
            index = index + 1;
        }
        false
    }

    /// The columns.
    pub fn columns(&self) -> (columns: &[Column])
        ensures
            columns@ == self.shown(),
    {
        slice_columns(&self.slice)
    }
}

proof fn lemma_type_kept(metas: Seq<Meta>, columns: Seq<Column>, meta: Meta, place: int)
    requires
        tabulated(metas, columns),
        0 <= place < columns.len(),
        type_rank(columns[place].kind().identifier) == type_rank(meta.identifier),
    ensures
        tabulated(metas.push(meta), columns),
{
    let more = metas.push(meta);
    assert forall|at: int| 0 <= at < columns.len() implies (#[trigger] columns[at]).start() == 1
        && first_known(more, columns[at].kind()) by {
        let first = choose|first: int|
            0 <= first < metas.len() && #[trigger] metas[first] == columns[at].kind()
                && forall|earlier: int|
                0 <= earlier < first ==> type_rank((#[trigger] metas[earlier]).identifier)
                    != type_rank(columns[at].kind().identifier);
        assert(more[first] == columns[at].kind());
        assert forall|earlier: int| 0 <= earlier < first implies type_rank(
            (#[trigger] more[earlier]).identifier,
        ) != type_rank(columns[at].kind().identifier) by {
            assert(metas[earlier] == more[earlier]);
        }
    }
    assert forall|at: int| 0 <= at < more.len() implies has_type(
        columns,
        type_rank((#[trigger] more[at]).identifier),
    ) by {
        if at < metas.len() {
            assert(metas[at] == more[at]);
        } else {
            assert(type_rank(columns[place].kind().identifier) == type_rank(more[at].identifier));
        }
    }
}

proof fn lemma_type_added(
    metas: Seq<Meta>,
    columns: Seq<Column>,
    meta: Meta,
    place: int,
    column: Column,
)
    requires
        tabulated(metas, columns),
        0 <= place <= columns.len(),
        column.kind() == meta,
        column.start() == 1,
        forall|at: int|
            0 <= at < place ==> type_rank((#[trigger] columns[at]).kind().identifier) < type_rank(
                meta.identifier,
            ),
        forall|at: int|
            place <= at < columns.len() ==> type_rank(meta.identifier) < type_rank(
                (#[trigger] columns[at]).kind().identifier,
            ),
    ensures
        tabulated(metas.push(meta), columns.insert(place, column)),
{
    let more = metas.push(meta);
    let after = columns.insert(place, column);
    assert forall|left: int, right: int| 0 <= left < right < after.len() implies type_rank(
        (#[trigger] after[left]).kind().identifier,
    ) < type_rank((#[trigger] after[right]).kind().identifier) by {
        let low = if left > place {
            left - 1
        } else {
            left
        };
        let high = if right > place {
            right - 1
        } else {
            right
        };
        if left != place {
            assert(after[left] == columns[low]);
        }
        if right != place {
            assert(after[right] == columns[high]);
        }
    }
    assert forall|at: int| 0 <= at < after.len() implies (#[trigger] after[at]).start() == 1
        && first_known(more, after[at].kind()) by {
        if at == place {
            let last = metas.len() as int;
            assert(more[last] == meta);
            assert forall|earlier: int| 0 <= earlier < last implies type_rank(
                (#[trigger] more[earlier]).identifier,
            ) != type_rank(meta.identifier) by {
                assert(metas[earlier] == more[earlier]);
                assert(has_type(columns, type_rank(metas[earlier].identifier)));
            }
        } else {
            let from = if at > place {
                at - 1
            } else {
                at
            };
            assert(after[at] == columns[from]);
            let kind = columns[from].kind();
            let first = choose|first: int|
                0 <= first < metas.len() && #[trigger] metas[first] == kind && forall|earlier: int|
                    0 <= earlier < first ==> type_rank((#[trigger] metas[earlier]).identifier)
                        != type_rank(kind.identifier);
            assert(more[first] == kind);
            assert forall|earlier: int| 0 <= earlier < first implies type_rank(
                (#[trigger] more[earlier]).identifier,
            ) != type_rank(kind.identifier) by {
                assert(metas[earlier] == more[earlier]);
            }
        }
    }
    assert forall|at: int| 0 <= at < more.len() implies has_type(
        after,
        type_rank((#[trigger] more[at]).identifier),
    ) by {
        if at < metas.len() {
            assert(metas[at] == more[at]);
            let spot = choose|spot: int|
                0 <= spot < columns.len() && type_rank((#[trigger] columns[spot]).kind().identifier)
                    == type_rank(metas[at].identifier);
            let moved = if spot >= place {
                spot + 1
            } else {
                spot
            };
            assert(after[moved] == columns[spot]);
        } else {
            assert(after[place] == column);
        }
    }
}

fn tabulate(metas: &Vec<Meta>) -> (columns: Vec<Column>)
    ensures
        columns@.len() <= metas@.len(),
        tabulated(metas@, columns@),
{
    let mut columns: Vec<Column> = Vec::new();
    let mut index: usize = 0;
    while index < metas.len()
        invariant
            index <= metas@.len(),
            columns@.len() <= index,
            tabulated(metas@.take(index as int), columns@),
        decreases metas@.len() - index,
    {
        let meta: Meta = metas[index];
        let ghost earlier = metas@.take(index as int);
        assert(metas@.take(index + 1) =~= earlier.push(meta));
        let mut place: usize = 0;
        while place < columns.len() && type_precedes(&columns[place].meta.identifier, &meta.identifier)
            invariant
                place <= columns@.len(),
                forall|at: int|
                    0 <= at < place ==> type_rank((#[trigger] columns@[at]).kind().identifier)
                        < type_rank(meta.identifier),
            ensures
                place < columns@.len() ==> type_rank(columns@[place as int].kind().identifier)
                    >= type_rank(meta.identifier),
            decreases columns@.len() - place,
        {
            place = place + 1;
        }
        if place < columns.len() && type_same(&columns[place].meta.identifier, &meta.identifier) {
            proof {
                lemma_type_kept(earlier, columns@, meta, place as int);
            }
        } else {
            let column: Column = Column { meta, address: 1, marker: PhantomData };
            proof {
                assert forall|at: int| place <= at < columns@.len() implies type_rank(
                    meta.identifier,
                ) < type_rank((#[trigger] columns@[at]).kind().identifier) by {
                    if at > place {
                        assert(type_rank(columns@[place as int].kind().identifier) < type_rank(
                            columns@[at].kind().identifier,
                        ));
                    }
                }
                lemma_type_added(earlier, columns@, meta, place as int, column);
            }
            columns.insert(place, column);
        }
        index = index + 1;
    }
    assert(metas@.take(metas@.len() as int) =~= metas@);
    columns
}

/// Tables.
pub struct Store {
    pub tables: Vec<Table>,
}

impl Store {
    /// No tables yet.
    pub fn new() -> (store: Self)
        ensures
            store.tables@ == Seq::<Table>::empty(),
    {
        Store { tables: Vec::new() }
    }
}

/// What is known of the types of columns.
pub open spec fn kinds(columns: Seq<Column>) -> Seq<Meta> {
    columns.map_values(|column: Column| column.kind())
}

/// The same types, in whatever order and however often they are listed, are the columns of one
/// table, as long as one thing is known of each type.
pub proof fn tables_do_not_depend_on_order(
    left: Seq<Meta>,
    first: Seq<Column>,
    right: Seq<Meta>,
    second: Seq<Column>,
)
    requires
        tabulated(left, first),
        tabulated(right, second),
        forall|meta: Meta| #[trigger] left.contains(meta) == right.contains(meta),
        forall|a: Meta, b: Meta|
            #![trigger type_rank(a.identifier), type_rank(b.identifier)]
            left.contains(a) && left.contains(b) && type_rank(a.identifier) == type_rank(
                b.identifier,
            ) ==> a == b,
    ensures
        kinds(first) == kinds(second),
{
    lemma_tabulated_alike(left, first, right, second);
    lemma_tabulated_alike(right, second, left, first);
    let key = |meta: Meta| (0int, type_rank(meta.identifier));
    assert forall|a: int, b: int| 0 <= a < b < kinds(first).len() implies key_before(
        key(#[trigger] kinds(first)[a]),
        key(#[trigger] kinds(first)[b]),
    ) by {
        assert(type_rank(first[a].kind().identifier) < type_rank(first[b].kind().identifier));
    }
    assert forall|a: int, b: int| 0 <= a < b < kinds(second).len() implies key_before(
        key(#[trigger] kinds(second)[a]),
        key(#[trigger] kinds(second)[b]),
    ) by {
        assert(type_rank(second[a].kind().identifier) < type_rank(second[b].kind().identifier));
    }
    lemma_one_order(kinds(first), kinds(second), key);
}

proof fn lemma_tabulated_alike(
    left: Seq<Meta>,
    first: Seq<Column>,
    right: Seq<Meta>,
    second: Seq<Column>,
)
    requires
        tabulated(left, first),
        tabulated(right, second),
        forall|meta: Meta| #[trigger] left.contains(meta) == right.contains(meta),
        forall|a: Meta, b: Meta|
            #![trigger type_rank(a.identifier), type_rank(b.identifier)]
            left.contains(a) && left.contains(b) && type_rank(a.identifier) == type_rank(
                b.identifier,
            ) ==> a == b,
    ensures
        forall|meta: Meta| #[trigger] kinds(first).contains(meta) ==> kinds(second).contains(meta),
{
    assert forall|meta: Meta| #[trigger] kinds(first).contains(meta) implies kinds(second).contains(
        meta,
    ) by {
        let at = choose|at: int| 0 <= at < kinds(first).len() && kinds(first)[at] == meta;
        assert(first[at].kind() == meta);
        assert(first_known(left, meta));
        let known = choose|known: int| 0 <= known < left.len() && left[known] == meta;
        assert(left.contains(meta));
        assert(right.contains(meta));
        let listed = choose|listed: int| 0 <= listed < right.len() && right[listed] == meta;
        assert(has_type(second, type_rank(right[listed].identifier)));
        let place = choose|place: int|
            0 <= place < second.len() && type_rank((#[trigger] second[place]).kind().identifier)
                == type_rank(meta.identifier);
        let other = second[place].kind();
        assert(first_known(right, other));
        let found = choose|found: int| 0 <= found < right.len() && right[found] == other;
        assert(right.contains(other));
        assert(left.contains(other));
        assert(other == meta);
        assert(kinds(second)[place] == meta);
    }
}

/// A new table has no rows. It has one column for each type of the list that it was made of, in the
/// order of their identifiers, and knows of each what comes first in the list.
pub proof fn tables_have_a_column_for_each_type(
    metas: Vec<Meta>,
    table: Table,
    count: usize,
    identifier: TypeId,
    found: bool,
    place: int,
)
    requires
        call_ensures(Table::new, (&metas,), table),
        call_ensures(Table::count, (&table,), count),
        call_ensures(Table::has, (&table, identifier), found),
    ensures
        count == 0,
        found == exists|at: int|
            0 <= at < metas@.len() && type_rank((#[trigger] metas@[at]).identifier) == type_rank(
                identifier,
            ),
        forall|left: int, right: int|
            0 <= left < right < table.shown().len() ==> type_rank(
                (#[trigger] table.shown()[left]).kind().identifier,
            ) < type_rank((#[trigger] table.shown()[right]).kind().identifier),
        0 <= place < table.shown().len() ==> exists|first: int|
            {
                &&& 0 <= first < metas@.len()
                &&& #[trigger] metas@[first] == table.shown()[place].kind()
                &&& forall|earlier: int|
                    0 <= earlier < first ==> type_rank((#[trigger] metas@[earlier]).identifier)
                        != type_rank(metas@[first].identifier)
            },
{
    let columns = table.shown();
    if 0 <= place < columns.len() {
        assert(first_known(metas@, columns[place].kind()));
        let first = choose|first: int|
            0 <= first < metas@.len() && #[trigger] metas@[first] == columns[place].kind()
                && forall|earlier: int|
                0 <= earlier < first ==> type_rank((#[trigger] metas@[earlier]).identifier)
                    != type_rank(columns[place].kind().identifier);
        assert(metas@[first] == columns[place].kind());
    }
    if found {
        let at = choose|at: int|
            0 <= at < columns.len() && type_rank((#[trigger] columns[at]).kind().identifier)
                == type_rank(identifier);
        assert(first_known(metas@, columns[at].kind()));
    }
    if exists|at: int|
        0 <= at < metas@.len() && type_rank((#[trigger] metas@[at]).identifier) == type_rank(
            identifier,
        ) {
        let at = choose|at: int|
            0 <= at < metas@.len() && type_rank((#[trigger] metas@[at]).identifier) == type_rank(
                identifier,
            );
        assert(has_type(columns, type_rank(metas@[at].identifier)));
    }
}

} // verus!
