//! Schemas: which columns the rows of a table have, and how many rows a page holds.

use crate::depend::{
    number_at, numbered_id, type_id_of, type_precedes, type_rank, type_same, Numbered,
};
use std::any::TypeId;
use triomphe::ThinArc;
use vstd::prelude::*;

verus! {

/// The type of the values of a column.
#[derive(Debug, Clone, Copy, PartialEq, Eq, Structural, PartialOrd, Ord)]
pub enum Type {
    Bool,
    Char,
    U8,
    U16,
    U32,
    U64,
    U128,
    Usize,
    I8,
    I16,
    I32,
    I64,
    I128,
    Isize,
    F32,
    F64,
}

/// Where in a row a column belongs.
#[derive(Debug, Clone, Copy, PartialEq, Eq, Structural, PartialOrd, Ord)]
pub struct Path;

/// A column of a table.
#[derive(Debug, Clone, Copy, PartialEq, Eq, Structural, PartialOrd, Ord)]
pub struct Column {
    pub kind: Type,
    pub path: Path,
}

/// The identifiers of the floating-point types, which are handed in.
pub struct Floats {
    pub single: TypeId,
    pub double: TypeId,
}

/// A layout cannot be had, as its size would be too large.
#[derive(Debug, Clone, Copy, PartialEq, Eq, Structural)]
pub struct LayoutError;

/// The size and the alignment of a block of memory.
#[derive(Debug, Clone, Copy, PartialEq, Eq, Structural)]
pub struct Layout {
    pub size: usize,
    pub align: usize,
}

impl Numbered for bool {
    open spec fn number() -> int {
        Type::Bool.code()
    }
}

impl Numbered for char {
    open spec fn number() -> int {
        Type::Char.code()
    }
}

impl Numbered for u8 {
    open spec fn number() -> int {
        Type::U8.code()
    }
}

impl Numbered for u16 {
    open spec fn number() -> int {
        Type::U16.code()
    }
}

impl Numbered for u32 {
    open spec fn number() -> int {
        Type::U32.code()
    }
}

impl Numbered for u64 {
    open spec fn number() -> int {
        Type::U64.code()
    }
}

impl Numbered for u128 {
    open spec fn number() -> int {
        Type::U128.code()
    }
}

impl Numbered for usize {
    open spec fn number() -> int {
        Type::Usize.code()
    }
}

impl Numbered for i8 {
    open spec fn number() -> int {
        Type::I8.code()
    }
}

impl Numbered for i16 {
    open spec fn number() -> int {
        Type::I16.code()
    }
}

impl Numbered for i32 {
    open spec fn number() -> int {
        Type::I32.code()
    }
}

impl Numbered for i64 {
    open spec fn number() -> int {
        Type::I64.code()
    }
}

impl Numbered for i128 {
    open spec fn number() -> int {
        Type::I128.code()
    }
}

impl Numbered for isize {
    open spec fn number() -> int {
        Type::Isize.code()
    }
}

impl Type {
    /// The code of the type.
    pub open spec fn code(self) -> int {
        match self {
            Type::Bool => 0,
            Type::Char => 1,
            Type::U8 => 2,
            Type::U16 => 3,
            Type::U32 => 4,
            Type::U64 => 5,
            Type::U128 => 6,
            Type::Usize => 7,
            Type::I8 => 8,
            Type::I16 => 9,
            Type::I32 => 10,
            Type::I64 => 11,
            Type::I128 => 12,
            Type::Isize => 13,
            Type::F32 => 14,
            Type::F64 => 15,
        }
    }

    /// Whether values of the type are floating-point numbers.
    pub open spec fn is_float(self) -> bool {
        self == Type::F32 || self == Type::F64
    }

    /// The size of a value in bytes.
    pub open spec fn bytes(self) -> usize {
        match self {
            Type::Bool | Type::U8 | Type::I8 => 1,
            Type::U16 | Type::I16 => 2,
            Type::Char | Type::U32 | Type::I32 | Type::F32 => 4,
            Type::U64 | Type::I64 | Type::F64 => 8,
            Type::U128 | Type::I128 => 16,
            Type::Usize | Type::Isize => vstd::layout::size_of_as_usize::<usize>(),
        }
    }

    /// The alignment of a value in bytes. A floating-point number is aligned as the integer of its
    /// size.
    pub open spec fn alignment(self) -> nat {
        match self {
            Type::Bool => vstd::layout::align_of::<bool>(),
            Type::Char => vstd::layout::align_of::<char>(),
            Type::U8 => vstd::layout::align_of::<u8>(),
            Type::U16 => vstd::layout::align_of::<u16>(),
            Type::U32 | Type::F32 => vstd::layout::align_of::<u32>(),
            Type::U64 | Type::F64 => vstd::layout::align_of::<u64>(),
            Type::U128 => vstd::layout::align_of::<u128>(),
            Type::Usize => vstd::layout::align_of::<usize>(),
            Type::I8 => vstd::layout::align_of::<i8>(),
            Type::I16 => vstd::layout::align_of::<i16>(),
            Type::I32 => vstd::layout::align_of::<i32>(),
            Type::I64 => vstd::layout::align_of::<i64>(),
            Type::I128 => vstd::layout::align_of::<i128>(),
            Type::Isize => vstd::layout::align_of::<isize>(),
        }
    }

    /// The identifier of the type.
    pub open spec fn id(self, floats: Floats) -> TypeId {
        match self {
            Type::Bool => type_id_of::<bool>(),
            Type::Char => type_id_of::<char>(),
            Type::U8 => type_id_of::<u8>(),
            Type::U16 => type_id_of::<u16>(),
            Type::U32 => type_id_of::<u32>(),
            Type::U64 => type_id_of::<u64>(),
            Type::U128 => type_id_of::<u128>(),
            Type::Usize => type_id_of::<usize>(),
            Type::I8 => type_id_of::<i8>(),
            Type::I16 => type_id_of::<i16>(),
            Type::I32 => type_id_of::<i32>(),
            Type::I64 => type_id_of::<i64>(),
            Type::I128 => type_id_of::<i128>(),
            Type::Isize => type_id_of::<isize>(),
            Type::F32 => floats.single,
            Type::F64 => floats.double,
        }
    }

    /// The identifier of the type.
    pub fn identifier(self, floats: &Floats) -> (id: TypeId)
        ensures
            id == self.id(*floats),
            !self.is_float() ==> number_at(type_rank(id)) == self.code(),
    {
        match self {
            Type::Bool => numbered_id::<bool>(),
            Type::Char => numbered_id::<char>(),
            Type::U8 => numbered_id::<u8>(),
            Type::U16 => numbered_id::<u16>(),
            Type::U32 => numbered_id::<u32>(),
            Type::U64 => numbered_id::<u64>(),
            Type::U128 => numbered_id::<u128>(),
            Type::Usize => numbered_id::<usize>(),
            Type::I8 => numbered_id::<i8>(),
            Type::I16 => numbered_id::<i16>(),
            Type::I32 => numbered_id::<i32>(),
            Type::I64 => numbered_id::<i64>(),
            Type::I128 => numbered_id::<i128>(),
            Type::Isize => numbered_id::<isize>(),
            Type::F32 => floats.single,
            Type::F64 => floats.double,
        }
    }

    /// The size of a value in bytes.
    pub fn size(self) -> (size: usize)
        ensures
            size == self.bytes(),
            1 <= size <= 16,
    {
        broadcast use vstd::layout::layout_of_primitives;

        match self {
            Type::Bool | Type::U8 | Type::I8 => 1,
            Type::U16 | Type::I16 => 2,
            Type::Char | Type::U32 | Type::I32 | Type::F32 => 4,
            Type::U64 | Type::I64 | Type::F64 => 8,
            Type::U128 | Type::I128 => 16,
            Type::Usize | Type::Isize => core::mem::size_of::<usize>(),
        }
    }

    fn align(self) -> (align: usize)
        ensures
            align == self.alignment(),
    {
        match self {
            Type::Bool => core::mem::align_of::<bool>(),
            Type::Char => core::mem::align_of::<char>(),
            Type::U8 => core::mem::align_of::<u8>(),
            Type::U16 => core::mem::align_of::<u16>(),
            Type::U32 | Type::F32 => core::mem::align_of::<u32>(),
            Type::U64 | Type::F64 => core::mem::align_of::<u64>(),
            Type::U128 => core::mem::align_of::<u128>(),
            Type::Usize => core::mem::align_of::<usize>(),
            Type::I8 => core::mem::align_of::<i8>(),
            Type::I16 => core::mem::align_of::<i16>(),
            Type::I32 => core::mem::align_of::<i32>(),
            Type::I64 => core::mem::align_of::<i64>(),
            Type::I128 => core::mem::align_of::<i128>(),
            Type::Isize => core::mem::align_of::<isize>(),
        }
    }

    /// The layout of a row of values. There is none where its size would be too large.
    pub fn layout(self, count: usize) -> (layout: Result<Layout, LayoutError>)
        ensures
            match layout {
                Ok(layout) => {
                    &&& count * self.bytes() <= isize::MAX
                    &&& layout.size == count * self.bytes()
                    &&& layout.align == self.alignment()
                },
                Err(_) => count * self.bytes() > isize::MAX,
            },
    {
        let size: usize = self.size();
        match count.checked_mul(size) {
            Some(total) => if total <= isize::MAX as usize {
                Ok(Layout { size: total, align: self.align() })
            } else {
                Err(LayoutError)
            },
            None => Err(LayoutError),
        }
    }

    fn encode(self) -> (code: u8)
        ensures
            code == self.code(),
    {
        match self {
            Type::Bool => 0,
            Type::Char => 1,
            Type::U8 => 2,
            Type::U16 => 3,
            Type::U32 => 4,
            Type::U64 => 5,
            Type::U128 => 6,
            Type::Usize => 7,
            Type::I8 => 8,
            Type::I16 => 9,
            Type::I32 => 10,
            Type::I64 => 11,
            Type::I128 => 12,
            Type::Isize => 13,
            Type::F32 => 14,
            Type::F64 => 15,
        }
    }

    fn decode(code: u8) -> (kind: Type)
        requires
            code < 16,
        ensures
            kind.code() == code,
    {
        match code {
            0 => Type::Bool,
            1 => Type::Char,
            2 => Type::U8,
            3 => Type::U16,
            4 => Type::U32,
            5 => Type::U64,
            6 => Type::U128,
            7 => Type::Usize,
            8 => Type::I8,
            9 => Type::I16,
            10 => Type::I32,
            11 => Type::I64,
            12 => Type::I128,
            13 => Type::Isize,
            14 => Type::F32,
            _ => Type::F64,
        }
    }
}

impl Column {
    /// What columns are ordered by: the size of their values, and their types where these are
    /// equally large.
    pub open spec fn key(self, floats: Floats) -> (int, int) {
        (self.kind.bytes() as int, type_rank(self.kind.id(floats)))
    }
}

/// Whether a key comes before another.
pub open spec fn key_before(left: (int, int), right: (int, int)) -> bool {
    left.0 < right.0 || left.0 == right.0 && left.1 < right.1
}

/// Whether columns come in the order of their keys, none of which comes twice.
pub open spec fn key_sorted(columns: Seq<Column>, floats: Floats) -> bool {
    forall|left: int, right: int|
        0 <= left < right < columns.len() ==> key_before(
            #[trigger] columns[left].key(floats),
            #[trigger] columns[right].key(floats),
        )
}

/// Whether columns are, in order, those of a list, without those whose keys came before.
pub open spec fn arranged(list: Seq<Column>, columns: Seq<Column>, floats: Floats) -> bool {
    &&& key_sorted(columns, floats)
    &&& forall|at: int| 0 <= at < columns.len() ==> list.contains(#[trigger] columns[at])
    &&& forall|at: int|
        0 <= at < list.len() ==> has_key(columns, #[trigger] list[at].key(floats), floats)
}

/// Whether a column has the given key.
pub open spec fn has_key(columns: Seq<Column>, key: (int, int), floats: Floats) -> bool {
    exists|place: int|
        0 <= place < columns.len() && #[trigger] columns[place].key(floats) == key
}

/// How many rows a page of the given size holds: as many as there is room for values of the last
/// column, which is the widest.
pub open spec fn capacity_of(page: usize, columns: Seq<Column>) -> u32 {
    if columns.len() == 0 {
        u32::MAX
    } else {
        let rows = page as int / columns.last().kind.bytes() as int;
        if rows <= u32::MAX {
            rows as u32
        } else {
            u32::MAX
        }
    }
}

/// Where a column belongs among others, and whether its key is there already.
fn find_place(columns: &Vec<Column>, column: Column, floats: &Floats) -> (found: (usize, bool))
    requires
        key_sorted(columns@, *floats),
    ensures
        found.0 <= columns@.len(),
        forall|earlier: int|
            0 <= earlier < found.0 ==> key_before(
                #[trigger] columns@[earlier].key(*floats),
                column.key(*floats),
            ),
        found.1 ==> found.0 < columns@.len() && columns@[found.0 as int].key(*floats) == column.key(
            *floats,
        ),
        !found.1 ==> forall|later: int|
            found.0 <= later < columns@.len() ==> key_before(
                column.key(*floats),
                #[trigger] columns@[later].key(*floats),
            ),
{
    let size: usize = column.kind.size();
    let id: TypeId = column.kind.identifier(floats);
    let mut place: usize = 0;
    while place < columns.len()
        invariant
            place <= columns@.len(),
            key_sorted(columns@, *floats),
            size == column.kind.bytes(),
            id == column.kind.id(*floats),
            forall|earlier: int|
                0 <= earlier < place ==> key_before(
                    #[trigger] columns@[earlier].key(*floats),
                    column.key(*floats),
                ),
        decreases columns@.len() - place,
    {
        let other: Column = columns[place];
        let other_size: usize = other.kind.size();
        let other_id: TypeId = other.kind.identifier(floats);
        if other_size < size || (other_size == size && type_precedes(&other_id, &id)) {
            place = place + 1;
        } else {
            let present: bool = other_size == size && type_same(&other_id, &id);
            proof {
                let key = columns@[place as int].key(*floats);
                assert forall|later: int| !present && place <= later < columns@.len() implies key_before(
                    column.key(*floats),
                    #[trigger] columns@[later].key(*floats),
                ) by {
                    assert(key_before(column.key(*floats), key));
                    if later > place {
                        assert(key_before(key, columns@[later].key(*floats)));
                    }
                }
            }
            return (place, present);
        }
    }
    (place, false)
}

proof fn lemma_key_kept(
    list: Seq<Column>,
    columns: Seq<Column>,
    column: Column,
    floats: Floats,
    place: int,
)
    requires
        arranged(list, columns, floats),
        0 <= place < columns.len(),
        columns[place].key(floats) == column.key(floats),
    ensures
        arranged(list.push(column), columns, floats),
{
    let more = list.push(column);
    assert forall|at: int| 0 <= at < more.len() implies has_key(
        columns,
        #[trigger] more[at].key(floats),
        floats,
    ) by {
        if at < list.len() {
            assert(more[at] == list[at]);
            assert(has_key(columns, list[at].key(floats), floats));
        } else {
            assert(columns[place].key(floats) == more[at].key(floats));
        }
    }
    assert forall|at: int| 0 <= at < columns.len() implies more.contains(#[trigger] columns[at]) by {
        let spot = choose|spot: int| 0 <= spot < list.len() && list[spot] == columns[at];
        assert(more[spot] == columns[at]);
    }
}

proof fn lemma_key_added(
    list: Seq<Column>,
    columns: Seq<Column>,
    column: Column,
    floats: Floats,
    place: int,
)
    requires
        arranged(list, columns, floats),
        0 <= place <= columns.len(),
        forall|earlier: int|
            0 <= earlier < place ==> key_before(
                #[trigger] columns[earlier].key(floats),
                column.key(floats),
            ),
        forall|later: int|
            place <= later < columns.len() ==> key_before(
                column.key(floats),
                #[trigger] columns[later].key(floats),
            ),
    ensures
        arranged(list.push(column), columns.insert(place, column), floats),
{
    let more = list.push(column);
    let after = columns.insert(place, column);
    assert forall|at: int| 0 <= at < more.len() implies has_key(
        after,
        #[trigger] more[at].key(floats),
        floats,
    ) by {
        if at < list.len() {
            assert(more[at] == list[at]);
            assert(has_key(columns, list[at].key(floats), floats));
            let spot = choose|spot: int|
                0 <= spot < columns.len() && #[trigger] columns[spot].key(floats) == list[at].key(
                    floats,
                );
            let moved = if spot >= place {
                spot + 1
            } else {
                spot
            };
            assert(after[moved] == columns[spot]);
            assert(after[moved].key(floats) == more[at].key(floats));
        } else {
            assert(after[place].key(floats) == more[at].key(floats));
        }
    }
    assert forall|at: int| 0 <= at < after.len() implies more.contains(#[trigger] after[at]) by {
        if at == place {
            assert(more[list.len() as int] == column);
        } else {
            let from = if at > place {
                at - 1
            } else {
                at
            };
            assert(after[at] == columns[from]);
            let spot = choose|spot: int| 0 <= spot < list.len() && list[spot] == columns[from];
            assert(more[spot] == columns[from]);
        }
    }
    assert forall|left: int, right: int| 0 <= left < right < after.len() implies key_before(
        #[trigger] after[left].key(floats),
        #[trigger] after[right].key(floats),
    ) by {
        let low = if left > place {
            left - 1
        } else {
            left
        };
        let high = if right > place {
            right - 1
        } else {
            right
        };
        if left != place {
            assert(after[left] == columns[low]);
            assert(columns[low].key(floats) == after[left].key(floats));
        }
        if right != place {
            assert(after[right] == columns[high]);
            assert(columns[high].key(floats) == after[right].key(floats));
        }
    }
}

fn arrange(list: &Vec<Column>, floats: &Floats) -> (columns: Vec<Column>)
    ensures
        arranged(list@, columns@, *floats),
{
    let mut columns: Vec<Column> = Vec::new();
    let mut index: usize = 0;
    while index < list.len()
        invariant
            index <= list@.len(),
            arranged(list@.take(index as int), columns@, *floats),
        decreases list@.len() - index,
    {
        let column: Column = list[index];
        let (place, present) = find_place(&columns, column, floats);
        let ghost earlier = list@.take(index as int);
        assert(list@.take(index + 1) =~= earlier.push(column));
        if present {
            proof {
                lemma_key_kept(earlier, columns@, column, *floats, place as int);
            }
        } else {
            proof {
                lemma_key_added(earlier, columns@, column, *floats, place as int);
            }
            columns.insert(place, column);
        }
        index = index + 1;
    }
    assert(list@.take(list@.len() as int) =~= list@);
    columns
}

proof fn lemma_few_columns(list: Seq<Column>, columns: Seq<Column>, floats: Floats)
    requires
        arranged(list, columns, floats),
    ensures
        columns.len() <= 16,
{
    let codes = Seq::new(columns.len(), |at: int| columns[at].kind.code());
    assert forall|left: int, right: int|
        0 <= left < codes.len() && 0 <= right < codes.len() && left != right implies codes[left]
        != codes[right] by {
        if codes[left] == codes[right] {
            assert(columns[left].kind == columns[right].kind);
            assert(columns[left].key(floats) == columns[right].key(floats));
        }
    }
    codes.unique_seq_to_set();
    let range = vstd::set_lib::set_int_range(0, 16);
    vstd::set_lib::lemma_int_range(0, 16);
    assert(codes.to_set().subset_of(range));
    vstd::set_lib::lemma_len_subset(codes.to_set(), range);
}

/// [`ThinArc`] is carried as an opaque value.
#[verifier::external_type_specification]
#[verifier::external_body]
#[verifier::reject_recursive_types(H)]
#[verifier::reject_recursive_types(T)]
pub struct ExThinArc<H, T>(ThinArc<H, T>);

/// The number that stands in the header of a shared list.
pub uninterp spec fn thin_header(list: ThinArc<u32, u8>) -> u32;

/// The numbers of a shared list.
pub uninterp spec fn thin_items(list: ThinArc<u32, u8>) -> Seq<u8>;

/// Calls [`ThinArc::from_header_and_iter`], which makes a shared list of the header and of the
/// items, in their order. It panics where they are more than memory can hold.
#[verifier::external_body]
fn thin_new(header: u32, items: Vec<u8>) -> (list: ThinArc<u32, u8>)
    requires
        items@.len() <= 16,
    ensures
        thin_header(list) == header,
        thin_items(list) == items@,
{
    ThinArc::from_header_and_iter(header, items.into_iter())
}

/// Reads the header of a [`ThinArc`].
#[verifier::external_body]
fn thin_head(list: &ThinArc<u32, u8>) -> (header: u32)
    ensures
        header == thin_header(*list),
{
    list.header.header
}

/// Reads the items of a [`ThinArc`].
#[verifier::external_body]
fn thin_slice(list: &ThinArc<u32, u8>) -> (items: Vec<u8>)
    ensures
        items@ == thin_items(*list),
{
    list.slice.to_vec()
}

/// The columns of a table, and how many rows a page of it holds.
pub struct Schema {
    list: ThinArc<u32, u8>,
}

impl Schema {
    #[verifier::type_invariant]
    spec fn sound(self) -> bool {
        forall|at: int| 0 <= at < thin_items(self.list).len() ==> #[trigger] thin_items(
            self.list,
        )[at] < 16
    }

    /// How many rows a page holds.
    pub closed spec fn rows(self) -> u32 {
        thin_header(self.list)
    }

    /// Whether the columns of the schema are the given ones.
    pub closed spec fn shows(self, columns: Seq<Column>) -> bool {
        &&& thin_items(self.list).len() == columns.len()
        &&& forall|at: int|
            0 <= at < columns.len() ==> #[trigger] thin_items(self.list)[at]
                == columns[at].kind.code()
    }

    /// Whether the schema was made of a list of columns, for pages of the given size.
    pub open spec fn made_of(self, page: usize, list: Seq<Column>, floats: Floats) -> bool {
        exists|columns: Seq<Column>| #[trigger]
            self.shows(columns) && arranged(list, columns, floats) && self.rows() == capacity_of(
                page,
                columns,
            )
    }

    /// The schema of the given columns, for pages of the given size.
    pub fn with_page_size(page: usize, columns: &Vec<Column>, floats: &Floats) -> (schema: Self)
        ensures
            schema.made_of(page, columns@, *floats),
    {
        let arranged_columns: Vec<Column> = arrange(columns, floats);
        let count: usize = arranged_columns.len();
        let mut capacity: u32 = u32::MAX;
        if count > 0 {
            let size: usize = arranged_columns[count - 1].kind.size();
            let rows: usize = page / size;
            if rows as u64 <= u32::MAX as u64 {
                capacity = rows as u32;
            }
        }
        let mut codes: Vec<u8> = Vec::new();
        let mut index: usize = 0;
        while index < count
            invariant
                index <= count == arranged_columns@.len(),
                codes@.len() == index,
                forall|at: int|
                    0 <= at < index ==> #[trigger] codes@[at] == arranged_columns@[at].kind.code(),
            decreases count - index,
        {
            codes.push(arranged_columns[index].kind.encode());
            index = index + 1;
        }
        proof {
            lemma_few_columns(columns@, arranged_columns@, *floats);
        }
        let list = thin_new(capacity, codes);
        assert forall|at: int| 0 <= at < thin_items(list).len() implies #[trigger] thin_items(
            list,
        )[at] < 16 by {
            assert(codes@[at] == arranged_columns@[at].kind.code());
        }
        let schema = Schema { list };
        assert(schema.shows(arranged_columns@));
        schema
    }

    /// The schema of the given columns, for pages of the machine's own size, which is what
    /// [`page_size::get`] returns.
    pub fn new(columns: &Vec<Column>, floats: &Floats) -> (schema: Self)
        ensures
            exists|page: usize| #[trigger]
                schema.made_of(page, columns@, *floats) && call_ensures(page_size::get, (), page),
    {
        let page: usize = page_size::get();
        Schema::with_page_size(page, columns, floats)
    }

    /// How many rows a page holds.
    pub fn capacity(&self) -> (capacity: u32)
        ensures
            capacity == self.rows(),
    {
        thin_head(&self.list)
    }

    /// The columns, in order.
    pub fn columns(&self) -> (columns: Vec<Column>)
        ensures
            self.shows(columns@),
    {
        proof {
            use_type_invariant(self);
        }
        let codes: Vec<u8> = thin_slice(&self.list);
        let mut columns: Vec<Column> = Vec::new();
        let mut index: usize = 0;
        while index < codes.len()
            invariant
                index <= codes@.len(),
                codes@ == thin_items(self.list),
                self.sound(),
                columns@.len() == index,
                forall|at: int|
                    0 <= at < index ==> #[trigger] thin_items(self.list)[at]
                        == columns@[at].kind.code(),
            decreases codes@.len() - index,
        {
            assert(thin_items(self.list)[index as int] < 16);
            columns.push(Column { kind: Type::decode(codes[index]), path: Path });
            index = index + 1;
        }
        columns
    }
}

/// A schema has one list of columns.
pub proof fn schemas_show_their_columns(schema: Schema, left: Seq<Column>, right: Seq<Column>)
    requires
        schema.shows(left),
        schema.shows(right),
    ensures
        left == right,
{
    assert forall|at: int| 0 <= at < left.len() implies left[at] == right[at] by {
        assert(thin_items(schema.list)[at] == left[at].kind.code());
        assert(left[at].path == right[at].path);
    }
    assert(left =~= right);
}

/// As many values as a page holds rows fit into a page, whichever column they are of.
pub proof fn rows_fit_a_page(
    page: usize,
    list: Seq<Column>,
    columns: Seq<Column>,
    floats: Floats,
    at: int,
)
    requires
        arranged(list, columns, floats),
        0 <= at < columns.len(),
    ensures
        capacity_of(page, columns) * columns[at].kind.bytes() <= page,
{
    broadcast use vstd::layout::layout_of_primitives;

    let last = columns.len() - 1;
    let width = columns[last].kind.bytes() as int;
    let size = columns[at].kind.bytes() as int;
    let rows = page as int / width;
    if at < last {
        assert(key_before(columns[at].key(floats), columns[last].key(floats)));
    }
    assert(1 <= size <= width);
    let capacity = capacity_of(page, columns) as int;
    assert(capacity <= rows);
    assert(capacity * size <= rows * width && rows * width <= page) by (nonlinear_arith)
        requires
            0 <= capacity <= rows,
            1 <= size <= width,
            rows == page as int / width,
            0 <= page,
    ;
}

/// Lists that have the same items, each in the order of their keys, are the same.
pub(crate) proof fn lemma_one_order<A>(left: Seq<A>, right: Seq<A>, key: spec_fn(A) -> (int, int))
    requires
        forall|a: int, b: int|
            0 <= a < b < left.len() ==> key_before(key(#[trigger] left[a]), key(#[trigger] left[b])),
        forall|a: int, b: int|
            0 <= a < b < right.len() ==> key_before(
                key(#[trigger] right[a]),
                key(#[trigger] right[b]),
            ),
        forall|item: A| #[trigger] left.contains(item) == right.contains(item),
    ensures
        left == right,
    decreases left.len(),
{
    if left.len() == 0 {
        if right.len() > 0 {
            assert(right.contains(right[0]));
            assert(left.contains(right[0]));
        }
        assert(left =~= right);
    } else {
        let last = left.last();
        assert(left.contains(last));
        assert(right.contains(last));
        let at = choose|at: int| 0 <= at < right.len() && right[at] == last;
        assert(right.contains(right.last()));
        assert(left.contains(right.last()));
        let place = choose|place: int| 0 <= place < left.len() && left[place] == right.last();
        if at < right.len() - 1 {
            assert(key_before(key(right[at]), key(right[right.len() - 1])));
            if place < left.len() - 1 {
                assert(key_before(key(left[place]), key(left[left.len() - 1])));
            }
        }
        assert(right.last() == last);
        let before = left.drop_last();
        let others = right.drop_last();
        assert forall|item: A| #[trigger] before.contains(item) == others.contains(item) by {
            if before.contains(item) {
                let index = choose|index: int| 0 <= index < before.len() && before[index] == item;
                assert(left[index] == item);
                assert(left.contains(item));
                assert(right.contains(item));
                let found = choose|found: int| 0 <= found < right.len() && right[found] == item;
                assert(key_before(key(left[index]), key(left[left.len() - 1])));
                assert(others[found] == item);
            }
            if others.contains(item) {
                let index = choose|index: int| 0 <= index < others.len() && others[index] == item;
                assert(right[index] == item);
                assert(right.contains(item));
                assert(left.contains(item));
                let found = choose|found: int| 0 <= found < left.len() && left[found] == item;
                assert(key_before(key(right[index]), key(right[right.len() - 1])));
                assert(before[found] == item);
            }
        }
        lemma_one_order(before, others, key);
        assert(left =~= before.push(last));
        assert(right =~= others.push(last));
    }
}

/// The same columns, in whatever order and however often they are listed, are arranged in one way,
/// as long as different columns have different keys.
pub proof fn schemas_do_not_depend_on_order(
    left: Seq<Column>,
    first: Seq<Column>,
    right: Seq<Column>,
    second: Seq<Column>,
    floats: Floats,
)
    requires
        arranged(left, first, floats),
        arranged(right, second, floats),
        forall|column: Column| #[trigger] left.contains(column) == right.contains(column),
        forall|a: Column, b: Column|
            #![trigger a.key(floats), b.key(floats)]
            left.contains(a) && left.contains(b) && a.key(floats) == b.key(floats) ==> a == b,
    ensures
        first == second,
{
    lemma_arranged_alike(left, first, right, second, floats);
    lemma_arranged_alike(right, second, left, first, floats);
    lemma_one_order(first, second, |column: Column| column.key(floats));
}

proof fn lemma_arranged_alike(
    left: Seq<Column>,
    first: Seq<Column>,
    right: Seq<Column>,
    second: Seq<Column>,
    floats: Floats,
)
    requires
        arranged(left, first, floats),
        arranged(right, second, floats),
        forall|column: Column| #[trigger] left.contains(column) == right.contains(column),
        forall|a: Column, b: Column|
            #![trigger a.key(floats), b.key(floats)]
            left.contains(a) && left.contains(b) && a.key(floats) == b.key(floats) ==> a == b,
    ensures
        forall|column: Column| #[trigger] first.contains(column) ==> second.contains(column),
{
    assert forall|column: Column| #[trigger] first.contains(column) implies second.contains(
        column,
    ) by {
        let at = choose|at: int| 0 <= at < first.len() && first[at] == column;
        assert(left.contains(first[at]));
        assert(right.contains(column));
        let listed = choose|listed: int| 0 <= listed < right.len() && right[listed] == column;
        assert(has_key(second, right[listed].key(floats), floats));
        let place = choose|place: int|
            0 <= place < second.len() && #[trigger] second[place].key(floats) == column.key(floats);
        assert(right.contains(second[place]));
        assert(left.contains(second[place]));
        assert(second[place] == column);
    }
}

/// Different types have different identifiers. Those of the floating-point types are handed in, and
/// are left out here.
pub proof fn identifiers_tell_types_apart(
    first: Type,
    second: Type,
    floats: Floats,
    left: TypeId,
    right: TypeId,
)
    requires
        !first.is_float(),
        !second.is_float(),
        call_ensures(Type::identifier, (first, &floats), left),
        call_ensures(Type::identifier, (second, &floats), right),
    ensures
        (left == right) == (first == second),
        (type_rank(left) == type_rank(right)) == (first == second),
{
}

/// The size that the language gives to the values of a type. Floating-point numbers are as large as
/// the integers of their width.
pub open spec fn language_size(kind: Type) -> nat {
    match kind {
        Type::Bool => vstd::layout::size_of::<bool>(),
        Type::Char => vstd::layout::size_of::<char>(),
        Type::U8 => vstd::layout::size_of::<u8>(),
        Type::U16 => vstd::layout::size_of::<u16>(),
        Type::U32 => vstd::layout::size_of::<u32>(),
        Type::U64 => vstd::layout::size_of::<u64>(),
        Type::U128 => vstd::layout::size_of::<u128>(),
        Type::Usize => vstd::layout::size_of::<usize>(),
        Type::I8 => vstd::layout::size_of::<i8>(),
        Type::I16 => vstd::layout::size_of::<i16>(),
        Type::I32 => vstd::layout::size_of::<i32>(),
        Type::I64 => vstd::layout::size_of::<i64>(),
        Type::I128 => vstd::layout::size_of::<i128>(),
        Type::Isize => vstd::layout::size_of::<isize>(),
        Type::F32 => vstd::layout::size_of::<u32>(),
        Type::F64 => vstd::layout::size_of::<u64>(),
    }
}

/// The alignment that the language gives to the values of a type.
pub open spec fn language_align(kind: Type) -> nat {
    match kind {
        Type::Bool => vstd::layout::align_of::<bool>(),
        Type::Char => vstd::layout::align_of::<char>(),
        Type::U8 => vstd::layout::align_of::<u8>(),
        Type::U16 => vstd::layout::align_of::<u16>(),
        Type::U32 => vstd::layout::align_of::<u32>(),
        Type::U64 => vstd::layout::align_of::<u64>(),
        Type::U128 => vstd::layout::align_of::<u128>(),
        Type::Usize => vstd::layout::align_of::<usize>(),
        Type::I8 => vstd::layout::align_of::<i8>(),
        Type::I16 => vstd::layout::align_of::<i16>(),
        Type::I32 => vstd::layout::align_of::<i32>(),
        Type::I64 => vstd::layout::align_of::<i64>(),
        Type::I128 => vstd::layout::align_of::<i128>(),
        Type::Isize => vstd::layout::align_of::<isize>(),
        Type::F32 => vstd::layout::align_of::<u32>(),
        Type::F64 => vstd::layout::align_of::<u64>(),
    }
}

/// The size of the values of a column is the one that the language gives to their type.
pub proof fn sizes_are_those_of_the_language(kind: Type, size: usize)
    requires
        call_ensures(Type::size, (kind,), size),
    ensures
        size == language_size(kind),
        match kind {
            Type::Bool | Type::U8 | Type::I8 => size == 1,
            Type::U16 | Type::I16 => size == 2,
            Type::Char | Type::U32 | Type::I32 | Type::F32 => size == 4,
            Type::U64 | Type::I64 | Type::F64 => size == 8,
            Type::U128 | Type::I128 => size == 16,
            Type::Usize | Type::Isize => size == usize::BITS / 8,
        },
{
    broadcast use vstd::layout::layout_of_primitives;

}

/// A block of values of a type is as large as that many values, and aligned as one. It cannot be had
/// exactly where it would be larger than memory can be.
pub proof fn blocks_are_as_large_as_their_values(
    kind: Type,
    count: usize,
    size: usize,
    layout: Result<Layout, LayoutError>,
)
    requires
        call_ensures(Type::size, (kind,), size),
        call_ensures(Type::layout, (kind, count), layout),
    ensures
        layout is Ok == (count * size <= isize::MAX),
        layout matches Ok(layout) ==> layout.size == count * size && layout.align
            == language_align(kind),
{
}

/// The identifier of the type of a column is that of the type it stands for, or the one that was
/// handed in for it.
pub proof fn identifiers_are_those_of_the_language(kind: Type, floats: Floats, id: TypeId)
    requires
        call_ensures(Type::identifier, (kind, &floats), id),
    ensures
        match kind {
            Type::Bool => id == type_id_of::<bool>(),
            Type::Char => id == type_id_of::<char>(),
            Type::U8 => id == type_id_of::<u8>(),
            Type::U16 => id == type_id_of::<u16>(),
            Type::U32 => id == type_id_of::<u32>(),
            Type::U64 => id == type_id_of::<u64>(),
            Type::U128 => id == type_id_of::<u128>(),
            Type::Usize => id == type_id_of::<usize>(),
            Type::I8 => id == type_id_of::<i8>(),
            Type::I16 => id == type_id_of::<i16>(),
            Type::I32 => id == type_id_of::<i32>(),
            Type::I64 => id == type_id_of::<i64>(),
            Type::I128 => id == type_id_of::<i128>(),
            Type::Isize => id == type_id_of::<isize>(),
            Type::F32 => id == floats.single,
            Type::F64 => id == floats.double,
        },
{
}

/// A page holds as many rows as fit: as many values of each column as there are rows fit into it, and
/// of some column no more, unless there are as many rows as can be counted.
pub proof fn pages_hold_as_many_rows_as_fit(
    page: usize,
    list: Vec<Column>,
    floats: Floats,
    schema: Schema,
    rows: u32,
)
    requires
        call_ensures(Schema::with_page_size, (page, &list, &floats), schema),
        call_ensures(Schema::capacity, (&schema,), rows),
    ensures
        forall|at: int|
            0 <= at < list@.len() ==> rows * language_size((#[trigger] list@[at]).kind) <= page,
        rows == u32::MAX || exists|at: int|
            0 <= at < list@.len() && (rows + 1) * language_size((#[trigger] list@[at]).kind) > page,
{
    broadcast use vstd::layout::layout_of_primitives;

    let columns = choose|columns: Seq<Column>| #[trigger]
        schema.shows(columns) && arranged(list@, columns, floats) && schema.rows() == capacity_of(
            page,
            columns,
        );
    assert forall|kind: Type| #[trigger] language_size(kind) == kind.bytes() by {}
    assert forall|at: int| 0 <= at < list@.len() implies rows * language_size(
        (#[trigger] list@[at]).kind,
    ) <= page by {
        assert(has_key(columns, list@[at].key(floats), floats));
        let place = choose|place: int|
            0 <= place < columns.len() && #[trigger] columns[place].key(floats) == list@[at].key(
                floats,
            );
        rows_fit_a_page(page, list@, columns, floats, place);
        assert(columns[place].kind.bytes() == list@[at].kind.bytes());
        assert(language_size(list@[at].kind) == list@[at].kind.bytes());
    }
    if rows != u32::MAX {
        let last = columns.len() - 1;
        let width = columns[last].kind.bytes() as int;
        assert(list@.contains(columns[last]));
        let at = choose|at: int| 0 <= at < list@.len() && list@[at] == columns[last];
        assert(language_size(list@[at].kind) == width);
        assert((rows + 1) * width > page) by (nonlinear_arith)
            requires
                rows == page as int / width,
                width >= 1,
                page >= 0,
        ;
        assert((rows + 1) * language_size(list@[at].kind) > page);
    }
}

/// The columns of a schema are among those that were listed, and come in the order of their sizes,
/// those of one size in the order of their identifiers, each once. None that was listed is missing.
pub proof fn schemas_have_the_listed_columns(
    page: usize,
    list: Vec<Column>,
    floats: Floats,
    schema: Schema,
    columns: Vec<Column>,
)
    requires
        call_ensures(Schema::with_page_size, (page, &list, &floats), schema),
        call_ensures(Schema::columns, (&schema,), columns),
    ensures
        forall|at: int| 0 <= at < columns@.len() ==> list@.contains(#[trigger] columns@[at]),
        forall|at: int|
            0 <= at < list@.len() ==> exists|place: int|
                0 <= place < columns@.len() && language_size((#[trigger] columns@[place]).kind)
                    == language_size((#[trigger] list@[at]).kind) && type_rank(
                    columns@[place].kind.id(floats),
                ) == type_rank(list@[at].kind.id(floats)),
        forall|left: int, right: int|
            0 <= left < right < columns@.len() ==> {
                let first = (#[trigger] columns@[left]).kind;
                let second = (#[trigger] columns@[right]).kind;
                ||| language_size(first) < language_size(second)
                ||| language_size(first) == language_size(second) && type_rank(first.id(floats))
                    < type_rank(second.id(floats))
            },
{
    broadcast use vstd::layout::layout_of_primitives;

    let shown = choose|columns: Seq<Column>| #[trigger]
        schema.shows(columns) && arranged(list@, columns, floats) && schema.rows() == capacity_of(
            page,
            columns,
        );
    schemas_show_their_columns(schema, shown, columns@);
    assert forall|kind: Type| #[trigger] language_size(kind) == kind.bytes() by {}
    assert forall|at: int| 0 <= at < list@.len() implies exists|place: int|
        0 <= place < columns@.len() && language_size((#[trigger] columns@[place]).kind)
            == language_size((#[trigger] list@[at]).kind) && type_rank(
            columns@[place].kind.id(floats),
        ) == type_rank(list@[at].kind.id(floats)) by {
        assert(has_key(shown, list@[at].key(floats), floats));
        let place = choose|place: int|
            0 <= place < shown.len() && #[trigger] shown[place].key(floats) == list@[at].key(floats);
        assert(language_size(columns@[place].kind) == language_size(list@[at].kind));
    }
    assert forall|left: int, right: int| 0 <= left < right < columns@.len() implies ({
        let first = (#[trigger] columns@[left]).kind;
        let second = (#[trigger] columns@[right]).kind;
        ||| language_size(first) < language_size(second)
        ||| language_size(first) == language_size(second) && type_rank(first.id(floats))
            < type_rank(second.id(floats))
    }) by {
        assert(key_before(columns@[left].key(floats), columns@[right].key(floats)));
    }
}

} // verus!
