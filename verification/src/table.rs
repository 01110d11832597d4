//! What a table keeps track of while its columns are read and written.

use vstd::prelude::*;

verus! {

/// A type whose values can stand in a column.
pub trait Column {

}

impl Column for usize {

}

/// What identifies a row.
pub struct Key;

/// What identifies the rows of a store.
pub struct Keys;

/// A way to find rows by the values of a column.
pub struct Index;

/// The ways to find rows of a store.
pub struct Indexes;

/// The schemas of a store.
pub struct Schemas;

/// How many rows a table has and has room for, and how its columns are used. Each bit of a mask
/// stands for the columns whose numbers have it as their remainder.
pub struct State {
    pub count: u32,
    pub capacity: u32,
    pub read_count: u32,
    pub read_mask: u64,
    pub write_mask: u64,
    pub copy_mask: u64,
    pub data: usize,
}

} // verus!
