//! Schemas: the columns of a tuple, with their types and inline offsets.

use vstd::prelude::*;

verus! {

/// The type of a column.
#[derive(PartialEq, Eq, Structural, Clone, Copy, Debug)]
pub enum Type {
    TinyInt,
    Bool,
    Int,
    BigInt,
    Varchar,
}

impl Type {
    /// Number of bytes that a column of this type takes inline: the value
    /// itself, or for a varchar the offset and length of its payload.
    pub open spec fn spec_size(self) -> nat {
        match self {
            Type::TinyInt => 1,
            Type::Bool => 1,
            Type::Int => 4,
            Type::BigInt => 8,
            Type::Varchar => 4,
        }
    }

    /// Number of bytes that a column of this type takes inline.
    pub fn size(self) -> (n: usize)
        ensures
            n == self.spec_size(),
    {
        match self {
            Type::TinyInt => 1,
            Type::Bool => 1,
            Type::Int => 4,
            Type::BigInt => 8,
            Type::Varchar => 4,
        }
    }
}

/// A column: its name, its type, and where its inline bytes start in a tuple.
#[derive(PartialEq, Eq, Clone, Debug)]
pub struct Column {
    pub name: String,
    pub ty: Type,
    pub offset: usize,
}

impl Column {
    /// Number of bytes that the column takes inline.
    pub fn size(&self) -> (n: usize)
        ensures
            n == self.ty.spec_size(),
    {
        self.ty.size()
    }
}

/// The columns of a tuple, in order.
#[derive(PartialEq, Eq, Clone, Debug)]
pub struct Schema {
    columns: Vec<Column>,
}

impl Schema {
    /// The columns, in order.
    pub closed spec fn view(&self) -> Seq<Column> {
        self.columns@
    }

    /// The schema of `columns`.
    pub fn new(columns: Vec<Column>) -> (schema: Schema)
        ensures
            schema@ == columns@,
    {
        Schema { columns }
    }

    /// Number of columns.
    pub fn len(&self) -> (n: usize)
        ensures
            n == self@.len(),
    {
        self.columns.len()
    }

    /// Column `i`.
    pub fn column(&self, i: usize) -> (c: &Column)
        requires
            i < self@.len(),
        ensures
            *c == self@[i as int],
    {
        &self.columns[i]
    }
}

} // verus!
