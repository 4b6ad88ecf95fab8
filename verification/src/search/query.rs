//! Queries as trees.
//!
//! A query is a tree of clauses over leaves. A leaf tests one column of a
//! row. A relation leaf tests a column that refers to a row of another
//! sheet: it matches the rows whose column refers to a row that the inner
//! query matches there.

use vstd::prelude::*;

verus! {

/// A query: a leaf, or a clause over further queries.
#[derive(Debug, PartialEq, Eq)]
pub enum Node {
    Clause(Clause),
    Leaf(Leaf),
}

/// A list of queries, each with the way in which it counts.
#[derive(Debug, PartialEq, Eq)]
pub struct Clause {
    pub nodes: Vec<(Occur, Node)>,
}

/// How a query of a clause counts.
#[derive(Debug, Clone, Copy, PartialEq, Eq)]
pub enum Occur {
    /// A row has to match it.
    Must,
    /// A row that matches it ranks higher.
    Should,
    /// A row must not match it.
    MustNot,
}

/// A test of the column at a byte offset within a row.
#[derive(Debug, PartialEq, Eq)]
pub struct Leaf {
    pub offset: u32,
    pub operation: Operation,
}

/// What a leaf tests of its column.
#[derive(Debug, PartialEq, Eq)]
pub enum Operation {
    /// The column refers to a row that matches a query in another sheet.
    Relation(Relation),
    /// The column holds the value.
    Equal(Value),
}

/// A query into the sheet that a column refers to.
#[derive(Debug, PartialEq, Eq)]
pub struct Relation {
    /// The sheet referred to.
    pub target: String,
    /// A test on the referring row that says whether the reference holds.
    pub condition: Option<Box<Node>>,
    /// The query that the row referred to has to match.
    pub query: Box<Node>,
}

/// A value that a column is tested against.
#[derive(Debug, Clone, Copy, PartialEq, Eq)]
pub enum Value {
    UInt(u64),
}

} // verus!
