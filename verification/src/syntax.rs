//! The smallest pieces of syntax that have a content hash of their own.

use vstd::prelude::*;

use crate::digest::Digest;

verus! {

/// A literal.
#[derive(Debug, Clone, Copy)]
pub enum Literal {
    /// A 32-bit integer.
    Int32(i32),
    /// A boolean.
    Boolean(bool),
    /// A content hash.
    Hash(Digest),
}

/// A statement.
#[derive(Debug, Clone, Copy)]
pub enum Statement {
    /// A constant.
    Const(Literal),
}

} // verus!
