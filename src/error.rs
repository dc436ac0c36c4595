//! Error kinds of the library.
use vstd::prelude::*;

verus! {

/// Errors of schema planning and of committing a plan.
#[derive(Clone, Copy, Debug, PartialEq, Eq, Structural)]
pub enum DatabaseError {
    /// A named field does not exist.
    DdlModelAlterFieldNotFound,
    /// The request touches the primary key.
    DdlModelAlterProtectedField,
    /// The request is malformed or disallowed.
    DdlModelAlterBad,
    /// The request changes a type across classes, or writes an invalid type.
    DdlModelAlterBadTypedef,
    /// The plan needs exclusive access that the caller does not hold.
    NeedLock,
}

/// Errors of reading the batch journal.
#[derive(Clone, Copy, Debug, PartialEq, Eq, Structural)]
pub enum StorageError {
    /// A key or a cell inside a framed batch is malformed.
    DataBatchRestoreCorruptedEntry,
    /// The framing or the checksum of a batch is wrong.
    DataBatchRestoreCorruptedBatch,
    /// The journal ended without a confirmed close.
    DataBatchRestoreCorruptedBatchFile,
    /// The stream ended inside a read.
    UnexpectedEof,
}

/// Errors of the lexer.
#[derive(Clone, Copy, Debug, PartialEq, Eq, Structural)]
pub enum LexError {
    /// Invalid signed numeric literal
    InvalidSignedNumericLit,
    /// Invalid unsigned literal
    InvalidUnsignedLiteral,
    /// Invalid binary literal
    InvalidBinaryLiteral,
    /// Invalid string literal
    InvalidStringLiteral,
    /// Dataframe params are invalid
    BadPframe,
    /// Unrecognized byte in stream
    UnexpectedByte,
}

/// Errors of the language front end.
#[derive(Clone, Copy, Debug, PartialEq, Eq, Structural)]
pub enum LangError {
    /// Unexpected end of syntax
    UnexpectedEOS,
    /// Last resort error kind when error specificity is hard to trace
    BadSyntax,
    /// Expected a token that defines a statement, found something else
    ExpectedStatement,
    /// Expected an entity, but found invalid tokens
    ExpectedEntity,
    /// Bad syn tymeta element
    SynBadTyMeta,
    /// Bad syn map element
    SynBadMap,
    /// Bad expr: relational
    ExprBadRel,
    /// Unknown `create` statement
    StmtUnknownCreate,
    /// Unknown `alter` statement
    StmtUnknownAlter,
    /// unknown `drop` statement
    StmtUnknownDrop,
}

} // verus!
