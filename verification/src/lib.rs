//! An embeddable, in-process document store: named collections of
//! schema-less records addressed by generated identifiers, durable as
//! whole-collection snapshots, with optional per-document expiry.

use vstd::prelude::*;

pub mod auth;
pub mod codec;
pub mod collection;
pub mod database;
pub mod digits;
pub mod doc;
pub mod laws;
pub mod trusted;
pub mod value;

verus! {

/// Errors a store operation can report.
#[derive(Debug, PartialEq, Eq, Structural)]
pub enum DbError {
    /// A document with the requested identifier is not present.
    NotFound,
    /// A collection with the requested name is not registered.
    CollectionNotFound,
    /// Stored snapshot text (or a caller-supplied body) is malformed.
    Serialization,
    /// A filesystem operation failed.
    Io,
    /// A previous panic left a lock unusable.
    LockPoisoned,
}

impl DbError {
    /// A short human-readable description of the error.
    pub fn message(&self) -> (r: &'static str)
        ensures
            r@ == match self {
                DbError::NotFound => "document not found"@,
                DbError::CollectionNotFound => "collection not found"@,
                DbError::Serialization => "serialization error"@,
                DbError::Io => "io error"@,
                DbError::LockPoisoned => "lock poisoned"@,
            },
    {
        match self {
            DbError::NotFound => "document not found",
            DbError::CollectionNotFound => "collection not found",
            DbError::Serialization => "serialization error",
            DbError::Io => "io error",
            DbError::LockPoisoned => "lock poisoned",
        }
    }
}

} // verus!
