//! Error taxonomy of the storage layer.
use vstd::prelude::*;

verus! {

/// What went wrong in a storage operation.
#[derive(Debug, Clone, Copy, PartialEq, Eq, Structural)]
pub enum DbError {
    /// A collection name or id could not be resolved.
    CollectionNotFound,
    /// An object is absent or expired.
    ItemNotFound,
    /// A write lock would not strictly advance the collection's timestamp.
    Conflict,
    /// A read lock was asked to become a write lock.
    LockEscalation,
    /// A collection id had no name in the backing store.
    MissingCollectionName,
    /// The backing store has no collection id left to assign.
    CollectionIdsExhausted,
}

/// Text that describes an error.
pub open spec fn error_text(e: DbError) -> Seq<char> {
    match e {
        DbError::CollectionNotFound => "collection not found"@,
        DbError::ItemNotFound => "item not found"@,
        DbError::Conflict => "conflicting write: the collection was modified at or after this session's time"@,
        DbError::LockEscalation => "Can't escalate read-lock to write-lock"@,
        DbError::MissingCollectionName => "a collection id has no name in the store"@,
        DbError::CollectionIdsExhausted => "no collection id left"@,
    }
}

impl DbError {
    /// Human readable description of the error.
    pub fn message(&self) -> (r: String)
        ensures
            r@ == error_text(*self),
    {
        match self {
            DbError::CollectionNotFound => "collection not found".to_string(),
            DbError::ItemNotFound => "item not found".to_string(),
            DbError::Conflict => "conflicting write: the collection was modified at or after this session's time".to_string(),
            DbError::LockEscalation => "Can't escalate read-lock to write-lock".to_string(),
            DbError::MissingCollectionName => "a collection id has no name in the store".to_string(),
            DbError::CollectionIdsExhausted => "no collection id left".to_string(),
        }
    }

    /// Whether the error reports an internal invariant violation.
    pub fn is_internal(&self) -> (r: bool)
        ensures
            r == (*self == DbError::LockEscalation || *self == DbError::MissingCollectionName),
    {
        match self {
            DbError::LockEscalation | DbError::MissingCollectionName => true,
            _ => false,
        }
    }
}

pub type Result<T> = core::result::Result<T, DbError>;

} // verus!
