//! Parameter types for storage operations.
use vstd::prelude::*;

verus! {

/// Order of a listing.
#[derive(Debug, Clone, Copy, PartialEq, Eq, Structural)]
pub enum Sorting {
    /// Storage order.
    Unordered,
    /// `modified` descending.
    Newest,
    /// `modified` ascending.
    Oldest,
    /// `sortindex` descending.
    Index,
}

/// A staged batch upload.
#[derive(Debug, Default)]
pub struct Batch {
    pub id: i64,
    pub bsos: String,
    pub expiry: i64,
}

/// Write of one object.
#[derive(Debug)]
pub struct PutBso {
    pub user_id: u32,
    pub collection: String,
    pub id: String,
    pub sortindex: Option<i32>,
    pub payload: Option<String>,
    /// Time to live in seconds.
    pub ttl: Option<u32>,
}

/// One item of a batch post.
#[derive(Debug)]
pub struct PostCollectionBso {
    pub id: String,
    pub sortindex: Option<i32>,
    pub payload: Option<String>,
    /// Time to live in seconds.
    pub ttl: Option<u32>,
}

/// Read of one object.
#[derive(Debug)]
pub struct GetBso {
    pub user_id: u32,
    pub collection: String,
    pub id: String,
}

/// Listing of a collection's objects.
#[derive(Debug)]
pub struct GetBsos {
    pub user_id: u32,
    pub collection: String,
    pub ids: Vec<String>,
    pub older: i64,
    pub newer: i64,
    pub sort: Sorting,
    pub limit: i64,
    pub offset: i64,
}

/// Batch post into one collection.
#[derive(Debug)]
pub struct PostBsos {
    pub user_id: u32,
    pub collection: String,
    pub bsos: Vec<PostCollectionBso>,
}

} // verus!
