//! Result types of storage operations.
use vstd::prelude::*;

verus! {

/// A visible object.
#[derive(Debug, Default)]
pub struct GetBso {
    pub id: String,
    pub modified: i64,
    pub payload: String,
    pub sortindex: Option<i32>,
    pub expiry: i64,
}

/// One page of a listing.
#[derive(Debug, Default)]
pub struct GetBsos {
    pub bsos: Vec<GetBso>,
    /// Whether rows beyond this page match.
    pub more: bool,
    /// Offset of the next page when `more` holds, else 0.
    pub offset: i64,
}

/// Outcome of a batch post.
#[derive(Debug, Default)]
pub struct PostBsos {
    pub modified: u64,
    pub success: Vec<String>,
    /// Failed ids with the reason of each.
    pub failed: Vec<(String, String)>,
}

} // verus!
