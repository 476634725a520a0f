//! Storage engine for a multi-tenant synchronised object store: collection
//! id resolution, per-session collection locking, object CRUD with
//! pagination, batch posting and per-user aggregates, over an in-memory
//! model of the backing relational tables.
pub mod error;
pub mod store;
pub mod cache;
pub mod session;
pub mod params;
pub mod results;
pub mod listing;
pub mod models;
pub mod aggregate;
pub mod laws;
