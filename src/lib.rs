//! An activity store: buckets of timestamped events, heartbeat coalescing,
//! and a small query language evaluated over time intervals.
pub mod time;
pub mod models;
pub mod datastore;
pub mod number;
pub mod datatype;
pub mod text;
pub mod lexer;
pub mod parser;
pub mod query;
pub mod endpoints;
pub mod laws;
