//! Verified core of `ipfox`: a query, aggregation and cleanup layer over two
//! collections of web-server data, per-IP host metadata (`hostdata`) and raw
//! access-log records (`logentries`).
//!
//! The store semantics the tool depends on - unique-index enforcement on
//! `hostdata.ip`, idempotent index creation, point lookups, grouped counts
//! sorted by frequency, limited log samples, and cascading deletion of a host
//! together with all its log records - live here as a verified in-memory
//! model (`store::Store`) together with the pure functions that the
//! command-line front end applies to fetched data (sorting, grouping,
//! probe-traffic recognition). All network I/O stays outside this crate.

pub mod geo;
pub mod hostdata;
pub mod laws;
pub mod logentries;
pub mod probe;
pub mod query;
pub mod store;
pub mod strings;
