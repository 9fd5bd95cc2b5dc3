//! Flight-leg aggregation and ranking.
//!
//! Records of the form (passengers, origin, destination) are folded into a
//! directed airport graph with per-airport and per-route counters; after
//! ingestion the library ranks airports by outbound flights, tallies the top
//! destination cities of configured anchor airports, and ranks routes by
//! frequency.

pub mod model;
pub mod records;
pub mod graph_store;
pub mod builder;
pub mod rank;
