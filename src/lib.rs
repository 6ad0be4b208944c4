//! Book lending core: books, borrowers and lending records held in one
//! store value, the lending lifecycle that keeps shelf quantities in step
//! with loans, and statistics derived from that state.
//!
//! Timestamps are milliseconds since the Unix epoch, UTC.

mod ext;
pub mod lending;
pub mod model;
pub mod order;
pub mod stats;
pub mod store;
