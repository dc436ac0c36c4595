//! Persistence core of an embedded table store: a schema-alteration planner
//! and a checksummed, append-only batch journal for row changes.

pub mod alter;
pub mod blueql;
pub mod cell;
pub mod error;
pub mod journal;
pub mod model;
pub mod patch;
pub mod persist;
pub mod restore;
pub mod table;
