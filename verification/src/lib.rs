//! The consistency core of a streaming database: which time a query may
//! read at, and what each collection's complete range of times is.
//!
//! - `frontier`: frontiers over `u64` times, kept in timely antichains.
//! - `timestamp_selection`, `coord`: the engine that determines the time of
//!   a query from the frontiers of its collections.
//! - `consolidation`, `client`, `command`: the storage protocol, and the
//!   state that consolidates the frontiers that the shards of a cluster
//!   report.
//! - `watch_set`, `controller`: watch sets, and the state machine by which
//!   the owner of a controller waits for work and processes it.
//! - `explain`: determinations and errors as text.
//! - `antichain`: what is believed of timely and differential-dataflow.

pub mod antichain;
pub mod client;
pub mod command;
pub mod consolidation;
pub mod controller;
pub mod coord;
pub mod explain;
pub mod frontier;
pub mod ids;
pub mod timeline;
pub mod timestamp_selection;
pub mod watch_set;
