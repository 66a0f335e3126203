//! A small recorder of named time series: an in-memory store guarded by the
//! caller, the decisions taken on each read and write, the line format of the
//! per-series logs, and the recovery of the store from those logs at start-up.

pub mod datum;
pub mod name_order;
pub mod store;
pub mod record;
pub mod clock;
pub mod ingest;
pub mod recovery;
pub mod response;
pub mod plot;
