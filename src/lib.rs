//! Page-view counting: per-day aggregated view counters, the migration from
//! a per-event log, and filtered, summarised exports.
pub mod date;
pub mod store;
pub mod export;
pub mod schema;
