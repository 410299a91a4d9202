//! Offline-first habit sync: last-write-wins merging of client records,
//! cursor-based deltas, and streak analytics over calendar days.
pub mod text;
pub mod calendar;
pub mod model;
pub mod sync;
pub mod store;
pub mod analytics;
pub mod routes;
