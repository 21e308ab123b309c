//! Per-character win/loss streak tracking: name derivation for media files,
//! category configuration, reconciliation of stored and discovered entities,
//! and an in-memory store with selection and outcome recording.

pub mod discovery;
pub mod model;
pub mod categories;
pub mod reconcile;
pub mod store;
