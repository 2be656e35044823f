//! An in-process key-value store of dinosaur records, keyed by name.
//!
//! The store offers five atomic operations — insert-or-replace, list, get,
//! update and delete — each specified against a mathematical map from the
//! record name to the stored record.

pub mod laws;
pub mod record;
pub mod store;
