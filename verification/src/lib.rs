//! Selection, deduplication and ordering of scheduled actions.
//!
//! Given a list of actions scheduled against entities, the library keeps the
//! ones that are currently actionable (due within 90 days and not performed
//! within the last 7 days), folds duplicate entries per entity keeping the
//! most recently listed record, and returns the survivors with urgent actions
//! ahead of normal ones.

pub mod domain;
pub mod laws;
pub mod process;

pub use domain::Action;
pub use domain::Priority;
pub use process::process_actions;
pub use process::process_actions_at;
