//! A key-value map with multi-level checkpoints and rollback.
//!
//! The executable container is [`RollbackMap`]. Its behaviour is stated over
//! the mathematical model in [`history`], and the general facts that relate
//! its operations to one another are proved in [`laws`].

pub mod history;
pub mod keys;
pub mod laws;
pub mod rollbackmap;

pub use crate::rollbackmap::RollbackMap;
pub use crate::rollbackmap::VersionState;
