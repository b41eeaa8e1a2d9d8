//! An embedded relational data engine: typed tables held in memory,
//! schema constraints enforced on every mutation, a compiled predicate
//! language for row filtering, projection and multi-key ordered sort,
//! and a textual snapshot codec for persistence.

pub mod commands;
pub mod constraints;
pub mod error;
pub mod format;
pub mod history;
pub mod laws;
pub mod model;
pub mod predicate;
pub mod query;
pub mod snapshot;
pub mod sort;
pub mod values;
