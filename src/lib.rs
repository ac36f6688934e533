//! Ordered, file-based schema migrations for a ScyllaDB cluster: naming,
//! discovery order, statement splitting and the fail-fast apply run.

pub mod error;
pub mod text;
pub mod migration;
pub mod splitter;
pub mod discovery;
pub mod applier;
pub mod env;
