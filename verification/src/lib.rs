//! Spend ledger: the rules behind importing bank statements, grouping spend
//! by named filters into copy-ready reports, and backing the data up.

pub mod backup;
pub mod error;
pub mod filters;
pub mod import;
pub mod report;
pub mod settings;
pub mod statement;
pub mod text;
pub mod transactions;
