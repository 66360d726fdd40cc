//! The in-memory data store of a personal ledger: versioned entities,
//! reversible commands with undo and redo, derived indices and memoized
//! views.

pub mod account;
pub mod balance_table;
pub mod balances;
pub mod cached_value;
pub mod date;
pub mod date_input;
pub mod forest;
pub mod laws;
pub mod model;
pub mod models;
pub mod ordered;
pub mod sample;
pub mod save_file;
pub mod store;
pub mod updates;
