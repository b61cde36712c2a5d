//! A habit tracker's core: habits with dated ledgers, the grid that lays
//! them out and moves the focus, and the snapshot that is kept on disk.

pub mod app;
pub mod date;
pub mod event;
pub mod grid;
pub mod habit;
pub mod ledger;
pub mod snapshot;
pub mod text;
