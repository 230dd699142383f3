//! The recorded data: the yearly tables, the writer that brings counts to them, and
//! everything that reads or changes them.
pub mod archive;
pub mod backup;
pub mod counting;
pub mod database;
pub mod days;
pub mod device_totals;
pub mod devices;
pub mod legacy;
pub mod maintenance;
pub mod pool;
pub mod queries;
pub mod repair;
pub mod retention;
pub mod select;
pub mod store;
pub mod totals;
pub mod writer;
