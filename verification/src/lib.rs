//! FocusFlow: local keyboard, mouse and application activity statistics.
pub mod accounting;
pub mod app_stats;
pub mod autostart;
pub mod balances;
pub mod calendar;
pub mod cli;
pub mod config;
pub mod db;
pub mod device_alias;
pub mod device_stats;
pub mod edge_history;
pub mod format;
pub mod hardware;
pub mod listener;
pub mod order;
pub mod tally;
pub mod text;
pub mod textmap;
