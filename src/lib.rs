//! An application launcher's catalog: a forest of launchable entries addressed
//! by paths, merged from several sources with duplicate detection, and searched
//! by substring.
pub mod command;
pub mod config;
pub mod dedup;
pub mod desktop;
pub mod entry;
pub mod forest;
pub mod path;
pub mod plugin;
pub mod state;
pub mod text;
