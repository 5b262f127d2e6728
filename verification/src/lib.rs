//! Snapshots of a directory tree, and what changed between them.
//!
//! A [`track`] holds the [`rules`] by which snapshots of a directory are taken, and the
//! snapshots. [`scan`] makes a [`snapshot`] of what was read from disk, [`diff`] compares
//! two, and [`report`] says what they look like when they are shown. [`dispatch`] finds
//! the command that a line calls for, and [`commands`] answers it.
//!
//! The modules that end in `_laws` state what holds of these as a whole.
pub mod command_laws;
pub mod commands;
pub mod diff;
pub mod diff_laws;
pub mod dispatch;
pub mod order;
pub mod path;
pub mod path_laws;
pub mod query_laws;
pub mod report;
pub mod report_laws;
pub mod rule_laws;
pub mod rule_model;
pub mod rules;
pub mod scan;
pub mod scan_laws;
pub mod snapshot;
pub mod snapshot_laws;
pub mod text;
pub mod track;
pub mod view_laws;
