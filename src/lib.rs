//! A log-tailing core: line framing, multi-line record assembly, per-file
//! read cursors with delayed commit, and inode-keyed cursor reconciliation.

pub mod buffer;
pub mod collect;
pub mod config;
pub mod event;

