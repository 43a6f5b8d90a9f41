//! Declarative package reconciliation: a graph of configuration files is
//! resolved into one deduplicated package list, which is then driven against
//! the backend package managers, installing before removing.

pub mod args;
pub mod source;
pub mod package;
pub mod config;
pub mod error;
pub mod resolve;
pub mod apply;
pub mod backend;
