//! Core of a command wrapper that tees a child's output to the terminal and
//! to a timestamped log file, and keeps only the newest log files.
//!
//! The crate holds the decisions; the surrounding program performs the I/O.

pub mod ignore;
pub mod order;
pub mod retention;
pub mod stamp;
pub mod supervisor;
pub mod tee;
