//! Coordination engine for re-encoding a video library with remote workers.
//!
//! The crate holds the decisions of the service and none of its I/O: which
//! files of a scan become conversion jobs, in which order workers receive
//! them, how a directory tree is walked, and in which order the steps of
//! installing a converted file are taken. Every function carries a contract
//! over a mathematical model of the value it works on.

pub mod text;
pub mod paths;
pub mod probe;
pub mod dispatch;
pub mod walk;
pub mod tree;
pub mod scan;
pub mod run;
pub mod install;
pub mod handlers;
