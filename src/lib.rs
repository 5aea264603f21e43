//! Mirrors a remote directory tree to local storage over stateful
//! file-transfer sessions: one session maps the tree depth first, then a pool
//! of sessions drains the shared backlog of file paths.
//!
//! The library holds the decisions; its owner performs the session and
//! filesystem work that each decision asks for.
use vstd::prelude::*;

pub mod backup;
pub mod listing;
pub mod mapper;
pub mod paths;
pub mod queue;
pub mod tree;

verus! {

} // verus!
