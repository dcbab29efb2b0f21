//! Persistence-and-prioritization core for a single-user task manager.
//!
//! The library is organized in three tightly coupled services over one
//! authoritative task collection:
//! - a file-per-record store modelled as an in-memory snapshot whose
//!   mutations yield an explicit plan of file operations,
//! - a dependency graph service that keeps the `depends_on` relation
//!   acyclic and answers blocking queries, and
//! - a deterministic fixed-point scoring engine that orders tasks.

pub mod commands;
pub mod config;
pub mod dates;
pub mod dependency;
pub mod error;
pub mod lock;
pub mod markdown;
pub mod meta;
pub mod numtext;
pub mod repository;
pub mod scoring;
pub mod status;
pub mod task;

use vstd::prelude::*;

verus! {

} // verus!
