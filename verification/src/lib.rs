//! Deterministic, dependency-aware content fingerprints for a set of
//! applications living in one source tree.
//!
//! Each application is a directory with a config file that declares
//! dependencies on other applications (`AppRef` edges) or on raw filesystem
//! paths (`PathRef` edges), plus exclusion rules. The library builds the
//! application graph, orders it topologically, and combines per-directory
//! content hashes with dependency hashes into one final fingerprint per
//! application.
//!
//! All filesystem contents enter through [`fstree::FsSnapshot`], an in-memory
//! listing of files and directories assembled by the caller; the library
//! itself performs no I/O.

use vstd::prelude::*;

pub mod error;
pub mod order;
pub mod paths;
pub mod sequtil;
pub mod config;
pub mod appmap;
pub mod fstree;
pub mod hash;
pub mod graph;
pub mod resolve;
pub mod engine;
pub mod common;
pub mod cli;

verus! {

/// The name of the per-application config file that discovery looks for.
pub const CONFIG_FILE: &'static str = "yeth.toml";

} // verus!



