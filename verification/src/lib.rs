//! Verified core of the simaris knowledge store: text processing over unit
//! content, frontmatter handling, tag policy, clustering primitives and the
//! decision logic behind the command-line front end.
use vstd::prelude::*;

pub mod text;
pub mod frontmatter;
pub mod embed;
pub mod rewrite;
pub mod emit;
pub mod wordset;
pub mod similar;
pub mod model;
pub mod display;
pub mod tag_guard;
pub mod size_guard;
pub mod partition;
pub mod cluster;
pub mod lint;
pub mod tag_audit;
pub mod rollup;
pub mod cli;
pub mod fts;
pub mod ask;
pub mod context;
pub mod store;
pub mod digest;
pub mod dream;
pub mod server;
pub mod dupe;
pub mod divergence;
pub mod gather;
pub mod migration;

verus! {
} // verus!
