//! A directory-tree explorer library: ignore policy, search matching,
//! traversal selection over a filesystem snapshot and tree rendering.
pub mod text;
pub mod compiled;
pub mod ignores;
pub mod search;
pub mod snapshot;
pub mod tree;
pub mod render;
pub mod config;
pub mod git;
pub mod cli;
pub mod size;
