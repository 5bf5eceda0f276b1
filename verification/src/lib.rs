//! Dependency graph engine: usage closure, "why is this installed" chains and
//! duplicate-version analysis over resolved package data.

pub mod digraph;
pub mod duplicates;
pub mod graph;
pub mod imports;
pub mod lockfile;
pub mod order;
pub mod reach;
pub mod rules;
pub mod specifier;
pub mod syntax;
pub mod text;
pub mod types;
pub mod versions;
