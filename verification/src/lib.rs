//! Verified core of `reforge`, a Solidity macro preprocessor for Foundry
//! projects: bytecode sizing and contract size limits, compiler output
//! grouping, lockfile consistency checks, selection of expanded sources
//! for display, and the comparison of expanded sources against their
//! expected form.

pub mod project_compiler;
pub mod testing;
pub mod display;
pub mod lockfile;
pub mod order;
pub mod paths;
pub mod text;
pub mod versions;
