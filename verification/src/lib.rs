//! A minimal declarative task runner.
//!
//! A configuration maps target names to targets (description, dependency
//! names, shell steps) and carries a table of variable substitutions.
//! Resolving a target walks its dependencies depth-first, each at most once,
//! detects cycles, substitutes variables into step strings, and yields the
//! ordered list of commands to execute, fail-fast on any error.

pub mod config;
pub mod engine;
pub mod subst;
