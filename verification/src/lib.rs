//! A declarative, interactive data-collection flow engine.
//!
//! A flow is a directed graph of named nodes.  Each node either asks the user
//! a question (through a pluggable prompt capability), evaluates an expression
//! of a small dynamically typed language against the run's variable bindings,
//! or ends the run.  The expression language offers literals, variable access
//! (`$name`), field and index access, arithmetic, comparisons with a few
//! deliberate cross-type coercions, and a handful of built-in functions.
//!
//! Numbers are exact decimals (an integer mantissa scaled by a power of ten)
//! rather than binary floating point, so every arithmetic result the engine
//! accepts is exact and every comparison is decidable; arithmetic whose exact
//! result does not fit the representation is rejected with a type error.

pub mod error;
pub mod condition;
pub mod config;
pub mod eval;
pub mod goto;
pub mod num;
pub mod parser;
pub mod prompt;
pub mod state;
pub mod treecmp;
pub mod utils;
pub mod value;
