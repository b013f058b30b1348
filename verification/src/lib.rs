//! Dependency-aware compilation of a unit and everything it depends on.
//!
//! A caller names an entry point and, optionally, the graph of units around
//! it. The graph is validated, the units the entry point needs are put in a
//! deterministic order, each is handed once to a unit compiler supplied by the
//! caller, and the outcomes are assembled into one result or one error.
//!
//! The modules, leaf first: `model` holds the data, `graph` says what a
//! graph means, `validator` checks one, `scheduler` orders what an entry
//! point needs, `orchestrator` compiles in that order, `assembler` makes the
//! result or the error, and `pipeline` puts them together. `laws` proves
//! what holds of the whole.

pub mod assembler;
pub mod cache;
pub mod graph;
pub mod laws;
pub mod lex;
pub mod model;
pub mod orchestrator;
pub mod pipeline;
pub mod scheduler;
pub mod search;
pub mod tally;
pub mod validator;

pub use assembler::{assemble_failure, assemble_success};
pub use cache::CompilationCache;
pub use model::{
    ArtifactEntry, CompilationUnit, CompileError, CompileResult, DependencyGraph, Severity,
    SourceSpan, UnitArtifact, UnitDiagnostic,
};
pub use orchestrator::{run, Pass};
pub use pipeline::{compile, compile_with, CompileOptions};
pub use scheduler::order;
pub use validator::{validate, GraphError, ValidatedGraph};
