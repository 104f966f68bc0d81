//! Front end of the high-level Caiman language: source locations and errors,
//! the AST and its factory, AST normalization, CFG analyses, and dataflow
//! facts over the high-level IR.
pub mod text;
pub mod error;
pub mod rational;
pub mod fractional;
pub mod cfg;
pub mod dominators;
pub mod continuations;
pub mod ast;
pub mod ast_factory;
pub mod parse;
pub mod lower;
pub mod if_to_seq;
pub mod flatten;
pub mod sched_rename;
pub mod yields;
pub mod normalize;
pub mod name_set;
pub mod hir;
pub mod dataflow;
pub mod analysis;
pub mod tags;
