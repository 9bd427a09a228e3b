//! A symbolic-expression engine: infix parsing, simplification, structural
//! matching with wildcard rewriting, and text/LaTeX rendering.
pub mod number;
mod text;
pub mod math;
pub mod model;
pub mod operations;
pub mod simplifier;
pub mod structure;
pub mod mappings;
pub mod algorithms;
pub mod equations;
pub mod queries;
pub mod equality;
pub mod matrix;
