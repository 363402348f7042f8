//! The recipe language: parameters, directives, contexts and the grammar that
//! reads them.
pub mod parameters;
pub mod directives;
pub mod grammar;
pub mod context;
