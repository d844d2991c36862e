//! An in-memory store of subject–predicate–object facts built from free text
//! by a sliding-window decomposition, with a non-destructive query algebra and
//! an adjacent-word resolver on top of it.

pub mod decimal;
pub mod fact;
pub mod literal;
pub mod parse_laws;
pub mod parser;
pub mod resolver;
pub mod space;
pub mod words;
