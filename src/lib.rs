//! Structural search and replace: compiles `pattern ==>> template` rules and
//! renders found matches into text edits.

pub mod error;
pub mod parsing;
pub mod replacing;
pub mod syntax;
