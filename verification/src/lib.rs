//! Substitution of environment-variable placeholders in a structured
//! configuration document.
//!
//! The library walks a tree of scalars, sequences and ordered mappings,
//! replaces every string of the exact shape `${NAME}` by the value that an
//! environment lookup gives for the trimmed `NAME`, and rebuilds the tree
//! with structure and order preserved. The first placeholder whose variable
//! is absent aborts the walk with an error naming the variable.

pub mod engine;
pub mod env;
pub mod framing;
pub mod laws;
pub mod node;
pub mod placeholder;
