//! Escaping of text for embedding in a quoted literal.
//!
//! The library has one operation, [`util::escape`]: it rewrites a string so
//! that it can stand between two occurrences of a chosen border character,
//! and reports whether anything had to be rewritten. The module [`util`]
//! holds the operation together with the mathematical model its contract is
//! stated over; [`laws`] holds facts proved about that model.

pub mod laws;
pub mod util;
