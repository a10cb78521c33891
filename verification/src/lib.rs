//! A small recursive-descent parsing toolkit: a combinator engine over byte
//! slices, a handful of primitive value parsers, and three concrete grammars
//! built on them (a structured-data format, a markup format, and a flat
//! key/value format).
//!
//! A parser takes the remaining unconsumed input and returns either the
//! narrower remaining view paired with the parsed value, or a static failure
//! reason. All textual results are zero-copy views into the original buffer.

pub mod parsers;
pub mod types;
pub mod dotenv;
pub mod xml;
pub mod json;
