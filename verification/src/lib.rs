//! A verified recursive-descent parser for a small JSON-like language.
//!
//! The language covers `null`, the boolean literals, signed integer and
//! simple decimal literals, quoted strings without escape handling, arrays,
//! and objects with at least one key-value pair.  A parse either returns a
//! [`value::Value`] tree or a [`error::ParseError`] naming the offset at
//! which parsing failed; verified code never panics.
//!
//! The behaviour of every executable parser is pinned to the specification
//! functions in [`model`], and [`laws`] proves that a value rendered in
//! canonical form parses back to an equal tree.

pub mod error;
pub mod laws;
pub mod model;
pub mod parse;
pub mod ser;
pub mod value;
