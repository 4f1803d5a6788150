//! A source-text reflow engine for markup attribute values.
//!
//! The library locates eligible attribute values (such as `class` or
//! `className`) in JSX/HTML-like source text, splits each value into
//! whitespace-delimited tokens, and decides where to break lines so that
//! the value wraps to a configured width. Every byte outside a matched
//! attribute value is reproduced verbatim. The output is an ordered
//! sequence of rendering commands; a downstream layout engine resolves
//! indentation, tabs versus spaces, and newline style into final bytes.

pub mod commands;
pub mod configuration;
pub mod format_text;
pub mod laws;
pub mod position;
pub mod tokens;
pub mod tw_visitor;
pub mod tw_wrapper;
pub mod visitor;
pub mod wrapper;
