//! A front-end for the Kaleidoscope teaching language: source text in,
//! syntax tree or structured failure out.
//!
//! The grammar is stated once as mathematical functions over bytes
//! (`grammar`), and the executable rules (`parser`) are proved to compute
//! exactly those functions, successes and failures alike. `laws` holds what
//! follows for every input: identifiers are taken whole, keywords commit,
//! programs keep the order of the source, failures point into the input.

pub mod model;
pub mod ast;
pub mod diagnostics;
pub mod lexical;
pub mod text;
pub mod number;
pub mod grammar;
pub mod parser;
pub mod laws;
