//! Heuristic detection of missing commas in free-form text.
//!
//! The crate tokenizes raw text into classified lexical units and runs a
//! family of single-pass scanners ("detectors") over the token stream. Each
//! detector keeps a small amount of lookahead or lookbehind state and emits
//! positioned, confidence-weighted diagnostics where a comma is conventionally
//! required but missing.
//!
//! Confidence values are kept in thousandths: `1000` stands for a rule that
//! always requires the comma, `700` for one that does so seven times out of
//! ten. Positions are one-based `(row, column)` pairs counted in Unicode code
//! points.

pub mod cursor;
pub mod detector;
pub mod lexer;
pub mod model;
pub mod strutil;
