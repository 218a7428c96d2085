//! A scanner for a small dynamically-typed scripting language: it turns
//! source text into a flat sequence of classified tokens ending in an
//! end-of-input token, and reports malformed input, with its line, to an
//! error reporter without stopping the scan.
//!
//! `grammar` states what one scan produces as spec functions over the
//! source's characters; `scanner` is the executable scanner, proved to
//! produce exactly that; `laws` proves properties of the model.

mod chars;
pub mod grammar;
pub mod laws;
pub mod report;
pub mod scanner;
pub mod token;
