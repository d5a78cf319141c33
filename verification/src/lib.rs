//! A small library for a number-log utility: a text file holds
//! whitespace-separated non-negative integers; each run of the tool parses
//! them, sums them, and appends the sum as a new line to the same text.
//!
//! The library holds the pure core — tokenizing, decimal parsing, summing,
//! and rendering the new file contents — each function with a contract that
//! pins its result down. Reading and writing the file itself is left to the
//! binary around the library.

pub mod parse;
pub mod pipeline;
pub mod render;
pub mod sum;
