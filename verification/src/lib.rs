//! Oracle utilities for validating an on-chain decay formula.
//!
//! The library holds the verified logic shared by two small command-line
//! oracles: encoding and decoding of 256-bit-word hexadecimal results,
//! parsing of decimal numerals from argument text, and the integer
//! arithmetic of the divergence check.

pub mod divergence;
pub mod numeral;
pub mod words;
