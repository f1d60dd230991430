//! Signature-based binary patching.
//!
//! A signature is a whitespace-separated list of tokens, each either a
//! hexadecimal byte (one or two digits, case-insensitive) or the wildcard
//! `?`, which matches any single byte. The pattern module compiles such a
//! signature into a byte matcher and finds its leftmost occurrence in a
//! buffer; the engine module overwrites bytes at an offset relative to the
//! match, keeping the buffer length unchanged.

pub mod errors;
pub mod pattern;
pub mod engine;
