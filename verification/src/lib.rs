//! Decoding of on-chain program error codes into human-readable messages.
//!
//! The library builds, from the raw source text of a program's error
//! enumeration, an ordered table that maps each numeric error code to a
//! symbolic name and message, and serves case-insensitive lookups of a
//! hexadecimal code across every known program domain.

pub mod catalog;
pub mod editions;
pub mod fees;
pub mod parse;
pub mod render;
pub mod text;
pub mod tokens;
