//! Parsers that turn JSON text into values.
pub mod grammar;
pub mod json;
pub mod laws;
pub mod slices;
pub mod unicode;
