//! Interspersing text formatting.
//!
//! The crate writes the elements of a finite sequence to an output
//! destination, inserting the rendering of a separator strictly between
//! consecutive elements: never before the first element and never after the
//! last. Entry points exist for an error-returning destination
//! ([`intersperse::write_interspersed`]), for the same destination followed
//! by a line terminator ([`intersperse::writeln_interspersed`]), and for
//! building a fresh string ([`intersperse::format_interspersed`]). Each
//! entry point also has a variant taking a caller-supplied formatting rule
//! that renders each item before it is written.

pub mod digits;
pub mod intersperse;
pub mod model;
pub mod sink;
