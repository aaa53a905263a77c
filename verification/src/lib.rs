//! Tolerant parser and syntactic validator for Unreal Engine 3 style
//! configuration files.
//!
//! The pipeline is one-way and synchronous: source text is split into
//! directives (section headers, key-value pairs, unknown lines), and a
//! validator walks the directive stream and emits diagnostics as byte-range
//! spans over the original text. Nothing is interpreted or rewritten:
//! malformed input yields `Unknown` directives and diagnostics, never an
//! error or a panic.

pub mod annotate;
pub mod check;
pub mod parse;
pub mod shapes;
pub mod struct_syntax;
