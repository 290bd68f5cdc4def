//! Structural checks over Rust source read as text.
pub mod text;
pub mod lex;
pub mod brace_depth;
pub mod duplicate_fn;
pub mod orphan_modules;
pub mod enum_discriminants;
pub mod fixtures;
