//! Field declarations in shorthand, the type expressions they carry, and the
//! check of those expressions against a registry of declared type names.

pub mod documents;
pub mod expr;
pub mod field;
pub mod grammar;
pub mod json;
pub mod render;
pub mod text;
pub mod validate;
