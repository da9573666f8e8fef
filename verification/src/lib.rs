//! Canonical JSON: one deterministic text for every JSON value.
//!
//! Two values that mean the same JSON document always produce the same
//! characters, so the text can be compared, hashed or signed.

pub mod escape;
pub mod keys;
pub mod laws;
pub mod number;
pub mod ser;
pub mod text;
pub mod value;
