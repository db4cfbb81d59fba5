//! The built-in currency tables.

pub mod crypto;
pub mod iso;
