//! Helpers around the raw memory that backs an arena.
pub mod memutil;
