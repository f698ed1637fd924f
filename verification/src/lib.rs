//! A persistent permission-and-alias registry for self-assignable chat roles.
//!
//! The registry keeps an allow-list of platform role identifiers together with
//! a table of short aliases for them, serializes itself to a JSON document,
//! and backs a small command layer that validates user requests against the
//! allow-list before any platform mutation is attempted.

pub mod commands;
pub mod json;
pub mod store;

pub use store::Config;
pub use store::ConfigKey;
