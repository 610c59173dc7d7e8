//! Concrete fields.

pub mod fields;
