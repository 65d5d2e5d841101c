//! Verified core of the Ayagami Godot integration: property naming and
//! routing, expression grouping, motion curve layout, reset tracks and mask
//! planning for imported models.

pub mod text;
pub mod dictionary;
pub mod properties;
pub mod expression;
pub mod mutator;
pub mod motion;
pub mod loader;
pub mod importer;
