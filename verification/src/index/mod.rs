//! Secondary indexes: identifiers, definitions, path patterns and the registry.

pub mod id;
pub mod pattern;
pub mod definitions;
pub mod registry;
pub mod maintenance;
pub mod indexed;
