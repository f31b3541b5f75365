//! A directory-scoped key/value store: string settings are attached to
//! absolute directory paths, and a value is resolved for a working
//! directory by walking up through its ancestors, with settings defined
//! closer to the working directory taking precedence.

pub mod assoc;
pub mod config;
pub mod path;
pub mod projector;
pub mod scope;
pub mod store;
pub mod text;
