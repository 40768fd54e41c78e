//! Save-file codec and batch-mutation engine for per-player `Person` and
//! `Profile` files.
pub mod batch;
pub mod constant;
pub mod decimal;
pub mod error;
pub mod model;
pub mod person;
pub mod profile;
pub mod system;
pub mod text;
pub mod user;
pub mod version_update;
pub mod xml;
