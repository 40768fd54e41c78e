//! A player's save entity: progression, inventory and equipped items.
pub mod extract;
pub mod inventory;
pub mod laws;
pub mod merge;
pub mod model;
pub mod save;
pub mod service;
