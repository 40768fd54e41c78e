//! A player's statistics entity.
pub mod extract;
pub mod model;
pub mod save;
