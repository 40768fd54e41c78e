//! Accounts of the service.
pub mod extract;
pub mod model;
pub mod utils;
