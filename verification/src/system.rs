//! Static lookup data of the service.
pub mod model;
