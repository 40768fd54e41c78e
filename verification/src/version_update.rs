//! Bringing files of an older schema up to the current one.
pub mod preupdate;
pub mod update_to_154;
