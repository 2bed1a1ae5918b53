//! The commands: what each one computes from a loaded HAR log.
pub mod analyze;
pub mod capture;
pub mod domains;
pub mod endpoints;
pub mod entries;
pub mod inspect;
pub mod schema;
