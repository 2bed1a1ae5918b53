//! The HAR data model and the analyses over it.
pub mod filter;
pub mod parser;
pub mod stats;
pub mod types;
