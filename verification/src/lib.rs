//! `harvey`: the verified core of an HTTP Archive (HAR 1.2) analyzer.
//!
//! The library holds the HAR data model, entry filtering, aggregate
//! statistics, per-domain and per-endpoint summaries, entry selection and
//! ordering, and the small decisions of the command line front end.
//! Reading files, talking to a browser and printing stay with the caller.
pub mod cli;
pub mod commands;
pub mod har;
pub mod laws;
pub mod order;
pub mod outcome;
pub mod output;
pub mod partition;
pub mod sizes;
pub mod text;
pub mod timestamps;
pub mod validators;
pub mod wrappers;
