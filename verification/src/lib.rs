//! Ingestion and reporting library for instrument test-result files.
//!
//! The crate decodes Voltech `.atr` dumps and manual CSV result files into
//! row models, tracks which files have been processed, coordinates a
//! single-writer watcher lock across workstations, answers serial-range
//! queries over the ingested measurements, validates and collects report
//! data, and lays the serialized report out as a verified cell grid.

pub mod api;
pub mod auth;
pub mod collector;
pub mod dates;
pub mod excel;
pub mod layout;
pub mod parser;
pub mod queries;
pub mod measurements;
pub mod manual;
pub mod model;
pub mod store;
pub mod watcher;
pub mod text;
pub mod validator;

use vstd::prelude::*;

verus! {

/// How many seconds without a heartbeat make a watcher lock stale.
pub const STALE_LOCK_SECONDS: i64 = 120;

} // verus!
