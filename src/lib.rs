//! A measurement harness for hardware performance counters: event
//! vocabulary, counter descriptors, per-iteration samples, statistics,
//! a line-oriented record format and cache-line padding of code regions.
pub mod event;
pub mod stats;
pub mod error;
pub mod descriptor;
pub mod run;
pub mod record;
pub mod layout;
