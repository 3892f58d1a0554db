//! A word-frequency counter built on a one-slot handoff between a producer
//! and an aggregator.
pub mod word;
pub mod table;
pub mod laws;
pub mod handoff;
