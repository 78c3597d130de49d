//! A compressed, crash-recoverable store for time-ordered price ticks, with the
//! query, wire-protocol and terminal-dashboard logic that goes around it.
pub mod bits;
pub mod chaos;
pub mod charts;
pub mod client_ingest;
pub mod client_tui;
pub mod code_laws;
pub mod compression;
pub mod dashboard;
pub mod durability;
pub mod engine;
pub mod error;
pub mod gorilla;
pub mod le;
pub mod metrics_laws;
pub mod network;
pub mod price;
pub mod protocol;
pub mod query_laws;
pub mod storage;
pub mod storage_laws;
pub mod terminal;
pub mod text;
pub mod web;
pub mod worker;
