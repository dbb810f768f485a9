//! Decisions of a model router: configuration, upstream health, routing, accounting.
pub mod admin;
pub mod ascii;
pub mod balance;
pub mod board;
pub mod checks;
pub mod cli;
pub mod clock;
pub mod config;
pub mod errors;
pub mod health;
pub mod inflight;
pub mod json;
pub mod monitor;
pub mod notifications;
pub mod proxy;
pub mod random;
pub mod scheduler;
pub mod secret;
pub mod sse;
pub mod state;
pub mod storage;
pub mod table;
pub mod telemetry;
pub mod text;
pub mod upstream;
pub mod url;
pub mod usage;
