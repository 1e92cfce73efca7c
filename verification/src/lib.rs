//! Folder synchronisation engine: chunking, caching, indexing, conflict
//! resolution and the scheduling state machine, with machine-checked contracts.

pub mod assoc;
pub mod cache;
pub mod chunk;
pub mod config;
pub mod conflict;
pub mod engine;
pub mod error;
pub mod events;
pub mod glob;
pub mod index;
pub mod plan;
pub mod services;
pub mod session;
pub mod state;
pub mod time;
pub mod vault;
pub mod watcher;
