//! The values that the service layer of the application speaks in.

pub mod media;
pub mod migration;
pub mod sync;
pub mod wallet;
