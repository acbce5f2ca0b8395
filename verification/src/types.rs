//! The messages that the engine takes and gives.

pub mod api;
pub mod db;
pub mod ws;
