//! Verified core of a RESP load generator and its CPU burners.
pub mod decimal;
pub mod resp;
pub mod config;
pub mod session;
pub mod stats;
pub mod text;
pub mod report;
pub mod burn;
pub mod stalls;
pub mod heartbeat;
