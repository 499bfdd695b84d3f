//! Triangular arbitrage pipeline: order-book synchronisation, opportunity
//! detection, admission control and three-leg order dispatch.
pub mod book;
pub mod config;
pub mod decimal;
pub mod detector;
pub mod dispatcher;
pub mod gatekeeper;
pub mod monitor;
pub mod quarantine;
pub mod subscription;
pub mod sync;
