//! Consolidated order book built from the snapshots that several exchanges
//! publish, with the decisions of the exchange sessions that feed it.

pub mod decimal;
pub mod book;
pub mod level;
pub mod side;
pub mod aggregator;
pub mod laws;
pub mod exchange;
