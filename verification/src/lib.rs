//! Verified core of a pending-transaction arbitrage analyzer.
//!
//! The crate maintains a market graph of constant-product liquidity venues,
//! projects the effect of a pending swap onto that graph as a private overlay,
//! searches the overlaid graph for the most profitable cycle of exchange
//! rates, re-checks the winner through the exact pricing formula, and bounds
//! how many analysis pipelines run at once.

pub mod admission;
pub mod errors;
pub mod model;
pub mod overlay;
pub mod pipeline;
pub mod search;
pub mod opportunity;
pub mod store;
