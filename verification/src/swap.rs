//! The liquidity-pool ledger: providers add native value as resting
//! orders in a FIFO queue, and the match-mode settlement engine fills an
//! incoming share-token order against the oldest resting orders.
pub mod contract;
pub mod msg;
pub mod state;
