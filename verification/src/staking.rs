//! The liquid-staking ledger: callers stake native value for share tokens,
//! queue unstaking requests, and the drain-mode settlement engine pays the
//! oldest requests as cash becomes available.
pub mod contract;
pub mod msg;
pub mod state;
