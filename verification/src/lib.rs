//! A persistent FIFO queue of pending financial claims together with a
//! settlement engine that distributes scarce available funds across the
//! queue in strict first-in-first-out order.
//!
//! The queue is a doubly-linked list of claim nodes held in key-addressed
//! storage; the settlement engine pays claims out fully or partially in two
//! flavours: a drain flow that pays whatever cash has become available
//! toward the oldest requests, and a match flow that fills an incoming
//! order against resting counter-orders at the head of the queue.
#![verifier::loop_isolation(false)]

pub mod error;
pub mod math;
pub mod linked_list;
pub mod owner_map;
pub mod decimal;
pub mod coin;
pub mod settlement;
pub mod staking;
pub mod swap;
