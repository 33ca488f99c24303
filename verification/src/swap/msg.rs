//! The swap ledger's message and response types.
use vstd::prelude::*;

use crate::coin::Coin;
use crate::decimal::Decimal;
use crate::linked_list::{LinkedList, NodeWithId};

verus! {

/// What a fresh swap ledger is configured with.
#[derive(Debug)]
pub struct InstantiateMsg {
    /// The share-token contract whose tokens are swapped in.
    pub liquid_token_addr: String,
    /// The staking ledger queried for the share price.
    pub staking_manager_addr: String,
}

/// The read-only queries the swap ledger answers.
#[derive(Debug)]
pub enum QueryMsg {
    /// The amount of share tokens the address can claim.
    ClaimableOf { address: String },
    /// The configuration of the ledger.
    ConfigInfo {},
    /// The accounting totals and the current pool price.
    StatusInfo {},
    /// The first fifty resting orders.
    OrderBook {},
    /// The status of the address's resting order.
    OrderInfoOf { address: String },
}

/// The configuration, with addresses rendered as strings.
#[derive(Debug)]
pub struct ConfigResponse {
    pub owner: String,
    pub bond_denom: String,
    pub liquid_token_addr: String,
    pub staking_manager_addr: String,
    pub swap_fee: u128,
}

/// The accounting totals and the current pool price.
#[derive(Debug)]
pub struct StatusResponse {
    /// How many pool-share units the resting orders add up to.
    pub issued: u128,
    /// How much swapped-in value is reserved for counterparties to claim.
    pub claims: u128,
    /// The ledger's available native balance.
    pub balance: u128,
    /// The price of one pool share in native value.
    pub ratio: Decimal,
}

/// The status of one provider's resting order.
#[derive(Debug)]
pub struct OrderInfoOfResponse {
    /// The pool-share units of the order.
    pub issued: u128,
    /// Their current worth in native value.
    pub native: u128,
    /// The block height the order was created at.
    pub height: u64,
    /// The id of the order's node, `0` when there is none.
    pub node_id: u64,
}

/// A snapshot of the order book: the root record and the first fifty
/// resting orders.
#[derive(Debug)]
pub struct OrderBookResponse {
    pub state: LinkedList,
    pub queue: Vec<NodeWithId>,
}

/// The query sent to the staking ledger for its status.
#[derive(Debug)]
pub enum StakingManagerQueryMsg {
    /// The staking ledger's totals and share price.
    StatusInfo {},
}

/// What the staking ledger answers: its totals and share price.
#[derive(Debug)]
pub struct StakingManagerStatusResponse {
    /// How many share tokens the staking ledger has issued.
    pub issued: u128,
    /// The native value its share-token holders can withdraw.
    pub native: Coin,
    /// The native value waiting in its unstaking queue.
    pub unstakings: u128,
    /// The value reserved for withdrawal there.
    pub claims: u128,
    /// The native value bonded to its validator.
    pub bonded: u128,
    /// Its available native balance.
    pub balance: u128,
    /// The price of one of its shares in native value.
    pub ratio: Decimal,
}

} // verus!
