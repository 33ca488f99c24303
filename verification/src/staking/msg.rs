//! The staking ledger's message and response types.
use vstd::prelude::*;

use crate::coin::Coin;
use crate::decimal::Decimal;
use crate::linked_list::{LinkedList, NodeWithId};

verus! {

/// What a fresh staking ledger is configured with.
#[derive(Debug)]
pub struct InstantiateMsg {
    /// The validator that all staked value will be bonded to.
    pub validator: String,
}

/// The read-only queries the staking ledger answers.
#[derive(Debug)]
pub enum QueryMsg {
    /// The amount of native value the address can claim.
    ClaimableOf { address: String },
    /// The configuration of the ledger.
    ConfigInfo {},
    /// The accounting totals and the current share price.
    StatusInfo {},
    /// The first fifty nodes of the unstaking queue.
    UnstakingQueue {},
    /// The total native value the address is waiting to have unstaked.
    UnderUnstakingOf { address: String },
}

/// The configuration, with addresses rendered as strings.
#[derive(Debug)]
pub struct ConfigResponse {
    pub owner: String,
    pub bond_denom: String,
    pub liquid_token_addr: String,
    pub validator: String,
}

/// The accounting totals and the current share price.
#[derive(Debug)]
pub struct StatusResponse {
    /// How many share tokens are in circulation.
    pub issued: u128,
    /// How much native value the share-token holders can withdraw in total.
    pub native: Coin,
    /// How much native value is waiting in the unstaking queue.
    pub unstakings: u128,
    /// How much value has been settled and reserved for withdrawal.
    pub claims: u128,
    /// How much native value is bonded to the validator.
    pub bonded: u128,
    /// The ledger's available native balance.
    pub balance: u128,
    /// The price of one share in native value.
    pub ratio: Decimal,
}

/// A snapshot of the unstaking queue: the root record and the first
/// fifty nodes.
#[derive(Debug)]
pub struct UnstakingQueueResponse {
    pub state: LinkedList,
    pub queue: Vec<NodeWithId>,
}

} // verus!
