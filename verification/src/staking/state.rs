//! The persisted state of the staking ledger and its global invariant.
use vstd::prelude::*;

use crate::linked_list::{owner_sum, value_sum, QueueStorage};
use crate::owner_map::AmountMap;

verus! {

/// Static configuration of the staking ledger.
#[derive(Debug)]
pub struct ConfigInfo {
    /// Admin allowed to change the configuration.
    pub owner: String,
    /// The denomination that can be staked, and the only one accepted for
    /// payments.
    pub bond_denom: String,
    /// The share-token contract.
    pub liquid_token_addr: String,
    /// All value is bonded to this validator.
    pub validator: String,
}

impl Clone for ConfigInfo {
    fn clone(&self) -> (r: Self)
        ensures
            r == *self,
    {
        ConfigInfo {
            owner: self.owner.clone(),
            bond_denom: self.bond_denom.clone(),
            liquid_token_addr: self.liquid_token_addr.clone(),
            validator: self.validator.clone(),
        }
    }
}

/// Running totals of the accounting ledger.
#[derive(Clone, Copy, Debug, PartialEq, Eq, Structural)]
pub struct Supply {
    /// How much native value the share-token holders can withdraw in total.
    pub native: u128,
    /// How much native value is waiting in the unstaking queue.
    pub unstakings: u128,
    /// How much value has been settled and reserved for withdrawal.
    pub claims: u128,
}

impl Default for Supply {
    fn default() -> (s: Supply)
        ensures
            s == (Supply { native: 0u128, unstakings: 0u128, claims: 0u128 }),
    {
        Supply { native: 0, unstakings: 0, claims: 0 }
    }
}

/// The whole persisted state of one staking ledger instance.
pub struct ContractState {
    pub config: ConfigInfo,
    pub supply: Supply,
    pub queue: QueueStorage,
    pub claimable: AmountMap,
    pub under_unstaking: AmountMap,
}

impl ContractState {
    /// The global invariant: the queue is well formed, the queued-but-unpaid
    /// counter equals the sum of the queued values, the earmarked counter
    /// equals the sum of all claimable balances, and every owner's pending
    /// amount equals the sum of that owner's queued values.
    pub open spec fn wf(self) -> bool {
        &&& self.queue.wf()
        &&& self.claimable.wf()
        &&& self.under_unstaking.wf()
        &&& self.supply.unstakings as int == value_sum(self.queue@)
        &&& self.supply.claims as int == self.claimable.total()
        &&& forall|o: Seq<char>|
            #[trigger] self.under_unstaking.spec_get(o) as int == owner_sum(self.queue@, o)
    }
}

} // verus!
