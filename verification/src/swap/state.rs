//! The persisted state of the swap ledger and its global invariant.
use vstd::prelude::*;

use crate::linked_list::{has_id, index_of_id, value_sum, QueueEntry, QueueStorage};
use crate::owner_map::{AmountMap, IdMap};

verus! {

/// Static configuration of the swap ledger.
#[derive(Debug)]
pub struct ConfigInfo {
    /// Admin allowed to change the configuration.
    pub owner: String,
    /// The denomination accepted as pool liquidity.
    pub bond_denom: String,
    /// The share-token contract whose tokens are swapped in.
    pub liquid_token_addr: String,
    /// The staking ledger queried for the share price.
    pub staking_manager_addr: String,
    /// The swap fee kept by the pool, in basis points.
    pub swap_fee: u128,
}

impl Clone for ConfigInfo {
    fn clone(&self) -> (r: Self)
        ensures
            r == *self,
    {
        ConfigInfo {
            owner: self.owner.clone(),
            bond_denom: self.bond_denom.clone(),
            liquid_token_addr: self.liquid_token_addr.clone(),
            staking_manager_addr: self.staking_manager_addr.clone(),
            swap_fee: self.swap_fee,
        }
    }
}

/// Running totals of the accounting ledger.
#[derive(Clone, Copy, Debug, PartialEq, Eq, Structural)]
pub struct Supply {
    /// How many pool-share units the resting orders add up to.
    pub issued: u128,
    /// How much swapped-in value is reserved for counterparties to claim.
    pub claims: u128,
}

impl Default for Supply {
    fn default() -> (s: Supply)
        ensures
            s == (Supply { issued: 0u128, claims: 0u128 }),
    {
        Supply { issued: 0, claims: 0 }
    }
}

/// The per-owner index agrees with the queue in both directions: every
/// queued order is indexed under its owner, and every non-zero index entry
/// points at a live order owned by that owner.
pub open spec fn queue_id_ok(q: Seq<QueueEntry>, m: IdMap) -> bool {
    &&& forall|i: int| 0 <= i < q.len() ==> #[trigger] m.spec_get(q[i].receiver) == q[i].id
    &&& forall|o: Seq<char>|
        #[trigger] m.spec_get(o) != 0 ==> has_id(q, m.spec_get(o)) && q[index_of_id(
            q,
            m.spec_get(o),
        )].receiver == o
}

/// The whole persisted state of one swap ledger instance.
pub struct ContractState {
    pub config: ConfigInfo,
    pub supply: Supply,
    pub queue: QueueStorage,
    pub claimable: AmountMap,
    pub queue_id: IdMap,
}

impl ContractState {
    /// The global invariant: the queue is well formed, the issued counter
    /// equals the sum of the resting order values, the claims counter
    /// covers every claimable balance, and the per-owner index mirrors the
    /// queue.
    pub open spec fn wf(self) -> bool {
        &&& self.queue.wf()
        &&& self.claimable.wf()
        &&& self.queue_id.wf()
        &&& self.supply.issued as int == value_sum(self.queue@)
        &&& self.supply.claims as int >= self.claimable.total()
        &&& queue_id_ok(self.queue@, self.queue_id)
    }
}

} // verus!
