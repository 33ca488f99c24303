//! The swap ledger's operations: adding and removing pool liquidity,
//! match-mode settlement of incoming orders against the resting queue,
//! withdrawal of earned share tokens, and the read-only queries.
use vstd::prelude::*;

use crate::coin::{find_denom, find_payment, Coin};
use crate::decimal::{get_ratio, spec_ratio_atomics, Decimal, DECIMAL_FRACTIONAL};
use crate::error::ContractError;
use crate::linked_list::{
    has_id, index_of_id, lemma_ids_positive, lemma_ids_strictly_increasing, lemma_index_of_at,
    lemma_index_of_id, lemma_index_of_same_ids, lemma_value_sum_bounds, lemma_value_sum_push,
    lemma_value_sum_remove, lemma_value_sum_update, linked_list_append, linked_list_get_list,
    linked_list_read, linked_list_remove, linked_list_remove_head, node_read, node_update_value,
    spec_append_id, value_sum, QueueEntry, QueueStorage,
};
use crate::math::{lemma_div_add_le, lemma_mul_div_le};
use crate::settlement::{lemma_steps_nonneg, lemma_steps_total_push, steps_total};
use crate::math::{checked_add, checked_sub, multiply_ratio};
use crate::owner_map::{AmountMap, IdMap};
use crate::swap::msg::{
    ConfigResponse, InstantiateMsg, OrderBookResponse, OrderInfoOfResponse, StatusResponse,
};
use crate::swap::state::{queue_id_ok, ConfigInfo, ContractState, Supply};

verus! {

/// Sets up a fresh ledger: an empty order book, zeroed totals, the given
/// configuration and the default swap fee of one hundred basis points.
pub fn instantiate(owner: String, bond_denom: String, msg: InstantiateMsg) -> (s: ContractState)
    ensures
        s.wf(),
        s.config.owner == owner,
        s.config.bond_denom == bond_denom,
        s.config.liquid_token_addr == msg.liquid_token_addr,
        s.config.staking_manager_addr == msg.staking_manager_addr,
        s.config.swap_fee == 100u128,
        s.supply == (Supply { issued: 0u128, claims: 0u128 }),
        s.queue@ == Seq::<QueueEntry>::empty(),
        forall|o: Seq<char>| s.claimable.spec_get(o) == 0,
        forall|o: Seq<char>| s.queue_id.spec_get(o) == 0,
{
    let s = ContractState {
        config: ConfigInfo {
            owner,
            bond_denom,
            liquid_token_addr: msg.liquid_token_addr,
            staking_manager_addr: msg.staking_manager_addr,
            swap_fee: 100,
        },
        supply: Supply::default(),
        queue: QueueStorage::new(),
        claimable: AmountMap::new(),
        queue_id: IdMap::new(),
    };
    proof {
        assert(value_sum(s.queue@) == 0);
    }
    s
}

/// Pays out the sender's earned share tokens: the claimable balance is
/// read and zeroed in one step, so a second claim without an intervening
/// swap finds nothing and fails. The transfer itself is an instruction to
/// the share-token contract.
pub fn execute_claim(state: &mut ContractState, sender: &String) -> (r: Result<
    u128,
    ContractError,
>)
    requires
        old(state).wf(),
    ensures
        final(state).wf(),
        claim_transition(*old(state), *final(state), r, sender@),
{
    let to_send = state.claimable.get(sender);
    if to_send == 0 {
        return Err(ContractError::NothingToClaim);
    }
    proof {
        state.claimable.lemma_get_le_total(sender@);
    }
    state.claimable.set(sender, 0);
    state.supply.claims = state.supply.claims - to_send;
    Ok(to_send)
}

/// Lets the admin set the swap fee, in basis points.
pub fn execute_set_swap_fee(state: &mut ContractState, sender: &String, swap_fee: u128) -> (r:
    Result<(), ContractError>)
    requires
        old(state).wf(),
    ensures
        final(state).wf(),
        sender@ != old(state).config.owner@ ==> r == Err::<(), ContractError>(
            ContractError::Unauthorized,
        ) && *final(state) == *old(state),
        sender@ == old(state).config.owner@ ==> {
            &&& r == Ok::<(), ContractError>(())
            &&& final(state).config.swap_fee == swap_fee
            &&& final(state).config.owner == old(state).config.owner
            &&& final(state).config.bond_denom == old(state).config.bond_denom
            &&& final(state).config.liquid_token_addr == old(state).config.liquid_token_addr
            &&& final(state).config.staking_manager_addr == old(state).config.staking_manager_addr
            &&& final(state).supply == old(state).supply
            &&& final(state).queue == old(state).queue
            &&& final(state).claimable == old(state).claimable
            &&& final(state).queue_id == old(state).queue_id
        },
{
    if !(*sender == state.config.owner) {
        return Err(ContractError::Unauthorized);
    }
    state.config.swap_fee = swap_fee;
    Ok(())
}

/// The sender's earned, claimable share tokens.
pub fn query_claimable_of(state: &ContractState, address: &String) -> (r: u128)
    requires
        state.wf(),
    ensures
        r == state.claimable.spec_get(address@),
{
    state.claimable.get(address)
}

/// The configuration, with addresses rendered as strings.
pub fn query_config(state: &ContractState) -> (r: ConfigResponse)
    ensures
        r.owner == state.config.owner,
        r.bond_denom == state.config.bond_denom,
        r.liquid_token_addr == state.config.liquid_token_addr,
        r.staking_manager_addr == state.config.staking_manager_addr,
        r.swap_fee == state.config.swap_fee,
{
    ConfigResponse {
        owner: state.config.owner.clone(),
        bond_denom: state.config.bond_denom.clone(),
        liquid_token_addr: state.config.liquid_token_addr.clone(),
        staking_manager_addr: state.config.staking_manager_addr.clone(),
        swap_fee: state.config.swap_fee,
    }
}

/// The accounting totals and the pool price: one pool share is worth
/// `balance / issued` of native value, or exactly `1` while the pool is
/// empty.
pub fn query_status(state: &ContractState, balance: u128) -> (r: Result<
    StatusResponse,
    ContractError,
>)
    ensures
        state.supply.issued > 0 && spec_ratio_atomics(balance, state.supply.issued) > u128::MAX
            ==> r == Err::<StatusResponse, ContractError>(ContractError::ArithmeticOverflow),
        (state.supply.issued == 0 || spec_ratio_atomics(balance, state.supply.issued)
            <= u128::MAX) ==> (r matches Ok(resp) && {
            &&& resp.issued == state.supply.issued
            &&& resp.claims == state.supply.claims
            &&& resp.balance == balance
            &&& resp.ratio == (if state.supply.issued == 0 {
                Decimal::spec_one()
            } else {
                Decimal { atomics: spec_ratio_atomics(balance, state.supply.issued) as u128 }
            })
        }),
{
    let ratio = match get_ratio(balance, state.supply.issued) {
        Ok(d) => d,
        Err(e) => {
            return Err(e);
        },
    };
    Ok(
        StatusResponse {
            issued: state.supply.issued,
            claims: state.supply.claims,
            balance,
            ratio,
        },
    )
}

/// A snapshot of the order book: the root record and the first fifty
/// resting orders in first-in-first-out order.
pub fn query_order_book(state: &ContractState) -> (r: Result<OrderBookResponse, ContractError>)
    requires
        state.wf(),
    ensures
        r matches Ok(resp) && {
            &&& resp.state.length == state.queue@.len()
            &&& resp.queue@.len() == (if 50 <= state.queue@.len() {
                50int
            } else {
                state.queue@.len() as int
            })
            &&& forall|i: int|
                0 <= i < resp.queue@.len() ==> {
                    let e = #[trigger] resp.queue@[i];
                    &&& e.id == state.queue@[i].id
                    &&& e.info.receiver@ == state.queue@[i].receiver
                    &&& e.info.value == state.queue@[i].value
                    &&& e.info.height == state.queue@[i].height
                }
        },
{
    let root = linked_list_read(&state.queue);
    let list = match linked_list_get_list(&state.queue, 50) {
        Ok(l) => l,
        Err(e) => {
            return Err(e);
        },
    };
    Ok(OrderBookResponse { state: root, queue: list })
}

/// After taking out the entry at position `i`, owned by `sender`, and
/// zeroing the sender's index entry, the per-owner index again mirrors
/// the queue.
#[verifier::rlimit(100)]
proof fn lemma_queue_id_after_remove(
    q: Seq<QueueEntry>,
    m: IdMap,
    q2: Seq<QueueEntry>,
    m2: IdMap,
    sender: Seq<char>,
    i: int,
)
    requires
        queue_id_ok(q, m),
        forall|a: int, b: int| 0 <= a < b < q.len() ==> #[trigger] q[a].id < #[trigger] q[b].id,
        forall|k: int| 0 <= k < q.len() ==> #[trigger] q[k].id >= 1,
        0 <= i < q.len(),
        q[i].receiver == sender,
        q2 == q.remove(i),
        m2.spec_get(sender) == 0,
        forall|o: Seq<char>| o != sender ==> #[trigger] m2.spec_get(o) == m.spec_get(o),
    ensures
        queue_id_ok(q2, m2),
{
    assert(q2.len() == q.len() - 1);
    assert forall|j: int| 0 <= j < i implies #[trigger] q2[j] == q[j] by {
        assert(q.remove(i)[j] == q[j]);
    }
    assert forall|j: int| i <= j < q2.len() implies #[trigger] q2[j] == q[j + 1] by {
        assert(q.remove(i)[j] == q[j + 1]);
    }
    // no other position carries the sender
    assert forall|k: int| 0 <= k < q.len() && k != i implies q[k].receiver != sender by {
        if q[k].receiver == sender {
            assert(m.spec_get(sender) == q[k].id);
            assert(m.spec_get(sender) == q[i].id);
            if k < i {
                assert(q[k].id < q[i].id);
            } else {
                assert(q[i].id < q[k].id);
            }
        }
    }
    assert forall|j: int| 0 <= j < q2.len() implies #[trigger] m2.spec_get(q2[j].receiver)
        == q2[j].id by {
        let k: int = if j < i {
            j
        } else {
            j + 1
        };
        assert(q2[j] == q[k]);
        assert(q[k].receiver != sender);
        assert(m.spec_get(q[k].receiver) == q[k].id);
    }
    assert forall|o: Seq<char>| #[trigger] m2.spec_get(o) != 0 implies has_id(q2, m2.spec_get(o))
        && q2[index_of_id(q2, m2.spec_get(o))].receiver == o by {
        assert(o != sender);
        let id = m.spec_get(o);
        assert(has_id(q, id) && q[index_of_id(q, id)].receiver == o);
        lemma_index_of_id(q, id);
        let k = index_of_id(q, id);
        assert(k != i);
        let j: int = if k < i {
            k
        } else {
            k - 1
        };
        assert(q2[j] == q[k]);
        assert forall|a: int| 0 <= a < j implies #[trigger] q2[a].id != q2[j].id by {
            assert(q2[a].id < q2[j].id);
        }
        lemma_index_of_at(q2, j);
    }
}

/// Takes the sender's resting order out of the pool: the order leaves the
/// queue and the per-owner index, the pool shrinks by its share units, and
/// the sender is paid their current worth in native value. The payment is
/// a bank-send instruction carried out by the host.
#[verifier::rlimit(100)]
pub fn execute_remove(state: &mut ContractState, sender: &String, balance: u128) -> (r: Result<
    u128,
    ContractError,
>)
    requires
        old(state).wf(),
        old(state).queue_id.spec_get(sender@) != 0 ==> old(state).supply.issued > 0,
    ensures
        final(state).wf(),
        r is Err ==> *final(state) == *old(state),
        old(state).queue_id.spec_get(sender@) == 0 ==> r == Err::<u128, ContractError>(
            ContractError::NothingToRemove,
        ),
        old(state).queue_id.spec_get(sender@) != 0 ==> ({
            let i = index_of_id(old(state).queue@, old(state).queue_id.spec_get(sender@));
            let v = old(state).queue@[i].value;
            &&& r == Ok::<u128, ContractError>(
                (((v * balance) / (old(state).supply.issued as int)) as u128),
            )
            &&& final(state).queue@ == old(state).queue@.remove(i)
            &&& final(state).queue_id.spec_get(sender@) == 0
            &&& forall|o: Seq<char>|
                o != sender@ ==> #[trigger] final(state).queue_id.spec_get(o) == old(
                    state,
                ).queue_id.spec_get(o)
            &&& final(state).supply.issued == old(state).supply.issued - v
            &&& final(state).supply.claims == old(state).supply.claims
            &&& final(state).claimable == old(state).claimable
            &&& final(state).config == old(state).config
        }),
{
    let ghost pre = *state;
    let node_id = state.queue_id.get(sender);
    if node_id == 0 {
        return Err(ContractError::NothingToRemove);
    }
    let ghost i = index_of_id(pre.queue@, node_id);
    proof {
        lemma_index_of_id(pre.queue@, node_id);
        lemma_ids_strictly_increasing(pre.queue);
        lemma_ids_positive(pre.queue);
        lemma_value_sum_bounds(pre.queue@);
    }
    let cur_node = match node_read(&state.queue, node_id) {
        Ok(n) => n,
        Err(_) => {
            return Err(ContractError::NotFound);
        },
    };
    let native_amount = match multiply_ratio(cur_node.value, balance, state.supply.issued) {
        Ok(v) => v,
        Err(_) => {
            proof {
                crate::math::lemma_mul_div_le(
                    cur_node.value as int,
                    balance as int,
                    state.supply.issued as int,
                );
            }
            return Err(ContractError::ArithmeticOverflow);
        },
    };
    match linked_list_remove(&mut state.queue, node_id) {
        Ok(_) => {},
        Err(_) => {
            return Err(ContractError::NotFound);
        },
    }
    state.queue_id.set(sender, 0);
    proof {
        lemma_value_sum_remove(pre.queue@, i);
    }
    state.supply.issued = state.supply.issued - cur_node.value;
    proof {
        lemma_queue_id_after_remove(
            pre.queue@,
            pre.queue_id,
            state.queue@,
            state.queue_id,
            sender@,
            i,
        );
    }
    Ok(native_amount)
}

/// The status of the sender's resting order: its share units, their
/// current worth, its creation height and its node id.
pub fn query_order_info_of(state: &ContractState, address: &String, balance: u128) -> (r: Result<
    OrderInfoOfResponse,
    ContractError,
>)
    requires
        state.wf(),
    ensures
        ({
            let node_id = state.queue_id.spec_get(address@);
            let issued: u128 = if node_id == 0 {
                0u128
            } else {
                state.queue@[index_of_id(state.queue@, node_id)].value
            };
            let ratio_atomics: int = if state.supply.issued == 0 {
                DECIMAL_FRACTIONAL as int
            } else {
                spec_ratio_atomics(balance, state.supply.issued)
            };
            let native = (issued * ratio_atomics) / (DECIMAL_FRACTIONAL as int);
            &&& (state.supply.issued > 0 && spec_ratio_atomics(balance, state.supply.issued)
                > u128::MAX) ==> r == Err::<OrderInfoOfResponse, ContractError>(
                ContractError::ArithmeticOverflow,
            )
            &&& (state.supply.issued == 0 || spec_ratio_atomics(balance, state.supply.issued)
                <= u128::MAX) && native > u128::MAX ==> r == Err::<
                OrderInfoOfResponse,
                ContractError,
            >(ContractError::ArithmeticOverflow)
            &&& (state.supply.issued == 0 || spec_ratio_atomics(balance, state.supply.issued)
                <= u128::MAX) && native <= u128::MAX ==> (r matches Ok(resp) && {
                &&& resp.issued == issued
                &&& resp.native == native
                &&& resp.node_id == node_id
                &&& node_id != 0 ==> resp.height == state.queue@[index_of_id(
                    state.queue@,
                    node_id,
                )].height
                &&& node_id == 0 ==> resp.height == 0
            })
        }),
{
    let node_id = state.queue_id.get(address);
    let mut issued: u128 = 0;
    let mut height: u64 = 0;
    if node_id > 0 {
        proof {
            lemma_index_of_id(state.queue@, node_id);
        }
        let cur_node = match node_read(&state.queue, node_id) {
            Ok(n) => n,
            Err(_) => {
                return Err(ContractError::NotFound);
            },
        };
        issued = cur_node.value;
        height = cur_node.height;
    }
    let ratio = match get_ratio(balance, state.supply.issued) {
        Ok(d) => d,
        Err(e) => {
            return Err(e);
        },
    };
    let native = match ratio.mul_floor(issued) {
        Ok(v) => v,
        Err(e) => {
            return Err(e);
        },
    };
    Ok(OrderInfoOfResponse { issued, native, height, node_id })
}

/// What the host should do after liquidity was added.
#[derive(Clone, Copy, Debug)]
pub struct AddOutcome {
    /// The payment that was accepted into the pool.
    pub payment: u128,
    /// Native value to send back to the admin: a pool that has value but
    /// no shares left returns that stray value before pricing the deposit.
    pub refund: Option<u128>,
}

/// The pool balance that backs the already-issued shares: the current
/// balance minus the incoming payment, or zero when that remainder is
/// being returned because no shares circulate.
pub open spec fn spec_add_cur_native(pre: ContractState, payment: u128, balance: u128) -> int {
    let cur0 = balance - payment;
    if cur0 > 0 && pre.supply.issued == 0 {
        0int
    } else {
        cur0
    }
}

/// The stray value returned to the admin when the pool holds value but no
/// shares circulate.
pub open spec fn spec_add_refund(pre: ContractState, payment: u128, balance: u128) -> Option<
    u128,
> {
    if balance - payment > 0 && pre.supply.issued == 0 {
        Some(((balance - payment)) as u128)
    } else {
        None
    }
}

/// The scaled share price used to convert the payment into pool shares.
pub open spec fn spec_add_ratio_atomics(pre: ContractState, payment: u128, balance: u128) -> int {
    let cur = spec_add_cur_native(pre, payment, balance);
    if cur == 0 {
        DECIMAL_FRACTIONAL as int
    } else {
        (pre.supply.issued * DECIMAL_FRACTIONAL) / cur
    }
}

/// The pool shares issued for the payment.
pub open spec fn spec_add_base(pre: ContractState, payment: u128, balance: u128) -> int {
    (payment * spec_add_ratio_atomics(pre, payment, balance)) / (DECIMAL_FRACTIONAL as int)
}

/// The value of the sender's current resting order, `0` if there is none.
pub open spec fn spec_old_order_value(pre: ContractState, sender: Seq<char>) -> int {
    if pre.queue_id.spec_get(sender) == 0 {
        0
    } else {
        pre.queue@[index_of_id(pre.queue@, pre.queue_id.spec_get(sender))].value as int
    }
}

/// The queue after the sender's old order, if any, has been taken out to
/// be merged into the new one.
pub open spec fn spec_add_mid_queue(pre: ContractState, sender: Seq<char>) -> Seq<QueueEntry> {
    if pre.queue_id.spec_get(sender) == 0 {
        pre.queue@
    } else {
        pre.queue@.remove(index_of_id(pre.queue@, pre.queue_id.spec_get(sender)))
    }
}

/// Whether adding this deposit stays within every representation limit.
pub open spec fn add_ok(pre: ContractState, sender: Seq<char>, payment: u128, balance: u128) -> bool {
    &&& payment <= balance
    &&& spec_add_ratio_atomics(pre, payment, balance) <= u128::MAX
    &&& spec_add_base(pre, payment, balance) <= u128::MAX
    &&& pre.supply.issued + spec_add_base(pre, payment, balance) <= u128::MAX
    &&& spec_add_base(pre, payment, balance) + spec_old_order_value(pre, sender) <= u128::MAX
}

/// After replacing the sender's order (removing the old one, if any, and
/// appending the merged one at the tail), the per-owner index again
/// mirrors the queue.
#[verifier::rlimit(100)]
proof fn lemma_queue_id_after_add(
    q: Seq<QueueEntry>,
    m: IdMap,
    qmid: Seq<QueueEntry>,
    q2: Seq<QueueEntry>,
    m2: IdMap,
    sender: Seq<char>,
    old_id: u64,
    newe: QueueEntry,
)
    requires
        queue_id_ok(q, m),
        forall|a: int, b: int| 0 <= a < b < q.len() ==> #[trigger] q[a].id < #[trigger] q[b].id,
        forall|k: int| 0 <= k < q.len() ==> #[trigger] q[k].id >= 1,
        forall|a: int, b: int| 0 <= a < b < q2.len() ==> #[trigger] q2[a].id < #[trigger] q2[b].id,
        m.spec_get(sender) == old_id,
        old_id == 0 ==> qmid == q,
        old_id != 0 ==> has_id(q, old_id) && 0 <= index_of_id(q, old_id) < q.len() && q[
            index_of_id(q, old_id)
        ].receiver == sender && qmid == q.remove(index_of_id(q, old_id)),
        q2 == qmid.push(newe),
        newe.receiver == sender,
        newe.id >= 1,
        m2.spec_get(sender) == newe.id,
        forall|o: Seq<char>| o != sender ==> #[trigger] m2.spec_get(o) == m.spec_get(o),
    ensures
        queue_id_ok(q2, m2),
{
    let i: int = if old_id == 0 {
        q.len() as int
    } else {
        index_of_id(q, old_id)
    };
    if old_id != 0 {
        assert(qmid.len() == q.len() - 1);
        assert forall|j: int| 0 <= j < i implies #[trigger] qmid[j] == q[j] by {
            assert(q.remove(i)[j] == q[j]);
        }
        assert forall|j: int| i <= j < qmid.len() implies #[trigger] qmid[j] == q[j + 1] by {
            assert(q.remove(i)[j] == q[j + 1]);
        }
    }
    assert forall|k: int| 0 <= k < q.len() && k != i implies q[k].receiver != sender by {
        if q[k].receiver == sender {
            assert(m.spec_get(sender) == q[k].id);
            if old_id == 0 {
                assert(q[k].id >= 1);
            } else {
                assert(m.spec_get(sender) == q[i].id);
                if k < i {
                    assert(q[k].id < q[i].id);
                } else {
                    assert(q[i].id < q[k].id);
                }
            }
        }
    }
    assert forall|j: int| 0 <= j < q2.len() implies #[trigger] m2.spec_get(q2[j].receiver)
        == q2[j].id by {
        if j == q2.len() - 1 {
            assert(q2[j] == newe);
        } else {
            assert(q2[j] == qmid[j]);
            let k: int = if old_id != 0 && j >= i {
                j + 1
            } else {
                j
            };
            assert(qmid[j] == q[k]);
            assert(q[k].receiver != sender);
            assert(m.spec_get(q[k].receiver) == q[k].id);
        }
    }
    assert forall|o: Seq<char>| #[trigger] m2.spec_get(o) != 0 implies has_id(q2, m2.spec_get(o))
        && q2[index_of_id(q2, m2.spec_get(o))].receiver == o by {
        if o == sender {
            let last = q2.len() - 1;
            assert(q2[last] == newe);
            assert forall|a: int| 0 <= a < last implies #[trigger] q2[a].id != q2[last].id by {
                assert(q2[a].id < q2[last].id);
            }
            lemma_index_of_at(q2, last);
        } else {
            let id = m.spec_get(o);
            assert(has_id(q, id) && q[index_of_id(q, id)].receiver == o);
            lemma_index_of_id(q, id);
            let idx = index_of_id(q, id);
            assert(idx != i);
            let j: int = if old_id != 0 && idx > i {
                idx - 1
            } else {
                idx
            };
            assert(q2[j] == qmid[j]);
            assert(qmid[j] == q[idx]);
            assert forall|a: int| 0 <= a < j implies #[trigger] q2[a].id != q2[j].id by {
                assert(q2[a].id < q2[j].id);
            }
            lemma_index_of_at(q2, j);
        }
    }
}

/// Adds the attached payment to the pool as a resting order under the
/// sender. The payment is priced into pool shares at the current ratio;
/// an existing order of the sender is merged into the new one, which
/// joins the queue at the tail with a fresh id.
#[verifier::rlimit(100)]
pub fn execute_add(
    state: &mut ContractState,
    sender: &String,
    funds: &Vec<Coin>,
    balance: u128,
    height: u64,
) -> (r: Result<AddOutcome, ContractError>)
    requires
        old(state).wf(),
        old(state).queue@.len() == 0 || old(state).queue@.last().id < u64::MAX,
    ensures
        final(state).wf(),
        r is Err ==> *final(state) == *old(state),
        find_denom(funds@, old(state).config.bond_denom@) < 0 ==> r == Err::<
            AddOutcome,
            ContractError,
        >(ContractError::EmptyBalance { denom: old(state).config.bond_denom }),
        find_denom(funds@, old(state).config.bond_denom@) >= 0 ==> ({
            let pre = *old(state);
            let payment = funds@[find_denom(funds@, pre.config.bond_denom@)].amount;
            &&& payment > balance ==> r == Err::<AddOutcome, ContractError>(
                ContractError::ArithmeticUnderflow,
            )
            &&& payment <= balance && !add_ok(pre, sender@, payment, balance) ==> r == Err::<
                AddOutcome,
                ContractError,
            >(ContractError::ArithmeticOverflow)
            &&& add_ok(pre, sender@, payment, balance) ==> ({
                let base = spec_add_base(pre, payment, balance);
                let merged = (base + spec_old_order_value(pre, sender@)) as u128;
                let qmid = spec_add_mid_queue(pre, sender@);
                let newid = spec_append_id(qmid);
                &&& r == Ok::<AddOutcome, ContractError>(
                    AddOutcome { payment, refund: spec_add_refund(pre, payment, balance) },
                )
                &&& final(state).queue@ == qmid.push(
                    QueueEntry { id: newid, receiver: sender@, value: merged, height },
                )
                &&& final(state).supply.issued == pre.supply.issued + base
                &&& final(state).supply.claims == pre.supply.claims
                &&& final(state).queue_id.spec_get(sender@) == newid
                &&& forall|o: Seq<char>|
                    o != sender@ ==> #[trigger] final(state).queue_id.spec_get(o)
                        == pre.queue_id.spec_get(o)
                &&& final(state).claimable == pre.claimable
                &&& final(state).config == pre.config
            })
        }),
{
    let ghost pre = *state;
    let payment = match find_payment(funds, &state.config.bond_denom) {
        Ok(v) => v,
        Err(e) => {
            return Err(e);
        },
    };
    let cur0 = match checked_sub(balance, payment) {
        Ok(v) => v,
        Err(e) => {
            return Err(e);
        },
    };
    let mut refund: Option<u128> = None;
    let mut cur_native = cur0;
    if cur0 > 0 && state.supply.issued == 0 {
        refund = Some(cur0);
        cur_native = 0;
    }
    let ratio = match get_ratio(state.supply.issued, cur_native) {
        Ok(d) => d,
        Err(e) => {
            return Err(e);
        },
    };
    let base = match ratio.mul_floor(payment) {
        Ok(v) => v,
        Err(e) => {
            return Err(e);
        },
    };
    let new_issued = match checked_add(state.supply.issued, base) {
        Ok(v) => v,
        Err(e) => {
            return Err(e);
        },
    };
    let old_node_id = state.queue_id.get(sender);
    let ghost i = index_of_id(pre.queue@, old_node_id);
    proof {
        lemma_ids_strictly_increasing(pre.queue);
        lemma_ids_positive(pre.queue);
        if old_node_id != 0 {
            lemma_index_of_id(pre.queue@, old_node_id);
        }
    }
    let mut new_node_value = base;
    if old_node_id > 0 {
        let old_node = match node_read(&state.queue, old_node_id) {
            Ok(n) => n,
            Err(_) => {
                return Err(ContractError::NotFound);
            },
        };
        new_node_value = match checked_add(base, old_node.value) {
            Ok(v) => v,
            Err(e) => {
                return Err(e);
            },
        };
        match linked_list_remove(&mut state.queue, old_node_id) {
            Ok(_) => {},
            Err(_) => {
                return Err(ContractError::NotFound);
            },
        }
        proof {
            lemma_value_sum_remove(pre.queue@, i);
        }
    }
    proof {
        // the merged node's fresh id still fits: every surviving id is at
        // most the old tail id
        if state.queue@.len() > 0 {
            if old_node_id > 0 {
                let olen = pre.queue@.len() as int;
                if i < olen - 1 {
                    assert(state.queue@[state.queue@.len() - 1] == pre.queue@[olen - 1]) by {
                        assert(pre.queue@.remove(i)[olen - 2] == pre.queue@[olen - 1]);
                    }
                } else {
                    assert(state.queue@[state.queue@.len() - 1] == pre.queue@[olen - 2]) by {
                        assert(pre.queue@.remove(i)[olen - 2] == pre.queue@[olen - 2]);
                    }
                }
            }
        }
    }
    let new_node_id = match linked_list_append(&mut state.queue, sender.clone(), new_node_value, height) {
        Ok(v) => v,
        Err(_) => {
            return Err(ContractError::NotFound);
        },
    };
    state.supply.issued = new_issued;
    state.queue_id.set(sender, new_node_id);
    proof {
        let qmid = spec_add_mid_queue(pre, sender@);
        let newe = QueueEntry {
            id: spec_append_id(qmid),
            receiver: sender@,
            value: new_node_value,
            height,
        };
        lemma_value_sum_push(qmid, newe);
        lemma_queue_id_after_add(
            pre.queue@,
            pre.queue_id,
            qmid,
            state.queue@,
            state.queue_id,
            sender@,
            old_node_id,
            newe,
        );
    }
    Ok(AddOutcome { payment, refund })
}

/// The fee kept by the pool, in native of the incoming amount.
pub open spec fn spec_swap_fee(pre: ContractState, amount: u128) -> int {
    (amount * pre.config.swap_fee) / 10000
}

/// The incoming order's worth in native value, after the fee, at the
/// staking ledger's share price.
pub open spec fn spec_order_native(pre: ContractState, amount: u128, ratio: Decimal) -> int {
    ((amount - spec_swap_fee(pre, amount)) * ratio.atomics) / (DECIMAL_FRACTIONAL as int)
}

/// The scaled pool-share price used to convert the order's native worth
/// into pool shares.
pub open spec fn spec_lp_ratio_atomics(pre: ContractState, balance: u128) -> int {
    if balance == 0 {
        DECIMAL_FRACTIONAL as int
    } else {
        (pre.supply.issued * DECIMAL_FRACTIONAL) / (balance as int)
    }
}

/// The pool shares the incoming order must consume.
pub open spec fn spec_order_lp(pre: ContractState, amount: u128, ratio: Decimal, balance: u128) -> int {
    (spec_order_native(pre, amount, ratio) * spec_lp_ratio_atomics(pre, balance)) / (
    DECIMAL_FRACTIONAL as int)
}

/// One match run against the resting queue: each step pairs the order at
/// the head with the amount matched off it; a head that fits entirely is
/// consumed whole, the first one that does not fit absorbs the rest.
pub open spec fn match_steps(q: Seq<QueueEntry>, remain: u128) -> Seq<(QueueEntry, u128)>
    decreases q.len(),
{
    if remain == 0 || q.len() == 0 {
        Seq::empty()
    } else if q[0].value <= remain {
        seq![(q[0], q[0].value)] + match_steps(q.drop_first(), (remain - q[0].value) as u128)
    } else {
        seq![(q[0], remain)]
    }
}

/// The queue left over after the match run.
pub open spec fn match_queue(q: Seq<QueueEntry>, remain: u128) -> Seq<QueueEntry>
    decreases q.len(),
{
    if remain == 0 || q.len() == 0 {
        q
    } else if q[0].value <= remain {
        match_queue(q.drop_first(), (remain - q[0].value) as u128)
    } else {
        q.update(0, QueueEntry { value: (q[0].value - remain) as u128, ..q[0] })
    }
}

/// The share tokens `owner` earns over a match run: for each matched
/// step, a share of the gross incoming amount proportional to the matched
/// part of the whole order, rounded down.
pub open spec fn earnings_owner(
    steps: Seq<(QueueEntry, u128)>,
    amount: u128,
    order_lp: u128,
    owner: Seq<char>,
) -> int
    decreases steps.len(),
{
    if steps.len() == 0 {
        0
    } else {
        (if steps[0].0.receiver == owner {
            (amount * steps[0].1) / (order_lp as int)
        } else {
            0
        }) + earnings_owner(steps.drop_first(), amount, order_lp, owner)
    }
}

/// The share tokens all counterparties together earn over a match run.
pub open spec fn earnings_total(steps: Seq<(QueueEntry, u128)>, amount: u128, order_lp: u128) -> int
    decreases steps.len(),
{
    if steps.len() == 0 {
        0
    } else {
        (amount * steps[0].1) / (order_lp as int) + earnings_total(
            steps.drop_first(),
            amount,
            order_lp,
        )
    }
}

/// Whether some step of the run filled one of `owner`'s orders entirely.
pub open spec fn owner_filled(steps: Seq<(QueueEntry, u128)>, owner: Seq<char>) -> bool {
    exists|k: int|
        0 <= k < steps.len() && #[trigger] steps[k].0.receiver == owner && steps[k].1 == steps[
            k
        ].0.value
}

proof fn lemma_earnings_push(
    steps: Seq<(QueueEntry, u128)>,
    s: (QueueEntry, u128),
    amount: u128,
    order_lp: u128,
    owner: Seq<char>,
)
    ensures
        earnings_owner(steps.push(s), amount, order_lp, owner) == earnings_owner(
            steps,
            amount,
            order_lp,
            owner,
        ) + (if s.0.receiver == owner {
            (amount * s.1) / (order_lp as int)
        } else {
            0
        }),
        earnings_total(steps.push(s), amount, order_lp) == earnings_total(steps, amount, order_lp)
            + (amount * s.1) / (order_lp as int),
    decreases steps.len(),
{
    assert(earnings_owner(steps.push(s), amount, order_lp, owner) == (if steps.push(
        s,
    )[0].0.receiver == owner {
        (amount * steps.push(s)[0].1) / (order_lp as int)
    } else {
        0
    }) + earnings_owner(steps.push(s).drop_first(), amount, order_lp, owner));
    assert(earnings_total(steps.push(s), amount, order_lp) == (amount * steps.push(s)[0].1) / (
    order_lp as int) + earnings_total(steps.push(s).drop_first(), amount, order_lp));
    if steps.len() == 0 {
        assert(steps.push(s)[0] == s);
        assert(steps.push(s).drop_first() =~= Seq::<(QueueEntry, u128)>::empty());
    } else {
        assert(steps.push(s)[0] == steps[0]);
        assert(steps.push(s).drop_first() =~= steps.drop_first().push(s));
        lemma_earnings_push(steps.drop_first(), s, amount, order_lp, owner);
    }
}

proof fn lemma_earnings_concat(
    a: Seq<(QueueEntry, u128)>,
    b: Seq<(QueueEntry, u128)>,
    amount: u128,
    order_lp: u128,
    owner: Seq<char>,
)
    ensures
        earnings_owner(a + b, amount, order_lp, owner) == earnings_owner(a, amount, order_lp, owner)
            + earnings_owner(b, amount, order_lp, owner),
        earnings_total(a + b, amount, order_lp) == earnings_total(a, amount, order_lp)
            + earnings_total(b, amount, order_lp),
    decreases a.len(),
{
    if a.len() == 0 {
        assert(a + b =~= b);
    } else {
        assert((a + b)[0] == a[0]);
        assert((a + b).drop_first() =~= a.drop_first() + b);
        lemma_earnings_concat(a.drop_first(), b, amount, order_lp, owner);
    }
}

proof fn lemma_earnings_nonneg(
    steps: Seq<(QueueEntry, u128)>,
    amount: u128,
    order_lp: u128,
    owner: Seq<char>,
)
    requires
        order_lp > 0,
    ensures
        0 <= earnings_owner(steps, amount, order_lp, owner),
        earnings_owner(steps, amount, order_lp, owner) <= earnings_total(steps, amount, order_lp),
    decreases steps.len(),
{
    if steps.len() > 0 {
        lemma_earnings_nonneg(steps.drop_first(), amount, order_lp, owner);
        vstd::arithmetic::mul::lemma_mul_nonnegative(amount as int, steps[0].1 as int);
        vstd::arithmetic::div_mod::lemma_div_is_ordered(
            0,
            amount * steps[0].1,
            order_lp as int,
        );
    }
}

/// The counterparties together never earn more than the proportional
/// share of the total matched value: truncation only loses value.
proof fn lemma_earnings_le(steps: Seq<(QueueEntry, u128)>, amount: u128, order_lp: u128)
    requires
        order_lp > 0,
    ensures
        0 <= earnings_total(steps, amount, order_lp),
        earnings_total(steps, amount, order_lp) <= (amount * steps_total(steps)) / (
        order_lp as int),
    decreases steps.len(),
{
    if steps.len() == 0 {
        assert((amount * 0) / (order_lp as int) == 0) by {
            assert(amount * 0 == 0) by (nonlinear_arith);
        }
    } else {
        let rest = steps.drop_first();
        lemma_earnings_le(rest, amount, order_lp);
        lemma_steps_nonneg(rest, Seq::<char>::empty());
        vstd::arithmetic::mul::lemma_mul_nonnegative(amount as int, steps[0].1 as int);
        vstd::arithmetic::mul::lemma_mul_nonnegative(amount as int, steps_total(rest));
        vstd::arithmetic::div_mod::lemma_div_is_ordered(0, amount * steps[0].1, order_lp as int);
        lemma_div_add_le(amount * steps[0].1, amount * steps_total(rest), order_lp as int);
        assert(amount * steps[0].1 + amount * steps_total(rest) == amount * (steps[0].1
            + steps_total(rest))) by (nonlinear_arith);
    }
}

/// Everything the match-mode settlement promises: which error comes on
/// which inputs, and how the ledger changes on success.
pub open spec fn swap_transition(
    pre: ContractState,
    post: ContractState,
    r: Result<u128, ContractError>,
    amount: u128,
    staking_ratio: Decimal,
    balance: u128,
) -> bool {
        let fee = spec_swap_fee(pre, amount);
        let o_native = spec_order_native(pre, amount, staking_ratio);
        let lp_atomics = spec_lp_ratio_atomics(pre, balance);
        let o_lp = spec_order_lp(pre, amount, staking_ratio, balance);
        &&& fee > u128::MAX ==> r == Err::<u128, ContractError>(
            ContractError::ArithmeticOverflow,
        )
        &&& fee <= u128::MAX && fee > amount ==> r == Err::<u128, ContractError>(
            ContractError::ArithmeticUnderflow,
        )
        &&& fee <= u128::MAX && fee <= amount && o_native > u128::MAX ==> r == Err::<
            u128,
            ContractError,
        >(ContractError::ArithmeticOverflow)
        &&& fee <= u128::MAX && fee <= amount && o_native <= u128::MAX && lp_atomics
            > u128::MAX ==> r == Err::<u128, ContractError>(ContractError::ArithmeticOverflow)
        &&& fee <= u128::MAX && fee <= amount && o_native <= u128::MAX && lp_atomics
            <= u128::MAX && o_lp > u128::MAX ==> r == Err::<u128, ContractError>(
            ContractError::ArithmeticOverflow,
        )
        &&& fee <= u128::MAX && fee <= amount && o_native <= u128::MAX && lp_atomics
            <= u128::MAX && o_lp <= u128::MAX && o_lp > pre.supply.issued ==> r == Err::<
            u128,
            ContractError,
        >(ContractError::InsufficientLiquidity)
        &&& fee <= u128::MAX && fee <= amount && o_native <= u128::MAX && lp_atomics
            <= u128::MAX && o_lp <= u128::MAX && o_lp <= pre.supply.issued
            && pre.supply.claims + amount > u128::MAX ==> r == Err::<u128, ContractError>(
            ContractError::ArithmeticOverflow,
        )
        &&& fee <= u128::MAX && fee <= amount && o_native <= u128::MAX && lp_atomics
            <= u128::MAX && o_lp <= u128::MAX && o_lp <= pre.supply.issued
            && pre.supply.claims + amount <= u128::MAX && !(forall|o: Seq<char>|
            pre.claimable.spec_get(o) + #[trigger] earnings_owner(
                match_steps(pre.queue@, o_lp as u128),
                amount,
                o_lp as u128,
                o,
            ) <= u128::MAX) ==> r == Err::<u128, ContractError>(
            ContractError::ArithmeticOverflow,
        )
        &&& fee <= u128::MAX && fee <= amount && o_native <= u128::MAX && lp_atomics
            <= u128::MAX && o_lp <= u128::MAX && o_lp <= pre.supply.issued
            && pre.supply.claims + amount <= u128::MAX && (forall|o: Seq<char>|
            pre.claimable.spec_get(o) + #[trigger] earnings_owner(
                match_steps(pre.queue@, o_lp as u128),
                amount,
                o_lp as u128,
                o,
            ) <= u128::MAX) ==> ({
            let steps = match_steps(pre.queue@, o_lp as u128);
            &&& r == Ok::<u128, ContractError>(o_native as u128)
            &&& post.queue@ == match_queue(pre.queue@, o_lp as u128)
            &&& post.supply.issued == pre.supply.issued - o_lp
            &&& post.supply.claims == pre.supply.claims + amount
            &&& forall|o: Seq<char>|
                #[trigger] post.claimable.spec_get(o) == pre.claimable.spec_get(o)
                + earnings_owner(steps, amount, o_lp as u128, o)
            &&& forall|o: Seq<char>|
                #[trigger] post.queue_id.spec_get(o) == (if owner_filled(steps, o) {
                0u64
                } else {
                pre.queue_id.spec_get(o)
                })
            &&& post.config == pre.config
        })
        }

/// Match-mode settlement. The incoming `amount` of share tokens, less the
/// pool fee, is priced into native value at the staking ledger's ratio
/// and into pool shares at the pool's own ratio; the pool shares are then
/// matched against the resting orders in first-in-first-out order, each
/// counterparty earning a share of the gross amount proportional to the
/// matched part of the whole order. The caller is owed the order's native
/// worth, which the host pays with a bank-send instruction.
#[verifier::rlimit(100)]
pub fn execute_swap(
    state: &mut ContractState,
    amount: u128,
    staking_ratio: Decimal,
    balance: u128,
) -> (r: Result<u128, ContractError>)
    requires
        old(state).wf(),
    ensures
        final(state).wf(),
        r is Err ==> *final(state) == *old(state),
        swap_transition(*old(state), *final(state), r, amount, staking_ratio, balance),
{
    let ghost pre = *state;
    let swap_fee = match multiply_ratio(amount, state.config.swap_fee, 10000) {
        Ok(v) => v,
        Err(e) => {
            return Err(e);
        },
    };
    let order_liquid = match checked_sub(amount, swap_fee) {
        Ok(v) => v,
        Err(e) => {
            return Err(e);
        },
    };
    let order_native = match staking_ratio.mul_floor(order_liquid) {
        Ok(v) => v,
        Err(e) => {
            return Err(e);
        },
    };
    let lp_ratio = match get_ratio(state.supply.issued, balance) {
        Ok(d) => d,
        Err(e) => {
            return Err(e);
        },
    };
    let order_lp = match lp_ratio.mul_floor(order_native) {
        Ok(v) => v,
        Err(e) => {
            return Err(e);
        },
    };
    if order_lp > state.supply.issued {
        return Err(ContractError::InsufficientLiquidity);
    }
    let new_claims = match checked_add(state.supply.claims, amount) {
        Ok(v) => v,
        Err(e) => {
            return Err(e);
        },
    };
    let mut queue = state.queue.clone();
    let mut claimable = state.claimable.clone();
    let mut queue_id = state.queue_id.clone();
    let mut remain = order_lp;
    let ghost q0 = pre.queue@;
    let ghost full_steps = match_steps(q0, order_lp);
    let ghost mut steps_done: Seq<(QueueEntry, u128)> = Seq::empty();
    proof {
        assert(full_steps =~= steps_done + match_steps(queue@, remain));
        assert forall|o: Seq<char>| #[trigger] claimable.spec_get(o) as int
            == pre.claimable.spec_get(o) + earnings_owner(steps_done, amount, order_lp, o) by {
            assert(claimable.spec_get(o) == pre.claimable.spec_get(o));
        }
        assert(claimable.total() == pre.claimable.total());
        assert forall|o: Seq<char>| #[trigger] queue_id.spec_get(o) == (if owner_filled(
            steps_done,
            o,
        ) {
            0u64
        } else {
            pre.queue_id.spec_get(o)
        }) by {
            assert(queue_id.spec_get(o) == pre.queue_id.spec_get(o));
        }
        assert(queue_id_ok(queue@, queue_id)) by {
            assert forall|i: int| 0 <= i < queue@.len() implies #[trigger] queue_id.spec_get(
                queue@[i].receiver,
            ) == queue@[i].id by {
                assert(pre.queue_id.spec_get(pre.queue@[i].receiver) == pre.queue@[i].id);
            }
            assert forall|o: Seq<char>| #[trigger] queue_id.spec_get(o) != 0 implies has_id(
                queue@,
                queue_id.spec_get(o),
            ) && queue@[index_of_id(queue@, queue_id.spec_get(o))].receiver == o by {
                assert(pre.queue_id.spec_get(o) != 0);
            }
        }
    }
    while remain > 0
        invariant
            queue.wf(),
            claimable.wf(),
            queue_id.wf(),
            queue_id_ok(queue@, queue_id),
            order_lp <= pre.supply.issued,
            remain as int == order_lp - steps_total(steps_done),
            remain as int <= value_sum(queue@),
            value_sum(queue@) == value_sum(q0) - steps_total(steps_done),
            full_steps == steps_done + match_steps(queue@, remain),
            match_queue(q0, order_lp) == match_queue(queue@, remain),
            forall|o: Seq<char>|
                #[trigger] claimable.spec_get(o) as int == pre.claimable.spec_get(o)
                    + earnings_owner(steps_done, amount, order_lp, o),
            claimable.total() as int == pre.claimable.total() + earnings_total(
                steps_done,
                amount,
                order_lp,
            ),
            forall|o: Seq<char>|
                #[trigger] queue_id.spec_get(o) == (if owner_filled(steps_done, o) {
                    0u64
                } else {
                    pre.queue_id.spec_get(o)
                }),
        decreases queue@.len(), remain,
    {
        let ghost qb = queue@;
        let ghost remainb = remain;
        let ghost done_b = steps_done;
        let ghost qid_top = queue_id;
        proof {
            if qb.len() == 0 {
                assert(value_sum(qb) == 0);
            }
            assert(index_of_id(qb, qb[0].id) == 0);
            lemma_value_sum_bounds(qb);
            lemma_steps_nonneg(done_b, qb[0].receiver);
            lemma_ids_positive(queue);
            lemma_ids_strictly_increasing(queue);
        }
        let root = linked_list_read(&queue);
        let cp_order = match node_read(&queue, root.head_id) {
            Ok(n) => n,
            Err(_) => {
                return Err(ContractError::NotFound);
            },
        };
        let ghost e0 = qb[0];
        let matched = if cp_order.value <= remain {
            cp_order.value
        } else {
            remain
        };
        let earning = match multiply_ratio(amount, matched, order_lp) {
            Ok(v) => v,
            Err(_) => {
                proof {
                    lemma_mul_div_le(matched as int, amount as int, order_lp as int);
                    assert(matched * amount == amount * matched) by (nonlinear_arith);
                }
                return Err(ContractError::ArithmeticOverflow);
            },
        };
        let ghost step = (e0, matched);
        let cur_cl = claimable.get(&cp_order.receiver);
        let new_cl = match checked_add(cur_cl, earning) {
            Ok(v) => v,
            Err(_) => {
                proof {
                    steps_done = steps_done.push(step);
                    lemma_earnings_push(done_b, step, amount, order_lp, e0.receiver);
                    if e0.value <= remainb {
                        assert(match_steps(qb, remainb) == seq![step] + match_steps(
                            qb.drop_first(),
                            (remainb - e0.value) as u128,
                        ));
                        assert(full_steps =~= steps_done + match_steps(
                            qb.drop_first(),
                            (remainb - e0.value) as u128,
                        )) by {
                            assert(done_b + (seq![step] + match_steps(
                                qb.drop_first(),
                                (remainb - e0.value) as u128,
                            )) =~= steps_done + match_steps(
                                qb.drop_first(),
                                (remainb - e0.value) as u128,
                            ));
                        }
                        let rest = match_steps(qb.drop_first(), (remainb - e0.value) as u128);
                        lemma_earnings_concat(steps_done, rest, amount, order_lp, e0.receiver);
                        lemma_earnings_nonneg(rest, amount, order_lp, e0.receiver);
                    } else {
                        assert(match_steps(qb, remainb) == seq![step]);
                        assert(full_steps =~= steps_done) by {
                            assert(done_b + seq![step] =~= steps_done);
                        }
                    }
                    assert(pre.claimable.spec_get(e0.receiver) + earnings_owner(
                        full_steps,
                        amount,
                        order_lp,
                        e0.receiver,
                    ) > u128::MAX);
                }
                return Err(ContractError::ArithmeticOverflow);
            },
        };
        claimable.set(&cp_order.receiver, new_cl);
        if matched == cp_order.value {
            match linked_list_remove_head(&mut queue) {
                Ok(_) => {},
                Err(_) => {
                    return Err(ContractError::NotFound);
                },
            }
            let ghost m_b = queue_id;
            queue_id.set(&cp_order.receiver, 0);
            proof {
                assert(qb.remove(0) =~= qb.drop_first());
                lemma_queue_id_after_remove(qb, m_b, queue@, queue_id, e0.receiver, 0);
            }
        } else {
            let newval = cp_order.value - matched;
            match node_update_value(&mut queue, root.head_id, newval) {
                Ok(_) => {},
                Err(_) => {
                    return Err(ContractError::NotFound);
                },
            }
            proof {
                let e1 = QueueEntry { value: newval, ..e0 };
                assert(queue@ == qb.update(0, e1));
                lemma_value_sum_update(qb, 0, e1);
                assert(queue_id_ok(queue@, queue_id)) by {
                    assert forall|i: int| 0 <= i < queue@.len() implies #[trigger]
                        queue_id.spec_get(queue@[i].receiver) == queue@[i].id by {
                        if i == 0 {
                            assert(queue@[0].receiver == qb[0].receiver);
                        } else {
                            assert(queue@[i] == qb[i]);
                        }
                    }
                    assert forall|o: Seq<char>| #[trigger] queue_id.spec_get(o) != 0 implies
                        has_id(queue@, queue_id.spec_get(o)) && queue@[index_of_id(
                        queue@,
                        queue_id.spec_get(o),
                    )].receiver == o by {
                        let id = queue_id.spec_get(o);
                        assert forall|k: int| 0 <= k < qb.len() implies #[trigger] qb[k].id
                            == queue@[k].id by {
                            if k != 0 {
                                assert(queue@[k] == qb[k]);
                            }
                        }
                        lemma_index_of_same_ids(qb, queue@, id);
                        let idx = index_of_id(qb, id);
                        lemma_index_of_id(qb, id);
                        if idx != 0 {
                            assert(queue@[idx] == qb[idx]);
                        }
                    }
                }
            }
        }
        remain = remain - matched;
        proof {
            steps_done = steps_done.push(step);
            lemma_steps_total_push(done_b, step);
            if e0.value <= remainb {
                assert(match_steps(qb, remainb) == seq![step] + match_steps(
                    queue@,
                    (remainb - matched) as u128,
                ));
                assert(full_steps =~= steps_done + match_steps(queue@, remain)) by {
                    assert(done_b + (seq![step] + match_steps(queue@, remain)) =~= steps_done
                        + match_steps(queue@, remain));
                }
                assert(match_queue(qb, remainb) == match_queue(queue@, remain));
            } else {
                assert(match_steps(qb, remainb) == seq![step]);
                assert(full_steps =~= steps_done + match_steps(queue@, 0u128)) by {
                    assert(done_b + seq![step] =~= steps_done);
                }
                assert(match_queue(qb, remainb) == queue@);
                assert(match_queue(queue@, 0u128) == queue@);
            }
            assert forall|o: Seq<char>| #[trigger] claimable.spec_get(o) as int
                == pre.claimable.spec_get(o) + earnings_owner(steps_done, amount, order_lp, o) by {
                lemma_earnings_push(done_b, step, amount, order_lp, o);
            }
            lemma_earnings_push(done_b, step, amount, order_lp, e0.receiver);
            assert forall|o: Seq<char>| #[trigger] queue_id.spec_get(o) == (if owner_filled(
                steps_done,
                o,
            ) {
                0u64
            } else {
                pre.queue_id.spec_get(o)
            }) by {
                if o == e0.receiver {
                    if matched == e0.value {
                        assert(steps_done[steps_done.len() - 1] == step);
                        assert(owner_filled(steps_done, o));
                    } else {
                        // the head's owner cannot have been fully filled
                        // earlier: its index entry still points at the head
                        if owner_filled(done_b, o) {
                            assert(qid_top.spec_get(o) == 0);
                            assert(qid_top.spec_get(qb[0].receiver) == qb[0].id);
                            assert(qb[0].id >= 1);
                            assert(false);
                        }
                        assert forall|k: int|
                            0 <= k < steps_done.len() && #[trigger] steps_done[k].0.receiver == o
                                implies steps_done[k].1 != steps_done[k].0.value by {
                            if k < done_b.len() {
                                assert(steps_done[k] == done_b[k]);
                                if done_b[k].1 == done_b[k].0.value {
                                    assert(owner_filled(done_b, o));
                                }
                            } else {
                                assert(steps_done[k] == step);
                            }
                        }
                    }
                } else {
                    if owner_filled(steps_done, o) {
                        let k = choose|k: int|
                            0 <= k < steps_done.len() && #[trigger] steps_done[k].0.receiver == o
                                && steps_done[k].1 == steps_done[k].0.value;
                        assert(k < done_b.len());
                        assert(done_b[k] == steps_done[k]);
                        assert(owner_filled(done_b, o));
                    } else {
                        if owner_filled(done_b, o) {
                            let k = choose|k: int|
                                0 <= k < done_b.len() && #[trigger] done_b[k].0.receiver == o
                                    && done_b[k].1 == done_b[k].0.value;
                            assert(steps_done[k] == done_b[k]);
                            assert(owner_filled(steps_done, o));
                        }
                    }
                }
            }
        }
    }
    proof {
        assert(match_steps(queue@, remain) == Seq::<(QueueEntry, u128)>::empty());
        assert(full_steps =~= steps_done);
        assert(match_queue(q0, order_lp) == queue@);
        assert(steps_total(full_steps) == order_lp);
        if order_lp > 0 {
            lemma_earnings_le(full_steps, amount, order_lp);
            vstd::arithmetic::div_mod::lemma_div_multiples_vanish(
                amount as int,
                order_lp as int,
            );
            assert(amount * (order_lp as int) == (order_lp as int) * amount)
                by (nonlinear_arith);
            assert(earnings_total(full_steps, amount, order_lp) <= amount);
        } else {
            assert(full_steps =~= Seq::<(QueueEntry, u128)>::empty());
            assert(earnings_total(full_steps, amount, order_lp) == 0);
        }
    }
    state.supply.issued = state.supply.issued - order_lp;
    state.supply.claims = new_claims;
    state.queue = queue;
    state.claimable = claimable;
    state.queue_id = queue_id;
    proof {
        assert forall|o: Seq<char>| #[trigger] state.claimable.spec_get(o)
            == pre.claimable.spec_get(o) + earnings_owner(full_steps, amount, order_lp, o) by {
            assert(claimable.spec_get(o) as int == pre.claimable.spec_get(o) + earnings_owner(
                full_steps,
                amount,
                order_lp,
                o,
            ));
        }
        assert forall|o: Seq<char>| #[trigger] state.queue_id.spec_get(o) == (if owner_filled(
            full_steps,
            o,
        ) {
            0u64
        } else {
            pre.queue_id.spec_get(o)
        }) by {
            assert(queue_id.spec_get(o) == (if owner_filled(full_steps, o) {
                0u64
            } else {
                pre.queue_id.spec_get(o)
            }));
        }
        assert(state.claimable.total() == claimable.total());
        assert(state.wf());
        assert forall|o: Seq<char>|
            pre.claimable.spec_get(o) + #[trigger] earnings_owner(
                match_steps(pre.queue@, order_lp),
                amount,
                order_lp,
                o,
            ) <= u128::MAX by {
            assert(state.claimable.spec_get(o) as int == pre.claimable.spec_get(o)
                + earnings_owner(full_steps, amount, order_lp, o));
        }
    }
    Ok(order_native)
}

/// A swap order arriving through the share-token contract: only that
/// contract may deliver it; the forwarded amount is then swapped.
pub fn execute_receive(
    state: &mut ContractState,
    token_contract: &String,
    amount: u128,
    staking_ratio: Decimal,
    balance: u128,
) -> (r: Result<u128, ContractError>)
    requires
        old(state).wf(),
    ensures
        final(state).wf(),
        r is Err ==> *final(state) == *old(state),
        token_contract@ != old(state).config.liquid_token_addr@ ==> r == Err::<u128, ContractError>(
            ContractError::Unauthorized,
        ),
        token_contract@ == old(state).config.liquid_token_addr@ ==> swap_transition(
            *old(state),
            *final(state),
            r,
            amount,
            staking_ratio,
            balance,
        ),
{
    if !(*token_contract == state.config.liquid_token_addr) {
        return Err(ContractError::Unauthorized);
    }
    execute_swap(state, amount, staking_ratio, balance)
}

/// Accounting conservation: in every well-formed state the issued-share
/// counter equals the sum of the values of all resting orders, exactly.
pub proof fn lemma_accounting_conservation(s: ContractState)
    requires
        s.wf(),
    ensures
        s.supply.issued as int == value_sum(s.queue@),
        s.supply.claims as int >= s.claimable.total(),
{
}

/// How a withdrawal of earned share tokens changes the ledger: the whole
/// claimable balance is paid and zeroed, or nothing happens at all.
pub open spec fn claim_transition(
    pre: ContractState,
    post: ContractState,
    r: Result<u128, ContractError>,
    sender: Seq<char>,
) -> bool {
    &&& pre.claimable.spec_get(sender) == 0 ==> r == Err::<u128, ContractError>(
        ContractError::NothingToClaim,
    ) && post == pre
    &&& pre.claimable.spec_get(sender) > 0 ==> {
        &&& r == Ok::<u128, ContractError>(pre.claimable.spec_get(sender))
        &&& post.claimable.spec_get(sender) == 0
        &&& forall|o: Seq<char>|
            o != sender ==> #[trigger] post.claimable.spec_get(o) == pre.claimable.spec_get(o)
        &&& post.supply.claims == pre.supply.claims - pre.claimable.spec_get(sender)
        &&& post.supply.issued == pre.supply.issued
        &&& post.queue == pre.queue
        &&& post.queue_id == pre.queue_id
        &&& post.config == pre.config
    }
}

/// No double payout: when a claim succeeds it zeroes the claimable
/// balance, so a second claim by the same owner with no settlement in
/// between fails with `NothingToClaim` and changes nothing.
pub proof fn lemma_no_double_payout(
    s1: ContractState,
    s2: ContractState,
    s3: ContractState,
    r1: Result<u128, ContractError>,
    r2: Result<u128, ContractError>,
    sender: Seq<char>,
)
    requires
        claim_transition(s1, s2, r1, sender),
        r1 is Ok,
        claim_transition(s2, s3, r2, sender),
    ensures
        r2 == Err::<u128, ContractError>(ContractError::NothingToClaim),
        s3 == s2,
{
}

} // verus!
