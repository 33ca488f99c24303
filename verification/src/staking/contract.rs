//! The staking ledger's operations: staking, unstaking into the queue,
//! drain-mode settlement, withdrawal of settled value, and the read-only
//! queries.
use vstd::prelude::*;

use crate::coin::{find_denom, find_payment, Coin};
use crate::decimal::{get_ratio, spec_ratio_atomics, Decimal};
use crate::error::ContractError;
use crate::linked_list::{
    index_of_id, lemma_owner_sum_bounds, lemma_owner_sum_push, lemma_owner_sum_update0,
    lemma_value_sum_bounds, lemma_value_sum_push, lemma_value_sum_update, linked_list_append,
    linked_list_get_list, linked_list_read, linked_list_remove_head, node_read, node_update_value,
    owner_sum, spec_append_id, value_sum, QueueEntry, QueueStorage,
};
use crate::settlement::{
    lemma_steps_nonneg, lemma_steps_owner_concat, lemma_steps_owner_push, lemma_steps_total_concat,
    lemma_steps_total_push, steps_owner, steps_total,
};
use crate::math::{checked_add, checked_sub, multiply_ratio};
use crate::owner_map::AmountMap;
use crate::staking::msg::{ConfigResponse, InstantiateMsg, StatusResponse, UnstakingQueueResponse};
use crate::staking::state::{ConfigInfo, ContractState, Supply};

verus! {

/// Sets up a fresh ledger: an empty queue, zeroed totals, and the given
/// configuration. The share-token address starts as the literal `"none"`
/// until the admin sets it.
pub fn instantiate(owner: String, bond_denom: String, msg: InstantiateMsg) -> (s: ContractState)
    ensures
        s.wf(),
        s.config.owner == owner,
        s.config.bond_denom == bond_denom,
        s.config.validator == msg.validator,
        s.config.liquid_token_addr@ == "none"@,
        s.supply == (Supply { native: 0u128, unstakings: 0u128, claims: 0u128 }),
        s.queue@ == Seq::<QueueEntry>::empty(),
        forall|o: Seq<char>| s.claimable.spec_get(o) == 0,
        forall|o: Seq<char>| s.under_unstaking.spec_get(o) == 0,
{
    let s = ContractState {
        config: ConfigInfo {
            owner,
            bond_denom,
            liquid_token_addr: "none".to_owned(),
            validator: msg.validator,
        },
        supply: Supply::default(),
        queue: QueueStorage::new(),
        claimable: AmountMap::new(),
        under_unstaking: AmountMap::new(),
    };
    proof {
        assert(value_sum(s.queue@) == 0);
        assert forall|o: Seq<char>| #[trigger] s.under_unstaking.spec_get(o) as int == owner_sum(
            s.queue@,
            o,
        ) by {
            assert(owner_sum(s.queue@, o) == 0);
        }
    }
    s
}

/// Validates that the caller attached a payment in the bonded
/// denomination and hands back its amount; the caller is then staked by
/// minting shares for it against that payment.
pub fn execute_stake(state: &ContractState, funds: &Vec<Coin>) -> (r: Result<u128, ContractError>)
    ensures
        find_denom(funds@, state.config.bond_denom@) >= 0 ==> r == Ok::<u128, ContractError>(
            funds@[find_denom(funds@, state.config.bond_denom@)].amount,
        ),
        find_denom(funds@, state.config.bond_denom@) < 0 ==> r == Err::<u128, ContractError>(
            ContractError::EmptyBalance { denom: state.config.bond_denom },
        ),
{
    find_payment(funds, &state.config.bond_denom)
}

/// The share amount minted for `native_amount` of incoming value: at par
/// while no shares circulate, proportional to the circulating supply
/// afterwards.
pub open spec fn spec_to_mint(pre: ContractState, native_amount: u128, liquid_supply: u128) -> int {
    if liquid_supply == 0 {
        native_amount as int
    } else {
        (native_amount * liquid_supply) / (pre.supply.native as int)
    }
}

/// Accounts an incoming stake: computes the share amount to mint against
/// the current issuance ratio and adds the staked value to the native
/// total. The mint itself is an instruction to the share-token contract.
pub fn _mint_liquid_token(state: &mut ContractState, native_amount: u128, liquid_supply: u128) -> (r:
    Result<u128, ContractError>)
    requires
        old(state).wf(),
        liquid_supply > 0 ==> old(state).supply.native > 0,
    ensures
        final(state).wf(),
        r is Err ==> *final(state) == *old(state),
        spec_to_mint(*old(state), native_amount, liquid_supply) > u128::MAX ==> r == Err::<
            u128,
            ContractError,
        >(ContractError::ArithmeticOverflow),
        spec_to_mint(*old(state), native_amount, liquid_supply) <= u128::MAX && old(
            state,
        ).supply.native + native_amount > u128::MAX ==> r == Err::<u128, ContractError>(
            ContractError::ArithmeticOverflow,
        ),
        spec_to_mint(*old(state), native_amount, liquid_supply) <= u128::MAX && old(
            state,
        ).supply.native + native_amount <= u128::MAX ==> {
            &&& r == Ok::<u128, ContractError>(
                spec_to_mint(*old(state), native_amount, liquid_supply) as u128,
            )
            &&& final(state).supply.native == old(state).supply.native + native_amount
            &&& final(state).supply.unstakings == old(state).supply.unstakings
            &&& final(state).supply.claims == old(state).supply.claims
            &&& final(state).queue == old(state).queue
            &&& final(state).claimable == old(state).claimable
            &&& final(state).under_unstaking == old(state).under_unstaking
            &&& final(state).config == old(state).config
        },
{
    let to_mint = if liquid_supply == 0 {
        native_amount
    } else {
        match multiply_ratio(native_amount, liquid_supply, state.supply.native) {
            Ok(v) => v,
            Err(e) => {
                return Err(e);
            },
        }
    };
    let new_native = match checked_add(state.supply.native, native_amount) {
        Ok(v) => v,
        Err(e) => {
            return Err(e);
        },
    };
    state.supply.native = new_native;
    Ok(to_mint)
}

/// The native value that burning `amount` share tokens is worth at the
/// current issuance ratio.
pub open spec fn spec_unstake_value(pre: ContractState, amount: u128, liquid_supply: u128) -> int {
    (amount * pre.supply.native) / (liquid_supply as int)
}

/// How an unstake request changes the ledger: the value leaves the
/// withdrawable total, joins the queued-but-unpaid total, is appended to
/// the queue under the sender, and is added to the sender's pending
/// amount.
pub open spec fn unstake_transition(
    pre: ContractState,
    post: ContractState,
    r: Result<u128, ContractError>,
    sender: Seq<char>,
    amount: u128,
    liquid_supply: u128,
    height: u64,
) -> bool {
    let a = spec_unstake_value(pre, amount, liquid_supply);
    &&& a > u128::MAX ==> r == Err::<u128, ContractError>(ContractError::ArithmeticOverflow)
        && post == pre
    &&& a <= u128::MAX && a > pre.supply.native ==> r == Err::<u128, ContractError>(
        ContractError::ArithmeticUnderflow,
    ) && post == pre
    &&& a <= u128::MAX && a <= pre.supply.native && pre.supply.unstakings + a > u128::MAX ==> r
        == Err::<u128, ContractError>(ContractError::ArithmeticOverflow) && post == pre
    &&& a <= u128::MAX && a <= pre.supply.native && pre.supply.unstakings + a <= u128::MAX ==> {
        &&& r == Ok::<u128, ContractError>(a as u128)
        &&& post.supply.native == pre.supply.native - a
        &&& post.supply.unstakings == pre.supply.unstakings + a
        &&& post.supply.claims == pre.supply.claims
        &&& post.queue@ == pre.queue@.push(
            QueueEntry { id: spec_append_id(pre.queue@), receiver: sender, value: a as u128, height },
        )
        &&& post.under_unstaking.spec_get(sender) == pre.under_unstaking.spec_get(sender) + a
        &&& forall|o: Seq<char>|
            o != sender ==> #[trigger] post.under_unstaking.spec_get(o)
                == pre.under_unstaking.spec_get(o)
        &&& post.claimable == pre.claimable
        &&& post.config == pre.config
    }
}

/// Queues an unstaking request: burns `amount` share tokens (the burn is
/// an instruction to the share-token contract), converts them to native
/// value at the current ratio, and appends the request to the queue.
pub fn execute_unstake(
    state: &mut ContractState,
    sender: String,
    amount: u128,
    liquid_supply: u128,
    height: u64,
) -> (r: Result<u128, ContractError>)
    requires
        old(state).wf(),
        liquid_supply > 0,
        old(state).queue@.len() == 0 || old(state).queue@.last().id < u64::MAX,
    ensures
        final(state).wf(),
        unstake_transition(
            *old(state),
            *final(state),
            r,
            sender@,
            amount,
            liquid_supply,
            height,
        ),
{
    let a = match multiply_ratio(amount, state.supply.native, liquid_supply) {
        Ok(v) => v,
        Err(e) => {
            return Err(e);
        },
    };
    let new_native = match checked_sub(state.supply.native, a) {
        Ok(v) => v,
        Err(e) => {
            return Err(e);
        },
    };
    let new_unstakings = match checked_add(state.supply.unstakings, a) {
        Ok(v) => v,
        Err(e) => {
            return Err(e);
        },
    };
    let current_under = state.under_unstaking.get(&sender);
    proof {
        lemma_owner_sum_bounds(state.queue@, sender@);
    }
    let new_under = current_under + a;
    let ghost pre = *state;
    state.supply.native = new_native;
    state.supply.unstakings = new_unstakings;
    let id = match linked_list_append(&mut state.queue, sender.clone(), a, height) {
        Ok(v) => v,
        Err(e) => {
            return Err(e);
        },
    };
    state.under_unstaking.set(&sender, new_under);
    proof {
        let e = QueueEntry {
            id: spec_append_id(pre.queue@),
            receiver: sender@,
            value: a,
            height,
        };
        lemma_value_sum_push(pre.queue@, e);
        assert forall|o: Seq<char>| #[trigger] state.under_unstaking.spec_get(o) as int
            == owner_sum(state.queue@, o) by {
            lemma_owner_sum_push(pre.queue@, e, o);
        }
    }
    Ok(a)
}

/// An unstake request arriving through the share-token contract: only
/// that contract may deliver it; the forwarded sender is then unstaked.
pub fn execute_receive(
    state: &mut ContractState,
    token_contract: &String,
    sender: String,
    amount: u128,
    liquid_supply: u128,
    height: u64,
) -> (r: Result<u128, ContractError>)
    requires
        old(state).wf(),
        liquid_supply > 0,
        old(state).queue@.len() == 0 || old(state).queue@.last().id < u64::MAX,
    ensures
        final(state).wf(),
        token_contract@ != old(state).config.liquid_token_addr@ ==> r == Err::<u128, ContractError>(
            ContractError::Unauthorized,
        ) && *final(state) == *old(state),
        token_contract@ == old(state).config.liquid_token_addr@ ==> unstake_transition(
            *old(state),
            *final(state),
            r,
            sender@,
            amount,
            liquid_supply,
            height,
        ),
{
    if !(*token_contract == state.config.liquid_token_addr) {
        return Err(ContractError::Unauthorized);
    }
    execute_unstake(state, sender, amount, liquid_supply, height)
}

/// Pays out the sender's settled value: the claimable balance is read and
/// zeroed in one step, so a second claim without an intervening
/// settlement finds nothing and fails. The payment itself is a bank-send
/// instruction carried out by the host.
pub fn execute_claim(state: &mut ContractState, sender: &String) -> (r: Result<
    u128,
    ContractError,
>)
    requires
        old(state).wf(),
    ensures
        final(state).wf(),
        claim_transition(*old(state), *final(state), r, sender@),
{
    let to_send = state.claimable.get(sender);
    if to_send == 0 {
        return Err(ContractError::NothingToClaim);
    }
    proof {
        state.claimable.lemma_get_le_total(sender@);
    }
    state.claimable.set(sender, 0);
    state.supply.claims = state.supply.claims - to_send;
    Ok(to_send)
}

/// Lets the admin set the share-token contract address.
pub fn execute_set_liquid_token(state: &mut ContractState, sender: &String, address: String) -> (r:
    Result<(), ContractError>)
    requires
        old(state).wf(),
    ensures
        final(state).wf(),
        sender@ != old(state).config.owner@ ==> r == Err::<(), ContractError>(
            ContractError::Unauthorized,
        ) && *final(state) == *old(state),
        sender@ == old(state).config.owner@ ==> {
            &&& r == Ok::<(), ContractError>(())
            &&& final(state).config.liquid_token_addr == address
            &&& final(state).config.owner == old(state).config.owner
            &&& final(state).config.bond_denom == old(state).config.bond_denom
            &&& final(state).config.validator == old(state).config.validator
            &&& final(state).supply == old(state).supply
            &&& final(state).queue == old(state).queue
            &&& final(state).claimable == old(state).claimable
            &&& final(state).under_unstaking == old(state).under_unstaking
        },
{
    if !(*sender == state.config.owner) {
        return Err(ContractError::Unauthorized);
    }
    state.config.liquid_token_addr = address;
    Ok(())
}

/// The sender's settled, claimable value.
pub fn query_claimable_of(state: &ContractState, address: &String) -> (r: u128)
    requires
        state.wf(),
    ensures
        r == state.claimable.spec_get(address@),
{
    state.claimable.get(address)
}

/// The total native value the address is still waiting to have unstaked.
pub fn query_under_unstaking_of(state: &ContractState, address: &String) -> (r: u128)
    requires
        state.wf(),
    ensures
        r == state.under_unstaking.spec_get(address@),
{
    state.under_unstaking.get(address)
}

/// The configuration, with addresses rendered as strings.
pub fn query_config(state: &ContractState) -> (r: ConfigResponse)
    ensures
        r.owner == state.config.owner,
        r.bond_denom == state.config.bond_denom,
        r.liquid_token_addr == state.config.liquid_token_addr,
        r.validator == state.config.validator,
{
    ConfigResponse {
        owner: state.config.owner.clone(),
        bond_denom: state.config.bond_denom.clone(),
        liquid_token_addr: state.config.liquid_token_addr.clone(),
        validator: state.config.validator.clone(),
    }
}

/// The accounting totals and the current share price: one share is worth
/// `native / liquid_supply` of native value, or exactly `1` while no
/// shares circulate.
pub fn query_status(state: &ContractState, liquid_supply: u128, bonded: u128, balance: u128) -> (r:
    Result<StatusResponse, ContractError>)
    ensures
        liquid_supply > 0 && spec_ratio_atomics(state.supply.native, liquid_supply) > u128::MAX
            ==> r == Err::<StatusResponse, ContractError>(ContractError::ArithmeticOverflow),
        (liquid_supply == 0 || spec_ratio_atomics(state.supply.native, liquid_supply)
            <= u128::MAX) ==> (r matches Ok(resp) && {
            &&& resp.issued == liquid_supply
            &&& resp.native.denom == state.config.bond_denom
            &&& resp.native.amount == state.supply.native
            &&& resp.unstakings == state.supply.unstakings
            &&& resp.claims == state.supply.claims
            &&& resp.bonded == bonded
            &&& resp.balance == balance
            &&& resp.ratio == (if liquid_supply == 0 {
                Decimal::spec_one()
            } else {
                Decimal {
                    atomics: spec_ratio_atomics(state.supply.native, liquid_supply) as u128,
                }
            })
        }),
{
    let ratio = match get_ratio(state.supply.native, liquid_supply) {
        Ok(d) => d,
        Err(e) => {
            return Err(e);
        },
    };
    Ok(
        StatusResponse {
            issued: liquid_supply,
            native: Coin { denom: state.config.bond_denom.clone(), amount: state.supply.native },
            unstakings: state.supply.unstakings,
            claims: state.supply.claims,
            bonded,
            balance,
            ratio,
        },
    )
}

/// A snapshot of the unstaking queue: the root record and the first
/// fifty requests in first-in-first-out order.
pub fn query_unstaking_queue(state: &ContractState) -> (r: Result<
    UnstakingQueueResponse,
    ContractError,
>)
    requires
        state.wf(),
    ensures
        r matches Ok(resp) && {
            &&& resp.state.length == state.queue@.len()
            &&& resp.queue@.len() == (if 50 <= state.queue@.len() {
                50int
            } else {
                state.queue@.len() as int
            })
            &&& forall|i: int|
                0 <= i < resp.queue@.len() ==> {
                    let e = #[trigger] resp.queue@[i];
                    &&& e.id == state.queue@[i].id
                    &&& e.info.receiver@ == state.queue@[i].receiver
                    &&& e.info.value == state.queue@[i].value
                    &&& e.info.height == state.queue@[i].height
                }
        },
{
    let root = linked_list_read(&state.queue);
    let list = match linked_list_get_list(&state.queue, 50) {
        Ok(l) => l,
        Err(e) => {
            return Err(e);
        },
    };
    Ok(UnstakingQueueResponse { state: root, queue: list })
}

/// The amount to undelegate when the queue still waits for value but no
/// cash is at hand: whatever is bonded beyond the withdrawable total.
pub fn undelegate_amount(native: u128, bonded: u128) -> (r: Option<u128>)
    ensures
        bonded > native ==> r == Some((bonded - native) as u128),
        bonded <= native ==> r is None,
{
    if bonded > native {
        Some(bonded - native)
    } else {
        None
    }
}

/// What the host should do after a drain run.
#[derive(Clone, Copy, Debug)]
pub struct ProcessOutcome {
    /// Bond this much of the remaining available value to the validator.
    pub delegate: Option<u128>,
    /// No cash is left while requests still wait: the host should query
    /// the bonded amount and possibly undelegate.
    pub check_undelegate: bool,
}

/// One bounded drain run over the queue: the settlement steps taken with
/// `avail` value at hand, processing at most `fuel` nodes from the head.
/// A node whose value fits is paid in full; the first one that does not
/// fit is paid partially and ends the run.
pub open spec fn drain_steps(q: Seq<QueueEntry>, avail: u128, fuel: nat) -> Seq<(QueueEntry, u128)>
    decreases fuel,
{
    if fuel == 0 || q.len() == 0 || avail == 0 {
        Seq::empty()
    } else if q[0].value <= avail {
        seq![(q[0], q[0].value)] + drain_steps(
            q.drop_first(),
            (avail - q[0].value) as u128,
            (fuel - 1) as nat,
        )
    } else {
        seq![(q[0], avail)]
    }
}

/// The queue left over after the drain run: fully paid nodes are gone, a
/// partially paid head keeps its remainder.
pub open spec fn drain_queue(q: Seq<QueueEntry>, avail: u128, fuel: nat) -> Seq<QueueEntry>
    decreases fuel,
{
    if fuel == 0 || q.len() == 0 || avail == 0 {
        q
    } else if q[0].value <= avail {
        drain_queue(q.drop_first(), (avail - q[0].value) as u128, (fuel - 1) as nat)
    } else {
        q.update(0, QueueEntry { value: (q[0].value - avail) as u128, ..q[0] })
    }
}

/// A drain run never pays out more than the available value, nor more
/// than the queue holds.
pub proof fn lemma_drain_bounds(q: Seq<QueueEntry>, avail: u128, fuel: nat)
    ensures
        0 <= steps_total(drain_steps(q, avail, fuel)),
        steps_total(drain_steps(q, avail, fuel)) <= avail,
        steps_total(drain_steps(q, avail, fuel)) <= value_sum(q),
    decreases fuel,
{
    lemma_value_sum_bounds(q);
    let steps = drain_steps(q, avail, fuel);
    if fuel == 0 || q.len() == 0 || avail == 0 {
    } else if q[0].value <= avail {
        let rest = drain_steps(q.drop_first(), (avail - q[0].value) as u128, (fuel - 1) as nat);
        lemma_drain_bounds(q.drop_first(), (avail - q[0].value) as u128, (fuel - 1) as nat);
        lemma_steps_total_concat(seq![(q[0], q[0].value)], rest);
        assert(steps_total(seq![(q[0], q[0].value)]) == q[0].value) by {
            assert(steps_total(seq![(q[0], q[0].value)]) == seq![(q[0], q[0].value)][0].1
                + steps_total(seq![(q[0], q[0].value)].drop_first()));
            assert(seq![(q[0], q[0].value)].drop_first() =~= Seq::<(QueueEntry, u128)>::empty());
        }
        lemma_value_sum_bounds(q.drop_first());
    } else {
        assert(steps_total(seq![(q[0], avail)]) == avail) by {
            assert(steps_total(seq![(q[0], avail)]) == seq![(q[0], avail)][0].1 + steps_total(
                seq![(q[0], avail)].drop_first(),
            ));
            assert(seq![(q[0], avail)].drop_first() =~= Seq::<(QueueEntry, u128)>::empty());
        }
    }
}

/// Whether a drain run with these inputs goes through without hitting a
/// representation limit.
pub open spec fn drain_ok(pre: ContractState, balance: u128, balance_before: u128) -> bool {
    &&& balance >= balance_before
    &&& pre.supply.native + (balance - balance_before) <= u128::MAX
    &&& balance >= pre.supply.claims
    &&& ({
        let avail0 = (balance - pre.supply.claims) as u128;
        let steps = drain_steps(pre.queue@, avail0, 50);
        &&& pre.supply.claims + steps_total(steps) <= u128::MAX
        &&& forall|o: Seq<char>|
            pre.claimable.spec_get(o) + #[trigger] steps_owner(steps, o) <= u128::MAX
    })
}

/// Drain-mode settlement. The newly arrived value (the balance grown
/// since `balance_before`) joins the withdrawable total; then whatever
/// balance exceeds the already-earmarked claims is paid toward the oldest
/// requests, at most fifty nodes per call, each payout moving value from
/// the queued-but-unpaid counter to the claims counter, the owner's
/// claimable balance growing and the owner's pending amount shrinking by
/// the same payout. The outcome tells the host whether to bond leftover
/// cash or to consider undelegating.
#[verifier::rlimit(100)]
pub fn _process_token(state: &mut ContractState, balance: u128, balance_before: u128) -> (r: Result<
    ProcessOutcome,
    ContractError,
>)
    requires
        old(state).wf(),
    ensures
        final(state).wf(),
        r is Err ==> *final(state) == *old(state),
        balance < balance_before ==> r == Err::<ProcessOutcome, ContractError>(
            ContractError::ArithmeticUnderflow,
        ),
        balance >= balance_before && old(state).supply.native + (balance - balance_before)
            > u128::MAX ==> r == Err::<ProcessOutcome, ContractError>(
            ContractError::ArithmeticOverflow,
        ),
        balance >= balance_before && old(state).supply.native + (balance - balance_before)
            <= u128::MAX && balance < old(state).supply.claims ==> r == Err::<
            ProcessOutcome,
            ContractError,
        >(ContractError::ArithmeticUnderflow),
        balance >= balance_before && old(state).supply.native + (balance - balance_before)
            <= u128::MAX && balance >= old(state).supply.claims && !drain_ok(
            *old(state),
            balance,
            balance_before,
        ) ==> r == Err::<ProcessOutcome, ContractError>(ContractError::ArithmeticOverflow),
        drain_ok(*old(state), balance, balance_before) ==> ({
            let pre = *old(state);
            let avail0 = (balance - pre.supply.claims) as u128;
            let steps = drain_steps(pre.queue@, avail0, 50);
            let paid = steps_total(steps);
            &&& final(state).queue@ == drain_queue(pre.queue@, avail0, 50)
            &&& final(state).supply.native == pre.supply.native + (balance - balance_before)
            &&& final(state).supply.unstakings == pre.supply.unstakings - paid
            &&& final(state).supply.claims == pre.supply.claims + paid
            &&& forall|o: Seq<char>|
                #[trigger] final(state).claimable.spec_get(o) == pre.claimable.spec_get(o)
                    + steps_owner(steps, o)
            &&& forall|o: Seq<char>|
                #[trigger] final(state).under_unstaking.spec_get(o) == pre.under_unstaking.spec_get(
                    o,
                ) - steps_owner(steps, o)
            &&& final(state).config == pre.config
            &&& r == Ok::<ProcessOutcome, ContractError>(
                ProcessOutcome {
                    delegate: (if pre.supply.unstakings - paid == 0 && avail0 > paid {
                        Some((avail0 - paid) as u128)
                    } else {
                        None::<u128>
                    }),
                    check_undelegate: pre.supply.unstakings - paid > 0 && avail0 == paid,
                },
            )
        }),
{
    let ghost pre = *state;
    let claimed_reward = match checked_sub(balance, balance_before) {
        Ok(v) => v,
        Err(e) => {
            return Err(e);
        },
    };
    let new_native = match checked_add(state.supply.native, claimed_reward) {
        Ok(v) => v,
        Err(e) => {
            return Err(e);
        },
    };
    let avail0 = match checked_sub(balance, state.supply.claims) {
        Ok(v) => v,
        Err(e) => {
            return Err(e);
        },
    };
    let mut queue = state.queue.clone();
    let mut claimable = state.claimable.clone();
    let mut under = state.under_unstaking.clone();
    let mut unstakings = state.supply.unstakings;
    let mut claims = state.supply.claims;
    let mut avail = avail0;
    let mut iter: u64 = 0;
    let ghost q0 = pre.queue@;
    let ghost full_steps = drain_steps(q0, avail0, 50);
    let ghost mut steps_done: Seq<(QueueEntry, u128)> = Seq::empty();
    proof {
        assert(full_steps =~= steps_done + drain_steps(queue@, avail, (50 - iter) as nat));
        assert(queue@ == pre.queue@);
        assert forall|o: Seq<char>| #[trigger] under.spec_get(o) as int == owner_sum(queue@, o) by {
            assert(pre.under_unstaking.spec_get(o) as int == owner_sum(pre.queue@, o));
            assert(under.spec_get(o) == pre.under_unstaking.spec_get(o));
        }
        assert forall|o: Seq<char>| #[trigger] under.spec_get(o) as int
            == pre.under_unstaking.spec_get(o) - steps_owner(steps_done, o) by {
            assert(under.spec_get(o) == pre.under_unstaking.spec_get(o));
        }
        assert forall|o: Seq<char>| #[trigger] claimable.spec_get(o) as int
            == pre.claimable.spec_get(o) + steps_owner(steps_done, o) by {
            assert(claimable.spec_get(o) == pre.claimable.spec_get(o));
        }
        assert(claimable.total() == pre.claimable.total());
    }
    while iter < 50 && avail > 0 && linked_list_read(&queue).length > 0
        invariant
            0 <= iter <= 50,
            queue.wf(),
            claimable.wf(),
            under.wf(),
            unstakings as int == value_sum(queue@),
            unstakings as int == pre.supply.unstakings - steps_total(steps_done),
            forall|o: Seq<char>| #[trigger] under.spec_get(o) as int == owner_sum(queue@, o),
            forall|o: Seq<char>|
                #[trigger] under.spec_get(o) as int == pre.under_unstaking.spec_get(o)
                    - steps_owner(steps_done, o),
            claims as int == pre.supply.claims + steps_total(steps_done),
            claims as int == claimable.total(),
            forall|o: Seq<char>|
                #[trigger] claimable.spec_get(o) as int == pre.claimable.spec_get(o) + steps_owner(
                    steps_done,
                    o,
                ),
            avail as int == avail0 - steps_total(steps_done),
            full_steps == steps_done + drain_steps(queue@, avail, (50 - iter) as nat),
            drain_queue(q0, avail0, 50) == drain_queue(queue@, avail, (50 - iter) as nat),
        decreases 50 - iter,
    {
        let ghost qb = queue@;
        let ghost availb = avail;
        let ghost fuelb = (50 - iter) as nat;
        let ghost done_b = steps_done;
        let root = linked_list_read(&queue);
        proof {
            assert(index_of_id(qb, qb[0].id) == 0);
        }
        let head_node = match node_read(&queue, root.head_id) {
            Ok(n) => n,
            Err(_) => {
                return Err(ContractError::NotFound);
            },
        };
        let ghost e0 = qb[0];
        let payout: u128;
        if head_node.value <= avail {
            payout = head_node.value;
            match linked_list_remove_head(&mut queue) {
                Ok(_) => {},
                Err(_) => {
                    return Err(ContractError::NotFound);
                },
            }
        } else {
            payout = avail;
            let newval = head_node.value - payout;
            match node_update_value(&mut queue, root.head_id, newval) {
                Ok(_) => {},
                Err(_) => {
                    return Err(ContractError::NotFound);
                },
            }
        }
        let ghost step = (e0, payout);
        proof {
            steps_done = steps_done.push(step);
            lemma_steps_total_push(done_b, step);
            lemma_value_sum_bounds(qb);
            // the whole run's steps are the finished ones plus what remains
            if e0.value <= availb {
                assert(drain_steps(qb, availb, fuelb) == seq![step] + drain_steps(
                    qb.drop_first(),
                    (availb - e0.value) as u128,
                    (fuelb - 1) as nat,
                ));
                assert(queue@ == qb.drop_first());
                assert(full_steps =~= steps_done + drain_steps(
                    queue@,
                    (availb - payout) as u128,
                    (fuelb - 1) as nat,
                )) by {
                    assert(done_b + (seq![step] + drain_steps(
                        queue@,
                        (availb - payout) as u128,
                        (fuelb - 1) as nat,
                    )) =~= steps_done + drain_steps(
                        queue@,
                        (availb - payout) as u128,
                        (fuelb - 1) as nat,
                    ));
                }
                assert(drain_queue(qb, availb, fuelb) == drain_queue(
                    queue@,
                    (availb - payout) as u128,
                    (fuelb - 1) as nat,
                ));
            } else {
                assert(drain_steps(qb, availb, fuelb) == seq![step]);
                assert(queue@ == qb.update(
                    0,
                    QueueEntry { value: (e0.value - availb) as u128, ..e0 },
                ));
                assert(drain_steps(queue@, 0u128, (fuelb - 1) as nat) == Seq::<(
                    QueueEntry,
                    u128,
                )>::empty());
                assert(full_steps =~= steps_done + drain_steps(queue@, 0u128, (fuelb - 1) as nat))
                    by {
                    assert(done_b + seq![step] =~= steps_done);
                }
                assert(drain_queue(qb, availb, fuelb) == queue@);
                assert(drain_queue(queue@, 0u128, (fuelb - 1) as nat) == queue@);
            }
        }
        unstakings = unstakings - payout;
        avail = avail - payout;
        claims = match checked_add(claims, payout) {
            Ok(v) => v,
            Err(_) => {
                proof {
                    let rest = drain_steps(queue@, avail, (fuelb - 1) as nat);
                    lemma_steps_total_concat(steps_done, rest);
                    lemma_steps_nonneg(rest, e0.receiver);
                    assert(pre.supply.claims + steps_total(full_steps) > u128::MAX);
                }
                return Err(ContractError::ArithmeticOverflow);
            },
        };
        let cur_claimable = claimable.get(&head_node.receiver);
        let new_claimable = match checked_add(cur_claimable, payout) {
            Ok(v) => v,
            Err(_) => {
                proof {
                    let rest = drain_steps(queue@, avail, (fuelb - 1) as nat);
                    lemma_steps_owner_concat(steps_done, rest, e0.receiver);
                    lemma_steps_owner_push(done_b, step, e0.receiver);
                    lemma_steps_nonneg(rest, e0.receiver);
                    assert(pre.claimable.spec_get(e0.receiver) + steps_owner(
                        full_steps,
                        e0.receiver,
                    ) > u128::MAX);
                }
                return Err(ContractError::ArithmeticOverflow);
            },
        };
        claimable.set(&head_node.receiver, new_claimable);
        let cur_under = under.get(&head_node.receiver);
        proof {
            lemma_owner_sum_bounds(qb.drop_first(), e0.receiver);
            assert(owner_sum(qb, e0.receiver) == e0.value + owner_sum(qb.drop_first(), e0.receiver));
        }
        let new_under = cur_under - payout;
        under.set(&head_node.receiver, new_under);
        proof {
            assert forall|o: Seq<char>| #[trigger] claimable.spec_get(o) as int
                == pre.claimable.spec_get(o) + steps_owner(steps_done, o) by {
                lemma_steps_owner_push(done_b, step, o);
            }
            assert forall|o: Seq<char>| #[trigger] under.spec_get(o) as int
                == pre.under_unstaking.spec_get(o) - steps_owner(steps_done, o) by {
                lemma_steps_owner_push(done_b, step, o);
            }
            if e0.value <= availb {
                assert(queue@ == qb.drop_first());
                assert forall|o: Seq<char>| #[trigger] under.spec_get(o) as int == owner_sum(
                    queue@,
                    o,
                ) by {
                    lemma_steps_owner_push(done_b, step, o);
                    assert(owner_sum(qb, o) == (if e0.receiver == o {
                        e0.value as int
                    } else {
                        0
                    }) + owner_sum(qb.drop_first(), o));
                }
            } else {
                let e1 = QueueEntry { value: (e0.value - availb) as u128, ..e0 };
                assert(queue@ == qb.update(0, e1));
                lemma_value_sum_update(qb, 0, e1);
                assert forall|o: Seq<char>| #[trigger] under.spec_get(o) as int == owner_sum(
                    queue@,
                    o,
                ) by {
                    lemma_steps_owner_push(done_b, step, o);
                    lemma_owner_sum_update0(qb, e1, o);
                }
            }
        }
        iter = iter + 1;
    }
    proof {
        assert(drain_steps(queue@, avail, (50 - iter) as nat) == Seq::<(QueueEntry, u128)>::empty());
        assert(full_steps =~= steps_done);
        assert(drain_queue(q0, avail0, 50) == queue@);
        assert(drain_ok(pre, balance, balance_before)) by {
            assert(pre.supply.claims + steps_total(full_steps) == claims as int);
            assert forall|o: Seq<char>| pre.claimable.spec_get(o) + #[trigger] steps_owner(
                full_steps,
                o,
            ) <= u128::MAX by {
                assert(claimable.spec_get(o) as int == pre.claimable.spec_get(o) + steps_owner(
                    full_steps,
                    o,
                ));
            }
        }
    }
    state.supply.native = new_native;
    state.supply.unstakings = unstakings;
    state.supply.claims = claims;
    state.queue = queue;
    state.claimable = claimable;
    state.under_unstaking = under;
    proof {
        assert forall|o: Seq<char>| #[trigger] state.under_unstaking.spec_get(o) as int
            == owner_sum(state.queue@, o) by {
            assert(under.spec_get(o) as int == owner_sum(queue@, o));
        }
        assert forall|o: Seq<char>| #[trigger] state.claimable.spec_get(o)
            == pre.claimable.spec_get(o) + steps_owner(full_steps, o) by {
            assert(claimable.spec_get(o) as int == pre.claimable.spec_get(o) + steps_owner(
                full_steps,
                o,
            ));
        }
        assert forall|o: Seq<char>| #[trigger] state.under_unstaking.spec_get(o)
            == pre.under_unstaking.spec_get(o) - steps_owner(full_steps, o) by {
            assert(under.spec_get(o) as int == pre.under_unstaking.spec_get(o) - steps_owner(
                full_steps,
                o,
            ));
        }
        assert(state.claimable.total() == claimable.total());
        assert(state.wf());
    }
    let outcome = if unstakings == 0 && avail > 0 {
        ProcessOutcome { delegate: Some(avail), check_undelegate: false }
    } else if unstakings > 0 && avail == 0 {
        ProcessOutcome { delegate: None, check_undelegate: true }
    } else {
        ProcessOutcome { delegate: None, check_undelegate: false }
    };
    Ok(outcome)
}

/// How a withdrawal of settled value changes the ledger: the whole
/// claimable balance is paid and zeroed, or nothing happens at all.
pub open spec fn claim_transition(
    pre: ContractState,
    post: ContractState,
    r: Result<u128, ContractError>,
    sender: Seq<char>,
) -> bool {
    &&& pre.claimable.spec_get(sender) == 0 ==> r == Err::<u128, ContractError>(
        ContractError::NothingToClaim,
    ) && post == pre
    &&& pre.claimable.spec_get(sender) > 0 ==> {
        &&& r == Ok::<u128, ContractError>(pre.claimable.spec_get(sender))
        &&& post.claimable.spec_get(sender) == 0
        &&& forall|o: Seq<char>|
            o != sender ==> #[trigger] post.claimable.spec_get(o) == pre.claimable.spec_get(o)
        &&& post.supply.claims == pre.supply.claims - pre.claimable.spec_get(sender)
        &&& post.supply.native == pre.supply.native
        &&& post.supply.unstakings == pre.supply.unstakings
        &&& post.queue == pre.queue
        &&& post.under_unstaking == pre.under_unstaking
        &&& post.config == pre.config
    }
}

/// No double payout: when a claim succeeds it zeroes the claimable
/// balance, so a second claim by the same owner with no settlement in
/// between fails with `NothingToClaim` and changes nothing.
pub proof fn lemma_no_double_payout(
    s1: ContractState,
    s2: ContractState,
    s3: ContractState,
    r1: Result<u128, ContractError>,
    r2: Result<u128, ContractError>,
    sender: Seq<char>,
)
    requires
        claim_transition(s1, s2, r1, sender),
        r1 is Ok,
        claim_transition(s2, s3, r2, sender),
    ensures
        r2 == Err::<u128, ContractError>(ContractError::NothingToClaim),
        s3 == s2,
{
}

/// Accounting conservation: in every well-formed state the
/// queued-but-unpaid counter equals the sum of the values of all live
/// nodes, the earmarked counter equals the sum of all claimable balances,
/// and each owner's pending amount equals the sum of that owner's queued
/// values.
pub proof fn lemma_accounting_conservation(s: ContractState)
    requires
        s.wf(),
    ensures
        s.supply.unstakings as int == value_sum(s.queue@),
        s.supply.claims as int == s.claimable.total(),
        forall|o: Seq<char>| #[trigger] s.under_unstaking.spec_get(o) as int == owner_sum(s.queue@, o),
{
}

/// What folding the delegation list yields: the running total, stopped by
/// the first foreign denomination or the first sum that no longer fits.
pub open spec fn spec_get_bonded(s: Seq<Coin>, d: Seq<char>, acc: u128) -> Result<
    u128,
    ContractError,
>
    decreases s.len(),
{
    if s.len() == 0 {
        Ok(acc)
    } else if s[0].denom@ != d {
        Err(ContractError::DifferentBondDenom { denom1: s[0].denom, denom2: s[0].denom })
    } else if acc + s[0].amount > u128::MAX {
        Err(ContractError::ArithmeticOverflow)
    } else {
        spec_get_bonded(s.drop_first(), d, (acc + s[0].amount) as u128)
    }
}

/// The total amount delegated to the validator: all delegations must use
/// one denomination, and the sum must fit.
pub fn get_bonded(bonds: &Vec<Coin>) -> (r: Result<u128, ContractError>)
    ensures
        bonds@.len() == 0 ==> r == Ok::<u128, ContractError>(0u128),
        bonds@.len() > 0 ==> ({
            let f = spec_get_bonded(bonds@, bonds@[0].denom@, 0u128);
            &&& (f is Ok <==> r is Ok)
            &&& f is Ok ==> r == f
            &&& f matches Err(e) ==> (e is DifferentBondDenom <==> (r matches Err(e2)
                && e2 is DifferentBondDenom)) && (e is ArithmeticOverflow <==> r == Err::<
                u128,
                ContractError,
            >(ContractError::ArithmeticOverflow))
        }),
{
    if bonds.len() == 0 {
        return Ok(0);
    }
    let ghost d = bonds@[0].denom@;
    let n = bonds.len();
    let mut acc: u128 = 0;
    let mut i: usize = 0;
    proof {
        assert(bonds@.subrange(0, n as int) =~= bonds@);
    }
    while i < n
        invariant
            0 < n == bonds@.len(),
            0 <= i <= n,
            spec_get_bonded(bonds@, d, 0u128) == spec_get_bonded(
                bonds@.subrange(i as int, n as int),
                d,
                acc,
            ),
        decreases n - i,
    {
        let ghost rest = bonds@.subrange(i as int, n as int);
        if !(bonds[i].denom == bonds[0].denom) {
            proof {
                assert(rest[0] == bonds@[i as int]);
            }
            return Err(
                ContractError::DifferentBondDenom {
                    denom1: bonds[0].denom.clone(),
                    denom2: bonds[i].denom.clone(),
                },
            );
        }
        let next = match checked_add(acc, bonds[i].amount) {
            Ok(v) => v,
            Err(e) => {
                proof {
                    assert(rest[0] == bonds@[i as int]);
                }
                return Err(e);
            },
        };
        proof {
            assert(rest[0] == bonds@[i as int]);
            assert(rest.drop_first() =~= bonds@.subrange(i + 1 as int, n as int));
        }
        acc = next;
        i = i + 1;
    }
    proof {
        assert(bonds@.subrange(n as int, n as int) =~= Seq::<Coin>::empty());
    }
    Ok(acc)
}

} // verus!
