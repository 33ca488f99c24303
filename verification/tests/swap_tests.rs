//! Behaviour of the swap ledger: adding and merging liquidity, removing a
//! position, match-mode settlement with proportional earnings, and
//! withdrawal of earned tokens.
use liquid_queue::coin::Coin;
use liquid_queue::decimal::Decimal;
use liquid_queue::error::ContractError;
use liquid_queue::swap::contract::{
    execute_add, execute_claim, execute_receive, execute_remove, execute_set_swap_fee,
    execute_swap, instantiate, query_claimable_of, query_config, query_order_book,
    query_order_info_of, query_status,
};
use liquid_queue::swap::msg::InstantiateMsg;
use liquid_queue::swap::state::ContractState;

fn fresh() -> ContractState {
    instantiate(
        "admin".to_string(),
        "denom".to_string(),
        InstantiateMsg {
            liquid_token_addr: "cw20".to_string(),
            staking_manager_addr: "manager".to_string(),
        },
    )
}

fn denom_coins(amount: u128) -> Vec<Coin> {
    vec![Coin { denom: "denom".to_string(), amount }]
}

/// Adds `amount` for `owner`, with `balance` the pool balance right after
/// the payment arrived.
fn add(s: &mut ContractState, owner: &str, amount: u128, balance: u128) {
    execute_add(s, &owner.to_string(), &denom_coins(amount), balance, 7).unwrap();
}

#[test]
fn instantiate_sets_the_default_fee() {
    let s = fresh();
    let cfg = query_config(&s);
    assert_eq!(cfg.swap_fee, 100);
    assert_eq!(cfg.liquid_token_addr, "cw20");
    assert_eq!(cfg.staking_manager_addr, "manager");
    assert_eq!(s.supply.issued, 0);
}

#[test]
fn add_prices_the_first_deposit_at_par() {
    let mut s = fresh();
    add(&mut s, "alice", 8, 8);
    assert_eq!(s.supply.issued, 8);
    let book = query_order_book(&s).unwrap();
    assert_eq!(book.state.length, 1);
    assert_eq!(book.queue[0].info.value, 8);
    assert_eq!(book.queue[0].info.receiver, "alice");
}

#[test]
fn add_requires_the_bond_denomination() {
    let mut s = fresh();
    let funds = vec![Coin { denom: "other".to_string(), amount: 8 }];
    let r = execute_add(&mut s, &"alice".to_string(), &funds, 8, 7);
    assert!(matches!(r, Err(ContractError::EmptyBalance { .. })));
    assert_eq!(s.supply.issued, 0);
}

#[test]
fn add_merges_an_existing_position() {
    let mut s = fresh();
    add(&mut s, "alice", 8, 8);
    // a second deposit merges into one node with a fresh position
    add(&mut s, "alice", 4, 12);
    assert_eq!(s.supply.issued, 12);
    let book = query_order_book(&s).unwrap();
    assert_eq!(book.state.length, 1);
    assert_eq!(book.queue[0].info.value, 12);
    let info = query_order_info_of(&s, &"alice".to_string(), 12).unwrap();
    assert_eq!(info.issued, 12);
    assert_eq!(info.node_id, book.queue[0].id);
}

#[test]
fn merge_moves_the_owner_to_the_back_of_the_queue() {
    let mut s = fresh();
    add(&mut s, "alice", 8, 8);
    add(&mut s, "bob", 4, 12);
    add(&mut s, "alice", 6, 18);
    let book = query_order_book(&s).unwrap();
    assert_eq!(book.state.length, 2);
    assert_eq!(book.queue[0].info.receiver, "bob");
    assert_eq!(book.queue[1].info.receiver, "alice");
    assert_eq!(book.queue[1].info.value, 14);
}

#[test]
fn remove_pays_the_proportional_worth() {
    let mut s = fresh();
    add(&mut s, "alice", 8, 8);
    add(&mut s, "bob", 4, 12);
    let paid = execute_remove(&mut s, &"alice".to_string(), 12).unwrap();
    assert_eq!(paid, 8);
    assert_eq!(s.supply.issued, 4);
    let book = query_order_book(&s).unwrap();
    assert_eq!(book.state.length, 1);
    assert_eq!(book.queue[0].info.receiver, "bob");
    let info = query_order_info_of(&s, &"alice".to_string(), 4).unwrap();
    assert_eq!(info.node_id, 0);
}

#[test]
fn remove_without_a_position_fails() {
    let mut s = fresh();
    let r = execute_remove(&mut s, &"alice".to_string(), 0);
    assert!(matches!(r, Err(ContractError::NothingToRemove)));
}

#[test]
fn swap_fills_resting_orders_in_fifo_order() {
    let mut s = fresh();
    execute_set_swap_fee(&mut s, &"admin".to_string(), 0).unwrap();
    add(&mut s, "alice", 8, 8);
    add(&mut s, "bob", 4, 12);
    // an incoming order worth 10 pool shares, at share price 1
    let native = execute_swap(&mut s, 10, Decimal::one(), 12).unwrap();
    assert_eq!(native, 10);
    // alice's order of 8 was filled entirely, earning 8/10 of the gross
    assert_eq!(query_claimable_of(&s, &"alice".to_string()), 8);
    // bob's order was filled partially, down to 2
    assert_eq!(query_claimable_of(&s, &"bob".to_string()), 2);
    let book = query_order_book(&s).unwrap();
    assert_eq!(book.state.length, 1);
    assert_eq!(book.queue[0].info.receiver, "bob");
    assert_eq!(book.queue[0].info.value, 2);
    assert_eq!(book.queue[0].id, book.state.head_id);
    assert_eq!(s.supply.issued, 2);
    assert_eq!(s.supply.claims, 10);
    // the filled counterparty no longer has a position, the partial one does
    assert_eq!(query_order_info_of(&s, &"alice".to_string(), 2).unwrap().node_id, 0);
    assert_eq!(query_order_info_of(&s, &"bob".to_string(), 2).unwrap().issued, 2);
}

#[test]
fn swap_keeps_the_configured_fee() {
    let mut s = fresh();
    add(&mut s, "alice", 100, 100);
    // the default fee of 100 basis points shaves one percent
    let native = execute_swap(&mut s, 100, Decimal::one(), 100).unwrap();
    assert_eq!(native, 99);
    // counterparties share the gross amount proportionally to the match
    assert_eq!(query_claimable_of(&s, &"alice".to_string()), 100);
    assert_eq!(s.supply.issued, 1);
}

#[test]
fn swap_beyond_the_pool_is_insufficient_liquidity() {
    let mut s = fresh();
    add(&mut s, "alice", 8, 8);
    let r = execute_swap(&mut s, 9, Decimal::one(), 8);
    assert!(matches!(r, Err(ContractError::InsufficientLiquidity)));
    assert_eq!(s.supply.issued, 8);
    assert_eq!(query_order_book(&s).unwrap().state.length, 1);
}

#[test]
fn swap_receive_accepts_only_the_share_token_contract() {
    let mut s = fresh();
    add(&mut s, "alice", 8, 8);
    let r = execute_receive(&mut s, &"mallory".to_string(), 4, Decimal::one(), 8);
    assert!(matches!(r, Err(ContractError::Unauthorized)));
    let native = execute_receive(&mut s, &"cw20".to_string(), 4, Decimal::one(), 8).unwrap();
    // too small for the one-percent fee to bite, at share price 1
    assert_eq!(native, 4);
}

#[test]
fn swap_earnings_claim_pays_once_and_only_once() {
    let mut s = fresh();
    execute_set_swap_fee(&mut s, &"admin".to_string(), 0).unwrap();
    add(&mut s, "alice", 8, 8);
    execute_swap(&mut s, 8, Decimal::one(), 8).unwrap();
    assert_eq!(execute_claim(&mut s, &"alice".to_string()).unwrap(), 8);
    let r = execute_claim(&mut s, &"alice".to_string());
    assert!(matches!(r, Err(ContractError::NothingToClaim)));
}

#[test]
fn only_the_admin_sets_the_swap_fee() {
    let mut s = fresh();
    let r = execute_set_swap_fee(&mut s, &"mallory".to_string(), 0);
    assert!(matches!(r, Err(ContractError::Unauthorized)));
    assert_eq!(query_config(&s).swap_fee, 100);
}

#[test]
fn pool_status_reports_the_pool_price() {
    let mut s = fresh();
    add(&mut s, "alice", 50, 50);
    // 100 native behind 50 pool shares: one share is worth 2
    let status = query_status(&s, 100).unwrap();
    assert_eq!(status.ratio.atomics, 2_000_000_000_000_000_000);
    assert_eq!(status.issued, 50);
    // an empty pool falls back to a price of 1
    let empty = fresh();
    assert_eq!(query_status(&empty, 0).unwrap().ratio.atomics, 1_000_000_000_000_000_000);
}

#[test]
fn issued_shares_track_the_queued_values_exactly() {
    let mut s = fresh();
    execute_set_swap_fee(&mut s, &"admin".to_string(), 0).unwrap();
    add(&mut s, "alice", 8, 8);
    add(&mut s, "bob", 4, 12);
    execute_swap(&mut s, 5, Decimal::one(), 12).unwrap();
    let total: u128 = query_order_book(&s).unwrap().queue.iter().map(|n| n.info.value).sum();
    assert_eq!(s.supply.issued, total);
    execute_remove(&mut s, &"bob".to_string(), 7).unwrap();
    let total: u128 = query_order_book(&s).unwrap().queue.iter().map(|n| n.info.value).sum();
    assert_eq!(s.supply.issued, total);
}

#[test]
fn readding_after_a_tail_removal_reuses_the_tail_id() {
    let mut s = fresh();
    add(&mut s, "alice", 8, 8);
    let first = query_order_book(&s).unwrap().queue[0].id;
    assert_eq!(first, 1);
    // merging removes the old tail node, so the fresh id is the same number
    add(&mut s, "alice", 4, 12);
    let second = query_order_book(&s).unwrap().queue[0].id;
    assert_eq!(second, 1);
}
