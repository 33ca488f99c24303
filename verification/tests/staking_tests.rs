//! Behaviour of the staking ledger: minting, unstaking into the queue,
//! drain-mode settlement in first-in-first-out order, withdrawal, and the
//! accounting invariants on concrete runs.
use liquid_queue::error::ContractError;
use liquid_queue::linked_list::linked_list_get_list;
use liquid_queue::staking::contract::{
    execute_claim, execute_receive, execute_set_liquid_token, execute_stake, execute_unstake,
    instantiate, query_claimable_of, query_config, query_status, query_under_unstaking_of,
    query_unstaking_queue, undelegate_amount, _mint_liquid_token, _process_token,
};
use liquid_queue::staking::msg::InstantiateMsg;
use liquid_queue::staking::state::ContractState;
use liquid_queue::coin::Coin;

fn fresh() -> ContractState {
    instantiate(
        "admin".to_string(),
        "denom".to_string(),
        InstantiateMsg { validator: "valoper".to_string() },
    )
}

/// Sum of the queued values as an external observer sees them.
fn queued_total(state: &ContractState) -> u128 {
    let resp = query_unstaking_queue(state).unwrap();
    resp.queue.iter().map(|n| n.info.value).sum()
}

#[test]
fn instantiate_starts_empty() {
    let s = fresh();
    let cfg = query_config(&s);
    assert_eq!(cfg.owner, "admin");
    assert_eq!(cfg.bond_denom, "denom");
    assert_eq!(cfg.validator, "valoper");
    assert_eq!(cfg.liquid_token_addr, "none");
    assert_eq!(s.supply.native, 0);
    assert_eq!(s.supply.unstakings, 0);
    assert_eq!(s.supply.claims, 0);
    assert_eq!(query_unstaking_queue(&s).unwrap().state.length, 0);
}

#[test]
fn stake_requires_the_bond_denomination() {
    let s = fresh();
    let funds = vec![Coin { denom: "other".to_string(), amount: 5 }];
    match execute_stake(&s, &funds) {
        Err(ContractError::EmptyBalance { denom }) => assert_eq!(denom, "denom"),
        other => panic!("unexpected result: {:?}", other),
    }
    let good = vec![
        Coin { denom: "other".to_string(), amount: 5 },
        Coin { denom: "denom".to_string(), amount: 42 },
    ];
    assert_eq!(execute_stake(&s, &good).unwrap(), 42);
}

#[test]
fn mint_is_at_par_without_circulating_shares() {
    let mut s = fresh();
    assert_eq!(_mint_liquid_token(&mut s, 100, 0).unwrap(), 100);
    assert_eq!(s.supply.native, 100);
    // afterwards proportional: 50 native against 100 shares on 100 native
    assert_eq!(_mint_liquid_token(&mut s, 50, 100).unwrap(), 50);
    assert_eq!(s.supply.native, 150);
}

#[test]
fn unstake_converts_at_the_issuance_ratio() {
    let mut s = fresh();
    _mint_liquid_token(&mut s, 100, 0).unwrap();
    // burning 10 of 100 shares is worth 10 of the 100 native units
    let a = execute_unstake(&mut s, "alice".to_string(), 10, 100, 7).unwrap();
    assert_eq!(a, 10);
    assert_eq!(s.supply.native, 90);
    assert_eq!(s.supply.unstakings, 10);
    assert_eq!(query_under_unstaking_of(&s, &"alice".to_string()), 10);
    assert_eq!(queued_total(&s), 10);
}

#[test]
fn unstake_of_more_than_the_native_total_underflows() {
    let mut s = fresh();
    _mint_liquid_token(&mut s, 100, 0).unwrap();
    let r = execute_unstake(&mut s, "alice".to_string(), 200, 100, 7);
    assert!(matches!(r, Err(ContractError::ArithmeticUnderflow)));
    // the failing operation left everything as it was
    assert_eq!(s.supply.native, 100);
    assert_eq!(s.supply.unstakings, 0);
    assert_eq!(query_unstaking_queue(&s).unwrap().state.length, 0);
}

#[test]
fn drain_pays_the_oldest_requests_first() {
    let mut s = fresh();
    _mint_liquid_token(&mut s, 100, 0).unwrap();
    execute_unstake(&mut s, "a".to_string(), 10, 100, 1).unwrap();
    execute_unstake(&mut s, "b".to_string(), 5, 90, 2).unwrap();
    execute_unstake(&mut s, "c".to_string(), 20, 85, 3).unwrap();
    assert_eq!(s.supply.unstakings, 35);

    // one drain call with 12 available: A fully paid, B partially
    let outcome = _process_token(&mut s, 12, 12).unwrap();
    assert_eq!(query_claimable_of(&s, &"a".to_string()), 10);
    assert_eq!(query_claimable_of(&s, &"b".to_string()), 2);
    assert_eq!(query_claimable_of(&s, &"c".to_string()), 0);
    assert_eq!(query_under_unstaking_of(&s, &"a".to_string()), 0);
    assert_eq!(query_under_unstaking_of(&s, &"b".to_string()), 3);
    assert_eq!(query_under_unstaking_of(&s, &"c".to_string()), 20);
    let resp = query_unstaking_queue(&s).unwrap();
    assert_eq!(resp.state.length, 2);
    assert_eq!(resp.queue[0].info.value, 3);
    assert_eq!(resp.queue[1].info.value, 20);
    assert_eq!(s.supply.unstakings, 23);
    assert_eq!(s.supply.claims, 12);
    // requests still wait and no cash is left: check the bonded amount
    assert!(outcome.check_undelegate);
    assert_eq!(outcome.delegate, None);

    // a second drain with 10 available: B's remainder, then C partially
    _process_token(&mut s, 22, 22).unwrap();
    assert_eq!(query_claimable_of(&s, &"b".to_string()), 5);
    assert_eq!(query_claimable_of(&s, &"c".to_string()), 7);
    let resp = query_unstaking_queue(&s).unwrap();
    assert_eq!(resp.state.length, 1);
    assert_eq!(resp.queue[0].info.value, 13);
    assert_eq!(resp.queue[0].id, resp.state.head_id);
    assert_eq!(s.supply.unstakings, 13);
    assert_eq!(s.supply.claims, 22);
}

#[test]
fn drain_with_spare_cash_delegates_the_rest() {
    let mut s = fresh();
    _mint_liquid_token(&mut s, 100, 0).unwrap();
    execute_unstake(&mut s, "a".to_string(), 10, 100, 1).unwrap();
    // 25 available: the queue takes 10, the remaining 15 should be bonded
    let outcome = _process_token(&mut s, 25, 25).unwrap();
    assert_eq!(outcome.delegate, Some(15));
    assert!(!outcome.check_undelegate);
    assert_eq!(s.supply.unstakings, 0);
}

#[test]
fn drain_counts_newly_arrived_rewards() {
    let mut s = fresh();
    _mint_liquid_token(&mut s, 100, 0).unwrap();
    // the balance grew by 4 since the reward claim was issued
    _process_token(&mut s, 9, 5).unwrap();
    assert_eq!(s.supply.native, 104);
}

#[test]
fn accounting_stays_conserved_across_operations() {
    let mut s = fresh();
    _mint_liquid_token(&mut s, 1000, 0).unwrap();
    execute_unstake(&mut s, "a".to_string(), 100, 1000, 1).unwrap();
    execute_unstake(&mut s, "b".to_string(), 50, 900, 2).unwrap();
    assert_eq!(s.supply.unstakings, queued_total(&s));
    _process_token(&mut s, 120, 120).unwrap();
    assert_eq!(s.supply.unstakings, queued_total(&s));
    execute_claim(&mut s, &"a".to_string()).unwrap();
    assert_eq!(s.supply.unstakings, queued_total(&s));
}

#[test]
fn claim_pays_once_and_only_once() {
    let mut s = fresh();
    _mint_liquid_token(&mut s, 100, 0).unwrap();
    execute_unstake(&mut s, "alice".to_string(), 10, 100, 1).unwrap();
    _process_token(&mut s, 10, 10).unwrap();
    assert_eq!(execute_claim(&mut s, &"alice".to_string()).unwrap(), 10);
    assert_eq!(s.supply.claims, 0);
    // a second claim without an intervening settlement finds nothing
    let r = execute_claim(&mut s, &"alice".to_string());
    assert!(matches!(r, Err(ContractError::NothingToClaim)));
}

#[test]
fn overflow_fails_hard_and_leaves_state_alone() {
    let mut s = fresh();
    _mint_liquid_token(&mut s, u128::MAX, 0).unwrap();
    assert_eq!(s.supply.native, u128::MAX);
    let r = _mint_liquid_token(&mut s, 1, 0);
    assert!(matches!(r, Err(ContractError::ArithmeticOverflow)));
    assert_eq!(s.supply.native, u128::MAX);
    assert_eq!(s.supply.unstakings, 0);
    assert_eq!(query_unstaking_queue(&s).unwrap().state.length, 0);
}

#[test]
fn drain_with_balance_below_reserved_claims_underflows() {
    let mut s = fresh();
    _mint_liquid_token(&mut s, 100, 0).unwrap();
    execute_unstake(&mut s, "a".to_string(), 10, 100, 1).unwrap();
    _process_token(&mut s, 10, 10).unwrap();
    assert_eq!(s.supply.claims, 10);
    // the balance no longer covers what is earmarked
    let r = _process_token(&mut s, 4, 4);
    assert!(matches!(r, Err(ContractError::ArithmeticUnderflow)));
    assert_eq!(s.supply.claims, 10);
}

#[test]
fn receive_accepts_only_the_share_token_contract() {
    let mut s = fresh();
    execute_set_liquid_token(&mut s, &"admin".to_string(), "cw20".to_string()).unwrap();
    _mint_liquid_token(&mut s, 100, 0).unwrap();
    let r = execute_receive(&mut s, &"mallory".to_string(), "alice".to_string(), 10, 100, 1);
    assert!(matches!(r, Err(ContractError::Unauthorized)));
    let a = execute_receive(&mut s, &"cw20".to_string(), "alice".to_string(), 10, 100, 1).unwrap();
    assert_eq!(a, 10);
}

#[test]
fn only_the_admin_sets_the_share_token() {
    let mut s = fresh();
    let r = execute_set_liquid_token(&mut s, &"mallory".to_string(), "evil".to_string());
    assert!(matches!(r, Err(ContractError::Unauthorized)));
    assert_eq!(query_config(&s).liquid_token_addr, "none");
    execute_set_liquid_token(&mut s, &"admin".to_string(), "cw20".to_string()).unwrap();
    assert_eq!(query_config(&s).liquid_token_addr, "cw20");
}

#[test]
fn status_reports_the_share_price() {
    let mut s = fresh();
    _mint_liquid_token(&mut s, 100, 0).unwrap();
    // 100 native behind 50 circulating shares: one share is worth 2
    let status = query_status(&s, 50, 0, 0).unwrap();
    assert_eq!(status.ratio.atomics, 2_000_000_000_000_000_000);
    assert_eq!(status.native.amount, 100);
    assert_eq!(status.native.denom, "denom");
    // without circulating shares the ratio falls back to 1
    let fallback = query_status(&s, 0, 0, 0).unwrap();
    assert_eq!(fallback.ratio.atomics, 1_000_000_000_000_000_000);
}

#[test]
fn undelegate_amount_releases_the_excess() {
    assert_eq!(undelegate_amount(40, 100), Some(60));
    assert_eq!(undelegate_amount(100, 100), None);
    assert_eq!(undelegate_amount(100, 40), None);
}

#[test]
fn drain_is_bounded_to_fifty_nodes_per_call() {
    let mut s = fresh();
    _mint_liquid_token(&mut s, 200, 0).unwrap();
    let mut supply = 200u128;
    for i in 0..60u64 {
        execute_unstake(&mut s, format!("owner{}", i), 1, supply, i).unwrap();
        supply -= 1;
    }
    assert_eq!(s.supply.unstakings, 60);
    // plenty of cash, but one call processes at most fifty requests
    _process_token(&mut s, 100, 100).unwrap();
    assert_eq!(s.supply.unstakings, 10);
    assert_eq!(query_unstaking_queue(&s).unwrap().state.length, 10);
}
