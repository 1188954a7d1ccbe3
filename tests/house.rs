use cw_sath::error::ContractError;
use cw_sath::house::House;
use cw_sath::msg::{HouseMarketingInfo, TaxRecipientInitArgs};
use cw_sath::token::Token;

const SECOND: u64 = 1_000_000_000;

fn marketing() -> HouseMarketingInfo {
    HouseMarketingInfo { logo: None, name: Some("house".to_string()), description: None }
}

fn native(denom: &str) -> Token {
    Token::Native { denom: denom.to_string() }
}

fn tax(address: &str, pct: u128, autosend: bool) -> TaxRecipientInitArgs {
    TaxRecipientInitArgs {
        address: address.to_string(),
        name: None,
        logo: None,
        pct,
        autosend,
        immutable: false,
    }
}

/// A house staking "ustake" whose single revenue asset is "uusd".
fn house_with(taxes: Vec<TaxRecipientInitArgs>, unbonding_seconds: Option<u64>) -> House {
    House::init(0, marketing(), native("ustake"), vec![native("uusd")], unbonding_seconds, &taxes)
        .unwrap()
}

fn house() -> House {
    house_with(vec![], None)
}

/// Deposits `amount` of asset 0 when the house holds exactly what it books.
fn deposit(h: &mut House, amount: u128) -> Vec<(usize, u128)> {
    let held = h.balances[0] + h.tax_held[0] + amount;
    h.exec_deposit(0, amount, held, 0, 1, 10).unwrap()
}

#[test]
fn single_staker_receives_whole_deposit() {
    let mut h = house();
    assert_eq!(h.exec_stake(0, 100, 1).unwrap(), 0);
    deposit(&mut h, 1000);
    let out = h.exec_claim(0, 0, 20).unwrap();
    assert_eq!(out.revenue, 1000);
    assert_eq!(out.unbonded, 0);
    assert_eq!(h.balances[0], 0);
}

#[test]
fn two_equal_stakers_split_deposit() {
    let mut h = house();
    h.exec_stake(0, 100, 1).unwrap();
    h.exec_stake(1, 100, 2).unwrap();
    assert_eq!(h.total_delegation, 200);
    deposit(&mut h, 1000);
    assert_eq!(h.exec_claim(0, 0, 20).unwrap().revenue, 500);
    assert_eq!(h.exec_claim(1, 0, 21).unwrap().revenue, 500);
}

#[test]
fn pro_rata_shares_truncate() {
    let mut h = house();
    h.exec_stake(0, 1, 1).unwrap();
    h.exec_stake(1, 2, 2).unwrap();
    deposit(&mut h, 10);
    let a = h.exec_claim(0, 0, 20).unwrap().revenue;
    let b = h.exec_claim(1, 0, 21).unwrap().revenue;
    assert_eq!(a, 3);
    assert_eq!(b, 6);
    assert!(a + b <= 10);
}

#[test]
fn later_staker_gets_nothing_from_earlier_deposit() {
    let mut h = house();
    h.exec_stake(0, 100, 1).unwrap();
    deposit(&mut h, 1000);
    h.exec_stake(1, 100, 2).unwrap();
    deposit(&mut h, 400);
    assert_eq!(h.exec_claim(1, 0, 20).unwrap().revenue, 200);
    assert_eq!(h.exec_claim(0, 0, 21).unwrap().revenue, 1200);
}

#[test]
fn settling_twice_credits_nothing_more() {
    let mut h = house();
    h.exec_stake(0, 100, 1).unwrap();
    deposit(&mut h, 1000);
    h.settle_account(0, None, 5).unwrap();
    let first = h.syncs[0][0].amount;
    let series = h.balance_events[0].clone();
    h.settle_account(0, None, 6).unwrap();
    assert_eq!(first, 1000);
    assert_eq!(h.syncs[0][0].amount, first);
    assert_eq!(h.balance_events[0], series);
    assert_eq!(h.exec_claim(0, 0, 7).unwrap().revenue, 1000);
    assert_eq!(h.exec_claim(0, 0, 8).unwrap().revenue, 0);
}

#[test]
fn consecutive_deposits_consolidate() {
    let mut h = house();
    h.exec_stake(0, 100, 1).unwrap();
    deposit(&mut h, 10);
    deposit(&mut h, 20);
    deposit(&mut h, 30);
    assert_eq!(h.balance_events[0].len(), 1);
    assert_eq!(h.balance_events[0][0].1.delta, 60);
    assert_eq!(h.seq_no, 1);
    assert_eq!(h.deposits[0].n, 3);
    assert_eq!(h.deposits[0].amount, 60);
}

#[test]
fn stake_between_deposits_opens_new_entry() {
    let mut h = house();
    h.exec_stake(0, 100, 1).unwrap();
    h.exec_stake(1, 100, 1).unwrap();
    deposit(&mut h, 10);
    h.exec_stake(0, 100, 2).unwrap();
    deposit(&mut h, 20);
    assert_eq!(h.balance_events[0].len(), 2);
    assert_eq!(h.balance_events[0][0].1.ref_count, 1);
    assert_eq!(h.balance_events[0][1].0, 1);
    assert_eq!(h.balance_events[0][1].1.total, 300);
}

#[test]
fn entry_retired_after_every_account_settles() {
    let mut h = house();
    h.exec_stake(0, 100, 1).unwrap();
    h.exec_stake(1, 300, 2).unwrap();
    deposit(&mut h, 1000);
    assert_eq!(h.balance_events[0][0].1.ref_count, 2);
    h.exec_claim(0, 0, 20).unwrap();
    assert_eq!(h.balance_events[0].len(), 1);
    assert_eq!(h.balance_events[0][0].1.ref_count, 1);
    h.exec_claim(1, 0, 21).unwrap();
    assert_eq!(h.balance_events[0].len(), 0);
    assert_eq!(h.query_balance_event_counts()[0].n, 0);
}

#[test]
fn taxes_are_skimmed_before_sharing() {
    let mut h = house_with(vec![tax("sent", 100_000, true), tax("held", 50_000, false)], None);
    h.exec_stake(0, 100, 1).unwrap();
    let transfers = deposit(&mut h, 1000);
    assert_eq!(transfers, vec![(0usize, 100u128)]);
    assert_eq!(h.tax_held[0], 50);
    assert_eq!(h.tax_totals[0][0].total, 100);
    assert_eq!(h.tax_totals[0][0].balance, 0);
    assert_eq!(h.tax_totals[0][1].balance, 50);
    assert_eq!(h.exec_claim(0, 0, 20).unwrap().revenue, 850);
    let taxes = h.query_taxes();
    assert_eq!(taxes.pct, 150_000);
    assert_eq!(taxes.recipients.len(), 2);
    assert_eq!(taxes.recipients[0].address, "sent".to_string());
    assert_eq!(taxes.recipients[1].config.pct, 50_000);
    assert_eq!(taxes.recipients[1].totals[0].balance, 50);
}

#[test]
fn untracked_surplus_is_booked_as_revenue() {
    let mut h = house();
    h.exec_stake(0, 100, 1).unwrap();
    h.exec_deposit(0, 100, 150, 0, 1, 10).unwrap();
    assert_eq!(h.deposits[0].amount, 150);
    assert_eq!(h.depositors[0][0].amount, 100);
    assert_eq!(h.depositors[1][0].amount, 50);
    assert_eq!(h.depositors[1][0].n, 1);
    assert_eq!(h.exec_claim(0, 0, 20).unwrap().revenue, 150);
}

#[test]
fn holding_less_than_deposited_fails() {
    let mut h = house();
    h.exec_stake(0, 100, 1).unwrap();
    assert_eq!(h.exec_deposit(0, 100, 50, 0, 1, 10), Err(ContractError::Overflow));
}

#[test]
fn unbondings_merge_by_weighted_maturity() {
    let mut h = house_with(vec![], Some(100));
    h.exec_stake(0, 100, 0).unwrap();
    let first = h.exec_unstake(0, Some(50), false, false, 0).unwrap();
    assert_eq!(first.amount, 50);
    assert_eq!(first.unbonds_at, 100 * SECOND);
    let merged = h.exec_unstake(0, Some(50), false, false, 50 * SECOND).unwrap();
    assert_eq!(merged.amount, 100);
    assert_eq!(merged.unbonds_at, 125 * SECOND);
    assert!(merged.unbonds_at >= 100 * SECOND && merged.unbonds_at <= 150 * SECOND);
    assert_eq!(h.total_unbonding, 100);
    assert_eq!(h.total_delegation, 0);
    assert_eq!(h.accounts[0].delegation, 0);
}

#[test]
fn matured_unbonding_is_paid_on_claim() {
    let mut h = house_with(vec![], Some(10));
    h.exec_stake(0, 100, 0).unwrap();
    h.exec_unstake(0, None, false, false, 0).unwrap();
    assert_eq!(h.exec_claim(0, 0, 5 * SECOND).unwrap().unbonded, 0);
    let out = h.exec_claim(0, 0, 10 * SECOND).unwrap();
    assert_eq!(out.unbonded, 100);
    assert_eq!(h.total_unbonding, 0);
    assert_eq!(h.unbondings[0], None);
}

#[test]
fn query_account_shows_pending_revenue() {
    let mut h = house();
    h.exec_stake(0, 100, 7).unwrap();
    deposit(&mut h, 1000);
    let view = h.query_account(0).unwrap().unwrap();
    assert_eq!(view.balances, vec![1000u128]);
    assert_eq!(view.delegation, 100);
    assert_eq!(view.created_at, 7);
    assert_eq!(h.query_account(4).unwrap(), None);
    assert_eq!(h.syncs[0][0].amount, 0);
}

#[test]
fn amortization_rotates_the_queue() {
    let mut h = house();
    for i in 0..20usize {
        h.exec_stake(i, 1, 1).unwrap();
    }
    assert_eq!(h.query_house().n_accounts, 20);
    assert_eq!(h.queue[0], 1);
    assert_eq!(h.queue[19], 0);
    deposit(&mut h, 100);
    assert_eq!(h.queue[0], 2);
    assert_eq!(h.queue[19], 1);
}

#[test]
fn unknown_asset_is_rejected() {
    let mut h = house();
    assert_eq!(h.exec_deposit(3, 10, 10, 0, 1, 0), Err(ContractError::TokenNotAccepted));
    h.exec_stake(0, 1, 0).unwrap();
    assert_eq!(h.exec_claim(0, 3, 0), Err(ContractError::TokenNotAccepted));
}

#[test]
fn unknown_account_is_rejected() {
    let mut h = house();
    assert_eq!(h.exec_stake(1, 10, 0), Err(ContractError::AccountNotFound));
    assert_eq!(h.exec_claim(0, 0, 0), Err(ContractError::AccountNotFound));
    assert_eq!(h.exec_unstake(0, None, false, false, 0), Err(ContractError::AccountNotFound));
}

#[test]
fn only_manager_unstakes_for_others() {
    let mut h = house();
    h.exec_stake(0, 10, 0).unwrap();
    assert_eq!(h.exec_unstake(0, Some(1), true, false, 0), Err(ContractError::NotManager));
    assert!(h.exec_unstake(0, Some(1), true, true, 0).is_ok());
}

#[test]
fn unstaking_more_than_delegated_fails() {
    let mut h = house();
    h.exec_stake(0, 10, 0).unwrap();
    assert_eq!(h.exec_unstake(0, Some(11), false, false, 0), Err(ContractError::Overflow));
}

#[test]
fn excessive_tax_rate_is_rejected() {
    let taxes = vec![tax("a", 600_000, true), tax("b", 500_000, false)];
    let r = House::init(0, marketing(), native("ustake"), vec![native("uusd")], None, &taxes);
    assert_eq!(r.err(), Some(ContractError::TaxRateExceeded));
    let ok = vec![tax("a", 600_000, true), tax("b", 400_000, false)];
    assert!(House::init(0, marketing(), native("ustake"), vec![native("uusd")], None, &ok).is_ok());
}

#[test]
fn zero_total_snapshot_is_a_division_fault() {
    let mut h = house();
    h.exec_stake(0, 100, 0).unwrap();
    h.exec_unstake(0, None, false, false, 0).unwrap();
    deposit(&mut h, 1000);
    assert_eq!(h.exec_claim(0, 0, 1), Err(ContractError::DivideByZero));
}

#[test]
fn staking_asset_deposit_excludes_principal() {
    let mut h = House::init(0, marketing(), native("ustake"), vec![native("ustake")], None, &vec![])
        .unwrap();
    h.exec_stake(0, 100, 0).unwrap();
    h.exec_deposit(0, 50, 150, 0, 1, 1).unwrap();
    assert_eq!(h.deposits[0].amount, 50);
    assert_eq!(h.exec_claim(0, 0, 2).unwrap().revenue, 50);
}

#[test]
fn claims_never_exceed_net_deposits() {
    let mut h = house_with(vec![tax("t", 10_000, true)], None);
    h.exec_stake(0, 1, 1).unwrap();
    h.exec_stake(1, 1, 1).unwrap();
    h.exec_stake(2, 1, 1).unwrap();
    deposit(&mut h, 100);
    h.exec_stake(1, 5, 2).unwrap();
    deposit(&mut h, 101);
    let mut claimed = 0u128;
    for a in 0..3usize {
        claimed += h.exec_claim(a, 0, 3).unwrap().revenue;
    }
    let taxed = h.tax_totals[0][0].total;
    assert_eq!(taxed, 1 + 1);
    assert!(claimed <= 201 - taxed);
    assert_eq!(claimed + h.balances[0], 201 - taxed);
    assert_eq!(h.balance_events[0].len(), 0);
}

#[test]
fn well_formed_house_is_recognised() {
    let mut h = house();
    h.exec_stake(0, 5, 1).unwrap();
    assert!(h.is_well_formed());
    h.queue.push_back(9);
    assert!(!h.is_well_formed());
}

#[test]
fn delegation_series_is_pruned_after_settling() {
    let mut h = house();
    h.exec_stake(0, 100, 1).unwrap();
    h.exec_stake(1, 100, 1).unwrap();
    deposit(&mut h, 1000);
    h.exec_stake(0, 100, 2).unwrap();
    assert_eq!(h.stake_events[0].len(), 2);
    deposit(&mut h, 300);
    assert_eq!(h.exec_claim(0, 0, 3).unwrap().revenue, 500 + 200);
    assert_eq!(h.stake_events[0].len(), 1);
    assert_eq!(h.stake_events[0][0].0, 1);
    assert_eq!(h.stake_events[0][0].1.delta, 200);
    assert_eq!(h.exec_claim(1, 0, 4).unwrap().revenue, 500 + 100);
}

#[test]
fn sync_account_leaves_house_unchanged() {
    let mut h = house();
    h.exec_stake(0, 100, 1).unwrap();
    deposit(&mut h, 1000);
    let x = h.x;
    let results = h.sync_account(0, None, 5).unwrap();
    assert_eq!(results.len(), 1);
    assert_eq!(results[0].0.synced_amount, 1000);
    assert_eq!(results[0].0.zombie_balance_event_keys, vec![0u64]);
    assert_eq!(results[0].1.amount, 1000);
    assert_eq!(h.x, x);
    assert_eq!(h.syncs[0][0].amount, 0);
    assert_eq!(h.balance_events[0].len(), 1);
    h.persist_sync_results(0, None, &results, 5);
    assert_eq!(h.syncs[0][0].amount, 1000);
    assert_eq!(h.balance_events[0].len(), 0);
    assert_eq!(h.x, x + 1);
}

#[test]
fn failed_operations_change_nothing() {
    let mut h = house();
    h.exec_stake(0, 100, 0).unwrap();
    h.exec_unstake(0, None, false, false, 0).unwrap();
    deposit(&mut h, 1000);
    let x = h.x;
    let syncs = h.syncs.clone();
    let series = h.balance_events.clone();
    assert_eq!(h.exec_stake(0, 5, 1), Err(ContractError::DivideByZero));
    assert_eq!(h.exec_unstake(0, Some(1), false, false, 1), Err(ContractError::Overflow));
    assert_eq!(h.exec_claim(0, 0, 1), Err(ContractError::DivideByZero));
    assert_eq!(h.x, x);
    assert_eq!(h.syncs, syncs);
    assert_eq!(h.balance_events, series);
    assert_eq!(h.accounts[0].delegation, 0);
    assert_eq!(h.total_delegation, 0);
}

#[test]
fn amortization_fault_aborts_the_operation() {
    let mut h = house();
    for i in 0..20usize {
        h.exec_stake(i, 1, 1).unwrap();
    }
    for i in 0..20usize {
        h.exec_unstake(i, None, false, false, 2).unwrap();
    }
    assert_eq!(h.total_delegation, 0);
    let x = h.x;
    let seq = h.seq_no;
    let queue = h.queue.clone();
    let held = h.balances[0] + h.tax_held[0] + 100;
    assert_eq!(h.exec_deposit(0, 100, held, 0, 1, 10), Err(ContractError::DivideByZero));
    assert_eq!(h.x, x);
    assert_eq!(h.seq_no, seq);
    assert_eq!(h.queue, queue);
    assert_eq!(h.balance_events[0].len(), 0);
    assert_eq!(h.deposits[0].n, 0);
    assert_eq!(h.depositors.len(), 0);
}

#[test]
fn deposits_are_tallied_per_depositor() {
    let mut h = house();
    h.exec_stake(0, 1, 0).unwrap();
    h.exec_deposit(0, 10, 10, 0, 1, 1).unwrap();
    h.exec_deposit(0, 5, 15, 1, 1, 1).unwrap();
    h.exec_deposit(0, 7, 22, 0, 1, 1).unwrap();
    assert_eq!(h.exec_deposit(0, 7, 29, 3, 1, 1), Err(ContractError::DepositorNotFound));
    let r = h.query_deposits();
    assert_eq!(r.totals[0].n, 3);
    assert_eq!(r.totals[0].amount, 22);
    assert_eq!(r.totals[0].token, native("uusd"));
    assert_eq!(r.depositors.len(), 2);
    assert_eq!(r.depositors[0][0].n, 2);
    assert_eq!(r.depositors[0][0].amount, 17);
    assert_eq!(r.depositors[1][0].amount, 5);
}
