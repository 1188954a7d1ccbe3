use cw_sath::deposit::{append_balance_event, compute_taxes};
use cw_sath::execute::{merge_unbonding, sync_untracked_balance};
use cw_sath::models::{AccountSyncState, AccountUnbondingState, BalanceEvent, StakingEvent, TaxRecipientConfig};
use cw_sath::sync::{delegation_at_seq, perform_sync, sync_account_balance};

fn entry(delta: u128, total: u128, refs: u32) -> BalanceEvent {
    BalanceEvent { delta, total, n_accounts: refs, ref_count: refs, x: 0 }
}

#[test]
fn delegation_follows_snapshots() {
    let ds = vec![(2u64, StakingEvent { delta: 10 }), (5u64, StakingEvent { delta: 30 })];
    assert_eq!(delegation_at_seq(&ds, 1), 0);
    assert_eq!(delegation_at_seq(&ds, 2), 10);
    assert_eq!(delegation_at_seq(&ds, 4), 10);
    assert_eq!(delegation_at_seq(&ds, 5), 30);
}

#[test]
fn settlement_uses_delegation_of_each_interval() {
    let ds = vec![(0u64, StakingEvent { delta: 10 }), (3u64, StakingEvent { delta: 30 })];
    let bs = vec![(1u64, entry(100, 40, 2)), (3u64, entry(100, 60, 1)), (7u64, entry(5, 5, 1))];
    let r = perform_sync(&ds, &bs, 0, 0, 5).unwrap();
    assert_eq!(r.synced_amount, 25 + 50);
    assert_eq!(r.zombie_balance_event_keys, vec![3u64]);
    assert_eq!(r.balance_events, vec![(1u64, BalanceEvent { ref_count: 1, ..entry(100, 40, 2) }), (7u64, entry(5, 5, 1))]);
}

#[test]
fn settlement_of_empty_window_is_nothing() {
    let ds = vec![(0u64, StakingEvent { delta: 10 })];
    let bs = vec![(1u64, entry(100, 10, 1))];
    let r = perform_sync(&ds, &bs, 0, 4, 4).unwrap();
    assert_eq!(r.synced_amount, 0);
    assert_eq!(r.balance_events, bs);
}

#[test]
fn settling_moves_checkpoint() {
    let ds = vec![(0u64, StakingEvent { delta: 1 })];
    let bs = vec![(0u64, entry(9, 3, 1))];
    let mut st = AccountSyncState { t: 0, seq_no: 0, amount: 4 };
    let r = sync_account_balance(&ds, &bs, &mut st, 0, 1, 77).unwrap();
    assert_eq!(r.synced_amount, 3);
    assert_eq!(st, AccountSyncState { t: 77, seq_no: 1, amount: 7 });
}

#[test]
fn consolidator_merges_only_in_same_generation() {
    let mut bs = vec![(4u64, entry(10, 10, 1))];
    let mut seq = 5u64;
    append_balance_event(&mut bs, &mut seq, 0, 7, 99, 3).unwrap();
    assert_eq!(bs.len(), 1);
    assert_eq!(bs[0].1.delta, 17);
    assert_eq!(seq, 5);
    append_balance_event(&mut bs, &mut seq, 1, 7, 99, 3).unwrap();
    assert_eq!(bs.len(), 2);
    assert_eq!(bs[1], (5u64, BalanceEvent { delta: 7, total: 99, n_accounts: 3, ref_count: 3, x: 1 }));
    assert_eq!(seq, 6);
}

#[test]
fn taxes_per_recipient() {
    let taxes = vec![
        TaxRecipientConfig { pct: 250_000, autosend: true, immutable: false },
        TaxRecipientConfig { pct: 1, autosend: false, immutable: true },
    ];
    assert_eq!(compute_taxes(&taxes, 1000).unwrap(), vec![250u128, 0u128]);
}

#[test]
fn untracked_surplus() {
    assert_eq!(sync_untracked_balance(150, 100, 20), Ok(30));
    assert_eq!(sync_untracked_balance(150, 100, 60), Ok(0));
    assert!(sync_untracked_balance(50, 100, 0).is_err());
}

#[test]
fn unbonding_merge_is_weighted() {
    let u = AccountUnbondingState { amount: 30, unbonds_at: 100 };
    let m = merge_unbonding(u, 10, 200).unwrap();
    assert_eq!(m.amount, 40);
    assert_eq!(m.unbonds_at, 125);
    let back = merge_unbonding(AccountUnbondingState { amount: 10, unbonds_at: 200 }, 30, 100).unwrap();
    assert_eq!(back.unbonds_at, 125);
}
