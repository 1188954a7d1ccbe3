use crate::deposit::tax_rates;
use crate::error::ContractError;
use crate::house::House;
use crate::math::{add_u128, seq_sum};
use crate::models::DepositTokenAmount;
use crate::models::{DepositTotals, TaxRecipientBalance, TaxRecipientInfo};
use crate::responses::{
    AccountResponse, BalanceEventCount, DepositsResponse, HouseStats, TaxRecipientResponseItem, TaxesResponse,
};
use crate::token::copy_text;
use crate::settle::{settle_fits, settled_state};
use crate::sync::perform_sync;
use vstd::prelude::*;

verus! {

impl House {
    /// Account `a` as seen from outside, without changing the house: its
    /// delegation, what it could claim of each asset if it settled now, and
    /// its pending unbonding. `None` when there is no such account; fails
    /// when settling the account now would fail.
    pub fn query_account(&self, a: usize) -> (r: Result<Option<AccountResponse>, ContractError>)
        requires
            self.wf(),
        ensures
            a >= self@.accounts.len() ==> r == Ok::<Option<AccountResponse>, ContractError>(None),
            a < self@.accounts.len() && r.is_ok() ==> r matches Ok(Some(_)),
            a < self@.accounts.len() ==> (r.is_ok() <==> forall|k: int|
                0 <= k < self@.tokens.len() ==> #[trigger] settle_fits(self@, a as int, k)),
            r matches Ok(Some(resp)) ==> {
                &&& a < self@.accounts.len()
                &&& resp.created_at == self@.accounts[a as int].created_at
                &&& resp.delegation == self@.accounts[a as int].delegation
                &&& resp.unbonding == self@.unbondings[a as int]
                &&& resp.balances@.len() == self@.tokens.len()
                &&& forall|k: int|
                    0 <= k < self@.tokens.len() ==> #[trigger] resp.balances@[k] == settled_state(
                        self@,
                        a as int,
                        k,
                        0,
                    ).amount
            },
    {
        if a >= self.accounts.len() {
            return Ok(None);
        }
        let mut balances: Vec<u128> = Vec::new();
        let mut k: usize = 0;
        while k < self.tokens.len()
            invariant
                self.wf(),
                a < self@.accounts.len(),
                k <= self.tokens.len(),
                balances@.len() == k,
                forall|j: int| 0 <= j < k ==> #[trigger] settle_fits(self@, a as int, j),
                forall|j: int|
                    0 <= j < k ==> #[trigger] balances@[j] == settled_state(self@, a as int, j, 0).amount,
            decreases self.tokens.len() - k,
        {
            assert(self.syncs@[a as int]@ == self@.syncs[a as int]);
            assert(self@.syncs[a as int].len() == self@.tokens.len());
            let st = self.syncs[a][k];
            assert(self.stake_events@[a as int]@ == self@.stake_events[a as int]);
            assert(self.balance_events@[k as int]@ == self@.balance_events[k as int]);
            assert(st == self@.syncs[a as int][k as int]);
            let res = match perform_sync(
                &self.stake_events[a],
                &self.balance_events[k],
                k,
                st.seq_no,
                self.seq_no,
            ) {
                Ok(res) => res,
                Err(e) => {
                    assert(!settle_fits(self@, a as int, k as int));
                    return Err(e);
                },
            };
            let v = match add_u128(st.amount, res.synced_amount) {
                Ok(v) => v,
                Err(e) => {
                    assert(!settle_fits(self@, a as int, k as int));
                    return Err(e);
                },
            };
            balances.push(v);
            k = k + 1;
        }
        Ok(
            Some(
                AccountResponse {
                    created_at: self.accounts[a].created_at,
                    delegation: self.accounts[a].delegation,
                    balances,
                    unbonding: self.unbondings[a],
                },
            ),
        )
    }

    /// The counters of the house.
    pub fn query_house(&self) -> (r: HouseStats)
        requires
            self.wf(),
        ensures
            r.n_accounts == self@.accounts.len(),
    {
        HouseStats { n_accounts: self.accounts.len() as u32 }
    }

    /// The aggregate tax rate, in millionths.
    pub fn tax_rate(&self) -> (r: u128)
        requires
            self.wf(),
        ensures
            r == seq_sum(tax_rates(self@.taxes)),
    {
        let mut total: u128 = 0;
        let mut i: usize = 0;
        while i < self.taxes.len()
            invariant
                self.wf(),
                i <= self.taxes.len(),
                total == seq_sum(tax_rates(self@.taxes).take(i as int)),
            decreases self.taxes.len() - i,
        {
            assert(tax_rates(self@.taxes).take(i + 1).drop_last() == tax_rates(self@.taxes).take(
                i as int,
            ));
            proof {
                crate::math::lemma_seq_sum_prefix_monotone(tax_rates(self@.taxes), i + 1);
            }
            total = total + self.taxes[i].pct;
            i = i + 1;
        }
        assert(tax_rates(self@.taxes).take(i as int) == tax_rates(self@.taxes));
        total
    }

    /// The aggregate tax rate and, for every tax recipient, its address,
    /// metadata, settings and its tally in each revenue asset.
    pub fn query_taxes(&self) -> (r: TaxesResponse)
        requires
            self.wf(),
        ensures
            r.pct == seq_sum(tax_rates(self@.taxes)),
            r.recipients@.len() == self@.taxes.len(),
            forall|i: int|
                0 <= i < r.recipients@.len() ==> {
                    &&& (#[trigger] r.recipients@[i]).address@ == self@.tax_addresses[i]
                    &&& r.recipients@[i].info == self@.tax_infos[i]
                    &&& r.recipients@[i].config == self@.taxes[i]
                    &&& r.recipients@[i].totals@.len() == self@.tokens.len()
                    &&& forall|k: int|
                        0 <= k < self@.tokens.len() ==> #[trigger] r.recipients@[i].totals@[k]
                            == self@.tax_totals[k][i]
                },
    {
        let pct = self.tax_rate();
        let mut recipients: Vec<TaxRecipientResponseItem> = Vec::new();
        let mut i: usize = 0;
        while i < self.taxes.len()
            invariant
                self.wf(),
                i <= self.taxes.len(),
                recipients@.len() == i,
                forall|j: int|
                    0 <= j < i ==> {
                        &&& (#[trigger] recipients@[j]).address@ == self@.tax_addresses[j]
                        &&& recipients@[j].info == self@.tax_infos[j]
                        &&& recipients@[j].config == self@.taxes[j]
                        &&& recipients@[j].totals@.len() == self@.tokens.len()
                        &&& forall|k: int|
                            0 <= k < self@.tokens.len() ==> #[trigger] recipients@[j].totals@[k]
                                == self@.tax_totals[k][j]
                    },
            decreases self.taxes.len() - i,
        {
            let mut totals: Vec<TaxRecipientBalance> = Vec::new();
            let mut k: usize = 0;
            while k < self.tokens.len()
                invariant
                    self.wf(),
                    i < self.taxes.len(),
                    k <= self.tokens.len(),
                    totals@.len() == k,
                    forall|j: int| 0 <= j < k ==> #[trigger] totals@[j] == self@.tax_totals[j][i as int],
                decreases self.tokens.len() - k,
            {
                assert(self.tax_totals@[k as int]@ == self@.tax_totals[k as int]);
                assert(self@.tax_totals[k as int].len() == self@.taxes.len());
                totals.push(self.tax_totals[k][i]);
                k = k + 1;
            }
            assert(self.tax_addresses@[i as int]@ == self@.tax_addresses[i as int]);
            let info = &self.tax_infos[i];
            recipients.push(
                TaxRecipientResponseItem {
                    address: self.tax_addresses[i].clone(),
                    info: TaxRecipientInfo { name: copy_text(&info.name), logo: copy_text(&info.logo) },
                    config: self.taxes[i],
                    totals,
                },
            );
            i = i + 1;
        }
        TaxesResponse { pct, recipients }
    }

    /// Deposit count and sum of each revenue asset.
    pub fn deposit_totals(&self) -> (r: Vec<DepositTokenAmount>)
        requires
            self.wf(),
        ensures
            r@.len() == self@.tokens.len(),
            forall|k: int|
                0 <= k < r@.len() ==> #[trigger] r@[k].n == self@.deposits[k].n && r@[k].amount
                    == self@.deposits[k].amount && r@[k].token == self@.tokens[k],
    {
        let mut out: Vec<DepositTokenAmount> = Vec::new();
        let mut k: usize = 0;
        while k < self.tokens.len()
            invariant
                self.wf(),
                k <= self.tokens.len(),
                out@.len() == k,
                forall|j: int|
                    0 <= j < k ==> #[trigger] out@[j].n == self@.deposits[j].n && out@[j].amount
                        == self@.deposits[j].amount && out@[j].token == self@.tokens[j],
            decreases self.tokens.len() - k,
        {
            let d = self.deposits[k];
            out.push(DepositTokenAmount { n: d.n, amount: d.amount, token: self.tokens[k].duplicate() });
            k = k + 1;
        }
        out
    }

    /// Deposit count and sum of each revenue asset, and of each depositor by
    /// asset.
    pub fn query_deposits(&self) -> (r: DepositsResponse)
        requires
            self.wf(),
        ensures
            r.totals@.len() == self@.tokens.len(),
            forall|k: int|
                0 <= k < r.totals@.len() ==> #[trigger] r.totals@[k].n == self@.deposits[k].n
                    && r.totals@[k].amount == self@.deposits[k].amount && r.totals@[k].token
                    == self@.tokens[k],
            r.depositors@.len() == self@.depositors.len(),
            forall|d: int| 0 <= d < r.depositors@.len() ==> #[trigger] r.depositors@[d]@ == self@.depositors[d],
    {
        let totals = self.deposit_totals();
        let mut depositors: Vec<Vec<DepositTotals>> = Vec::new();
        let mut d: usize = 0;
        while d < self.depositors.len()
            invariant
                d <= self.depositors.len(),
                depositors@.len() == d,
                forall|j: int| 0 <= j < d ==> #[trigger] depositors@[j]@ == self@.depositors[j],
            decreases self.depositors.len() - d,
        {
            assert(self.depositors@[d as int]@ == self@.depositors[d as int]);
            depositors.push(self.depositors[d].clone());
            d = d + 1;
        }
        DepositsResponse { totals, depositors }
    }

    /// Number of live balance entries of each revenue asset (at most
    /// `u32::MAX`).
    pub fn query_balance_event_counts(&self) -> (r: Vec<BalanceEventCount>)
        requires
            self.wf(),
        ensures
            r@.len() == self@.tokens.len(),
            forall|k: int|
                0 <= k < r@.len() ==> #[trigger] r@[k].n == if self@.balance_events[k].len()
                    <= u32::MAX {
                    self@.balance_events[k].len()
                } else {
                    u32::MAX as nat
                } && r@[k].token == self@.tokens[k],
    {
        let mut out: Vec<BalanceEventCount> = Vec::new();
        let mut k: usize = 0;
        while k < self.tokens.len()
            invariant
                self.wf(),
                k <= self.tokens.len(),
                out@.len() == k,
                forall|j: int|
                    0 <= j < k ==> #[trigger] out@[j].n == if self@.balance_events[j].len()
                        <= u32::MAX {
                        self@.balance_events[j].len()
                    } else {
                        u32::MAX as nat
                    } && out@[j].token == self@.tokens[j],
            decreases self.tokens.len() - k,
        {
            assert(self.balance_events@[k as int]@ == self@.balance_events[k as int]);
            let len = self.balance_events[k].len();
            let n: u32 = if len <= 0xffff_ffff {
                len as u32
            } else {
                0xffff_ffff
            };
            out.push(BalanceEventCount { n, token: self.tokens[k].duplicate() });
            k = k + 1;
        }
        out
    }
}

} // verus!
