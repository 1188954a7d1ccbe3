use crate::error::ContractError;
use crate::house::{House, HouseModel};
use crate::settle::{
    after_sync, lemma_after_settle_all_shape, lemma_settle_fits_after_other, selected_fit,
    sync_fits,
};
use vstd::prelude::*;

verus! {

/// At most this many accounts are visited per operation.
pub const AMORTIZATION_CAP: u64 = 10;

/// Accounts visited per operation, in millionths of the account count.
pub const AMORTIZATION_SHARE: u64 = 50_000;

/// How many accounts one operation visits: the cap, the queue length and a
/// share of the account count, whichever is least.
pub open spec fn batch_size(queue_len: int, n_accounts: int) -> int {
    let share = n_accounts * (AMORTIZATION_SHARE as int) / 1_000_000;
    let m = if queue_len < AMORTIZATION_CAP {
        queue_len
    } else {
        AMORTIZATION_CAP as int
    };
    if share < m {
        share
    } else {
        m
    }
}

/// One visit: the account at the front of the queue is settled for every
/// asset, unless it is `ignore`, and goes to the back of the queue.
pub open spec fn amortize_step(p: HouseModel, ignore: Option<usize>, now: u64) -> HouseModel {
    let q = p.queue[0];
    let s = if ignore == Some(q) {
        p
    } else {
        after_sync(p, q as int, None, now)
    };
    HouseModel { queue: s.queue.drop_first().push(q), ..s }
}

/// The first `n` visits succeed: each account visited, but `ignore`, can
/// settle every asset, and the generation counter has room for them. (As
/// each account is in the queue once, settling one visited account never
/// makes the settlement of a later one fail.)
pub open spec fn amortize_fits(m: HouseModel, n: int, ignore: Option<usize>) -> bool {
    &&& m.x + n <= u64::MAX
    &&& forall|i: int|
        0 <= i < n ==> ignore == Some(#[trigger] m.queue[i]) || selected_fit(m, m.queue[i] as int, None)
}

/// The house after `n` visits.
pub open spec fn amortized(m: HouseModel, n: int, ignore: Option<usize>, now: u64) -> HouseModel
    decreases n,
{
    if n <= 0 {
        m
    } else {
        amortize_step(amortized(m, n - 1, ignore, now), ignore, now)
    }
}

/// After `n` visits, with `n` at most the queue length, the queue has
/// rotated by `n`, and the accounts and the counters are as they were.
pub proof fn lemma_amortized_shape(m: HouseModel, n: int, ignore: Option<usize>, now: u64)
    requires
        0 <= n <= m.queue.len(),
    ensures
        amortized(m, n, ignore, now).queue == m.queue.subrange(n, m.queue.len() as int)
            + m.queue.take(n),
        amortized(m, n, ignore, now).accounts == m.accounts,
        amortized(m, n, ignore, now).tokens == m.tokens,
        amortized(m, n, ignore, now).seq_no == m.seq_no,
        amortized(m, n, ignore, now).total_delegation == m.total_delegation,
        amortized(m, n, ignore, now).unbondings == m.unbondings,
        amortized(m, n, ignore, now).balances == m.balances,
        amortized(m, n, ignore, now).taxes == m.taxes,
    decreases n,
{
    if n > 0 {
        lemma_amortized_shape(m, n - 1, ignore, now);
        let p = amortized(m, n - 1, ignore, now);
        lemma_after_settle_all_shape(p, p.queue[0] as int, now, p.tokens.len() as int);
        let q = p.queue[0];
        assert(p.queue[0] == m.queue[n - 1]);
        assert(amortized(m, n, ignore, now).queue =~= m.queue.subrange(n, m.queue.len() as int)
            + m.queue.take(n));
    }
}

/// Each visit advances the generation by at most one.
pub proof fn lemma_amortized_x(m: HouseModel, n: int, ignore: Option<usize>, now: u64)
    requires
        0 <= n,
        m.x + n <= u64::MAX,
    ensures
        m.x <= amortized(m, n, ignore, now).x <= m.x + n,
    decreases n,
{
    if n > 0 {
        lemma_amortized_x(m, n - 1, ignore, now);
        let p = amortized(m, n - 1, ignore, now);
        lemma_after_settle_all_shape(p, p.queue[0] as int, now, p.tokens.len() as int);
    }
}

/// A house of fewer than 20 accounts amortizes nobody.
pub proof fn lemma_small_batch_empty(m: HouseModel, ignore: Option<usize>)
    requires
        m.accounts.len() < 20,
    ensures
        batch_size(m.queue.len() as int, m.accounts.len() as int) <= 0,
        amortize_fits(m, batch_size(m.queue.len() as int, m.accounts.len() as int), ignore),
{
    let n = m.accounts.len() as int;
    assert(n * (AMORTIZATION_SHARE as int) / 1_000_000 == 0) by (nonlinear_arith)
        requires
            0 <= n < 20,
    ;
}

/// A batch never exceeds the queue.
pub proof fn lemma_batch_within_queue(m: HouseModel)
    ensures
        0 <= batch_size(m.queue.len() as int, m.accounts.len() as int) <= m.queue.len(),
{
    let n = m.accounts.len() as int;
    assert(n * (AMORTIZATION_SHARE as int) / 1_000_000 >= 0) by (nonlinear_arith)
        requires
            n >= 0,
    ;
}

/// Amortization moves no revenue: the stakers' balances stay as they were.
pub proof fn lemma_amortized_keeps_balances(m: HouseModel, ignore: Option<usize>, now: u64)
    ensures
        amortized(
            m,
            batch_size(m.queue.len() as int, m.accounts.len() as int),
            ignore,
            now,
        ).balances == m.balances,
        amortized(
            m,
            batch_size(m.queue.len() as int, m.accounts.len() as int),
            ignore,
            now,
        ).taxes == m.taxes,
        amortized(
            m,
            batch_size(m.queue.len() as int, m.accounts.len() as int),
            ignore,
            now,
        ).tokens == m.tokens,
{
    lemma_batch_within_queue(m);
    lemma_amortized_shape(
        m,
        batch_size(m.queue.len() as int, m.accounts.len() as int),
        ignore,
        now,
    );
}

impl House {
    /// Settles a batch of accounts taken from the front of the amortization
    /// queue, for every asset, and moves each to the back of the queue; the
    /// account `ignore`, which the calling operation settles itself, is only
    /// moved. Fails, changing nothing, when some visited account cannot be
    /// settled: every visit is checked against the house as it stands before
    /// the first one is made.
    pub fn amortize(&mut self, ignore: Option<usize>, now: u64) -> (r: Result<(), ContractError>)
        requires
            old(self).wf(),
        ensures
            r.is_ok() <==> amortize_fits(
                old(self)@,
                batch_size(old(self)@.queue.len() as int, old(self)@.accounts.len() as int),
                ignore,
            ),
            r.is_ok() ==> final(self)@ == amortized(
                old(self)@,
                batch_size(old(self)@.queue.len() as int, old(self)@.accounts.len() as int),
                ignore,
                now,
            ),
            r.is_err() ==> final(self)@ == old(self)@,
            final(self).wf(),
    {
        let ghost m = self@;
        let queue_len = self.queue.len();
        let share = (self.accounts.len() as u64) * AMORTIZATION_SHARE / 1_000_000;
        let mut n: u64 = if (queue_len as u64) < AMORTIZATION_CAP {
            queue_len as u64
        } else {
            AMORTIZATION_CAP
        };
        if share < n {
            n = share;
        }
        assert(n == batch_size(m.queue.len() as int, m.accounts.len() as int));
        if self.x > u64::MAX - n {
            return Err(ContractError::Overflow);
        }
        let mut c: u64 = 0;
        while c < n
            invariant
                self.wf(),
                m == self@,
                m == old(self)@,
                n <= m.queue.len(),
                n == batch_size(m.queue.len() as int, m.accounts.len() as int),
                c <= n,
                forall|i: int|
                    0 <= i < c ==> ignore == Some(#[trigger] m.queue[i]) || selected_fit(
                        m,
                        m.queue[i] as int,
                        None,
                    ),
            decreases n - c,
        {
            let q = self.queue[c as usize];
            let skip = match ignore {
                Some(ig) => ig == q,
                None => false,
            };
            assert(q == m.queue[c as int]);
            if !skip {
                match self.sync_account(q, None, now) {
                    Ok(_) => {},
                    Err(e) => {
                        assert(!selected_fit(m, m.queue[c as int] as int, None));
                        assert(ignore != Some(m.queue[c as int]));
                        return Err(e);
                    },
                }
            }
            c = c + 1;
        }
        let mut i: u64 = 0;
        while i < n
            invariant
                self.wf(),
                m == old(self)@,
                m.wf(),
                n <= m.queue.len(),
                n == batch_size(m.queue.len() as int, m.accounts.len() as int),
                amortize_fits(m, n as int, ignore),
                i <= n,
                self@ == amortized(m, i as int, ignore, now),
                forall|j: int|
                    i <= j < n ==> ignore == Some(#[trigger] m.queue[j]) || selected_fit(
                        self@,
                        m.queue[j] as int,
                        None,
                    ),
            decreases n - i,
        {
            proof {
                lemma_amortized_shape(m, i as int, ignore, now);
                lemma_amortized_x(m, i as int, ignore, now);
            }
            assert(self@.queue.len() == m.queue.len());
            let q = self.queue[0];
            assert(q == m.queue[i as int]);
            let skip = match ignore {
                Some(ig) => ig == q,
                None => false,
            };
            let ghost before = self@;
            if !skip {
                assert(sync_fits(before, q as int, None, now));
                match self.settle_account(q, None, now) {
                    Ok(()) => {},
                    Err(e) => {
                        return Err(e);
                    },
                }
            }
            proof {
                let p = amortized(m, i as int, ignore, now);
                lemma_after_settle_all_shape(p, q as int, now, p.tokens.len() as int);
                if !skip {
                    assert forall|j: int|
                        i + 1 <= j < n implies ignore == Some(#[trigger] m.queue[j]) || selected_fit(
                        self@,
                        m.queue[j] as int,
                        None,
                    ) by {
                        if ignore != Some(m.queue[j]) {
                            assert(selected_fit(before, m.queue[j] as int, None));
                            assert(m.queue[j] != m.queue[i as int]);
                            assert forall|k: int| 0 <= k < before.tokens.len() implies #[trigger] crate::settle::settle_fits(
                                self@,
                                m.queue[j] as int,
                                k,
                            ) by {
                                assert(crate::settle::settle_fits(before, m.queue[j] as int, k));
                                lemma_settle_fits_after_other(
                                    before,
                                    m.queue[j] as int,
                                    q as int,
                                    k,
                                    now,
                                );
                            }
                        }
                    }
                }
            }
            let ghost mid = self@;
            let popped = self.queue.pop_front();
            match popped {
                Some(v) => {
                    self.queue.push_back(v);
                },
                None => {},
            }
            i = i + 1;
            proof {
                let e = amortized(m, i as int, ignore, now);
                assert(self@.queue =~= e.queue);
                assert(self@.syncs =~= e.syncs);
                assert(self@.stake_events =~= e.stake_events);
                assert(self@.balance_events =~= e.balance_events);
                assert(self@.tax_totals =~= e.tax_totals);
                assert(self@ == e);
                assert forall|j: int| 0 <= j < self@.queue.len() implies #[trigger] self@.queue[j]
                    < self@.accounts.len() by {
                    if j < mid.queue.len() - 1 {
                        assert(self@.queue[j] == mid.queue[j + 1]);
                    }
                }
                assert forall|p: int, q2: int|
                    0 <= p < q2 < self@.queue.len() implies #[trigger] self@.queue[p]
                    != #[trigger] self@.queue[q2] by {
                    let l = mid.queue.len();
                    if q2 < l - 1 {
                        assert(self@.queue[p] == mid.queue[p + 1]);
                        assert(self@.queue[q2] == mid.queue[q2 + 1]);
                    } else {
                        assert(self@.queue[p] == mid.queue[p + 1]);
                        assert(self@.queue[q2] == mid.queue[0]);
                    }
                }
                assert forall|j: int|
                    i <= j < n implies ignore == Some(#[trigger] m.queue[j]) || selected_fit(
                    self@,
                    m.queue[j] as int,
                    None,
                ) by {
                    assert(ignore == Some(m.queue[j]) || selected_fit(mid, m.queue[j] as int, None));
                    if ignore != Some(m.queue[j]) {
                        assert forall|k: int| 0 <= k < self@.tokens.len() implies #[trigger] crate::settle::settle_fits(
                            self@,
                            m.queue[j] as int,
                            k,
                        ) by {
                            assert(crate::settle::settle_fits(mid, m.queue[j] as int, k));
                        }
                    }
                }
            }
        }
        Ok(())
    }
}

} // verus!
