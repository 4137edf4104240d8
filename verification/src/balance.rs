//! The balance calculator.
//!
//! A participant's balance is the exact rational
//! `Σ cost/members − Σ paid costs − Σ payments`, with the share sum kept as
//! a fraction and only the final value rounded to the nearest minor unit
//! (ties up). The integer sums are subtracted after rounding the share
//! fraction; since they are whole minor units this loses nothing:
//! `round(a/b − s) == round(a/b) − s` for integer `s`.
//!
//! Balances are never cached: every query recomputes them from the live
//! store, so a task's share always reflects its member count at query
//! time — detaching or adding a member re-divides the cost for everyone
//! at the next query.
//!
//! The executable calculator accumulates the fraction in 128-bit words and
//! reports `None` exactly when some step leaves their range.

use vstd::prelude::*;
use crate::model::{LedgerState, tnames, pnames, index_of_name, lemma_index_of_name, task_wf, wf};
use crate::store::Payment;
use crate::errors::LedgerError;
use crate::text::str_views;

verus! {

/// Rounds the non-negative rational `num / den` (with `den > 0`) to the
/// nearest integer, ties rounded up.
pub open spec fn round_nearest(num: int, den: int) -> int
    recommends
        den > 0,
{
    (2 * num + den) / (2 * den)
}

/// One step of the share-fraction fold: add `c / k` to the fraction `r`.
pub open spec fn share_step(r: (int, int), c: int, k: int) -> (int, int) {
    (r.0 * k + c * r.1, r.1 * k)
}

/// The sum of `cost/members` over the named tasks, as an unreduced
/// fraction. Unknown names and empty member lists contribute nothing.
pub open spec fn shares_nd(s: LedgerState, names: Seq<Seq<char>>) -> (int, int)
    decreases names.len(),
{
    if names.len() == 0 {
        (0int, 1int)
    } else {
        let r = shares_nd(s, names.drop_last());
        match index_of_name(tnames(s), names.last()) {
            Some(j) => {
                let k = s.tasks[j].members.len() as int;
                if k >= 1 {
                    share_step(r, s.tasks[j].cost, k)
                } else {
                    r
                }
            },
            None => r,
        }
    }
}

/// The summed cost of the named tasks; unknown names contribute nothing.
pub open spec fn sum_costs(s: LedgerState, names: Seq<Seq<char>>) -> int
    decreases names.len(),
{
    if names.len() == 0 {
        0
    } else {
        sum_costs(s, names.drop_last()) + (match index_of_name(tnames(s), names.last()) {
            Some(j) => s.tasks[j].cost,
            None => 0int,
        })
    }
}

/// The sum of a sequence of integers.
pub open spec fn sum_ints(xs: Seq<int>) -> int
    decreases xs.len(),
{
    if xs.len() == 0 {
        0
    } else {
        sum_ints(xs.drop_last()) + xs.last()
    }
}

/// The whole minor units a participant owes besides their share fractions:
/// costs they fronted and direct payments, both subtracted from the
/// balance.
pub open spec fn flat_sum(s: LedgerState, i: int) -> int {
    sum_costs(s, s.participants[i].paid) + sum_ints(s.participants[i].payments)
}

/// The participant's balance in minor units: positive when they owe,
/// negative when they are owed.
pub open spec fn balance_minor(s: LedgerState, i: int) -> int {
    let nd = shares_nd(s, s.participants[i].tasks);
    round_nearest(nd.0, nd.1) - flat_sum(s, i)
}

pub open spec fn in_u128(x: int) -> bool {
    0 <= x <= u128::MAX
}

pub open spec fn in_i128(x: int) -> bool {
    i128::MIN <= x <= i128::MAX
}

/// Whether the share-fraction fold stays within 128-bit words at every
/// step, as the executable calculator computes it.
pub open spec fn shares_ok(s: LedgerState, names: Seq<Seq<char>>) -> bool
    decreases names.len(),
{
    if names.len() == 0 {
        true
    } else {
        let r = shares_nd(s, names.drop_last());
        shares_ok(s, names.drop_last()) && match index_of_name(tnames(s), names.last()) {
            Some(j) => {
                let c = s.tasks[j].cost;
                let k = s.tasks[j].members.len() as int;
                if k >= 1 {
                    in_u128(r.0 * k) && in_u128(c * r.1) && in_u128(r.0 * k + c * r.1)
                        && in_u128(r.1 * k)
                } else {
                    true
                }
            },
            None => true,
        }
    }
}

/// Whether the paid-cost sum stays within a signed 128-bit word.
pub open spec fn sum_costs_ok(s: LedgerState, names: Seq<Seq<char>>) -> bool
    decreases names.len(),
{
    if names.len() == 0 {
        true
    } else {
        sum_costs_ok(s, names.drop_last()) && in_i128(sum_costs(s, names))
    }
}

/// Whether the payment sum stays within a signed 128-bit word.
pub open spec fn sum_ints_ok(xs: Seq<int>) -> bool
    decreases xs.len(),
{
    if xs.len() == 0 {
        true
    } else {
        sum_ints_ok(xs.drop_last()) && in_i128(sum_ints(xs))
    }
}

/// What the executable calculator returns for participant `i`: the exact
/// rounded balance, or `None` exactly when a 128-bit step overflows or the
/// result leaves the 64-bit range.
pub open spec fn balance_result(s: LedgerState, i: int) -> Option<int> {
    let p = s.participants[i];
    let nd = shares_nd(s, p.tasks);
    if shares_ok(s, p.tasks) && sum_costs_ok(s, p.paid) && sum_ints_ok(p.payments) && in_i128(
        flat_sum(s, i),
    ) && in_u128(2 * nd.0) && in_u128(2 * nd.0 + nd.1) && in_u128(2 * nd.1) && i64::MIN
        <= balance_minor(s, i) <= i64::MAX {
        Some(balance_minor(s, i))
    } else {
        None
    }
}

/// A prefix of a fold that stays in range stays in range itself.
pub proof fn lemma_shares_ok_prefix(s: LedgerState, names: Seq<Seq<char>>, m: int)
    requires
        0 <= m <= names.len(),
        shares_ok(s, names),
    ensures
        shares_ok(s, names.subrange(0, m)),
    decreases names.len(),
{
    if m == names.len() {
        assert(names.subrange(0, m) =~= names);
    } else {
        assert(names.subrange(0, names.len() - 1) =~= names.drop_last());
        lemma_shares_ok_prefix(s, names.drop_last(), m);
        assert(names.drop_last().subrange(0, m) =~= names.subrange(0, m));
    }
}

pub proof fn lemma_sum_costs_ok_prefix(s: LedgerState, names: Seq<Seq<char>>, m: int)
    requires
        0 <= m <= names.len(),
        sum_costs_ok(s, names),
    ensures
        sum_costs_ok(s, names.subrange(0, m)),
    decreases names.len(),
{
    if m == names.len() {
        assert(names.subrange(0, m) =~= names);
    } else {
        assert(names.subrange(0, names.len() - 1) =~= names.drop_last());
        lemma_sum_costs_ok_prefix(s, names.drop_last(), m);
        assert(names.drop_last().subrange(0, m) =~= names.subrange(0, m));
    }
}

pub proof fn lemma_sum_ints_ok_prefix(xs: Seq<int>, m: int)
    requires
        0 <= m <= xs.len(),
        sum_ints_ok(xs),
    ensures
        sum_ints_ok(xs.subrange(0, m)),
    decreases xs.len(),
{
    if m == xs.len() {
        assert(xs.subrange(0, m) =~= xs);
    } else {
        assert(xs.subrange(0, xs.len() - 1) =~= xs.drop_last());
        lemma_sum_ints_ok_prefix(xs.drop_last(), m);
        assert(xs.drop_last().subrange(0, m) =~= xs.subrange(0, m));
    }
}

/// One participant's name and rounded balance, as the balance query
/// reports them.
pub struct BalanceLine {
    pub name: String,
    /// Minor units; `None` when the value cannot be computed in 128-bit
    /// arithmetic or reported in an `i64`.
    pub balance: Option<i64>,
}

impl Payment {
    /// The rounded balance of the participant at position `i`. Returns
    /// exactly what [`balance_result`] describes: the ideal balance, or
    /// `None` on arithmetic overflow.
    #[verifier::loop_isolation(false)]
    #[verifier::rlimit(100)]
    pub fn balance_index(&self, i: usize) -> (r: Option<i64>)
        requires
            wf(self@),
            i < self@.participants.len(),
        ensures
            match r {
                Some(v) => balance_result(self@, i as int) == Some(v as int),
                None => balance_result(self@, i as int) is None,
            },
    {
        let ghost s = self@;
        let ghost tl = s.participants[i as int].tasks;
        let ghost pl = s.participants[i as int].paid;
        let ghost ml = s.participants[i as int].payments;
        let mut num: u128 = 0;
        let mut den: u128 = 1;
        let nt = self.participants[i].tasks.len();
        proof {
            assert(str_views(self.participants@[i as int].tasks@) == tl);
            assert(tl.subrange(0, 0) =~= Seq::<Seq<char>>::empty());
        }
        let mut k: usize = 0;
        while k < nt
            invariant
                k <= nt,
                num == shares_nd(s, tl.subrange(0, k as int)).0,
                den == shares_nd(s, tl.subrange(0, k as int)).1,
                shares_ok(s, tl.subrange(0, k as int)),
                den >= 1,
            decreases nt - k,
        {
            let ghost pre = tl.subrange(0, k as int);
            proof {
                assert(tl.subrange(0, k + 1).drop_last() =~= pre);
                assert(tl.subrange(0, k + 1).last() == tl[k as int]);
                assert(self.participants@[i as int].tasks@[k as int]@ == tl[k as int]);
            }
            match self.find_task(self.participants[i].tasks[k].as_str()) {
                Some(j) => {
                    proof {
                        lemma_index_of_name(tnames(s), tl[k as int]);
                        assert(task_wf(s, j as int));
                        assert(s.tasks[j as int].members.contains(s.tasks[j as int].owner));
                        assert(s.tasks[j as int].members.len() >= 1);
                        assert(str_views(self.tasks@[j as int].participants@) == s.tasks[
                            j as int
                        ].members);
                    }
                    let cnt = self.tasks[j].participants.len();
                    let c = self.tasks[j].cost;
                    proof {
                        assert(c as int == s.tasks[j as int].cost);
                        assert(c >= 0);
                    }
                    let t1 = num.checked_mul(cnt as u128);
                    let t2 = (c as u128).checked_mul(den);
                    let (a, b) = match (t1, t2) {
                        (Some(a), Some(b)) => (a, b),
                        _ => {
                            proof {
                                assert(!shares_ok(s, tl.subrange(0, k + 1)));
                                if shares_ok(s, tl) {
                                    lemma_shares_ok_prefix(s, tl, k + 1);
                                }
                            }
                            return None;
                        },
                    };
                    let t3 = a.checked_add(b);
                    let t4 = den.checked_mul(cnt as u128);
                    match (t3, t4) {
                        (Some(nn), Some(nd)) => {
                            proof {
                                assert(nd as int == shares_nd(s, tl.subrange(0, k + 1)).1);
                                assert(nd >= 1) by (nonlinear_arith)
                                    requires
                                        nd as int == den as int * cnt as int,
                                        den >= 1,
                                        cnt >= 1,
                                ;
                            }
                            num = nn;
                            den = nd;
                        },
                        _ => {
                            proof {
                                assert(!shares_ok(s, tl.subrange(0, k + 1)));
                                if shares_ok(s, tl) {
                                    lemma_shares_ok_prefix(s, tl, k + 1);
                                }
                            }
                            return None;
                        },
                    }
                },
                None => {
                    proof {
                        assert(shares_nd(s, tl.subrange(0, k + 1)) == shares_nd(s, pre));
                        assert(shares_ok(s, tl.subrange(0, k + 1)));
                    }
                },
            }
            k = k + 1;
        }
        proof {
            assert(tl.subrange(0, nt as int) =~= tl);
        }
        // Whole minor units: costs fronted, then direct payments.
        let mut sc: i128 = 0;
        let npd = self.participants[i].paid_tasks.len();
        proof {
            assert(str_views(self.participants@[i as int].paid_tasks@) == pl);
            assert(pl.subrange(0, 0) =~= Seq::<Seq<char>>::empty());
        }
        let mut k: usize = 0;
        while k < npd
            invariant
                k <= npd,
                sc == sum_costs(s, pl.subrange(0, k as int)),
                sum_costs_ok(s, pl.subrange(0, k as int)),
            decreases npd - k,
        {
            let ghost pre = pl.subrange(0, k as int);
            proof {
                assert(pl.subrange(0, k + 1).drop_last() =~= pre);
                assert(pl.subrange(0, k + 1).last() == pl[k as int]);
                assert(self.participants@[i as int].paid_tasks@[k as int]@ == pl[k as int]);
            }
            match self.find_task(self.participants[i].paid_tasks[k].as_str()) {
                Some(j) => {
                    proof {
                        lemma_index_of_name(tnames(s), pl[k as int]);
                    }
                    let c = self.tasks[j].cost;
                    match sc.checked_add(c as i128) {
                        Some(v) => {
                            sc = v;
                        },
                        None => {
                            proof {
                                assert(!sum_costs_ok(s, pl.subrange(0, k + 1)));
                                if sum_costs_ok(s, pl) {
                                    lemma_sum_costs_ok_prefix(s, pl, k + 1);
                                }
                            }
                            return None;
                        },
                    }
                },
                None => {},
            }
            k = k + 1;
        }
        proof {
            assert(pl.subrange(0, npd as int) =~= pl);
        }
        let mut sp: i128 = 0;
        let nm = self.participants[i].payments_made.len();
        proof {
            assert(ml.subrange(0, 0) =~= Seq::<int>::empty());
        }
        let mut k: usize = 0;
        while k < nm
            invariant
                k <= nm,
                sp == sum_ints(ml.subrange(0, k as int)),
                sum_ints_ok(ml.subrange(0, k as int)),
            decreases nm - k,
        {
            let ghost pre = ml.subrange(0, k as int);
            proof {
                assert(ml.subrange(0, k + 1).drop_last() =~= pre);
                assert(ml.subrange(0, k + 1).last() == ml[k as int]);
                assert(self.participants@[i as int].payments_made@[k as int] as int == ml[
                    k as int
                ]);
            }
            let x = self.participants[i].payments_made[k];
            match sp.checked_add(x as i128) {
                Some(v) => {
                    sp = v;
                },
                None => {
                    proof {
                        assert(!sum_ints_ok(ml.subrange(0, k + 1)));
                        if sum_ints_ok(ml) {
                            lemma_sum_ints_ok_prefix(ml, k + 1);
                        }
                    }
                    return None;
                },
            }
            k = k + 1;
        }
        proof {
            assert(ml.subrange(0, nm as int) =~= ml);
        }
        let Some(flat) = sc.checked_add(sp) else {
            return None;
        };
        let Some(n2) = num.checked_mul(2) else {
            return None;
        };
        let Some(t) = n2.checked_add(den) else {
            return None;
        };
        let Some(d2) = den.checked_mul(2) else {
            return None;
        };
        let q0 = t / d2;
        proof {
            assert(q0 <= i128::MAX as u128) by (nonlinear_arith)
                requires
                    q0 as int == t as int / (d2 as int),
                    d2 as int >= 2,
                    t as int >= 0,
                    t as int <= u128::MAX as int,
            ;
            assert(q0 as int == round_nearest(
                shares_nd(s, tl).0,
                shares_nd(s, tl).1,
            ));
        }
        let q = q0 as i128;
        let Some(res) = q.checked_sub(flat) else {
            return None;
        };
        proof {
            assert(res as int == balance_minor(s, i as int));
        }
        if res >= i64::MIN as i128 && res <= i64::MAX as i128 {
            Some(res as i64)
        } else {
            None
        }
    }

    /// The name and balance of every participant, in store order.
    pub fn calculate(&self) -> (r: Vec<BalanceLine>)
        requires
            wf(self@),
        ensures
            r@.len() == self@.participants.len(),
            forall|k: int|
                0 <= k < r@.len() ==> (#[trigger] r@[k]).name@ == self@.participants[k].name
                    && (match r@[k].balance {
                    Some(v) => balance_result(self@, k) == Some(v as int),
                    None => balance_result(self@, k) is None,
                }),
    {
        let n = self.participants.len();
        let mut r: Vec<BalanceLine> = Vec::new();
        let mut i: usize = 0;
        while i < n
            invariant
                wf(self@),
                n == self@.participants.len(),
                i <= n,
                r@.len() == i,
                forall|k: int|
                    0 <= k < i ==> (#[trigger] r@[k]).name@ == self@.participants[k].name && (
                    match r@[k].balance {
                        Some(v) => balance_result(self@, k) == Some(v as int),
                        None => balance_result(self@, k) is None,
                    }),
            decreases n - i,
        {
            let b = self.balance_index(i);
            r.push(BalanceLine { name: self.participants[i].name.clone(), balance: b });
            i = i + 1;
        }
        r
    }

    /// The rounded balance of the named participant, or
    /// `UnknownParticipant` when the name denotes none.
    pub fn balance_of(&self, name: &str) -> (r: Result<Option<i64>, LedgerError>)
        requires
            wf(self@),
        ensures
            match r {
                Ok(b) => index_of_name(pnames(self@), name@) matches Some(i) && (match b {
                    Some(v) => balance_result(self@, i) == Some(v as int),
                    None => balance_result(self@, i) is None,
                }),
                Err(e) => index_of_name(pnames(self@), name@) is None && e@
                    == crate::model::ErrV::UnknownParticipant(name@),
            },
    {
        match self.find_participant(name) {
            Some(i) => {
                proof {
                    lemma_index_of_name(pnames(self@), name@);
                }
                Ok(self.balance_index(i))
            },
            None => Err(LedgerError::UnknownParticipant(name.to_owned())),
        }
    }
}

} // verus!
