//! The online phase: transfers, the single active proposal, pledge-weighted
//! voting, threshold-triggered execution and reward settlement.

use vstd::prelude::*;
use vstd::pervasive::unreached;
use vstd::arithmetic::mul::lemma_mul_nonnegative;

use crate::accounting::{
    bal_of, balance_get, has_key, lemma_bal_le_sum, lemma_sum_nonneg, reduce, sum_bal,
    uniq_keys, AccountId,
};
use crate::dao::{
    find_pledge, has_pledge, merge_pledge, pledged_of, pledges_uniq, refund_credit, status_rank,
    sum_pledges, win_count, lemma_pledge_bounds, lemma_sum_pledges_nonneg, Dao, Phase, Pledge,
    Proposal, TOTAL_CAP,
};
use crate::error::{DaoError, Error, OnlineError};
use crate::parse::{parse_command, proposal_head_ok, spec_command, Command, check_proposal_head};

verus! {

/// One entry never exceeds the pledge total.
pub proof fn lemma_pledge_elem_le_sum(s: Seq<Pledge>, i: int)
    requires
        0 <= i < s.len(),
    ensures
        s[i].amount <= sum_pledges(s),
    decreases s.len(),
{
    if i == s.len() - 1 {
        lemma_sum_pledges_nonneg(s.drop_last());
    } else {
        assert(forall|k: int|
            0 <= k < s.len() - 1 ==> (#[trigger] s.drop_last()[k]) == s[k]);
        lemma_pledge_elem_le_sum(s.drop_last(), i);
    }
}

/// What appending a pledge entry does to the pool's measures.
proof fn lemma_pledges_push(s: Seq<Pledge>, p: Pledge)
    requires
        pledges_uniq(s),
        !has_pledge(s, p.account, p.side),
    ensures
        sum_pledges(s.push(p)) == sum_pledges(s) + p.amount,
        pledges_uniq(s.push(p)),
        forall|c: AccountId| #[trigger] pledged_of(s.push(p), c) == pledged_of(s, c)
            + if c == p.account { p.amount as int } else { 0 },
        forall|rb: bool| #[trigger] win_count(s.push(p), rb) == win_count(s, rb)
            + if p.side == rb { 1int } else { 0 },
        forall|c: AccountId, rb: bool, rw: int| #[trigger] refund_credit(s.push(p), c, rb, rw)
            == refund_credit(s, c, rb, rw) + if c == p.account {
                p.amount + if p.side == rb { rw } else { 0 }
            } else { 0 },
{
    let t = s.push(p);
    assert(t.drop_last() =~= s);
    assert(t.last() == p);
    assert forall|i: int, j: int| 0 <= i < j < t.len() implies
        !((#[trigger] t[i]).account == (#[trigger] t[j]).account && t[i].side == t[j].side) by {
        if j == t.len() - 1 {
            assert(t[i] == s[i]);
            if t[i].account == p.account && t[i].side == p.side {
                assert(has_pledge(s, p.account, p.side));
            }
        }
    }
}

/// What growing the entry at `i` by `add_amt` does to the pool's measures.
proof fn lemma_pledges_update(s: Seq<Pledge>, i: int, add_amt: u128)
    requires
        pledges_uniq(s),
        0 <= i < s.len(),
        s[i].amount + add_amt <= u128::MAX,
    ensures
        ({
            let p2 = Pledge {
                account: s[i].account,
                amount: (s[i].amount + add_amt) as u128,
                side: s[i].side,
            };
            let t = s.update(i, p2);
            &&& sum_pledges(t) == sum_pledges(s) + add_amt
            &&& pledges_uniq(t)
            &&& forall|c: AccountId| #[trigger] pledged_of(t, c) == pledged_of(s, c)
                + if c == s[i].account { add_amt as int } else { 0 }
            &&& forall|rb: bool| #[trigger] win_count(t, rb) == win_count(s, rb)
            &&& forall|c: AccountId, rb: bool, rw: int| #[trigger] refund_credit(t, c, rb, rw)
                == refund_credit(s, c, rb, rw) + if c == s[i].account { add_amt as int } else { 0 }
        }),
    decreases s.len(),
{
    let p2 = Pledge {
        account: s[i].account,
        amount: (s[i].amount + add_amt) as u128,
        side: s[i].side,
    };
    let t = s.update(i, p2);
    assert(forall|k: int| 0 <= k < s.len() - 1 ==> (#[trigger] s.drop_last()[k]) == s[k]);
    if i == s.len() - 1 {
        assert(t.drop_last() =~= s.drop_last());
        assert(t.last() == p2);
    } else {
        let sd = s.drop_last();
        let td = sd.update(i, p2);
        assert(t.drop_last() =~= td);
        assert(pledges_uniq(sd));
        lemma_pledges_update(sd, i, add_amt);
        assert(t.last() == s.last());
        assert(sum_pledges(t) == sum_pledges(td) + t.last().amount);
        assert forall|c: AccountId| #[trigger] pledged_of(t, c) == pledged_of(s, c)
            + if c == s[i].account { add_amt as int } else { 0 } by {
            assert(pledged_of(t, c) == pledged_of(td, c) + if t.last().account == c {
                t.last().amount as int
            } else {
                0
            });
            assert(pledged_of(td, c) == pledged_of(sd, c) + if c == sd[i].account {
                add_amt as int
            } else {
                0
            });
        }
        assert forall|rb: bool| #[trigger] win_count(t, rb) == win_count(s, rb) by {
            assert(win_count(t, rb) == win_count(td, rb) + if t.last().side == rb {
                1int
            } else {
                0int
            });
            assert(win_count(td, rb) == win_count(sd, rb));
        }
        assert forall|c: AccountId, rb: bool, rw: int| #[trigger] refund_credit(t, c, rb, rw)
            == refund_credit(s, c, rb, rw) + if c == s[i].account { add_amt as int } else {
            0
        } by {
            assert(refund_credit(t, c, rb, rw) == refund_credit(td, c, rb, rw)
                + if t.last().account == c {
                t.last().amount + if t.last().side == rb {
                    rw
                } else {
                    0
                }
            } else {
                0
            });
            assert(refund_credit(td, c, rb, rw) == refund_credit(sd, c, rb, rw)
                + if c == sd[i].account { add_amt as int } else { 0 });
        }
    }
    assert forall|ii: int, jj: int| 0 <= ii < jj < t.len() implies
        !((#[trigger] t[ii]).account == (#[trigger] t[jj]).account && t[ii].side == t[jj].side)
        by {
        assert(t[ii].account == s[ii].account && t[ii].side == s[ii].side);
        assert(t[jj].account == s[jj].account && t[jj].side == s[jj].side);
    }
}

/// Where `find_pledge` points, and what its failure means.
proof fn lemma_find_pledge(s: Seq<Pledge>, a: AccountId, side: bool)
    ensures
        find_pledge(s, a, side) < 0 ==> !has_pledge(s, a, side),
        find_pledge(s, a, side) >= 0 ==> {
            let i = find_pledge(s, a, side);
            &&& 0 <= i < s.len()
            &&& s[i].account == a
            &&& s[i].side == side
        },
    decreases s.len(),
{
    if s.len() > 0 {
        if s[0].account == a && s[0].side == side {
        } else {
            lemma_find_pledge(s.drop_first(), a, side);
            assert(forall|k: int|
                0 <= k < s.len() - 1 ==> (#[trigger] s.drop_first()[k]) == s[k + 1]);
            if find_pledge(s, a, side) < 0 {
                if has_pledge(s, a, side) {
                    let w = choose|i: int|
                        0 <= i < s.len() && (#[trigger] s[i]).account == a && s[i].side == side;
                    assert(w != 0);
                    assert(s.drop_first()[w - 1] == s[w]);
                    assert(has_pledge(s.drop_first(), a, side));
                }
            }
        }
    }
}

/// `find_pledge` returns the first match.
proof fn lemma_find_pledge_first(s: Seq<Pledge>, a: AccountId, side: bool, i: int)
    requires
        0 <= i < s.len(),
        s[i].account == a,
        s[i].side == side,
        forall|k: int| 0 <= k < i ==> !((#[trigger] s[k]).account == a && s[k].side == side),
    ensures
        find_pledge(s, a, side) == i,
    decreases s.len(),
{
    if i == 0 {
    } else {
        assert(forall|k: int|
            0 <= k < s.len() - 1 ==> (#[trigger] s.drop_first()[k]) == s[k + 1]);
        lemma_find_pledge_first(s.drop_first(), a, side, i - 1);
    }
}

/// Everything `merge_pledge` does to the pool's measures.
pub proof fn lemma_merge_pledge(s: Seq<Pledge>, a: AccountId, amt: u128, side: bool)
    requires
        pledges_uniq(s),
        sum_pledges(s) + amt <= u128::MAX,
    ensures
        ({
            let t = merge_pledge(s, a, amt, side);
            &&& sum_pledges(t) == sum_pledges(s) + amt
            &&& pledges_uniq(t)
            &&& forall|c: AccountId| #[trigger] pledged_of(t, c) == pledged_of(s, c)
                + if c == a { amt as int } else { 0 }
            &&& forall|rb: bool| #[trigger] win_count(t, rb) == win_count(s, rb)
                + if !has_pledge(s, a, side) && side == rb { 1int } else { 0 }
            &&& forall|c: AccountId, rb: bool, rw: int| #[trigger] refund_credit(t, c, rb, rw)
                == refund_credit(s, c, rb, rw) + if c == a {
                    amt + if !has_pledge(s, a, side) && side == rb { rw } else { 0 }
                } else { 0 }
        }),
{
    lemma_find_pledge(s, a, side);
    let i = find_pledge(s, a, side);
    if i < 0 {
        lemma_pledges_push(s, Pledge { account: a, amount: amt, side });
    } else {
        lemma_pledge_elem_le_sum(s, i);
        lemma_sum_pledges_nonneg(s);
        lemma_pledges_update(s, i, amt);
        assert(has_pledge(s, a, side));
    }
}

/// Finds the entry for `(a, side)`, if any.
fn find_pledge_index(pl: &Vec<Pledge>, a: AccountId, side: bool) -> (r: Option<usize>)
    ensures
        match r {
            Some(i) => i as int == find_pledge(pl@, a, side) && i < pl@.len()
                && pl@[i as int].account == a && pl@[i as int].side == side,
            None => find_pledge(pl@, a, side) < 0,
        },
{
    let n = pl.len();
    for i in 0..n
        invariant
            n == pl@.len(),
            forall|k: int|
                0 <= k < i ==> !((#[trigger] pl@[k]).account == a && pl@[k].side == side),
    {
        let e = pl[i];
        if e.account == a && e.side == side {
            proof {
                lemma_find_pledge_first(pl@, a, side, i as int);
            }
            return Some(i);
        }
    }
    proof {
        lemma_find_pledge(pl@, a, side);
        if find_pledge(pl@, a, side) >= 0 {
            let k = find_pledge(pl@, a, side);
            assert(!(pl@[k].account == a && pl@[k].side == side));
        }
    }
    None
}

/// Builds the pledge pool with `(a, amt, side)` merged in.
fn merged_pledges(pl: &Vec<Pledge>, a: AccountId, amt: u128, side: bool) -> (r: Vec<Pledge>)
    requires
        pledges_uniq(pl@),
        sum_pledges(pl@) + amt <= u128::MAX,
    ensures
        r@ == merge_pledge(pl@, a, amt, side),
{
    let n = pl.len();
    let mut out: Vec<Pledge> = Vec::new();
    for i in 0..n
        invariant
            n == pl@.len(),
            out@ =~= pl@.take(i as int),
    {
        out.push(pl[i]);
        proof {
            assert(out@ =~= pl@.take(i + 1));
        }
    }
    proof {
        assert(out@ =~= pl@);
    }
    match find_pledge_index(pl, a, side) {
        Some(i) => {
            proof {
                lemma_pledge_elem_le_sum(pl@, i as int);
                lemma_sum_pledges_nonneg(pl@);
            }
            let cur = out[i].amount;
            out[i] = Pledge { account: a, amount: cur + amt, side };
            proof {
                assert(out@ =~= pl@.update(
                    find_pledge(pl@, a, side),
                    Pledge {
                        account: pl@[find_pledge(pl@, a, side)].account,
                        amount: (pl@[find_pledge(pl@, a, side)].amount + amt) as u128,
                        side: pl@[find_pledge(pl@, a, side)].side,
                    },
                ));
            }
        },
        None => {
            out.push(Pledge { account: a, amount: amt, side });
        },
    }
    out
}

/// Counts the entries on side `result`.
fn count_winners(pl: &Vec<Pledge>, result: bool) -> (c: usize)
    ensures
        c == win_count(pl@, result),
{
    let n = pl.len();
    let mut c: usize = 0;
    proof {
        assert(pl@.take(0) =~= Seq::<Pledge>::empty());
    }
    for i in 0..n
        invariant
            n == pl@.len(),
            c <= i,
            c == win_count(pl@.take(i as int), result),
    {
        proof {
            assert(pl@.take(i + 1).drop_last() =~= pl@.take(i as int));
            assert(pl@.take(i + 1).last() == pl@[i as int]);
        }
        if pl[i].side == result {
            c = c + 1;
        }
    }
    proof {
        assert(pl@.take(n as int) =~= pl@);
    }
    c
}

/// Mints `amount` to `account`: credits the balance and takes the same
/// amount out of the supply pool, failing closed when the pool is short.
fn mint_to(bal: &mut Vec<(AccountId, u128)>, supply: &mut u128, account: AccountId, amount: u128)
    -> (r: Result<(), OnlineError>)
    requires
        uniq_keys(old(bal)@),
        bal_of(old(bal)@, account) + amount <= u128::MAX,
    ensures
        uniq_keys(final(bal)@),
        r is Ok <==> amount <= *old(supply),
        r is Ok ==> {
            &&& *final(supply) == *old(supply) - amount
            &&& sum_bal(final(bal)@) == sum_bal(old(bal)@) + amount
            &&& forall|c: AccountId| #[trigger] bal_of(final(bal)@, c)
                == bal_of(old(bal)@, c) + if c == account { amount as int } else { 0 }
            &&& forall|c: AccountId| #[trigger] has_key(final(bal)@, c)
                == (has_key(old(bal)@, c) || c == account)
        },
        r is Err ==> final(bal)@ == old(bal)@ && *final(supply) == *old(supply) && r == Err::<
            (),
            OnlineError,
        >(OnlineError::SupplyExhausted),
{
    if amount > *supply {
        return Err(OnlineError::SupplyExhausted);
    }
    crate::accounting::add(bal, account, amount);
    *supply = *supply - amount;
    Ok(())
}

/// Settlement's refund pass: every pledged amount goes back to its account,
/// in insertion order, and each entry on the winning side additionally gets
/// `reward` minted from the supply.
fn pledges_back(
    bal: &mut Vec<(AccountId, u128)>,
    supply: &mut u128,
    pledges: &Vec<Pledge>,
    result: bool,
    reward: u64,
)
    requires
        uniq_keys(old(bal)@),
        reward as int * win_count(pledges@, result) <= *old(supply),
        sum_bal(old(bal)@) + *old(supply) + sum_pledges(pledges@) <= TOTAL_CAP,
    ensures
        uniq_keys(final(bal)@),
        *final(supply) == *old(supply) - reward as int * win_count(pledges@, result),
        sum_bal(final(bal)@) == sum_bal(old(bal)@) + sum_pledges(pledges@) + reward as int
            * win_count(pledges@, result),
        forall|c: AccountId| #[trigger] bal_of(final(bal)@, c) == bal_of(old(bal)@, c)
            + refund_credit(pledges@, c, result, reward as int),
{
    let n = pledges.len();
    let ghost bal0 = old(bal)@;
    let ghost sup0 = *old(supply) as int;
    let ghost all = pledges@;
    proof {
        assert(all.take(0) =~= Seq::<Pledge>::empty());
        lemma_sum_nonneg(bal0);
        lemma_sum_pledges_nonneg(all);
        lemma_pledge_bounds(all, AccountId { id: 0 }, result, reward as int);
    }
    for i in 0..n
        invariant
            n == all.len(),
            pledges@ == all,
            uniq_keys(bal@),
            sum_bal(bal0) + sup0 + sum_pledges(all) <= TOTAL_CAP,
            reward as int * win_count(all, result) <= sup0,
            sup0 <= TOTAL_CAP,
            *supply as int == sup0 - reward as int * win_count(all.take(i as int), result),
            sum_bal(bal@) == sum_bal(bal0) + sum_pledges(all.take(i as int)) + reward as int
                * win_count(all.take(i as int), result),
            forall|c: AccountId| #[trigger] bal_of(bal@, c) == bal_of(bal0, c) + refund_credit(
                all.take(i as int),
                c,
                result,
                reward as int,
            ),
    {
        let ghost pre = all.take(i as int);
        let ghost post = all.take(i + 1);
        proof {
            assert(post.drop_last() =~= pre);
            assert(post.last() == all[i as int]);
            // prefix measures stay within the full ones
            lemma_prefix_bounds(all, i + 1, result);
            lemma_prefix_bounds(all, i as int, result);
            assert(reward as int * win_count(post, result) <= reward as int * win_count(
                all,
                result,
            )) by (nonlinear_arith)
                requires
                    win_count(post, result) <= win_count(all, result),
                    reward as int >= 0,
            ;
            assert(reward as int * win_count(pre, result) <= reward as int * win_count(
                all,
                result,
            )) by (nonlinear_arith)
                requires
                    win_count(pre, result) <= win_count(all, result),
                    reward as int >= 0,
            ;
            lemma_mul_nonnegative(reward as int, win_count(pre, result));
            lemma_mul_nonnegative(reward as int, win_count(post, result));
            lemma_pledge_bounds(pre, all[i as int].account, result, reward as int);
            lemma_pledge_bounds(post, all[i as int].account, result, reward as int);
        }
        let e = pledges[i];
        proof {
            lemma_bal_le_sum(bal@, e.account);
            lemma_pledge_elem_le_sum(all, i as int);
        }
        crate::accounting::add(bal, e.account, e.amount);
        if e.side == result {
            proof {
                lemma_bal_le_sum(bal@, e.account);
                assert(reward as int * win_count(post, result) == reward as int * win_count(
                    pre,
                    result,
                ) + reward) by {
                    assert(win_count(post, result) == win_count(pre, result) + 1);
                    assert(reward as int * (win_count(pre, result) + 1) == reward as int
                        * win_count(pre, result) + reward as int) by (nonlinear_arith);
                }
            }
            match mint_to(bal, supply, e.account, reward as u128) {
                Ok(()) => {},
                Err(_) => {
                    proof {
                        assert(false);
                    }
                },
            }
        } else {
            proof {
                assert(win_count(post, result) == win_count(pre, result));
            }
        }
    }
    proof {
        assert(all.take(n as int) =~= all);
    }
}

/// Prefix measures never exceed the whole sequence's.
proof fn lemma_prefix_bounds(s: Seq<Pledge>, i: int, result: bool)
    requires
        0 <= i <= s.len(),
    ensures
        sum_pledges(s.take(i)) <= sum_pledges(s),
        0 <= win_count(s.take(i), result) <= win_count(s, result),
        sum_pledges(s.take(i)) >= 0,
    decreases s.len() - i,
{
    if i == s.len() {
        assert(s.take(i) =~= s);
        lemma_sum_pledges_nonneg(s);
        lemma_pledge_bounds(s, AccountId { id: 0 }, result, 0);
    } else {
        lemma_prefix_bounds(s, i + 1, result);
        assert(s.take(i + 1).drop_last() =~= s.take(i));
        assert(s.take(i + 1).last() == s[i]);
        lemma_sum_pledges_nonneg(s.take(i));
        lemma_pledge_bounds(s.take(i), AccountId { id: 0 }, result, 0);
    }
}

/// The amount a command mints, 0 for the others.
pub open spec fn cmd_mint_amount(c: Command) -> int {
    match c {
        Command::Mint { account: _, amount } => amount as int,
        _ => 0,
    }
}

/// What a command's execution credits to `a`.
pub open spec fn cmd_mint_credit(c: Command, a: AccountId) -> int {
    match c {
        Command::Mint { account, amount } => if account == a {
            amount as int
        } else {
            0
        },
        _ => 0,
    }
}

/// The reward after a command's execution.
pub open spec fn cmd_reward(c: Command, prev: u64) -> u64 {
    match c {
        Command::UpdateReward { value } => value,
        _ => prev,
    }
}

impl Dao {
    /// Moves `amount` from the caller to `recipient`: an atomic debit and
    /// credit. Fails with `InsufficientBalance` when the caller has no
    /// entry or too small a balance; the balance total never changes.
    pub fn transfer(&mut self, caller: AccountId, recipient: AccountId, amount: u128) -> (r:
        Result<(), DaoError>)
        requires
            old(self).wf(),
        ensures
            final(self).wf(),
            final(self).status_spec() == old(self).status_spec(),
            r is Err ==> final(self).unchanged_from(*old(self)),
            match old(self).phase {
                Phase::Online { .. } => {
                    if has_key(old(self).balances@, caller) && amount <= bal_of(
                        old(self).balances@,
                        caller,
                    ) {
                        &&& r is Ok
                        &&& final(self).phase == old(self).phase
                        &&& final(self).name == old(self).name
                        &&& final(self).founders == old(self).founders
                        &&& sum_bal(final(self).balances@) == sum_bal(old(self).balances@)
                        &&& final(self).total_tokens() == old(self).total_tokens()
                        &&& forall|c: AccountId| #[trigger] bal_of(final(self).balances@, c)
                            == bal_of(old(self).balances@, c) - (if c == caller {
                            amount as int
                        } else {
                            0
                        }) + (if c == recipient {
                            amount as int
                        } else {
                            0
                        })
                    } else {
                        r == Err::<(), DaoError>(DaoError::Online(
                            OnlineError::InsufficientBalance,
                        ))
                    }
                },
                _ => r == Err::<(), DaoError>(DaoError::Entry(Error::UnOpenEntry)),
            },
    {
        match &self.phase {
            Phase::Online { .. } => {},
            _ => {
                return Err(DaoError::Entry(Error::UnOpenEntry));
            },
        }
        proof {
            match old(self).phase {
                Phase::Online { supply: _, reward: _, proposal } => {
                    match proposal {
                        Some(p) => lemma_sum_pledges_nonneg(p.pledges@),
                        None => {},
                    }
                },
                _ => {},
            }
            lemma_bal_le_sum(self.balances@, caller);
        }
        match reduce(&mut self.balances, caller, amount) {
            Ok(()) => {},
            Err(e) => {
                return Err(DaoError::Online(e));
            },
        }
        proof {
            lemma_bal_le_sum(self.balances@, recipient);
        }
        crate::accounting::add(&mut self.balances, recipient, amount);
        Ok(())
    }

    /// Opens a proposal: the caller needs a balance above 1, the text's
    /// first token must be `mint` or `update`, the vote limit at least 20,
    /// and the caller's own pledge at most half the limit. A positive
    /// `amount` is pledged on side `vote` right away.
    pub fn new_proposal(
        &mut self,
        caller: AccountId,
        proposal: String,
        vote_limit: u128,
        vote: bool,
        amount: u128,
    ) -> (r: Result<(), DaoError>)
        requires
            old(self).wf(),
        ensures
            final(self).wf(),
            final(self).status_spec() == old(self).status_spec(),
            r is Err ==> final(self).unchanged_from(*old(self)),
            match old(self).phase {
                Phase::Online { supply: sup0, reward: rew0, proposal: active } => {
                    if active is Some {
                        r == Err::<(), DaoError>(DaoError::Online(
                            OnlineError::HaveUnfinishedProposal,
                        ))
                    } else if !(has_key(old(self).balances@, caller) && bal_of(
                        old(self).balances@,
                        caller,
                    ) > 1) {
                        r == Err::<(), DaoError>(DaoError::Online(OnlineError::NoPermission))
                    } else if !proposal_head_ok(proposal@) {
                        r == Err::<(), DaoError>(DaoError::Online(OnlineError::InvalidProposal))
                    } else if vote_limit < 20 {
                        r == Err::<(), DaoError>(DaoError::Online(OnlineError::TooSmall))
                    } else if amount > vote_limit / 2 {
                        r == Err::<(), DaoError>(DaoError::Online(OnlineError::AmountTooBig))
                    } else if amount > bal_of(old(self).balances@, caller) {
                        r == Err::<(), DaoError>(DaoError::Online(
                            OnlineError::InsufficientBalance,
                        ))
                    } else {
                        &&& r is Ok
                        &&& final(self).founders == old(self).founders
                        &&& final(self).name == old(self).name
                        &&& sum_bal(final(self).balances@) == sum_bal(old(self).balances@)
                            - amount
                        &&& forall|c: AccountId| #[trigger] bal_of(final(self).balances@, c)
                            == bal_of(old(self).balances@, c) - (if c == caller {
                            amount as int
                        } else {
                            0
                        })
                        &&& final(self).total_tokens() == old(self).total_tokens()
                        &&& match final(self).phase {
                            Phase::Online { supply: s2, reward: r2, proposal: Some(p) } => {
                                &&& s2 == sup0
                                &&& r2 == rew0
                                &&& p.text == proposal
                                &&& p.vote_limit == vote_limit
                                &&& p.pool_up == if vote {
                                    amount
                                } else {
                                    0u128
                                }
                                &&& p.pool_down == if vote {
                                    0u128
                                } else {
                                    amount
                                }
                                &&& p.pool_up + p.pool_down == amount
                                &&& p.pledges@ == if amount > 0 {
                                    seq![Pledge { account: caller, amount, side: vote }]
                                } else {
                                    Seq::<Pledge>::empty()
                                }
                            },
                            _ => false,
                        }
                    }
                },
                _ => r == Err::<(), DaoError>(DaoError::Entry(Error::UnOpenEntry)),
            },
    {
        let (sup0, rew0) = match &self.phase {
            Phase::Online { supply, reward, proposal: active } => {
                if active.is_some() {
                    return Err(DaoError::Online(OnlineError::HaveUnfinishedProposal));
                }
                (*supply, *reward)
            },
            _ => {
                return Err(DaoError::Entry(Error::UnOpenEntry));
            },
        };
        let caller_bal = match balance_get(&self.balances, caller) {
            Some(v) => v,
            None => {
                return Err(DaoError::Online(OnlineError::NoPermission));
            },
        };
        if caller_bal <= 1 {
            return Err(DaoError::Online(OnlineError::NoPermission));
        }
        if !check_proposal_head(proposal.as_str()) {
            return Err(DaoError::Online(OnlineError::InvalidProposal));
        }
        if vote_limit < 20 {
            return Err(DaoError::Online(OnlineError::TooSmall));
        }
        if amount > vote_limit / 2 {
            return Err(DaoError::Online(OnlineError::AmountTooBig));
        }
        if amount > caller_bal {
            return Err(DaoError::Online(OnlineError::InsufficientBalance));
        }
        let mut pl: Vec<Pledge> = Vec::new();
        let mut up: u128 = 0;
        let mut down: u128 = 0;
        if amount > 0 {
            match reduce(&mut self.balances, caller, amount) {
                Ok(()) => {},
                Err(_) => {
                    proof {
                        assert(false);
                    }
                },
            }
            pl.push(Pledge { account: caller, amount, side: vote });
            if vote {
                up = amount;
            } else {
                down = amount;
            }
            proof {
                assert(pl@.drop_last() =~= Seq::<Pledge>::empty());
                assert(sum_pledges(Seq::<Pledge>::empty()) == 0);
                assert(sum_pledges(pl@) == amount);
            }
        }
        proof {
            assert(sum_pledges(Seq::<Pledge>::empty()) == 0);
        }
        self.phase = Phase::Online {
            supply: sup0,
            reward: rew0,
            proposal: Some(
                Proposal { text: proposal, vote_limit, pool_up: up, pool_down: down, pledges: pl },
            ),
        };
        Ok(())
    }

    /// Pledges `amount` on side `vote`. When the pool then reaches the
    /// vote limit, the proposal settles: the winning side is `pool_up >
    /// pool_down` (ties reject), a winning proposal's instruction executes,
    /// every pledge is refunded in insertion order, each winning entry gets
    /// the (possibly just updated) reward minted, and the proposal slot is
    /// cleared. A fatal instruction parse, or a mint beyond the remaining
    /// supply, aborts the whole call with no state change.
    ///
    /// Calling this with no active proposal is a fatal invariant violation
    /// and is excluded by precondition (the zero-amount rejection comes
    /// first and needs no proposal).
    pub fn vote_by_pledges(&mut self, caller: AccountId, vote: bool, amount: u128) -> (r: Result<
        (),
        DaoError,
    >)
        requires
            old(self).wf(),
            match old(self).phase {
                Phase::Online { supply: _, reward: _, proposal } => amount >= 1 ==> proposal
                    is Some,
                _ => true,
            },
        ensures
            final(self).wf(),
            final(self).status_spec() == old(self).status_spec(),
            r is Err ==> final(self).unchanged_from(*old(self)),
            match old(self).phase {
                Phase::Online { supply: sup0, reward: rew0, proposal } => {
                    if amount < 1 {
                        r == Err::<(), DaoError>(DaoError::Online(OnlineError::NoZero))
                    } else {
                        match proposal {
                            Some(p) => {
                                let new_pl = merge_pledge(p.pledges@, caller, amount, vote);
                                let new_up: int = if vote {
                                    p.pool_up + amount
                                } else {
                                    p.pool_up as int
                                };
                                let new_down: int = if vote {
                                    p.pool_down as int
                                } else {
                                    p.pool_down + amount
                                };
                                if !(has_key(old(self).balances@, caller) && amount <= bal_of(
                                    old(self).balances@,
                                    caller,
                                )) {
                                    r == Err::<(), DaoError>(DaoError::Online(
                                        OnlineError::InsufficientBalance,
                                    ))
                                } else if new_up + new_down < p.vote_limit {
                                    // below the limit: the pledge is recorded, the pool persists
                                    &&& r is Ok
                                    &&& final(self).founders == old(self).founders
                                    &&& final(self).name == old(self).name
                                    &&& sum_bal(final(self).balances@) == sum_bal(
                                        old(self).balances@,
                                    ) - amount
                                    &&& forall|c: AccountId| #[trigger] bal_of(
                                        final(self).balances@,
                                        c,
                                    ) == bal_of(old(self).balances@, c) - (if c == caller {
                                        amount as int
                                    } else {
                                        0
                                    })
                                    &&& final(self).total_tokens() == old(self).total_tokens()
                                    &&& match final(self).phase {
                                        Phase::Online {
                                            supply: s2,
                                            reward: r2,
                                            proposal: Some(p2),
                                        } => {
                                            &&& s2 == sup0
                                            &&& r2 == rew0
                                            &&& p2.text@ == p.text@
                                            &&& p2.vote_limit == p.vote_limit
                                            &&& p2.pool_up == new_up
                                            &&& p2.pool_down == new_down
                                            &&& p2.pledges@ == new_pl
                                        },
                                        _ => false,
                                    }
                                } else {
                                    // the pool reached the limit: settlement
                                    let result = new_up > new_down;
                                    let cmd = if result {
                                        spec_command(p.text@)
                                    } else {
                                        Some(Command::Noop)
                                    };
                                    match cmd {
                                        None => r == Err::<(), DaoError>(DaoError::Online(
                                            OnlineError::InvalidProposal,
                                        )),
                                        Some(c) => {
                                            let new_reward = cmd_reward(c, rew0);
                                            let need = cmd_mint_amount(c) + new_reward as int
                                                * win_count(new_pl, result);
                                            if need > sup0 {
                                                r == Err::<(), DaoError>(DaoError::Online(
                                                    OnlineError::SupplyExhausted,
                                                ))
                                            } else {
                                                &&& r is Ok
                                                &&& final(self).founders == old(self).founders
                                                &&& final(self).name == old(self).name
                                                &&& final(self).total_tokens() == old(
                                                    self,
                                                ).total_tokens()
                                                &&& match final(self).phase {
                                                    Phase::Online {
                                                        supply: s2,
                                                        reward: r2,
                                                        proposal: None,
                                                    } => {
                                                        &&& s2 as int == sup0 - need
                                                        &&& r2 == new_reward
                                                    },
                                                    _ => false,
                                                }
                                                &&& sum_bal(final(self).balances@) == sum_bal(
                                                    old(self).balances@,
                                                ) - amount + sum_pledges(new_pl) + need
                                                &&& forall|c2: AccountId| #[trigger] bal_of(
                                                    final(self).balances@,
                                                    c2,
                                                ) == bal_of(old(self).balances@, c2) - (if c2
                                                    == caller {
                                                    amount as int
                                                } else {
                                                    0
                                                }) + cmd_mint_credit(c, c2) + refund_credit(
                                                    new_pl,
                                                    c2,
                                                    result,
                                                    new_reward as int,
                                                )
                                            }
                                        },
                                    }
                                }
                            },
                            None => true,
                        }
                    }
                },
                _ => r == Err::<(), DaoError>(DaoError::Entry(Error::UnOpenEntry)),
            },
    {
        match &self.phase {
            Phase::Online { .. } => {},
            _ => {
                return Err(DaoError::Entry(Error::UnOpenEntry));
            },
        }
        if amount < 1 {
            return Err(DaoError::Online(OnlineError::NoZero));
        }
        let caller_bal = match balance_get(&self.balances, caller) {
            Some(v) => v,
            None => {
                return Err(DaoError::Online(OnlineError::InsufficientBalance));
            },
        };
        if caller_bal < amount {
            return Err(DaoError::Online(OnlineError::InsufficientBalance));
        }
        let ghost pre = *self;
        let (sup0, rew0, limit, new_up, new_down, new_pl, settle_cmd, text_keep) = match &self
            .phase {
            Phase::Online { supply, reward, proposal: Some(p) } => {
                proof {
                    lemma_sum_pledges_nonneg(p.pledges@);
                    lemma_bal_le_sum(self.balances@, caller);
                    lemma_sum_nonneg(self.balances@);
                    assert(sum_pledges(p.pledges@) + amount <= 2 * TOTAL_CAP);
                }
                let new_pl = merged_pledges(&p.pledges, caller, amount, vote);
                let (new_up, new_down) = if vote {
                    (p.pool_up + amount, p.pool_down)
                } else {
                    (p.pool_up, p.pool_down + amount)
                };
                if new_up + new_down < p.vote_limit {
                    let t2 = p.text.clone();
                    (*supply, *reward, p.vote_limit, new_up, new_down, new_pl, None, Some(t2))
                } else {
                    let result = new_up > new_down;
                    let cmd = if result {
                        match parse_command(p.text.as_str()) {
                            Some(c) => c,
                            None => {
                                return Err(DaoError::Online(OnlineError::InvalidProposal));
                            },
                        }
                    } else {
                        Command::Noop
                    };
                    (*supply, *reward, p.vote_limit, new_up, new_down, new_pl, Some(cmd), None)
                }
            },
            Phase::Online { supply: _, reward: _, proposal: None } => unreached(),
            _ => unreached(),
        };
        proof {
            match pre.phase {
                Phase::Online { supply: _, reward: _, proposal } => {
                    match proposal {
                        Some(p) => {
                            lemma_merge_pledge(p.pledges@, caller, amount, vote);
                        },
                        None => {},
                    }
                },
                _ => {},
            }
        }
        match settle_cmd {
            None => {
                let text = match text_keep {
                    Some(t) => t,
                    None => unreached(),
                };
                match reduce(&mut self.balances, caller, amount) {
                    Ok(()) => {},
                    Err(_) => {
                        proof {
                            assert(false);
                        }
                    },
                }
                self.phase = Phase::Online {
                    supply: sup0,
                    reward: rew0,
                    proposal: Some(
                        Proposal {
                            text,
                            vote_limit: limit,
                            pool_up: new_up,
                            pool_down: new_down,
                            pledges: new_pl,
                        },
                    ),
                };
                Ok(())
            },
            Some(cmd) => {
                let result = new_up > new_down;
                let (mint_amt, mint_tgt) = match cmd {
                    Command::Mint { account, amount: ma } => (ma, Some(account)),
                    _ => (0u128, None),
                };
                let new_reward = match cmd {
                    Command::UpdateReward { value } => value,
                    _ => rew0,
                };
                if mint_amt > sup0 {
                    proof {
                        lemma_pledge_bounds(new_pl@, caller, result, 0);
                        lemma_mul_nonnegative(
                            new_reward as int,
                            win_count(new_pl@, result),
                        );
                    }
                    return Err(DaoError::Online(OnlineError::SupplyExhausted));
                }
                let rem = sup0 - mint_amt;
                let winners = count_winners(&new_pl, result);
                proof {
                    assert((new_reward as u128) as int * (winners as u128) as int
                        <= (u64::MAX as int) * (usize::MAX as int)) by (nonlinear_arith)
                        requires
                            new_reward as int <= u64::MAX as int,
                            winners as int <= usize::MAX as int,
                            new_reward as int >= 0,
                            winners as int >= 0,
                    ;
                }
                let rw_total = (new_reward as u128) * (winners as u128);
                if rw_total > rem {
                    return Err(DaoError::Online(OnlineError::SupplyExhausted));
                }
                match reduce(&mut self.balances, caller, amount) {
                    Ok(()) => {},
                    Err(_) => {
                        proof {
                            assert(false);
                        }
                    },
                }
                let mut sup_l = sup0;
                if let Some(tgt) = mint_tgt {
                    proof {
                        lemma_bal_le_sum(self.balances@, tgt);
                        lemma_sum_nonneg(self.balances@);
                    }
                    match mint_to(&mut self.balances, &mut sup_l, tgt, mint_amt) {
                        Ok(()) => {},
                        Err(_) => {
                            proof {
                                assert(false);
                            }
                        },
                    }
                }
                pledges_back(&mut self.balances, &mut sup_l, &new_pl, result, new_reward);
                self.phase = Phase::Online {
                    supply: sup_l,
                    reward: new_reward,
                    proposal: None,
                };
                Ok(())
            },
        }
    }
}

} // verus!
