//! Engine-wide laws, proved from the operations' contracts: idempotence of
//! a repeated plan vote, zero transfers as no-ops, and settlement covering
//! every pledge.

use vstd::prelude::*;

use crate::accounting::{bal_of, AccountId};
use crate::dao::{pledged_of, refund_credit, Dao, Phase, Pledge};
use crate::online::{cmd_mint_credit, cmd_reward};
use crate::parse::Command;
use crate::plan::{count_val, founder_index, vote_recorded};

verus! {

/// A founder casting the same plan vote twice leaves the ballot unchanged:
/// the second cast of `(caller, judge)` writes the same value into the same
/// slot, so the ballot and the plan text after the repeat are those before
/// it (and the repeat again decides nothing).
pub proof fn lemma_plan_vote_idempotent(
    pre: Dao,
    mid: Dao,
    post: Dao,
    caller: AccountId,
    judge: bool,
)
    requires
        pre.wf(),
        vote_recorded(pre, mid, caller, judge),
        vote_recorded(mid, post, caller, judge),
    ensures
        match (mid.phase, post.phase) {
            (
                Phase::Plan { plan: p1, ballot: Some(b1) },
                Phase::Plan { plan: p2, ballot: Some(b2) },
            ) => b2@ == b1@ && p2@ == p1@,
            _ => false,
        },
{
    let v: i32 = if judge {
        1
    } else {
        -1i32
    };
    match (pre.phase, mid.phase, post.phase) {
        (
            Phase::Plan { plan: p0, ballot: Some(b0) },
            Phase::Plan { plan: p1, ballot: Some(b1) },
            Phase::Plan { plan: p2, ballot: Some(b2) },
        ) => {
            let i = founder_index(pre.founders@, caller);
            assert(pre.founders@.contains(caller));
            let w = choose|k: int|
                0 <= k < pre.founders@.len() && pre.founders@[k] == caller;
            assert(pre.founders@[w] == caller);
            assert(0 <= i < pre.founders@.len());
            assert(founder_index(mid.founders@, caller) == i);
            assert(b1@ == b0@.update(i, v));
            assert(b2@ == b1@.update(i, v));
            assert(b1@[i] == v);
            assert(b2@ =~= b1@);
        },
        _ => {
            assert(false);
        },
    }
}

/// A repeated identical vote is again merely recorded: after a recorded
/// cast of `(caller, judge)`, casting the same vote cannot reach the
/// deciding count, because the ballot does not change.
pub proof fn lemma_same_vote_not_deciding(pre: Dao, mid: Dao, caller: AccountId, judge: bool)
    requires
        pre.wf(),
        vote_recorded(pre, mid, caller, judge),
    ensures
        match mid.phase {
            Phase::Plan { plan: _, ballot: Some(b1) } => {
                let v: i32 = if judge {
                    1
                } else {
                    -1i32
                };
                count_val(b1@.update(founder_index(mid.founders@, caller), v), v) != 2
            },
            _ => false,
        },
{
    let v: i32 = if judge {
        1
    } else {
        -1i32
    };
    match (pre.phase, mid.phase) {
        (Phase::Plan { plan: p0, ballot: Some(b0) }, Phase::Plan { plan: p1, ballot: Some(b1) }) => {
            let i = founder_index(pre.founders@, caller);
            let w = choose|k: int|
                0 <= k < pre.founders@.len() && pre.founders@[k] == caller;
            assert(pre.founders@[w] == caller);
            assert(0 <= i < pre.founders@.len());
            assert(founder_index(mid.founders@, caller) == i);
            assert(b1@[i] == v);
            assert(b1@.update(i, v) =~= b1@);
        },
        _ => {
            assert(false);
        },
    }
}

/// A zero transfer is a no-op on balances: with `amount = 0`, the balance
/// relation `transfer` ensures collapses to equality at every account.
/// (`transfer(a, b, 0)` is accepted whenever `a` has a ledger entry, by
/// `transfer`'s contract.)
pub proof fn lemma_transfer_zero_noop(
    pre: Dao,
    post: Dao,
    a: AccountId,
    b: AccountId,
    amount: u128,
)
    requires
        amount == 0,
        forall|c: AccountId| #[trigger] bal_of(post.balances@, c) == bal_of(pre.balances@, c) - (
        if c == a {
            amount as int
        } else {
            0
        }) + (if c == b {
            amount as int
        } else {
            0
        }),
    ensures
        forall|c: AccountId| #[trigger] bal_of(post.balances@, c) == bal_of(pre.balances@, c),
{
}

/// Settlement never leaves an account poorer: the refund pass returns every
/// pledged amount (winners get the reward besides, and an executed mint only
/// adds), so after a settling `vote_by_pledges` every account — every
/// pledger in particular — holds at least what it held just before the
/// call; an account other than the caller gains at least its whole pledged
/// total back.
pub proof fn lemma_settlement_covers_pledges(
    bal0: Seq<(AccountId, u128)>,
    bal1: Seq<(AccountId, u128)>,
    pl: Seq<Pledge>,
    caller: AccountId,
    amount: u128,
    result: bool,
    reward: u64,
    cmd: Command,
)
    requires
        pledged_of(pl, caller) >= amount,
        forall|c: AccountId| #[trigger] bal_of(bal1, c) == bal_of(bal0, c) - (if c == caller {
            amount as int
        } else {
            0
        }) + cmd_mint_credit(cmd, c) + refund_credit(pl, c, result, reward as int),
    ensures
        forall|c: AccountId| #[trigger] bal_of(bal1, c) >= bal_of(bal0, c),
        forall|c: AccountId|
            c != caller ==> #[trigger] bal_of(bal1, c) >= bal_of(bal0, c) + pledged_of(pl, c),
{
    assert forall|c: AccountId| #[trigger] bal_of(bal1, c) >= bal_of(bal0, c) && (c != caller
        ==> bal_of(bal1, c) >= bal_of(bal0, c) + pledged_of(pl, c)) by {
        crate::dao::lemma_pledge_bounds(pl, c, result, reward as int);
    }
}

} // verus!


