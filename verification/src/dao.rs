//! The engine's state: status phases, founders, the plan ballot, the token
//! ledger, and the pledge-voting pool of the online phase.

use vstd::prelude::*;

use crate::accounting::{bal_of, sum_bal, uniq_keys, AccountId};
use crate::parse::is_plan_supply;

verus! {

/// The largest token total a DAO can hold: the supply pool plus the three
/// founder credits of the largest plan supply the plan text can carry.
pub const TOTAL_CAP: u128 = 18446744073709551615 / 100 * 160;

/// The global status, advancing monotonically
/// `create < join < plan < online`.
#[derive(PartialEq, Eq, Structural, Clone, Copy, Debug)]
pub enum Status {
    Create,
    Join,
    Plan,
    Online,
}

/// The position of a status in the progression.
pub open spec fn status_rank(s: Status) -> int {
    match s {
        Status::Create => 0,
        Status::Join => 1,
        Status::Plan => 2,
        Status::Online => 3,
    }
}

/// An amount locked from a voter's balance, tagged with the side it backs.
#[derive(PartialEq, Eq, Structural, Clone, Copy, Debug)]
pub struct Pledge {
    pub account: AccountId,
    pub amount: u128,
    pub side: bool,
}

/// The single active proposal of the online phase.
pub struct Proposal {
    /// The instruction text, kept in its surface form until execution.
    pub text: String,
    /// The pool size at which settlement fires.
    pub vote_limit: u128,
    /// Sum of the pledges backing the proposal.
    pub pool_up: u128,
    /// Sum of the pledges against the proposal.
    pub pool_down: u128,
    /// All pledges, in insertion order; entries with equal
    /// `(account, side)` are merged.
    pub pledges: Vec<Pledge>,
}

/// Phase-specific state. A plan ballot can only exist during the plan
/// phase, and a pledge pool only while online, by construction.
pub enum Phase {
    /// Waiting for the three founders.
    Join,
    /// Founders ratify the plan text by a 2-of-3 ballot; a slot holds
    /// +1 (for), -1 (against) or 0 (not voted).
    Plan { plan: String, ballot: Option<Vec<i32>> },
    /// Token-weighted pledge voting; `supply` is the remaining-to-mint
    /// pool and `reward` the per-winning-pledge mint amount.
    Online { supply: u128, reward: u64, proposal: Option<Proposal> },
}

/// The whole engine state. Every operation takes the authenticated caller
/// and mutates this value all-or-nothing.
pub struct Dao {
    /// The DAO name; discarded on entry to the online phase.
    pub name: Option<String>,
    /// The founders, in join order, length 1 to 3, all distinct.
    pub founders: Vec<AccountId>,
    /// The balances ledger `account -> amount`, keys unique.
    pub balances: Vec<(AccountId, u128)>,
    pub phase: Phase,
}

/// Sum of all pledged amounts.
pub open spec fn sum_pledges(s: Seq<Pledge>) -> int
    decreases s.len(),
{
    if s.len() == 0 {
        0
    } else {
        sum_pledges(s.drop_last()) + s.last().amount
    }
}

/// No two entries share `(account, side)`.
pub open spec fn pledges_uniq(s: Seq<Pledge>) -> bool {
    forall|i: int, j: int|
        0 <= i < j < s.len() ==> !((#[trigger] s[i]).account == (#[trigger] s[j]).account
            && s[i].side == s[j].side)
}

/// The total `a` has pledged, both sides together.
pub open spec fn pledged_of(s: Seq<Pledge>, a: AccountId) -> int
    decreases s.len(),
{
    if s.len() == 0 {
        0
    } else {
        pledged_of(s.drop_last(), a) + if s.last().account == a {
            s.last().amount as int
        } else {
            0
        }
    }
}

/// How many pledge entries sit on side `result`.
pub open spec fn win_count(s: Seq<Pledge>, result: bool) -> int
    decreases s.len(),
{
    if s.len() == 0 {
        0
    } else {
        win_count(s.drop_last(), result) + if s.last().side == result {
            1int
        } else {
            0int
        }
    }
}

/// What settlement credits to `a`: every pledged amount back, plus `reward`
/// for each entry of `a` on the winning side.
pub open spec fn refund_credit(s: Seq<Pledge>, a: AccountId, result: bool, reward: int) -> int
    decreases s.len(),
{
    if s.len() == 0 {
        0
    } else {
        refund_credit(s.drop_last(), a, result, reward) + if s.last().account == a {
            s.last().amount + if s.last().side == result {
                reward
            } else {
                0
            }
        } else {
            0
        }
    }
}

/// The first entry for `(a, side)`, or -1 when there is none.
pub open spec fn find_pledge(s: Seq<Pledge>, a: AccountId, side: bool) -> int
    decreases s.len(),
{
    if s.len() == 0 {
        -1
    } else if s[0].account == a && s[0].side == side {
        0
    } else {
        let r = find_pledge(s.drop_first(), a, side);
        if r < 0 {
            -1
        } else {
            r + 1
        }
    }
}

/// Whether some entry is for `(a, side)`.
pub open spec fn has_pledge(s: Seq<Pledge>, a: AccountId, side: bool) -> bool {
    exists|i: int|
        0 <= i < s.len() && (#[trigger] s[i]).account == a && s[i].side == side
}

/// Merging a pledge: add to the entry with the same `(account, side)`, or
/// append a new entry.
pub open spec fn merge_pledge(s: Seq<Pledge>, a: AccountId, amt: u128, side: bool) -> Seq<
    Pledge,
> {
    let i = find_pledge(s, a, side);
    if i < 0 {
        s.push(Pledge { account: a, amount: amt, side })
    } else {
        s.update(i, Pledge { account: a, amount: (s[i].amount + amt) as u128, side })
    }
}

impl Dao {
    /// The externally visible status.
    pub open spec fn status_spec(self) -> Status {
        match self.phase {
            Phase::Join => Status::Join,
            Phase::Plan { .. } => Status::Plan,
            Phase::Online { .. } => Status::Online,
        }
    }

    /// All tokens in existence: balances, locked pledges, and the
    /// remaining-to-mint supply. Constant under every online operation.
    pub open spec fn total_tokens(self) -> int {
        sum_bal(self.balances@) + match self.phase {
            Phase::Online { supply, proposal, .. } => supply + match proposal {
                Some(p) => sum_pledges(p.pledges@),
                None => 0,
            },
            _ => 0,
        }
    }

    /// The state is what it was before the call: same name, founders,
    /// balances and phase. Stated over the ledger's view, since a failed
    /// debit may have touched and restored the ledger.
    pub open spec fn unchanged_from(self, pre: Dao) -> bool {
        &&& self.name == pre.name
        &&& self.founders == pre.founders
        &&& self.balances@ == pre.balances@
        &&& self.phase == pre.phase
    }

    /// Well-formedness: every operation preserves this.
    pub open spec fn wf(self) -> bool {
        &&& 1 <= self.founders@.len() <= 3
        &&& forall|i: int, j: int|
            0 <= i < j < self.founders@.len() ==> (#[trigger] self.founders@[i])
                != (#[trigger] self.founders@[j])
        &&& uniq_keys(self.balances@)
        &&& match self.phase {
            Phase::Join => {
                &&& self.name is Some
                &&& self.founders@.len() <= 2
                &&& self.balances@.len() == 0
            },
            Phase::Plan { plan, ballot } => {
                &&& self.name is Some
                &&& self.balances@.len() == 0
                &&& self.founders@.len() == 3
                &&& match ballot {
                    Some(b) => b@.len() == 3 && (forall|i: int|
                        0 <= i < 3 ==> (#[trigger] b@[i]) == -1 || b@[i] == 0 || b@[i] == 1)
                        && is_plan_supply(plan@),
                    None => true,
                }
            },
            Phase::Online { supply, reward: _, proposal } => {
                &&& self.name is None
                &&& self.founders@.len() == 3
                &&& match proposal {
                    Some(p) => {
                        &&& pledges_uniq(p.pledges@)
                        &&& p.pool_up + p.pool_down == sum_pledges(p.pledges@)
                        &&& sum_bal(self.balances@) + supply + sum_pledges(p.pledges@)
                            <= TOTAL_CAP
                    },
                    None => sum_bal(self.balances@) + supply <= TOTAL_CAP,
                }
            },
        }
    }

    /// Reads the status.
    pub fn status(&self) -> (st: Status)
        ensures
            st == self.status_spec(),
    {
        match &self.phase {
            Phase::Join => Status::Join,
            Phase::Plan { .. } => Status::Plan,
            Phase::Online { .. } => Status::Online,
        }
    }

    /// Reads the name, present until the DAO goes online.
    pub fn name(&self) -> (n: &Option<String>)
        ensures
            n == &self.name,
    {
        &self.name
    }

    /// Reads the founders, in join order.
    pub fn originals(&self) -> (f: &Vec<AccountId>)
        ensures
            f == &self.founders,
    {
        &self.founders
    }

    /// Reads the balances ledger, as a sequence of `(account, amount)`.
    pub fn accounting(&self) -> (b: &Vec<(AccountId, u128)>)
        ensures
            b == &self.balances,
    {
        &self.balances
    }

    /// Reads the plan text, present during the plan phase.
    pub fn plan(&self) -> (p: Option<&String>)
        ensures
            match self.phase {
                Phase::Plan { plan, .. } => p == Some(&plan),
                _ => p is None,
            },
    {
        match &self.phase {
            Phase::Plan { plan, .. } => Some(plan),
            _ => None,
        }
    }

    /// Reads the plan ballot, present only while a plan vote is active.
    pub fn plan_ballot(&self) -> (b: Option<&Vec<i32>>)
        ensures
            match self.phase {
                Phase::Plan { plan: _, ballot: Some(bb) } => b == Some(&bb),
                _ => b is None,
            },
    {
        match &self.phase {
            Phase::Plan { plan: _, ballot: Some(bb) } => Some(bb),
            _ => None,
        }
    }

    /// Reads the remaining-to-mint supply, present once online.
    pub fn supply(&self) -> (s: Option<u128>)
        ensures
            match self.phase {
                Phase::Online { supply, .. } => s == Some(supply),
                _ => s is None,
            },
    {
        match &self.phase {
            Phase::Online { supply, .. } => Some(*supply),
            _ => None,
        }
    }

    /// Reads the per-winning-pledge reward, present once online.
    pub fn reward(&self) -> (rw: Option<u64>)
        ensures
            match self.phase {
                Phase::Online { supply: _, reward, .. } => rw == Some(reward),
                _ => rw is None,
            },
    {
        match &self.phase {
            Phase::Online { supply: _, reward, .. } => Some(*reward),
            _ => None,
        }
    }

    /// Reads the pledge pool `(up, down)` of the active proposal.
    pub fn pool(&self) -> (pool: Option<(u128, u128)>)
        ensures
            match self.phase {
                Phase::Online { proposal: Some(p), .. } => pool == Some((p.pool_up, p.pool_down)),
                _ => pool is None,
            },
    {
        match &self.phase {
            Phase::Online { proposal: Some(p), .. } => Some((p.pool_up, p.pool_down)),
            _ => None,
        }
    }

    /// Reads the vote limit of the active proposal.
    pub fn vote_limit(&self) -> (l: Option<u128>)
        ensures
            match self.phase {
                Phase::Online { proposal: Some(p), .. } => l == Some(p.vote_limit),
                _ => l is None,
            },
    {
        match &self.phase {
            Phase::Online { proposal: Some(p), .. } => Some(p.vote_limit),
            _ => None,
        }
    }

    /// Reads the text of the active proposal.
    pub fn proposal_text(&self) -> (t: Option<&String>)
        ensures
            match self.phase {
                Phase::Online { proposal: Some(p), .. } => t == Some(&p.text),
                _ => t is None,
            },
    {
        match &self.phase {
            Phase::Online { proposal: Some(p), .. } => Some(&p.text),
            _ => None,
        }
    }

    /// Reads the pledges of the active proposal, in insertion order.
    pub fn pledges(&self) -> (pl: Option<&Vec<Pledge>>)
        ensures
            match self.phase {
                Phase::Online { proposal: Some(p), .. } => pl == Some(&p.pledges),
                _ => pl is None,
            },
    {
        match &self.phase {
            Phase::Online { proposal: Some(p), .. } => Some(&p.pledges),
            _ => None,
        }
    }

    /// Reads the balance of one account, 0 when it has no entry.
    pub fn balance_of(&self, account: AccountId) -> (v: u128)
        requires
            self.wf(),
        ensures
            v as int == bal_of(self.balances@, account),
    {
        proof {
            crate::accounting::lemma_bal_le_sum(self.balances@, account);
        }
        match crate::accounting::balance_get(&self.balances, account) {
            Some(v) => v,
            None => 0,
        }
    }
}

/// The sum of pledges is never negative.
pub proof fn lemma_sum_pledges_nonneg(s: Seq<Pledge>)
    ensures
        sum_pledges(s) >= 0,
    decreases s.len(),
{
    if s.len() > 0 {
        lemma_sum_pledges_nonneg(s.drop_last());
    }
}

/// Basic bounds: a single entry, a pledger's total, the winner count and
/// the refund credit all sit inside the totals.
pub proof fn lemma_pledge_bounds(s: Seq<Pledge>, a: AccountId, result: bool, reward: int)
    requires
        reward >= 0,
    ensures
        0 <= pledged_of(s, a) <= sum_pledges(s),
        0 <= win_count(s, result) <= s.len(),
        refund_credit(s, a, result, reward) >= pledged_of(s, a),
        refund_credit(s, a, result, reward) <= sum_pledges(s) + reward * win_count(s, result),
    decreases s.len(),
{
    if s.len() > 0 {
        lemma_pledge_bounds(s.drop_last(), a, result, reward);
        if s.last().account == a && s.last().side == result {
            assert(reward * win_count(s, result) == reward * (win_count(s.drop_last(), result)
                + 1));
            assert(reward * (win_count(s.drop_last(), result) + 1) == reward * win_count(
                s.drop_last(),
                result,
            ) + reward) by (nonlinear_arith);
        } else {
            if s.last().side == result {
                assert(reward * win_count(s, result) == reward * (win_count(
                    s.drop_last(),
                    result,
                ) + 1));
                assert(reward * (win_count(s.drop_last(), result) + 1) == reward * win_count(
                    s.drop_last(),
                    result,
                ) + reward) by (nonlinear_arith);
            }
        }
    }
}

} // verus!
