//! The planning phase: founders propose a plan text (the initial supply)
//! and ratify it by a 2-of-3 ballot; ratification takes the DAO online.

use vstd::prelude::*;
use vstd::pervasive::unreached;

use crate::accounting::{sum_bal, uniq_keys, AccountId};
use crate::dao::{status_rank, Dao, Phase};
use crate::error::{DaoError, Error, PlanError};
use crate::join::contains_account;
use crate::parse::{dec_val, is_plan_supply, plan_supply};

verus! {

/// How many slots of the ballot hold `v`.
pub open spec fn count_val(s: Seq<i32>, v: i32) -> int
    decreases s.len(),
{
    if s.len() == 0 {
        0
    } else {
        count_val(s.drop_last(), v) + if s.last() == v {
            1int
        } else {
            0int
        }
    }
}

/// The index of founder `a`, meaningful when `a` is a founder and the
/// founders are distinct.
pub open spec fn founder_index(founders: Seq<AccountId>, a: AccountId) -> int {
    choose|i: int| 0 <= i < founders.len() && founders[i] == a
}

/// What the supply pool is initialized to on entering the online phase:
/// 70% of the ratified supply, by truncating division.
pub open spec fn supply_pool(s: int) -> int {
    s / 100 * 70
}

/// What each founder is credited on entering the online phase: 30% of the
/// ratified supply, per founder, by truncating division.
pub open spec fn founder_share(s: int) -> int {
    s / 100 * 30
}

/// A plan vote that was merely recorded: the caller's slot was set to the
/// vote's value and the ballot did not reach a decision.
pub open spec fn vote_recorded(pre: Dao, post: Dao, caller: AccountId, judge: bool) -> bool {
    &&& pre.founders@.contains(caller)
    &&& post.founders@ == pre.founders@
    &&& match (pre.phase, post.phase) {
        (
            Phase::Plan { plan: p0, ballot: Some(b0) },
            Phase::Plan { plan: p1, ballot: Some(b1) },
        ) => {
            let v: i32 = if judge {
                1
            } else {
                -1i32
            };
            &&& p1@ == p0@
            &&& b0@.len() == 3
            &&& b1@ == b0@.update(founder_index(pre.founders@, caller), v)
            &&& count_val(b1@, v) != 2
        },
        _ => false,
    }
}

/// Counts the slots of `b` holding `v`.
fn count_slots(b: &Vec<i32>, v: i32) -> (c: usize)
    ensures
        c == count_val(b@, v),
{
    let n = b.len();
    let mut c: usize = 0;
    proof {
        assert(b@.take(0) =~= Seq::<i32>::empty());
    }
    for i in 0..n
        invariant
            n == b@.len(),
            c <= i,
            c == count_val(b@.take(i as int), v),
    {
        proof {
            assert(b@.take(i + 1).drop_last() =~= b@.take(i as int));
            assert(b@.take(i + 1).last() == b@[i as int]);
        }
        if b[i] == v {
            c = c + 1;
        }
    }
    proof {
        assert(b@.take(n as int) =~= b@);
    }
    c
}

/// The position of `a` among the founders.
fn original_index(founders: &Vec<AccountId>, a: AccountId) -> (r: usize)
    requires
        founders@.contains(a),
        forall|i: int, j: int|
            0 <= i < j < founders@.len() ==> (#[trigger] founders@[i]) != (#[trigger] founders@[j]),
    ensures
        r < founders@.len(),
        founders@[r as int] == a,
        r as int == founder_index(founders@, a),
{
    let n = founders.len();
    for i in 0..n
        invariant
            n == founders@.len(),
            founders@.contains(a),
            forall|k: int| 0 <= k < i ==> (#[trigger] founders@[k]) != a,
            forall|i: int, j: int|
                0 <= i < j < founders@.len() ==> (#[trigger] founders@[i]) != (
                #[trigger] founders@[j]),
    {
        if founders[i] == a {
            proof {
                let ci = founder_index(founders@, a);
                assert(founders@[ci] == a);
                if ci != i {
                    assert(founders@[ci] != founders@[i as int]);
                }
            }
            return i;
        }
    }
    proof {
        let w = choose|k: int| 0 <= k < founders@.len() && founders@[k] == a;
        assert(founders@[w] != a);
    }
    unreached()
}

impl Dao {
    /// A founder proposes a plan text (the decimal initial supply): writes
    /// the text and opens a fresh ballot with the proposer's slot at +1.
    ///
    /// The plan text must be a valid plan (`is_plan_supply`); the engine
    /// keeps that as a data-model invariant of every balloted plan.
    pub fn proposal(&mut self, caller: AccountId, plan: String) -> (r: Result<(), DaoError>)
        requires
            old(self).wf(),
            is_plan_supply(plan@),
        ensures
            final(self).wf(),
            final(self).status_spec() == old(self).status_spec(),
            r is Err ==> *final(self) == *old(self),
            match old(self).phase {
                Phase::Plan { plan: _, ballot } => {
                    if !old(self).founders@.contains(caller) {
                        r == Err::<(), DaoError>(DaoError::Plan(PlanError::NotOriginal))
                    } else if ballot is Some {
                        r == Err::<(), DaoError>(DaoError::Plan(PlanError::AlreadyHaveProposal))
                    } else {
                        &&& r is Ok
                        &&& final(self).founders == old(self).founders
                        &&& final(self).name == old(self).name
                        &&& final(self).balances == old(self).balances
                        &&& match final(self).phase {
                            Phase::Plan { plan: p2, ballot: Some(b) } => {
                                &&& p2 == plan
                                &&& b@.len() == 3
                                &&& forall|k: int|
                                    0 <= k < 3 ==> (#[trigger] b@[k]) == if old(
                                        self,
                                    ).founders@[k] == caller {
                                        1i32
                                    } else {
                                        0i32
                                    }
                            },
                            _ => false,
                        }
                    }
                },
                _ => r == Err::<(), DaoError>(DaoError::Entry(Error::UnOpenEntry)),
            },
    {
        match &mut self.phase {
            Phase::Plan { plan: plan_slot, ballot } => {
                if !contains_account(&self.founders, caller) {
                    return Err(DaoError::Plan(PlanError::NotOriginal));
                }
                if ballot.is_some() {
                    return Err(DaoError::Plan(PlanError::AlreadyHaveProposal));
                }
                let idx = original_index(&self.founders, caller);
                let mut b: Vec<i32> = Vec::new();
                b.push(0);
                b.push(0);
                b.push(0);
                b[idx] = 1;
                *plan_slot = plan;
                *ballot = Some(b);
                proof {
                    assert(forall|k: int|
                        0 <= k < 3 && k != idx ==> self.founders@[k] != caller);
                }
                Ok(())
            },
            _ => Err(DaoError::Entry(Error::UnOpenEntry)),
        }
    }

    /// A founder casts a plan vote: +1 when `judge`, else -1, overwriting
    /// their own slot. Two +1 slots ratify the plan and take the DAO
    /// online; two -1 slots discard the ballot (the text stays and may be
    /// re-proposed); otherwise the updated ballot persists.
    pub fn vote(&mut self, caller: AccountId, judge: bool) -> (r: Result<(), DaoError>)
        requires
            old(self).wf(),
        ensures
            final(self).wf(),
            status_rank(final(self).status_spec()) >= status_rank(old(self).status_spec()),
            r is Err ==> *final(self) == *old(self),
            match old(self).phase {
                Phase::Plan { plan: p0, ballot } => {
                    if !old(self).founders@.contains(caller) {
                        r == Err::<(), DaoError>(DaoError::Plan(PlanError::NotOriginal))
                    } else {
                        match ballot {
                            None => r == Err::<(), DaoError>(DaoError::Plan(
                                PlanError::NoProposal,
                            )),
                            Some(b0) => {
                                let v: i32 = if judge {
                                    1
                                } else {
                                    -1i32
                                };
                                let b1 = b0@.update(
                                    founder_index(old(self).founders@, caller),
                                    v,
                                );
                                &&& r is Ok
                                &&& final(self).founders == old(self).founders
                                &&& if judge && count_val(b1, 1) == 2 {
                                    // ratified: the DAO goes online
                                    &&& final(self).name is None
                                    &&& match final(self).phase {
                                        Phase::Online { supply, reward, proposal } => {
                                            &&& supply as int == supply_pool(dec_val(p0@))
                                            &&& reward == 1
                                            &&& proposal is None
                                        },
                                        _ => false,
                                    }
                                    &&& final(self).balances@.len() == 3
                                    &&& forall|k: int|
                                        0 <= k < 3 ==> (#[trigger] final(self).balances@[k])
                                            == (
                                            old(self).founders@[k],
                                            founder_share(dec_val(p0@)) as u128,
                                        )
                                } else if !judge && count_val(b1, -1i32) == 2 {
                                    // rejected: ballot removed, text kept
                                    &&& final(self).name == old(self).name
                                    &&& final(self).balances == old(self).balances
                                    &&& match final(self).phase {
                                        Phase::Plan { plan: p1, ballot: None } => p1@ == p0@,
                                        _ => false,
                                    }
                                } else {
                                    // recorded: ballot persists
                                    &&& final(self).name == old(self).name
                                    &&& final(self).balances == old(self).balances
                                    &&& vote_recorded(*old(self), *final(self), caller, judge)
                                }
                            },
                        }
                    }
                },
                _ => r == Err::<(), DaoError>(DaoError::Entry(Error::UnOpenEntry)),
            },
    {
        let mut ratified_supply: Option<u64> = None;
        match &mut self.phase {
            Phase::Plan { plan, ballot } => {
                if !contains_account(&self.founders, caller) {
                    return Err(DaoError::Plan(PlanError::NotOriginal));
                }
                let mut b = match ballot.take() {
                    Some(b) => b,
                    None => {
                        return Err(DaoError::Plan(PlanError::NoProposal));
                    },
                };
                let idx = original_index(&self.founders, caller);
                if judge {
                    b[idx] = 1;
                    let c = count_slots(&b, 1);
                    if c == 2 {
                        let sup = match plan_supply(plan.as_str()) {
                            Some(s) => s,
                            None => unreached(),
                        };
                        ratified_supply = Some(sup);
                    } else {
                        *ballot = Some(b);
                    }
                } else {
                    b[idx] = -1;
                    let c = count_slots(&b, -1);
                    if c != 2 {
                        *ballot = Some(b);
                    }
                }
            },
            _ => {
                return Err(DaoError::Entry(Error::UnOpenEntry));
            },
        }
        if let Some(sup) = ratified_supply {
            self.plan_to_online(sup);
        }
        Ok(())
    }

    /// The ratification transition: set status `online`, initialize the
    /// supply pool to 70% of the ratified supply, the reward to 1, credit
    /// each founder 30% of the supply, and discard the name.
    fn plan_to_online(&mut self, sup: u64)
        requires
            old(self).wf(),
            old(self).phase is Plan,
        ensures
            final(self).wf(),
            final(self).founders == old(self).founders,
            final(self).name is None,
            match final(self).phase {
                Phase::Online { supply, reward, proposal } => {
                    &&& supply as int == supply_pool(sup as int)
                    &&& reward == 1
                    &&& proposal is None
                },
                _ => false,
            },
            final(self).balances@.len() == 3,
            forall|k: int|
                0 <= k < 3 ==> (#[trigger] final(self).balances@[k]) == (
                    old(self).founders@[k],
                    founder_share(sup as int) as u128,
                ),
    {
        let s128 = sup as u128;
        proof {
            vstd::arithmetic::div_mod::lemma_div_is_ordered(
                s128 as int,
                u64::MAX as int,
                100,
            );
        }
        let q = s128 / 100;
        let pool = q * 70;
        let share = q * 30;
        let mut bals: Vec<(AccountId, u128)> = Vec::new();
        let f0 = self.founders[0];
        let f1 = self.founders[1];
        let f2 = self.founders[2];
        proof {
            assert(sum_bal(bals@) == 0);
            assert(!crate::accounting::has_key(bals@, f0));
            crate::accounting::lemma_push_entry(bals@, f0, share);
        }
        bals.push((f0, share));
        proof {
            assert(!crate::accounting::has_key(bals@, f1)) by {
                if crate::accounting::has_key(bals@, f1) {
                    let m = choose|m: int|
                        0 <= m < bals@.len() && (#[trigger] bals@[m]).0 == f1;
                    assert(bals@[0].0 == f0);
                }
            }
            crate::accounting::lemma_push_entry(bals@, f1, share);
        }
        bals.push((f1, share));
        proof {
            assert(!crate::accounting::has_key(bals@, f2)) by {
                if crate::accounting::has_key(bals@, f2) {
                    let m = choose|m: int|
                        0 <= m < bals@.len() && (#[trigger] bals@[m]).0 == f2;
                }
            }
            crate::accounting::lemma_push_entry(bals@, f2, share);
        }
        bals.push((f2, share));
        proof {
            assert(bals@.len() == 3);
            assert(sum_bal(bals@) == 3 * (share as int));
        }
        self.balances = bals;
        self.name = None;
        self.phase = Phase::Online { supply: pool, reward: 1, proposal: None };
    }
}

} // verus!
