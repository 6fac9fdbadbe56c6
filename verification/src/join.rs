//! Bootstrap: constructing the DAO and collecting the three founders.

use vstd::prelude::*;

use crate::accounting::AccountId;
use crate::dao::{status_rank, Dao, Phase};
use crate::error::{CreateError, DaoError, Error};

verus! {

/// Whether `a` appears among `founders`.
pub fn contains_account(founders: &Vec<AccountId>, a: AccountId) -> (r: bool)
    ensures
        r == founders@.contains(a),
{
    let n = founders.len();
    for i in 0..n
        invariant
            n == founders@.len(),
            forall|k: int| 0 <= k < i ==> (#[trigger] founders@[k]) != a,
    {
        if founders[i] == a {
            return true;
        }
    }
    false
}

impl Dao {
    /// Creates the DAO: the caller becomes founder 0 and the status is set
    /// to `join`.
    pub fn construct(name: String, creator: AccountId) -> (d: Dao)
        ensures
            d.wf(),
            d.phase is Join,
            d.name == Some(name),
            d.founders@ == seq![creator],
            d.balances@.len() == 0,
    {
        let mut founders: Vec<AccountId> = Vec::new();
        founders.push(creator);
        proof {
            assert(founders@ =~= seq![creator]);
        }
        Dao { name: Some(name), founders, balances: Vec::new(), phase: Phase::Join }
    }

    /// A new founder joins. Fails with `AlreadyJoined` when the caller is
    /// already a founder, and with `UnOpenEntry` outside the join phase.
    /// When the third founder joins, the status advances to `plan` with an
    /// empty plan text and no ballot.
    pub fn join(&mut self, caller: AccountId) -> (r: Result<(), DaoError>)
        requires
            old(self).wf(),
        ensures
            final(self).wf(),
            status_rank(final(self).status_spec()) >= status_rank(old(self).status_spec()),
            r is Err ==> *final(self) == *old(self),
            !(old(self).phase is Join) <==> r == Err::<(), DaoError>(DaoError::Entry(
                Error::UnOpenEntry,
            )),
            old(self).phase is Join && old(self).founders@.contains(caller) <==> r == Err::<
                (),
                DaoError,
            >(DaoError::Create(CreateError::AlreadyJoined)),
            r is Ok <==> old(self).phase is Join && !old(self).founders@.contains(caller),
            r is Ok ==> {
                &&& final(self).founders@ == old(self).founders@.push(caller)
                &&& final(self).name == old(self).name
                &&& final(self).balances == old(self).balances
                &&& if old(self).founders@.len() + 1 == 3 {
                    final(self).phase matches Phase::Plan { plan, ballot: None }
                        && plan@ == Seq::<char>::empty()
                } else {
                    final(self).phase is Join
                }
            },
    {
        match &self.phase {
            Phase::Join => {},
            _ => {
                return Err(DaoError::Entry(Error::UnOpenEntry));
            },
        }
        if contains_account(&self.founders, caller) {
            return Err(DaoError::Create(CreateError::AlreadyJoined));
        }
        self.founders.push(caller);
        if self.founders.len() == 3 {
            let plan: String = "".to_owned();
            proof {
                reveal_strlit("");
            }
            self.phase = Phase::Plan { plan, ballot: None };
        }
        proof {
            assert forall|i: int, j: int|
                0 <= i < j < self.founders@.len() implies (#[trigger] self.founders@[i])
                != (#[trigger] self.founders@[j]) by {
                if j == self.founders@.len() - 1 {
                    assert(old(self).founders@.contains(old(self).founders@[i]));
                }
            }
        }
        Ok(())
    }
}

} // verus!
