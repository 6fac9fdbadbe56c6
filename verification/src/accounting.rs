//! The accounting ledger: a balances sequence `account -> amount` with unique
//! keys, linear lookup, and the `add` / `reduce` primitives every other
//! component builds on.

use vstd::prelude::*;

use crate::error::OnlineError;

verus! {

/// An account identity, as the host's authentication layer hands it in.
#[derive(PartialEq, Eq, Structural, Clone, Copy, Debug)]
pub struct AccountId {
    pub id: u64,
}

/// No two entries name the same account.
pub open spec fn uniq_keys(s: Seq<(AccountId, u128)>) -> bool {
    forall|i: int, j: int| 0 <= i < j < s.len() ==> (#[trigger] s[i]).0 != (#[trigger] s[j]).0
}

/// Whether `a` has an entry.
pub open spec fn has_key(s: Seq<(AccountId, u128)>, a: AccountId) -> bool {
    exists|i: int| 0 <= i < s.len() && (#[trigger] s[i]).0 == a
}

/// The balance of `a`: the amount of its last entry, 0 when absent.
/// With unique keys this is the balance of the one entry for `a`.
pub open spec fn bal_of(s: Seq<(AccountId, u128)>, a: AccountId) -> int
    decreases s.len(),
{
    if s.len() == 0 {
        0
    } else if s.last().0 == a {
        s.last().1 as int
    } else {
        bal_of(s.drop_last(), a)
    }
}

/// The total of all balances.
pub open spec fn sum_bal(s: Seq<(AccountId, u128)>) -> int
    decreases s.len(),
{
    if s.len() == 0 {
        0
    } else {
        sum_bal(s.drop_last()) + s.last().1
    }
}

/// The total is never negative.
pub proof fn lemma_sum_nonneg(s: Seq<(AccountId, u128)>)
    ensures
        sum_bal(s) >= 0,
    decreases s.len(),
{
    if s.len() > 0 {
        lemma_sum_nonneg(s.drop_last());
    }
}

/// An absent account has balance 0.
pub proof fn lemma_absent_bal(s: Seq<(AccountId, u128)>, a: AccountId)
    requires
        !has_key(s, a),
    ensures
        bal_of(s, a) == 0,
    decreases s.len(),
{
    if s.len() > 0 {
        assert(!has_key(s.drop_last(), a)) by {
            assert(forall|i: int|
                0 <= i < s.len() - 1 ==> (#[trigger] s.drop_last()[i]) == s[i]);
        }
        lemma_absent_bal(s.drop_last(), a);
    }
}

/// A single balance never exceeds the total.
pub proof fn lemma_bal_le_sum(s: Seq<(AccountId, u128)>, a: AccountId)
    ensures
        0 <= bal_of(s, a),
        bal_of(s, a) <= sum_bal(s),
    decreases s.len(),
{
    if s.len() > 0 {
        lemma_bal_le_sum(s.drop_last(), a);
        lemma_sum_nonneg(s.drop_last());
    }
}

/// Updating the entry at `i` (keeping its key) moves the total by the
/// difference and only the balance of that key, when keys are unique.
pub proof fn lemma_update_entry(s: Seq<(AccountId, u128)>, i: int, v: u128)
    requires
        uniq_keys(s),
        0 <= i < s.len(),
    ensures
        sum_bal(s.update(i, (s[i].0, v))) == sum_bal(s) - s[i].1 + v,
        forall|c: AccountId| #[trigger] bal_of(s.update(i, (s[i].0, v)), c)
            == if c == s[i].0 { v as int } else { bal_of(s, c) },
        uniq_keys(s.update(i, (s[i].0, v))),
        forall|c: AccountId| #[trigger] has_key(s.update(i, (s[i].0, v)), c) == has_key(s, c),
    decreases s.len(),
{
    let t = s.update(i, (s[i].0, v));
    assert(t.len() == s.len());
    assert forall|c: AccountId| #[trigger] has_key(t, c) == has_key(s, c) by {
        if has_key(t, c) {
            let k = choose|k: int| 0 <= k < t.len() && (#[trigger] t[k]).0 == c;
            assert(s[k].0 == c);
        }
        if has_key(s, c) {
            let k = choose|k: int| 0 <= k < s.len() && (#[trigger] s[k]).0 == c;
            assert(t[k].0 == c);
        }
    }
    if i == s.len() - 1 {
        assert(t.drop_last() =~= s.drop_last());
        assert forall|c: AccountId| #[trigger] bal_of(t, c)
            == if c == s[i].0 { v as int } else { bal_of(s, c) } by {
            if c != s[i].0 {
                assert(bal_of(t, c) == bal_of(t.drop_last(), c));
                assert(bal_of(s, c) == bal_of(s.drop_last(), c));
            }
        }
    } else {
        assert(t.drop_last() =~= s.drop_last().update(i, (s[i].0, v)));
        assert(s.drop_last()[i] == s[i]);
        assert(uniq_keys(s.drop_last())) by {
            assert(forall|k: int|
                0 <= k < s.len() - 1 ==> (#[trigger] s.drop_last()[k]) == s[k]);
        }
        lemma_update_entry(s.drop_last(), i, v);
        assert(t.last() == s.last());
        // the last key differs from the updated key
        assert(s[i].0 != s.last().0);
        assert forall|c: AccountId| #[trigger] bal_of(t, c)
            == if c == s[i].0 { v as int } else { bal_of(s, c) } by {
            if c == t.last().0 {
            } else {
                assert(bal_of(t, c) == bal_of(t.drop_last(), c));
                assert(bal_of(s, c) == bal_of(s.drop_last(), c));
            }
        }
    }
}

/// Appending a fresh entry adds its amount to the total and gives its key
/// that balance.
pub proof fn lemma_push_entry(s: Seq<(AccountId, u128)>, a: AccountId, v: u128)
    requires
        uniq_keys(s),
        !has_key(s, a),
    ensures
        sum_bal(s.push((a, v))) == sum_bal(s) + v,
        forall|c: AccountId| #[trigger] bal_of(s.push((a, v)), c)
            == if c == a { v as int } else { bal_of(s, c) },
        uniq_keys(s.push((a, v))),
        forall|c: AccountId| #[trigger] has_key(s.push((a, v)), c)
            == (has_key(s, c) || c == a),
{
    let t = s.push((a, v));
    assert(t.drop_last() =~= s);
    assert(t.last() == (a, v));
    assert forall|c: AccountId| #[trigger] bal_of(t, c)
        == if c == a { v as int } else { bal_of(s, c) } by {
        if c == a {
            if has_key(s, a) {
                let k = choose|k: int| 0 <= k < s.len() && (#[trigger] s[k]).0 == a;
                assert(false);
            }
        }
    }
    assert(uniq_keys(t)) by {
        assert forall|i: int, j: int| 0 <= i < j < t.len() implies
            (#[trigger] t[i]).0 != (#[trigger] t[j]).0 by {
            if j == t.len() - 1 {
                assert(t[i] == s[i]);
                if t[i].0 == a {
                    assert(has_key(s, a));
                }
            }
        }
    }
    assert forall|c: AccountId| #[trigger] has_key(t, c) == (has_key(s, c) || c == a) by {
        if has_key(t, c) {
            let k = choose|k: int| 0 <= k < t.len() && (#[trigger] t[k]).0 == c;
            if k < s.len() {
                assert(s[k].0 == c);
            }
        }
        if has_key(s, c) {
            let k = choose|k: int| 0 <= k < s.len() && (#[trigger] s[k]).0 == c;
            assert(t[k].0 == c);
        }
        if c == a {
            assert(t[t.len() - 1].0 == c);
        }
    }
}

/// Finds the index of the entry for `account`, if any.
fn find_index(bal: &Vec<(AccountId, u128)>, account: AccountId) -> (r: Option<usize>)
    ensures
        match r {
            Some(i) => i < bal@.len() && bal@[i as int].0 == account,
            None => !has_key(bal@, account),
        },
{
    let n = bal.len();
    for i in 0..n
        invariant
            n == bal@.len(),
            forall|k: int| 0 <= k < i ==> (#[trigger] bal@[k]).0 != account,
    {
        if bal[i].0 == account {
            return Some(i);
        }
    }
    None
}

/// Reads the balance of `account`, `None` when it has no entry.
pub fn balance_get(bal: &Vec<(AccountId, u128)>, account: AccountId) -> (r: Option<u128>)
    requires
        uniq_keys(bal@),
    ensures
        match r {
            Some(v) => has_key(bal@, account) && v as int == bal_of(bal@, account),
            None => !has_key(bal@, account) && bal_of(bal@, account) == 0,
        },
{
    match find_index(bal, account) {
        Some(i) => {
            proof {
                lemma_at_index_bal(bal@, i as int);
            }
            Some(bal[i].1)
        },
        None => {
            proof {
                lemma_absent_bal(bal@, account);
            }
            None
        },
    }
}

/// With unique keys, the balance of the key at `i` is the amount at `i`.
pub proof fn lemma_at_index_bal(s: Seq<(AccountId, u128)>, i: int)
    requires
        uniq_keys(s),
        0 <= i < s.len(),
    ensures
        bal_of(s, s[i].0) == s[i].1 as int,
        has_key(s, s[i].0),
    decreases s.len(),
{
    if i == s.len() - 1 {
    } else {
        assert(s.last().0 != s[i].0);
        assert(s.drop_last()[i] == s[i]);
        assert(uniq_keys(s.drop_last())) by {
            assert(forall|k: int|
                0 <= k < s.len() - 1 ==> (#[trigger] s.drop_last()[k]) == s[k]);
        }
        lemma_at_index_bal(s.drop_last(), i);
    }
}

/// Credits `amount` to `account`: increments its entry, or appends a new one.
pub fn add(bal: &mut Vec<(AccountId, u128)>, account: AccountId, amount: u128)
    requires
        uniq_keys(old(bal)@),
        bal_of(old(bal)@, account) + amount <= u128::MAX,
    ensures
        uniq_keys(final(bal)@),
        sum_bal(final(bal)@) == sum_bal(old(bal)@) + amount,
        forall|c: AccountId| #[trigger] bal_of(final(bal)@, c)
            == bal_of(old(bal)@, c) + if c == account { amount as int } else { 0 },
        forall|c: AccountId| #[trigger] has_key(final(bal)@, c)
            == (has_key(old(bal)@, c) || c == account),
{
    match find_index(bal, account) {
        Some(i) => {
            proof {
                lemma_at_index_bal(bal@, i as int);
            }
            let cur = bal[i].1;
            let ghost s0 = bal@;
            bal[i] = (account, cur + amount);
            proof {
                assert(bal@ =~= s0.update(i as int, (s0[i as int].0, (cur + amount) as u128)));
                lemma_update_entry(s0, i as int, (cur + amount) as u128);
            }
        },
        None => {
            proof {
                lemma_absent_bal(bal@, account);
                lemma_push_entry(bal@, account, amount);
            }
            bal.push((account, amount));
        },
    }
}

/// Debits `amount` from `account`; fails with `InsufficientBalance` when the
/// account is absent or its balance is below `amount`, leaving the ledger
/// unchanged.
pub fn reduce(bal: &mut Vec<(AccountId, u128)>, account: AccountId, amount: u128) -> (r: Result<
    (),
    OnlineError,
>)
    requires
        uniq_keys(old(bal)@),
    ensures
        uniq_keys(final(bal)@),
        r is Ok <==> has_key(old(bal)@, account) && amount <= bal_of(old(bal)@, account),
        r is Ok ==> {
            &&& sum_bal(final(bal)@) == sum_bal(old(bal)@) - amount
            &&& forall|c: AccountId| #[trigger] bal_of(final(bal)@, c)
                == bal_of(old(bal)@, c) - if c == account { amount as int } else { 0 }
            &&& forall|c: AccountId| #[trigger] has_key(final(bal)@, c) == has_key(old(bal)@, c)
        },
        r is Err ==> final(bal)@ == old(bal)@ && r == Err::<(), OnlineError>(
            OnlineError::InsufficientBalance,
        ),
{
    match find_index(bal, account) {
        Some(i) => {
            proof {
                lemma_at_index_bal(bal@, i as int);
            }
            let cur = bal[i].1;
            if cur < amount {
                Err(OnlineError::InsufficientBalance)
            } else {
                let ghost s0 = bal@;
                bal[i] = (account, cur - amount);
                proof {
                    assert(bal@ =~= s0.update(i as int, (s0[i as int].0, (cur - amount) as u128)));
                    lemma_update_entry(s0, i as int, (cur - amount) as u128);
                }
                Ok(())
            }
        },
        None => Err(OnlineError::InsufficientBalance),
    }
}

} // verus!
