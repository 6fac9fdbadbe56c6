use dao_engine::accounting::AccountId;
use dao_engine::dao::{Dao, Status};
use dao_engine::error::{CreateError, DaoError, OnlineError};

fn acc(id: u64) -> AccountId {
    AccountId { id }
}

/// Builds a DAO that just went online: founders 1, 2, 3, plan supply
/// 100000000, so supply = 70_000_000 and each founder holds 30_000_000.
fn online_dao() -> Dao {
    let mut d = Dao::construct(String::from("Test DAO"), acc(1));
    d.join(acc(2)).unwrap();
    d.join(acc(3)).unwrap();
    d.proposal(acc(1), String::from("100000000")).unwrap();
    d.vote(acc(2), true).unwrap();
    assert_eq!(d.status(), Status::Online);
    d
}

#[test]
fn test() {
    // three founders create the DAO
    let mut d = Dao::construct(String::from("Test DAO"), acc(1));
    assert_eq!(d.status(), Status::Join);

    d.join(acc(2)).unwrap();
    d.join(acc(3)).unwrap();
    assert_eq!(d.status(), Status::Plan);

    // plan: supply 100000000, ratified by two upvotes
    d.proposal(acc(1), String::from("100000000")).unwrap();
    d.vote(acc(2), true).unwrap();
    assert_eq!(d.status(), Status::Online);

    // every founder holds 30% of the supply
    for k in 1..4u64 {
        assert_eq!(d.balance_of(acc(k)), 30_000_000);
    }
    assert_eq!(d.supply(), Some(70_000_000));

    // founder 1 proposes to update the reward to 2, pledging 1 for it
    d.new_proposal(acc(1), String::from("update reward 2"), 20, true, 1)
        .unwrap();
    assert_eq!(d.balance_of(acc(1)), 29_999_999);

    // founder 2 pledges 20 for it: the pool reaches the limit, the
    // proposal executes, and the pledges come back with reward 2 each
    d.vote_by_pledges(acc(2), true, 20).unwrap();
    assert_eq!(d.balance_of(acc(1)), 30_000_002);
    assert_eq!(d.balance_of(acc(2)), 30_000_002);
    assert_eq!(d.balance_of(acc(3)), 30_000_000);
    assert_eq!(d.reward(), Some(2));
    assert_eq!(d.supply(), Some(69_999_996));
    assert!(d.proposal_text().is_none());
}

#[test]
fn duplicate_join_rejected() {
    let mut d = Dao::construct(String::from("Test DAO"), acc(1));
    assert_eq!(
        d.join(acc(1)),
        Err(DaoError::Create(CreateError::AlreadyJoined))
    );
    d.join(acc(2)).unwrap();
    assert_eq!(
        d.join(acc(2)),
        Err(DaoError::Create(CreateError::AlreadyJoined))
    );
}

#[test]
fn plan_rejection_keeps_phase() {
    let mut d = Dao::construct(String::from("Test DAO"), acc(1));
    d.join(acc(2)).unwrap();
    d.join(acc(3)).unwrap();
    d.proposal(acc(1), String::from("100000000")).unwrap();
    d.vote(acc(2), false).unwrap();
    d.vote(acc(3), false).unwrap();
    // two downvotes: ballot removed, still in the plan phase
    assert_eq!(d.status(), Status::Plan);
    assert!(d.plan_ballot().is_none());
    // and a founder may re-propose
    d.proposal(acc(2), String::from("500")).unwrap();
    assert!(d.plan_ballot().is_some());
}

#[test]
fn same_plan_vote_twice_is_idempotent() {
    let mut d = Dao::construct(String::from("Test DAO"), acc(1));
    d.join(acc(2)).unwrap();
    d.join(acc(3)).unwrap();
    d.proposal(acc(1), String::from("100000000")).unwrap();
    let before = d.plan_ballot().unwrap().clone();
    assert_eq!(before, vec![1, 0, 0]);
    // the proposer repeats their upvote: the ballot does not move
    d.vote(acc(1), true).unwrap();
    assert_eq!(d.plan_ballot().unwrap(), &before);
    assert_eq!(d.status(), Status::Plan);
    // a second founder repeating a downvote leaves their slot as it was
    d.vote(acc(2), false).unwrap();
    d.vote(acc(2), false).unwrap();
    assert_eq!(d.plan_ballot().unwrap(), &vec![1, -1, 0]);
}

#[test]
fn overlapping_proposals_forbidden() {
    let mut d = online_dao();
    d.new_proposal(acc(1), String::from("update reward 2"), 20, true, 1)
        .unwrap();
    assert_eq!(
        d.new_proposal(acc(2), String::from("mint 5 9"), 30, false, 0),
        Err(DaoError::Online(OnlineError::HaveUnfinishedProposal))
    );
}

#[test]
fn permission_gate_on_new_proposal() {
    let mut d = online_dao();
    // account 4 holds nothing
    assert_eq!(
        d.new_proposal(acc(4), String::from("update reward 2"), 20, true, 0),
        Err(DaoError::Online(OnlineError::NoPermission))
    );
    // a balance of exactly 1 is not enough: it must be strictly above 1
    d.transfer(acc(1), acc(4), 1).unwrap();
    assert_eq!(
        d.new_proposal(acc(4), String::from("update reward 2"), 20, true, 0),
        Err(DaoError::Online(OnlineError::NoPermission))
    );
}

#[test]
fn tie_rejects_proposal() {
    let mut d = online_dao();
    d.new_proposal(acc(1), String::from("update reward 2"), 20, true, 10)
        .unwrap();
    // 10 up, then 10 down: the pool reaches 20, the tie rejects
    d.vote_by_pledges(acc(2), false, 10).unwrap();
    assert!(d.proposal_text().is_none());
    // not executed: the reward still is 1
    assert_eq!(d.reward(), Some(1));
    // everyone got their pledge back; the down side matched the outcome,
    // so its one entry got the reward of 1 minted
    assert_eq!(d.balance_of(acc(1)), 30_000_000);
    assert_eq!(d.balance_of(acc(2)), 30_000_001);
    assert_eq!(d.supply(), Some(69_999_999));
}

#[test]
fn mint_proposal_credits_account() {
    let mut d = online_dao();
    // mint 5 tokens to account 9 (in decimal), vote limit 20
    d.new_proposal(acc(1), String::from("mint 5 9"), 20, true, 10)
        .unwrap();
    d.vote_by_pledges(acc(2), true, 10).unwrap();
    assert_eq!(d.balance_of(acc(9)), 5);
    // refunds plus reward 1 for both winning entries, 5 + 2 from supply
    assert_eq!(d.balance_of(acc(1)), 30_000_001);
    assert_eq!(d.balance_of(acc(2)), 30_000_001);
    assert_eq!(d.supply(), Some(70_000_000 - 5 - 2));
}

#[test]
fn update_of_unknown_subject_is_ignored() {
    let mut d = online_dao();
    d.new_proposal(acc(1), String::from("update quorum 7"), 20, true, 10)
        .unwrap();
    d.vote_by_pledges(acc(2), true, 10).unwrap();
    // executed without effect; settlement still pays the winners
    assert_eq!(d.reward(), Some(1));
    assert_eq!(d.balance_of(acc(1)), 30_000_001);
    assert_eq!(d.balance_of(acc(2)), 30_000_001);
}

#[test]
fn fatal_execution_parse_aborts_settlement() {
    let mut d = online_dao();
    // the head token passes new_proposal, the arguments cannot execute
    d.new_proposal(acc(1), String::from("mint abc"), 20, true, 10)
        .unwrap();
    assert_eq!(
        d.vote_by_pledges(acc(2), true, 10),
        Err(DaoError::Online(OnlineError::InvalidProposal))
    );
    // nothing changed: the pool still holds only the proposer's pledge
    assert_eq!(d.pool(), Some((10, 0)));
    assert_eq!(d.balance_of(acc(2)), 30_000_000);
}

#[test]
fn mint_beyond_supply_fails_closed() {
    let mut d = online_dao();
    d.new_proposal(acc(1), String::from("mint 80000000 9"), 20, true, 10)
        .unwrap();
    assert_eq!(
        d.vote_by_pledges(acc(2), true, 10),
        Err(DaoError::Online(OnlineError::SupplyExhausted))
    );
    assert_eq!(d.supply(), Some(70_000_000));
    assert_eq!(d.balance_of(acc(9)), 0);
}

#[test]
fn pledges_merge_by_account_and_side() {
    let mut d = online_dao();
    d.new_proposal(acc(1), String::from("update reward 2"), 200, true, 2)
        .unwrap();
    d.vote_by_pledges(acc(1), true, 3).unwrap();
    // same (account, side): one merged entry
    let pl = d.pledges().unwrap();
    assert_eq!(pl.len(), 1);
    assert_eq!(pl[0].amount, 5);
    assert!(pl[0].side);
    // opposite side: a second entry of its own
    d.vote_by_pledges(acc(1), false, 4).unwrap();
    let pl = d.pledges().unwrap();
    assert_eq!(pl.len(), 2);
    assert_eq!(pl[1].amount, 4);
    assert!(!pl[1].side);
    assert_eq!(d.pool(), Some((5, 4)));
    assert_eq!(d.balance_of(acc(1)), 30_000_000 - 9);
}
