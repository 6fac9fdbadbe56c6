use dao_engine::accounting::AccountId;
use dao_engine::dao::{Dao, Status};
use dao_engine::error::{CreateError, DaoError, Error, OnlineError, PlanError};
use dao_engine::parse::{parse_command, plan_supply, tokenize, Command};

fn acc(id: u64) -> AccountId {
    AccountId { id }
}

fn online_dao() -> Dao {
    let mut d = Dao::construct(String::from("Test DAO"), acc(1));
    d.join(acc(2)).unwrap();
    d.join(acc(3)).unwrap();
    d.proposal(acc(1), String::from("100000000")).unwrap();
    d.vote(acc(2), true).unwrap();
    d
}

#[test]
fn vote_limit_boundary() {
    let mut d = online_dao();
    assert_eq!(
        d.new_proposal(acc(1), String::from("update reward 2"), 19, true, 0),
        Err(DaoError::Online(OnlineError::TooSmall))
    );
    assert!(d
        .new_proposal(acc(1), String::from("update reward 2"), 20, true, 0)
        .is_ok());
}

#[test]
fn amount_boundary_at_half_the_limit() {
    let mut d = online_dao();
    assert_eq!(
        d.new_proposal(acc(1), String::from("update reward 2"), 20, true, 11),
        Err(DaoError::Online(OnlineError::AmountTooBig))
    );
    assert!(d
        .new_proposal(acc(1), String::from("update reward 2"), 20, true, 10)
        .is_ok());
}

#[test]
fn zero_pledge_rejected() {
    let mut d = online_dao();
    d.new_proposal(acc(1), String::from("update reward 2"), 20, true, 1)
        .unwrap();
    assert_eq!(
        d.vote_by_pledges(acc(2), true, 0),
        Err(DaoError::Online(OnlineError::NoZero))
    );
}

#[test]
fn fourth_founder_rejected_after_plan() {
    let mut d = Dao::construct(String::from("Test DAO"), acc(1));
    d.join(acc(2)).unwrap();
    d.join(acc(3)).unwrap();
    assert_eq!(d.status(), Status::Plan);
    assert_eq!(d.join(acc(4)), Err(DaoError::Entry(Error::UnOpenEntry)));
}

#[test]
fn plan_ops_gated_on_founders() {
    let mut d = Dao::construct(String::from("Test DAO"), acc(1));
    d.join(acc(2)).unwrap();
    d.join(acc(3)).unwrap();
    assert_eq!(
        d.proposal(acc(9), String::from("100")),
        Err(DaoError::Plan(PlanError::NotOriginal))
    );
    assert_eq!(
        d.vote(acc(9), true),
        Err(DaoError::Plan(PlanError::NotOriginal))
    );
    assert_eq!(
        d.vote(acc(1), true),
        Err(DaoError::Plan(PlanError::NoProposal))
    );
    d.proposal(acc(1), String::from("100")).unwrap();
    assert_eq!(
        d.proposal(acc(2), String::from("200")),
        Err(DaoError::Plan(PlanError::AlreadyHaveProposal))
    );
}

#[test]
fn plan_ops_gated_on_phase() {
    let mut d = Dao::construct(String::from("Test DAO"), acc(1));
    assert_eq!(
        d.proposal(acc(1), String::from("100")),
        Err(DaoError::Entry(Error::UnOpenEntry))
    );
    assert_eq!(d.vote(acc(1), true), Err(DaoError::Entry(Error::UnOpenEntry)));
    assert_eq!(
        d.transfer(acc(1), acc(2), 1),
        Err(DaoError::Entry(Error::UnOpenEntry))
    );
    assert_eq!(
        d.new_proposal(acc(1), String::from("update reward 2"), 20, true, 0),
        Err(DaoError::Entry(Error::UnOpenEntry))
    );
}

#[test]
fn invalid_proposal_text_rejected() {
    let mut d = online_dao();
    assert_eq!(
        d.new_proposal(acc(1), String::from("hello world"), 20, true, 0),
        Err(DaoError::Online(OnlineError::InvalidProposal))
    );
    assert_eq!(
        d.new_proposal(acc(1), String::from("   "), 20, true, 0),
        Err(DaoError::Online(OnlineError::InvalidProposal))
    );
}

#[test]
fn transfer_moves_and_conserves() {
    let mut d = online_dao();
    d.transfer(acc(1), acc(4), 7).unwrap();
    assert_eq!(d.balance_of(acc(1)), 29_999_993);
    assert_eq!(d.balance_of(acc(4)), 7);
    // an account without funds cannot send
    assert_eq!(
        d.transfer(acc(5), acc(1), 1),
        Err(DaoError::Online(OnlineError::InsufficientBalance))
    );
    // and a balance does not stretch
    assert_eq!(
        d.transfer(acc(4), acc(1), 8),
        Err(DaoError::Online(OnlineError::InsufficientBalance))
    );
    assert_eq!(d.balance_of(acc(4)), 7);
}

#[test]
fn zero_transfer_is_accepted_noop() {
    let mut d = online_dao();
    d.transfer(acc(1), acc(2), 0).unwrap();
    assert_eq!(d.balance_of(acc(1)), 30_000_000);
    assert_eq!(d.balance_of(acc(2)), 30_000_000);
}

#[test]
fn pledge_beyond_balance_rejected() {
    let mut d = online_dao();
    d.new_proposal(acc(1), String::from("update reward 2"), 100_000_000, true, 1)
        .unwrap();
    assert_eq!(
        d.vote_by_pledges(acc(2), true, 30_000_001),
        Err(DaoError::Online(OnlineError::InsufficientBalance))
    );
    assert_eq!(d.balance_of(acc(2)), 30_000_000);
}

#[test]
fn proposer_pledge_needs_funds() {
    let mut d = online_dao();
    // account 4 gets just over the permission gate, but cannot cover 10
    d.transfer(acc(1), acc(4), 2).unwrap();
    assert_eq!(
        d.new_proposal(acc(4), String::from("update reward 2"), 20, true, 10),
        Err(DaoError::Online(OnlineError::InsufficientBalance))
    );
    assert!(d.proposal_text().is_none());
}

#[test]
fn error_codes_follow_the_numeric_space() {
    assert_eq!(CreateError::AlreadyJoined.code(), 0);
    assert_eq!(PlanError::NotOriginal.code(), 0);
    assert_eq!(PlanError::AlreadyHaveProposal.code(), 1);
    assert_eq!(PlanError::NoProposal.code(), 2);
    assert_eq!(Error::UnOpenEntry.code(), 0);
    assert_eq!(OnlineError::InsufficientBalance.code(), 0);
    assert_eq!(OnlineError::HaveUnfinishedProposal.code(), 1);
    assert_eq!(OnlineError::InvalidProposal.code(), 2);
    assert_eq!(OnlineError::NoPermission.code(), 3);
    assert_eq!(OnlineError::NoZero.code(), 4);
    assert_eq!(OnlineError::TooSmall.code(), 5);
    assert_eq!(OnlineError::AmountTooBig.code(), 6);
    assert_eq!(OnlineError::SupplyExhausted.code(), 7);
}

#[test]
fn proposal_language_parses() {
    assert_eq!(
        parse_command("update reward 2"),
        Some(Command::UpdateReward { value: 2 })
    );
    assert_eq!(
        parse_command("mint 5 9"),
        Some(Command::Mint { account: acc(9), amount: 5 })
    );
    assert_eq!(
        parse_command("  mint   5   9  extra"),
        Some(Command::Mint { account: acc(9), amount: 5 })
    );
    assert_eq!(parse_command("update other 3"), Some(Command::Noop));
    assert_eq!(parse_command("update"), None);
    assert_eq!(parse_command("update reward"), None);
    assert_eq!(parse_command("update reward x"), None);
    assert_eq!(parse_command("mint"), None);
    assert_eq!(parse_command("mint 5"), None);
    assert_eq!(parse_command("mint x 9"), None);
    assert_eq!(parse_command("burn 5 9"), None);
    assert_eq!(parse_command(""), None);
}

#[test]
fn plan_text_parses_as_supply() {
    assert_eq!(plan_supply("100000000"), Some(100_000_000));
    assert_eq!(plan_supply("0"), Some(0));
    assert_eq!(plan_supply(""), None);
    assert_eq!(plan_supply("12x"), None);
    assert_eq!(plan_supply("-5"), None);
    assert_eq!(plan_supply("99999999999999999999999"), None);
}

#[test]
fn tokenizer_splits_on_ascii_whitespace() {
    assert_eq!(tokenize("a bb  ccc"), vec!["a".to_string(), "bb".to_string(), "ccc".to_string()]);
    assert_eq!(tokenize("  x\t y \n"), vec!["x".to_string(), "y".to_string()]);
    assert_eq!(tokenize(""), Vec::<String>::new());
    assert_eq!(tokenize("   "), Vec::<String>::new());
}

#[test]
fn any_funded_account_may_propose() {
    let mut d = online_dao();
    // the permission check looks at the balance only, not at founding
    d.transfer(acc(1), acc(4), 5).unwrap();
    assert!(d
        .new_proposal(acc(4), String::from("update reward 3"), 20, true, 1)
        .is_ok());
    assert_eq!(d.pool(), Some((1, 0)));
}
