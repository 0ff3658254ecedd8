//! Tests of the launch-phase flow: initiating a referendum, casting
//! quadratically priced votes, triggering the decision deposit, and
//! reconciling refunds after the referendum concludes.

use pallet_qv::{
    Deposit, DispatchError, EngineError, Error, Event, LedgerError, Origin, Pallet, TestEnv,
};

/// The balances, deposits and threshold the scenarios start from: the
/// launch deposit threshold is 1000 vote units, the engine's submission
/// deposit 1000 tokens, and registering an identity costs 10 tokens.
fn new_test_ext() -> TestEnv {
    let mut env = TestEnv::new(1000, 1000, 10);
    env.fund(1, 10);
    env.fund(2, 10);
    env.fund(3, 10);
    env.fund(10, 100);
    env.fund(20, 110);
    env.fund(30, 1010);
    env.fund(31, 250_010);
    env.fund(32, 250_010);
    env
}

#[test]
fn initiate_referendum_insufficient_balance() {
    let mut env = new_test_ext();
    let mut qv = Pallet::new();
    env.set_block_number(1);

    let who = Origin::Signed(1);
    assert_eq!(env.set_identity(who), Ok(()));

    let proposal: u64 = 1;

    assert_eq!(env.free_balance(1), 0);
    assert_eq!(
        qv.initiate_referendum(&mut env, who, proposal),
        Err(DispatchError::Ledger(LedgerError::InsufficientBalance))
    );
    // Nothing was recorded: record creation and submission success are
    // coupled.
    assert!(qv.depositor_record(0).is_empty());
    assert_eq!(env.referendum_count(), 0);
}

#[test]
fn initiate_referendum_happy_case() {
    let mut env = new_test_ext();
    let mut qv = Pallet::new();
    env.set_block_number(1);

    let who = Origin::Signed(30);
    assert_eq!(env.set_identity(who), Ok(()));

    let proposal: u64 = 1;

    assert_eq!(env.free_balance(30), 1000);
    assert_eq!(qv.initiate_referendum(&mut env, who, proposal), Ok(()));
    assert_eq!(env.free_balance(30), 0);

    assert_eq!(env.referendum_count(), 1);
    // The initiator stands in the record as a zero-vote placeholder.
    let record = qv.depositor_record(0);
    assert_eq!(record.len(), 1);
    assert_eq!(record[0].who, 30);
    assert_eq!(record[0].votes, 0);
}

#[test]
fn cast_single_launch_vote() {
    let mut env = new_test_ext();
    let mut qv = Pallet::new();
    // Events are not populated in the genesis block
    env.set_block_number(1);
    let referendum_initiator = Origin::Signed(30);
    assert_eq!(env.set_identity(referendum_initiator), Ok(()));
    let proposal: u64 = 1;
    assert_eq!(qv.initiate_referendum(&mut env, referendum_initiator, proposal), Ok(()));

    let launch_voter = Origin::Signed(20);
    assert_eq!(env.set_identity(launch_voter), Ok(()));
    assert_eq!(qv.cast_launch_votes(&mut env, launch_voter, 1, 0), Ok(()));

    assert_eq!(
        qv.last_event(),
        Some(Event::LaunchVotesCast { number_of_votes: 1, index: 0 })
    );
}

#[test]
fn cast_zero_votes() {
    let mut env = new_test_ext();
    let mut qv = Pallet::new();
    let referendum_initiator = Origin::Signed(30);
    assert_eq!(env.set_identity(referendum_initiator), Ok(()));
    let proposal: u64 = 1;
    assert_eq!(qv.initiate_referendum(&mut env, referendum_initiator, proposal), Ok(()));

    let launch_voter = Origin::Signed(20);
    assert_eq!(env.set_identity(launch_voter), Ok(()));
    assert_eq!(env.free_balance(20), 100);
    assert_eq!(
        qv.cast_launch_votes(&mut env, launch_voter, 0, 0),
        Err(DispatchError::Module(Error::ZeroVote))
    );
    assert_eq!(env.free_balance(20), 100);
}

#[test]
fn cast_more_launch_votes_than_allowed() {
    let mut env = new_test_ext();
    let mut qv = Pallet::new();
    let referendum_initiator = Origin::Signed(30);
    assert_eq!(env.set_identity(referendum_initiator), Ok(()));
    let proposal: u64 = 1;
    assert_eq!(qv.initiate_referendum(&mut env, referendum_initiator, proposal), Ok(()));

    let launch_voter = Origin::Signed(20);
    assert_eq!(env.set_identity(launch_voter), Ok(()));
    assert_eq!(env.free_balance(20), 100);
    assert_eq!(
        qv.cast_launch_votes(&mut env, launch_voter, 11, 0),
        Err(DispatchError::Ledger(LedgerError::InsufficientBalance))
    ); // 11*11 == 121 and 121 > 100
    assert_eq!(env.free_balance(20), 100);
}

#[test]
fn try_cast_vote_no_identity() {
    let mut env = new_test_ext();
    let mut qv = Pallet::new();
    let referendum_initiator = Origin::Signed(30);
    assert_eq!(env.set_identity(referendum_initiator), Ok(()));
    let proposal: u64 = 1;
    assert_eq!(qv.initiate_referendum(&mut env, referendum_initiator, proposal), Ok(()));

    let launch_voter = Origin::Signed(20);
    assert_eq!(
        qv.cast_launch_votes(&mut env, launch_voter, 1, 0),
        Err(DispatchError::Module(Error::NoIdentity))
    );
    // Nothing was reserved and nothing recorded for the refused voter.
    assert_eq!(env.free_balance(20), 110);
    assert_eq!(env.reserved_balance(20), 0);
    assert_eq!(qv.depositor_record(0).len(), 1);
}

#[test]
fn try_cast_vote_not_ongoing() {
    let mut env = new_test_ext();
    let mut qv = Pallet::new();
    let launch_voter = Origin::Signed(20);
    assert_eq!(env.set_identity(launch_voter), Ok(()));
    assert_eq!(
        qv.cast_launch_votes(&mut env, launch_voter, 1, 0),
        Err(DispatchError::Engine(EngineError::NotOngoing))
    );
}

#[test]
fn cast_launch_votes_twice() {
    let mut env = new_test_ext();
    let mut qv = Pallet::new();
    let referendum_initiator = Origin::Signed(30);
    assert_eq!(env.set_identity(referendum_initiator), Ok(()));
    let proposal: u64 = 1;
    assert_eq!(qv.initiate_referendum(&mut env, referendum_initiator, proposal), Ok(()));

    let launch_voter = Origin::Signed(31);
    assert_eq!(env.set_identity(launch_voter), Ok(()));

    assert_eq!(qv.cast_launch_votes(&mut env, launch_voter, 5, 0), Ok(()));
    assert_eq!(
        qv.cast_launch_votes(&mut env, launch_voter, 1, 0),
        Err(DispatchError::Module(Error::AlreadyVoted))
    );
}

#[test]
fn initiator_tries_to_cast_launch_votes() {
    let mut env = new_test_ext();
    let mut qv = Pallet::new();
    let referendum_initiator = Origin::Signed(30);
    assert_eq!(env.set_identity(referendum_initiator), Ok(()));
    let proposal: u64 = 1;
    assert_eq!(qv.initiate_referendum(&mut env, referendum_initiator, proposal), Ok(()));

    assert_eq!(
        qv.cast_launch_votes(&mut env, referendum_initiator, 1, 0),
        Err(DispatchError::Module(Error::AlreadyVoted))
    );
}

#[test]
fn cast_launch_votes_until_full_deposit_triggered_and_beyond() {
    let mut env = new_test_ext();
    let mut qv = Pallet::new();
    env.set_block_number(1);
    let referendum_initiator = Origin::Signed(30);
    assert_eq!(env.set_identity(referendum_initiator), Ok(()));
    let proposal: u64 = 1;
    assert_eq!(qv.initiate_referendum(&mut env, referendum_initiator, proposal), Ok(()));

    let launch_voter_0 = Origin::Signed(31);
    assert_eq!(env.set_identity(launch_voter_0), Ok(()));
    let launch_voter_1 = Origin::Signed(32);
    assert_eq!(env.set_identity(launch_voter_1), Ok(()));

    assert_eq!(env.free_balance(31), 250_000);
    assert_eq!(qv.cast_launch_votes(&mut env, launch_voter_0, 500, 0), Ok(())); // Cast 500 votes
    assert_eq!(env.free_balance(31), 0);

    assert_eq!(env.free_balance(32), 250_000);
    assert_eq!(qv.cast_launch_votes(&mut env, launch_voter_1, 500, 0), Ok(())); // Cast 500 votes
    assert_eq!(env.free_balance(32), 0);
    // The triggering cast placed the decision deposit inside the engine
    assert_eq!(env.decision_deposit(0), Some(Deposit { who: 32, amount: 250_000 }));
    // ... and emitted no LaunchVotesCast notification of its own: the last
    // event is still the non-triggering cast's.
    assert_eq!(
        qv.last_event(),
        Some(Event::LaunchVotesCast { number_of_votes: 500, index: 0 })
    );

    let launch_voter_2 = Origin::Signed(20);
    assert_eq!(env.set_identity(launch_voter_2), Ok(()));

    assert_eq!(
        qv.cast_launch_votes(&mut env, launch_voter_2, 1, 0),
        Err(DispatchError::Engine(EngineError::HasDeposit))
    );
}

#[test]
fn launch_phase_can_get_cancelled_by_root_leads_to_slash() {
    let mut env = new_test_ext();
    let mut qv = Pallet::new();
    // Events are not populated in the genesis block
    env.set_block_number(1);
    let initiator_num = 30;
    let referendum_initiator = Origin::Signed(initiator_num);
    assert_eq!(env.set_identity(referendum_initiator), Ok(()));
    let proposal: u64 = 1;
    assert_eq!(qv.initiate_referendum(&mut env, referendum_initiator, proposal), Ok(()));

    let voter_num = 20;
    let launch_voter = Origin::Signed(voter_num);
    assert_eq!(env.set_identity(launch_voter), Ok(()));
    assert_eq!(qv.cast_launch_votes(&mut env, launch_voter, 10, 0), Ok(()));

    // Both actors have zero balances
    assert_eq!(env.free_balance(initiator_num), 0);
    assert_eq!(env.free_balance(voter_num), 0);

    assert_eq!(
        qv.refund_launch_votes(&mut env, Origin::Root, 0),
        Err(DispatchError::Module(Error::StillOngoing))
    );

    assert_eq!(env.cancel(Origin::Root, 0), Ok(()));

    assert_eq!(
        qv.refund_launch_votes(&mut env, Origin::Root, 0),
        Err(DispatchError::Engine(EngineError::NoDeposit))
    );

    assert_eq!(env.free_balance(initiator_num), 0);
    assert_eq!(env.free_balance(voter_num), 0);
}

#[test]
fn refund_needs_root() {
    let mut env = new_test_ext();
    let mut qv = Pallet::new();
    assert_eq!(
        qv.refund_launch_votes(&mut env, Origin::Signed(30), 0),
        Err(DispatchError::BadOrigin)
    );
}

#[test]
fn refund_after_trigger_reconciles_all_backers() {
    let mut env = new_test_ext();
    let mut qv = Pallet::new();
    env.set_block_number(1);
    let initiator = Origin::Signed(30);
    assert_eq!(env.set_identity(initiator), Ok(()));
    assert_eq!(qv.initiate_referendum(&mut env, initiator, 1), Ok(()));

    let backer = Origin::Signed(31);
    assert_eq!(env.set_identity(backer), Ok(()));
    let trigger = Origin::Signed(32);
    assert_eq!(env.set_identity(trigger), Ok(()));

    assert_eq!(qv.cast_launch_votes(&mut env, backer, 500, 0), Ok(()));
    assert_eq!(qv.cast_launch_votes(&mut env, trigger, 500, 0), Ok(()));
    assert_eq!(env.free_balance(31), 0);
    assert_eq!(env.free_balance(32), 0);

    // The launch concludes (here: cancelled by root) and root reconciles.
    assert_eq!(env.cancel(Origin::Root, 0), Ok(()));
    let events_before = qv.event_log().len();
    assert_eq!(qv.refund_launch_votes(&mut env, Origin::Root, 0), Ok(()));

    // The triggering depositor got the engine's deposit refund; the
    // non-triggering backer was unreserved its quadratic cost; the
    // initiator's zero placeholder released nothing. The identity deposits
    // (10 each) stay reserved, as does the initiator's submission deposit,
    // both refunded by their own services, not by this reconciliation.
    assert_eq!(env.free_balance(31), 250_000);
    assert_eq!(env.free_balance(32), 250_000);
    assert_eq!(env.reserved_balance(31), 10);
    assert_eq!(env.reserved_balance(32), 10);
    assert_eq!(env.free_balance(30), 0);
    assert_eq!(env.decision_deposit(0), None);

    // One AmountUnreserved per reconciled entry, in record order: the
    // initiator's zero placeholder, then the backer's cost.
    let events = qv.event_log();
    assert_eq!(events.len(), events_before + 2);
    assert_eq!(events[events_before], Event::AmountUnreserved(0));
    assert_eq!(events[events_before + 1], Event::AmountUnreserved(250_000));

    // The record is cleared whole, so a second refund reconciles nothing
    // and releases nothing twice.
    assert!(qv.depositor_record(0).is_empty());
    assert_eq!(qv.refund_launch_votes(&mut env, Origin::Root, 0), Ok(()));
    assert_eq!(env.free_balance(31), 250_000);
    assert_eq!(env.reserved_balance(31), 10);
}

#[test]
fn cast_overflowing_cost_fails_closed() {
    let mut env = new_test_ext();
    let mut qv = Pallet::new();
    let initiator = Origin::Signed(30);
    assert_eq!(env.set_identity(initiator), Ok(()));
    assert_eq!(qv.initiate_referendum(&mut env, initiator, 1), Ok(()));

    // 2^32 votes square to 2^64, which leaves the balance type: the cast
    // fails closed instead of wrapping.
    let voter = Origin::Signed(20);
    assert_eq!(env.set_identity(voter), Ok(()));
    assert_eq!(
        qv.cast_launch_votes(&mut env, voter, 4_294_967_296, 0),
        Err(DispatchError::Module(Error::Overflow))
    );
    assert_eq!(env.free_balance(20), 100);
    assert_eq!(qv.depositor_record(0).len(), 1);
}

#[test]
fn aggregate_equals_sum_of_cast_votes() {
    let mut env = new_test_ext();
    let mut qv = Pallet::new();
    let initiator = Origin::Signed(30);
    assert_eq!(env.set_identity(initiator), Ok(()));
    assert_eq!(qv.initiate_referendum(&mut env, initiator, 1), Ok(()));

    let a = Origin::Signed(10);
    assert_eq!(env.set_identity(a), Ok(()));
    let b = Origin::Signed(20);
    assert_eq!(env.set_identity(b), Ok(()));

    assert_eq!(qv.cast_launch_votes(&mut env, a, 3, 0), Ok(())); // cost 9
    assert_eq!(qv.cast_launch_votes(&mut env, b, 4, 0), Ok(())); // cost 16

    // The record holds the initiator's placeholder and both casts, in
    // order; the aggregate is the sum of the cast vote counts.
    let record = qv.depositor_record(0);
    assert_eq!(record.len(), 3);
    assert_eq!(record[0].votes, 0);
    assert_eq!(record[1].votes, 3);
    assert_eq!(record[2].votes, 4);
    let total: u64 = record.iter().map(|c| c.votes).sum();
    assert_eq!(total, 7);

    // No account appears twice in the record.
    for i in 0..record.len() {
        for j in 0..record.len() {
            if i != j {
                assert_ne!(record[i].who, record[j].who);
            }
        }
    }
}
