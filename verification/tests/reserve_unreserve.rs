//! Tests of the identity-gated reserve and unreserve entry points, run
//! against the verified model environment.

use pallet_qv::{DispatchError, Error, Event, LedgerError, Origin, Pallet, TestEnv};

const SMALL_AMOUNT: u64 = 1;

/// The balances, deposits and threshold the scenarios start from: the
/// launch deposit threshold is 1000 vote units, the engine's submission
/// deposit 1000 tokens, and registering an identity costs 10 tokens.
fn new_test_ext() -> TestEnv {
    let mut env = TestEnv::new(1000, 1000, 10);
    env.fund(1, 10);
    env.fund(2, 10);
    env.fund(3, 10);
    env.fund(10, 100);
    env.fund(20, 110);
    env.fund(30, 1010);
    env.fund(31, 250_010);
    env.fund(32, 250_010);
    env
}

#[test]
fn try_reserve_bad_origin() {
    let mut env = new_test_ext();
    let mut qv = Pallet::new();
    // Unsigned origin
    assert_eq!(
        qv.reserve_an_amount_of_token(&mut env, Origin::Unsigned, SMALL_AMOUNT),
        Err(DispatchError::BadOrigin)
    );
}

#[test]
fn try_reserve_no_identity() {
    let mut env = new_test_ext();
    let mut qv = Pallet::new();
    // User has no registered identity
    assert_eq!(
        qv.reserve_an_amount_of_token(&mut env, Origin::Signed(1), SMALL_AMOUNT),
        Err(DispatchError::Module(Error::NoIdentity))
    );
}

#[test]
fn try_reserve_insufficient_balance() {
    let mut env = new_test_ext();
    let mut qv = Pallet::new();
    let who = Origin::Signed(1);

    assert_eq!(env.set_identity(who), Ok(()));

    assert_eq!(
        qv.reserve_an_amount_of_token(&mut env, who, SMALL_AMOUNT),
        Err(DispatchError::Ledger(LedgerError::InsufficientBalance))
    );
}

#[test]
fn try_successful_zero_reserve() {
    let mut env = new_test_ext();
    let mut qv = Pallet::new();
    let who = Origin::Signed(1);

    assert_eq!(env.set_identity(who), Ok(()));

    assert_eq!(qv.reserve_an_amount_of_token(&mut env, who, 0), Ok(()));
}

#[test]
fn try_successful_nonzero_reserve() {
    let mut env = new_test_ext();
    let mut qv = Pallet::new();
    env.set_block_number(1);
    let who = Origin::Signed(10);

    assert_eq!(env.set_identity(who), Ok(()));

    assert_eq!(qv.reserve_an_amount_of_token(&mut env, who, SMALL_AMOUNT), Ok(()));

    // Checks that the correct event was emitted
    assert_eq!(qv.last_event(), Some(Event::AmountReserved(SMALL_AMOUNT)));
}

#[test]
fn successive_reserves_until_out_of_funds() {
    let mut env = new_test_ext();
    let mut qv = Pallet::new();
    let who = Origin::Signed(10);

    assert_eq!(env.set_identity(who), Ok(()));

    assert_eq!(qv.reserve_an_amount_of_token(&mut env, who, 80), Ok(()));
    assert_eq!(qv.reserve_an_amount_of_token(&mut env, who, 10), Ok(()));
    assert_eq!(
        qv.reserve_an_amount_of_token(&mut env, who, 10),
        Err(DispatchError::Ledger(LedgerError::InsufficientBalance))
    );
}

#[test]
fn unreserve_then_reserve_again() {
    let mut env = new_test_ext();
    let mut qv = Pallet::new();
    env.set_block_number(1);
    let who = Origin::Signed(10);

    assert_eq!(env.set_identity(who), Ok(()));

    assert_eq!(qv.reserve_an_amount_of_token(&mut env, who, 90), Ok(()));
    assert_eq!(
        qv.reserve_an_amount_of_token(&mut env, who, 10),
        Err(DispatchError::Ledger(LedgerError::InsufficientBalance))
    );
    const UNRESERVE_AMOUNT: u64 = 11;
    assert_eq!(
        qv.unreserve_an_amount_of_token(&mut env, Origin::Root, 10, UNRESERVE_AMOUNT),
        Ok(())
    );

    // Checks that the correct event was emitted
    assert_eq!(qv.last_event(), Some(Event::AmountUnreserved(UNRESERVE_AMOUNT)));

    assert_eq!(qv.reserve_an_amount_of_token(&mut env, who, 10), Ok(()));
    assert_eq!(
        qv.reserve_an_amount_of_token(&mut env, who, 10),
        Err(DispatchError::Ledger(LedgerError::InsufficientBalance))
    );
}

#[test]
fn unreserve_needs_root() {
    let mut env = new_test_ext();
    let mut qv = Pallet::new();
    let who = Origin::Signed(10);
    assert_eq!(env.set_identity(who), Ok(()));
    assert_eq!(qv.reserve_an_amount_of_token(&mut env, who, 50), Ok(()));

    // Unreserving is not self-service: only root may trigger it.
    assert_eq!(
        qv.unreserve_an_amount_of_token(&mut env, who, 10, 50),
        Err(DispatchError::BadOrigin)
    );
    assert_eq!(env.reserved_balance(10), 60);
}

#[test]
fn unreserve_needs_target_identity() {
    let mut env = new_test_ext();
    let mut qv = Pallet::new();

    // Account 20 never registered an identity.
    assert_eq!(
        qv.unreserve_an_amount_of_token(&mut env, Origin::Root, 20, 5),
        Err(DispatchError::Module(Error::NoIdentity))
    );
    assert_eq!(env.free_balance(20), 110);
}

#[test]
fn reserve_without_identity_moves_nothing() {
    let mut env = new_test_ext();
    let mut qv = Pallet::new();

    // An unidentified account reserves nothing, whatever the amount.
    assert_eq!(
        qv.reserve_an_amount_of_token(&mut env, Origin::Signed(10), 0),
        Err(DispatchError::Module(Error::NoIdentity))
    );
    assert_eq!(
        qv.reserve_an_amount_of_token(&mut env, Origin::Signed(10), 100),
        Err(DispatchError::Module(Error::NoIdentity))
    );
    assert_eq!(env.free_balance(10), 100);
    assert_eq!(env.reserved_balance(10), 0);
    assert_eq!(qv.event_log().len(), 0);
}
