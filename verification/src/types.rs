//! Plain data carried through the coordinator: call origins, errors,
//! notifications and the per-referendum contribution records.

use vstd::prelude::*;

verus! {

/// The provenance of a call: the dispatch layer authenticates a signature and
/// hands the coordinator either the signed account, the administrative root
/// authority, or nothing.
#[derive(Clone, Copy, PartialEq, Eq, Debug)]
pub enum Origin {
    /// Administrative (root) authority.
    Root,
    /// A call signed by the given account.
    Signed(u64),
    /// An unauthenticated call.
    Unsigned,
}

/// Errors raised by the coordinator itself.
#[derive(Clone, Copy, PartialEq, Eq, Debug)]
pub enum Error {
    /// Can not cast zero votes.
    ZeroVote,
    /// The account has no verified identity.
    NoIdentity,
    /// The proposal already exists.
    DuplicateProposal,
    /// The proposal has no valid track.
    NoTrack,
    /// The account is considered to already have voted.
    AlreadyVoted,
    /// The referendum is still ongoing.
    StillOngoing,
    /// Computing the quadratic cost, or an aggregate, left the balance type.
    Overflow,
}

/// Errors raised by the ledger.
#[derive(Clone, Copy, PartialEq, Eq, Debug)]
pub enum LedgerError {
    /// The free balance cannot cover the requested hold.
    InsufficientBalance,
}

/// Errors raised by the referendum engine.
#[derive(Clone, Copy, PartialEq, Eq, Debug)]
pub enum EngineError {
    /// The referendum is not in an active, launchable state.
    NotOngoing,
    /// The referendum's decision deposit has already been placed.
    HasDeposit,
    /// The referendum has no decision deposit to refund.
    NoDeposit,
    /// The engine cannot accept another referendum.
    Exhausted,
}

/// Any failure an entry point can surface: the coordinator's own errors and
/// those propagated verbatim from the collaborators.
#[derive(Clone, Copy, PartialEq, Eq, Debug)]
pub enum DispatchError {
    /// The caller's origin carries the wrong authority.
    BadOrigin,
    /// An error of the coordinator itself.
    Module(Error),
    /// An error propagated from the ledger.
    Ledger(LedgerError),
    /// An error propagated from the referendum engine.
    Engine(EngineError),
}

/// Notifications appended, in order, to the coordinator's event log.
#[derive(Clone, Copy, PartialEq, Eq, Debug)]
pub enum Event {
    /// An amount was reserved. The account is withheld for voting anonymity.
    AmountReserved(u64),
    /// An amount was unreserved.
    AmountUnreserved(u64),
    /// Somebody cast launch votes for a referendum.
    LaunchVotesCast { number_of_votes: u64, index: u32 },
    /// A launch phase succeeded and the referendum moves to its voting phase.
    LaunchPhaseSuccess { index: u32 },
}

/// One account's vote count for one referendum launch. The tokens it locks
/// are the square of `votes`.
#[derive(Clone, Copy, PartialEq, Eq, Debug)]
pub struct Contribution {
    pub who: u64,
    pub votes: u64,
}

/// A decision deposit held by the referendum engine.
#[derive(Clone, Copy, PartialEq, Eq, Debug)]
pub struct Deposit {
    pub who: u64,
    pub amount: u64,
}

/// The tokens that `votes` launch votes lock: the square of the vote count.
pub open spec fn vote_cost(votes: u64) -> int {
    votes * votes
}

/// Extracts the signed account, or refuses the origin.
pub fn ensure_signed(origin: Origin) -> (r: Result<u64, DispatchError>)
    ensures
        r == spec_ensure_signed(origin),
{
    match origin {
        Origin::Signed(who) => Ok(who),
        _ => Err(DispatchError::BadOrigin),
    }
}

/// What [`ensure_signed`] returns.
pub open spec fn spec_ensure_signed(origin: Origin) -> Result<u64, DispatchError> {
    match origin {
        Origin::Signed(who) => Ok(who),
        _ => Err(DispatchError::BadOrigin),
    }
}

/// Accepts only the root origin.
pub fn ensure_root(origin: Origin) -> (r: Result<(), DispatchError>)
    ensures
        r is Ok <==> origin is Root,
        r is Err ==> r == Err::<(), DispatchError>(DispatchError::BadOrigin),
{
    match origin {
        Origin::Root => Ok(()),
        _ => Err(DispatchError::BadOrigin),
    }
}

} // verus!
