//! Laws of the coordinator, stated over the same spec functions its entry
//! points' contracts use.
//!
//! Each entry point's `ensures` ties its returned value to a result spec
//! function of the pre-state ([`spec_cast_result`], [`spec_reserve_result`],
//! [`spec_refund_result`]) and pins its effects; the lemmas here state what
//! those results are on whole families of inputs.

use vstd::prelude::*;

use crate::config::Config;
use crate::pallet::{
    Pallet, aggregate, distinct_accounts, has_account, is_triggering, lemma_aggregate_concat,
    lemma_seq_record_at, seq_has_record, spec_cast_result, spec_refund_result,
    spec_reserve_result,
};
use crate::types::{Contribution, DispatchError, Error, LedgerError, Origin, vote_cost};

verus! {

/// An account without identity can reserve nothing: its self-service
/// reserve fails with the identity error, whatever the amount. By
/// `reserve_an_amount_of_token`'s contract a failed reserve changes no
/// balance and emits nothing.
pub proof fn lemma_reserve_requires_identity<C: Config>(env: &C, who: u64, amount: u64)
    requires
        !env.spec_has_identity(who),
    ensures
        spec_reserve_result(env, Origin::Signed(who), amount) == Err::<(), DispatchError>(
            DispatchError::Module(Error::NoIdentity),
        ),
{
}

/// An account without identity cannot cast non-triggering launch votes:
/// the cast fails with the identity error, surfaced through the
/// identity-gated reserve. By `cast_launch_votes`' contract a failed cast
/// reserves nothing and leaves the record unchanged. A *triggering* cast
/// reserves through the engine's deposit placement, which does not consult
/// the identity register, so the law holds of the casts below the
/// threshold; the other preconditions rule out the checks that run first
/// (zero votes, a concluded referendum, a duplicate voter, an overflowing
/// aggregate or cost).
pub proof fn lemma_cast_requires_identity<C: Config>(
    env: &C,
    p: Pallet,
    who: u64,
    votes: u64,
    index: u32,
)
    requires
        !env.spec_has_identity(who),
        votes > 0,
        env.spec_is_ongoing(index),
        !has_account(p.spec_record(index), who),
        aggregate(p.spec_record(index)) <= u64::MAX,
        vote_cost(votes) <= u64::MAX,
        aggregate(p.spec_record(index)) + votes < env.spec_threshold(),
    ensures
        spec_cast_result(env, p, Origin::Signed(who), votes, index) == Err::<(), DispatchError>(
            DispatchError::Module(Error::NoIdentity),
        ),
{
}

/// Whenever the quadratic cost exceeds the caller's free balance, the cast
/// fails with the ledger's resource error — on either path: below the
/// threshold the self-reserve refuses it, at the threshold the engine's
/// deposit placement does. By `cast_launch_votes`' contract the failed
/// cast leaves the record, the event log and every balance unchanged. The
/// preconditions rule out the checks that run first (zero votes, a
/// concluded referendum, a duplicate voter, an overflowing aggregate or
/// cost, a deposit already placed) and, below the threshold, a missing
/// identity, whose error takes precedence over the ledger's.
pub proof fn lemma_cast_insufficient_balance<C: Config>(
    env: &C,
    p: Pallet,
    who: u64,
    votes: u64,
    index: u32,
)
    requires
        env.spec_free(who) < vote_cost(votes),
        votes > 0,
        env.spec_is_ongoing(index),
        !has_account(p.spec_record(index), who),
        aggregate(p.spec_record(index)) <= u64::MAX,
        vote_cost(votes) <= u64::MAX,
        env.spec_has_identity(who),
        env.spec_deposit(index) is None,
    ensures
        spec_cast_result(env, p, Origin::Signed(who), votes, index) == Err::<(), DispatchError>(
            DispatchError::Ledger(LedgerError::InsufficientBalance),
        ),
{
}

/// No account appears twice in one referendum's depositor record: every
/// entry point keeps the coordinator well-formed, and well-formedness
/// makes every record's accounts distinct — so the invariant holds after
/// any sequence of successful casts.
pub proof fn lemma_record_accounts_distinct(p: Pallet, index: u32)
    requires
        p.wf(),
    ensures
        distinct_accounts(p.spec_record(index)),
{
    if seq_has_record(p.depositors@, index) {
        let k = choose|k: int|
            0 <= k < p.depositors@.len() && (#[trigger] p.depositors@[k]).index == index;
        lemma_seq_record_at(p.depositors@, k);
    }
}

/// After successful non-triggering casts on a freshly initiated record the
/// aggregate equals the sum of the cast vote counts: the initiator's
/// zero-vote placeholder contributes nothing, and each successful cast
/// appends exactly its own contribution (by `cast_launch_votes`'
/// contract), so the totals add up contribution by contribution.
pub proof fn lemma_aggregate_after_casts(initiator: Contribution, casts: Seq<Contribution>)
    requires
        initiator.votes == 0,
    ensures
        aggregate(seq![initiator] + casts) == aggregate(casts),
{
    lemma_aggregate_concat(seq![initiator], casts);
    assert(seq![initiator].drop_last() =~= Seq::<Contribution>::empty());
    assert(seq![initiator].last() == initiator);
    assert(aggregate(Seq::<Contribution>::empty()) == 0);
    assert(aggregate(seq![initiator]) == 0);
}

/// Crossing the threshold: when the aggregate stands below the threshold
/// and the cast's votes close the gap, the cast is the triggering one. By
/// `cast_launch_votes`' contract exactly the triggering casts reserve
/// through the engine's deposit placement instead of the ledger adapter,
/// and emit no `LaunchVotesCast` notification.
pub proof fn lemma_threshold_crossing<C: Config>(env: &C, p: Pallet, votes: u64, index: u32)
    requires
        aggregate(p.spec_record(index)) < env.spec_threshold(),
        aggregate(p.spec_record(index)) + votes >= env.spec_threshold(),
    ensures
        is_triggering(env, p, votes, index),
{
}

/// A zero-vote cast always fails with `ZeroVote`, whatever the caller's
/// identity, balances, record or the referendum's state.
pub proof fn lemma_zero_vote_always_fails<C: Config>(
    env: &C,
    p: Pallet,
    origin: Origin,
    index: u32,
)
    ensures
        spec_cast_result(env, p, origin, 0, index) == Err::<(), DispatchError>(
            DispatchError::Module(Error::ZeroVote),
        ),
{
}

/// Refunding before the referendum concludes always fails with
/// `StillOngoing`, however populated the record: by
/// `refund_launch_votes`' contract the failed refund releases nothing and
/// removes nothing.
pub proof fn lemma_refund_still_ongoing<C: Config>(env: &C, p: Pallet, index: u32)
    requires
        env.spec_is_ongoing(index),
    ensures
        spec_refund_result(env, p, Origin::Root, index) == Err::<(), DispatchError>(
            DispatchError::Module(Error::StillOngoing),
        ),
{
}

} // verus!
