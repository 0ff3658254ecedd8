//! The coordinator's view of its collaborators.
//!
//! The ledger, the identity service and the referendum engine are injected
//! through one capability trait, [`Config`]. Its spec functions are the
//! observables the coordinator may rely on; each executable method carries
//! the operation contract the coordinator's own proofs build on, and every
//! implementation is held to those contracts by the verifier.

use vstd::prelude::*;

use crate::types::{Deposit, DispatchError, EngineError, LedgerError};

verus! {

/// Services the coordinator is constructed over: a reservable ledger, an
/// identity register, and the referendum engine that owns the referendum
/// lifecycle. The coordinator never observes the collaborators except
/// through these operations and the spec-level observables below.
pub trait Config: Sized {
    /// The implementation's internal consistency; every operation keeps it.
    spec fn wf(&self) -> bool;

    /// The launch deposit: the vote-count threshold the aggregate must reach
    /// to trigger the real decision deposit.
    spec fn spec_threshold(&self) -> u64;

    /// The current block of the logical clock.
    spec fn spec_now(&self) -> u64;

    /// Whether the account carries a verified display-name identity.
    spec fn spec_has_identity(&self, who: u64) -> bool;

    /// The account's free balance.
    spec fn spec_free(&self, who: u64) -> u64;

    /// The account's reserved (held) balance.
    spec fn spec_reserved(&self, who: u64) -> u64;

    /// Whether the referendum is in an active, launchable state.
    spec fn spec_is_ongoing(&self, index: u32) -> bool;

    /// The decision deposit held by the engine for the referendum, if any.
    spec fn spec_deposit(&self, index: u32) -> Option<Deposit>;

    /// How many referenda the engine has ever accepted; its index counter is
    /// monotonic, so every index it has issued lies below this count.
    spec fn spec_referendum_count(&self) -> u32;

    /// An ongoing referendum's index was issued by the engine, so it lies
    /// below the engine's monotonic counter.
    proof fn lemma_ongoing_below_count(&self, index: u32)
        requires
            self.wf(),
            self.spec_is_ongoing(index),
        ensures
            index < self.spec_referendum_count(),
    ;

    /// The configured launch deposit threshold.
    fn launch_deposit(&self) -> (r: u64)
        ensures
            r == self.spec_threshold(),
    ;

    /// The current block number.
    fn block_number(&self) -> (r: u64)
        ensures
            r == self.spec_now(),
    ;

    /// Asks the identity service whether the account's display-name identity
    /// field is verified.
    fn has_identity(&self, who: u64) -> (r: bool)
        requires
            self.wf(),
        ensures
            r == self.spec_has_identity(who),
    ;

    /// Asks the engine whether the referendum is ongoing.
    fn is_ongoing(&self, index: u32) -> (r: bool)
        ensures
            r == self.spec_is_ongoing(index),
    ;

    /// Places a hold of `amount` on the account's free balance. Fails, with
    /// nothing held, exactly when the free balance cannot cover it. No other
    /// account, no identity and no referendum is touched.
    fn reserve(&mut self, who: u64, amount: u64) -> (r: Result<(), DispatchError>)
        requires
            old(self).wf(),
        ensures
            final(self).wf(),
            r is Ok <==> amount <= old(self).spec_free(who),
            r is Err ==> r == Err::<(), DispatchError>(DispatchError::Ledger(
                LedgerError::InsufficientBalance,
            )) && final(self).spec_free(who) == old(self).spec_free(who) && final(self).spec_reserved(who) == old(self).spec_reserved(who),
            r is Ok ==> final(self).spec_free(who) == old(self).spec_free(who) - amount && final(self).spec_reserved(who) == old(self).spec_reserved(who) + amount,
            forall|w: u64| w != who ==> #[trigger] final(self).spec_free(w) == old(self).spec_free(
                w,
            ),
            forall|w: u64|
                w != who ==> #[trigger] final(self).spec_reserved(w) == old(self).spec_reserved(w),
            forall|w: u64|
                #[trigger] final(self).spec_has_identity(w) == old(self).spec_has_identity(w),
            forall|i: u32| #[trigger] final(self).spec_is_ongoing(i) == old(self).spec_is_ongoing(i),
            forall|i: u32| #[trigger] final(self).spec_deposit(i) == old(self).spec_deposit(i),
            final(self).spec_referendum_count() == old(self).spec_referendum_count(),
            final(self).spec_threshold() == old(self).spec_threshold(),
            final(self).spec_now() == old(self).spec_now(),
    ;

    /// Releases up to `amount` from the account's hold: the maximum
    /// available, never failing. Returns what was actually released. No
    /// other account, no identity and no referendum is touched.
    fn unreserve(&mut self, who: u64, amount: u64) -> (released: u64)
        requires
            old(self).wf(),
        ensures
            final(self).wf(),
            released == if amount <= old(self).spec_reserved(who) {
                amount as int
            } else {
                old(self).spec_reserved(who) as int
            },
            final(self).spec_free(who) == old(self).spec_free(who) + released,
            final(self).spec_reserved(who) == old(self).spec_reserved(who) - released,
            forall|w: u64| w != who ==> #[trigger] final(self).spec_free(w) == old(self).spec_free(
                w,
            ),
            forall|w: u64|
                w != who ==> #[trigger] final(self).spec_reserved(w) == old(self).spec_reserved(w),
            forall|w: u64|
                #[trigger] final(self).spec_has_identity(w) == old(self).spec_has_identity(w),
            forall|i: u32| #[trigger] final(self).spec_is_ongoing(i) == old(self).spec_is_ongoing(i),
            forall|i: u32| #[trigger] final(self).spec_deposit(i) == old(self).spec_deposit(i),
            final(self).spec_referendum_count() == old(self).spec_referendum_count(),
            final(self).spec_threshold() == old(self).spec_threshold(),
            final(self).spec_now() == old(self).spec_now(),
    ;

    /// Submits a proposal to the engine under an administrative origin, with
    /// the given enactment deadline, funding the submission deposit from
    /// `who`. On success the engine returns the freshly issued index: a new
    /// ongoing referendum, its decision deposit not yet placed, every other
    /// referendum untouched, and at most the submitter's balance moved (its
    /// total conserved). On failure nothing is changed. Whether a submission
    /// is accepted is the engine's decision (it may, for instance, refuse an
    /// underfunded submitter).
    fn submit(&mut self, who: u64, proposal: u64, deadline: u64) -> (r: Result<
        u32,
        DispatchError,
    >)
        requires
            old(self).wf(),
        ensures
            final(self).wf(),
            r matches Ok(index) ==> {
                &&& index == old(self).spec_referendum_count()
                &&& final(self).spec_referendum_count() == index + 1
                &&& !old(self).spec_is_ongoing(index)
                &&& old(self).spec_deposit(index) is None
                &&& final(self).spec_is_ongoing(index)
                &&& final(self).spec_deposit(index) is None
                &&& forall|i: u32|
                    i != index ==> #[trigger] final(self).spec_is_ongoing(i) == old(
                        self,
                    ).spec_is_ongoing(i)
                &&& forall|i: u32|
                    i != index ==> #[trigger] final(self).spec_deposit(i) == old(self).spec_deposit(
                        i,
                    )
                &&& final(self).spec_free(who) <= old(self).spec_free(who)
                &&& final(self).spec_free(who) + final(self).spec_reserved(who) == old(
                    self,
                ).spec_free(who) + old(self).spec_reserved(who)
            },
            r is Err ==> {
                &&& final(self).spec_referendum_count() == old(self).spec_referendum_count()
                &&& forall|i: u32|
                    #[trigger] final(self).spec_is_ongoing(i) == old(self).spec_is_ongoing(i)
                &&& forall|i: u32|
                    #[trigger] final(self).spec_deposit(i) == old(self).spec_deposit(i)
                &&& final(self).spec_free(who) == old(self).spec_free(who)
                &&& final(self).spec_reserved(who) == old(self).spec_reserved(who)
            },
            forall|w: u64| w != who ==> #[trigger] final(self).spec_free(w) == old(self).spec_free(
                w,
            ),
            forall|w: u64|
                w != who ==> #[trigger] final(self).spec_reserved(w) == old(self).spec_reserved(w),
            forall|w: u64|
                #[trigger] final(self).spec_has_identity(w) == old(self).spec_has_identity(w),
            final(self).spec_threshold() == old(self).spec_threshold(),
            final(self).spec_now() == old(self).spec_now(),
    ;

    /// Places the referendum's decision deposit, reserving `amount` from
    /// `who` inside the engine. Fails with the engine's error if the
    /// referendum is not ongoing or already carries its deposit, and with
    /// the ledger's if the free balance cannot cover the amount; succeeds
    /// otherwise. On failure nothing is changed; either way no other
    /// account, no identity and no other referendum is touched.
    fn place_decision_deposit(&mut self, who: u64, index: u32, amount: u64) -> (r: Result<
        (),
        DispatchError,
    >)
        requires
            old(self).wf(),
        ensures
            final(self).wf(),
            r is Ok <==> old(self).spec_is_ongoing(index) && old(self).spec_deposit(index) is None
                && amount <= old(self).spec_free(who),
            !old(self).spec_is_ongoing(index) ==> r == Err::<(), DispatchError>(
                DispatchError::Engine(EngineError::NotOngoing),
            ),
            old(self).spec_is_ongoing(index) && old(self).spec_deposit(index) is Some ==> r
                == Err::<(), DispatchError>(DispatchError::Engine(EngineError::HasDeposit)),
            old(self).spec_is_ongoing(index) && old(self).spec_deposit(index) is None && old(
                self,
            ).spec_free(who) < amount ==> r == Err::<(), DispatchError>(DispatchError::Ledger(
                LedgerError::InsufficientBalance,
            )),
            r is Err ==> {
                &&& final(self).spec_deposit(index) == old(self).spec_deposit(index)
                &&& final(self).spec_free(who) == old(self).spec_free(who)
                &&& final(self).spec_reserved(who) == old(self).spec_reserved(who)
            },
            r is Ok ==> {
                &&& final(self).spec_deposit(index) == Some(Deposit { who, amount })
                &&& final(self).spec_free(who) == old(self).spec_free(who) - amount
                &&& final(self).spec_reserved(who) == old(self).spec_reserved(who) + amount
            },
            forall|i: u32| #[trigger] final(self).spec_is_ongoing(i) == old(self).spec_is_ongoing(i),
            forall|i: u32|
                i != index ==> #[trigger] final(self).spec_deposit(i) == old(self).spec_deposit(i),
            forall|w: u64| w != who ==> #[trigger] final(self).spec_free(w) == old(self).spec_free(
                w,
            ),
            forall|w: u64|
                w != who ==> #[trigger] final(self).spec_reserved(w) == old(self).spec_reserved(w),
            forall|w: u64|
                #[trigger] final(self).spec_has_identity(w) == old(self).spec_has_identity(w),
            final(self).spec_referendum_count() == old(self).spec_referendum_count(),
            final(self).spec_threshold() == old(self).spec_threshold(),
            final(self).spec_now() == old(self).spec_now(),
    ;

    /// Refunds the referendum's decision deposit: releases the held amount
    /// (up to what is still reserved) back to the depositor and clears the
    /// deposit. Fails, changing nothing, exactly when no deposit is held.
    /// No identity and no other referendum is touched.
    fn refund_decision_deposit(&mut self, index: u32) -> (r: Result<(), DispatchError>)
        requires
            old(self).wf(),
        ensures
            final(self).wf(),
            r is Ok <==> old(self).spec_deposit(index) is Some,
            old(self).spec_deposit(index) is None ==> {
                &&& r == Err::<(), DispatchError>(DispatchError::Engine(EngineError::NoDeposit))
                &&& final(self).spec_deposit(index) == old(self).spec_deposit(index)
                &&& forall|w: u64| #[trigger] final(self).spec_free(w) == old(self).spec_free(w)
                &&& forall|w: u64|
                    #[trigger] final(self).spec_reserved(w) == old(self).spec_reserved(w)
            },
            old(self).spec_deposit(index) matches Some(d) ==> {
                let released = if d.amount <= old(self).spec_reserved(d.who) {
                    d.amount as int
                } else {
                    old(self).spec_reserved(d.who) as int
                };
                &&& final(self).spec_deposit(index) is None
                &&& final(self).spec_free(d.who) == old(self).spec_free(d.who) + released
                &&& final(self).spec_reserved(d.who) == old(self).spec_reserved(d.who) - released
                &&& forall|w: u64|
                    w != d.who ==> #[trigger] final(self).spec_free(w) == old(self).spec_free(w)
                &&& forall|w: u64|
                    w != d.who ==> #[trigger] final(self).spec_reserved(w) == old(
                        self,
                    ).spec_reserved(w)
            },
            forall|i: u32| #[trigger] final(self).spec_is_ongoing(i) == old(self).spec_is_ongoing(i),
            forall|i: u32|
                i != index ==> #[trigger] final(self).spec_deposit(i) == old(self).spec_deposit(i),
            forall|w: u64|
                #[trigger] final(self).spec_has_identity(w) == old(self).spec_has_identity(w),
            final(self).spec_referendum_count() == old(self).spec_referendum_count(),
            final(self).spec_threshold() == old(self).spec_threshold(),
            final(self).spec_now() == old(self).spec_now(),
    ;
}

/// The configuration and the clock read the same in both states.
pub open spec fn same_config<C: Config>(pre: &C, post: &C) -> bool {
    &&& post.spec_threshold() == pre.spec_threshold()
    &&& post.spec_now() == pre.spec_now()
}

/// No account's identity changed between the two states.
pub open spec fn same_identities<C: Config>(pre: &C, post: &C) -> bool {
    forall|w: u64| #[trigger] post.spec_has_identity(w) == pre.spec_has_identity(w)
}

/// No account's balances changed between the two states.
pub open spec fn same_balances<C: Config>(pre: &C, post: &C) -> bool {
    &&& forall|w: u64| #[trigger] post.spec_free(w) == pre.spec_free(w)
    &&& forall|w: u64| #[trigger] post.spec_reserved(w) == pre.spec_reserved(w)
}

/// No account's balances changed, except possibly `who`'s.
pub open spec fn same_balances_except<C: Config>(pre: &C, post: &C, who: u64) -> bool {
    &&& forall|w: u64| w != who ==> #[trigger] post.spec_free(w) == pre.spec_free(w)
    &&& forall|w: u64| w != who ==> #[trigger] post.spec_reserved(w) == pre.spec_reserved(w)
}

/// No referendum's status or deposit changed, and the engine's counter is
/// unchanged.
pub open spec fn same_referenda<C: Config>(pre: &C, post: &C) -> bool {
    &&& forall|i: u32| #[trigger] post.spec_is_ongoing(i) == pre.spec_is_ongoing(i)
    &&& forall|i: u32| #[trigger] post.spec_deposit(i) == pre.spec_deposit(i)
    &&& post.spec_referendum_count() == pre.spec_referendum_count()
}

/// No referendum's deposit changed except possibly `index`'s, no status
/// changed, and the engine's counter did not shrink.
pub open spec fn same_referenda_except<C: Config>(pre: &C, post: &C, index: u32) -> bool {
    &&& forall|i: u32| #[trigger] post.spec_is_ongoing(i) == pre.spec_is_ongoing(i)
    &&& forall|i: u32| i != index ==> #[trigger] post.spec_deposit(i) == pre.spec_deposit(i)
    &&& post.spec_referendum_count() >= pre.spec_referendum_count()
}

/// Nothing observable changed between the two states.
pub open spec fn env_unchanged<C: Config>(pre: &C, post: &C) -> bool {
    &&& same_config(pre, post)
    &&& same_identities(pre, post)
    &&& same_balances(pre, post)
    &&& same_referenda(pre, post)
}

} // verus!
