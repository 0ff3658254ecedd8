//! The launch deposit coordinator.
//!
//! Tracks, per referendum index, the ordered list of contributions backing a
//! referendum's launch; computes quadratic pricing; enforces one vote per
//! account; detects when the aggregate crosses the configured threshold; and
//! reconciles refunds once the referendum has concluded.

use vstd::prelude::*;

use crate::config::{
    Config, env_unchanged, same_balances_except, same_config, same_identities, same_referenda,
    same_referenda_except,
};
use crate::types::{
    Contribution, Deposit, DispatchError, EngineError, Error, Event, LedgerError, Origin,
    ensure_root, ensure_signed, vote_cost,
};

verus! {

/// The enactment deadline set at initiation, counted from the current
/// block: two months of six-second blocks.
pub const REFERENDUM_BLOCKS_TOTAL: u64 = 892800;

/// The contributions recorded for one referendum index. Entry 0 is the
/// initiator's zero-vote placeholder; the order of the remaining entries is
/// the order in which the votes were cast.
pub struct IndexRecord {
    pub index: u32,
    pub contributions: Vec<Contribution>,
}

/// The coordinator: the depositor records it exclusively owns, and the
/// ordered log of the notifications it has emitted.
pub struct Pallet {
    pub depositors: Vec<IndexRecord>,
    pub events: Vec<Event>,
}

/// Whether the store holds a record for the index.
pub open spec fn seq_has_record(s: Seq<IndexRecord>, index: u32) -> bool {
    exists|k: int| 0 <= k < s.len() && (#[trigger] s[k]).index == index
}

/// The record the store holds for the index; an index without a record
/// reads as the empty record.
pub open spec fn seq_record(s: Seq<IndexRecord>, index: u32) -> Seq<Contribution> {
    if seq_has_record(s, index) {
        let k = choose|k: int| 0 <= k < s.len() && (#[trigger] s[k]).index == index;
        s[k].contributions@
    } else {
        Seq::empty()
    }
}

/// Whether `who` appears among the record's contributors.
pub open spec fn has_account(r: Seq<Contribution>, who: u64) -> bool {
    exists|k: int| 0 <= k < r.len() && (#[trigger] r[k]).who == who
}

/// No account appears twice in the record.
pub open spec fn distinct_accounts(r: Seq<Contribution>) -> bool {
    forall|i: int, j: int|
        0 <= i < j < r.len() ==> (#[trigger] r[i]).who != (#[trigger] r[j]).who
}

/// Every recorded contribution's quadratic cost fits the balance type.
pub open spec fn costs_fit(r: Seq<Contribution>) -> bool {
    forall|k: int| 0 <= k < r.len() ==> vote_cost((#[trigger] r[k]).votes) <= u64::MAX
}

/// The aggregate voting total: the sum of the record's vote counts (the
/// initiator's placeholder contributes zero).
pub open spec fn aggregate(r: Seq<Contribution>) -> int
    decreases r.len(),
{
    if r.len() == 0 {
        0
    } else {
        aggregate(r.drop_last()) + r.last().votes
    }
}

/// The vote count recorded for `who`: that of its first matching entry.
pub open spec fn votes_of(r: Seq<Contribution>, who: u64) -> u64
    decreases r.len(),
{
    if r.len() == 0 {
        0
    } else if r[0].who == who {
        r[0].votes
    } else {
        votes_of(r.drop_first(), who)
    }
}

impl Pallet {
    /// The records and the event log are internally consistent: record
    /// indices are unique, no account appears twice within one record, and
    /// every recorded cost fits the balance type.
    pub open spec fn wf(self) -> bool {
        &&& forall|i: int, j: int|
            0 <= i < j < self.depositors@.len() ==> (#[trigger] self.depositors@[i]).index != (
            #[trigger] self.depositors@[j]).index
        &&& forall|k: int|
            0 <= k < self.depositors@.len() ==> distinct_accounts(
                (#[trigger] self.depositors@[k]).contributions@,
            )
        &&& forall|k: int|
            0 <= k < self.depositors@.len() ==> costs_fit(
                (#[trigger] self.depositors@[k]).contributions@,
            )
    }

    /// Whether a depositor record was ever opened for the index.
    pub open spec fn spec_has_record(self, index: u32) -> bool {
        seq_has_record(self.depositors@, index)
    }

    /// The record stored for the index; an index without a record reads as
    /// the empty record.
    pub open spec fn spec_record(self, index: u32) -> Seq<Contribution> {
        seq_record(self.depositors@, index)
    }

    /// A fresh coordinator: no records, no events.
    pub fn new() -> (r: Pallet)
        ensures
            r.wf(),
            r.depositors@ == Seq::<IndexRecord>::empty(),
            r.events@ == Seq::<Event>::empty(),
            forall|j: u32| !r.spec_has_record(j),
            forall|j: u32| r.spec_record(j) == Seq::<Contribution>::empty(),
    {
        Pallet { depositors: Vec::new(), events: Vec::new() }
    }

    /// The notifications emitted so far, oldest first.
    pub fn event_log(&self) -> (r: &Vec<Event>)
        ensures
            r@ == self.events@,
    {
        &self.events
    }

    /// The most recent notification, if any was emitted.
    pub fn last_event(&self) -> (r: Option<Event>)
        ensures
            self.events@.len() == 0 ==> r is None,
            self.events@.len() > 0 ==> r == Some(self.events@.last()),
    {
        if self.events.len() == 0 {
            None
        } else {
            Some(self.events[self.events.len() - 1])
        }
    }

    /// A copy of the contributions recorded for the index, in order.
    pub fn depositor_record(&self, index: u32) -> (r: Vec<Contribution>)
        requires
            self.wf(),
        ensures
            r@ == self.spec_record(index),
    {
        match find_pos(&self.depositors, index) {
            Some(p) => {
                proof {
                    self.lemma_record_at(p as int);
                }
                copy_contributions(&self.depositors[p].contributions)
            },
            None => {
                assert(!self.spec_has_record(index));
                Vec::new()
            },
        }
    }

    /// Appends a contribution to the index's record, opening the record
    /// where none exists yet. The coordinator's only way of growing a
    /// record: it keeps accounts distinct and costs representable.
    fn append_contribution(&mut self, index: u32, c: Contribution)
        requires
            old(self).wf(),
            !has_account(old(self).spec_record(index), c.who),
            vote_cost(c.votes) <= u64::MAX,
        ensures
            final(self).wf(),
            seq_record(final(self).depositors@, index) == seq_record(
                old(self).depositors@,
                index,
            ).push(c),
            forall|j: u32|
                j != index ==> seq_record(final(self).depositors@, j) == seq_record(
                    old(self).depositors@,
                    j,
                ),
            forall|j: u32|
                seq_has_record(final(self).depositors@, j) == (seq_has_record(
                    old(self).depositors@,
                    j,
                ) || j == index),
            final(self).events@ == old(self).events@,
    {
        let ghost pre = self.depositors@;
        match find_pos(&self.depositors, index) {
            Some(p) => {
                proof {
                    lemma_seq_record_at(pre, p as int);
                }
                self.depositors[p].contributions.push(c);
                proof {
                    let post = self.depositors@;
                    let r = pre[p as int].contributions@;
                    assert(post[p as int].contributions@ =~= r.push(c));
                    assert forall|k: int| 0 <= k < post.len() implies (#[trigger] post[k]).index
                        == pre[k].index by {}
                    assert forall|k: int|
                        0 <= k < post.len() && k != p implies #[trigger] post[k] == pre[k] by {}
                    assert(distinct_accounts(post[p as int].contributions@)) by {
                        assert forall|i: int, j: int|
                            0 <= i < j < r.push(c).len() implies (#[trigger] r.push(c)[i]).who != (
                            #[trigger] r.push(c)[j]).who by {
                            if j == r.len() {
                                assert(r.push(c)[i] == r[i]);
                                if r[i].who == c.who {
                                    assert(has_account(r, c.who));
                                }
                            }
                        }
                    }
                    assert(costs_fit(post[p as int].contributions@)) by {
                        assert forall|k: int| 0 <= k < r.push(c).len() implies vote_cost(
                            (#[trigger] r.push(c)[k]).votes,
                        ) <= u64::MAX by {
                            if k < r.len() {
                                assert(r.push(c)[k] == r[k]);
                            }
                        }
                    }
                    assert(self.wf());
                    lemma_seq_record_at(post, p as int);
                    assert forall|j: u32| j != index implies #[trigger] seq_record(post, j)
                        == seq_record(pre, j) by {
                        if seq_has_record(post, j) {
                            let k = choose|k: int|
                                0 <= k < post.len() && (#[trigger] post[k]).index == j;
                            assert(k != p);
                            lemma_seq_record_at(post, k);
                            lemma_seq_record_at(pre, k);
                        } else {
                            if seq_has_record(pre, j) {
                                let k = choose|k: int|
                                    0 <= k < pre.len() && (#[trigger] pre[k]).index == j;
                                assert(post[k].index == j);
                                assert(seq_has_record(post, j));
                            }
                        }
                    }
                    assert forall|j: u32| #[trigger] seq_has_record(post, j) == (seq_has_record(
                        pre,
                        j,
                    ) || j == index) by {
                        if seq_has_record(post, j) {
                            let k = choose|k: int|
                                0 <= k < post.len() && (#[trigger] post[k]).index == j;
                            assert(pre[k].index == j);
                        }
                        if seq_has_record(pre, j) {
                            let k = choose|k: int|
                                0 <= k < pre.len() && (#[trigger] pre[k]).index == j;
                            assert(post[k].index == j);
                        }
                        assert(pre[p as int].index == index);
                    }
                }
            },
            None => {
                proof {
                    assert(!seq_has_record(pre, index));
                }
                let mut contributions: Vec<Contribution> = Vec::new();
                contributions.push(c);
                self.depositors.push(IndexRecord { index, contributions });
                proof {
                    let post = self.depositors@;
                    let n = pre.len() as int;
                    assert(post.len() == n + 1);
                    assert forall|k: int| 0 <= k < n implies #[trigger] post[k] == pre[k] by {}
                    assert(post[n].index == index);
                    assert(post[n].contributions@ =~= Seq::<Contribution>::empty().push(c));
                    assert(distinct_accounts(post[n].contributions@));
                    assert(costs_fit(post[n].contributions@));
                    assert(self.wf());
                    lemma_seq_record_at(post, n);
                    assert(seq_record(post, index) == seq_record(pre, index).push(c));
                    assert forall|j: u32| j != index implies #[trigger] seq_record(post, j)
                        == seq_record(pre, j) by {
                        if seq_has_record(post, j) {
                            let k = choose|k: int|
                                0 <= k < post.len() && (#[trigger] post[k]).index == j;
                            assert(k != n);
                            lemma_seq_record_at(post, k);
                            lemma_seq_record_at(pre, k);
                        } else {
                            if seq_has_record(pre, j) {
                                let k = choose|k: int|
                                    0 <= k < pre.len() && (#[trigger] pre[k]).index == j;
                                assert(post[k].index == j);
                                assert(seq_has_record(post, j));
                            }
                        }
                    }
                    assert forall|j: u32| #[trigger] seq_has_record(post, j) == (seq_has_record(
                        pre,
                        j,
                    ) || j == index) by {
                        if seq_has_record(post, j) && j != index {
                            let k = choose|k: int|
                                0 <= k < post.len() && (#[trigger] post[k]).index == j;
                            assert(k != n);
                            assert(pre[k].index == j);
                        }
                        if seq_has_record(pre, j) {
                            let k = choose|k: int|
                                0 <= k < pre.len() && (#[trigger] pre[k]).index == j;
                            assert(post[k].index == j);
                        }
                    }
                }
            },
        }
    }

    /// Refunds the launch votes recorded for a concluded referendum.
    ///
    /// Requires root authority, and fails with `StillOngoing` while the
    /// engine reports the referendum active. With a non-empty record the
    /// engine's decision-deposit refund runs first: it covers the
    /// triggering depositor — the record's last entry, which this function
    /// must therefore never unreserve itself — and where no deposit was
    /// ever placed (as after a cancelled launch) its error aborts the
    /// reconciliation with nothing changed, keeping the operation
    /// all-or-nothing. Every earlier entry, the initiator's zero-vote
    /// placeholder included, is then unreserved its quadratic cost through
    /// the privileged unreserve; an entry whose account carries no identity
    /// is skipped silently, its hold left in place. Finally the record is
    /// cleared whole, so a repeated refund finds nothing to reconcile and
    /// succeeds without effect instead of releasing anything twice.
    pub fn refund_launch_votes<C: Config>(
        &mut self,
        env: &mut C,
        origin: Origin,
        index: u32,
    ) -> (r: Result<(), DispatchError>)
        requires
            old(self).wf(),
            old(env).wf(),
            coupled(*old(self), old(env)),
        ensures
            final(self).wf(),
            final(env).wf(),
            coupled(*final(self), final(env)),
            r == spec_refund_result(old(env), *old(self), origin, index),
            !(origin is Root && !old(env).spec_is_ongoing(index) && old(self).spec_record(
                index,
            ).len() > 0 && old(env).spec_deposit(index) is Some) ==> final(self).depositors@
                == old(self).depositors@ && final(self).events@ == old(self).events@
                && env_unchanged(old(env), final(env)),
            origin is Root && !old(env).spec_is_ongoing(index) && old(self).spec_record(
                index,
            ).len() > 0 ==> (old(env).spec_deposit(index) matches Some(d) ==> ({
                let entries = old(self).spec_record(index);
                let middles = entries.take(entries.len() - 1);
                &&& r is Ok
                &&& final(self).spec_record(index) == Seq::<Contribution>::empty()
                &&& forall|j: u32|
                    j != index ==> final(self).spec_record(j) == old(self).spec_record(j)
                &&& forall|j: u32|
                    final(self).spec_has_record(j) == old(self).spec_has_record(j)
                &&& final(self).events@ == old(self).events@ + refund_events(old(env), middles)
                &&& forall|w: u64|
                    #[trigger] final(env).spec_free(w) == old(env).spec_free(w) + refund_credit(
                        old(env),
                        d,
                        middles,
                        w,
                    )
                &&& forall|w: u64|
                    #[trigger] final(env).spec_reserved(w) == old(env).spec_reserved(w)
                        - refund_credit(old(env), d, middles, w)
                &&& final(env).spec_deposit(index) is None
                &&& forall|i: u32|
                    i != index ==> #[trigger] final(env).spec_deposit(i) == old(env).spec_deposit(i)
                &&& forall|i: u32|
                    #[trigger] final(env).spec_is_ongoing(i) == old(env).spec_is_ongoing(i)
                &&& same_identities(old(env), final(env))
                &&& same_config(old(env), final(env))
                &&& final(env).spec_referendum_count() == old(env).spec_referendum_count()
            })),
    {
        match ensure_root(origin) {
            Ok(u) => u,
            Err(e) => {
                return Err(e);
            },
        };
        if env.is_ongoing(index) {
            return Err(DispatchError::Module(Error::StillOngoing));
        }
        let p = match find_pos(&self.depositors, index) {
            Some(p) => p,
            None => {
                proof {
                    assert(!seq_has_record(self.depositors@, index));
                }
                return Ok(());
            },
        };
        proof {
            self.lemma_record_at(p as int);
        }
        let entries = copy_contributions(&self.depositors[p].contributions);
        let n = entries.len();
        if n == 0 {
            return Ok(());
        }
        match env.refund_decision_deposit(index) {
            Ok(u) => u,
            Err(e) => {
                return Err(e);
            },
        };
        let ghost d = old(env).spec_deposit(index)->Some_0;
        let ghost env1 = *env;
        let ghost events0 = self.events@;
        let ghost depositors0 = self.depositors@;
        let ghost middles = entries@.take(n as int - 1);
        proof {
            assert(distinct_accounts(entries@));
            assert(costs_fit(entries@));
            assert(entries@.take(0) =~= Seq::<Contribution>::empty());
            assert(events0 + refund_events(&env1, entries@.take(0)) =~= events0);
        }
        let mut k: usize = 0;
        while k < n - 1
            invariant
                n == entries@.len(),
                1 <= n,
                0 <= k <= n - 1,
                self.wf(),
                env.wf(),
                distinct_accounts(entries@),
                costs_fit(entries@),
                self.depositors@ == depositors0,
                0 <= p < depositors0.len(),
                depositors0[p as int].index == index,
                self.events@ == events0 + refund_events(&env1, entries@.take(k as int)),
                forall|w: u64|
                    #[trigger] env.spec_free(w) == env1.spec_free(w) + unreserve_credit(
                        &env1,
                        entries@.take(k as int),
                        w,
                    ),
                forall|w: u64|
                    #[trigger] env.spec_reserved(w) == env1.spec_reserved(w) - unreserve_credit(
                        &env1,
                        entries@.take(k as int),
                        w,
                    ),
                forall|w: u64|
                    #[trigger] env.spec_has_identity(w) == env1.spec_has_identity(w),
                forall|i: u32| #[trigger] env.spec_is_ongoing(i) == env1.spec_is_ongoing(i),
                forall|i: u32| #[trigger] env.spec_deposit(i) == env1.spec_deposit(i),
                env.spec_referendum_count() == env1.spec_referendum_count(),
                env.spec_threshold() == env1.spec_threshold(),
                env.spec_now() == env1.spec_now(),
            decreases n - 1 - k,
        {
            let c = entries[k];
            proof {
                assert(vote_cost(c.votes) <= u64::MAX);
                assert(!has_account(entries@.take(k as int), c.who)) by {
                    if has_account(entries@.take(k as int), c.who) {
                        let i = choose|i: int|
                            0 <= i < entries@.take(k as int).len() && (#[trigger] entries@.take(
                                k as int,
                            )[i]).who == c.who;
                        assert(entries@[i].who == entries@[k as int].who);
                    }
                }
            }
            let cost = c.votes * c.votes;
            let res = self.unreserve_an_amount_of_token(env, Origin::Root, c.who, cost);
            proof {
                let tk = entries@.take(k as int);
                let tk1 = entries@.take(k as int + 1);
                assert(tk1 =~= tk + seq![c]);
                assert(tk1 =~= tk.push(c));
                assert(seq![c][0] == c);
                assert(seq![c].drop_first() =~= Seq::<Contribution>::empty());
                assert(refund_events(&env1, Seq::<Contribution>::empty())
                    == Seq::<Event>::empty());
                lemma_refund_events_concat(&env1, tk, seq![c]);
                assert forall|w: u64| #[trigger] env.spec_free(w) == env1.spec_free(w)
                    + unreserve_credit(&env1, tk1, w) by {
                    lemma_has_account_push(tk, c, w);
                    lemma_votes_of_push(tk, c, w);
                }
                assert forall|w: u64| #[trigger] env.spec_reserved(w) == env1.spec_reserved(w)
                    - unreserve_credit(&env1, tk1, w) by {
                    lemma_has_account_push(tk, c, w);
                    lemma_votes_of_push(tk, c, w);
                }
                if env1.spec_has_identity(c.who) {
                    assert(refund_events(&env1, seq![c]) =~= seq![
                        Event::AmountUnreserved((c.votes * c.votes) as u64),
                    ]);
                    assert(self.events@ =~= events0 + refund_events(&env1, tk1));
                } else {
                    assert(refund_events(&env1, seq![c]) =~= Seq::<Event>::empty());
                    assert(self.events@ =~= events0 + refund_events(&env1, tk1));
                }
            }
            k += 1;
        }
        proof {
            assert(entries@.take(n as int - 1) == middles);
        }
        self.depositors[p].contributions.clear();
        proof {
            let post = self.depositors@;
            assert(post[p as int].contributions@ =~= Seq::<Contribution>::empty());
            assert forall|kk: int| 0 <= kk < post.len() implies (#[trigger] post[kk]).index
                == depositors0[kk].index by {}
            assert forall|kk: int|
                0 <= kk < post.len() && kk != p implies #[trigger] post[kk] == depositors0[kk] by {}
            assert(distinct_accounts(post[p as int].contributions@));
            assert(costs_fit(post[p as int].contributions@));
            assert(self.wf());
            lemma_seq_record_at(post, p as int);
            assert(seq_record(post, index) == Seq::<Contribution>::empty());
            assert forall|j: u32| j != index implies #[trigger] seq_record(post, j) == seq_record(
                depositors0,
                j,
            ) by {
                if seq_has_record(post, j) {
                    let kk = choose|kk: int| 0 <= kk < post.len() && (#[trigger] post[kk]).index
                        == j;
                    assert(kk != p);
                    lemma_seq_record_at(post, kk);
                    lemma_seq_record_at(depositors0, kk);
                } else {
                    if seq_has_record(depositors0, j) {
                        let kk = choose|kk: int|
                            0 <= kk < depositors0.len() && (#[trigger] depositors0[kk]).index == j;
                        assert(post[kk].index == j);
                        assert(seq_has_record(post, j));
                    }
                }
            }
            assert forall|j: u32| #[trigger] seq_has_record(post, j) == seq_has_record(
                depositors0,
                j,
            ) by {
                if seq_has_record(post, j) {
                    let kk = choose|kk: int| 0 <= kk < post.len() && (#[trigger] post[kk]).index
                        == j;
                    assert(depositors0[kk].index == j);
                }
                if seq_has_record(depositors0, j) {
                    let kk = choose|kk: int|
                        0 <= kk < depositors0.len() && (#[trigger] depositors0[kk]).index == j;
                    assert(post[kk].index == j);
                }
            }
            assert forall|j: u32| #[trigger] seq_has_record(post, j) implies j
                < env.spec_referendum_count() by {
                assert(seq_has_record(old(self).depositors@, j));
            }
            lemma_refund_events_same_identities(&env1, old(env), middles);
            assert forall|w: u64| #[trigger] env.spec_free(w) == old(env).spec_free(w)
                + refund_credit(old(env), d, middles, w) && #[trigger] env.spec_reserved(w) == old(
                env,
            ).spec_reserved(w) - refund_credit(old(env), d, middles, w) by {}
        }
        Ok(())
    }

    /// Reserves an amount of token for the calling account.
    ///
    /// Identity-gated self-service: the caller must be signed and carry a
    /// verified identity; the hold fails, leaving everything unchanged,
    /// exactly when the free balance cannot cover it. On success an
    /// `AmountReserved` notification is emitted.
    pub fn reserve_an_amount_of_token<C: Config>(
        &mut self,
        env: &mut C,
        origin: Origin,
        amount: u64,
    ) -> (r: Result<(), DispatchError>)
        requires
            old(self).wf(),
            old(env).wf(),
        ensures
            final(self).wf(),
            final(env).wf(),
            final(self).depositors@ == old(self).depositors@,
            r == spec_reserve_result(old(env), origin, amount),
            r is Err ==> final(self).events@ == old(self).events@ && env_unchanged(
                old(env),
                final(env),
            ),
            r is Ok ==> {
                let who = spec_signed(origin);
                &&& final(env).spec_free(who) == old(env).spec_free(who) - amount
                &&& final(env).spec_reserved(who) == old(env).spec_reserved(who) + amount
                &&& same_balances_except(old(env), final(env), who)
                &&& same_identities(old(env), final(env))
                &&& same_referenda(old(env), final(env))
                &&& same_config(old(env), final(env))
                &&& final(self).events@ == old(self).events@.push(Event::AmountReserved(amount))
            },
    {
        let who = match ensure_signed(origin) {
            Ok(w) => w,
            Err(e) => {
                return Err(e);
            },
        };
        if env.has_identity(who) {
            match env.reserve(who, amount) {
                Ok(u) => {
                    self.events.push(Event::AmountReserved(amount));
                    Ok(u)
                },
                Err(e) => Err(e),
            }
        } else {
            Err(DispatchError::Module(Error::NoIdentity))
        }
    }

    /// Unreserves an amount of token for an account.
    ///
    /// Not self-service: refunds are triggered on behalf of other accounts,
    /// so the caller must hold root authority, and the target account must
    /// carry a verified identity. Releases up to `amount` (the maximum
    /// available, never failing on a short hold) and emits an
    /// `AmountUnreserved` notification with the requested amount.
    pub fn unreserve_an_amount_of_token<C: Config>(
        &mut self,
        env: &mut C,
        origin: Origin,
        who: u64,
        amount: u64,
    ) -> (r: Result<(), DispatchError>)
        requires
            old(self).wf(),
            old(env).wf(),
        ensures
            final(self).wf(),
            final(env).wf(),
            final(self).depositors@ == old(self).depositors@,
            r == spec_unreserve_result(old(env), origin, who),
            r is Err ==> final(self).events@ == old(self).events@ && env_unchanged(
                old(env),
                final(env),
            ),
            r is Ok ==> {
                &&& final(env).spec_free(who) == old(env).spec_free(who) + spec_released(
                    old(env),
                    who,
                    amount,
                )
                &&& final(env).spec_reserved(who) == old(env).spec_reserved(who) - spec_released(
                    old(env),
                    who,
                    amount,
                )
                &&& same_balances_except(old(env), final(env), who)
                &&& same_identities(old(env), final(env))
                &&& same_referenda(old(env), final(env))
                &&& same_config(old(env), final(env))
                &&& final(self).events@ == old(self).events@.push(Event::AmountUnreserved(amount))
            },
    {
        match ensure_root(origin) {
            Ok(u) => u,
            Err(e) => {
                return Err(e);
            },
        };
        if env.has_identity(who) {
            let _released = env.unreserve(who, amount);
            self.events.push(Event::AmountUnreserved(amount));
            Ok(())
        } else {
            Err(DispatchError::Module(Error::NoIdentity))
        }
    }

    /// Initiates a referendum: puts the proposal on-chain and opens its
    /// launch-phase depositor record.
    ///
    /// The proposal is submitted to the engine under an administrative
    /// origin with an enactment deadline a fixed duration from the current
    /// block; the submission deposit itself is funded from, and later
    /// refunded to, the caller entirely inside the engine. On success the
    /// engine's freshly issued index is read back from the submission's own
    /// return value, and the caller is recorded as the index's zero-vote
    /// initiator placeholder. On failure the engine's error is propagated
    /// and no record is created: record creation and submission success are
    /// coupled, so no orphaned record can exist.
    pub fn initiate_referendum<C: Config>(
        &mut self,
        env: &mut C,
        origin: Origin,
        proposal: u64,
    ) -> (r: Result<(), DispatchError>)
        requires
            old(self).wf(),
            old(env).wf(),
            coupled(*old(self), old(env)),
        ensures
            final(self).wf(),
            final(env).wf(),
            coupled(*final(self), final(env)),
            !(origin is Signed) ==> r == Err::<(), DispatchError>(DispatchError::BadOrigin),
            origin is Signed && old(env).spec_now() + REFERENDUM_BLOCKS_TOTAL > u64::MAX ==> r
                == Err::<(), DispatchError>(DispatchError::Module(Error::Overflow)),
            r is Err ==> final(self).depositors@ == old(self).depositors@ && final(self).events@
                == old(self).events@ && env_unchanged(old(env), final(env)),
            r is Ok ==> ({
                let who = spec_signed(origin);
                let index = old(env).spec_referendum_count();
                &&& origin is Signed
                &&& !old(env).spec_is_ongoing(index)
                &&& !old(self).spec_has_record(index)
                &&& final(env).spec_is_ongoing(index)
                &&& final(env).spec_deposit(index) is None
                &&& final(env).spec_referendum_count() == index + 1
                &&& forall|i: u32|
                    i != index ==> #[trigger] final(env).spec_is_ongoing(i) == old(
                        env,
                    ).spec_is_ongoing(i)
                &&& forall|i: u32|
                    i != index ==> #[trigger] final(env).spec_deposit(i) == old(env).spec_deposit(i)
                &&& same_balances_except(old(env), final(env), who)
                &&& final(env).spec_free(who) <= old(env).spec_free(who)
                &&& final(env).spec_free(who) + final(env).spec_reserved(who) == old(
                    env,
                ).spec_free(who) + old(env).spec_reserved(who)
                &&& same_identities(old(env), final(env))
                &&& same_config(old(env), final(env))
                &&& final(self).spec_record(index) == Seq::<Contribution>::empty().push(
                    (Contribution { who, votes: 0 }),
                )
                &&& forall|j: u32|
                    j != index ==> final(self).spec_record(j) == old(self).spec_record(j)
                &&& forall|j: u32|
                    final(self).spec_has_record(j) == (old(self).spec_has_record(j) || j == index)
                &&& final(self).events@ == old(self).events@
            }),
    {
        let who = match ensure_signed(origin) {
            Ok(w) => w,
            Err(e) => {
                return Err(e);
            },
        };
        let now = env.block_number();
        if now > u64::MAX - REFERENDUM_BLOCKS_TOTAL {
            return Err(DispatchError::Module(Error::Overflow));
        }
        let deadline = now + REFERENDUM_BLOCKS_TOTAL;
        match env.submit(who, proposal, deadline) {
            Ok(index) => {
                proof {
                    if seq_has_record(self.depositors@, index) {
                        assert(index < old(env).spec_referendum_count());
                    }
                    assert(!seq_has_record(self.depositors@, index));
                }
                self.append_contribution(index, Contribution { who, votes: 0 });
                proof {
                    assert forall|j: u32| #[trigger] seq_has_record(
                        self.depositors@,
                        j,
                    ) implies j < env.spec_referendum_count() by {
                        if j != index {
                            assert(seq_has_record(old(self).depositors@, j));
                        }
                    }
                }
                Ok(())
            },
            Err(e) => Err(e),
        }
    }

    /// Casts launch votes for a referendum in its launch phase.
    ///
    /// The caller locks the square of `number_of_votes` tokens. Below the
    /// threshold the hold is a self-service reserve through the ledger
    /// adapter (identity-gated), the contribution is recorded, and a
    /// `LaunchVotesCast` notification is emitted. When the new aggregate
    /// reaches the threshold the full cost is instead placed as the
    /// referendum's decision deposit inside the engine, the contribution is
    /// recorded, and no notification is emitted here: the engine's own
    /// deposit-placed event covers the triggering cast. Every failure
    /// leaves the coordinator, the ledger and the engine exactly as they
    /// were; which outcome occurs is pinned down by [`spec_cast_result`].
    pub fn cast_launch_votes<C: Config>(
        &mut self,
        env: &mut C,
        origin: Origin,
        number_of_votes: u64,
        index: u32,
    ) -> (r: Result<(), DispatchError>)
        requires
            old(self).wf(),
            old(env).wf(),
            coupled(*old(self), old(env)),
        ensures
            final(self).wf(),
            final(env).wf(),
            coupled(*final(self), final(env)),
            r == spec_cast_result(old(env), *old(self), origin, number_of_votes, index),
            r is Err ==> final(self).depositors@ == old(self).depositors@ && final(self).events@
                == old(self).events@ && env_unchanged(old(env), final(env)),
            r is Ok ==> ({
                let who = spec_signed(origin);
                let cost = vote_cost(number_of_votes);
                &&& final(self).spec_record(index) == old(self).spec_record(index).push(
                    (Contribution { who, votes: number_of_votes }),
                )
                &&& forall|j: u32|
                    j != index ==> final(self).spec_record(j) == old(self).spec_record(j)
                &&& forall|j: u32|
                    final(self).spec_has_record(j) == (old(self).spec_has_record(j) || j == index)
                &&& aggregate(final(self).spec_record(index)) == aggregate(
                    old(self).spec_record(index),
                ) + number_of_votes
                &&& final(env).spec_free(who) == old(env).spec_free(who) - cost
                &&& final(env).spec_reserved(who) == old(env).spec_reserved(who) + cost
                &&& same_balances_except(old(env), final(env), who)
                &&& same_identities(old(env), final(env))
                &&& same_config(old(env), final(env))
                &&& if is_triggering(old(env), *old(self), number_of_votes, index) {
                    &&& final(env).spec_deposit(index) == Some(
                        (Deposit { who, amount: cost as u64 }),
                    )
                    &&& same_referenda_except(old(env), final(env), index)
                    &&& final(env).spec_referendum_count() == old(env).spec_referendum_count()
                    &&& final(env).spec_is_ongoing(index)
                    &&& final(self).events@ == old(self).events@
                } else {
                    &&& same_referenda(old(env), final(env))
                    &&& final(self).events@ == old(self).events@ + seq![
                        Event::AmountReserved(cost as u64),
                        (Event::LaunchVotesCast { number_of_votes, index }),
                    ]
                }
            }),
    {
        if number_of_votes == 0 {
            return Err(DispatchError::Module(Error::ZeroVote));
        }
        let who = match ensure_signed(origin) {
            Ok(w) => w,
            Err(e) => {
                return Err(e);
            },
        };
        if !env.is_ongoing(index) {
            return Err(DispatchError::Engine(EngineError::NotOngoing));
        }
        proof {
            env.lemma_ongoing_below_count(index);
        }
        let ghost record = self.spec_record(index);
        let pos = find_pos(&self.depositors, index);
        let already = match pos {
            Some(p) => {
                proof {
                    self.lemma_record_at(p as int);
                }
                contains_who(&self.depositors[p].contributions, who)
            },
            None => {
                proof {
                    assert(!self.spec_has_record(index));
                }
                false
            },
        };
        if already {
            return Err(DispatchError::Module(Error::AlreadyVoted));
        }
        let agg_opt = match pos {
            Some(p) => checked_aggregate(&self.depositors[p].contributions),
            None => Some(0u64),
        };
        let agg = match agg_opt {
            Some(a) => a,
            None => {
                return Err(DispatchError::Module(Error::Overflow));
            },
        };
        assert(agg == aggregate(record));
        if number_of_votes > 0xFFFF_FFFFu64 {
            proof {
                assert(number_of_votes * number_of_votes > u64::MAX) by (nonlinear_arith)
                    requires
                        number_of_votes > 0xFFFF_FFFFu64,
                ;
            }
            return Err(DispatchError::Module(Error::Overflow));
        }
        proof {
            assert(number_of_votes * number_of_votes <= u64::MAX) by (nonlinear_arith)
                requires
                    number_of_votes <= 0xFFFF_FFFFu64,
            ;
        }
        let cost = number_of_votes * number_of_votes;
        let threshold = env.launch_deposit();
        let triggering = agg >= threshold || number_of_votes >= threshold - agg;
        assert(triggering == is_triggering(old(env), *old(self), number_of_votes, index));
        if triggering {
            // The last mover reserves through the engine, not the ledger
            // adapter: its refund later comes from the engine's own
            // deposit-refund path, so the coordinator must not also
            // self-reserve for it.
            match env.place_decision_deposit(who, index, cost) {
                Ok(u) => {
                    self.append_contribution(
                        index,
                        Contribution { who, votes: number_of_votes },
                    );
                    proof {
                        assert forall|j: u32| #[trigger] seq_has_record(
                            self.depositors@,
                            j,
                        ) implies j < env.spec_referendum_count() by {
                            if j != index {
                                assert(seq_has_record(old(self).depositors@, j));
                            }
                        }
                        assert(aggregate(self.spec_record(index)) == aggregate(
                            old(self).spec_record(index),
                        ) + number_of_votes) by {
                            let oldr = old(self).spec_record(index);
                            let newr = self.spec_record(index);
                            assert(newr == oldr.push(
                                (Contribution { who, votes: number_of_votes }),
                            ));
                            assert(newr.drop_last() =~= oldr);
                            assert(newr.last() == (Contribution { who, votes: number_of_votes }));
                        }
                    }
                    Ok(u)
                },
                Err(e) => Err(e),
            }
        } else {
            match self.reserve_an_amount_of_token(env, origin, cost) {
                Ok(u) => {
                    self.append_contribution(
                        index,
                        Contribution { who, votes: number_of_votes },
                    );
                    self.events.push(Event::LaunchVotesCast { number_of_votes, index });
                    proof {
                        assert(self.events@ =~= old(self).events@ + seq![
                            Event::AmountReserved(cost),
                            (Event::LaunchVotesCast { number_of_votes, index }),
                        ]);
                        assert forall|j: u32| #[trigger] seq_has_record(
                            self.depositors@,
                            j,
                        ) implies j < env.spec_referendum_count() by {
                            if j != index {
                                assert(seq_has_record(old(self).depositors@, j));
                            }
                        }
                        assert(aggregate(self.spec_record(index)) == aggregate(
                            old(self).spec_record(index),
                        ) + number_of_votes) by {
                            let oldr = old(self).spec_record(index);
                            let newr = self.spec_record(index);
                            assert(newr == oldr.push(
                                (Contribution { who, votes: number_of_votes }),
                            ));
                            assert(newr.drop_last() =~= oldr);
                            assert(newr.last() == (Contribution { who, votes: number_of_votes }));
                        }
                    }
                    Ok(u)
                },
                Err(e) => Err(e),
            }
        }
    }

    /// A record found at position `k` is the record that
    /// [`Pallet::spec_record`] denotes for its index.
    pub proof fn lemma_record_at(self, k: int)
        requires
            self.wf(),
            0 <= k < self.depositors@.len(),
        ensures
            self.spec_has_record(self.depositors@[k].index),
            self.spec_record(self.depositors@[k].index) == self.depositors@[k].contributions@,
    {
        lemma_seq_record_at(self.depositors@, k);
    }
}

/// The coordinator's records only name indices the engine has issued: all
/// below the engine's monotonic counter. Every entry point keeps this
/// coupling between the coordinator's storage and the engine.
pub open spec fn coupled<C: Config>(p: Pallet, env: &C) -> bool {
    forall|j: u32|
        #[trigger] seq_has_record(p.depositors@, j) ==> j < env.spec_referendum_count()
}

/// Whether casting `votes` on the index crosses the launch deposit
/// threshold: the prospective aggregate reaches or exceeds it.
pub open spec fn is_triggering<C: Config>(env: &C, p: Pallet, votes: u64, index: u32) -> bool {
    aggregate(p.spec_record(index)) + votes >= env.spec_threshold()
}

/// What [`Pallet::cast_launch_votes`] returns, decided entirely by the
/// pre-state. The checks run in this order: a zero vote, an unsigned
/// origin, a referendum not in its launch phase, a duplicate voter, an
/// aggregate or quadratic cost that leaves the balance type; then the
/// threshold decides the path. A triggering cast answers for the engine's
/// deposit placement (already-placed deposit, then funds); a non-triggering
/// cast answers for the identity-gated self-reserve (identity, then funds).
pub open spec fn spec_cast_result<C: Config>(
    env: &C,
    p: Pallet,
    origin: Origin,
    votes: u64,
    index: u32,
) -> Result<(), DispatchError> {
    let who = spec_signed(origin);
    let record = p.spec_record(index);
    if votes == 0 {
        Err(DispatchError::Module(Error::ZeroVote))
    } else if !(origin is Signed) {
        Err(DispatchError::BadOrigin)
    } else if !env.spec_is_ongoing(index) {
        Err(DispatchError::Engine(EngineError::NotOngoing))
    } else if has_account(record, who) {
        Err(DispatchError::Module(Error::AlreadyVoted))
    } else if aggregate(record) > u64::MAX {
        Err(DispatchError::Module(Error::Overflow))
    } else if vote_cost(votes) > u64::MAX {
        Err(DispatchError::Module(Error::Overflow))
    } else if aggregate(record) + votes >= env.spec_threshold() {
        if env.spec_deposit(index) is Some {
            Err(DispatchError::Engine(EngineError::HasDeposit))
        } else if env.spec_free(who) < vote_cost(votes) {
            Err(DispatchError::Ledger(LedgerError::InsufficientBalance))
        } else {
            Ok(())
        }
    } else {
        if !env.spec_has_identity(who) {
            Err(DispatchError::Module(Error::NoIdentity))
        } else if env.spec_free(who) < vote_cost(votes) {
            Err(DispatchError::Ledger(LedgerError::InsufficientBalance))
        } else {
            Ok(())
        }
    }
}

/// What [`Pallet::refund_launch_votes`] returns, decided entirely by the
/// pre-state: the origin must be root and the referendum concluded; an
/// empty (or absent) record leaves nothing to reconcile; otherwise the
/// engine must still hold the decision deposit to refund.
pub open spec fn spec_refund_result<C: Config>(
    env: &C,
    p: Pallet,
    origin: Origin,
    index: u32,
) -> Result<(), DispatchError> {
    if !(origin is Root) {
        Err(DispatchError::BadOrigin)
    } else if env.spec_is_ongoing(index) {
        Err(DispatchError::Module(Error::StillOngoing))
    } else if p.spec_record(index).len() == 0 {
        Ok(())
    } else if env.spec_deposit(index) is None {
        Err(DispatchError::Engine(EngineError::NoDeposit))
    } else {
        Ok(())
    }
}

/// The notifications that reconciling `entries` emits: one
/// `AmountUnreserved` per entry whose account still carries an identity, in
/// record order; an unidentified account is skipped silently.
pub open spec fn refund_events<C: Config>(env: &C, entries: Seq<Contribution>) -> Seq<Event>
    decreases entries.len(),
{
    if entries.len() == 0 {
        Seq::empty()
    } else {
        let head: Seq<Event> = if env.spec_has_identity(entries[0].who) {
            seq![Event::AmountUnreserved((entries[0].votes * entries[0].votes) as u64)]
        } else {
            Seq::empty()
        };
        head + refund_events(env, entries.drop_first())
    }
}

/// What reconciling `entries` releases to account `w`, from the state the
/// loop starts in: the account's quadratic cost, capped by its hold, and
/// nothing for an account without identity or outside the entries.
pub open spec fn unreserve_credit<C: Config>(env: &C, entries: Seq<Contribution>, w: u64) -> int {
    if has_account(entries, w) && env.spec_has_identity(w) {
        let cost = vote_cost(votes_of(entries, w));
        if cost <= env.spec_reserved(w) {
            cost
        } else {
            env.spec_reserved(w) as int
        }
    } else {
        0
    }
}

/// What the whole refund reconciliation credits to account `w`, from the
/// pre-state: the engine's deposit refund for the triggering depositor,
/// then the coordinator's unreserve for the non-triggering entries, each
/// release capped by what is still held.
pub open spec fn refund_credit<C: Config>(
    env: &C,
    d: Deposit,
    middles: Seq<Contribution>,
    w: u64,
) -> int {
    let engine_rel: int = if w == d.who {
        if d.amount <= env.spec_reserved(w) {
            d.amount as int
        } else {
            env.spec_reserved(w) as int
        }
    } else {
        0
    };
    let held = env.spec_reserved(w) - engine_rel;
    let mid: int = if has_account(middles, w) && env.spec_has_identity(w) {
        let cost = vote_cost(votes_of(middles, w));
        if cost <= held {
            cost
        } else {
            held
        }
    } else {
        0
    };
    engine_rel + mid
}

/// The account a signed origin carries; immaterial for other origins, which
/// every use guards against.
pub open spec fn spec_signed(origin: Origin) -> u64 {
    match origin {
        Origin::Signed(w) => w,
        _ => 0,
    }
}

/// What [`Pallet::reserve_an_amount_of_token`] returns, decided entirely by
/// the pre-state: the origin must be signed, the caller identified, and the
/// free balance sufficient.
pub open spec fn spec_reserve_result<C: Config>(env: &C, origin: Origin, amount: u64) -> Result<
    (),
    DispatchError,
> {
    if !(origin is Signed) {
        Err(DispatchError::BadOrigin)
    } else if !env.spec_has_identity(spec_signed(origin)) {
        Err(DispatchError::Module(Error::NoIdentity))
    } else if env.spec_free(spec_signed(origin)) < amount {
        Err(DispatchError::Ledger(LedgerError::InsufficientBalance))
    } else {
        Ok(())
    }
}

/// What [`Pallet::unreserve_an_amount_of_token`] returns: the origin must be
/// root and the target account identified; the release itself never fails.
pub open spec fn spec_unreserve_result<C: Config>(env: &C, origin: Origin, who: u64) -> Result<
    (),
    DispatchError,
> {
    if !(origin is Root) {
        Err(DispatchError::BadOrigin)
    } else if !env.spec_has_identity(who) {
        Err(DispatchError::Module(Error::NoIdentity))
    } else {
        Ok(())
    }
}

/// What the ledger actually releases when asked to unreserve `amount` for
/// `who`: the amount, capped by the account's hold.
pub open spec fn spec_released<C: Config>(env: &C, who: u64, amount: u64) -> int {
    if amount <= env.spec_reserved(who) {
        amount as int
    } else {
        env.spec_reserved(who) as int
    }
}

/// A record found at position `k` of a store with unique indices is the
/// record that [`seq_record`] denotes for its index.
pub proof fn lemma_seq_record_at(s: Seq<IndexRecord>, k: int)
    requires
        forall|i: int, j: int|
            0 <= i < j < s.len() ==> (#[trigger] s[i]).index != (#[trigger] s[j]).index,
        0 <= k < s.len(),
    ensures
        seq_has_record(s, s[k].index),
        seq_record(s, s[k].index) == s[k].contributions@,
{
    let index = s[k].index;
    assert(seq_has_record(s, index));
    let k2 = choose|k2: int| 0 <= k2 < s.len() && (#[trigger] s[k2]).index == index;
    if k2 < k {
        assert(s[k2].index != s[k].index);
    } else if k < k2 {
        assert(s[k].index != s[k2].index);
    }
}

/// The position of the index's record in the store, if one exists.
fn find_pos(v: &Vec<IndexRecord>, index: u32) -> (r: Option<usize>)
    ensures
        match r {
            Some(p) => 0 <= p < v@.len() && v@[p as int].index == index,
            None => forall|k: int| 0 <= k < v@.len() ==> (#[trigger] v@[k]).index != index,
        },
{
    let mut i: usize = 0;
    while i < v.len()
        invariant
            0 <= i <= v@.len(),
            forall|k: int| 0 <= k < i ==> (#[trigger] v@[k]).index != index,
        decreases v@.len() - i,
    {
        if v[i].index == index {
            return Some(i);
        }
        i += 1;
    }
    None
}

/// Whether `who` already appears among the contributions.
fn contains_who(v: &Vec<Contribution>, who: u64) -> (r: bool)
    ensures
        r == has_account(v@, who),
{
    let mut i: usize = 0;
    while i < v.len()
        invariant
            0 <= i <= v@.len(),
            forall|k: int| 0 <= k < i ==> (#[trigger] v@[k]).who != who,
        decreases v@.len() - i,
    {
        if v[i].who == who {
            return true;
        }
        i += 1;
    }
    false
}

/// An element-by-element copy of the contributions.
fn copy_contributions(v: &Vec<Contribution>) -> (r: Vec<Contribution>)
    ensures
        r@ == v@,
{
    let mut r: Vec<Contribution> = Vec::new();
    let mut i: usize = 0;
    while i < v.len()
        invariant
            0 <= i <= v@.len(),
            r@ == v@.take(i as int),
        decreases v@.len() - i,
    {
        r.push(v[i]);
        proof {
            assert(v@.take(i + 1).drop_last() =~= v@.take(i as int));
            assert(r@ =~= v@.take(i + 1));
        }
        i += 1;
    }
    proof {
        assert(v@.take(v@.len() as int) =~= v@);
    }
    r
}

/// The aggregate voting total of the contributions, or `None` where the sum
/// leaves the balance type.
fn checked_aggregate(v: &Vec<Contribution>) -> (r: Option<u64>)
    ensures
        r matches Some(a) ==> a == aggregate(v@) && aggregate(v@) <= u64::MAX,
        r is None ==> aggregate(v@) > u64::MAX,
{
    let mut acc: u64 = 0;
    let mut i: usize = 0;
    while i < v.len()
        invariant
            0 <= i <= v@.len(),
            acc == aggregate(v@.take(i as int)),
        decreases v@.len() - i,
    {
        let votes = v[i].votes;
        proof {
            assert(v@.take(i + 1).drop_last() =~= v@.take(i as int));
            assert(v@.take(i + 1).last() == v@[i as int]);
        }
        if acc <= u64::MAX - votes {
            acc = acc + votes;
        } else {
            proof {
                assert(aggregate(v@.take(i + 1)) > u64::MAX);
                lemma_aggregate_nonneg(v@.subrange(i + 1, v@.len() as int));
                lemma_aggregate_concat(v@.take(i + 1), v@.subrange(i + 1, v@.len() as int));
                assert(v@.take(i + 1) + v@.subrange(i + 1, v@.len() as int) =~= v@);
            }
            return None;
        }
        i += 1;
    }
    proof {
        assert(v@.take(v@.len() as int) =~= v@);
    }
    Some(acc)
}

/// Appending an entry leaves every other account's presence alone and adds
/// the entry's own account.
pub proof fn lemma_has_account_push(s: Seq<Contribution>, c: Contribution, w: u64)
    ensures
        has_account(s.push(c), w) == (has_account(s, w) || c.who == w),
{
    if has_account(s.push(c), w) {
        let k = choose|k: int| 0 <= k < s.push(c).len() && (#[trigger] s.push(c)[k]).who == w;
        if k < s.len() {
            assert(s[k] == s.push(c)[k]);
        }
    }
    if has_account(s, w) {
        let k = choose|k: int| 0 <= k < s.len() && (#[trigger] s[k]).who == w;
        assert(s.push(c)[k].who == w);
    }
    if c.who == w {
        assert(s.push(c)[s.len() as int].who == w);
    }
}

/// Appending an entry does not change the vote count read for any other
/// account, and sets the entry's own where the account was absent.
pub proof fn lemma_votes_of_push(s: Seq<Contribution>, c: Contribution, w: u64)
    ensures
        w != c.who ==> votes_of(s.push(c), w) == votes_of(s, w),
        w == c.who && !has_account(s, w) ==> votes_of(s.push(c), w) == c.votes,
    decreases s.len(),
{
    if s.len() == 0 {
        assert(s.push(c)[0] == c);
        assert(s.push(c).drop_first() =~= Seq::<Contribution>::empty());
        assert(votes_of(s, w) == 0);
        if w != c.who {
            assert(votes_of(s.push(c), w) == votes_of(s.push(c).drop_first(), w));
        }
    } else {
        assert(s.push(c)[0] == s[0]);
        assert(s.push(c).drop_first() =~= s.drop_first().push(c));
        if s[0].who == w {
            assert(has_account(s, w));
            assert(votes_of(s, w) == s[0].votes);
            assert(votes_of(s.push(c), w) == s.push(c)[0].votes);
        } else {
            if has_account(s.drop_first(), w) {
                let k = choose|k: int|
                    0 <= k < s.drop_first().len() && (#[trigger] s.drop_first()[k]).who == w;
                assert(s[k + 1].who == w);
                assert(has_account(s, w));
            }
            lemma_votes_of_push(s.drop_first(), c, w);
            assert(votes_of(s, w) == votes_of(s.drop_first(), w));
            assert(votes_of(s.push(c), w) == votes_of(s.drop_first().push(c), w));
        }
    }
}

/// Reconciliation notifications accumulate entry by entry.
pub proof fn lemma_refund_events_concat<C: Config>(
    env: &C,
    a: Seq<Contribution>,
    b: Seq<Contribution>,
)
    ensures
        refund_events(env, a + b) == refund_events(env, a) + refund_events(env, b),
    decreases a.len(),
{
    if a.len() == 0 {
        assert(a + b =~= b);
        assert(refund_events(env, a) + refund_events(env, b) =~= refund_events(env, b));
    } else {
        assert((a + b)[0] == a[0]);
        assert((a + b).len() > 0);
        assert((a + b).drop_first() =~= a.drop_first() + b);
        lemma_refund_events_concat(env, a.drop_first(), b);
        let head: Seq<Event> = if env.spec_has_identity(a[0].who) {
            seq![Event::AmountUnreserved((a[0].votes * a[0].votes) as u64)]
        } else {
            Seq::empty()
        };
        assert(head + (refund_events(env, a.drop_first()) + refund_events(env, b)) =~= (head
            + refund_events(env, a.drop_first())) + refund_events(env, b));
    }
}

/// The reconciliation notifications depend on the identity register alone.
pub proof fn lemma_refund_events_same_identities<C: Config>(a: &C, b: &C, s: Seq<Contribution>)
    requires
        forall|w: u64| #[trigger] a.spec_has_identity(w) == b.spec_has_identity(w),
    ensures
        refund_events(a, s) == refund_events(b, s),
    decreases s.len(),
{
    if s.len() > 0 {
        lemma_refund_events_same_identities(a, b, s.drop_first());
        assert(refund_events(a, s) =~= refund_events(b, s));
    }
}

/// The aggregate is never negative.
pub proof fn lemma_aggregate_nonneg(r: Seq<Contribution>)
    ensures
        aggregate(r) >= 0,
    decreases r.len(),
{
    if r.len() > 0 {
        lemma_aggregate_nonneg(r.drop_last());
    }
}

/// The aggregate of two records laid end to end is the sum of their
/// aggregates: vote totals add up contribution by contribution.
pub proof fn lemma_aggregate_concat(a: Seq<Contribution>, b: Seq<Contribution>)
    ensures
        aggregate(a + b) == aggregate(a) + aggregate(b),
    decreases b.len(),
{
    if b.len() == 0 {
        assert(a + b =~= a);
    } else {
        lemma_aggregate_concat(a, b.drop_last());
        assert((a + b).drop_last() =~= a + b.drop_last());
        assert((a + b).last() == b.last());
    }
}

} // verus!
