//! A verified in-memory model of the coordinator's collaborators.
//!
//! [`TestEnv`] implements [`Config`] with plain data: an account table for
//! the ledger and the identity register, and a referendum table for the
//! engine. The verifier holds it to every operation contract of the trait,
//! so tests exercising the coordinator against it exercise exactly the
//! behaviour the coordinator's proofs assume.

use vstd::prelude::*;

use crate::config::Config;
use crate::types::{Deposit, DispatchError, EngineError, LedgerError, Origin, ensure_root,
    ensure_signed};

verus! {

/// One account of the model ledger: its balances and whether its
/// display-name identity is verified.
#[derive(Clone, Copy, PartialEq, Eq, Debug)]
pub struct AccountState {
    pub id: u64,
    pub free: u64,
    pub reserved: u64,
    pub identified: bool,
}

/// One referendum of the model engine: whether it is still ongoing and the
/// decision deposit it holds, if any. Its index is its position in the
/// table, so indices are monotonic and never reused.
#[derive(Clone, Copy, PartialEq, Eq, Debug)]
pub struct RefState {
    pub active: bool,
    pub deposit: Option<Deposit>,
}

/// The model environment: ledger, identity register and referendum engine
/// in one value, plus the configuration the coordinator reads.
pub struct TestEnv {
    accounts: Vec<AccountState>,
    referenda: Vec<RefState>,
    threshold: u64,
    submission_deposit: u64,
    identity_deposit: u64,
    block: u64,
}

/// Whether the table holds an account with the id.
spec fn has_acct(s: Seq<AccountState>, who: u64) -> bool {
    exists|k: int| 0 <= k < s.len() && (#[trigger] s[k]).id == who
}

/// The table's account with the id (meaningful under [`has_acct`]).
spec fn acct_at(s: Seq<AccountState>, who: u64) -> AccountState {
    s[choose|k: int| 0 <= k < s.len() && (#[trigger] s[k]).id == who]
}

/// The free balance the table gives the id; an unknown account reads as
/// empty.
spec fn acct_free(s: Seq<AccountState>, who: u64) -> u64 {
    if has_acct(s, who) {
        acct_at(s, who).free
    } else {
        0
    }
}

/// The reserved balance the table gives the id.
spec fn acct_reserved(s: Seq<AccountState>, who: u64) -> u64 {
    if has_acct(s, who) {
        acct_at(s, who).reserved
    } else {
        0
    }
}

/// Whether the table marks the id as identified.
spec fn acct_identified(s: Seq<AccountState>, who: u64) -> bool {
    if has_acct(s, who) {
        acct_at(s, who).identified
    } else {
        false
    }
}

/// No id appears twice in the table.
spec fn distinct_ids(s: Seq<AccountState>) -> bool {
    forall|i: int, j: int| 0 <= i < j < s.len() ==> (#[trigger] s[i]).id != (#[trigger] s[j]).id
}

/// Every account's total balance fits the balance type.
spec fn balances_bounded(s: Seq<AccountState>) -> bool {
    forall|k: int| 0 <= k < s.len() ==> (#[trigger] s[k]).free + s[k].reserved <= u64::MAX
}

/// An account found at position `k` of a table with unique ids is the
/// account that [`acct_at`] denotes for its id.
proof fn lemma_acct_at_pos(s: Seq<AccountState>, k: int)
    requires
        distinct_ids(s),
        0 <= k < s.len(),
    ensures
        has_acct(s, s[k].id),
        acct_at(s, s[k].id) == s[k],
{
    let id = s[k].id;
    assert(has_acct(s, id));
    let k2 = choose|k2: int| 0 <= k2 < s.len() && (#[trigger] s[k2]).id == id;
    if k2 < k {
        assert(s[k2].id != s[k].id);
    } else if k < k2 {
        assert(s[k].id != s[k2].id);
    }
}

/// Updating one account in place leaves every other account's view of the
/// table alone.
proof fn lemma_acct_frame(pre: Seq<AccountState>, post: Seq<AccountState>, p: int)
    requires
        distinct_ids(pre),
        post.len() == pre.len(),
        forall|k: int| 0 <= k < pre.len() && k != p ==> post[k] == pre[k],
        0 <= p < pre.len(),
        post[p].id == pre[p].id,
    ensures
        distinct_ids(post),
        forall|w: u64| w != pre[p].id ==> #[trigger] acct_free(post, w) == acct_free(pre, w),
        forall|w: u64|
            w != pre[p].id ==> #[trigger] acct_reserved(post, w) == acct_reserved(pre, w),
        forall|w: u64|
            w != pre[p].id ==> #[trigger] acct_identified(post, w) == acct_identified(pre, w),
        acct_free(post, pre[p].id) == post[p].free,
        acct_reserved(post, pre[p].id) == post[p].reserved,
        acct_identified(post, pre[p].id) == post[p].identified,
        acct_free(pre, pre[p].id) == pre[p].free,
        acct_reserved(pre, pre[p].id) == pre[p].reserved,
        acct_identified(pre, pre[p].id) == pre[p].identified,
{
    assert forall|i: int, j: int| 0 <= i < j < post.len() implies (#[trigger] post[i]).id != (
    #[trigger] post[j]).id by {
        assert(post[i].id == pre[i].id);
        assert(post[j].id == pre[j].id);
    }
    lemma_acct_at_pos(pre, p);
    lemma_acct_at_pos(post, p);
    assert forall|w: u64| w != pre[p].id implies #[trigger] acct_free(post, w) == acct_free(
        pre,
        w,
    ) by {
        if has_acct(post, w) {
            let k = choose|k: int| 0 <= k < post.len() && (#[trigger] post[k]).id == w;
            assert(k != p);
            assert(post[k] == pre[k]);
            lemma_acct_at_pos(post, k);
            lemma_acct_at_pos(pre, k);
        } else {
            if has_acct(pre, w) {
                let k = choose|k: int| 0 <= k < pre.len() && (#[trigger] pre[k]).id == w;
                assert(k != p);
                assert(post[k].id == w);
                assert(has_acct(post, w));
            }
        }
    }
    assert forall|w: u64| w != pre[p].id implies #[trigger] acct_reserved(post, w)
        == acct_reserved(pre, w) by {
        if has_acct(post, w) {
            let k = choose|k: int| 0 <= k < post.len() && (#[trigger] post[k]).id == w;
            assert(k != p);
            assert(post[k] == pre[k]);
            lemma_acct_at_pos(post, k);
            lemma_acct_at_pos(pre, k);
        } else {
            if has_acct(pre, w) {
                let k = choose|k: int| 0 <= k < pre.len() && (#[trigger] pre[k]).id == w;
                assert(k != p);
                assert(post[k].id == w);
                assert(has_acct(post, w));
            }
        }
    }
    assert forall|w: u64| w != pre[p].id implies #[trigger] acct_identified(post, w)
        == acct_identified(pre, w) by {
        if has_acct(post, w) {
            let k = choose|k: int| 0 <= k < post.len() && (#[trigger] post[k]).id == w;
            assert(k != p);
            assert(post[k] == pre[k]);
            lemma_acct_at_pos(post, k);
            lemma_acct_at_pos(pre, k);
        } else {
            if has_acct(pre, w) {
                let k = choose|k: int| 0 <= k < pre.len() && (#[trigger] pre[k]).id == w;
                assert(k != p);
                assert(post[k].id == w);
                assert(has_acct(post, w));
            }
        }
    }
}

/// Appending a fresh account leaves every other account's view of the
/// table alone and gives the new id its fields.
proof fn lemma_acct_push(pre: Seq<AccountState>, a: AccountState)
    requires
        distinct_ids(pre),
        !has_acct(pre, a.id),
    ensures
        distinct_ids(pre.push(a)),
        forall|w: u64| w != a.id ==> #[trigger] acct_free(pre.push(a), w) == acct_free(pre, w),
        forall|w: u64|
            w != a.id ==> #[trigger] acct_reserved(pre.push(a), w) == acct_reserved(pre, w),
        forall|w: u64|
            w != a.id ==> #[trigger] acct_identified(pre.push(a), w) == acct_identified(pre, w),
        acct_free(pre.push(a), a.id) == a.free,
        acct_reserved(pre.push(a), a.id) == a.reserved,
        acct_identified(pre.push(a), a.id) == a.identified,
{
    let post = pre.push(a);
    let n = pre.len() as int;
    assert forall|i: int, j: int| 0 <= i < j < post.len() implies (#[trigger] post[i]).id != (
    #[trigger] post[j]).id by {
        if j < n {
            assert(post[i] == pre[i]);
            assert(post[j] == pre[j]);
        } else {
            assert(post[j] == a);
            assert(post[i] == pre[i]);
            if pre[i].id == a.id {
                assert(has_acct(pre, a.id));
            }
        }
    }
    lemma_acct_at_pos(post, n);
    assert forall|w: u64| w != a.id implies #[trigger] acct_free(post, w) == acct_free(
        pre,
        w,
    ) by {
        if has_acct(post, w) {
            let k = choose|k: int| 0 <= k < post.len() && (#[trigger] post[k]).id == w;
            assert(k != n);
            assert(post[k] == pre[k]);
            lemma_acct_at_pos(post, k);
            lemma_acct_at_pos(pre, k);
        } else {
            if has_acct(pre, w) {
                let k = choose|k: int| 0 <= k < pre.len() && (#[trigger] pre[k]).id == w;
                assert(post[k].id == w);
                assert(has_acct(post, w));
            }
        }
    }
    assert forall|w: u64| w != a.id implies #[trigger] acct_reserved(post, w) == acct_reserved(
        pre,
        w,
    ) by {
        if has_acct(post, w) {
            let k = choose|k: int| 0 <= k < post.len() && (#[trigger] post[k]).id == w;
            assert(k != n);
            assert(post[k] == pre[k]);
            lemma_acct_at_pos(post, k);
            lemma_acct_at_pos(pre, k);
        } else {
            if has_acct(pre, w) {
                let k = choose|k: int| 0 <= k < pre.len() && (#[trigger] pre[k]).id == w;
                assert(post[k].id == w);
                assert(has_acct(post, w));
            }
        }
    }
    assert forall|w: u64| w != a.id implies #[trigger] acct_identified(post, w)
        == acct_identified(pre, w) by {
        if has_acct(post, w) {
            let k = choose|k: int| 0 <= k < post.len() && (#[trigger] post[k]).id == w;
            assert(k != n);
            assert(post[k] == pre[k]);
            lemma_acct_at_pos(post, k);
            lemma_acct_at_pos(pre, k);
        } else {
            if has_acct(pre, w) {
                let k = choose|k: int| 0 <= k < pre.len() && (#[trigger] pre[k]).id == w;
                assert(post[k].id == w);
                assert(has_acct(post, w));
            }
        }
    }
}

impl Config for TestEnv {
    /// Account ids are unique, every account's total balance fits the
    /// balance type, and the referendum table fits the index type.
    closed spec fn wf(&self) -> bool {
        &&& distinct_ids(self.accounts@)
        &&& balances_bounded(self.accounts@)
        &&& self.referenda@.len() <= u32::MAX
    }

    closed spec fn spec_threshold(&self) -> u64 {
        self.threshold
    }

    closed spec fn spec_now(&self) -> u64 {
        self.block
    }

    closed spec fn spec_has_identity(&self, who: u64) -> bool {
        acct_identified(self.accounts@, who)
    }

    closed spec fn spec_free(&self, who: u64) -> u64 {
        acct_free(self.accounts@, who)
    }

    closed spec fn spec_reserved(&self, who: u64) -> u64 {
        acct_reserved(self.accounts@, who)
    }

    closed spec fn spec_is_ongoing(&self, index: u32) -> bool {
        index < self.referenda@.len() && self.referenda@[index as int].active
    }

    closed spec fn spec_deposit(&self, index: u32) -> Option<Deposit> {
        if index < self.referenda@.len() {
            self.referenda@[index as int].deposit
        } else {
            None
        }
    }

    closed spec fn spec_referendum_count(&self) -> u32 {
        self.referenda@.len() as u32
    }

    proof fn lemma_ongoing_below_count(&self, index: u32) {
    }

    fn launch_deposit(&self) -> (r: u64) {
        self.threshold
    }

    fn block_number(&self) -> (r: u64) {
        self.block
    }

    fn has_identity(&self, who: u64) -> (r: bool) {
        match find_acct(&self.accounts, who) {
            Some(p) => {
                proof {
                    lemma_acct_at_pos(self.accounts@, p as int);
                }
                self.accounts[p].identified
            },
            None => false,
        }
    }

    fn is_ongoing(&self, index: u32) -> (r: bool) {
        let idx = index as usize;
        idx < self.referenda.len() && self.referenda[idx].active
    }

    fn reserve(&mut self, who: u64, amount: u64) -> (r: Result<(), DispatchError>) {
        match find_acct(&self.accounts, who) {
            Some(p) => {
                let a = self.accounts[p];
                proof {
                    lemma_acct_at_pos(self.accounts@, p as int);
                }
                if amount <= a.free {
                    self.accounts[p].free = a.free - amount;
                    self.accounts[p].reserved = a.reserved + amount;
                    proof {
                        lemma_acct_frame(old(self).accounts@, self.accounts@, p as int);
                        assert(balances_bounded(self.accounts@)) by {
                            assert forall|k: int|
                                0 <= k < self.accounts@.len() implies (#[trigger] self.accounts@[
                                k]).free + self.accounts@[k].reserved <= u64::MAX by {
                                if k != p {
                                    assert(self.accounts@[k] == old(self).accounts@[k]);
                                }
                            }
                        }
                    }
                    Ok(())
                } else {
                    Err(DispatchError::Ledger(LedgerError::InsufficientBalance))
                }
            },
            None => {
                if amount == 0 {
                    Ok(())
                } else {
                    Err(DispatchError::Ledger(LedgerError::InsufficientBalance))
                }
            },
        }
    }

    fn unreserve(&mut self, who: u64, amount: u64) -> (released: u64) {
        match find_acct(&self.accounts, who) {
            Some(p) => {
                let a = self.accounts[p];
                proof {
                    lemma_acct_at_pos(self.accounts@, p as int);
                }
                let rel = if amount <= a.reserved {
                    amount
                } else {
                    a.reserved
                };
                self.accounts[p].free = a.free + rel;
                self.accounts[p].reserved = a.reserved - rel;
                proof {
                    lemma_acct_frame(old(self).accounts@, self.accounts@, p as int);
                    assert(balances_bounded(self.accounts@)) by {
                        assert forall|k: int|
                            0 <= k < self.accounts@.len() implies (#[trigger] self.accounts@[
                            k]).free + self.accounts@[k].reserved <= u64::MAX by {
                            if k != p {
                                assert(self.accounts@[k] == old(self).accounts@[k]);
                            }
                        }
                    }
                }
                rel
            },
            None => 0,
        }
    }

    fn submit(&mut self, who: u64, proposal: u64, deadline: u64) -> (r: Result<
        u32,
        DispatchError,
    >) {
        if self.referenda.len() >= (u32::MAX as usize) {
            return Err(DispatchError::Engine(EngineError::Exhausted));
        }
        let dep = self.submission_deposit;
        match self.reserve(who, dep) {
            Ok(u) => u,
            Err(e) => {
                return Err(e);
            },
        };
        let ghost mid = *self;
        let index = self.referenda.len() as u32;
        self.referenda.push(RefState { active: true, deposit: None });
        proof {
            assert(self.referenda@ == mid.referenda@.push(
                (RefState { active: true, deposit: None }),
            ));
            assert forall|i: u32| i != index implies #[trigger] self.spec_is_ongoing(i) == old(
                self,
            ).spec_is_ongoing(i) by {
                assert(mid.spec_is_ongoing(i) == old(self).spec_is_ongoing(i));
                if (i as int) < mid.referenda@.len() {
                    assert(self.referenda@[i as int] == mid.referenda@[i as int]);
                }
            }
            assert forall|i: u32| i != index implies #[trigger] self.spec_deposit(i) == old(
                self,
            ).spec_deposit(i) by {
                assert(mid.spec_deposit(i) == old(self).spec_deposit(i));
                if (i as int) < mid.referenda@.len() {
                    assert(self.referenda@[i as int] == mid.referenda@[i as int]);
                }
            }
            assert(mid.spec_referendum_count() == old(self).spec_referendum_count());
            assert(!old(self).spec_is_ongoing(index));
            assert(old(self).spec_deposit(index) is None);
            assert forall|w: u64| w != who implies #[trigger] self.spec_free(w) == old(
                self,
            ).spec_free(w) by {
                assert(mid.spec_free(w) == old(self).spec_free(w));
                assert(self.spec_free(w) == mid.spec_free(w));
            }
            assert forall|w: u64| w != who implies #[trigger] self.spec_reserved(w) == old(
                self,
            ).spec_reserved(w) by {
                assert(mid.spec_reserved(w) == old(self).spec_reserved(w));
                assert(self.spec_reserved(w) == mid.spec_reserved(w));
            }
            assert forall|w: u64| #[trigger] self.spec_has_identity(w) == old(
                self,
            ).spec_has_identity(w) by {
                assert(mid.spec_has_identity(w) == old(self).spec_has_identity(w));
                assert(self.spec_has_identity(w) == mid.spec_has_identity(w));
            }
            assert(self.spec_free(who) == mid.spec_free(who));
            assert(self.spec_reserved(who) == mid.spec_reserved(who));
        }
        Ok(index)
    }

    fn place_decision_deposit(&mut self, who: u64, index: u32, amount: u64) -> (r: Result<
        (),
        DispatchError,
    >) {
        let idx = index as usize;
        if idx >= self.referenda.len() || !self.referenda[idx].active {
            return Err(DispatchError::Engine(EngineError::NotOngoing));
        }
        if self.referenda[idx].deposit.is_some() {
            return Err(DispatchError::Engine(EngineError::HasDeposit));
        }
        match self.reserve(who, amount) {
            Ok(u) => u,
            Err(e) => {
                return Err(e);
            },
        };
        let ghost mid = *self;
        self.referenda[idx].deposit = Some(Deposit { who, amount });
        proof {
            assert forall|i: u32| #[trigger] self.spec_is_ongoing(i) == old(self).spec_is_ongoing(
                i,
            ) by {
                assert(mid.spec_is_ongoing(i) == old(self).spec_is_ongoing(i));
                if i != index && (i as int) < mid.referenda@.len() {
                    assert(self.referenda@[i as int] == mid.referenda@[i as int]);
                }
            }
            assert forall|i: u32| i != index implies #[trigger] self.spec_deposit(i) == old(
                self,
            ).spec_deposit(i) by {
                assert(mid.spec_deposit(i) == old(self).spec_deposit(i));
                if (i as int) < mid.referenda@.len() {
                    assert(self.referenda@[i as int] == mid.referenda@[i as int]);
                }
            }
            assert(mid.spec_referendum_count() == old(self).spec_referendum_count());
            assert forall|w: u64| w != who implies #[trigger] self.spec_free(w) == old(
                self,
            ).spec_free(w) by {
                assert(mid.spec_free(w) == old(self).spec_free(w));
                assert(self.spec_free(w) == mid.spec_free(w));
            }
            assert forall|w: u64| w != who implies #[trigger] self.spec_reserved(w) == old(
                self,
            ).spec_reserved(w) by {
                assert(mid.spec_reserved(w) == old(self).spec_reserved(w));
                assert(self.spec_reserved(w) == mid.spec_reserved(w));
            }
            assert forall|w: u64| #[trigger] self.spec_has_identity(w) == old(
                self,
            ).spec_has_identity(w) by {
                assert(mid.spec_has_identity(w) == old(self).spec_has_identity(w));
                assert(self.spec_has_identity(w) == mid.spec_has_identity(w));
            }
            assert(self.spec_free(who) == mid.spec_free(who));
            assert(self.spec_reserved(who) == mid.spec_reserved(who));
        }
        Ok(())
    }

    fn refund_decision_deposit(&mut self, index: u32) -> (r: Result<(), DispatchError>) {
        let idx = index as usize;
        if idx >= self.referenda.len() {
            return Err(DispatchError::Engine(EngineError::NoDeposit));
        }
        let dopt = self.referenda[idx].deposit;
        match dopt {
            None => Err(DispatchError::Engine(EngineError::NoDeposit)),
            Some(dep) => {
                self.referenda[idx].deposit = None;
                let ghost mid = *self;
                proof {
                    assert(mid.spec_free(dep.who) == old(self).spec_free(dep.who));
                    assert(mid.spec_reserved(dep.who) == old(self).spec_reserved(dep.who));
                }
                let _released = self.unreserve(dep.who, dep.amount);
                proof {
                    assert forall|i: u32| #[trigger] self.spec_is_ongoing(i) == old(
                        self,
                    ).spec_is_ongoing(i) by {
                        assert(self.spec_is_ongoing(i) == mid.spec_is_ongoing(i));
                        if i != index && (i as int) < old(self).referenda@.len() {
                            assert(mid.referenda@[i as int] == old(self).referenda@[i as int]);
                        }
                    }
                    assert forall|i: u32| i != index implies #[trigger] self.spec_deposit(i)
                        == old(self).spec_deposit(i) by {
                        assert(self.spec_deposit(i) == mid.spec_deposit(i));
                        if (i as int) < old(self).referenda@.len() {
                            assert(mid.referenda@[i as int] == old(self).referenda@[i as int]);
                        }
                    }
                    assert(self.spec_deposit(index) == mid.spec_deposit(index));
                    assert(mid.spec_referendum_count() == old(self).spec_referendum_count());
                    assert forall|w: u64| w != dep.who implies #[trigger] self.spec_free(w)
                        == old(self).spec_free(w) by {
                        assert(mid.spec_free(w) == old(self).spec_free(w));
                    }
                    assert forall|w: u64| w != dep.who implies #[trigger] self.spec_reserved(w)
                        == old(self).spec_reserved(w) by {
                        assert(mid.spec_reserved(w) == old(self).spec_reserved(w));
                    }
                    assert forall|w: u64| #[trigger] self.spec_has_identity(w) == old(
                        self,
                    ).spec_has_identity(w) by {
                        assert(mid.spec_has_identity(w) == old(self).spec_has_identity(w));
                    }
                }
                Ok(())
            },
        }
    }
}

/// The position of the id's account in the table, if one exists.
fn find_acct(v: &Vec<AccountState>, who: u64) -> (r: Option<usize>)
    ensures
        match r {
            Some(p) => 0 <= p < v@.len() && v@[p as int].id == who,
            None => !has_acct(v@, who),
        },
{
    let mut i: usize = 0;
    while i < v.len()
        invariant
            0 <= i <= v@.len(),
            forall|k: int| 0 <= k < i ==> (#[trigger] v@[k]).id != who,
        decreases v@.len() - i,
    {
        if v[i].id == who {
            return Some(i);
        }
        i += 1;
    }
    None
}

impl TestEnv {
    /// An empty environment: no accounts, no referenda, block zero, with
    /// the given launch deposit threshold, submission deposit and identity
    /// deposit.
    pub fn new(threshold: u64, submission_deposit: u64, identity_deposit: u64) -> (r: TestEnv)
        ensures
            r.wf(),
            r.spec_threshold() == threshold,
            r.spec_now() == 0,
            r.spec_referendum_count() == 0,
            forall|w: u64| !(#[trigger] r.spec_has_identity(w)),
            forall|w: u64| #[trigger] r.spec_free(w) == 0,
            forall|w: u64| #[trigger] r.spec_reserved(w) == 0,
            forall|i: u32| !(#[trigger] r.spec_is_ongoing(i)),
            forall|i: u32| (#[trigger] r.spec_deposit(i)) is None,
    {
        TestEnv {
            accounts: Vec::new(),
            referenda: Vec::new(),
            threshold,
            submission_deposit,
            identity_deposit,
            block: 0,
        }
    }

    /// Mints `amount` into the account's free balance, creating the
    /// account if the ledger does not know it yet.
    pub fn fund(&mut self, who: u64, amount: u64)
        requires
            old(self).wf(),
            old(self).spec_free(who) + old(self).spec_reserved(who) + amount <= u64::MAX,
        ensures
            final(self).wf(),
            final(self).spec_free(who) == old(self).spec_free(who) + amount,
            final(self).spec_reserved(who) == old(self).spec_reserved(who),
            final(self).spec_has_identity(who) == old(self).spec_has_identity(who),
            forall|w: u64| w != who ==> #[trigger] final(self).spec_free(w) == old(self).spec_free(
                w,
            ),
            forall|w: u64|
                w != who ==> #[trigger] final(self).spec_reserved(w) == old(self).spec_reserved(w),
            forall|w: u64|
                #[trigger] final(self).spec_has_identity(w) == old(self).spec_has_identity(w),
            forall|i: u32| #[trigger] final(self).spec_is_ongoing(i) == old(self).spec_is_ongoing(i),
            forall|i: u32| #[trigger] final(self).spec_deposit(i) == old(self).spec_deposit(i),
            final(self).spec_referendum_count() == old(self).spec_referendum_count(),
            final(self).spec_threshold() == old(self).spec_threshold(),
            final(self).spec_now() == old(self).spec_now(),
    {
        match find_acct(&self.accounts, who) {
            Some(p) => {
                let a = self.accounts[p];
                proof {
                    lemma_acct_at_pos(self.accounts@, p as int);
                }
                self.accounts[p].free = a.free + amount;
                proof {
                    lemma_acct_frame(old(self).accounts@, self.accounts@, p as int);
                    assert(balances_bounded(self.accounts@)) by {
                        assert forall|k: int|
                            0 <= k < self.accounts@.len() implies (#[trigger] self.accounts@[
                            k]).free + self.accounts@[k].reserved <= u64::MAX by {
                            if k != p {
                                assert(self.accounts@[k] == old(self).accounts@[k]);
                            }
                        }
                    }
                }
            },
            None => {
                let a = AccountState { id: who, free: amount, reserved: 0, identified: false };
                self.accounts.push(a);
                proof {
                    assert(self.accounts@ =~= old(self).accounts@.push(a));
                    lemma_acct_push(old(self).accounts@, a);
                    assert(balances_bounded(self.accounts@)) by {
                        assert forall|k: int|
                            0 <= k < self.accounts@.len() implies (#[trigger] self.accounts@[
                            k]).free + self.accounts@[k].reserved <= u64::MAX by {
                            if k < old(self).accounts@.len() {
                                assert(self.accounts@[k] == old(self).accounts@[k]);
                            }
                        }
                    }
                }
            },
        }
    }

    /// Registers a verified display-name identity for the signed caller,
    /// reserving the identity deposit from its free balance. Fails with
    /// the ledger's error when the balance cannot cover the deposit, and
    /// refuses an unsigned caller.
    pub fn set_identity(&mut self, origin: Origin) -> (r: Result<(), DispatchError>)
        requires
            old(self).wf(),
        ensures
            final(self).wf(),
            !(origin is Signed) ==> r == Err::<(), DispatchError>(DispatchError::BadOrigin),
            origin matches Origin::Signed(who) ==> {
                &&& r is Ok <==> old(self).spec_identity_deposit() <= old(self).spec_free(who)
                &&& r is Err ==> r == Err::<(), DispatchError>(DispatchError::Ledger(
                    LedgerError::InsufficientBalance,
                ))
                &&& r is Ok ==> {
                    &&& final(self).spec_has_identity(who)
                    &&& final(self).spec_free(who) == old(self).spec_free(who) - old(
                        self,
                    ).spec_identity_deposit()
                    &&& final(self).spec_reserved(who) == old(self).spec_reserved(who) + old(
                        self,
                    ).spec_identity_deposit()
                }
                &&& forall|w: u64|
                    w != who ==> #[trigger] final(self).spec_free(w) == old(self).spec_free(w)
                &&& forall|w: u64|
                    w != who ==> #[trigger] final(self).spec_reserved(w) == old(
                        self,
                    ).spec_reserved(w)
                &&& forall|w: u64|
                    w != who ==> #[trigger] final(self).spec_has_identity(w) == old(
                        self,
                    ).spec_has_identity(w)
            },
            r is Err ==> final(self).spec_free(spec_signed_of(origin)) == old(self).spec_free(
                spec_signed_of(origin),
            ) && final(self).spec_reserved(spec_signed_of(origin)) == old(self).spec_reserved(
                spec_signed_of(origin),
            ) && final(self).spec_has_identity(spec_signed_of(origin)) == old(
                self,
            ).spec_has_identity(spec_signed_of(origin)),
            forall|i: u32| #[trigger] final(self).spec_is_ongoing(i) == old(self).spec_is_ongoing(i),
            forall|i: u32| #[trigger] final(self).spec_deposit(i) == old(self).spec_deposit(i),
            final(self).spec_referendum_count() == old(self).spec_referendum_count(),
            final(self).spec_threshold() == old(self).spec_threshold(),
            final(self).spec_now() == old(self).spec_now(),
            final(self).spec_identity_deposit() == old(self).spec_identity_deposit(),
            final(self).spec_submission_deposit() == old(self).spec_submission_deposit(),
    {
        let who = match ensure_signed(origin) {
            Ok(w) => w,
            Err(e) => {
                return Err(e);
            },
        };
        let dep = self.identity_deposit;
        match find_acct(&self.accounts, who) {
            Some(p) => {
                let a = self.accounts[p];
                proof {
                    lemma_acct_at_pos(self.accounts@, p as int);
                }
                if dep <= a.free {
                    self.accounts[p].free = a.free - dep;
                    self.accounts[p].reserved = a.reserved + dep;
                    self.accounts[p].identified = true;
                    proof {
                        lemma_acct_frame(old(self).accounts@, self.accounts@, p as int);
                        assert(balances_bounded(self.accounts@)) by {
                            assert forall|k: int|
                                0 <= k < self.accounts@.len() implies (#[trigger] self.accounts@[
                                k]).free + self.accounts@[k].reserved <= u64::MAX by {
                                if k != p {
                                    assert(self.accounts@[k] == old(self).accounts@[k]);
                                }
                            }
                        }
                    }
                    Ok(())
                } else {
                    Err(DispatchError::Ledger(LedgerError::InsufficientBalance))
                }
            },
            None => {
                if dep == 0 {
                    let a = AccountState { id: who, free: 0, reserved: 0, identified: true };
                    self.accounts.push(a);
                    proof {
                        assert(self.accounts@ =~= old(self).accounts@.push(a));
                        lemma_acct_push(old(self).accounts@, a);
                        assert(balances_bounded(self.accounts@)) by {
                            assert forall|k: int|
                                0 <= k < self.accounts@.len() implies (#[trigger] self.accounts@[
                                k]).free + self.accounts@[k].reserved <= u64::MAX by {
                                if k < old(self).accounts@.len() {
                                    assert(self.accounts@[k] == old(self).accounts@[k]);
                                }
                            }
                        }
                    }
                    Ok(())
                } else {
                    Err(DispatchError::Ledger(LedgerError::InsufficientBalance))
                }
            },
        }
    }

    /// Cancels an ongoing referendum: it leaves its launch phase for good.
    /// Requires root authority; any deposit it holds stays held until
    /// refunded.
    pub fn cancel(&mut self, origin: Origin, index: u32) -> (r: Result<(), DispatchError>)
        requires
            old(self).wf(),
        ensures
            final(self).wf(),
            !(origin is Root) ==> r == Err::<(), DispatchError>(DispatchError::BadOrigin),
            origin is Root && !old(self).spec_is_ongoing(index) ==> r == Err::<(), DispatchError>(
                DispatchError::Engine(EngineError::NotOngoing),
            ),
            origin is Root && old(self).spec_is_ongoing(index) ==> r is Ok && !final(self).spec_is_ongoing(index),
            r is Err ==> final(self).spec_is_ongoing(index) == old(self).spec_is_ongoing(index),
            forall|w: u64| #[trigger] final(self).spec_free(w) == old(self).spec_free(w),
            forall|w: u64| #[trigger] final(self).spec_reserved(w) == old(self).spec_reserved(w),
            forall|w: u64|
                #[trigger] final(self).spec_has_identity(w) == old(self).spec_has_identity(w),
            forall|i: u32|
                i != index ==> #[trigger] final(self).spec_is_ongoing(i) == old(
                    self,
                ).spec_is_ongoing(i),
            forall|i: u32| #[trigger] final(self).spec_deposit(i) == old(self).spec_deposit(i),
            final(self).spec_referendum_count() == old(self).spec_referendum_count(),
            final(self).spec_threshold() == old(self).spec_threshold(),
            final(self).spec_now() == old(self).spec_now(),
    {
        match ensure_root(origin) {
            Ok(u) => u,
            Err(e) => {
                return Err(e);
            },
        };
        let idx = index as usize;
        if idx >= self.referenda.len() || !self.referenda[idx].active {
            return Err(DispatchError::Engine(EngineError::NotOngoing));
        }
        self.referenda[idx].active = false;
        proof {
            assert forall|i: u32| i != index implies #[trigger] self.spec_is_ongoing(i) == old(
                self,
            ).spec_is_ongoing(i) by {
                if (i as int) < old(self).referenda@.len() {
                    assert(self.referenda@[i as int] == old(self).referenda@[i as int]);
                }
            }
            assert forall|i: u32| #[trigger] self.spec_deposit(i) == old(self).spec_deposit(
                i,
            ) by {
                if i != index && (i as int) < old(self).referenda@.len() {
                    assert(self.referenda@[i as int] == old(self).referenda@[i as int]);
                }
            }
        }
        Ok(())
    }

    /// Moves the logical clock to the given block.
    pub fn set_block_number(&mut self, block: u64)
        requires
            old(self).wf(),
        ensures
            final(self).wf(),
            final(self).spec_now() == block,
            forall|w: u64| #[trigger] final(self).spec_free(w) == old(self).spec_free(w),
            forall|w: u64| #[trigger] final(self).spec_reserved(w) == old(self).spec_reserved(w),
            forall|w: u64|
                #[trigger] final(self).spec_has_identity(w) == old(self).spec_has_identity(w),
            forall|i: u32| #[trigger] final(self).spec_is_ongoing(i) == old(self).spec_is_ongoing(i),
            forall|i: u32| #[trigger] final(self).spec_deposit(i) == old(self).spec_deposit(i),
            final(self).spec_referendum_count() == old(self).spec_referendum_count(),
            final(self).spec_threshold() == old(self).spec_threshold(),
    {
        self.block = block;
    }

    /// The deposit the identity register takes when an identity is set.
    pub closed spec fn spec_identity_deposit(&self) -> u64 {
        self.identity_deposit
    }

    /// The deposit the engine takes from a submitter.
    pub closed spec fn spec_submission_deposit(&self) -> u64 {
        self.submission_deposit
    }

    /// The account's free balance.
    pub fn free_balance(&self, who: u64) -> (r: u64)
        requires
            self.wf(),
        ensures
            r == self.spec_free(who),
    {
        match find_acct(&self.accounts, who) {
            Some(p) => {
                proof {
                    lemma_acct_at_pos(self.accounts@, p as int);
                }
                self.accounts[p].free
            },
            None => 0,
        }
    }

    /// The account's reserved balance.
    pub fn reserved_balance(&self, who: u64) -> (r: u64)
        requires
            self.wf(),
        ensures
            r == self.spec_reserved(who),
    {
        match find_acct(&self.accounts, who) {
            Some(p) => {
                proof {
                    lemma_acct_at_pos(self.accounts@, p as int);
                }
                self.accounts[p].reserved
            },
            None => 0,
        }
    }

    /// How many referenda the engine has ever accepted.
    pub fn referendum_count(&self) -> (r: u32)
        requires
            self.wf(),
        ensures
            r == self.spec_referendum_count(),
    {
        self.referenda.len() as u32
    }

    /// The decision deposit held for the referendum, if any.
    pub fn decision_deposit(&self, index: u32) -> (r: Option<Deposit>)
        ensures
            r == self.spec_deposit(index),
    {
        let idx = index as usize;
        if idx < self.referenda.len() {
            self.referenda[idx].deposit
        } else {
            None
        }
    }
}

/// The account a signed origin carries; immaterial for other origins.
pub open spec fn spec_signed_of(origin: Origin) -> u64 {
    match origin {
        Origin::Signed(w) => w,
        _ => 0,
    }
}

} // verus!
