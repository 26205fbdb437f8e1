//! The transactional store of requested packages. The store itself is a
//! pure model: it hands the surrounding program the lock name to take, the
//! state to persist on commit, and nothing at all on any other path, which
//! is what keeps an aborted transaction from touching `state.yml`.

use vstd::prelude::*;

use crate::errors::{DBError, TransactionError};
use crate::name::PackageName;
use crate::requirement::{req_sem, requirement_wf, Requirement};
use crate::types::PackageSpecifier;
use crate::version::VerKey;

verus! {

/// One persisted request: the package and the requirement asked for.
#[derive(Debug)]
pub struct PackageRequest {
    pub name: PackageName,
    pub version: Requirement,
}

/// The persisted document: the requested packages, each name once.
#[derive(Debug)]
pub struct State {
    pub requested: Vec<PackageRequest>,
}

/// Names occur at most once.
pub open spec fn state_wf(s: State) -> bool {
    forall|i: int, j: int|
        0 <= i < j < s.requested@.len() ==> (#[trigger] s.requested@[i]).name@ != (
        #[trigger] s.requested@[j]).name@
}

/// The first request under a name.
pub open spec fn find_req(rs: Seq<PackageRequest>, n: Seq<char>) -> Option<PackageRequest>
    decreases rs.len(),
{
    if rs.len() == 0 {
        None
    } else if rs[0].name@ == n {
        Some(rs[0])
    } else {
        find_req(rs.drop_first(), n)
    }
}

/// Every persisted request names a real package with a sound requirement.
pub open spec fn state_entries_wf(st: State) -> bool {
    forall|i: int|
        0 <= i < st.requested@.len() ==> crate::name::name_wf(
            (#[trigger] st.requested@[i]).name@,
        ) && requirement_wf(st.requested@[i].version)
}

impl State {
    /// The empty state, which a missing file stands for.
    pub fn new() -> (r: State)
        ensures
            r.requested@.len() == 0,
            state_wf(r),
    {
        State { requested: Vec::new() }
    }

    /// Whether the state is fit to open a transaction over: every name at
    /// most once, every entry a real name with a sound requirement.
    pub fn is_wf(&self) -> (r: bool)
        ensures
            r == (state_wf(*self) && state_entries_wf(*self)),
    {
        let n = self.requested.len();
        let mut i: usize = 0;
        while i < n
            invariant
                i <= n == self.requested@.len(),
                forall|a: int, b: int|
                    0 <= a < b < self.requested@.len() && a < i ==> (
                    #[trigger] self.requested@[a]).name@ != (#[trigger] self.requested@[b]).name@,
                forall|a: int|
                    0 <= a < i ==> crate::name::name_wf(
                        (#[trigger] self.requested@[a]).name@,
                    ) && requirement_wf(self.requested@[a].version),
            decreases n - i,
        {
            if !self.requested[i].name.is_wf() || !self.requested[i].version.is_wf() {
                return false;
            }
            let mut j: usize = i + 1;
            while j < n
                invariant
                    i < j <= n == self.requested@.len(),
                    forall|b: int|
                        i < b < j ==> (#[trigger] self.requested@[b]).name@
                            != self.requested@[i as int].name@,
                decreases n - j,
            {
                if self.requested[i].name == self.requested[j].name {
                    proof {
                        assert(self.requested@[i as int].name@
                            == self.requested@[j as int].name@);
                    }
                    return false;
                }
                j = j + 1;
            }
            i = i + 1;
        }
        true
    }
}

/// The name the result of a lock-key digest is known by.
pub uninterp spec fn md5_hex(s: Seq<char>) -> Seq<char>;

/// Relies on md5::compute and its lower-hex form: two hex digits for each of
/// the sixteen digest bytes, a function of the input alone.
#[verifier::external_body]
fn digest_hex(s: &str) -> (r: String)
    ensures
        r@ == md5_hex(s@),
        r@.len() == 32,
{
    format!("{:x}", md5::compute(s))
}

/// The identity of the cross-process lock for a target root: a short stable
/// digest of the root's identifier.
pub fn lock_id(rid: &str) -> (r: String)
    ensures
        r@ == md5_hex(rid@),
        r@.len() == 32,
{
    digest_hex(rid)
}

/// What probing the named lock without blocking observed.
#[derive(Debug)]
pub enum LockProbe {
    /// The probe took the lock: no transaction was active.
    Acquired,
    /// The lock was held elsewhere.
    WouldBlock,
    /// The probe failed for another reason.
    Failed,
}

/// Whether a transaction is active, judged from a lock probe.
pub fn transaction_active(probe: LockProbe) -> (r: Result<bool, TransactionError>)
    ensures
        probe is Acquired ==> r == Result::<bool, TransactionError>::Ok(false),
        probe is WouldBlock ==> r == Result::<bool, TransactionError>::Ok(true),
        probe is Failed ==> r == Result::<bool, TransactionError>::Err(
            TransactionError::LockError,
        ),
{
    match probe {
        LockProbe::Acquired => Ok(false),
        LockProbe::WouldBlock => Ok(true),
        LockProbe::Failed => Err(TransactionError::LockError),
    }
}

/// The requested-package store: its lock identity and, inside a
/// transaction, the working state.
pub struct Database {
    pub id: String,
    pub state: Option<State>,
    pub in_txn: bool,
}

/// An open transaction always carries a working state.
pub open spec fn db_wf(d: Database) -> bool {
    d.in_txn ==> d.state is Some
}

impl Database {
    /// A store for the target root with the given lock identity.
    pub fn new(id: String) -> (r: Database)
        ensures
            r.id@ == id@,
            r.state is None,
            !r.in_txn,
            db_wf(r),
    {
        Database { id, state: None, in_txn: false }
    }

    /// The name under which the cross-process lock is taken.
    pub fn lock_name(&self) -> (r: String)
        ensures
            r@ == "mqpkg."@ + self.id@,
    {
        let mut s = "mqpkg.".to_owned();
        s.append(self.id.as_str());
        s
    }

    /// Whether a transaction is open.
    pub fn in_transaction(&self) -> (r: bool)
        ensures
            r == self.in_txn,
    {
        self.in_txn
    }

    /// Opens a transaction over the state read back from disk; a missing
    /// file reads back as the empty state.
    pub fn begin(&mut self, loaded: Option<State>)
        requires
            !old(self).in_txn,
        ensures
            final (self).in_txn,
            db_wf(*final (self)),
            final (self).id@ == old(self).id@,
            final (self).state matches Some(st) && (match loaded {
                Some(l) => st == l,
                None => st.requested@.len() == 0 && state_wf(st),
            }),
    {
        let st = match loaded {
            Some(l) => l,
            None => State::new(),
        };
        self.state = Some(st);
        self.in_txn = true;
    }

    /// Inserts or replaces one requested package.
    pub fn add(&mut self, package: &PackageSpecifier) -> (r: Result<(), DBError>)
        requires
            db_wf(*old(self)),
        ensures
            db_wf(*final (self)),
            !old(self).in_txn ==> (r matches Err(DBError::NoTransaction) && *final (self)
                == *old(self)),
            old(self).in_txn ==> (r is Ok && final (self).in_txn && final (self).id@ == old(
                self,
            ).id@ && final (self).state is Some),
            old(self).in_txn ==> (state_wf(old(self).state.unwrap()) ==> state_wf(
                final (self).state.unwrap(),
            )),
            old(self).in_txn ==> (find_req(
                final (self).state.unwrap().requested@,
                package.name@,
            ) matches Some(pr) && pr.name@ == package.name@ && (forall|k: VerKey|
                req_sem(pr.version, k) == req_sem(package.version, k)) && (requirement_wf(
                package.version,
            ) ==> requirement_wf(pr.version))),
            old(self).in_txn ==> (forall|dn: Seq<char>|
                dn != package.name@ ==> #[trigger] find_req(
                    final (self).state.unwrap().requested@,
                    dn,
                ) == find_req(old(self).state.unwrap().requested@, dn)),
    {
        if !self.in_txn {
            return Err(DBError::NoTransaction);
        }
        let mut st = match self.state.take() {
            None => {
                proof {
                    assert(false);
                }
                return Err(DBError::NoTransaction);
            },
            Some(st) => st,
        };
        upsert_request(&mut st.requested, package);
        self.state = Some(st);
        Ok(())
    }

    /// The requested packages, visible only inside a transaction.
    pub fn requested(&self) -> (r: Result<&Vec<PackageRequest>, DBError>)
        requires
            db_wf(*self),
        ensures
            self.in_txn ==> (r matches Ok(v) && v == self.state.unwrap().requested),
            !self.in_txn ==> r matches Err(DBError::NoTransaction),
    {
        if !self.in_txn {
            return Err(DBError::NoTransaction);
        }
        match &self.state {
            Some(st) => Ok(&st.requested),
            None => {
                proof {
                    assert(false);
                }
                Err(DBError::NoTransaction)
            },
        }
    }

    /// Closes the transaction, handing back the state the caller must now
    /// persist; nothing was persisted before this point.
    pub fn commit(&mut self) -> (r: Result<State, DBError>)
        requires
            db_wf(*old(self)),
        ensures
            db_wf(*final (self)),
            !old(self).in_txn ==> (r matches Err(DBError::NoTransaction) && *final (self)
                == *old(self)),
            old(self).in_txn ==> (r matches Ok(out) && out == old(self).state.unwrap()
                && !final (self).in_txn && final (self).state is None && final (self).id@ == old(
                self,
            ).id@),
    {
        if !self.in_txn {
            return Err(DBError::NoTransaction);
        }
        match self.state.take() {
            None => {
                proof {
                    assert(false);
                }
                self.in_txn = false;
                Err(DBError::NoTransaction)
            },
            Some(st) => {
                self.in_txn = false;
                Ok(st)
            },
        }
    }

    /// Abandons the transaction; the working state is discarded and nothing
    /// reaches the disk.
    pub fn rollback(&mut self)
        ensures
            !final (self).in_txn,
            db_wf(*final (self)),
            final (self).state is None,
            final (self).id@ == old(self).id@,
    {
        self.state = None;
        self.in_txn = false;
    }
}

/// Replaces or appends one request under its name.
fn upsert_request(rs: &mut Vec<PackageRequest>, package: &PackageSpecifier)
    ensures
        (forall|i: int, j: int|
            0 <= i < j < old(rs)@.len() ==> (#[trigger] old(rs)@[i]).name@ != (#[trigger] old(
                rs,
            )@[j]).name@) ==> (forall|i: int, j: int|
            0 <= i < j < final (rs)@.len() ==> (#[trigger] final (rs)@[i]).name@ != (
            #[trigger] final (rs)@[j]).name@),
        find_req(final (rs)@, package.name@) matches Some(pr) && pr.name@ == package.name@ && (
        forall|k: VerKey| req_sem(pr.version, k) == req_sem(package.version, k)) && (
        requirement_wf(package.version) ==> requirement_wf(pr.version)),
        forall|dn: Seq<char>|
            dn != package.name@ ==> #[trigger] find_req(final (rs)@, dn) == find_req(
                old(rs)@,
                dn,
            ),
{
    let n = rs.len();
    let mut i: usize = 0;
    while i < n
        invariant
            i <= n == rs@.len(),
            rs@ == old(rs)@,
            forall|j: int| 0 <= j < i ==> (#[trigger] rs@[j]).name@ != package.name@,
        decreases n - i,
    {
        if rs[i].name == package.name {
            let ghost old_rs = rs@;
            let ghost gi = i as int;
            rs.set(
                i,
                PackageRequest {
                    name: package.name.duplicate(),
                    version: package.version.duplicate(),
                },
            );
            proof {
                assert(forall|j: int|
                    0 <= j < rs@.len() && j != gi ==> #[trigger] rs@[j] == old_rs[j]);
                assert(rs@[gi].name@ == package.name@ && old_rs[gi].name@ == package.name@);
                lemma_find_req_update(old_rs, rs@, gi, package.name@);
            }
            return ;
        }
        i = i + 1;
    }
    let ghost old_rs = rs@;
    rs.push(
        PackageRequest { name: package.name.duplicate(), version: package.version.duplicate() },
    );
    proof {
        assert(forall|j: int| 0 <= j < old_rs.len() ==> #[trigger] rs@[j] == old_rs[j]);
        assert(rs@.last().name@ == package.name@);
        lemma_find_req_last(old_rs, rs@, package.name@);
    }
}

/// Updating one slot in place changes lookups only under that slot's name.
proof fn lemma_find_req_update(olds: Seq<PackageRequest>, news: Seq<PackageRequest>, gi: int, n: Seq<char>)
    requires
        0 <= gi < olds.len(),
        news.len() == olds.len(),
        forall|j: int| 0 <= j < news.len() && j != gi ==> #[trigger] news[j] == olds[j],
        news[gi].name@ == n,
        olds[gi].name@ == n,
        forall|j: int| 0 <= j < gi ==> (#[trigger] olds[j]).name@ != n,
    ensures
        find_req(news, n) == Some(news[gi]),
        forall|dn: Seq<char>| dn != n ==> #[trigger] find_req(news, dn) == find_req(olds, dn),
    decreases olds.len(),
{
    if gi == 0 {
        assert(find_req(news, n) == Some(news[0]));
        assert forall|dn: Seq<char>| dn != n implies #[trigger] find_req(news, dn) == find_req(
            olds,
            dn,
        ) by {
            assert(news.drop_first() =~= olds.drop_first());
            if news[0].name@ == dn {
            } else {
                assert(find_req(news, dn) == find_req(news.drop_first(), dn));
                assert(find_req(olds, dn) == find_req(olds.drop_first(), dn));
            }
        }
    } else {
        assert(news[0] == olds[0]);
        assert(forall|j: int|
            0 <= j < gi - 1 ==> (#[trigger] olds.drop_first()[j]).name@ != n) by {
            assert(forall|j: int|
                0 <= j < gi - 1 ==> #[trigger] olds.drop_first()[j] == olds[j + 1]);
        }
        assert(forall|j: int|
            0 <= j < news.drop_first().len() && j != gi - 1 ==> #[trigger] news.drop_first()[j]
                == olds.drop_first()[j]);
        lemma_find_req_update(olds.drop_first(), news.drop_first(), gi - 1, n);
        assert(news.drop_first()[gi - 1] == news[gi]);
        assert(olds[0].name@ != n);
        assert(find_req(news, n) == find_req(news.drop_first(), n));
        assert forall|dn: Seq<char>| dn != n implies #[trigger] find_req(news, dn) == find_req(
            olds,
            dn,
        ) by {
            if news[0].name@ != dn {
                assert(find_req(news, dn) == find_req(news.drop_first(), dn));
                assert(find_req(olds, dn) == find_req(olds.drop_first(), dn));
            }
        }
    }
}

/// Appending a fresh name changes lookups only under that name.
proof fn lemma_find_req_last(olds: Seq<PackageRequest>, news: Seq<PackageRequest>, n: Seq<char>)
    requires
        news.len() == olds.len() + 1,
        forall|j: int| 0 <= j < olds.len() ==> #[trigger] news[j] == olds[j],
        news.last().name@ == n,
        forall|j: int| 0 <= j < olds.len() ==> (#[trigger] olds[j]).name@ != n,
    ensures
        find_req(news, n) == Some(news.last()),
        forall|dn: Seq<char>| dn != n ==> #[trigger] find_req(news, dn) == find_req(olds, dn),
    decreases olds.len(),
{
    if olds.len() == 0 {
        assert(news[0] == news.last());
        assert(find_req(news, n) == Some(news[0]));
        assert forall|dn: Seq<char>| dn != n implies #[trigger] find_req(news, dn) == find_req(
            olds,
            dn,
        ) by {
            assert(news.drop_first() =~= Seq::<PackageRequest>::empty());
            assert(find_req(news, dn) == find_req(news.drop_first(), dn));
        }
    } else {
        assert(news[0] == olds[0]);
        assert(forall|j: int|
            0 <= j < olds.drop_first().len() ==> #[trigger] news.drop_first()[j]
                == olds.drop_first()[j]) by {
            assert(forall|j: int|
                0 <= j < olds.drop_first().len() ==> #[trigger] olds.drop_first()[j] == olds[j
                    + 1] && news.drop_first()[j] == news[j + 1]);
        }
        assert(forall|j: int|
            0 <= j < olds.drop_first().len() ==> (#[trigger] olds.drop_first()[j]).name@ != n);
        assert(news.drop_first().last() == news.last());
        lemma_find_req_last(olds.drop_first(), news.drop_first(), n);
        assert(olds[0].name@ != n);
        assert(find_req(news, n) == find_req(news.drop_first(), n));
        assert forall|dn: Seq<char>| dn != n implies #[trigger] find_req(news, dn) == find_req(
            olds,
            dn,
        ) by {
            if news[0].name@ != dn {
                assert(find_req(news, dn) == find_req(news.drop_first(), dn));
                assert(find_req(olds, dn) == find_req(olds.drop_first(), dn));
            }
        }
    }
}

} // verus!

verus! {

/// With distinct names, each entry is what lookup under its name returns.
pub proof fn lemma_find_req_self(rs: Seq<PackageRequest>, i: int)
    requires
        0 <= i < rs.len(),
        forall|a: int, b: int|
            0 <= a < b < rs.len() ==> (#[trigger] rs[a]).name@ != (#[trigger] rs[b]).name@,
    ensures
        find_req(rs, rs[i].name@) == Some(rs[i]),
    decreases rs.len(),
{
    if i == 0 {
    } else {
        assert(rs[0].name@ != rs[i].name@);
        assert(forall|a: int, b: int|
            0 <= a < b < rs.drop_first().len() ==> (#[trigger] rs.drop_first()[a]).name@ != (
            #[trigger] rs.drop_first()[b]).name@) by {
            assert(forall|a: int|
                0 <= a < rs.drop_first().len() ==> #[trigger] rs.drop_first()[a] == rs[a + 1]);
        }
        lemma_find_req_self(rs.drop_first(), i - 1);
        assert(rs.drop_first()[i - 1] == rs[i]);
    }
}

/// What lookup returns is one of the entries.
pub proof fn lemma_find_req_mem(rs: Seq<PackageRequest>, n: Seq<char>)
    ensures
        find_req(rs, n) matches Some(x) ==> exists|i: int|
            0 <= i < rs.len() && #[trigger] rs[i] == x,
    decreases rs.len(),
{
    if rs.len() > 0 {
        if rs[0].name@ == n {
            assert(rs[0] == find_req(rs, n).unwrap());
        } else {
            lemma_find_req_mem(rs.drop_first(), n);
            if find_req(rs, n) is Some {
                let x = find_req(rs, n).unwrap();
                let i = choose|i: int|
                    0 <= i < rs.drop_first().len() && #[trigger] rs.drop_first()[i] == x;
                assert(rs[i + 1] == x);
            }
        }
    }
}

/// After one insertion, every entry still names a real package with a sound
/// requirement.
pub proof fn lemma_state_entries(olds: State, news: State, p: PackageSpecifier)
    requires
        state_wf(olds),
        state_wf(news),
        crate::name::name_wf(p.name@),
        requirement_wf(p.version),
        forall|i: int|
            0 <= i < olds.requested@.len() ==> crate::name::name_wf(
                (#[trigger] olds.requested@[i]).name@,
            ) && requirement_wf(olds.requested@[i].version),
        find_req(news.requested@, p.name@) matches Some(pr) && pr.name@ == p.name@ && (
        requirement_wf(p.version) ==> requirement_wf(pr.version)),
        forall|dn: Seq<char>|
            dn != p.name@ ==> #[trigger] find_req(news.requested@, dn) == find_req(
                olds.requested@,
                dn,
            ),
    ensures
        forall|i: int|
            0 <= i < news.requested@.len() ==> crate::name::name_wf(
                (#[trigger] news.requested@[i]).name@,
            ) && requirement_wf(news.requested@[i].version),
{
    assert forall|i: int|
        0 <= i < news.requested@.len() implies crate::name::name_wf(
        (#[trigger] news.requested@[i]).name@,
    ) && requirement_wf(news.requested@[i].version) by {
        let e = news.requested@[i];
        lemma_find_req_self(news.requested@, i);
        if e.name@ == p.name@ {
            assert(find_req(news.requested@, p.name@) == Some(e));
        } else {
            assert(find_req(olds.requested@, e.name@) == Some(e));
            lemma_find_req_mem(olds.requested@, e.name@);
            let oi = choose|oi: int|
                0 <= oi < olds.requested@.len() && #[trigger] olds.requested@[oi] == e;
        }
    }
}

} // verus!
