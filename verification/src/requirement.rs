//! Version requirements: a conjunction of comparators, each an operator
//! applied to a version pattern of one, two or three components with an
//! optional pre-release tag. The meaning of every comparator is written out
//! here as a window of version models.

use vstd::prelude::*;

use crate::version::{ident_wf, seq_texts, PreIdent, VerKey};

verus! {

/// A comparator operator.
#[derive(PartialEq, Eq, Structural, Clone, Copy, Debug)]
pub enum Op {
    Exact,
    Greater,
    GreaterEq,
    Less,
    LessEq,
    Tilde,
    Caret,
    Wildcard,
}

/// One comparator: an operator, a version pattern and an optional
/// pre-release tag.
#[derive(Debug)]
pub struct Comparator {
    pub op: Op,
    pub major: u64,
    pub minor: Option<u64>,
    pub patch: Option<u64>,
    pub pre: Vec<PreIdent>,
}

/// A conjunction of comparators; an empty conjunction admits every release.
#[derive(Debug)]
pub struct Requirement {
    pub comparators: Vec<Comparator>,
}

/// Structurally sound comparator: a patch needs a minor, a pre-release tag
/// needs all three components, a wildcard carries neither patch nor tag, and
/// the components leave room for the translation's bumps.
pub open spec fn comparator_wf(c: Comparator) -> bool {
    &&& c.major < u64::MAX
    &&& (c.minor matches Some(m) ==> m < u64::MAX)
    &&& (c.patch matches Some(p) ==> p < u64::MAX)
    &&& (c.patch is Some ==> c.minor is Some)
    &&& (c.pre@.len() > 0 ==> c.minor is Some && c.patch is Some)
    &&& (c.op is Wildcard ==> c.pre@.len() == 0 && c.patch is None)
    &&& forall|i: int| 0 <= i < c.pre@.len() ==> ident_wf(#[trigger] c.pre@[i].text@)
}

pub open spec fn requirement_wf(r: Requirement) -> bool {
    forall|i: int| 0 <= i < r.comparators@.len() ==> comparator_wf(#[trigger] r.comparators@[i])
}

/// The model of the bound `major.minor.patch-pre`, carrying the source mark
/// bounds are built with.
pub open spec fn ckey(major: int, minor: int, patch: int, pre: Seq<Seq<u8>>) -> VerKey {
    VerKey {
        major,
        minor,
        patch,
        pre,
        source_id: u64::MAX as int,
        source_discriminator: 0,
    }
}

/// The pre-release tag of a comparator, as identifier texts.
pub open spec fn comp_pre(c: Comparator) -> Seq<Seq<u8>> {
    seq_texts(c.pre@)
}

/// The tag with `.0` appended: the least tag strictly above every extension
/// of the original tag.
pub open spec fn bumped_pre(p: Seq<Seq<u8>>) -> Seq<Seq<u8>> {
    p.push(seq![48u8])
}

/// Membership in `[lo, hi)`.
pub open spec fn in_window(k: VerKey, lo: VerKey, hi: VerKey) -> bool {
    crate::version::key_le(lo, k) && crate::version::key_lt(k, hi)
}

/// Membership in `[lo, unbounded)`.
pub open spec fn at_least(k: VerKey, lo: VerKey) -> bool {
    crate::version::key_le(lo, k)
}

/// Membership in `(unbounded, hi)`.
pub open spec fn below(k: VerKey, hi: VerKey) -> bool {
    crate::version::key_lt(k, hi)
}

/// The release window of one comparator: the table of every operator at
/// every arity.
pub open spec fn comp_normal_sem(c: Comparator, k: VerKey) -> bool {
    let i = c.major as int;
    match c.op {
        Op::Exact => match (c.minor, c.patch) {
            (Some(j), Some(p)) => {
                if c.pre@.len() > 0 {
                    in_window(k, ckey(i, j as int, p as int, comp_pre(c)), ckey(i, j as int, p as int, Seq::empty()))
                } else {
                    in_window(k, ckey(i, j as int, p as int, Seq::empty()), ckey(i, j as int, p as int + 1, Seq::empty()))
                }
            },
            (Some(j), None) => in_window(k, ckey(i, j as int, 0, Seq::empty()), ckey(i, j as int + 1, 0, Seq::empty())),
            _ => in_window(k, ckey(i, 0, 0, Seq::empty()), ckey(i + 1, 0, 0, Seq::empty())),
        },
        Op::Greater => match (c.minor, c.patch) {
            (Some(j), Some(p)) => {
                if c.pre@.len() > 0 {
                    at_least(k, ckey(i, j as int, p as int, bumped_pre(comp_pre(c))))
                } else {
                    at_least(k, ckey(i, j as int, p as int + 1, Seq::empty()))
                }
            },
            (Some(j), None) => at_least(k, ckey(i, j as int + 1, 0, Seq::empty())),
            _ => at_least(k, ckey(i + 1, 0, 0, Seq::empty())),
        },
        Op::GreaterEq => match (c.minor, c.patch) {
            (Some(j), Some(p)) => {
                if c.pre@.len() > 0 {
                    at_least(k, ckey(i, j as int, p as int, comp_pre(c)))
                } else {
                    at_least(k, ckey(i, j as int, p as int, Seq::empty()))
                }
            },
            (Some(j), None) => at_least(k, ckey(i, j as int, 0, Seq::empty())),
            _ => at_least(k, ckey(i, 0, 0, Seq::empty())),
        },
        Op::Less => match (c.minor, c.patch) {
            (Some(j), Some(p)) => {
                if c.pre@.len() > 0 {
                    below(k, ckey(i, j as int, p as int, comp_pre(c)))
                } else {
                    below(k, ckey(i, j as int, p as int, Seq::empty()))
                }
            },
            (Some(j), None) => below(k, ckey(i, j as int, 0, Seq::empty())),
            _ => below(k, ckey(i, 0, 0, Seq::empty())),
        },
        Op::LessEq => match (c.minor, c.patch) {
            (Some(j), Some(p)) => {
                if c.pre@.len() > 0 {
                    below(k, ckey(i, j as int, p as int, bumped_pre(comp_pre(c))))
                } else {
                    below(k, ckey(i, j as int, p as int + 1, Seq::empty()))
                }
            },
            (Some(j), None) => below(k, ckey(i, j as int + 1, 0, Seq::empty())),
            _ => below(k, ckey(i + 1, 0, 0, Seq::empty())),
        },
        Op::Tilde => match (c.minor, c.patch) {
            (Some(j), Some(p)) => {
                if c.pre@.len() > 0 {
                    in_window(k, ckey(i, j as int, p as int, comp_pre(c)), ckey(i, j as int + 1, 0, Seq::empty()))
                } else {
                    in_window(k, ckey(i, j as int, p as int, Seq::empty()), ckey(i, j as int + 1, 0, Seq::empty()))
                }
            },
            (Some(j), None) => in_window(k, ckey(i, j as int, 0, Seq::empty()), ckey(i, j as int + 1, 0, Seq::empty())),
            _ => in_window(k, ckey(i, 0, 0, Seq::empty()), ckey(i + 1, 0, 0, Seq::empty())),
        },
        Op::Caret => match (c.minor, c.patch) {
            (Some(j), Some(p)) => {
                let pre = if c.pre@.len() > 0 {
                    comp_pre(c)
                } else {
                    Seq::empty()
                };
                if i > 0 {
                    in_window(k, ckey(i, j as int, p as int, pre), ckey(i + 1, 0, 0, Seq::empty()))
                } else if j > 0 {
                    in_window(k, ckey(0, j as int, p as int, pre), ckey(0, j as int + 1, 0, Seq::empty()))
                } else if c.pre@.len() > 0 {
                    in_window(k, ckey(0, 0, p as int, pre), ckey(0, 0, p as int, Seq::empty()))
                } else {
                    in_window(k, ckey(0, 0, p as int, Seq::empty()), ckey(0, 0, p as int + 1, Seq::empty()))
                }
            },
            (Some(j), None) => {
                if i > 0 || j > 0 {
                    in_window(k, ckey(i, j as int, 0, Seq::empty()), ckey(i + 1, 0, 0, Seq::empty()))
                } else {
                    in_window(k, ckey(0, 0, 0, Seq::empty()), ckey(0, 1, 0, Seq::empty()))
                }
            },
            _ => in_window(k, ckey(i, 0, 0, Seq::empty()), ckey(i + 1, 0, 0, Seq::empty())),
        },
        Op::Wildcard => match (c.minor, c.patch) {
            (Some(j), _) => in_window(k, ckey(i, j as int, 0, Seq::empty()), ckey(i, j as int + 1, 0, Seq::empty())),
            _ => in_window(k, ckey(i, 0, 0, Seq::empty()), ckey(i + 1, 0, 0, Seq::empty())),
        },
    }
}

/// The pre-release window of one comparator: nothing unless the comparator
/// names a pre-release `I.J.K-P`, and then exactly `[I.J.K-P, I.J.K)`.
pub open spec fn comp_pre_sem(c: Comparator, k: VerKey) -> bool {
    if c.pre@.len() == 0 {
        false
    } else {
        in_window(
            k,
            ckey(c.major as int, c.minor.unwrap() as int, c.patch.unwrap() as int, comp_pre(c)),
            ckey(c.major as int, c.minor.unwrap() as int, c.patch.unwrap() as int, Seq::empty()),
        )
    }
}

/// The release membership of a whole requirement: every comparator's window.
pub open spec fn req_normal_sem(r: Requirement, k: VerKey) -> bool {
    forall|i: int|
        0 <= i < r.comparators@.len() ==> comp_normal_sem(#[trigger] r.comparators@[i], k)
}

/// The pre-release membership: some comparator named a window it is in.
pub open spec fn req_pre_sem(r: Requirement, k: VerKey) -> bool {
    exists|i: int|
        0 <= i < r.comparators@.len() && comp_pre_sem(#[trigger] r.comparators@[i], k)
}

/// Which versions a requirement admits: pre-releases must fall in a named
/// pre-release window, releases must satisfy every comparator.
pub open spec fn req_sem(r: Requirement, k: VerKey) -> bool {
    if k.pre.len() != 0 {
        req_pre_sem(r, k)
    } else {
        req_normal_sem(r, k)
    }
}

impl Comparator {
    /// A fresh copy.
    pub fn duplicate(&self) -> (r: Comparator)
        ensures
            r.op == self.op,
            r.major == self.major && r.minor == self.minor && r.patch == self.patch,
            comp_pre(r) == comp_pre(*self),
            comparator_wf(r) == comparator_wf(*self),
            comp_pre(r).len() == self.pre@.len(),
    {
        let r = Comparator {
            op: self.op,
            major: self.major,
            minor: self.minor,
            patch: self.patch,
            pre: crate::version::dup_pre(&self.pre),
        };
        proof {
            assert(comp_pre(r) == comp_pre(*self));
            if comparator_wf(*self) {
                assert forall|i: int|
                    0 <= i < r.pre@.len() implies ident_wf(#[trigger] r.pre@[i].text@) by {
                    assert(r.pre@[i].text@ == self.pre@[i].text@);
                    assert(ident_wf(self.pre@[i].text@));
                }
                assert(comparator_wf(r));
            }
            if comparator_wf(r) {
                assert forall|i: int|
                    0 <= i < self.pre@.len() implies ident_wf(#[trigger] self.pre@[i].text@) by {
                    assert(r.pre@[i].text@ == self.pre@[i].text@);
                    assert(ident_wf(r.pre@[i].text@));
                }
                assert(comparator_wf(*self));
            }
        }
        r
    }
}

impl Requirement {
    /// Wraps a comparator list.
    pub fn new(comparators: Vec<Comparator>) -> (r: Requirement)
        ensures
            r.comparators == comparators,
    {
        Requirement { comparators }
    }

    /// A fresh copy with the same meaning.
    pub fn duplicate(&self) -> (r: Requirement)
        ensures
            requirement_wf(*self) ==> requirement_wf(r),
            forall|k: VerKey| req_sem(r, k) == req_sem(*self, k),
            forall|k: VerKey| req_normal_sem(r, k) == req_normal_sem(*self, k),
            forall|k: VerKey| req_pre_sem(r, k) == req_pre_sem(*self, k),
            r.comparators@.len() == self.comparators@.len(),
    {
        let mut out: Vec<Comparator> = Vec::new();
        let n = self.comparators.len();
        let mut i: usize = 0;
        while i < n
            invariant
                i <= n == self.comparators@.len(),
                out@.len() == i,
                forall|j: int|
                    0 <= j < i ==> {
                        &&& (#[trigger] out@[j]).op == self.comparators@[j].op
                        &&& out@[j].major == self.comparators@[j].major
                        &&& out@[j].minor == self.comparators@[j].minor
                        &&& out@[j].patch == self.comparators@[j].patch
                        &&& comp_pre(out@[j]) == comp_pre(self.comparators@[j])
                        &&& comparator_wf(out@[j]) == comparator_wf(self.comparators@[j])
                        &&& out@[j].pre@.len() == self.comparators@[j].pre@.len()
                    },
            decreases n - i,
        {
            out.push(self.comparators[i].duplicate());
            i = i + 1;
        }
        let r = Requirement { comparators: out };
        proof {
            assert(forall|j: int, k: VerKey|
                0 <= j < r.comparators@.len() ==> #[trigger] comp_normal_sem(r.comparators@[j], k)
                    == comp_normal_sem(self.comparators@[j], k));
            assert(forall|j: int, k: VerKey|
                0 <= j < r.comparators@.len() ==> #[trigger] comp_pre_sem(r.comparators@[j], k)
                    == comp_pre_sem(self.comparators@[j], k));
            assert forall|k: VerKey| req_normal_sem(r, k) == req_normal_sem(*self, k) by {
                if req_normal_sem(*self, k) {
                    assert forall|j: int|
                        0 <= j < r.comparators@.len() implies comp_normal_sem(
                        #[trigger] r.comparators@[j],
                        k,
                    ) by {
                        assert(comp_normal_sem(self.comparators@[j], k));
                    }
                }
                if req_normal_sem(r, k) {
                    assert forall|j: int|
                        0 <= j < self.comparators@.len() implies comp_normal_sem(
                        #[trigger] self.comparators@[j],
                        k,
                    ) by {
                        assert(comp_normal_sem(r.comparators@[j], k));
                    }
                }
            }
            assert forall|k: VerKey| req_pre_sem(r, k) == req_pre_sem(*self, k) by {
                if req_pre_sem(*self, k) {
                    let i = choose|i: int|
                        0 <= i < self.comparators@.len() && comp_pre_sem(
                            #[trigger] self.comparators@[i],
                            k,
                        );
                    assert(comp_pre_sem(r.comparators@[i], k));
                }
                if req_pre_sem(r, k) {
                    let i = choose|i: int|
                        0 <= i < r.comparators@.len() && comp_pre_sem(
                            #[trigger] r.comparators@[i],
                            k,
                        );
                    assert(comp_pre_sem(self.comparators@[i], k));
                }
            }
        }
        r
    }
}

} // verus!

verus! {

impl Comparator {
    /// Whether this comparator is structurally sound.
    pub fn is_wf(&self) -> (r: bool)
        ensures
            r == comparator_wf(*self),
    {
        if self.major == u64::MAX {
            return false;
        }
        if let Some(m) = self.minor {
            if m == u64::MAX {
                return false;
            }
        }
        if let Some(p) = self.patch {
            if p == u64::MAX {
                return false;
            }
        }
        if self.patch.is_some() && self.minor.is_none() {
            return false;
        }
        if self.pre.len() > 0 && (self.minor.is_none() || self.patch.is_none()) {
            return false;
        }
        if let Op::Wildcard = self.op {
            if self.pre.len() > 0 || self.patch.is_some() {
                return false;
            }
        }
        let n = self.pre.len();
        let mut i: usize = 0;
        while i < n
            invariant
                i <= n == self.pre@.len(),
                forall|j: int| 0 <= j < i ==> ident_wf(#[trigger] self.pre@[j].text@),
            decreases n - i,
        {
            if !self.pre[i].is_wf() {
                return false;
            }
            i = i + 1;
        }
        true
    }
}

impl Requirement {
    /// Whether every comparator is structurally sound.
    pub fn is_wf(&self) -> (r: bool)
        ensures
            r == requirement_wf(*self),
    {
        let n = self.comparators.len();
        let mut i: usize = 0;
        while i < n
            invariant
                i <= n == self.comparators@.len(),
                forall|j: int| 0 <= j < i ==> comparator_wf(#[trigger] self.comparators@[j]),
            decreases n - i,
        {
            if !self.comparators[i].is_wf() {
                return false;
            }
            i = i + 1;
        }
        true
    }
}

} // verus!
