//! The solver's set-of-versions type: a pair of ranges, one consulted for
//! releases and one for pre-releases. A pre-release is accepted only where a
//! requirement named a pre-release window it falls into.

use vstd::prelude::*;

use crate::range::Range;
use crate::version::{bump_key, key_le, key_lt, key_of, VerKey, Version};

verus! {

/// A set of versions with distinct release and pre-release membership.
pub struct VersionSet {
    pub normal: Range,
    pub pre: Range,
}

impl VersionSet {
    /// Both components well-formed.
    pub open spec fn wf(self) -> bool {
        self.normal.wf() && self.pre.wf()
    }

    /// Membership of a release model.
    pub open spec fn normal_sem(self, k: VerKey) -> bool {
        self.normal.sem(k)
    }

    /// Membership of a pre-release model.
    pub open spec fn pre_sem(self, k: VerKey) -> bool {
        self.pre.sem(k)
    }

    /// Membership: pre-releases consult the pre-release component, releases
    /// the normal one.
    pub open spec fn sem(self, k: VerKey) -> bool {
        if k.pre.len() != 0 {
            self.pre.sem(k)
        } else {
            self.normal.sem(k)
        }
    }

    /// The set holding no version at all.
    pub fn empty() -> (r: VersionSet)
        ensures
            r.wf(),
            forall|k: VerKey| !r.normal_sem(k) && !r.pre_sem(k),
    {
        VersionSet { normal: Range::empty(), pre: Range::empty() }
    }

    /// The identity for intersecting requirements: every release, and no
    /// pre-release.
    pub fn default() -> (r: VersionSet)
        ensures
            r.wf(),
            forall|k: VerKey| r.normal_sem(k),
            forall|k: VerKey| !r.pre_sem(k),
    {
        VersionSet { normal: Range::any(), pre: Range::empty() }
    }

    /// The set holding exactly the window of one version: for a release,
    /// `[v, bump(v))` on the release side and nothing on the pre-release
    /// side; for a pre-release, the other way round.
    pub fn exact(v: &Version) -> (r: VersionSet)
        requires
            v.patch < u64::MAX,
        ensures
            r.wf(),
            key_of(*v).pre.len() == 0 ==> (forall|k: VerKey|
                r.normal_sem(k) == (key_le(key_of(*v), k) && key_lt(k, bump_key(key_of(*v))))),
            key_of(*v).pre.len() == 0 ==> (forall|k: VerKey| !r.pre_sem(k)),
            key_of(*v).pre.len() != 0 ==> (forall|k: VerKey| !r.normal_sem(k)),
            key_of(*v).pre.len() != 0 ==> (forall|k: VerKey|
                r.pre_sem(k) == (key_le(key_of(*v), k) && key_lt(k, bump_key(key_of(*v))))),
    {
        if v.is_prerelease() {
            VersionSet { normal: Range::empty(), pre: Range::exact(v) }
        } else {
            VersionSet { normal: Range::exact(v), pre: Range::empty() }
        }
    }

    /// The window `[lo, hi)`, in both components.
    pub fn between(lo: &Version, hi: &Version) -> (r: VersionSet)
        ensures
            r.wf(),
            forall|k: VerKey|
                r.normal_sem(k) == (key_le(key_of(*lo), k) && key_lt(k, key_of(*hi))),
            forall|k: VerKey|
                r.pre_sem(k) == (key_le(key_of(*lo), k) && key_lt(k, key_of(*hi))),
    {
        VersionSet { normal: Range::between(lo, hi), pre: Range::between(lo, hi) }
    }

    /// Everything at or above `v`, in both components.
    pub fn higher_than(v: &Version) -> (r: VersionSet)
        ensures
            r.wf(),
            forall|k: VerKey| r.normal_sem(k) == key_le(key_of(*v), k),
            forall|k: VerKey| r.pre_sem(k) == key_le(key_of(*v), k),
    {
        VersionSet { normal: Range::higher_than(v), pre: Range::higher_than(v) }
    }

    /// Everything strictly below `v`, in both components.
    pub fn strictly_lower_than(v: &Version) -> (r: VersionSet)
        ensures
            r.wf(),
            forall|k: VerKey| r.normal_sem(k) == key_lt(k, key_of(*v)),
            forall|k: VerKey| r.pre_sem(k) == key_lt(k, key_of(*v)),
    {
        VersionSet {
            normal: Range::strictly_lower_than(v),
            pre: Range::strictly_lower_than(v),
        }
    }

    /// The window of one version, under the membership dispatch: as `exact`.
    pub fn singleton(v: &Version) -> (r: VersionSet)
        requires
            v.patch < u64::MAX,
        ensures
            r.wf(),
            forall|k: VerKey|
                r.sem(k) == ((k.pre.len() != 0) == (key_of(*v).pre.len() != 0) && key_le(
                    key_of(*v),
                    k,
                ) && key_lt(k, bump_key(key_of(*v)))),
    {
        let r = VersionSet::exact(v);
        proof {
            assert forall|k: VerKey|
                r.sem(k) == ((k.pre.len() != 0) == (key_of(*v).pre.len() != 0) && key_le(
                    key_of(*v),
                    k,
                ) && key_lt(k, bump_key(key_of(*v)))) by {
                if k.pre.len() != 0 {
                    assert(r.sem(k) == r.pre_sem(k));
                } else {
                    assert(r.sem(k) == r.normal_sem(k));
                    if key_of(*v).pre.len() == 0 && key_le(key_of(*v), k) {
                    }
                }
            }
        }
        r
    }

    /// The complement, component by component.
    pub fn complement(&self) -> (r: VersionSet)
        ensures
            r.wf(),
            forall|k: VerKey| r.normal_sem(k) == !self.normal_sem(k),
            forall|k: VerKey| r.pre_sem(k) == !self.pre_sem(k),
    {
        VersionSet { normal: self.normal.negate(), pre: self.pre.negate() }
    }

    /// The intersection, component by component.
    pub fn intersection(&self, other: &VersionSet) -> (r: VersionSet)
        ensures
            r.wf(),
            forall|k: VerKey| r.normal_sem(k) == (self.normal_sem(k) && other.normal_sem(k)),
            forall|k: VerKey| r.pre_sem(k) == (self.pre_sem(k) && other.pre_sem(k)),
    {
        VersionSet {
            normal: self.normal.intersection(&other.normal),
            pre: self.pre.intersection(&other.pre),
        }
    }

    /// Constrains the release component by `other`, leaving the pre-release
    /// component as it is.
    pub fn with_normal(&self, other: &VersionSet) -> (r: VersionSet)
        ensures
            r.wf(),
            forall|k: VerKey| r.normal_sem(k) == (self.normal_sem(k) && other.normal_sem(k)),
            forall|k: VerKey| r.pre_sem(k) == self.pre_sem(k),
    {
        VersionSet {
            normal: self.normal.intersection(&other.normal),
            pre: self.pre.duplicate(),
        }
    }

    /// Widens the pre-release component by `other`, leaving the release
    /// component as it is.
    pub fn with_pre(&self, other: &VersionSet) -> (r: VersionSet)
        ensures
            r.wf(),
            forall|k: VerKey| r.normal_sem(k) == self.normal_sem(k),
            forall|k: VerKey| r.pre_sem(k) == (self.pre_sem(k) || other.pre_sem(k)),
    {
        VersionSet { normal: self.normal.duplicate(), pre: self.pre.union(&other.pre) }
    }

    /// Membership of a version: a pre-release consults the pre-release
    /// component, a release the normal one.
    pub fn contains(&self, v: &Version) -> (r: bool)
        ensures
            r == self.sem(key_of(*v)),
    {
        if v.is_prerelease() {
            self.pre.contains(v)
        } else {
            self.normal.contains(v)
        }
    }

    /// A fresh copy holding the same versions.
    pub fn duplicate(&self) -> (r: VersionSet)
        ensures
            r.wf(),
            forall|k: VerKey| r.normal_sem(k) == self.normal_sem(k),
            forall|k: VerKey| r.pre_sem(k) == self.pre_sem(k),
    {
        VersionSet { normal: self.normal.duplicate(), pre: self.pre.duplicate() }
    }
}

} // verus!

verus! {

/// Intersection's contract, as a predicate on a result.
pub open spec fn is_intersection_of(r: VersionSet, a: VersionSet, b: VersionSet) -> bool {
    &&& forall|k: VerKey| r.normal_sem(k) == (a.normal_sem(k) && b.normal_sem(k))
    &&& forall|k: VerKey| r.pre_sem(k) == (a.pre_sem(k) && b.pre_sem(k))
}

/// Complement's contract, as a predicate on a result.
pub open spec fn is_complement_of(r: VersionSet, a: VersionSet) -> bool {
    &&& forall|k: VerKey| r.normal_sem(k) == !a.normal_sem(k)
    &&& forall|k: VerKey| r.pre_sem(k) == !a.pre_sem(k)
}

/// Two sets holding the same versions on both sides.
pub open spec fn same_set(a: VersionSet, b: VersionSet) -> bool {
    &&& forall|k: VerKey| a.normal_sem(k) == b.normal_sem(k)
    &&& forall|k: VerKey| a.pre_sem(k) == b.pre_sem(k)
}

/// Intersection is commutative: results computed in either order hold the
/// same versions.
pub proof fn lemma_intersection_commutative(
    a: VersionSet,
    b: VersionSet,
    ab: VersionSet,
    ba: VersionSet,
)
    requires
        is_intersection_of(ab, a, b),
        is_intersection_of(ba, b, a),
    ensures
        same_set(ab, ba),
{
}

/// Intersection is associative: grouping either way holds the same versions.
pub proof fn lemma_intersection_associative(
    a: VersionSet,
    b: VersionSet,
    c: VersionSet,
    ab: VersionSet,
    ab_c: VersionSet,
    bc: VersionSet,
    a_bc: VersionSet,
)
    requires
        is_intersection_of(ab, a, b),
        is_intersection_of(ab_c, ab, c),
        is_intersection_of(bc, b, c),
        is_intersection_of(a_bc, a, bc),
    ensures
        same_set(ab_c, a_bc),
{
}

/// The empty set annihilates intersection.
pub proof fn lemma_empty_annihilates(a: VersionSet, e: VersionSet, r: VersionSet)
    requires
        forall|k: VerKey| !e.normal_sem(k) && !e.pre_sem(k),
        is_intersection_of(r, a, e),
    ensures
        forall|k: VerKey| !r.normal_sem(k) && !r.pre_sem(k),
{
}

/// The complement of the complement holds exactly the original versions.
pub proof fn lemma_double_complement(a: VersionSet, c: VersionSet, cc: VersionSet)
    requires
        is_complement_of(c, a),
        is_complement_of(cc, c),
    ensures
        same_set(cc, a),
{
}

/// Membership in an intersection is membership in both sets.
pub proof fn lemma_contains_intersection(a: VersionSet, b: VersionSet, r: VersionSet, k: VerKey)
    requires
        is_intersection_of(r, a, b),
    ensures
        r.sem(k) == (a.sem(k) && b.sem(k)),
{
    assert(r.normal_sem(k) == (a.normal_sem(k) && b.normal_sem(k)));
    assert(r.pre_sem(k) == (a.pre_sem(k) && b.pre_sem(k)));
}

} // verus!
