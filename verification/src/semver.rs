//! Turns requirement comparators into version sets: every operator at every
//! arity becomes a window of versions, and a comparator that names a
//! pre-release contributes the window of that pre-release series.

use vstd::prelude::*;

use crate::requirement::{
    bumped_pre, ckey, comp_normal_sem, comp_pre_sem, comparator_wf, req_normal_sem,
    req_pre_sem, req_sem, requirement_wf, Comparator, Op, Requirement,
};
use crate::version::{dup_pre, key_of, seq_texts, PreIdent, VerKey, Version};
use crate::versionset::VersionSet;

verus! {

/// A bound version `major.minor.patch` marked the way all range bounds are.
fn cand(major: u64, minor: u64, patch: u64) -> (r: Version)
    ensures
        key_of(r) == ckey(major as int, minor as int, patch as int, Seq::empty()),
        r.patch == patch,
{
    let r = Version::candidate(major, minor, patch);
    proof {
        assert(key_of(r) =~~= ckey(major as int, minor as int, patch as int, Seq::empty()));
    }
    r
}

/// A bound version with a pre-release tag.
fn cand_pre(major: u64, minor: u64, patch: u64, pre: &Vec<PreIdent>) -> (r: Version)
    ensures
        key_of(r) == ckey(major as int, minor as int, patch as int, seq_texts(pre@)),
        r.patch == patch,
{
    let r = Version::candidate(major, minor, patch).pre(dup_pre(pre));
    proof {
        assert(seq_texts(r.pre@) =~~= seq_texts(pre@));
        assert(key_of(r) =~~= ckey(major as int, minor as int, patch as int, seq_texts(pre@)));
    }
    r
}

/// The pre-release tag with `.0` appended, the least tag strictly above
/// every extension of the original.
pub fn bump_pre(pre: &Vec<PreIdent>) -> (r: Vec<PreIdent>)
    ensures
        seq_texts(r@) == bumped_pre(seq_texts(pre@)),
{
    let mut r = dup_pre(pre);
    let mut zero: Vec<u8> = Vec::new();
    zero.push(48);
    r.push(PreIdent { text: zero });
    proof {
        assert(seq_texts(r@) =~~= bumped_pre(seq_texts(pre@)));
    }
    r
}

/// The pre-release window a comparator contributes: empty without a tag,
/// else the series `[I.J.K-P, I.J.K)`.
pub fn convert_prerelease(comp: &Comparator) -> (r: VersionSet)
    requires
        comparator_wf(*comp),
    ensures
        r.wf(),
        forall|k: VerKey| r.pre_sem(k) == comp_pre_sem(*comp, k),
        forall|k: VerKey| r.normal_sem(k) == comp_pre_sem(*comp, k),
{
    if comp.pre.len() == 0 {
        VersionSet::empty()
    } else {
        let minor = comp.minor.unwrap();
        let patch = comp.patch.unwrap();
        let lo = cand_pre(comp.major, minor, patch, &comp.pre);
        let hi = cand(comp.major, minor, patch);
        VersionSet::between(&lo, &hi)
    }
}

/// The release window of a comparator: the operator table, one arm per
/// operator and arity.
pub fn convert_normal(comp: &Comparator) -> (r: VersionSet)
    requires
        comparator_wf(*comp),
    ensures
        r.wf(),
        forall|k: VerKey| r.normal_sem(k) == comp_normal_sem(*comp, k),
{
    let major = comp.major;
    match comp.op {
        Op::Exact => match (comp.minor, comp.patch) {
            (Some(minor), Some(patch)) => {
                if comp.pre.len() > 0 {
                    // =I.J.K-P: the pre-release series below the release
                    VersionSet::between(
                        &cand_pre(major, minor, patch, &comp.pre),
                        &cand(major, minor, patch),
                    )
                } else {
                    // =I.J.K: exactly that version
                    VersionSet::exact(&cand(major, minor, patch))
                }
            },
            (Some(minor), _) => {
                // =I.J
                VersionSet::between(&cand(major, minor, 0), &cand(major, minor + 1, 0))
            },
            _ => {
                // =I
                VersionSet::between(&cand(major, 0, 0), &cand(major + 1, 0, 0))
            },
        },
        Op::Greater => match (comp.minor, comp.patch) {
            (Some(minor), Some(patch)) => {
                if comp.pre.len() > 0 {
                    // >I.J.K-P: everything above every extension of P
                    let bumped = bump_pre(&comp.pre);
                    VersionSet::higher_than(&cand_pre(major, minor, patch, &bumped))
                } else {
                    // >I.J.K
                    VersionSet::higher_than(&cand(major, minor, patch + 1))
                }
            },
            (Some(minor), _) => VersionSet::higher_than(&cand(major, minor + 1, 0)),
            _ => VersionSet::higher_than(&cand(major + 1, 0, 0)),
        },
        Op::GreaterEq => match (comp.minor, comp.patch) {
            (Some(minor), Some(patch)) => {
                if comp.pre.len() > 0 {
                    VersionSet::higher_than(&cand_pre(major, minor, patch, &comp.pre))
                } else {
                    VersionSet::higher_than(&cand(major, minor, patch))
                }
            },
            (Some(minor), _) => VersionSet::higher_than(&cand(major, minor, 0)),
            _ => VersionSet::higher_than(&cand(major, 0, 0)),
        },
        Op::Less => match (comp.minor, comp.patch) {
            (Some(minor), Some(patch)) => {
                if comp.pre.len() > 0 {
                    VersionSet::strictly_lower_than(&cand_pre(major, minor, patch, &comp.pre))
                } else {
                    VersionSet::strictly_lower_than(&cand(major, minor, patch))
                }
            },
            (Some(minor), _) => VersionSet::strictly_lower_than(&cand(major, minor, 0)),
            _ => VersionSet::strictly_lower_than(&cand(major, 0, 0)),
        },
        Op::LessEq => match (comp.minor, comp.patch) {
            (Some(minor), Some(patch)) => {
                if comp.pre.len() > 0 {
                    // <=I.J.K-P: everything below P with its extensions
                    let bumped = bump_pre(&comp.pre);
                    VersionSet::strictly_lower_than(&cand_pre(major, minor, patch, &bumped))
                } else {
                    // <=I.J.K: below the next patch
                    VersionSet::strictly_lower_than(&cand(major, minor, patch + 1))
                }
            },
            (Some(minor), _) => VersionSet::strictly_lower_than(&cand(major, minor + 1, 0)),
            _ => VersionSet::strictly_lower_than(&cand(major + 1, 0, 0)),
        },
        Op::Tilde => match (comp.minor, comp.patch) {
            (Some(minor), Some(patch)) => {
                if comp.pre.len() > 0 {
                    VersionSet::between(
                        &cand_pre(major, minor, patch, &comp.pre),
                        &cand(major, minor + 1, 0),
                    )
                } else {
                    VersionSet::between(&cand(major, minor, patch), &cand(major, minor + 1, 0))
                }
            },
            (Some(minor), _) => {
                VersionSet::between(&cand(major, minor, 0), &cand(major, minor + 1, 0))
            },
            _ => VersionSet::between(&cand(major, 0, 0), &cand(major + 1, 0, 0)),
        },
        Op::Caret => match (comp.minor, comp.patch) {
            (Some(minor), Some(patch)) => {
                if comp.pre.len() > 0 {
                    if major > 0 {
                        // ^I.J.K-P with I>0: up to the next major
                        VersionSet::between(
                            &cand_pre(major, minor, patch, &comp.pre),
                            &cand(major + 1, 0, 0),
                        )
                    } else if minor > 0 {
                        // ^0.J.K-P with J>0: up to the next minor
                        VersionSet::between(
                            &cand_pre(0, minor, patch, &comp.pre),
                            &cand(0, minor + 1, 0),
                        )
                    } else {
                        // ^0.0.K-P: only the pre-release series
                        VersionSet::between(
                            &cand_pre(major, minor, patch, &comp.pre),
                            &cand(major, minor, patch),
                        )
                    }
                } else {
                    if major > 0 {
                        VersionSet::between(&cand(major, minor, patch), &cand(major + 1, 0, 0))
                    } else if minor > 0 {
                        VersionSet::between(&cand(0, minor, patch), &cand(0, minor + 1, 0))
                    } else {
                        // ^0.0.K: exactly that version
                        VersionSet::exact(&cand(0, 0, patch))
                    }
                }
            },
            (Some(minor), _) => {
                if major > 0 || minor > 0 {
                    VersionSet::between(&cand(major, minor, 0), &cand(major + 1, 0, 0))
                } else {
                    VersionSet::between(&cand(major, minor, 0), &cand(major, minor + 1, 0))
                }
            },
            _ => VersionSet::between(&cand(major, 0, 0), &cand(major + 1, 0, 0)),
        },
        Op::Wildcard => match (comp.minor, comp.patch) {
            (Some(minor), _) => {
                // I.J.*
                VersionSet::between(&cand(major, minor, 0), &cand(major, minor + 1, 0))
            },
            _ => {
                // I.* or I.*.*
                VersionSet::between(&cand(major, 0, 0), &cand(major + 1, 0, 0))
            },
        },
    }
}

} // verus!

verus! {

/// The version set of a whole requirement: the identity set, narrowed by
/// every comparator's release window and widened by every comparator's
/// pre-release window.
pub fn requirement_to_set(req: &Requirement) -> (r: VersionSet)
    requires
        requirement_wf(*req),
    ensures
        r.wf(),
        forall|k: VerKey| r.normal_sem(k) == req_normal_sem(*req, k),
        forall|k: VerKey| r.pre_sem(k) == req_pre_sem(*req, k),
        forall|k: VerKey| r.sem(k) == req_sem(*req, k),
{
    let mut vs = VersionSet::default();
    let n = req.comparators.len();
    let mut i: usize = 0;
    while i < n
        invariant
            i <= n == req.comparators@.len(),
            requirement_wf(*req),
            vs.wf(),
            forall|k: VerKey|
                vs.normal_sem(k) == (forall|j: int|
                    0 <= j < i ==> comp_normal_sem(#[trigger] req.comparators@[j], k)),
            forall|k: VerKey|
                vs.pre_sem(k) == (exists|j: int|
                    0 <= j < i && comp_pre_sem(#[trigger] req.comparators@[j], k)),
        decreases n - i,
    {
        let cn = convert_normal(&req.comparators[i]);
        let cp = convert_prerelease(&req.comparators[i]);
        let ghost old_vs = vs;
        let vs1 = vs.with_normal(&cn);
        vs = vs1.with_pre(&cp);
        proof {
            assert forall|k: VerKey|
                vs.normal_sem(k) == (forall|j: int|
                    0 <= j < i + 1 ==> comp_normal_sem(#[trigger] req.comparators@[j], k)) by {
                if vs.normal_sem(k) {
                    assert forall|j: int|
                        0 <= j < i + 1 implies comp_normal_sem(
                        #[trigger] req.comparators@[j],
                        k,
                    ) by {
                        if j < i {
                            assert(old_vs.normal_sem(k));
                        }
                    }
                }
            }
            assert forall|k: VerKey|
                vs.pre_sem(k) == (exists|j: int|
                    0 <= j < i + 1 && comp_pre_sem(#[trigger] req.comparators@[j], k)) by {
                if vs.pre_sem(k) {
                    if old_vs.pre_sem(k) {
                        let j = choose|j: int|
                            0 <= j < i && comp_pre_sem(#[trigger] req.comparators@[j], k);
                        assert(comp_pre_sem(req.comparators@[j], k));
                    } else {
                        assert(comp_pre_sem(req.comparators@[i as int], k));
                    }
                }
                if exists|j: int|
                    0 <= j < i + 1 && comp_pre_sem(#[trigger] req.comparators@[j], k) {
                    let j = choose|j: int|
                        0 <= j < i + 1 && comp_pre_sem(#[trigger] req.comparators@[j], k);
                    if j < i {
                        assert(old_vs.pre_sem(k));
                    }
                    assert(vs.pre_sem(k));
                }
            }
        }
        i = i + 1;
    }
    proof {
        assert forall|k: VerKey| vs.sem(k) == req_sem(*req, k) by {
            assert(vs.normal_sem(k) == req_normal_sem(*req, k));
            assert(vs.pre_sem(k) == req_pre_sem(*req, k));
        }
    }
    vs
}

/// A requirement that names no pre-release admits no pre-release: the
/// pre-release side of its set is empty, whatever its comparators otherwise
/// say.
pub proof fn lemma_prerelease_needs_mention(req: Requirement, k: VerKey)
    requires
        forall|i: int| 0 <= i < req.comparators@.len() ==> (#[trigger] req.comparators@[i]).pre@.len() == 0,
        k.pre.len() != 0,
    ensures
        !req_sem(req, k),
{
    if req_sem(req, k) {
        let i = choose|i: int|
            0 <= i < req.comparators@.len() && comp_pre_sem(#[trigger] req.comparators@[i], k);
        assert(req.comparators@[i].pre@.len() == 0);
    }
}

} // verus!
