//! The interval algebra under version sets: a `Range` is a union of
//! half-open intervals over the total order on versions, with intersection,
//! union, complement, and membership.

use vstd::prelude::*;

use crate::version::{
    bump_key, key_le, key_lt, key_of, lemma_key_le_trans, lemma_key_lt_trans,
    lemma_key_trichotomy, lemma_version_key, version_le_exec, version_lt_exec, VerKey, Version,
};

verus! {

/// A half-open interval: `[lo, hi)`, where a missing bound is unbounded.
pub struct Interval {
    pub lo: Option<Version>,
    pub hi: Option<Version>,
}

/// A union of intervals.
pub struct Range {
    pub segs: Vec<Interval>,
}

/// The model of a lower bound; `None` is unbounded below.
pub open spec fn lo_key(iv: Interval) -> Option<VerKey> {
    match iv.lo {
        Some(v) => Some(key_of(v)),
        None => None,
    }
}

/// The model of an upper bound; `None` is unbounded above.
pub open spec fn hi_key(iv: Interval) -> Option<VerKey> {
    match iv.hi {
        Some(v) => Some(key_of(v)),
        None => None,
    }
}

/// Membership of a version model in one interval.
#[verifier::opaque]
pub open spec fn in_interval(iv: Interval, k: VerKey) -> bool {
    &&& match lo_key(iv) {
        Some(lo) => key_le(lo, k),
        None => true,
    }
    &&& match hi_key(iv) {
        Some(hi) => key_lt(k, hi),
        None => true,
    }
}

/// Membership in a list of intervals.
pub open spec fn segs_contain(s: Seq<Interval>, k: VerKey) -> bool {
    exists|i: int| 0 <= i < s.len() && in_interval(s[i], k)
}

/// A bounded interval that holds at least its lower bound.
pub open spec fn seg_wf(iv: Interval) -> bool {
    match (lo_key(iv), hi_key(iv)) {
        (Some(lo), Some(hi)) => key_lt(lo, hi),
        _ => true,
    }
}

impl Range {
    /// The set of version models this range denotes.
    pub open spec fn sem(self, k: VerKey) -> bool {
        segs_contain(self.segs@, k)
    }

    /// Well-formed: every bounded interval nonempty, and successive
    /// intervals ordered with no unbounded gap.
    pub open spec fn wf(self) -> bool {
        &&& forall|i: int| 0 <= i < self.segs@.len() ==> seg_wf(#[trigger] self.segs@[i])
        &&& forall|i: int|
            0 <= i && i + 1 < self.segs@.len() ==> {
                &&& hi_key(#[trigger] self.segs@[i]) is Some
                &&& lo_key(self.segs@[i + 1]) is Some
                &&& key_le(hi_key(self.segs@[i]).unwrap(), lo_key(self.segs@[i + 1]).unwrap())
            }
    }
}

/// A fresh copy of an optional bound.
fn dup_bound(b: &Option<Version>) -> (r: Option<Version>)
    ensures
        r is Some <==> *b is Some,
        r matches Some(x) ==> b matches Some(y) && key_of(x) == key_of(*y),
{
    match b {
        None => None,
        Some(v) => {
            let d = v.duplicate();
            proof {
                lemma_version_key(d, *v);
            }
            Some(d)
        },
    }
}

/// A fresh copy of an interval, equal in both bound models.
fn dup_interval(iv: &Interval) -> (r: Interval)
    ensures
        lo_key(r) == lo_key(*iv),
        hi_key(r) == hi_key(*iv),
        seg_wf(r) == seg_wf(*iv),
{
    Interval { lo: dup_bound(&iv.lo), hi: dup_bound(&iv.hi) }
}

impl Range {
    /// The empty set of versions.
    pub fn empty() -> (r: Range)
        ensures
            r.wf(),
            forall|k: VerKey| !r.sem(k),
    {
        Range { segs: Vec::new() }
    }

    /// Every version.
    pub fn any() -> (r: Range)
        ensures
            r.wf(),
            forall|k: VerKey| r.sem(k),
    {
        let mut segs: Vec<Interval> = Vec::new();
        segs.push(Interval { lo: None, hi: None });
        let r = Range { segs };
        proof {
            reveal(in_interval);
            assert(r.segs@.len() == 1 && seg_wf(r.segs@[0]));
            assert(forall|k: VerKey| in_interval(r.segs@[0], k));
        }
        r
    }

    /// The versions at and above `v`.
    pub fn higher_than(v: &Version) -> (r: Range)
        ensures
            r.wf(),
            forall|k: VerKey| r.sem(k) == key_le(key_of(*v), k),
    {
        let d = v.duplicate();
        proof {
            lemma_version_key(d, *v);
        }
        let mut segs: Vec<Interval> = Vec::new();
        segs.push(Interval { lo: Some(d), hi: None });
        let r = Range { segs };
        proof {
            reveal(in_interval);
            assert(r.segs@.len() == 1 && seg_wf(r.segs@[0]));
            assert(forall|k: VerKey| r.sem(k) == in_interval(r.segs@[0], k));
        }
        r
    }

    /// The versions strictly below `v`.
    pub fn strictly_lower_than(v: &Version) -> (r: Range)
        ensures
            r.wf(),
            forall|k: VerKey| r.sem(k) == key_lt(k, key_of(*v)),
    {
        let d = v.duplicate();
        proof {
            lemma_version_key(d, *v);
        }
        let mut segs: Vec<Interval> = Vec::new();
        segs.push(Interval { lo: None, hi: Some(d) });
        let r = Range { segs };
        proof {
            reveal(in_interval);
            assert(r.segs@.len() == 1 && seg_wf(r.segs@[0]));
            assert(forall|k: VerKey| r.sem(k) == in_interval(r.segs@[0], k));
        }
        r
    }

    /// The versions at or above `lo` and strictly below `hi`; empty when the
    /// bounds are not in order.
    pub fn between(lo: &Version, hi: &Version) -> (r: Range)
        ensures
            r.wf(),
            forall|k: VerKey|
                r.sem(k) == (key_le(key_of(*lo), k) && key_lt(k, key_of(*hi))),
    {
        if version_lt_exec(lo, hi) {
            let dl = lo.duplicate();
            let dh = hi.duplicate();
            proof {
                lemma_version_key(dl, *lo);
                lemma_version_key(dh, *hi);
                lemma_version_key(*lo, *hi);
            }
            let mut segs: Vec<Interval> = Vec::new();
            segs.push(Interval { lo: Some(dl), hi: Some(dh) });
            let r = Range { segs };
            proof {
                reveal(in_interval);
                assert(r.segs@.len() == 1 && seg_wf(r.segs@[0]));
                assert(forall|k: VerKey| r.sem(k) == in_interval(r.segs@[0], k));
            }
            r
        } else {
            let r = Range::empty();
            proof {
                lemma_version_key(*lo, *hi);
                assert forall|k: VerKey|
                    !(key_le(key_of(*lo), k) && key_lt(k, key_of(*hi))) by {
                    if key_le(key_of(*lo), k) && key_lt(k, key_of(*hi)) {
                        if key_of(*lo) == k {
                            assert(key_lt(key_of(*lo), key_of(*hi)));
                        } else {
                            lemma_key_lt_trans(key_of(*lo), k, key_of(*hi));
                        }
                        assert(false);
                    }
                }
            }
            r
        }
    }

    /// The half-open interval `[v, bump(v))`: the version itself, anything
    /// that ties with it from a lower-precedence source, and pre-releases of
    /// the next patch.
    pub fn exact(v: &Version) -> (r: Range)
        requires
            v.patch < u64::MAX,
        ensures
            r.wf(),
            forall|k: VerKey|
                r.sem(k) == (key_le(key_of(*v), k) && key_lt(k, bump_key(key_of(*v)))),
    {
        let b = v.bump();
        let r = Range::between(v, &b);
        proof {
            assert(key_of(b) =~~= bump_key(key_of(*v)));
        }
        r
    }

    /// Membership test for a version.
    pub fn contains(&self, v: &Version) -> (r: bool)
        ensures
            r == self.sem(key_of(*v)),
    {
        let n = self.segs.len();
        let mut i: usize = 0;
        while i < n
            invariant
                i <= n == self.segs@.len(),
                forall|j: int| 0 <= j < i ==> !in_interval(#[trigger] self.segs@[j], key_of(*v)),
            decreases n - i,
        {
            if interval_contains(&self.segs[i], v) {
                return true;
            }
            i = i + 1;
        }
        false
    }
}

/// Membership test for one interval.
fn interval_contains(iv: &Interval, v: &Version) -> (r: bool)
    ensures
        r == in_interval(*iv, key_of(*v)),
{
    proof {
        reveal(in_interval);
    }
    let lo_ok = match &iv.lo {
        None => true,
        Some(lo) => {
            let c = version_le_exec(lo, v);
            proof {
                lemma_version_key(*lo, *v);
            }
            c
        },
    };
    let hi_ok = match &iv.hi {
        None => true,
        Some(hi) => {
            let c = version_lt_exec(v, hi);
            proof {
                lemma_version_key(*v, *hi);
            }
            c
        },
    };
    lo_ok && hi_ok
}

} // verus!

verus! {

/// The model of an optional bound value.
pub open spec fn bound_key(o: Option<Version>) -> Option<VerKey> {
    match o {
        Some(v) => Some(key_of(v)),
        None => None,
    }
}

/// Order on lower bounds, where `None` is unbounded below.
pub open spec fn lo_le_opt(a: Option<VerKey>, b: Option<VerKey>) -> bool {
    match (a, b) {
        (None, _) => true,
        (Some(_), None) => false,
        (Some(x), Some(y)) => key_le(x, y),
    }
}

/// Order on upper bounds, where `None` is unbounded above.
pub open spec fn hi_le_opt(a: Option<VerKey>, b: Option<VerKey>) -> bool {
    match (a, b) {
        (_, None) => true,
        (None, Some(_)) => false,
        (Some(x), Some(y)) => key_le(x, y),
    }
}

/// A lower bound strictly below an upper bound; either may be unbounded.
pub open spec fn lo_lt_hi(lo: Option<VerKey>, hi: Option<VerKey>) -> bool {
    match (lo, hi) {
        (None, _) => true,
        (_, None) => true,
        (Some(l), Some(h)) => key_lt(l, h),
    }
}

/// Lower bounds of a list are in order.
pub open spec fn sorted_los(s: Seq<Interval>) -> bool {
    forall|i: int, j: int|
        0 <= i < j < s.len() ==> lo_le_opt(lo_key(#[trigger] s[i]), lo_key(#[trigger] s[j]))
}

proof fn lemma_lo_le_total(a: Option<VerKey>, b: Option<VerKey>)
    ensures
        lo_le_opt(a, b) || lo_le_opt(b, a),
{
    if a is Some && b is Some {
        lemma_key_trichotomy(a.unwrap(), b.unwrap());
    }
}

proof fn lemma_contain_push(s: Seq<Interval>, x: Interval, k: VerKey)
    ensures
        segs_contain(s.push(x), k) == (segs_contain(s, k) || in_interval(x, k)),
{
    let t = s.push(x);
    if segs_contain(t, k) {
        let i = choose|i: int| 0 <= i < t.len() && in_interval(t[i], k);
        if i < s.len() {
            assert(t[i] == s[i]);
            assert(segs_contain(s, k));
        } else {
            assert(t[i] == x);
        }
    }
    if segs_contain(s, k) {
        let i = choose|i: int| 0 <= i < s.len() && in_interval(s[i], k);
        assert(t[i] == s[i]);
        assert(in_interval(t[i], k));
    }
    if in_interval(x, k) {
        assert(in_interval(t[s.len() as int], k));
    }
}

proof fn lemma_contain_insert(s: Seq<Interval>, pos: int, x: Interval, k: VerKey)
    requires
        0 <= pos <= s.len(),
    ensures
        segs_contain(s.insert(pos, x), k) == (segs_contain(s, k) || in_interval(x, k)),
{
    let t = s.insert(pos, x);
    if segs_contain(t, k) {
        let i = choose|i: int| 0 <= i < t.len() && in_interval(t[i], k);
        if i == pos {
            assert(t[i] == x);
        } else if i < pos {
            assert(t[i] == s[i]);
            assert(segs_contain(s, k));
        } else {
            assert(t[i] == s[i - 1]);
            assert(segs_contain(s, k));
        }
    }
    if segs_contain(s, k) {
        let i = choose|i: int| 0 <= i < s.len() && in_interval(s[i], k);
        if i < pos {
            assert(t[i] == s[i]);
            assert(in_interval(t[i], k));
        } else {
            assert(t[i + 1] == s[i]);
            assert(in_interval(t[i + 1], k));
        }
    }
    if in_interval(x, k) {
        assert(t[pos] == x);
        assert(in_interval(t[pos], k));
    }
}

proof fn lemma_contain_head(s: Seq<Interval>, k: VerKey)
    requires
        s.len() > 0,
    ensures
        segs_contain(s, k) == (in_interval(s[0], k) || segs_contain(s.drop_first(), k)),
{
    let t = s.drop_first();
    if segs_contain(s, k) {
        let i = choose|i: int| 0 <= i < s.len() && in_interval(s[i], k);
        if i > 0 {
            assert(t[i - 1] == s[i]);
            assert(in_interval(t[i - 1], k));
        }
    }
    if segs_contain(t, k) {
        let i = choose|i: int| 0 <= i < t.len() && in_interval(t[i], k);
        assert(t[i] == s[i + 1]);
        assert(in_interval(s[i + 1], k));
    }
}

/// An interval whose bounds are out of order holds nothing.
proof fn lemma_empty_interval(iv: Interval, k: VerKey)
    requires
        lo_key(iv) is Some,
        hi_key(iv) is Some,
        !key_lt(lo_key(iv).unwrap(), hi_key(iv).unwrap()),
    ensures
        !in_interval(iv, k),
{
    reveal(in_interval);
    let lo = lo_key(iv).unwrap();
    let hi = hi_key(iv).unwrap();
    if in_interval(iv, k) {
        if lo == k {
            assert(key_lt(lo, hi));
        } else {
            lemma_key_lt_trans(lo, k, hi);
        }
    }
}

/// Merging two overlapping intervals in lower-bound order loses nothing and
/// adds nothing.
proof fn lemma_merge_segs(a: Interval, b: Interval, m: Interval, k: VerKey)
    requires
        lo_key(m) == lo_key(a),
        hi_key(m) == (if hi_le_opt(hi_key(a), hi_key(b)) {
            hi_key(b)
        } else {
            hi_key(a)
        }),
        lo_le_opt(lo_key(a), lo_key(b)),
        lo_lt_hi(lo_key(b), hi_key(a)),
    ensures
        in_interval(m, k) == (in_interval(a, k) || in_interval(b, k)),
{
    reveal(in_interval);
    let la = lo_key(a);
    let lb = lo_key(b);
    let ha = hi_key(a);
    let hb = hi_key(b);
    if ha is Some && hb is Some {
        lemma_key_trichotomy(ha.unwrap(), hb.unwrap());
    }
    // in a  ==>  in m
    if in_interval(a, k) {
        if ha is Some && hb is Some && key_le(ha.unwrap(), hb.unwrap()) && key_lt(
            k,
            ha.unwrap(),
        ) && ha.unwrap() != hb.unwrap() {
            lemma_key_lt_trans(k, ha.unwrap(), hb.unwrap());
        }
        assert(in_interval(m, k));
    }
    // in b  ==>  in m
    if in_interval(b, k) {
        if la is Some {
            // m's lower bound is a's, which is at or below b's.
            assert(lb is Some);
            if key_le(la.unwrap(), lb.unwrap()) && key_le(lb.unwrap(), k) {
                lemma_key_le_trans(la.unwrap(), lb.unwrap(), k);
            }
        }
        if hb is Some && ha is Some && key_le(hb.unwrap(), ha.unwrap()) && key_lt(
            k,
            hb.unwrap(),
        ) && hb.unwrap() != ha.unwrap() {
            lemma_key_lt_trans(k, hb.unwrap(), ha.unwrap());
        }
        assert(in_interval(m, k));
    }
    // in m  ==>  in a or in b
    if in_interval(m, k) {
        if ha is None || key_lt(k, ha.unwrap()) {
            assert(in_interval(a, k));
        } else {
            // k sits at or above a's upper bound, so m's upper bound is b's,
            // and k lies inside b.
            lemma_key_trichotomy(k, ha.unwrap());
            assert(key_le(ha.unwrap(), k));
            assert(hi_le_opt(ha, hb) && hi_key(m) == hb) by {
                if !hi_le_opt(ha, hb) {
                    // then m's upper bound is a's, contradicting membership
                    assert(hi_key(m) == ha);
                }
            }
            if lb is Some {
                // b's lower bound is strictly below a's upper bound
                assert(key_lt(lb.unwrap(), ha.unwrap()));
                if ha.unwrap() == k {
                } else {
                    assert(key_lt(ha.unwrap(), k));
                    lemma_key_lt_trans(lb.unwrap(), ha.unwrap(), k);
                }
                assert(key_le(lb.unwrap(), k));
            }
            assert(in_interval(b, k));
        }
    }
}

} // verus!

verus! {

/// Lower-bound order test on optional bounds.
fn lo_le_exec(a: &Option<Version>, b: &Option<Version>) -> (r: bool)
    ensures
        r == lo_le_opt(bound_key(*a), bound_key(*b)),
{
    match (a, b) {
        (None, _) => true,
        (Some(_), None) => false,
        (Some(x), Some(y)) => {
            let c = version_le_exec(x, y);
            proof {
                lemma_version_key(*x, *y);
            }
            c
        },
    }
}

/// Strictly-below test of a lower bound against an upper bound.
fn lo_lt_hi_exec(lo: &Option<Version>, hi: &Option<Version>) -> (r: bool)
    ensures
        r == lo_lt_hi(bound_key(*lo), bound_key(*hi)),
{
    match (lo, hi) {
        (None, _) => true,
        (_, None) => true,
        (Some(l), Some(h)) => {
            let c = version_lt_exec(l, h);
            proof {
                lemma_version_key(*l, *h);
            }
            c
        },
    }
}

/// The larger of two upper bounds.
fn max_hi(a: Option<Version>, b: Option<Version>) -> (r: Option<Version>)
    ensures
        bound_key(r) == (if hi_le_opt(bound_key(a), bound_key(b)) {
            bound_key(b)
        } else {
            bound_key(a)
        }),
{
    match (a, b) {
        (_, None) => None,
        (None, Some(_)) => None,
        (Some(x), Some(y)) => {
            let c = version_le_exec(&x, &y);
            proof {
                lemma_version_key(x, y);
            }
            if c {
                Some(y)
            } else {
                Some(x)
            }
        },
    }
}

proof fn lemma_lo_le_trans(a: Option<VerKey>, b: Option<VerKey>, c: Option<VerKey>)
    requires
        lo_le_opt(a, b),
        lo_le_opt(b, c),
    ensures
        lo_le_opt(a, c),
{
    if a is Some && b is Some && c is Some {
        lemma_key_le_trans(a.unwrap(), b.unwrap(), c.unwrap());
    }
}

/// The position at which an interval keeps the list sorted by lower bound.
fn find_pos(sorted: &Vec<Interval>, x: &Interval) -> (p: usize)
    ensures
        p <= sorted@.len(),
        forall|q: int| 0 <= q < p ==> lo_le_opt(lo_key(#[trigger] sorted@[q]), lo_key(*x)),
        p < sorted@.len() ==> lo_le_opt(lo_key(*x), lo_key(sorted@[p as int])),
{
    let n = sorted.len();
    let mut p: usize = 0;
    while p < n
        invariant
            p <= n == sorted@.len(),
            forall|q: int| 0 <= q < p ==> lo_le_opt(lo_key(#[trigger] sorted@[q]), lo_key(*x)),
        decreases n - p,
    {
        if lo_le_exec(&x.lo, &sorted[p].lo) {
            return p;
        }
        proof {
            lemma_lo_le_total(bound_key(x.lo), lo_key(sorted@[p as int]));
        }
        p = p + 1;
    }
    p
}

/// Drops empty intervals and sorts the rest by lower bound, keeping exactly
/// the same membership.
fn sort_segs(input: Vec<Interval>) -> (r: Vec<Interval>)
    ensures
        forall|j: int| 0 <= j < r@.len() ==> seg_wf(#[trigger] r@[j]),
        sorted_los(r@),
        forall|k: VerKey| segs_contain(r@, k) == segs_contain(input@, k),
{
    let mut kept: Vec<Interval> = Vec::new();
    let n = input.len();
    let mut i: usize = 0;
    while i < n
        invariant
            i <= n == input@.len(),
            forall|j: int| 0 <= j < kept@.len() ==> seg_wf(#[trigger] kept@[j]),
            forall|k: VerKey| segs_contain(kept@, k) == segs_contain(input@.take(i as int), k),
        decreases n - i,
    {
        let iv = dup_interval(&input[i]);
        let keep = match (&iv.lo, &iv.hi) {
            (Some(l), Some(h)) => {
                let c = version_lt_exec(l, h);
                proof {
                    lemma_version_key(*l, *h);
                }
                c
            },
            _ => true,
        };
        let ghost old_kept = kept@;
        if keep {
            kept.push(iv);
        }
        proof {
            assert(input@.take(i + 1 as int) =~= input@.take(i as int).push(input@[i as int]));
            assert forall|k: VerKey|
                segs_contain(kept@, k) == segs_contain(input@.take(i + 1 as int), k) by {
                lemma_contain_push(input@.take(i as int), input@[i as int], k);
                if keep {
                    lemma_contain_push(old_kept, kept@.last(), k);
                    assert(in_interval(kept@.last(), k) == in_interval(input@[i as int], k)) by {
                        reveal(in_interval);
                    }
                } else {
                    lemma_empty_interval(input@[i as int], k);
                }
            }
        }
        i = i + 1;
    }
    proof {
        assert(input@.take(n as int) =~= input@);
    }

    let mut sorted: Vec<Interval> = Vec::new();
    while kept.len() > 0
        invariant
            forall|j: int| 0 <= j < kept@.len() ==> seg_wf(#[trigger] kept@[j]),
            forall|j: int| 0 <= j < sorted@.len() ==> seg_wf(#[trigger] sorted@[j]),
            sorted_los(sorted@),
            forall|k: VerKey|
                (segs_contain(sorted@, k) || segs_contain(kept@, k)) == segs_contain(input@, k),
        decreases kept@.len(),
    {
        let ghost old_kept = kept@;
        let x = kept.remove(0);
        let p = find_pos(&sorted, &x);
        let ghost old_sorted = sorted@;
        let ghost pos = p as int;
        sorted.insert(p, x);
        proof {
            assert(sorted@ == old_sorted.insert(pos, old_kept[0]));
            assert(forall|q: int| 0 <= q < pos ==> #[trigger] sorted@[q] == old_sorted[q]);
            assert(sorted@[pos] == old_kept[0]);
            assert(forall|q: int|
                pos < q < sorted@.len() ==> #[trigger] sorted@[q] == old_sorted[q - 1]);
            assert forall|q: int, q2: int|
                0 <= q < q2 < sorted@.len() implies lo_le_opt(
                lo_key(#[trigger] sorted@[q]),
                lo_key(#[trigger] sorted@[q2]),
            ) by {
                if q == pos && q2 > pos {
                    lemma_lo_le_trans(
                        lo_key(old_kept[0]),
                        lo_key(old_sorted[pos]),
                        lo_key(old_sorted[q2 - 1]),
                    );
                }
            }
            assert forall|k: VerKey|
                (segs_contain(sorted@, k) || segs_contain(kept@, k)) == segs_contain(
                input@,
                k,
            ) by {
                lemma_contain_insert(old_sorted, pos, old_kept[0], k);
                lemma_contain_head(old_kept, k);
            }
        }
    }
    sorted
}

/// Chain shape: every interval nonempty, adjacent intervals ordered, and
/// `cur` continuing the chain.
pub open spec fn chain_wf(result: Seq<Interval>, cur: Interval) -> bool {
    &&& forall|j: int| 0 <= j < result.len() ==> seg_wf(#[trigger] result[j])
    &&& seg_wf(cur)
    &&& forall|j: int|
        0 <= j && j + 1 < result.len() ==> {
            &&& hi_key(#[trigger] result[j]) is Some
            &&& lo_key(result[j + 1]) is Some
            &&& key_le(hi_key(result[j]).unwrap(), lo_key(result[j + 1]).unwrap())
        }
    &&& result.len() > 0 ==> {
        &&& lo_key(cur) is Some
        &&& hi_key(result.last()) is Some
        &&& key_le(hi_key(result.last()).unwrap(), lo_key(cur).unwrap())
    }
}

/// The coalescing invariant: the chain built so far, with `cur` still open,
/// holds exactly what the first `i` sorted intervals hold.
#[verifier::opaque]
pub open spec fn covers(sorted: Seq<Interval>, result: Seq<Interval>, cur: Interval, i: int) -> bool {
    forall|k: VerKey|
        (segs_contain(result, k) || in_interval(cur, k)) == segs_contain(sorted.take(i), k)
}

/// What one coalescing step preserves: together, the chain and the open
/// interval keep exactly the versions they and the new interval held.
#[verifier::opaque]
pub open spec fn step_sem(
    old_result: Seq<Interval>,
    cur: Interval,
    nxt: Interval,
    result: Seq<Interval>,
    newcur: Interval,
) -> bool {
    forall|k: VerKey|
        (segs_contain(result, k) || in_interval(newcur, k)) == (segs_contain(old_result, k)
            || in_interval(cur, k) || in_interval(nxt, k))
}

/// One coalescing step keeps the covering invariant.
proof fn lemma_covers_step(
    sorted: Seq<Interval>,
    i: int,
    old_result: Seq<Interval>,
    old_cur: Interval,
    nxt: Interval,
    result: Seq<Interval>,
    newcur: Interval,
)
    requires
        0 <= i < sorted.len(),
        lo_key(nxt) == lo_key(sorted[i]),
        hi_key(nxt) == hi_key(sorted[i]),
        covers(sorted, old_result, old_cur, i),
        step_sem(old_result, old_cur, nxt, result, newcur),
    ensures
        covers(sorted, result, newcur, i + 1),
{
    reveal(covers);
    reveal(step_sem);
    assert(sorted.take(i + 1) =~= sorted.take(i).push(sorted[i]));
    assert forall|k: VerKey|
        (segs_contain(result, k) || in_interval(newcur, k)) == segs_contain(
            sorted.take(i + 1),
            k,
        ) by {
        lemma_contain_push(sorted.take(i), sorted[i], k);
        assert(in_interval(nxt, k) == in_interval(sorted[i], k)) by {
            reveal(in_interval);
        }
    }
}

/// One step of coalescing: either absorbs `nxt` into `cur` or closes `cur`.
fn merge_step(result: &mut Vec<Interval>, cur: Interval, nxt: Interval) -> (newcur: Interval)
    requires
        seg_wf(nxt),
        lo_le_opt(lo_key(cur), lo_key(nxt)),
        chain_wf(old(result)@, cur),
    ensures
        chain_wf(final (result)@, newcur),
        lo_key(newcur) == lo_key(cur) || lo_key(newcur) == lo_key(nxt),
        step_sem(old(result)@, cur, nxt, final (result)@, newcur),
{
    if lo_lt_hi_exec(&nxt.lo, &cur.hi) {
        let ghost old_cur = cur;
        let merged_hi = max_hi(cur.hi, nxt.hi);
        let newcur = Interval { lo: cur.lo, hi: merged_hi };
        proof {
            lemma_merge_wf(old_cur, nxt, newcur);
            assert(step_sem(old(result)@, old_cur, nxt, result@, newcur)) by {
                reveal(step_sem);
                assert forall|k: VerKey|
                    (segs_contain(result@, k) || in_interval(newcur, k)) == (segs_contain(
                        old(result)@,
                        k,
                    ) || in_interval(old_cur, k) || in_interval(nxt, k)) by {
                    lemma_merge_segs(old_cur, nxt, newcur, k);
                }
            }
        }
        newcur
    } else {
        let ghost old_cur = cur;
        let ghost old_result = result@;
        result.push(cur);
        proof {
            assert(result@.last() == old_cur);
            assert(forall|j: int|
                0 <= j < old_result.len() ==> #[trigger] result@[j] == old_result[j]);
            assert(hi_key(old_cur) is Some && lo_key(nxt) is Some && key_le(
                hi_key(old_cur).unwrap(),
                lo_key(nxt).unwrap(),
            )) by {
                lemma_key_trichotomy(hi_key(old_cur).unwrap(), lo_key(nxt).unwrap());
            }
            assert(step_sem(old_result, old_cur, nxt, result@, nxt)) by {
                reveal(step_sem);
                assert forall|k: VerKey|
                    (segs_contain(result@, k) || in_interval(nxt, k)) == (segs_contain(
                        old_result,
                        k,
                    ) || in_interval(old_cur, k) || in_interval(nxt, k)) by {
                    lemma_contain_push(old_result, old_cur, k);
                }
            }
        }
        nxt
    }
}

/// Advances the coalescing pass over one interval of the sorted list.
#[verifier::rlimit(100)]
fn merge_advance(sorted: &Vec<Interval>, i: usize, result: &mut Vec<Interval>, cur: Interval) -> (newcur: Interval)
    requires
        1 <= i < sorted@.len(),
        sorted_los(sorted@),
        forall|j: int| 0 <= j < sorted@.len() ==> seg_wf(#[trigger] sorted@[j]),
        chain_wf(old(result)@, cur),
        forall|j: int|
            i <= j < sorted@.len() ==> lo_le_opt(lo_key(cur), lo_key(#[trigger] sorted@[j])),
        covers(sorted@, old(result)@, cur, i as int),
    ensures
        chain_wf(final (result)@, newcur),
        forall|j: int|
            i + 1 <= j < sorted@.len() ==> lo_le_opt(
                lo_key(newcur),
                lo_key(#[trigger] sorted@[j]),
            ),
        covers(sorted@, final (result)@, newcur, i + 1 as int),
{
    let nxt = dup_interval(&sorted[i]);
    let ghost old_cur = cur;
    let ghost old_result = result@;
    let ghost gnxt = nxt;
    let newcur = merge_step(result, cur, nxt);
    proof {
        lemma_covers_step(sorted@, i as int, old_result, old_cur, gnxt, result@, newcur);
        assert forall|j: int|
            i + 1 <= j < sorted@.len() implies lo_le_opt(
            lo_key(newcur),
            lo_key(#[trigger] sorted@[j]),
        ) by {
            assert(lo_le_opt(lo_key(old_cur), lo_key(sorted@[j])));
            assert(lo_le_opt(lo_key(sorted@[i as int]), lo_key(sorted@[j])));
            assert(lo_key(gnxt) == lo_key(sorted@[i as int]));
        }
    }
    newcur
}

/// Coalesces a sorted list of nonempty intervals into a well-formed range
/// with the same membership.
fn merge_segs(sorted: Vec<Interval>) -> (r: Range)
    requires
        forall|j: int| 0 <= j < sorted@.len() ==> seg_wf(#[trigger] sorted@[j]),
        sorted_los(sorted@),
    ensures
        r.wf(),
        forall|k: VerKey| r.sem(k) == segs_contain(sorted@, k),
{
    if sorted.len() == 0 {
        let r = Range { segs: Vec::new() };
        proof {
            assert(forall|k: VerKey| !r.sem(k));
        }
        return r;
    }
    let slen = sorted.len();
    let mut result: Vec<Interval> = Vec::new();
    let mut cur = dup_interval(&sorted[0]);
    let mut i: usize = 1;
    proof {
        reveal(covers);
        assert(sorted@.take(1) =~= Seq::empty().push(sorted@[0]));
        assert forall|k: VerKey|
            (segs_contain(result@, k) || in_interval(cur, k)) == segs_contain(
                sorted@.take(1),
                k,
            ) by {
            lemma_contain_push(Seq::empty(), sorted@[0], k);
            assert(in_interval(cur, k) == in_interval(sorted@[0], k)) by {
                reveal(in_interval);
            }
        }
        assert(covers(sorted@, result@, cur, 1));
    }
    while i < slen
        invariant
            1 <= i <= slen == sorted@.len(),
            sorted_los(sorted@),
            forall|j: int| 0 <= j < sorted@.len() ==> seg_wf(#[trigger] sorted@[j]),
            chain_wf(result@, cur),
            forall|j: int|
                i <= j < sorted@.len() ==> lo_le_opt(lo_key(cur), lo_key(#[trigger] sorted@[j])),
            covers(sorted@, result@, cur, i as int),
        decreases slen - i,
    {
        cur = merge_advance(&sorted, i, &mut result, cur);
        i = i + 1;
    }
    let ghost old_result = result@;
    let ghost last_cur = cur;
    result.push(cur);
    let r = Range { segs: result };
    proof {
        reveal(covers);
        assert(sorted@.take(slen as int) =~= sorted@);
        assert(r.segs@.last() == last_cur);
        assert(forall|j: int|
            0 <= j < old_result.len() ==> #[trigger] r.segs@[j] == old_result[j]);
        assert forall|k: VerKey| r.sem(k) == segs_contain(sorted@, k) by {
            lemma_contain_push(old_result, last_cur, k);
        }
    }
    r
}

/// A merged interval of two overlapping ones is nonempty.
proof fn lemma_merge_wf(a: Interval, b: Interval, m: Interval)
    requires
        seg_wf(a),
        seg_wf(b),
        lo_key(m) == lo_key(a),
        hi_key(m) == (if hi_le_opt(hi_key(a), hi_key(b)) {
            hi_key(b)
        } else {
            hi_key(a)
        }),
        lo_le_opt(lo_key(a), lo_key(b)),
        lo_lt_hi(lo_key(b), hi_key(a)),
    ensures
        seg_wf(m),
{
    if lo_key(m) is Some && hi_key(m) is Some {
        if hi_key(m) == hi_key(a) && !(hi_le_opt(hi_key(a), hi_key(b)) && hi_key(a)
            == hi_key(b)) {
        }
        if hi_le_opt(hi_key(a), hi_key(b)) {
            assert(hi_key(m) == hi_key(b));
            assert(lo_key(b) is Some);
            if lo_key(a).unwrap() == lo_key(b).unwrap() {
            } else {
                lemma_key_lt_trans(
                    lo_key(a).unwrap(),
                    lo_key(b).unwrap(),
                    hi_key(b).unwrap(),
                );
            }
        }
    }
}

/// Rebuilds an arbitrary list of intervals as a well-formed range that holds
/// exactly the same versions.
pub(crate) fn normalize(input: Vec<Interval>) -> (r: Range)
    ensures
        r.wf(),
        forall|k: VerKey| r.sem(k) == segs_contain(input@, k),
{
    let sorted = sort_segs(input);
    merge_segs(sorted)
}

} // verus!

verus! {

/// Containment over a concatenation is containment over either part.
proof fn lemma_contain_concat(a: Seq<Interval>, b: Seq<Interval>, k: VerKey)
    ensures
        segs_contain(a + b, k) == (segs_contain(a, k) || segs_contain(b, k)),
{
    let t = a + b;
    if segs_contain(t, k) {
        let i = choose|i: int| 0 <= i < t.len() && in_interval(t[i], k);
        if i < a.len() {
            assert(t[i] == a[i]);
            assert(segs_contain(a, k));
        } else {
            assert(t[i] == b[i - a.len()]);
            assert(segs_contain(b, k));
        }
    }
    if segs_contain(a, k) {
        let i = choose|i: int| 0 <= i < a.len() && in_interval(a[i], k);
        assert(t[i] == a[i]);
        assert(in_interval(t[i], k));
    }
    if segs_contain(b, k) {
        let i = choose|i: int| 0 <= i < b.len() && in_interval(b[i], k);
        assert(t[a.len() + i] == b[i]);
        assert(in_interval(t[a.len() + i], k));
    }
}

/// The smaller of two upper bounds, where `None` is unbounded above.
fn min_hi(a: &Option<Version>, b: &Option<Version>) -> (r: Option<Version>)
    ensures
        bound_key(r) == (if hi_le_opt(bound_key(*a), bound_key(*b)) {
            bound_key(*a)
        } else {
            bound_key(*b)
        }),
{
    match (a, b) {
        (None, None) => None,
        (None, Some(y)) => {
            let d = y.duplicate();
            proof {
                lemma_version_key(d, *y);
            }
            Some(d)
        },
        (Some(x), None) => {
            let d = x.duplicate();
            proof {
                lemma_version_key(d, *x);
            }
            Some(d)
        },
        (Some(x), Some(y)) => {
            let c = version_le_exec(x, y);
            proof {
                lemma_version_key(*x, *y);
            }
            if c {
                let d = x.duplicate();
                proof {
                    lemma_version_key(d, *x);
                }
                Some(d)
            } else {
                let d = y.duplicate();
                proof {
                    lemma_version_key(d, *y);
                }
                Some(d)
            }
        },
    }
}

/// The intersection of two intervals.
fn intersect_pair(a: &Interval, b: &Interval) -> (r: Interval)
    ensures
        forall|k: VerKey| in_interval(r, k) == (in_interval(*a, k) && in_interval(*b, k)),
{
    let lo = if lo_le_exec(&a.lo, &b.lo) {
        dup_bound(&b.lo)
    } else {
        dup_bound(&a.lo)
    };
    let hi = min_hi(&a.hi, &b.hi);
    let r = Interval { lo, hi };
    proof {
        assert forall|k: VerKey|
            in_interval(r, k) == (in_interval(*a, k) && in_interval(*b, k)) by {
            reveal(in_interval);
            if lo_key(*a) is Some && lo_key(*b) is Some {
                lemma_key_trichotomy(lo_key(*a).unwrap(), lo_key(*b).unwrap());
                lemma_key_trichotomy(lo_key(*a).unwrap(), k);
                lemma_key_trichotomy(lo_key(*b).unwrap(), k);
                if key_le(lo_key(*a).unwrap(), lo_key(*b).unwrap()) && key_le(
                    lo_key(*b).unwrap(),
                    k,
                ) {
                    lemma_key_le_trans(lo_key(*a).unwrap(), lo_key(*b).unwrap(), k);
                }
                if key_le(lo_key(*b).unwrap(), lo_key(*a).unwrap()) && key_le(
                    lo_key(*a).unwrap(),
                    k,
                ) {
                    lemma_key_le_trans(lo_key(*b).unwrap(), lo_key(*a).unwrap(), k);
                }
            }
            if hi_key(*a) is Some && hi_key(*b) is Some {
                lemma_key_trichotomy(hi_key(*a).unwrap(), hi_key(*b).unwrap());
                if key_lt(k, hi_key(*a).unwrap()) && key_le(
                    hi_key(*a).unwrap(),
                    hi_key(*b).unwrap(),
                ) && hi_key(*a).unwrap() != hi_key(*b).unwrap() {
                    lemma_key_lt_trans(k, hi_key(*a).unwrap(), hi_key(*b).unwrap());
                }
                if key_lt(k, hi_key(*b).unwrap()) && key_le(
                    hi_key(*b).unwrap(),
                    hi_key(*a).unwrap(),
                ) && hi_key(*b).unwrap() != hi_key(*a).unwrap() {
                    lemma_key_lt_trans(k, hi_key(*b).unwrap(), hi_key(*a).unwrap());
                }
            }
        }
    }
    r
}

impl Range {
    /// A fresh, well-formed copy holding the same versions.
    pub fn duplicate(&self) -> (r: Range)
        ensures
            r.wf(),
            forall|k: VerKey| r.sem(k) == self.sem(k),
    {
        let mut segs: Vec<Interval> = Vec::new();
        let n = self.segs.len();
        let mut i: usize = 0;
        while i < n
            invariant
                i <= n == self.segs@.len(),
                forall|k: VerKey|
                    segs_contain(segs@, k) == segs_contain(self.segs@.take(i as int), k),
            decreases n - i,
        {
            let iv = dup_interval(&self.segs[i]);
            let ghost old_segs = segs@;
            segs.push(iv);
            proof {
                assert(self.segs@.take(i + 1 as int) =~= self.segs@.take(i as int).push(
                    self.segs@[i as int],
                ));
                assert forall|k: VerKey|
                    segs_contain(segs@, k) == segs_contain(
                        self.segs@.take(i + 1 as int),
                        k,
                    ) by {
                    lemma_contain_push(old_segs, segs@.last(), k);
                    lemma_contain_push(self.segs@.take(i as int), self.segs@[i as int], k);
                    assert(in_interval(segs@.last(), k) == in_interval(
                        self.segs@[i as int],
                        k,
                    )) by {
                        reveal(in_interval);
                    }
                }
            }
            i = i + 1;
        }
        proof {
            assert(self.segs@.take(n as int) =~= self.segs@);
        }
        normalize(segs)
    }

    /// The versions in either range.
    pub fn union(&self, other: &Range) -> (r: Range)
        ensures
            r.wf(),
            forall|k: VerKey| r.sem(k) == (self.sem(k) || other.sem(k)),
    {
        let a = self.duplicate();
        let b = other.duplicate();
        let mut segs = a.segs;
        let mut bsegs = b.segs;
        let ghost ga = segs@;
        let ghost gb = bsegs@;
        segs.append(&mut bsegs);
        proof {
            assert(segs@ == ga + gb);
            assert forall|k: VerKey|
                segs_contain(segs@, k) == (self.sem(k) || other.sem(k)) by {
                lemma_contain_concat(ga, gb, k);
            }
        }
        normalize(segs)
    }

    /// The versions in both ranges.
    pub fn intersection(&self, other: &Range) -> (r: Range)
        ensures
            r.wf(),
            forall|k: VerKey| r.sem(k) == (self.sem(k) && other.sem(k)),
    {
        let mut out: Vec<Interval> = Vec::new();
        let n = self.segs.len();
        let m = other.segs.len();
        let mut i: usize = 0;
        while i < n
            invariant
                i <= n == self.segs@.len(),
                m == other.segs@.len(),
                forall|k: VerKey|
                    segs_contain(out@, k) == (segs_contain(self.segs@.take(i as int), k)
                        && segs_contain(other.segs@, k)),
            decreases n - i,
        {
            let mut j: usize = 0;
            while j < m
                invariant
                    i < n == self.segs@.len(),
                    j <= m == other.segs@.len(),
                    forall|k: VerKey|
                        segs_contain(out@, k) == ((segs_contain(self.segs@.take(i as int), k)
                            && segs_contain(other.segs@, k)) || (in_interval(
                            self.segs@[i as int],
                            k,
                        ) && segs_contain(other.segs@.take(j as int), k))),
                decreases m - j,
            {
                let p = intersect_pair(&self.segs[i], &other.segs[j]);
                let ghost old_out = out@;
                out.push(p);
                proof {
                    assert(other.segs@.take(j + 1 as int) =~= other.segs@.take(j as int).push(
                        other.segs@[j as int],
                    ));
                    assert forall|k: VerKey|
                        segs_contain(out@, k) == ((segs_contain(self.segs@.take(i as int), k)
                            && segs_contain(other.segs@, k)) || (in_interval(
                            self.segs@[i as int],
                            k,
                        ) && segs_contain(other.segs@.take(j + 1 as int), k))) by {
                        lemma_contain_push(old_out, out@.last(), k);
                        lemma_contain_push(
                            other.segs@.take(j as int),
                            other.segs@[j as int],
                            k,
                        );
                    }
                }
                j = j + 1;
            }
            proof {
                assert(other.segs@.take(m as int) =~= other.segs@);
                assert(self.segs@.take(i + 1 as int) =~= self.segs@.take(i as int).push(
                    self.segs@[i as int],
                ));
                assert forall|k: VerKey|
                    segs_contain(out@, k) == (segs_contain(self.segs@.take(i + 1 as int), k)
                        && segs_contain(other.segs@, k)) by {
                    lemma_contain_push(self.segs@.take(i as int), self.segs@[i as int], k);
                }
            }
            i = i + 1;
        }
        proof {
            assert(self.segs@.take(n as int) =~= self.segs@);
        }
        normalize(out)
    }

    /// The versions not in this range.
    pub fn negate(&self) -> (r: Range)
        ensures
            r.wf(),
            forall|k: VerKey| r.sem(k) == !self.sem(k),
    {
        let mut acc = Range::any();
        let n = self.segs.len();
        let mut i: usize = 0;
        while i < n
            invariant
                i <= n == self.segs@.len(),
                acc.wf(),
                forall|k: VerKey| acc.sem(k) == !segs_contain(self.segs@.take(i as int), k),
            decreases n - i,
        {
            let c = seg_complement(&self.segs[i]);
            let next = acc.intersection(&c);
            proof {
                assert(self.segs@.take(i + 1 as int) =~= self.segs@.take(i as int).push(
                    self.segs@[i as int],
                ));
                assert forall|k: VerKey|
                    next.sem(k) == !segs_contain(self.segs@.take(i + 1 as int), k) by {
                    lemma_contain_push(self.segs@.take(i as int), self.segs@[i as int], k);
                }
            }
            acc = next;
            i = i + 1;
        }
        proof {
            assert(self.segs@.take(n as int) =~= self.segs@);
        }
        acc
    }
}

/// The versions outside one interval.
fn seg_complement(iv: &Interval) -> (r: Range)
    ensures
        r.wf(),
        forall|k: VerKey| r.sem(k) == !in_interval(*iv, k),
{
    let mut segs: Vec<Interval> = Vec::new();
    if let Some(l) = &iv.lo {
        segs.push(Interval { lo: None, hi: Some(l.duplicate()) });
    }
    if let Some(h) = &iv.hi {
        segs.push(Interval { lo: Some(h.duplicate()), hi: None });
    }
    let ghost gsegs = segs@;
    let r = normalize(segs);
    proof {
        assert forall|k: VerKey| r.sem(k) == !in_interval(*iv, k) by {
            reveal(in_interval);
            if iv.lo is Some {
                lemma_version_key(iv.lo.unwrap(), iv.lo.unwrap());
                lemma_key_trichotomy(key_of(iv.lo.unwrap()), k);
                assert(lo_key(gsegs[0]) is None && hi_key(gsegs[0]) == Some(
                    key_of(iv.lo.unwrap()),
                ));
            }
            if iv.hi is Some {
                lemma_key_trichotomy(k, key_of(iv.hi.unwrap()));
                let idx: int = if iv.lo is Some {
                    1
                } else {
                    0
                };
                assert(lo_key(gsegs[idx]) == Some(key_of(iv.hi.unwrap())) && hi_key(
                    gsegs[idx],
                ) is None);
            }
            if segs_contain(gsegs, k) {
                let i = choose|i: int| 0 <= i < gsegs.len() && in_interval(gsegs[i], k);
            }
            if !in_interval(*iv, k) {
                if iv.lo is Some && key_lt(k, key_of(iv.lo.unwrap())) {
                    assert(in_interval(gsegs[0], k));
                } else if iv.hi is Some && !key_lt(k, key_of(iv.hi.unwrap())) {
                    let idx: int = if iv.lo is Some {
                        1
                    } else {
                        0
                    };
                    assert(in_interval(gsegs[idx], k));
                }
            }
        }
    }
    r
}

} // verus!

verus! {

/// The full range is the identity of intersection: constraining it by a set
/// leaves exactly that set.
pub proof fn lemma_any_is_identity(full: Range, a: Range, r: Range)
    requires
        forall|k: VerKey| full.sem(k),
        forall|k: VerKey| r.sem(k) == (full.sem(k) && a.sem(k)),
    ensures
        forall|k: VerKey| r.sem(k) == a.sem(k),
{
}

} // verus!
