//! Versions: a SemVer triple with an optional pre-release tag, extended by
//! the identity of the repository that offered the version. The total order
//! places pre-releases below their release and, at equal versions, prefers
//! earlier-declared repositories.

use vstd::prelude::*;

verus! {

/// One dot-separated pre-release identifier, as ASCII bytes.
#[derive(Debug)]
pub struct PreIdent {
    pub text: Vec<u8>,
}

/// A version: the SemVer triple, the pre-release identifiers (empty for a
/// release), and the origin used to break ties between equal versions.
#[derive(Debug)]
pub struct Version {
    pub major: u64,
    pub minor: u64,
    pub patch: u64,
    pub pre: Vec<PreIdent>,
    pub source_id: u64,
    pub source_discriminator: u64,
    pub suppress: bool,
}

/// The pre-release tag as a sequence of identifier byte strings.
pub open spec fn pre_of(v: Version) -> Seq<Seq<u8>> {
    v.pre@.map_values(|p: PreIdent| p.text@)
}

/// True when every byte is an ASCII digit.
pub open spec fn is_num_ident(s: Seq<u8>) -> bool {
    forall|i: int| 0 <= i < s.len() ==> 48 <= #[trigger] s[i] <= 57
}

/// Strict lexicographic order on byte strings, shorter prefixes first.
pub open spec fn bytes_lt(a: Seq<u8>, b: Seq<u8>) -> bool
    decreases a.len(),
{
    if b.len() == 0 {
        false
    } else if a.len() == 0 {
        true
    } else if a[0] < b[0] {
        true
    } else if a[0] > b[0] {
        false
    } else {
        bytes_lt(a.drop_first(), b.drop_first())
    }
}

/// Numeric identifiers compare by value: since neither may carry a leading
/// zero, that is length first, then lexicographic.
pub open spec fn num_lt(a: Seq<u8>, b: Seq<u8>) -> bool {
    a.len() < b.len() || (a.len() == b.len() && bytes_lt(a, b))
}

/// SemVer order on single identifiers: numeric identifiers come first and
/// compare numerically; alphanumeric identifiers compare lexically.
pub open spec fn ident_lt(a: Seq<u8>, b: Seq<u8>) -> bool {
    if is_num_ident(a) && is_num_ident(b) {
        num_lt(a, b)
    } else if is_num_ident(a) {
        true
    } else if is_num_ident(b) {
        false
    } else {
        bytes_lt(a, b)
    }
}

/// Lexicographic order on identifier sequences; a strict prefix comes first.
#[verifier::opaque]
pub open spec fn idents_lt(a: Seq<Seq<u8>>, b: Seq<Seq<u8>>) -> bool
    decreases a.len(),
{
    if a.len() == 0 {
        b.len() > 0
    } else if b.len() == 0 {
        false
    } else if ident_lt(a[0], b[0]) {
        true
    } else if ident_lt(b[0], a[0]) {
        false
    } else {
        idents_lt(a.drop_first(), b.drop_first())
    }
}

/// Pre-release order at an equal triple: a pre-release sorts below the
/// release (the empty tag), and two pre-releases compare by identifiers.
pub open spec fn pre_lt(a: Seq<Seq<u8>>, b: Seq<Seq<u8>>) -> bool {
    if a.len() == 0 {
        false
    } else if b.len() == 0 {
        true
    } else {
        idents_lt(a, b)
    }
}

/// The strict total order on versions: the SemVer triple first, then the
/// pre-release tag, then the source pair in reverse (an earlier-declared
/// repository sorts higher).
pub open spec fn version_lt(a: Version, b: Version) -> bool {
    if a.major != b.major {
        a.major < b.major
    } else if a.minor != b.minor {
        a.minor < b.minor
    } else if a.patch != b.patch {
        a.patch < b.patch
    } else if pre_of(a) != pre_of(b) {
        pre_lt(pre_of(a), pre_of(b))
    } else if a.source_id != b.source_id {
        a.source_id > b.source_id
    } else {
        a.source_discriminator > b.source_discriminator
    }
}

/// Order-equivalence: equal in every component the order consults.
pub open spec fn version_eqv(a: Version, b: Version) -> bool {
    &&& a.major == b.major
    &&& a.minor == b.minor
    &&& a.patch == b.patch
    &&& pre_of(a) == pre_of(b)
    &&& a.source_id == b.source_id
    &&& a.source_discriminator == b.source_discriminator
}

/// Non-strict order.
pub open spec fn version_le(a: Version, b: Version) -> bool {
    version_lt(a, b) || version_eqv(a, b)
}

pub proof fn lemma_bytes_lt_trichotomy(a: Seq<u8>, b: Seq<u8>)
    ensures
        bytes_lt(a, b) || a =~= b || bytes_lt(b, a),
        bytes_lt(a, b) ==> !(a =~= b) && !bytes_lt(b, a),
        a =~= b ==> !bytes_lt(a, b) && !bytes_lt(b, a),
    decreases a.len(),
{
    if b.len() == 0 || a.len() == 0 {
    } else if a[0] == b[0] {
        lemma_bytes_lt_trichotomy(a.drop_first(), b.drop_first());
        if a.drop_first() =~= b.drop_first() {
            assert(a =~= b) by {
                assert(forall|i: int|
                    1 <= i < a.len() ==> #[trigger] a[i] == a.drop_first()[i - 1]);
                assert(forall|i: int|
                    1 <= i < b.len() ==> #[trigger] b[i] == b.drop_first()[i - 1]);
            }
        }
        if a =~= b {
            assert(a.drop_first() =~= b.drop_first());
        }
    }
}

pub proof fn lemma_bytes_lt_trans(a: Seq<u8>, b: Seq<u8>, c: Seq<u8>)
    requires
        bytes_lt(a, b),
        bytes_lt(b, c),
    ensures
        bytes_lt(a, c),
    decreases a.len(),
{
    if a.len() == 0 || b.len() == 0 || c.len() == 0 {
    } else if a[0] == b[0] && b[0] == c[0] {
        lemma_bytes_lt_trans(a.drop_first(), b.drop_first(), c.drop_first());
    }
}

pub proof fn lemma_ident_lt_trichotomy(a: Seq<u8>, b: Seq<u8>)
    ensures
        ident_lt(a, b) || a =~= b || ident_lt(b, a),
        ident_lt(a, b) ==> !(a =~= b) && !ident_lt(b, a),
        a =~= b ==> !ident_lt(a, b) && !ident_lt(b, a),
{
    lemma_bytes_lt_trichotomy(a, b);
    if a =~= b {
        assert(is_num_ident(a) <==> is_num_ident(b));
    }
}

pub proof fn lemma_ident_lt_trans(a: Seq<u8>, b: Seq<u8>, c: Seq<u8>)
    requires
        ident_lt(a, b),
        ident_lt(b, c),
    ensures
        ident_lt(a, c),
{
    if is_num_ident(a) && is_num_ident(b) && is_num_ident(c) {
        if a.len() == b.len() && b.len() == c.len() {
            lemma_bytes_lt_trans(a, b, c);
        }
    } else if !is_num_ident(a) && !is_num_ident(b) && !is_num_ident(c) {
        lemma_bytes_lt_trans(a, b, c);
    }
}

pub proof fn lemma_idents_lt_trichotomy(a: Seq<Seq<u8>>, b: Seq<Seq<u8>>)
    ensures
        idents_lt(a, b) || a =~~= b || idents_lt(b, a),
        idents_lt(a, b) ==> !(a =~~= b) && !idents_lt(b, a),
        a =~~= b ==> !idents_lt(a, b) && !idents_lt(b, a),
    decreases a.len(),
{
    reveal(idents_lt);
    if a.len() == 0 || b.len() == 0 {
    } else {
        lemma_ident_lt_trichotomy(a[0], b[0]);
        if !ident_lt(a[0], b[0]) && !ident_lt(b[0], a[0]) {
            lemma_idents_lt_trichotomy(a.drop_first(), b.drop_first());
            lemma_ident_lt_trichotomy(a[0], b[0]);
            if a.drop_first() =~~= b.drop_first() && a[0] =~= b[0] {
                assert(a =~~= b) by {
                    assert(forall|i: int|
                        1 <= i < a.len() ==> #[trigger] a[i] == a.drop_first()[i - 1]);
                    assert(forall|i: int|
                        1 <= i < b.len() ==> #[trigger] b[i] == b.drop_first()[i - 1]);
                }
            }
            if a =~~= b {
                assert(a.drop_first() =~~= b.drop_first());
            }
        } else if a =~~= b {
            assert(a[0] =~= b[0]);
            lemma_ident_lt_trichotomy(a[0], b[0]);
        }
    }
}

pub proof fn lemma_idents_lt_trans(a: Seq<Seq<u8>>, b: Seq<Seq<u8>>, c: Seq<Seq<u8>>)
    requires
        idents_lt(a, b),
        idents_lt(b, c),
    ensures
        idents_lt(a, c),
    decreases a.len(),
{
    reveal(idents_lt);
    if a.len() == 0 || b.len() == 0 || c.len() == 0 {
    } else {
        lemma_ident_lt_trichotomy(a[0], b[0]);
        lemma_ident_lt_trichotomy(b[0], c[0]);
        lemma_ident_lt_trichotomy(a[0], c[0]);
        if ident_lt(a[0], b[0]) {
            if ident_lt(b[0], c[0]) {
                lemma_ident_lt_trans(a[0], b[0], c[0]);
            } else {
                assert(b[0] =~= c[0]);
            }
        } else {
            assert(a[0] =~= b[0]);
            if ident_lt(b[0], c[0]) {
            } else {
                assert(b[0] =~= c[0]);
                lemma_idents_lt_trans(a.drop_first(), b.drop_first(), c.drop_first());
            }
        }
    }
}

/// The version order is a strict total order: exactly one of the three
/// relations holds of any two versions.
pub proof fn lemma_version_trichotomy(a: Version, b: Version)
    ensures
        version_lt(a, b) || version_eqv(a, b) || version_lt(b, a),
        version_lt(a, b) ==> !version_eqv(a, b) && !version_lt(b, a),
        version_eqv(a, b) ==> !version_lt(a, b) && !version_lt(b, a),
{
    if a.major == b.major && a.minor == b.minor && a.patch == b.patch {
        lemma_idents_lt_trichotomy(pre_of(a), pre_of(b));
        if pre_of(a) =~~= pre_of(b) {
            assert(pre_of(a) == pre_of(b));
        }
    }
}

/// The version order is transitive.
pub proof fn lemma_version_lt_trans(a: Version, b: Version, c: Version)
    requires
        version_lt(a, b),
        version_lt(b, c),
    ensures
        version_lt(a, c),
{
    if a.major == c.major && a.minor == c.minor && a.patch == c.patch && a.major == b.major
        && a.minor == b.minor && a.patch == b.patch {
        lemma_idents_lt_trichotomy(pre_of(a), pre_of(b));
        lemma_idents_lt_trichotomy(pre_of(b), pre_of(c));
        lemma_idents_lt_trichotomy(pre_of(a), pre_of(c));
        if pre_of(a) != pre_of(b) && pre_of(b) != pre_of(c) {
            if pre_of(a).len() > 0 && pre_of(b).len() > 0 && pre_of(c).len() > 0 {
                lemma_idents_lt_trans(pre_of(a), pre_of(b), pre_of(c));
            }
        }
    }
}

/// Convenience: `le` is transitive and antisymmetric.
pub proof fn lemma_version_le_trans(a: Version, b: Version, c: Version)
    requires
        version_le(a, b),
        version_le(b, c),
    ensures
        version_le(a, c),
{
    lemma_version_trichotomy(a, b);
    lemma_version_trichotomy(b, c);
    lemma_version_trichotomy(a, c);
    if version_lt(a, b) && version_lt(b, c) {
        lemma_version_lt_trans(a, b, c);
    }
}

} // verus!
// The executable comparison and the constructors live below the order
// theory; `verus!` continues in a second block.

use crate::strutil::spec_is_digit;

verus! {

/// A byte allowed in a pre-release identifier: a digit, a letter, or `-`.
pub open spec fn ident_byte_ok(b: u8) -> bool {
    (48 <= b <= 57) || (65 <= b <= 90) || (97 <= b <= 122) || b == 45
}

/// A well-formed identifier: nonempty, allowed bytes, and no leading zero
/// when numeric.
pub open spec fn ident_wf(s: Seq<u8>) -> bool {
    &&& s.len() > 0
    &&& forall|i: int| 0 <= i < s.len() ==> ident_byte_ok(#[trigger] s[i])
    &&& (is_num_ident(s) && s.len() > 1 ==> s[0] != 48)
}

/// A well-formed version: components leave room for the bumps the range
/// algebra performs, and the pre-release tag is well-formed.
pub open spec fn version_wf(v: Version) -> bool {
    &&& v.major < u64::MAX
    &&& v.minor < u64::MAX
    &&& v.patch < u64::MAX
    &&& forall|i: int| 0 <= i < pre_of(v).len() ==> ident_wf(#[trigger] pre_of(v)[i])
}

/// The outcome of a three-way comparison.
#[derive(PartialEq, Eq, Structural, Clone, Copy, Debug)]
pub enum Cmp {
    Lt,
    Eq,
    Gt,
}

fn bytes_cmp_at(a: &Vec<u8>, b: &Vec<u8>, i: usize) -> (r: Cmp)
    requires
        i <= a@.len(),
        i <= b@.len(),
    ensures
        (r == Cmp::Lt) == bytes_lt(a@.skip(i as int), b@.skip(i as int)),
        (r == Cmp::Eq) == (a@.skip(i as int) =~= b@.skip(i as int)),
        (r == Cmp::Gt) == bytes_lt(b@.skip(i as int), a@.skip(i as int)),
    decreases a@.len() - i,
{
    proof {
        lemma_bytes_lt_trichotomy(a@.skip(i as int), b@.skip(i as int));
    }
    if i == b.len() {
        if i == a.len() {
            Cmp::Eq
        } else {
            Cmp::Gt
        }
    } else if i == a.len() {
        Cmp::Lt
    } else if a[i] < b[i] {
        Cmp::Lt
    } else if a[i] > b[i] {
        Cmp::Gt
    } else {
        let r = bytes_cmp_at(a, b, i + 1);
        proof {
            assert(a@.skip(i as int).drop_first() =~= a@.skip(i + 1 as int));
            assert(b@.skip(i as int).drop_first() =~= b@.skip(i + 1 as int));
            assert(a@.skip(i as int)[0] == a@[i as int]);
            assert(b@.skip(i as int)[0] == b@[i as int]);
        }
        r
    }
}

pub(crate) fn bytes_cmp(a: &Vec<u8>, b: &Vec<u8>) -> (r: Cmp)
    ensures
        (r == Cmp::Lt) == bytes_lt(a@, b@),
        (r == Cmp::Eq) == (a@ =~= b@),
        (r == Cmp::Gt) == bytes_lt(b@, a@),
{
    let r = bytes_cmp_at(a, b, 0);
    proof {
        assert(a@.skip(0) =~= a@);
        assert(b@.skip(0) =~= b@);
    }
    r
}

pub(crate) fn ident_is_num(a: &PreIdent) -> (r: bool)
    ensures
        r == is_num_ident(a.text@),
{
    let n = a.text.len();
    let mut i: usize = 0;
    while i < n
        invariant
            i <= n == a.text@.len(),
            forall|j: int| 0 <= j < i ==> 48 <= #[trigger] a.text@[j] <= 57,
        decreases n - i,
    {
        let b = a.text[i];
        if b < 48 || b > 57 {
            return false;
        }
        i = i + 1;
    }
    true
}

pub(crate) fn ident_cmp(a: &PreIdent, b: &PreIdent) -> (r: Cmp)
    ensures
        (r == Cmp::Lt) == ident_lt(a.text@, b.text@),
        (r == Cmp::Eq) == (a.text@ =~= b.text@),
        (r == Cmp::Gt) == ident_lt(b.text@, a.text@),
{
    proof {
        lemma_ident_lt_trichotomy(a.text@, b.text@);
    }
    let an = ident_is_num(a);
    let bn = ident_is_num(b);
    if an && bn {
        if a.text.len() < b.text.len() {
            Cmp::Lt
        } else if a.text.len() > b.text.len() {
            Cmp::Gt
        } else {
            bytes_cmp(&a.text, &b.text)
        }
    } else if an {
        Cmp::Lt
    } else if bn {
        Cmp::Gt
    } else {
        bytes_cmp(&a.text, &b.text)
    }
}

/// The pre-release tags of two versions, compared by identifiers alone.
fn idents_cmp_at(a: &Vec<PreIdent>, b: &Vec<PreIdent>, i: usize) -> (r: Cmp)
    requires
        i <= a@.len(),
        i <= b@.len(),
    ensures
        (r == Cmp::Lt) == idents_lt(seq_texts(a@).skip(i as int), seq_texts(b@).skip(i as int)),
        (r == Cmp::Eq) == (seq_texts(a@).skip(i as int) =~~= seq_texts(b@).skip(i as int)),
        (r == Cmp::Gt) == idents_lt(seq_texts(b@).skip(i as int), seq_texts(a@).skip(i as int)),
    decreases a@.len() - i,
{
    proof {
        reveal(idents_lt);
        lemma_idents_lt_trichotomy(seq_texts(a@).skip(i as int), seq_texts(b@).skip(i as int));
    }
    if i == b.len() {
        if i == a.len() {
            Cmp::Eq
        } else {
            Cmp::Gt
        }
    } else if i == a.len() {
        Cmp::Lt
    } else {
        let c = ident_cmp(&a[i], &b[i]);
        proof {
            assert(seq_texts(a@).skip(i as int)[0] == a@[i as int].text@);
            assert(seq_texts(b@).skip(i as int)[0] == b@[i as int].text@);
        }
        match c {
            Cmp::Lt => Cmp::Lt,
            Cmp::Gt => Cmp::Gt,
            Cmp::Eq => {
                proof {
                    lemma_ident_lt_trichotomy(a@[i as int].text@, b@[i as int].text@);
                }
                let r = idents_cmp_at(a, b, i + 1);
                proof {
                    assert(seq_texts(a@).skip(i as int).drop_first() =~= seq_texts(a@).skip(
                        i + 1 as int,
                    ));
                    assert(seq_texts(b@).skip(i as int).drop_first() =~= seq_texts(b@).skip(
                        i + 1 as int,
                    ));
                }
                r
            },
        }
    }
}

/// The identifier texts of a pre-release tag.
pub open spec fn seq_texts(s: Seq<PreIdent>) -> Seq<Seq<u8>> {
    s.map_values(|p: PreIdent| p.text@)
}

/// Three-way comparison realising the total order on versions.
pub fn version_cmp(a: &Version, b: &Version) -> (r: Cmp)
    ensures
        (r == Cmp::Lt) == version_lt(*a, *b),
        (r == Cmp::Eq) == version_eqv(*a, *b),
        (r == Cmp::Gt) == version_lt(*b, *a),
{
    proof {
        lemma_version_trichotomy(*a, *b);
        assert(pre_of(*a) == seq_texts(a.pre@));
        assert(pre_of(*b) == seq_texts(b.pre@));
    }
    if a.major != b.major {
        if a.major < b.major {
            Cmp::Lt
        } else {
            Cmp::Gt
        }
    } else if a.minor != b.minor {
        if a.minor < b.minor {
            Cmp::Lt
        } else {
            Cmp::Gt
        }
    } else if a.patch != b.patch {
        if a.patch < b.patch {
            Cmp::Lt
        } else {
            Cmp::Gt
        }
    } else {
        let pc = if a.pre.len() == 0 && b.pre.len() == 0 {
            Cmp::Eq
        } else if a.pre.len() == 0 {
            Cmp::Gt
        } else if b.pre.len() == 0 {
            Cmp::Lt
        } else {
            let c = idents_cmp_at(&a.pre, &b.pre, 0);
            proof {
                assert(seq_texts(a.pre@).skip(0) =~~= seq_texts(a.pre@));
                assert(seq_texts(b.pre@).skip(0) =~~= seq_texts(b.pre@));
            }
            c
        };
        match pc {
            Cmp::Lt => Cmp::Lt,
            Cmp::Gt => Cmp::Gt,
            Cmp::Eq => {
                proof {
                    if a.pre@.len() == 0 && b.pre@.len() == 0 {
                        assert(pre_of(*a) =~~= pre_of(*b));
                    }
                }
                if a.source_id != b.source_id {
                    if a.source_id > b.source_id {
                        Cmp::Lt
                    } else {
                        Cmp::Gt
                    }
                } else if a.source_discriminator > b.source_discriminator {
                    Cmp::Lt
                } else if a.source_discriminator < b.source_discriminator {
                    Cmp::Gt
                } else {
                    Cmp::Eq
                }
            },
        }
    }
}

/// Non-strict comparison.
pub fn version_le_exec(a: &Version, b: &Version) -> (r: bool)
    ensures
        r == version_le(*a, *b),
{
    match version_cmp(a, b) {
        Cmp::Gt => false,
        _ => true,
    }
}

/// Strict comparison.
pub fn version_lt_exec(a: &Version, b: &Version) -> (r: bool)
    ensures
        r == version_lt(*a, *b),
{
    match version_cmp(a, b) {
        Cmp::Lt => true,
        _ => false,
    }
}

} // verus!

verus! {

impl PreIdent {
    /// A fresh copy of the identifier.
    pub fn duplicate(&self) -> (r: PreIdent)
        ensures
            r.text@ == self.text@,
    {
        let mut t: Vec<u8> = Vec::new();
        let n = self.text.len();
        let mut i: usize = 0;
        while i < n
            invariant
                i <= n == self.text@.len(),
                t@ =~= self.text@.subrange(0, i as int),
            decreases n - i,
        {
            t.push(self.text[i]);
            i = i + 1;
        }
        proof {
            assert(t@ =~= self.text@);
        }
        PreIdent { text: t }
    }
}

/// A fresh copy of a pre-release tag.
pub(crate) fn dup_pre(pre: &Vec<PreIdent>) -> (r: Vec<PreIdent>)
    ensures
        r@.len() == pre@.len(),
        forall|j: int| 0 <= j < pre@.len() ==> #[trigger] r@[j].text@ == pre@[j].text@,
        seq_texts(r@) == seq_texts(pre@),
{
    let mut out: Vec<PreIdent> = Vec::new();
    let n = pre.len();
    let mut i: usize = 0;
    while i < n
        invariant
            i <= n == pre@.len(),
            out@.len() == i,
            forall|j: int| 0 <= j < i ==> #[trigger] out@[j].text@ == pre@[j].text@,
        decreases n - i,
    {
        out.push(pre[i].duplicate());
        i = i + 1;
    }
    proof {
        assert(seq_texts(out@) =~~= seq_texts(pre@));
    }
    out
}

impl Version {
    /// A release version with no source attached.
    pub fn new(major: u64, minor: u64, patch: u64) -> (r: Version)
        ensures
            r.major == major && r.minor == minor && r.patch == patch,
            pre_of(r).len() == 0,
            r.source_id == 0 && r.source_discriminator == 0,
            !r.suppress,
    {
        Version {
            major,
            minor,
            patch,
            pre: Vec::new(),
            source_id: 0,
            source_discriminator: 0,
            suppress: false,
        }
    }

    /// A version used as a range bound: at an equal triple and tag it sorts
    /// below every version a repository can offer.
    pub fn candidate(major: u64, minor: u64, patch: u64) -> (r: Version)
        ensures
            r.major == major && r.minor == minor && r.patch == patch,
            pre_of(r).len() == 0,
            r.source_id == u64::MAX && r.source_discriminator == 0,
            !r.suppress,
    {
        Version::new(major, minor, patch).with_source_id(u64::MAX)
    }

    /// The same version with the given pre-release tag.
    pub fn pre(self, pre: Vec<PreIdent>) -> (r: Version)
        ensures
            r.major == self.major && r.minor == self.minor && r.patch == self.patch,
            pre_of(r) == seq_texts(pre@),
            r.source_id == self.source_id,
            r.source_discriminator == self.source_discriminator,
            r.suppress == self.suppress,
    {
        Version { pre, ..self }
    }

    /// The same version tagged with the repository that offered it.
    pub fn with_source_id(self, source_id: u64) -> (r: Version)
        ensures
            r.major == self.major && r.minor == self.minor && r.patch == self.patch,
            pre_of(r) == pre_of(self),
            r.source_id == source_id,
            r.source_discriminator == self.source_discriminator,
            r.suppress == self.suppress,
    {
        Version { source_id, ..self }
    }

    /// The same version with a within-repository ordering hint.
    pub fn with_source_discriminator(self, source_discriminator: u64) -> (r: Version)
        ensures
            r.major == self.major && r.minor == self.minor && r.patch == self.patch,
            pre_of(r) == pre_of(self),
            r.source_id == self.source_id,
            r.source_discriminator == source_discriminator,
            r.suppress == self.suppress,
    {
        Version { source_discriminator, ..self }
    }

    /// The same version, displayed as nothing; used by the synthetic root.
    pub fn suppress_display(self) -> (r: Version)
        ensures
            r.major == self.major && r.minor == self.minor && r.patch == self.patch,
            pre_of(r) == pre_of(self),
            r.source_id == self.source_id,
            r.source_discriminator == self.source_discriminator,
            r.suppress,
    {
        Version { suppress: true, ..self }
    }

    /// True for a pre-release.
    pub fn is_prerelease(&self) -> (r: bool)
        ensures
            r == (pre_of(*self).len() != 0),
    {
        self.pre.len() != 0
    }

    /// The least version bound the range algebra uses.
    pub fn lowest() -> (r: Version)
        ensures
            r.major == 0 && r.minor == 0 && r.patch == 0,
            pre_of(r).len() == 0,
            r.source_id == u64::MAX && r.source_discriminator == 0,
    {
        Version::candidate(0, 0, 0)
    }

    /// The next patch release, keeping the source: the least bound strictly
    /// above every version equal to this one up to its source hint.
    pub fn bump(&self) -> (r: Version)
        requires
            self.patch < u64::MAX,
        ensures
            r.major == self.major && r.minor == self.minor && r.patch == self.patch + 1,
            pre_of(r).len() == 0,
            r.source_id == self.source_id && r.source_discriminator == 0,
            !r.suppress,
    {
        Version::new(self.major, self.minor, self.patch + 1).with_source_id(self.source_id)
    }

    /// A fresh copy.
    pub fn duplicate(&self) -> (r: Version)
        ensures
            r.major == self.major && r.minor == self.minor && r.patch == self.patch,
            pre_of(r) == pre_of(*self),
            r.source_id == self.source_id,
            r.source_discriminator == self.source_discriminator,
            r.suppress == self.suppress,
            version_eqv(r, *self),
    {
        let r = Version {
            major: self.major,
            minor: self.minor,
            patch: self.patch,
            pre: dup_pre(&self.pre),
            source_id: self.source_id,
            source_discriminator: self.source_discriminator,
            suppress: self.suppress,
        };
        proof {
            assert(pre_of(r) =~~= pre_of(*self));
        }
        r
    }
}

} // verus!

verus! {

/// The mathematical model of a version: what the order consults, free of
/// representation. Contracts use it to name bounds no executable value need
/// exist for, such as the next patch of a version.
#[verifier::ext_equal]
pub ghost struct VerKey {
    pub major: int,
    pub minor: int,
    pub patch: int,
    pub pre: Seq<Seq<u8>>,
    pub source_id: int,
    pub source_discriminator: int,
}

/// The model of a version value.
pub open spec fn key_of(v: Version) -> VerKey {
    VerKey {
        major: v.major as int,
        minor: v.minor as int,
        patch: v.patch as int,
        pre: pre_of(v),
        source_id: v.source_id as int,
        source_discriminator: v.source_discriminator as int,
    }
}

/// The order on models, mirroring the order on versions.
pub open spec fn key_lt(a: VerKey, b: VerKey) -> bool {
    if a.major != b.major {
        a.major < b.major
    } else if a.minor != b.minor {
        a.minor < b.minor
    } else if a.patch != b.patch {
        a.patch < b.patch
    } else if a.pre != b.pre {
        pre_lt(a.pre, b.pre)
    } else if a.source_id != b.source_id {
        a.source_id > b.source_id
    } else {
        a.source_discriminator > b.source_discriminator
    }
}

pub open spec fn key_le(a: VerKey, b: VerKey) -> bool {
    key_lt(a, b) || a == b
}

/// The least bound strictly above every version whose model is `k`, up to
/// the same source: the next patch, with no pre-release tag.
pub open spec fn bump_key(k: VerKey) -> VerKey {
    VerKey { patch: k.patch + 1, pre: Seq::empty(), source_discriminator: 0, ..k }
}

/// The order on versions is the order on their models.
pub proof fn lemma_version_key(a: Version, b: Version)
    ensures
        version_lt(a, b) == key_lt(key_of(a), key_of(b)),
        version_eqv(a, b) == (key_of(a) == key_of(b)),
{
    if version_eqv(a, b) {
        assert(key_of(a) =~~= key_of(b));
    }
}

pub proof fn lemma_key_trichotomy(a: VerKey, b: VerKey)
    ensures
        key_lt(a, b) || a =~~= b || key_lt(b, a),
        key_lt(a, b) ==> !(a =~~= b) && !key_lt(b, a),
        a == b ==> !key_lt(a, b) && !key_lt(b, a),
{
    if a.major == b.major && a.minor == b.minor && a.patch == b.patch {
        lemma_idents_lt_trichotomy(a.pre, b.pre);
        if a.pre =~~= b.pre {
            assert(a.pre == b.pre);
        }
    }
}

pub proof fn lemma_key_lt_trans(a: VerKey, b: VerKey, c: VerKey)
    requires
        key_lt(a, b),
        key_lt(b, c),
    ensures
        key_lt(a, c),
{
    if a.major == c.major && a.minor == c.minor && a.patch == c.patch && a.major == b.major
        && a.minor == b.minor && a.patch == b.patch {
        lemma_idents_lt_trichotomy(a.pre, b.pre);
        lemma_idents_lt_trichotomy(b.pre, c.pre);
        lemma_idents_lt_trichotomy(a.pre, c.pre);
        if a.pre != b.pre && b.pre != c.pre {
            if a.pre.len() > 0 && b.pre.len() > 0 && c.pre.len() > 0 {
                lemma_idents_lt_trans(a.pre, b.pre, c.pre);
            }
        }
    }
}

pub proof fn lemma_key_le_trans(a: VerKey, b: VerKey, c: VerKey)
    requires
        key_le(a, b),
        key_le(b, c),
    ensures
        key_le(a, c),
{
    if key_lt(a, b) && key_lt(b, c) {
        lemma_key_lt_trans(a, b, c);
    }
}

} // verus!

verus! {

impl PreIdent {
    /// Whether this identifier is well-formed.
    pub fn is_wf(&self) -> (r: bool)
        ensures
            r == ident_wf(self.text@),
    {
        let n = self.text.len();
        if n == 0 {
            return false;
        }
        let mut i: usize = 0;
        while i < n
            invariant
                i <= n == self.text@.len(),
                forall|j: int| 0 <= j < i ==> ident_byte_ok(#[trigger] self.text@[j]),
            decreases n - i,
        {
            let b = self.text[i];
            let ok = (48 <= b && b <= 57) || (65 <= b && b <= 90) || (97 <= b && b <= 122) || b
                == 45;
            if !ok {
                return false;
            }
            i = i + 1;
        }
        if n > 1 && ident_is_num(self) && self.text[0] == 48 {
            return false;
        }
        true
    }
}

impl Version {
    /// Whether this version is well-formed.
    pub fn is_wf(&self) -> (r: bool)
        ensures
            r == version_wf(*self),
    {
        if self.major == u64::MAX || self.minor == u64::MAX || self.patch == u64::MAX {
            return false;
        }
        let n = self.pre.len();
        let mut i: usize = 0;
        while i < n
            invariant
                i <= n == self.pre@.len(),
                forall|j: int| 0 <= j < i ==> ident_wf(#[trigger] pre_of(*self)[j]),
            decreases n - i,
        {
            proof {
                assert(pre_of(*self)[i as int] == self.pre@[i as int].text@);
            }
            if !self.pre[i].is_wf() {
                return false;
            }
            i = i + 1;
        }
        true
    }
}

} // verus!
