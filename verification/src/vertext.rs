//! The textual form of versions: canonical display, and a parser that
//! accepts exactly the canonical texts and returns the version that displays
//! to its input.

use vstd::prelude::*;
use vstd::string::StrSliceExecFns;

use crate::errors::VersionError;
use crate::numbers::{
    canonical_digits, dec_text, digits_val, lemma_canonical_digits_unique, push_u64,
};
use crate::strutil::{is_digit, push_char, spec_is_digit};
use crate::version::{ident_wf, is_num_ident, pre_of, seq_texts, version_wf, PreIdent, Version};

verus! {

/// An identifier's bytes, as characters.
pub open spec fn ident_chars(b: Seq<u8>) -> Seq<char> {
    b.map_values(|x: u8| x as char)
}

/// A pre-release tag as text: identifiers joined by dots.
pub open spec fn pre_text(pre: Seq<Seq<u8>>) -> Seq<char>
    decreases pre.len(),
{
    if pre.len() == 0 {
        Seq::empty()
    } else if pre.len() == 1 {
        ident_chars(pre[0])
    } else {
        pre_text(pre.drop_last()) + seq!['.'] + ident_chars(pre.last())
    }
}

/// The canonical text of a version: `major.minor.patch`, then `-tag` for a
/// pre-release. A display-suppressed version shows nothing.
pub open spec fn version_text(v: Version) -> Seq<char> {
    dec_text(v.major as int) + seq!['.'] + dec_text(v.minor as int) + seq!['.'] + dec_text(
        v.patch as int,
    ) + (if pre_of(v).len() == 0 {
        Seq::<char>::empty()
    } else {
        seq!['-'] + pre_text(pre_of(v))
    })
}

/// Appends the text of a pre-release tag.
pub(crate) fn push_pre(s: &mut String, pre: &Vec<PreIdent>)
    ensures
        final (s)@ == old(s)@ + pre_text(seq_texts(pre@)),
{
    let n = pre.len();
    let mut i: usize = 0;
    while i < n
        invariant
            i <= n == pre@.len(),
            s@ == old(s)@ + pre_text(seq_texts(pre@).take(i as int)),
        decreases n - i,
    {
        if i > 0 {
            push_char(s, '.');
        }
        let m = pre[i].text.len();
        let mut j: usize = 0;
        while j < m
            invariant
                j <= m == pre@[i as int].text@.len(),
                i < pre@.len(),
                s@ == (if i == 0 {
                    old(s)@ + pre_text(seq_texts(pre@).take(i as int))
                } else {
                    old(s)@ + pre_text(seq_texts(pre@).take(i as int)) + seq!['.']
                }) + ident_chars(pre@[i as int].text@.take(j as int)),
            decreases m - j,
        {
            let b = pre[i].text[j];
            push_char(s, b as char);
            proof {
                assert(ident_chars(pre@[i as int].text@.take(j + 1 as int)) =~= ident_chars(
                    pre@[i as int].text@.take(j as int),
                ).push(pre@[i as int].text@[j as int] as char));
                assert(s@ =~= (if i == 0 {
                    old(s)@ + pre_text(seq_texts(pre@).take(i as int))
                } else {
                    old(s)@ + pre_text(seq_texts(pre@).take(i as int)) + seq!['.']
                }) + ident_chars(pre@[i as int].text@.take(j + 1 as int)));
            }
            j = j + 1;
        }
        proof {
            let taken = seq_texts(pre@).take(i + 1 as int);
            assert(pre@[i as int].text@.take(m as int) =~= pre@[i as int].text@);
            assert(taken.drop_last() =~= seq_texts(pre@).take(i as int));
            assert(taken.last() == pre@[i as int].text@);
            if i == 0 {
                assert(pre_text(taken) == ident_chars(pre@[0].text@));
                assert(s@ =~= old(s)@ + pre_text(taken));
            } else {
                assert(pre_text(taken) == pre_text(taken.drop_last()) + seq!['.'] + ident_chars(
                    taken.last(),
                ));
                assert(s@ =~= old(s)@ + pre_text(taken));
            }
        }
        i = i + 1;
    }
    proof {
        assert(seq_texts(pre@).take(n as int) =~= seq_texts(pre@));
    }
}

/// The canonical text of a version; nothing for the suppressed root marker.
pub fn display_version(v: &Version) -> (r: String)
    ensures
        !v.suppress ==> r@ == version_text(*v),
        v.suppress ==> r@ == Seq::<char>::empty(),
{
    if v.suppress {
        return String::new();
    }
    let mut s = String::new();
    push_u64(&mut s, v.major);
    push_char(&mut s, '.');
    push_u64(&mut s, v.minor);
    push_char(&mut s, '.');
    push_u64(&mut s, v.patch);
    if v.pre.len() > 0 {
        push_char(&mut s, '-');
        push_pre(&mut s, &v.pre);
        proof {
            assert(s@ =~= version_text(*v));
        }
    } else {
        proof {
            assert(s@ =~= version_text(*v));
        }
    }
    s
}

} // verus!

verus! {

broadcast use vstd::utf8::char_u32_cast;

/// The position where the digit run from `i` stops.
pub open spec fn digit_run_end(s: Seq<char>, i: int) -> int
    decreases s.len() - i,
{
    if 0 <= i < s.len() && spec_is_digit(s[i]) {
        digit_run_end(s, i + 1)
    } else {
        i
    }
}

/// A canonical number written at `i`, spanning its whole digit run.
pub open spec fn num_at(s: Seq<char>, i: int, nv: int) -> bool {
    &&& 0 <= nv < u64::MAX as int
    &&& 0 <= i
    &&& i + dec_text(nv).len() <= s.len()
    &&& s.subrange(i, i + dec_text(nv).len() as int) == dec_text(nv)
    &&& (i + dec_text(nv).len() == s.len() || !spec_is_digit(s[i + dec_text(nv).len()]))
}

/// The digit run stops exactly where the digits do.
proof fn lemma_run_end(s: Seq<char>, i: int, j: int)
    requires
        0 <= i <= j <= s.len(),
        forall|q: int| i <= q < j ==> spec_is_digit(#[trigger] s[q]),
        j == s.len() || !spec_is_digit(s[j]),
    ensures
        digit_run_end(s, i) == j,
    decreases j - i,
{
    if i < j {
        lemma_run_end(s, i + 1, j);
    }
}

/// A digit string's value is never below any prefix's value.
proof fn lemma_digits_val_nonneg(t: Seq<char>)
    requires
        forall|q: int| 0 <= q < t.len() ==> spec_is_digit(#[trigger] t[q]),
    ensures
        digits_val(t) >= 0,
    decreases t.len(),
{
    if t.len() > 0 {
        let p = t.drop_last();
        assert(forall|q: int| 0 <= q < p.len() ==> spec_is_digit(#[trigger] p[q]));
        lemma_digits_val_nonneg(p);
        assert(spec_is_digit(t.last()));
    }
}

proof fn lemma_digits_val_extend(t: Seq<char>, u: Seq<char>)
    requires
        forall|q: int| 0 <= q < t.len() ==> spec_is_digit(#[trigger] t[q]),
        forall|q: int| 0 <= q < u.len() ==> spec_is_digit(#[trigger] u[q]),
    ensures
        digits_val(t + u) >= digits_val(t),
    decreases u.len(),
{
    if u.len() == 0 {
        assert(t + u =~= t);
    } else {
        let u2 = u.drop_last();
        assert(forall|q: int| 0 <= q < u2.len() ==> spec_is_digit(#[trigger] u2[q]));
        lemma_digits_val_extend(t, u2);
        assert((t + u).drop_last() =~= t + u2);
        assert((t + u).last() == u.last());
        assert(spec_is_digit(u.last()));
        assert(forall|q: int| 0 <= q < (t + u2).len() ==> spec_is_digit(#[trigger] (t + u2)[q]));
        lemma_digits_val_nonneg(t + u2);
        assert(digits_val(t + u) == digits_val(t + u2) * 10 + crate::numbers::digit_val(
            (t + u).last(),
        ));
    }
}

/// A single canonical digit that is a zero names the value zero.
proof fn lemma_zero_digit(nv: int)
    requires
        0 <= nv,
        dec_text(nv)[0] == '0',
    ensures
        nv == 0,
        dec_text(nv).len() == 1,
{
    crate::numbers::lemma_dec_text_canonical(nv);
    if nv > 0 {
    }
    if nv < 10 {
        vstd::utf8::char_u32_cast(crate::numbers::digit_char(nv), 48u32);
        assert((((nv + 48) as u8) as char) as u32 == nv + 48);
        vstd::utf8::char_u32_cast('0', '0' as u32);
    }
}

/// A canonical number at `i` pins the digit run and its value.
proof fn lemma_num_at_run(s: Seq<char>, i: int, nv: int)
    requires
        num_at(s, i, nv),
    ensures
        dec_text(nv).len() >= 1,
        digit_run_end(s, i) == i + dec_text(nv).len(),
        forall|q: int| i <= q < i + dec_text(nv).len() ==> spec_is_digit(#[trigger] s[q]),
        digits_val(s.subrange(i, i + dec_text(nv).len() as int)) == nv,
        s[i] == dec_text(nv)[0],
{
    crate::numbers::lemma_dec_text_canonical(nv);
    crate::numbers::lemma_dec_text_val(nv);
    let l = dec_text(nv).len() as int;
    assert forall|q: int| i <= q < i + l implies spec_is_digit(#[trigger] s[q]) by {
        assert(s.subrange(i, i + l)[q - i] == s[q]);
        assert(spec_is_digit(dec_text(nv)[q - i]));
    }
    lemma_run_end(s, i, i + l);
    assert(digits_val(s.subrange(i, i + l)) == digits_val(dec_text(nv)));
    assert(s.subrange(i, i + l)[0] == s[i]);
}

/// Scans a canonical decimal number: digits, no leading zero, value below
/// the greatest machine integer. Every canonical number written at `i` is
/// found, with exactly its own digits.
pub(crate) fn scan_num(s: &str, i: usize) -> (r: Option<(u64, usize)>)
    requires
        s.is_ascii(),
        i <= s@.len(),
    ensures
        r matches Some((n, j)) ==> {
            &&& i < j <= s@.len()
            &&& n < u64::MAX
            &&& s@.subrange(i as int, j as int) == dec_text(n as int)
            &&& (j < s@.len() ==> !spec_is_digit(s@[j as int]))
        },
        forall|nv: int|
            num_at(s@, i as int, nv) ==> (r matches Some((n, j)) && n as int == nv && j == i
                + dec_text(nv).len()),
{
    let len = s.unicode_len();
    if i == len {
        proof {
            assert forall|nv: int| !num_at(s@, i as int, nv) by {
                if num_at(s@, i as int, nv) {
                    lemma_num_at_run(s@, i as int, nv);
                }
            }
        }
        return None;
    }
    let c0 = s.get_char(i);
    if !is_digit(c0) {
        proof {
            assert forall|nv: int| !num_at(s@, i as int, nv) by {
                if num_at(s@, i as int, nv) {
                    lemma_num_at_run(s@, i as int, nv);
                    assert(spec_is_digit(s@[i as int]));
                }
            }
        }
        return None;
    }
    if c0 == '0' {
        if i + 1 < len && is_digit(s.get_char(i + 1)) {
            proof {
                assert forall|nv: int| !num_at(s@, i as int, nv) by {
                    if num_at(s@, i as int, nv) {
                        lemma_num_at_run(s@, i as int, nv);
                        lemma_zero_digit(nv);
                    }
                }
            }
            return None;
        }
        proof {
            reveal_strlit("0");
            assert(dec_text(0) =~= seq![crate::numbers::digit_char(0)]);
            assert(crate::numbers::digit_char(0) as u32 == 48) by {
                let b = 48u8;
                assert((b as char) as u32 == b);
            }
            assert(c0 as u32 == 48);
            vstd::utf8::char_u32_cast(c0, c0 as u32);
            vstd::utf8::char_u32_cast(crate::numbers::digit_char(0), 48u32);
            assert(s@.subrange(i as int, i + 1 as int) =~= dec_text(0));
            assert forall|nv: int|
                num_at(s@, i as int, nv) implies nv == 0 && dec_text(nv).len() == 1 by {
                lemma_num_at_run(s@, i as int, nv);
                lemma_zero_digit(nv);
            }
        }
        return Some((0u64, i + 1));
    }
    let mut val: u64 = (c0 as u32 - 48) as u64;
    let mut j: usize = i + 1;
    proof {
        let first = s@.subrange(i as int, i + 1 as int);
        assert(first =~= seq![s@[i as int]]);
        assert(first.drop_last() =~= Seq::<char>::empty());
        assert(digits_val(Seq::<char>::empty()) == 0);
        assert(first.last() == s@[i as int]);
        assert(digits_val(first) == crate::numbers::digit_val(s@[i as int]));
        assert(digits_val(first) == val);
        assert(canonical_digits(first));
    }
    let mut stop = false;
    while j < len && !stop
        invariant
            s.is_ascii(),
            i < j <= len == s@.len(),
            canonical_digits(s@.subrange(i as int, j as int)),
            s@.subrange(i as int, j as int)[0] != '0',
            digits_val(s@.subrange(i as int, j as int)) == val,
            val < u64::MAX,
            stop ==> j < len && !spec_is_digit(s@[j as int]),
        decreases len - j + (if stop { 0int } else { 1int }),
    {
        let c = s.get_char(j);
        if !is_digit(c) {
            stop = true;
        } else {
            let d = (c as u32 - 48) as u64;
            if val > u64::MAX / 10 || (val == u64::MAX / 10 && d >= u64::MAX % 10) {
                proof {
                    assert forall|nv: int| !num_at(s@, i as int, nv) by {
                        if num_at(s@, i as int, nv) {
                            lemma_num_at_run(s@, i as int, nv);
                            let l = dec_text(nv).len() as int;
                            let gi = i as int;
                            let gj = j as int;
                            // the scanned prefix sits inside the digit run
                            assert(forall|q: int|
                                gi <= q < gj ==> spec_is_digit(#[trigger] s@[q])) by {
                                assert(forall|q: int|
                                    gi <= q < gj ==> s@.subrange(gi, gj)[q - gi]
                                        == #[trigger] s@[q]);
                            }
                            if gi + l < gj {
                                assert(spec_is_digit(s@[gi + l]));
                            }
                            assert(gj < gi + l || gj == gi + l);
                            assert(gj != gi + l);
                            let prefix = s@.subrange(gi, gj + 1);
                            let rest = s@.subrange(gj + 1, gi + l);
                            assert(prefix + rest =~= s@.subrange(gi, gi + l));
                            assert(forall|q: int|
                                0 <= q < prefix.len() ==> spec_is_digit(#[trigger] prefix[q]));
                            assert(forall|q: int|
                                0 <= q < rest.len() ==> spec_is_digit(#[trigger] rest[q]));
                            lemma_digits_val_extend(prefix, rest);
                            assert(prefix.drop_last() =~= s@.subrange(gi, gj));
                            assert(prefix.last() == s@[gj]);
                            assert(crate::numbers::digit_val(s@[gj]) == d);
                            assert(digits_val(prefix) == val * 10 + d);
                            assert(val * 10 + d >= u64::MAX) by {
                                if val > u64::MAX / 10 {
                                } else {
                                }
                            }
                            assert(nv >= u64::MAX as int);
                        }
                    }
                }
                return None;
            }
            let ghost prev = s@.subrange(i as int, j as int);
            val = val * 10 + d;
            proof {
                let cur = s@.subrange(i as int, j + 1 as int);
                assert(cur.drop_last() =~= prev);
                assert(cur.last() == s@[j as int]);
                assert(crate::numbers::digit_val(s@[j as int]) == d);
                assert(digits_val(cur) == digits_val(prev) * 10 + d);
                assert(canonical_digits(cur));
            }
            j = j + 1;
        }
    }
    proof {
        lemma_canonical_digits_unique(s@.subrange(i as int, j as int));
        assert forall|nv: int|
            num_at(s@, i as int, nv) implies (val as int == nv && j == i + dec_text(
            nv,
        ).len()) by {
            lemma_num_at_run(s@, i as int, nv);
            let l = dec_text(nv).len() as int;
            let gi = i as int;
            let gj = j as int;
            assert(forall|q: int| gi <= q < gj ==> spec_is_digit(#[trigger] s@[q])) by {
                assert(forall|q: int|
                    gi <= q < gj ==> s@.subrange(gi, gj)[q - gi] == #[trigger] s@[q]);
            }
            lemma_run_end(s@, gi, gj);
            assert(gj == gi + l);
            assert(s@.subrange(gi, gj) == dec_text(nv));
            crate::numbers::lemma_dec_text_val(nv);
            assert(digits_val(dec_text(nv)) == nv);
        }
    }
    Some((val, j))
}

/// Scans one pre-release identifier: letters, digits and `-`, nonempty, no
/// leading zero when numeric.
pub(crate) fn scan_ident(s: &str, i: usize) -> (r: Option<(PreIdent, usize)>)
    requires
        s.is_ascii(),
        i <= s@.len(),
    ensures
        r matches Some((p, j)) ==> {
            &&& i < j <= s@.len()
            &&& ident_wf(p.text@)
            &&& ident_chars(p.text@) == s@.subrange(i as int, j as int)
            &&& (j < s@.len() ==> s@[j as int] == '.' || !ident_char_ok(s@[j as int]))
            &&& forall|q: int| i <= q < j ==> #[trigger] s@[q] != '.'
        },
{
    let len = s.unicode_len();
    let mut j: usize = i;
    let mut text: Vec<u8> = Vec::new();
    let mut stop = false;
    while j < len && !stop
        invariant
            s.is_ascii(),
            i <= j <= len == s@.len(),
            text@.len() == j - i,
            forall|q: int|
                0 <= q < text@.len() ==> crate::version::ident_byte_ok(#[trigger] text@[q])
                    && text@[q] as char == s@[i + q] && text@[q] != 46,
            stop ==> j < len && (s@[j as int] == '.' || !ident_char_ok(s@[j as int])),
        decreases len - j + (if stop { 0int } else { 1int }),
    {
        let b = s.get_ascii(j);
        let ok = (48 <= b && b <= 57) || (65 <= b && b <= 90) || (97 <= b && b <= 122) || b == 45;
        if !ok {
            stop = true;
            proof {
                assert(s@[j as int] as u8 == b);
                vstd::utf8::char_u32_cast(s@[j as int], s@[j as int] as u32);
                assert((b as char) as u32 == b);
                if ident_char_ok(s@[j as int]) {
                    assert((s@[j as int] as u32) < 128);
                    assert(false);
                }
            }
        } else {
            text.push(b);
            proof {
                assert(s@[j as int] as u8 == b);
                vstd::utf8::char_u32_cast(s@[j as int], s@[j as int] as u32);
                assert((b as char) as u32 == b);
                assert(b as char == s@[j as int]);
            }
            j = j + 1;
        }
    }
    if j == i {
        return None;
    }
    // a numeric identifier must not carry a leading zero
    let mut numeric = true;
    let n = text.len();
    let mut q: usize = 0;
    while q < n
        invariant
            q <= n == text@.len(),
            numeric == (forall|a: int| 0 <= a < q ==> 48 <= #[trigger] text@[a] <= 57),
        decreases n - q,
    {
        let b = text[q];
        if b < 48 || b > 57 {
            numeric = false;
            proof {
                assert(!(48 <= text@[q as int] <= 57));
            }
        }
        q = q + 1;
    }
    if numeric && n > 1 && text[0] == 48 {
        return None;
    }
    let p = PreIdent { text };
    proof {
        assert(ident_wf(p.text@)) by {
            if is_num_ident(p.text@) && p.text@.len() > 1 {
                assert(48 <= p.text@[0] <= 57);
            }
        }
        assert(ident_chars(p.text@) =~= s@.subrange(i as int, j as int));
        assert(forall|q2: int| i <= q2 < j ==> #[trigger] s@[q2] != '.') by {
            assert(forall|a: int|
                0 <= a < p.text@.len() ==> #[trigger] p.text@[a] as char == s@[i + a] && p.text@[a]
                    != 46);
            assert forall|q2: int| i <= q2 < j implies #[trigger] s@[q2] != '.' by {
                assert(p.text@[q2 - i] as char == s@[q2] && p.text@[q2 - i] != 46);
                vstd::utf8::char_u32_cast(s@[q2], s@[q2] as u32);
                assert((p.text@[q2 - i] as char) as u32 == p.text@[q2 - i]);
                assert('.' as u32 == 46);
            }
        }
    }
    Some((p, j))
}

/// A character allowed inside a pre-release identifier.
pub open spec fn ident_char_ok(c: char) -> bool {
    (48 <= c as u32 && c as u32 <= 57) || (65 <= c as u32 && c as u32 <= 90) || (97 <= c as u32
        && c as u32 <= 122) || c as u32 == 45
}

} // verus!

verus! {

/// The canonical text of a release version decomposes into three canonical
/// numbers with dot boundaries, ending at the text's end.
proof fn lemma_release_witness(s: Seq<char>, v: Version)
    requires
        version_wf(v),
        pre_of(v).len() == 0,
        version_text(v) == s,
    ensures
        num_at(s, 0, v.major as int),
        s[dec_text(v.major as int).len() as int] == '.',
        num_at(s, dec_text(v.major as int).len() as int + 1, v.minor as int),
        s[dec_text(v.major as int).len() as int + 1 + dec_text(v.minor as int).len() as int]
            == '.',
        num_at(
            s,
            dec_text(v.major as int).len() as int + dec_text(v.minor as int).len() as int + 2,
            v.patch as int,
        ),
        dec_text(v.major as int).len() as int + dec_text(v.minor as int).len() as int + dec_text(
            v.patch as int,
        ).len() as int + 2 == s.len() as int,
{
    crate::numbers::lemma_dec_text_canonical(v.major as int);
    crate::numbers::lemma_dec_text_canonical(v.minor as int);
    crate::numbers::lemma_dec_text_canonical(v.patch as int);
    let a = dec_text(v.major as int).len() as int;
    let b = dec_text(v.minor as int).len() as int;
    let c = dec_text(v.patch as int).len() as int;
    assert(s =~= dec_text(v.major as int) + seq!['.'] + dec_text(v.minor as int) + seq!['.']
        + dec_text(v.patch as int));
    assert(s.len() == a + b + c + 2);
    assert(s.subrange(0, a) =~= dec_text(v.major as int));
    assert(s[a] == '.');
    assert(!spec_is_digit('.')) by {
        assert('.' as u32 == 46);
    }
    assert(s.subrange(a + 1, a + 1 + b) =~= dec_text(v.minor as int));
    assert(s[a + 1 + b] == '.');
    assert(s.subrange(a + b + 2, a + b + 2 + c) =~= dec_text(v.patch as int));
    assert(num_at(s, 0, v.major as int));
    assert(num_at(s, a + 1, v.minor as int));
    assert(num_at(s, a + b + 2, v.patch as int));
}

/// Parses the canonical text of a version: `major.minor.patch`, optionally
/// followed by `-` and a dot-separated pre-release tag. A parsed version
/// displays back to exactly the input, and the canonical text of any release
/// version is accepted.
#[verifier::rlimit(100)]
pub fn parse_version(s: &str) -> (r: Result<Version, VersionError>)
    ensures
        r matches Ok(v) ==> {
            &&& version_wf(v)
            &&& v.source_id == 0 && v.source_discriminator == 0 && !v.suppress
            &&& version_text(v) == s@
        },
        forall|v: Version|
            version_wf(v) && pre_of(v).len() == 0 && version_text(v) == s@ ==> r is Ok,
{
    if !s.is_ascii() {
        proof {
            assert forall|v: Version|
                !(version_wf(v) && pre_of(v).len() == 0 && version_text(v) == s@) by {
                if version_wf(v) && pre_of(v).len() == 0 && version_text(v) == s@ {
                    lemma_release_text_ascii(v);
                }
            }
        }
        return Err(VersionError::ParseError);
    }
    let len = s.unicode_len();
    let (major, p1) = match scan_num(s, 0) {
        None => {
            proof {
                assert forall|v: Version|
                    !(version_wf(v) && pre_of(v).len() == 0 && version_text(v) == s@) by {
                    if version_wf(v) && pre_of(v).len() == 0 && version_text(v) == s@ {
                        lemma_release_witness(s@, v);
                    }
                }
            }
            return Err(VersionError::ParseError);
        },
        Some(x) => x,
    };
    if p1 >= len || s.get_char(p1) != '.' {
        proof {
            assert forall|v: Version|
                !(version_wf(v) && pre_of(v).len() == 0 && version_text(v) == s@) by {
                if version_wf(v) && pre_of(v).len() == 0 && version_text(v) == s@ {
                    lemma_release_witness(s@, v);
                }
            }
        }
        return Err(VersionError::ParseError);
    }
    let (minor, p2) = match scan_num(s, p1 + 1) {
        None => {
            proof {
                assert forall|v: Version|
                    !(version_wf(v) && pre_of(v).len() == 0 && version_text(v) == s@) by {
                    if version_wf(v) && pre_of(v).len() == 0 && version_text(v) == s@ {
                        lemma_release_witness(s@, v);
                    }
                }
            }
            return Err(VersionError::ParseError);
        },
        Some(x) => x,
    };
    if p2 >= len || s.get_char(p2) != '.' {
        proof {
            assert forall|v: Version|
                !(version_wf(v) && pre_of(v).len() == 0 && version_text(v) == s@) by {
                if version_wf(v) && pre_of(v).len() == 0 && version_text(v) == s@ {
                    lemma_release_witness(s@, v);
                }
            }
        }
        return Err(VersionError::ParseError);
    }
    let (patch, p3) = match scan_num(s, p2 + 1) {
        None => {
            proof {
                assert forall|v: Version|
                    !(version_wf(v) && pre_of(v).len() == 0 && version_text(v) == s@) by {
                    if version_wf(v) && pre_of(v).len() == 0 && version_text(v) == s@ {
                        lemma_release_witness(s@, v);
                    }
                }
            }
            return Err(VersionError::ParseError);
        },
        Some(x) => x,
    };
    if p3 == len {
        let v = Version::new(major, minor, patch);
        proof {
            assert(s@.subrange(0, p1 as int) == dec_text(major as int));
            assert(version_text(v) =~= s@) by {
                assert(s@ =~= s@.subrange(0, p1 as int) + seq![s@[p1 as int]] + s@.subrange(
                    p1 + 1 as int,
                    p2 as int,
                ) + seq![s@[p2 as int]] + s@.subrange(p2 + 1 as int, p3 as int));
            }
        }
        return Ok(v);
    }
    proof {
        assert forall|v: Version|
            !(version_wf(v) && pre_of(v).len() == 0 && version_text(v) == s@) by {
            if version_wf(v) && pre_of(v).len() == 0 && version_text(v) == s@ {
                lemma_release_witness(s@, v);
            }
        }
    }
    if s.get_char(p3) != '-' {
        return Err(VersionError::ParseError);
    }
    let mut pre: Vec<PreIdent> = Vec::new();
    let mut p: usize = p3 + 1;
    let mut done = false;
    while !done
        invariant
            forall|v: Version|
                !(version_wf(v) && pre_of(v).len() == 0 && version_text(v) == s@),
            s.is_ascii(),
            len == s@.len(),
            p3 + 1 <= p <= len,
            p3 < len,
            forall|a: int| 0 <= a < pre@.len() ==> ident_wf((#[trigger] pre@[a]).text@),
            done ==> p == len && pre@.len() > 0 && pre_text(seq_texts(pre@)) == s@.subrange(
                p3 + 1 as int,
                len as int,
            ),
            !done && pre@.len() == 0 ==> p == p3 + 1,
            !done && pre@.len() > 0 ==> p >= p3 + 2 && pre_text(seq_texts(pre@)) == s@.subrange(
                p3 + 1 as int,
                p - 1 as int,
            ) && s@[p - 1 as int] == '.',
        decreases len - p + (if done {
            0int
        } else {
            1int
        }),
    {
        let (id, q) = match scan_ident(s, p) {
            None => {
                return Err(VersionError::ParseError);
            },
            Some(x) => x,
        };
        let ghost old_pre = pre@;
        pre.push(id);
        proof {
            let texts = seq_texts(pre@);
            assert(texts.drop_last() =~= seq_texts(old_pre));
            assert(texts.last() == pre@.last().text@);
            if old_pre.len() == 0 {
                assert(pre_text(texts) == ident_chars(pre@.last().text@));
                assert(pre_text(texts) =~= s@.subrange(p3 + 1 as int, q as int));
            } else {
                assert(pre_text(texts) == pre_text(seq_texts(old_pre)) + seq!['.'] + ident_chars(
                    pre@.last().text@,
                ));
                assert(pre_text(texts) =~= s@.subrange(p3 + 1 as int, q as int)) by {
                    assert(s@.subrange(p3 + 1 as int, q as int) =~= s@.subrange(
                        p3 + 1 as int,
                        p - 1 as int,
                    ) + seq![s@[p - 1 as int]] + s@.subrange(p as int, q as int));
                }
            }
        }
        if q == len {
            p = q;
            done = true;
        } else {
            let c = s.get_char(q);
            if c != '.' {
                return Err(VersionError::ParseError);
            }
            if q + 1 == len {
                return Err(VersionError::ParseError);
            }
            p = q + 1;
        }
    }
    let v = Version::new(major, minor, patch).pre(pre);
    proof {
        assert(version_wf(v)) by {
            assert(forall|a: int|
                0 <= a < pre_of(v).len() ==> ident_wf(#[trigger] pre_of(v)[a]));
        }
        assert(version_text(v) =~= s@) by {
            assert(s@.subrange(0, p1 as int) == dec_text(major as int));
            assert(pre_of(v).len() > 0);
            assert(s@ =~= s@.subrange(0, p1 as int) + seq![s@[p1 as int]] + s@.subrange(
                p1 + 1 as int,
                p2 as int,
            ) + seq![s@[p2 as int]] + s@.subrange(p2 + 1 as int, p3 as int) + seq![s@[p3 as int]]
                + s@.subrange(p3 + 1 as int, len as int));
        }
    }
    Ok(v)
}

} // verus!

verus! {

/// Every digit string prints below one hundred twenty-eight.
proof fn lemma_dec_text_low(n: int)
    requires
        n >= 0,
    ensures
        forall|i: int|
            0 <= i < dec_text(n).len() ==> ((#[trigger] dec_text(n)[i]) as u32) < 128,
    decreases n,
{
    crate::numbers::lemma_dec_text_canonical(n);
    assert forall|i: int|
        0 <= i < dec_text(n).len() implies ((#[trigger] dec_text(n)[i]) as u32) < 128 by {
        assert(spec_is_digit(dec_text(n)[i]));
    }
}

/// The canonical text of a release version is plain ASCII.
proof fn lemma_release_text_ascii(v: Version)
    requires
        pre_of(v).len() == 0,
    ensures
        vstd::utf8::is_ascii_chars(version_text(v)),
{
    lemma_dec_text_low(v.major as int);
    lemma_dec_text_low(v.minor as int);
    lemma_dec_text_low(v.patch as int);
    assert forall|i: int|
        0 <= i < version_text(v).len() implies '\0' <= #[trigger] version_text(v)[i]
        && version_text(v)[i] <= '\u{7f}' by {
        let c = version_text(v)[i];
        assert((c as u32) < 128) by {
            assert(('.') as u32 == 46);
        }
        vstd::utf8::char_u32_cast(c, c as u32);
        assert('\u{7f}' as u32 == 127);
        assert('\0' as u32 == 0);
        assert(('\0' as u32) as char == '\0' && ('\u{7f}' as u32) as char == '\u{7f}');
        assert('\0' <= c && c <= '\u{7f}') by {
            assert(c as u32 <= 127 && 0 <= c as u32);
        }
    }
}

} // verus!
