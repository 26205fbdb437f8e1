//! The textual form of requirements: canonical display, and a parser for
//! the requirement grammar: comparators separated by commas, each an
//! optional operator before a version pattern of one to three components,
//! with an optional pre-release tag; `*`, or a trailing `.*`, as wildcard.

use vstd::prelude::*;
use vstd::string::StrSliceExecFns;

use crate::errors::VersionError;
use crate::numbers::{dec_text, push_u64};
use crate::requirement::{comparator_wf, requirement_wf, Comparator, Op, Requirement};
use crate::strutil::push_char;
use crate::version::{ident_wf, PreIdent};
use crate::vertext::pre_text;

verus! {

/// The operator's symbol; a wildcard shows as a `.*` pattern instead.
pub open spec fn op_text(op: Op) -> Seq<char> {
    match op {
        Op::Exact => seq!['='],
        Op::Greater => seq!['>'],
        Op::GreaterEq => seq!['>', '='],
        Op::Less => seq!['<'],
        Op::LessEq => seq!['<', '='],
        Op::Tilde => seq!['~'],
        Op::Caret => seq!['^'],
        Op::Wildcard => Seq::empty(),
    }
}

/// The version pattern of a comparator.
pub open spec fn vpat_text(c: Comparator) -> Seq<char> {
    dec_text(c.major as int) + (match c.minor {
        None => {
            if c.op is Wildcard {
                seq!['.', '*']
            } else {
                Seq::<char>::empty()
            }
        },
        Some(j) => {
            seq!['.'] + dec_text(j as int) + (match c.patch {
                None => {
                    if c.op is Wildcard {
                        seq!['.', '*']
                    } else {
                        Seq::<char>::empty()
                    }
                },
                Some(p) => {
                    seq!['.'] + dec_text(p as int) + (if c.pre@.len() == 0 {
                        Seq::<char>::empty()
                    } else {
                        seq!['-'] + pre_text(crate::requirement::comp_pre(c))
                    })
                },
            })
        },
    })
}

/// The canonical text of one comparator.
pub open spec fn comp_text(c: Comparator) -> Seq<char> {
    op_text(c.op) + vpat_text(c)
}

/// Comparators joined by a comma and a space.
pub open spec fn comps_text(cs: Seq<Comparator>) -> Seq<char>
    decreases cs.len(),
{
    if cs.len() == 0 {
        Seq::empty()
    } else if cs.len() == 1 {
        comp_text(cs[0])
    } else {
        comps_text(cs.drop_last()) + seq![',', ' '] + comp_text(cs.last())
    }
}

/// The canonical text of a requirement: comparators joined by a comma and a
/// space; the empty conjunction shows as `*`.
pub open spec fn req_text(r: Requirement) -> Seq<char> {
    if r.comparators@.len() == 0 {
        seq!['*']
    } else {
        comps_text(r.comparators@)
    }
}

} // verus!

verus! {

/// Appends the canonical text of one comparator.
#[verifier::rlimit(100)]
fn push_comp(s: &mut String, c: &Comparator)
    ensures
        final (s)@ == old(s)@ + comp_text(*c),
{
    match c.op {
        Op::Exact => push_char(s, '='),
        Op::Greater => push_char(s, '>'),
        Op::GreaterEq => {
            push_char(s, '>');
            push_char(s, '=');
        },
        Op::Less => push_char(s, '<'),
        Op::LessEq => {
            push_char(s, '<');
            push_char(s, '=');
        },
        Op::Tilde => push_char(s, '~'),
        Op::Caret => push_char(s, '^'),
        Op::Wildcard => {},
    }
    proof {
        assert(s@ =~= old(s)@ + op_text(c.op));
    }
    push_u64(s, c.major);
    match &c.minor {
        None => {
            if let Op::Wildcard = c.op {
                push_char(s, '.');
                push_char(s, '*');
            }
        },
        Some(j) => {
            push_char(s, '.');
            push_u64(s, *j);
            match &c.patch {
                None => {
                    if let Op::Wildcard = c.op {
                        push_char(s, '.');
                        push_char(s, '*');
                    }
                },
                Some(p) => {
                    push_char(s, '.');
                    push_u64(s, *p);
                    if c.pre.len() > 0 {
                        push_char(s, '-');
                        crate::vertext::push_pre(s, &c.pre);
                    }
                },
            }
        },
    }
    proof {
        assert(final (s)@ =~= old(s)@ + comp_text(*c));
    }
}

/// The canonical text of a requirement.
pub fn display_requirement(r: &Requirement) -> (t: String)
    ensures
        t@ == req_text(*r),
{
    let n = r.comparators.len();
    if n == 0 {
        let mut s = String::new();
        push_char(&mut s, '*');
        proof {
            assert(s@ =~= seq!['*']);
        }
        return s;
    }
    let mut s = String::new();
    let mut i: usize = 0;
    while i < n
        invariant
            i <= n == r.comparators@.len(),
            s@ == comps_text(r.comparators@.take(i as int)),
        decreases n - i,
    {
        if i > 0 {
            push_char(&mut s, ',');
            push_char(&mut s, ' ');
        }
        push_comp(&mut s, &r.comparators[i]);
        proof {
            let taken = r.comparators@.take(i + 1 as int);
            assert(taken.drop_last() =~= r.comparators@.take(i as int));
            assert(taken.last() == r.comparators@[i as int]);
            if i == 0 {
                assert(comps_text(taken) == comp_text(r.comparators@[0]));
                assert(s@ =~= comps_text(taken));
            } else {
                assert(s@ =~= comps_text(taken));
            }
        }
        i = i + 1;
    }
    proof {
        assert(r.comparators@.take(n as int) =~= r.comparators@);
    }
    s
}

} // verus!

verus! {

/// The next position that is not a space.
fn skip_ws(s: &str, i: usize) -> (r: usize)
    requires
        s.is_ascii(),
        i <= s@.len(),
    ensures
        i <= r <= s@.len(),
        forall|j: int| i <= j < r ==> s@[j] == ' ',
        r < s@.len() ==> s@[r as int] != ' ',
{
    let len = s.unicode_len();
    let mut p = i;
    while p < len
        invariant
            i <= p <= len == s@.len(),
            s.is_ascii(),
            forall|j: int| i <= j < p ==> s@[j] == ' ',
        decreases len - p,
    {
        if s.get_char(p) != ' ' {
            return p;
        }
        p = p + 1;
    }
    p
}

/// Scans a dot-separated pre-release tag.
fn scan_pre_tag(s: &str, start: usize) -> (r: Option<(Vec<PreIdent>, usize)>)
    requires
        s.is_ascii(),
        start <= s@.len(),
    ensures
        r matches Some((pre, q)) ==> {
            &&& start < q <= s@.len()
            &&& pre@.len() > 0
            &&& forall|a: int| 0 <= a < pre@.len() ==> ident_wf((#[trigger] pre@[a]).text@)
        },
{
    let len = s.unicode_len();
    let mut pre: Vec<PreIdent> = Vec::new();
    let mut p = start;
    let mut done = false;
    while !done
        invariant
            s.is_ascii(),
            start <= p <= len == s@.len(),
            forall|a: int| 0 <= a < pre@.len() ==> ident_wf((#[trigger] pre@[a]).text@),
            done ==> pre@.len() > 0 && p > start,
            !done ==> pre@.len() == 0 || p > start,
        decreases len - p + (if done {
            0int
        } else {
            1int
        }),
    {
        let (id, q) = match crate::vertext::scan_ident(s, p) {
            None => {
                return None;
            },
            Some(x) => x,
        };
        pre.push(id);
        if q < len && s.get_char(q) == '.' {
            if q + 1 >= len {
                return None;
            }
            p = q + 1;
        } else {
            p = q;
            done = true;
        }
    }
    Some((pre, p))
}

/// A wildcard mark.
pub open spec fn is_wild_spec(c: char) -> bool {
    c == '*' || c == 'x' || c == 'X'
}

/// Whether a character is a wildcard mark.
fn is_wild(c: char) -> (r: bool)
    ensures
        r == is_wild_spec(c),
{
    c == '*' || c == 'x' || c == 'X'
}

/// The operator a comparator's opening character announces: an operator
/// symbol, or a digit for a bare pattern, which means the caret, or a
/// wildcard pattern.
pub open spec fn head_matches_op(ch: char, op: Op) -> bool {
    match op {
        Op::Exact => ch == '=',
        Op::Greater => ch == '>',
        Op::GreaterEq => ch == '>',
        Op::Less => ch == '<',
        Op::LessEq => ch == '<',
        Op::Tilde => ch == '~',
        Op::Caret => ch == '^' || crate::strutil::spec_is_digit(ch),
        Op::Wildcard => crate::strutil::spec_is_digit(ch),
    }
}

/// Parses one comparator starting at `i`: an optional operator, then a
/// version pattern; a bare pattern means the caret operator, and a trailing
/// `.*` the wildcard.
fn parse_comparator(s: &str, i: usize) -> (r: Option<(Comparator, usize)>)
    requires
        s.is_ascii(),
        i <= s@.len(),
    ensures
        r matches Some((c, j)) ==> i < j <= s@.len() && comparator_wf(c) && head_matches_op(
            s@[i as int],
            c.op,
        ),
{
    let len = s.unicode_len();
    if i >= len {
        return None;
    }
    let c0 = s.get_char(i);
    let (op, p, explicit): (Op, usize, bool) = if c0 == '=' {
        (Op::Exact, i + 1, true)
    } else if c0 == '>' {
        if i + 1 < len && s.get_char(i + 1) == '=' {
            (Op::GreaterEq, i + 2, true)
        } else {
            (Op::Greater, i + 1, true)
        }
    } else if c0 == '<' {
        if i + 1 < len && s.get_char(i + 1) == '=' {
            (Op::LessEq, i + 2, true)
        } else {
            (Op::Less, i + 1, true)
        }
    } else if c0 == '~' {
        (Op::Tilde, i + 1, true)
    } else if c0 == '^' {
        (Op::Caret, i + 1, true)
    } else {
        (Op::Caret, i, false)
    };
    if p > len {
        return None;
    }
    let (major, p1) = match crate::vertext::scan_num(s, p) {
        None => {
            return None;
        },
        Some(x) => x,
    };
    proof {
        if !explicit {
            crate::numbers::lemma_dec_text_canonical(major as int);
            assert(s@.subrange(p as int, p1 as int)[0] == s@[i as int]);
            assert(crate::strutil::spec_is_digit(s@[i as int]));
        }
    }
    if p1 < len && s.get_char(p1) == '.' {
        if p1 + 1 < len && is_wild(s.get_char(p1 + 1)) {
            // I.* — a wildcard pattern takes no operator
            if explicit {
                return None;
            }
            let mut q = p1 + 2;
            if q < len && s.get_char(q) == '.' && q + 1 < len && is_wild(s.get_char(q + 1)) {
                q = q + 2;
            }
            return Some(
                (
                    Comparator {
                        op: Op::Wildcard,
                        major,
                        minor: None,
                        patch: None,
                        pre: Vec::new(),
                    },
                    q,
                ),
            );
        }
        let (minor, p2) = match crate::vertext::scan_num(s, p1 + 1) {
            None => {
                return None;
            },
            Some(x) => x,
        };
        if p2 < len && s.get_char(p2) == '.' {
            if p2 + 1 < len && is_wild(s.get_char(p2 + 1)) {
                // I.J.*
                if explicit {
                    return None;
                }
                return Some(
                    (
                        Comparator {
                            op: Op::Wildcard,
                            major,
                            minor: Some(minor),
                            patch: None,
                            pre: Vec::new(),
                        },
                        p2 + 2,
                    ),
                );
            }
            let (patch, p3) = match crate::vertext::scan_num(s, p2 + 1) {
                None => {
                    return None;
                },
                Some(x) => x,
            };
            if p3 < len && s.get_char(p3) == '-' {
                if p3 + 1 > len {
                    return None;
                }
                let (pre, p4) = match scan_pre_tag(s, p3 + 1) {
                    None => {
                        return None;
                    },
                    Some(x) => x,
                };
                return Some(
                    (Comparator { op, major, minor: Some(minor), patch: Some(patch), pre }, p4),
                );
            }
            return Some(
                (
                    Comparator {
                        op,
                        major,
                        minor: Some(minor),
                        patch: Some(patch),
                        pre: Vec::new(),
                    },
                    p3,
                ),
            );
        }
        return Some(
            (Comparator { op, major, minor: Some(minor), patch: None, pre: Vec::new() }, p2),
        );
    }
    Some((Comparator { op, major, minor: None, patch: None, pre: Vec::new() }, p1))
}

/// Parses a requirement: `*` alone, or comparators separated by commas, with
/// spaces allowed around comparators.
pub fn parse_requirement(s: &str) -> (r: Result<Requirement, VersionError>)
    ensures
        r matches Ok(rq) ==> requirement_wf(rq),
        s@ == seq!['*'] ==> (r matches Ok(rq) && rq.comparators@.len() == 0),
        r matches Ok(rq) ==> (rq.comparators@.len() == 0 ==> exists|i: int|
            0 <= i < s@.len() && is_wild_spec(#[trigger] s@[i]) && (forall|j: int|
                0 <= j < i ==> s@[j] == ' ')),
        r matches Ok(rq) ==> (rq.comparators@.len() > 0 ==> exists|i: int|
            {
                &&& 0 <= i < s@.len()
                &&& !is_wild_spec(#[trigger] s@[i]) && s@[i] != ' '
                &&& (forall|j: int| 0 <= j < i ==> s@[j] == ' ')
                &&& head_matches_op(s@[i], rq.comparators@[0].op)
            }),
{
    proof {
        if s@ == seq!['*'] {
            assert(s@.len() == 1 && s@[0] == '*');
            assert(vstd::string::is_ascii(s)) by {
                assert(forall|i: int|
                    0 <= i < s@.len() ==> '\0' <= #[trigger] s@[i] <= '\u{7f}');
            }
        }
    }
    if !s.is_ascii() {
        return Err(VersionError::ParseError);
    }
    let len = s.unicode_len();
    let mut i = skip_ws(s, 0);
    if i >= len {
        return Err(VersionError::ParseError);
    }
    if is_wild(s.get_char(i)) {
        let mut q = i + 1;
        if q < len && s.get_char(q) == '.' && q + 1 < len && is_wild(s.get_char(q + 1)) {
            q = q + 2;
        }
        if q < len && s.get_char(q) == '.' && q + 1 < len && is_wild(s.get_char(q + 1)) {
            q = q + 2;
        }
        let q2 = skip_ws(s, q);
        if q2 != len {
            return Err(VersionError::ParseError);
        }
        return Ok(Requirement { comparators: Vec::new() });
    }
    proof {
        assert(s@ != seq!['*']);
    }
    let ghost start = i as int;
    let mut comparators: Vec<Comparator> = Vec::new();
    let mut done = false;
    while !done
        invariant
            s@ != seq!['*'],
            s.is_ascii(),
            i <= len == s@.len(),
            0 <= start < s@.len(),
            !is_wild_spec(s@[start]) && s@[start] != ' ',
            forall|j: int| 0 <= j < start ==> s@[j] == ' ',
            comparators@.len() == 0 ==> i == start,
            done ==> comparators@.len() > 0,
            comparators@.len() > 0 ==> head_matches_op(s@[start], comparators@[0].op),
            requirement_wf(Requirement { comparators }),
            forall|a: int| 0 <= a < comparators@.len() ==> comparator_wf(#[trigger] comparators@[a]),
        decreases len - i + (if done {
            0int
        } else {
            1int
        }),
    {
        let (c, j) = match parse_comparator(s, i) {
            None => {
                return Err(VersionError::ParseError);
            },
            Some(x) => x,
        };
        let ghost before = comparators@;
        comparators.push(c);
        proof {
            if before.len() > 0 {
                assert(comparators@[0] == before[0]);
            }
        }
        let k = skip_ws(s, j);
        if k == len {
            i = k;
            done = true;
        } else {
            if s.get_char(k) != ',' {
                return Err(VersionError::ParseError);
            }
            let k2 = skip_ws(s, k + 1);
            if k2 == len {
                return Err(VersionError::ParseError);
            }
            i = k2;
        }
    }
    Ok(Requirement { comparators })
}

} // verus!
