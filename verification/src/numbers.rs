//! Decimal text for `u64` values: printing, parsing, and the round trip
//! between them.

use vstd::prelude::*;

use crate::strutil::{push_char, spec_is_digit};

verus! {

broadcast use vstd::utf8::char_u32_cast;

/// The value of an ASCII digit.
pub open spec fn digit_val(c: char) -> int {
    c as u32 - 48
}

/// The digit character of a value below ten.
pub open spec fn digit_char(d: int) -> char {
    ((d + 48) as u8) as char
}

/// The decimal text of a natural number, most significant digit first.
pub open spec fn dec_text(n: int) -> Seq<char>
    decreases n,
{
    if n < 10 {
        seq![digit_char(n)]
    } else {
        dec_text(n / 10).push(digit_char(n % 10))
    }
}

/// The numeric value of a digit string.
pub open spec fn digits_val(s: Seq<char>) -> int
    decreases s.len(),
{
    if s.len() == 0 {
        0
    } else {
        digits_val(s.drop_last()) * 10 + digit_val(s.last())
    }
}

/// A canonical digit string: nonempty, digits only, no leading zero.
pub open spec fn canonical_digits(s: Seq<char>) -> bool {
    &&& s.len() > 0
    &&& forall|i: int| 0 <= i < s.len() ==> spec_is_digit(#[trigger] s[i])
    &&& (s.len() > 1 ==> s[0] != '0')
}

/// Printing a number yields a canonical digit string.
pub proof fn lemma_dec_text_canonical(n: int)
    requires
        n >= 0,
    ensures
        canonical_digits(dec_text(n)),
        n > 0 ==> dec_text(n)[0] != '0',
        dec_text(n).len() >= 1,
    decreases n,
{
    if n >= 10 {
        lemma_dec_text_canonical(n / 10);
    }
}

/// The value of a printed number is the number itself.
pub proof fn lemma_dec_text_val(n: int)
    requires
        n >= 0,
    ensures
        digits_val(dec_text(n)) == n,
    decreases n,
{
    if n < 10 {
        assert(dec_text(n).drop_last() =~= Seq::<char>::empty());
        assert(digit_char(n) as u32 == n + 48) by {
            let b = (n + 48) as u8;
            assert(b == n + 48);
            assert((b as char) as u32 == b);
        }
        assert(digits_val(dec_text(n)) == digits_val(dec_text(n).drop_last()) * 10 + digit_val(
            dec_text(n).last(),
        ));
        assert(digits_val(Seq::<char>::empty()) == 0);
    } else {
        lemma_dec_text_val(n / 10);
        assert(dec_text(n).drop_last() =~= dec_text(n / 10));
        assert(digit_char(n % 10) as u32 == n % 10 + 48) by {
            let b = (n % 10 + 48) as u8;
            assert(b == n % 10 + 48);
            assert((b as char) as u32 == b);
        }
        assert(digits_val(dec_text(n)) == digits_val(dec_text(n).drop_last()) * 10 + digit_val(
            dec_text(n).last(),
        ));
    }
}

/// A digit string's value determines the string, once both are canonical.
pub proof fn lemma_canonical_digits_unique(s: Seq<char>)
    requires
        canonical_digits(s),
    ensures
        dec_text(digits_val(s)) =~= s,
        digits_val(s) >= 0,
        s.len() > 1 ==> digits_val(s) >= 10,
    decreases s.len(),
{
    if s.len() == 1 {
        assert(spec_is_digit(s[0]));
        assert(digits_val(s) == digits_val(s.drop_last()) * 10 + digit_val(s.last()));
        assert(s.drop_last() =~= Seq::<char>::empty());
        assert(digits_val(Seq::<char>::empty()) == 0);
        assert(digits_val(s) == digit_val(s[0]));
        assert(dec_text(digits_val(s)) =~= s) by {
            lemma_digit_char_of_digit(s[0]);
            assert(dec_text(digits_val(s)) =~= seq![digit_char(digit_val(s[0]))]);
            assert(s =~= seq![s[0]]);
        }
    } else {
        let p = s.drop_last();
        assert(canonical_digits(p)) by {
            assert(forall|i: int| 0 <= i < p.len() ==> spec_is_digit(#[trigger] p[i]));
        }
        lemma_canonical_digits_unique(p);
        assert(spec_is_digit(s.last()));
        assert(digits_val(s) == digits_val(p) * 10 + digit_val(s.last()));
        assert(digits_val(p) >= 1) by {
            if digits_val(p) == 0 {
                assert(dec_text(0) =~= seq![digit_char(0)]);
                lemma_digit_char_of_digit('0');
                assert(digit_val('0') == 0);
                assert(p[0] == '0');
            }
        }
        assert(digits_val(s) >= 10);
        assert(dec_text(digits_val(s)) =~= dec_text(digits_val(s) / 10).push(
            digit_char(digits_val(s) % 10),
        ));
        assert(digits_val(s) / 10 == digits_val(p) && digits_val(s) % 10 == digit_val(s.last()))
            by {
            assert(0 <= digit_val(s.last()) < 10);
        }
        lemma_digit_char_of_digit(s.last());
        assert(dec_text(digits_val(s)) =~= p.push(s.last()));
        assert(p.push(s.last()) =~= s);
    }
}

/// A digit character is recovered from its value.
pub proof fn lemma_digit_char_of_digit(c: char)
    requires
        spec_is_digit(c),
    ensures
        digit_char(digit_val(c)) == c,
        0 <= digit_val(c) < 10,
{
    let c2 = digit_char(digit_val(c));
    let b = (digit_val(c) + 48) as u8;
    assert(b == c as u32);
    assert((b as char) as u32 == b);
    assert(c2 as u32 == c as u32);
    vstd::utf8::char_u32_cast(c, c as u32);
    vstd::utf8::char_u32_cast(c2, c2 as u32);
}

/// Appends the decimal text of `n`.
pub(crate) fn push_u64(s: &mut String, n: u64)
    ensures
        final (s)@ == old(s)@ + dec_text(n as int),
    decreases n,
{
    if n >= 10 {
        push_u64(s, n / 10);
    }
    let d = (n % 10) as u8;
    push_char(s, (d + 48) as char);
    proof {
        if n < 10 {
            assert(final (s)@ =~= old(s)@ + dec_text(n as int));
        } else {
            assert(final (s)@ =~= old(s)@ + dec_text(n as int));
        }
    }
}

/// The decimal text of `n`, on its own.
pub(crate) fn u64_text(n: u64) -> (r: String)
    ensures
        r@ == dec_text(n as int),
{
    let mut s = String::new();
    push_u64(&mut s, n);
    proof {
        assert(s@ =~= dec_text(n as int));
    }
    s
}

} // verus!
