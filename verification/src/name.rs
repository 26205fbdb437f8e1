//! Package names: lowercase ASCII identifiers, and the solver-internal
//! name type that distinguishes the synthetic root from real packages.

use vstd::prelude::*;
use vstd::string::StrSliceExecFns;

use crate::errors::PackageNameError;
use crate::strutil::{
    char_string, is_alnum, is_alpha, lower_char, push_char, spec_is_alnum, spec_is_alpha,
    spec_is_digit, spec_lower, spec_lower_char,
};

verus! {

/// A well-formed name: nonempty, a lower-case letter first, lower-case
/// letters and digits after.
pub open spec fn name_wf(s: Seq<char>) -> bool {
    &&& s.len() > 0
    &&& 97 <= s[0] as u32 && s[0] as u32 <= 122
    &&& forall|i: int|
        0 <= i < s.len() ==> (97 <= (#[trigger] s[i]) as u32 && s[i] as u32 <= 122) || spec_is_digit(
            s[i],
        )
}

/// An input string the parser accepts: nonempty, a letter first, letters
/// and digits after (upper case allowed; the parser lowers it).
pub open spec fn name_input_ok(s: Seq<char>) -> bool {
    &&& s.len() > 0
    &&& spec_is_alpha(s[0])
    &&& forall|i: int| 0 <= i < s.len() ==> spec_is_alnum(#[trigger] s[i])
}

/// The index of the first character that is not alphanumeric.
pub open spec fn first_bad_index(s: Seq<char>, i: int) -> bool {
    &&& 0 <= i < s.len()
    &&& !spec_is_alnum(s[i])
    &&& forall|j: int| 0 <= j < i ==> spec_is_alnum(#[trigger] s[j])
}

/// The name of a package: a lowercase ASCII identifier.
#[derive(Debug)]
pub struct PackageName {
    text: String,
}

impl PackageName {
    /// The stored text, which is also the displayed form.
    pub closed spec fn view(&self) -> Seq<char> {
        self.text@
    }

    /// Wraps a string without validation; the callers inside the crate are
    /// responsible for the shape of what they pass.
    pub(crate) fn new(s: String) -> (r: PackageName)
        ensures
            r@ == s@,
    {
        PackageName { text: s }
    }

    /// The displayed form of the name.
    pub fn as_str(&self) -> (r: &str)
        ensures
            r@ == self@,
    {
        self.text.as_str()
    }

    /// A fresh copy of the name.
    pub fn duplicate(&self) -> (r: PackageName)
        ensures
            r@ == self@,
    {
        PackageName { text: self.text.clone() }
    }

    /// Parses a package name: the first character must be a letter, the rest
    /// letters or digits, and the result is lower-cased.
    pub fn from_str(value: &str) -> (r: Result<PackageName, PackageNameError>)
        ensures
            r.is_ok() <==> name_input_ok(value@),
            r matches Ok(n) ==> n@ == spec_lower(value@) && name_wf(n@),
            (r matches Err(PackageNameError::TooShort)) <==> value@.len() == 0,
            (r matches Err(PackageNameError::NoStartingAlpha { .. })) <==> (value@.len() > 0
                && !spec_is_alpha(value@[0])),
            r matches Err(PackageNameError::NoStartingAlpha { name, character }) ==> {
                &&& name@ == value@
                &&& character@ == seq![value@[0]]
            },
            (r matches Err(PackageNameError::InvalidCharacter { .. })) <==> (value@.len() > 0
                && spec_is_alpha(value@[0]) && !name_input_ok(value@)),
            r matches Err(PackageNameError::InvalidCharacter { name, character }) ==> {
                &&& name@ == value@
                &&& exists|i: int| first_bad_index(value@, i) && character@ == seq![value@[i]]
            },
    {
        let n = value.unicode_len();
        if n == 0 {
            return Err(PackageNameError::TooShort);
        }
        let first = value.get_char(0);
        if !is_alpha(first) {
            return Err(
                PackageNameError::NoStartingAlpha {
                    name: value.to_owned(),
                    character: char_string(first),
                },
            );
        }
        let mut out = String::new();
        let mut i: usize = 0;
        while i < n
            invariant
                0 < n == value@.len(),
                0 <= i <= n,
                spec_is_alpha(value@[0]),
                forall|j: int| 0 <= j < i ==> spec_is_alnum(#[trigger] value@[j]),
                out@ =~= spec_lower(value@.subrange(0, i as int)),
            decreases n - i,
        {
            let c = value.get_char(i);
            if !is_alnum(c) {
                proof {
                    assert(first_bad_index(value@, i as int));
                    assert(!name_input_ok(value@));
                }
                return Err(
                    PackageNameError::InvalidCharacter {
                        name: value.to_owned(),
                        character: char_string(c),
                    },
                );
            }
            push_char(&mut out, lower_char(c));
            proof {
                assert(out@ =~= spec_lower(value@.subrange(0, i + 1 as int)));
            }
            i = i + 1;
        }
        proof {
            assert(value@.subrange(0, n as int) =~= value@);
            assert(spec_is_alpha(value@[0]) && spec_is_alnum(value@[0]));
            assert(97 <= spec_lower_char(value@[0]) as u32 <= 122);
            assert(forall|k: int|
                0 <= k < value@.len() ==> (97 <= (#[trigger] spec_lower(value@)[k]) as u32 <= 122)
                    || spec_is_digit(spec_lower(value@)[k]));
        }
        Ok(PackageName { text: out })
    }
}

impl PartialEq for PackageName {
    fn eq(&self, other: &PackageName) -> (r: bool) {
        self.text == other.text
    }
}

impl vstd::std_specs::cmp::PartialEqSpecImpl for PackageName {
    open spec fn obeys_eq_spec() -> bool {
        true
    }

    open spec fn eq_spec(&self, other: &PackageName) -> bool {
        self@ == other@
    }
}

} // verus!

verus! {

/// The displayed name of the synthetic root; it holds a space, which no
/// parsed package name can, so it never collides with a real package.
pub open spec fn root_name_text() -> Seq<char> {
    "requested packages"@
}

/// A well-formed name never reads like the root marker.
pub proof fn lemma_wf_name_not_root(s: Seq<char>)
    requires
        name_wf(s),
    ensures
        s != root_name_text(),
{
    reveal_strlit("requested packages");
    if s == root_name_text() {
        assert(!spec_is_alnum(s[9]));
        assert(97 <= s[9] as u32 <= 122 || spec_is_digit(s[9]));
    }
}

/// The solver-internal package identifier: a real package name, or the
/// synthetic root that stands for what the user asked for.
#[derive(Debug)]
pub struct Name {
    name: PackageName,
    root: bool,
}

impl Name {
    /// The displayed form.
    pub closed spec fn view(&self) -> Seq<char> {
        self.name@
    }

    /// Whether this is the synthetic root.
    pub closed spec fn spec_is_root(&self) -> bool {
        self.root
    }

    /// Wraps a real package name.
    pub fn new(name: PackageName) -> (r: Name)
        requires
            name_wf(name@),
        ensures
            r@ == name@,
            !r.spec_is_root(),
    {
        proof {
            lemma_wf_name_not_root(name@);
        }
        Name { name, root: false }
    }

    /// The synthetic root.
    pub fn root() -> (r: Name)
        ensures
            r@ == root_name_text(),
            r.spec_is_root(),
    {
        Name { name: PackageName::new("requested packages".to_owned()), root: true }
    }

    /// True for the synthetic root.
    pub fn is_root(&self) -> (r: bool)
        ensures
            r == self.spec_is_root(),
    {
        self.root
    }

    /// The package name inside.
    pub fn as_package_name(&self) -> (r: &PackageName)
        ensures
            r@ == self@,
    {
        &self.name
    }

    /// Unwraps into the package name.
    pub fn into_package_name(self) -> (r: PackageName)
        ensures
            r@ == self@,
    {
        self.name
    }
}

} // verus!

verus! {

/// A well-formed name parses back to itself: its displayed form is accepted
/// by the parser and comes back unchanged.
pub proof fn lemma_name_roundtrip(s: Seq<char>)
    requires
        name_wf(s),
    ensures
        name_input_ok(s),
        spec_lower(s) == s,
{
    assert(spec_lower(s) =~= s) by {
        assert(forall|i: int|
            0 <= i < s.len() ==> #[trigger] spec_lower(s)[i] == spec_lower_char(s[i]));
    }
}

} // verus!

verus! {

impl PackageName {
    /// Whether the stored text is a well-formed name.
    pub fn is_wf(&self) -> (r: bool)
        ensures
            r == name_wf(self@),
    {
        let n = self.text.as_str().unicode_len();
        if n == 0 {
            return false;
        }
        let mut i: usize = 0;
        while i < n
            invariant
                i <= n == self@.len(),
                n > 0,
                forall|j: int|
                    0 <= j < i ==> (97 <= (#[trigger] self@[j]) as u32 && self@[j] as u32 <= 122)
                        || spec_is_digit(self@[j]),
                i > 0 ==> 97 <= self@[0] as u32 && self@[0] as u32 <= 122,
            decreases n - i,
        {
            let c = self.text.as_str().get_char(i);
            let u = c as u32;
            let lower = 97 <= u && u <= 122;
            let digit = 48 <= u && u <= 57;
            if i == 0 {
                if !lower {
                    return false;
                }
            } else {
                if !lower && !digit {
                    return false;
                }
            }
            i = i + 1;
        }
        true
    }
}

} // verus!
