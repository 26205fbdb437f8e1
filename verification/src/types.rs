//! Package specifiers: the command-line syntax `name[requirement]`, split at
//! the first character that cannot belong to a name.

use vstd::prelude::*;
use vstd::string::StrSliceExecFns;

use crate::errors::PackageSpecifierError;
use crate::name::{name_input_ok, name_wf, PackageName};
use crate::reqtext::parse_requirement;
use crate::requirement::{requirement_wf, Requirement};
use crate::strutil::{is_alnum, spec_is_alnum, spec_lower};

verus! {

/// The first position at which a specifier's name part ends: the first
/// character that is not a letter or digit, or the end of the text.
pub open spec fn split_point(s: Seq<char>) -> int
    decreases s.len(),
{
    if s.len() == 0 {
        0
    } else if !spec_is_alnum(s[0]) {
        0
    } else {
        1 + split_point(s.drop_first())
    }
}

pub proof fn lemma_split_point_bounds(s: Seq<char>)
    ensures
        0 <= split_point(s) <= s.len(),
        forall|i: int| 0 <= i < split_point(s) ==> spec_is_alnum(#[trigger] s[i]),
        split_point(s) < s.len() ==> !spec_is_alnum(s[split_point(s)]),
    decreases s.len(),
{
    if s.len() > 0 && spec_is_alnum(s[0]) {
        lemma_split_point_bounds(s.drop_first());
        assert forall|i: int| 0 <= i < split_point(s) implies spec_is_alnum(#[trigger] s[i]) by {
            if i >= 1 {
                assert(s[i] == s.drop_first()[i - 1]);
                assert(spec_is_alnum(s.drop_first()[i - 1]));
            }
        }
        if split_point(s) < s.len() {
            assert(s[split_point(s)] == s.drop_first()[split_point(s.drop_first())]);
        }
    }
}

/// Appending text that starts with a non-alphanumeric character to a name
/// splits exactly at the boundary.
pub proof fn lemma_specifier_split(n: Seq<char>, t: Seq<char>)
    requires
        forall|i: int| 0 <= i < n.len() ==> spec_is_alnum(#[trigger] n[i]),
        t.len() > 0 ==> !spec_is_alnum(t[0]),
    ensures
        split_point(n + t) == n.len(),
    decreases n.len(),
{
    let s = n + t;
    if n.len() == 0 {
        assert(s =~= t);
        if t.len() > 0 {
            assert(split_point(s) == 0);
        }
    } else {
        assert(s[0] == n[0]);
        assert(s.drop_first() =~= n.drop_first() + t);
        lemma_specifier_split(n.drop_first(), t);
    }
}

/// A requested package: a name and the requirement on its version.
#[derive(Debug)]
pub struct PackageSpecifier {
    pub name: PackageName,
    pub version: Requirement,
}

impl PackageSpecifier {
    /// Parses `name[requirement]`: the name is the longest alphanumeric
    /// prefix, and a missing requirement defaults to every release.
    pub fn from_str(value: &str) -> (r: Result<PackageSpecifier, PackageSpecifierError>)
        ensures
            r matches Ok(sp) ==> {
                &&& name_input_ok(value@.take(split_point(value@)))
                &&& sp.name@ == spec_lower(value@.take(split_point(value@)))
                &&& name_wf(sp.name@)
                &&& requirement_wf(sp.version)
                &&& (split_point(value@) == value@.len() ==> sp.version.comparators@.len() == 0)
                &&& (value@.skip(split_point(value@)) == seq!['*']
                    ==> sp.version.comparators@.len() == 0)
            },
            (r matches Err(PackageSpecifierError::InvalidPackageName(_))) <==> !name_input_ok(
                value@.take(split_point(value@)),
            ),
            !(r matches Err(PackageSpecifierError::NoPackageName)),
            r matches Err(PackageSpecifierError::InvalidVersionRequirement) ==> (name_input_ok(
                value@.take(split_point(value@)),
            ) && split_point(value@) < value@.len()),
            (name_input_ok(value@.take(split_point(value@))) && split_point(value@)
                == value@.len()) ==> r is Ok,
    {
        let len = value.unicode_len();
        let mut split: usize = 0;
        let mut stop = false;
        while split < len && !stop
            invariant
                split <= len == value@.len(),
                forall|i: int| 0 <= i < split ==> spec_is_alnum(#[trigger] value@[i]),
                stop ==> split < len && !spec_is_alnum(value@[split as int]),
            decreases len - split + (if stop {
                0int
            } else {
                1int
            }),
        {
            if !is_alnum(value.get_char(split)) {
                stop = true;
            } else {
                split = split + 1;
            }
        }
        proof {
            lemma_split_point_bounds(value@);
            // the scanned prefix is exactly the split point
            if (split as int) < split_point(value@) {
                assert(spec_is_alnum(value@[split as int]));
            }
            if (split as int) > split_point(value@) {
                assert(spec_is_alnum(value@[split_point(value@)]));
            }
        }
        let name_s = value.substring_char(0, split);
        proof {
            assert(name_s@ =~= value@.take(split_point(value@)));
        }
        let name = match PackageName::from_str(name_s) {
            Err(e) => {
                return Err(PackageSpecifierError::InvalidPackageName(e));
            },
            Ok(n) => n,
        };
        if split == len {
            let version = Requirement::new(Vec::new());
            proof {
                assert(value@.skip(split_point(value@)) =~= Seq::<char>::empty());
            }
            return Ok(PackageSpecifier { name, version });
        }
        let version_s = value.substring_char(split, len);
        proof {
            assert(version_s@ =~= value@.skip(split_point(value@)));
        }
        let version = match parse_requirement(version_s) {
            Err(_) => {
                return Err(PackageSpecifierError::InvalidVersionRequirement);
            },
            Ok(v) => v,
        };
        Ok(PackageSpecifier { name, version })
    }
}

} // verus!

verus! {

/// The specifier round trip, as far as the split goes: writing a well-formed
/// name directly before a requirement text that opens with an operator or
/// other non-alphanumeric character, the parser cuts the combined text back
/// into exactly that name, lower-case-stable, and exactly that requirement
/// text.
pub proof fn lemma_specifier_roundtrip(n: Seq<char>, t: Seq<char>)
    requires
        name_wf(n),
        t.len() > 0 ==> !spec_is_alnum(t[0]),
    ensures
        split_point(n + t) == n.len(),
        (n + t).take(split_point(n + t)) == n,
        (n + t).skip(n.len() as int) == t,
        name_input_ok(n),
        spec_lower(n) == n,
{
    assert(forall|i: int| 0 <= i < n.len() ==> spec_is_alnum(#[trigger] n[i])) by {
        crate::name::lemma_name_roundtrip(n);
    }
    lemma_specifier_split(n, t);
    assert((n + t).take(n.len() as int) =~= n);
    assert((n + t).skip(n.len() as int) =~= t);
    crate::name::lemma_name_roundtrip(n);
}

} // verus!
