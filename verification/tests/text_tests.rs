//! Parsing and display: names, versions, requirements, specifiers, and the
//! membership each operator grants.

use mqpkg::errors::PackageNameError;
use mqpkg::name::{Name, PackageName};
use mqpkg::versionset::VersionSet;
use mqpkg::reqtext::{display_requirement, parse_requirement};
use mqpkg::requirement::Requirement;
use mqpkg::semver::requirement_to_set;
use mqpkg::types::PackageSpecifier;
use mqpkg::version::Version;
use mqpkg::vertext::{display_version, parse_version};

fn ver(s: &str) -> Version {
    parse_version(s).unwrap()
}

fn req(s: &str) -> Requirement {
    parse_requirement(s).unwrap()
}

fn admits(r: &str, v: &str) -> bool {
    requirement_to_set(&req(r)).contains(&ver(v))
}

#[test]
fn name_parse_lowers_and_roundtrips() {
    let n = PackageName::from_str("Foo1").unwrap();
    assert_eq!(n.as_str(), "foo1");
    let again = PackageName::from_str(n.as_str()).unwrap();
    assert_eq!(again.as_str(), "foo1");
    assert!(n.is_wf());
}

#[test]
fn name_parse_errors() {
    assert!(matches!(PackageName::from_str(""), Err(PackageNameError::TooShort)));
    match PackageName::from_str("1abc") {
        Err(PackageNameError::NoStartingAlpha { name, character }) => {
            assert_eq!(name, "1abc");
            assert_eq!(character, "1");
        }
        _ => panic!("expected a starting-alpha error"),
    }
    match PackageName::from_str("ab-c") {
        Err(PackageNameError::InvalidCharacter { name, character }) => {
            assert_eq!(name, "ab-c");
            assert_eq!(character, "-");
        }
        _ => panic!("expected an invalid-character error"),
    }
}

#[test]
fn version_display_roundtrip() {
    for text in ["0.0.0", "1.2.3", "10.20.30", "1.2.3-alpha.1", "1.0.0-rc1", "1.0.0-0.x-y.7"] {
        let v = parse_version(text).unwrap();
        assert_eq!(display_version(&v), text);
    }
}

#[test]
fn version_parse_rejects_bad_text() {
    for text in ["", "1", "1.2", "01.2.3", "1.02.3", "1.2.3-", "1.2.3-a..b", "1.2.3 ", "a.b.c",
        "1.2.3-al pha", "18446744073709551615.0.0"] {
        assert!(parse_version(text).is_err(), "accepted {:?}", text);
    }
}

#[test]
fn requirement_display_is_canonical() {
    assert_eq!(display_requirement(&req(">=1.2.3, <2")), ">=1.2.3, <2");
    assert_eq!(display_requirement(&req(" >=1.2.3 ,  <2 ")), ">=1.2.3, <2");
    assert_eq!(display_requirement(&req("1.2.3")), "^1.2.3");
    assert_eq!(display_requirement(&req("*")), "*");
    assert_eq!(display_requirement(&req("1.*")), "1.*");
    assert_eq!(display_requirement(&req("1.2.*")), "1.2.*");
    assert_eq!(display_requirement(&req("~1.2")), "~1.2");
    assert_eq!(display_requirement(&req("=1.0.0-alpha.1")), "=1.0.0-alpha.1");
}

#[test]
fn requirement_roundtrips_through_display() {
    for text in ["*", "^1.2.3", ">=1.2.3, <2", "=1.0.0-alpha.1", "1.*", "~0.4", ">0.0.9, <=2.5.3"]
    {
        let parsed = req(text);
        let shown = display_requirement(&parsed);
        let reparsed = req(&shown);
        assert_eq!(shown, display_requirement(&reparsed));
    }
}

#[test]
fn exact_operator_windows() {
    assert!(admits("=1.2.3", "1.2.3"));
    assert!(!admits("=1.2.3", "1.2.4"));
    assert!(admits("=1.2", "1.2.9"));
    assert!(!admits("=1.2", "1.3.0"));
    assert!(admits("=1", "1.9.9"));
    assert!(!admits("=1", "2.0.0"));
}

#[test]
fn greater_operator_windows() {
    assert!(admits(">1.2.3", "1.2.4"));
    assert!(!admits(">1.2.3", "1.2.3"));
    assert!(admits(">1.2", "1.3.0"));
    assert!(!admits(">1.2", "1.2.9"));
    assert!(admits(">1", "2.0.0"));
    assert!(!admits(">1", "1.9.9"));
    assert!(admits(">=1.2.3", "1.2.3"));
    assert!(!admits(">=1.2.3", "1.2.2"));
}

#[test]
fn less_operator_windows() {
    assert!(admits("<1.2.3", "1.2.2"));
    assert!(!admits("<1.2.3", "1.2.3"));
    assert!(admits("<1.2", "1.1.9"));
    assert!(!admits("<1.2", "1.2.0"));
    assert!(admits("<=1.2.3", "1.2.3"));
    assert!(!admits("<=1.2.3", "1.2.4"));
    assert!(admits("<=1.2", "1.2.9"));
    assert!(!admits("<=1.2", "1.3.0"));
}

#[test]
fn tilde_and_caret_windows() {
    assert!(admits("~1.2.3", "1.2.9"));
    assert!(!admits("~1.2.3", "1.3.0"));
    assert!(admits("~1", "1.9.0"));
    assert!(!admits("~1", "2.0.0"));
    assert!(admits("^1.2.3", "1.9.9"));
    assert!(!admits("^1.2.3", "2.0.0"));
    assert!(admits("^0.2.3", "0.2.9"));
    assert!(!admits("^0.2.3", "0.3.0"));
    assert!(admits("^0.0.3", "0.0.3"));
    assert!(!admits("^0.0.3", "0.0.4"));
    assert!(admits("^0.0", "0.0.9"));
    assert!(!admits("^0.0", "0.1.0"));
}

#[test]
fn wildcard_windows() {
    assert!(admits("*", "0.0.1"));
    assert!(admits("*", "99.0.0"));
    assert!(admits("1.*", "1.9.9"));
    assert!(!admits("1.*", "2.0.0"));
    assert!(admits("1.2.*", "1.2.7"));
    assert!(!admits("1.2.*", "1.3.0"));
}

#[test]
fn prerelease_discipline() {
    // without an explicit mention, no pre-release is admitted
    assert!(!admits("*", "1.0.0-alpha"));
    assert!(!admits(">=1.0.0", "2.0.0-alpha"));
    // an explicit mention opts in to that series only
    assert!(admits(">=1.2.3-beta", "1.2.3-beta"));
    assert!(admits(">=1.2.3-beta", "1.2.3-beta.2"));
    assert!(admits(">=1.2.3-beta", "1.2.3"));
    assert!(!admits(">=1.2.3-beta", "1.2.4-beta"));
}

#[test]
fn prerelease_ordering() {
    let set = requirement_to_set(&req(">=1.0.0-alpha"));
    assert!(set.contains(&ver("1.0.0-alpha")));
    assert!(set.contains(&ver("1.0.0-alpha.1")));
    assert!(set.contains(&ver("1.0.0-beta")));
    assert!(!set.contains(&ver("0.9.9")));
}

#[test]
fn versionset_algebra_on_samples() {
    let a = requirement_to_set(&req(">=1.0.0, <2.0.0"));
    let b = requirement_to_set(&req(">=1.5.0, <3.0.0"));
    let ab = a.intersection(&b);
    let ba = b.intersection(&a);
    let cc = a.complement().complement();
    for text in ["0.9.0", "1.0.0", "1.4.9", "1.5.0", "1.9.9", "2.0.0", "2.5.0"] {
        let v = ver(text);
        assert_eq!(ab.contains(&v), a.contains(&v) && b.contains(&v));
        assert_eq!(ab.contains(&v), ba.contains(&v));
        assert_eq!(cc.contains(&v), a.contains(&v));
    }
}

#[test]
fn specifier_parsing() {
    let sp = PackageSpecifier::from_str("foo>=1.2, <2").unwrap();
    assert_eq!(sp.name.as_str(), "foo");
    assert_eq!(display_requirement(&sp.version), ">=1.2, <2");

    let sp = PackageSpecifier::from_str("bar").unwrap();
    assert_eq!(sp.name.as_str(), "bar");
    assert_eq!(display_requirement(&sp.version), "*");

    let sp = PackageSpecifier::from_str("baz=1.0.0-alpha.1").unwrap();
    assert_eq!(sp.name.as_str(), "baz");
    assert_eq!(display_requirement(&sp.version), "=1.0.0-alpha.1");

    let sp = PackageSpecifier::from_str("Quux2*").unwrap();
    assert_eq!(sp.name.as_str(), "quux2");
    assert_eq!(display_requirement(&sp.version), "*");

    assert!(PackageSpecifier::from_str("").is_err());
    assert!(PackageSpecifier::from_str("foo>=notaversion").is_err());
}

#[test]
fn singleton_windows() {
    let s = VersionSet::singleton(&ver("1.2.3"));
    assert!(s.contains(&ver("1.2.3")));
    assert!(!s.contains(&ver("1.2.4")));
    assert!(!s.contains(&ver("1.2.3-alpha")));
    let p = VersionSet::singleton(&ver("1.2.3-alpha"));
    assert!(p.contains(&ver("1.2.3-alpha")));
    assert!(p.contains(&ver("1.2.3-beta")));
    assert!(!p.contains(&ver("1.2.3")));
}

#[test]
fn prerelease_identifier_order() {
    // numeric identifiers come before alphanumeric ones, and compare by value
    let set = requirement_to_set(&req(">=1.0.0-11"));
    assert!(set.contains(&ver("1.0.0-11")));
    assert!(set.contains(&ver("1.0.0-alpha")));
    assert!(!set.contains(&ver("1.0.0-2")));
    let set = requirement_to_set(&req(">=1.0.0-alpha.1"));
    assert!(set.contains(&ver("1.0.0-alpha.1")));
    assert!(set.contains(&ver("1.0.0-alpha.1.9")));
    assert!(!set.contains(&ver("1.0.0-alpha")));
}

#[test]
fn root_name_is_distinct() {
    let root = Name::root();
    assert!(root.is_root());
    let real = Name::new(PackageName::from_str("foo").unwrap());
    assert!(!real.is_root());
    assert_eq!(real.as_package_name().as_str(), "foo");
    assert_ne!(root.as_package_name().as_str(), "foo");
}
