use bump::error::BumpError;
use bump::version::Version;
use bump::version::VersionType;

#[test]
fn parse_simple() {
    let v = Version::parse("1.2.3+4").unwrap();
    assert_eq!(v, Version { major: 1, minor: 2, patch: 3, code: 4 });
}

#[test]
fn parse_zeros() {
    let v = Version::parse("0.0.0+0").unwrap();
    assert_eq!(v, Version { major: 0, minor: 0, patch: 0, code: 0 });
}

#[test]
fn parse_maxima() {
    let v = Version::parse("255.255.65535+4294967295").unwrap();
    assert_eq!(
        v,
        Version { major: 255, minor: 255, patch: 65535, code: 4294967295 }
    );
}

#[test]
fn parse_leading_zeros() {
    // Fields are plain decimal integers: leading zeros are accepted, not
    // stripped or rejected.
    let v = Version::parse("01.02.003+0010").unwrap();
    assert_eq!(v, Version { major: 1, minor: 2, patch: 3, code: 10 });
}

#[test]
fn format_simple() {
    let v = Version { major: 1, minor: 2, patch: 4, code: 11 };
    assert_eq!(v.to_string(), "1.2.4+11");
}

#[test]
fn format_zeros() {
    let v = Version { major: 0, minor: 0, patch: 0, code: 0 };
    assert_eq!(v.to_string(), "0.0.0+0");
}

#[test]
fn format_maxima() {
    let v = Version { major: 255, minor: 255, patch: 65535, code: 4294967295 };
    assert_eq!(v.to_string(), "255.255.65535+4294967295");
}

#[test]
fn round_trip_parse_then_format() {
    for s in ["1.2.3+4", "0.0.0+0", "255.255.65535+4294967295", "10.0.20+300"] {
        let v = Version::parse(s).unwrap();
        assert_eq!(v.to_string(), s);
    }
}

#[test]
fn round_trip_format_then_parse() {
    let v = Version { major: 12, minor: 0, patch: 345, code: 6789 };
    assert_eq!(Version::parse(&v.to_string()).unwrap(), v);
}

#[test]
fn parse_missing_code_fails() {
    assert_eq!(
        Version::parse("1.2.3"),
        Err(BumpError::InvalidVersionString)
    );
}

#[test]
fn parse_missing_patch_segment_fails() {
    assert_eq!(Version::parse("1.2+5"), Err(BumpError::InvalidVersionString));
}

#[test]
fn parse_bad_patch_fails() {
    assert_eq!(Version::parse("1.2.x+5"), Err(BumpError::InvalidPatchVersion));
}

#[test]
fn parse_structure_failures() {
    for s in [
        "",
        "+5",
        "1.2.3+",
        "1.2.3",
        "1.2.3.4+5",
        "1..3+5",
        ".2.3+5",
        "1.2.+5",
    ] {
        assert_eq!(Version::parse(s), Err(BumpError::InvalidVersionString), "{}", s);
    }
}

#[test]
fn parse_bad_code_fails() {
    assert_eq!(Version::parse("1.2.3+x"), Err(BumpError::InvalidVersionCode));
    assert_eq!(
        Version::parse("1.2.3+4294967296"),
        Err(BumpError::InvalidVersionCode)
    );
}

#[test]
fn parse_splits_on_first_plus() {
    // The split is on the first `+`: the code segment is everything after
    // it, so a further `+` makes the code segment no integer.
    assert_eq!(Version::parse("1.2.3+4+5"), Err(BumpError::InvalidVersionCode));
    assert_eq!(Version::parse("1.2.3++5"), Err(BumpError::InvalidVersionCode));
}

#[test]
fn parse_bad_major_fails() {
    assert_eq!(Version::parse("x.2.3+5"), Err(BumpError::InvalidMajorVersion));
    assert_eq!(Version::parse("256.2.3+5"), Err(BumpError::InvalidMajorVersion));
}

#[test]
fn parse_bad_minor_fails() {
    assert_eq!(Version::parse("1.x.3+5"), Err(BumpError::InvalidMinorVersion));
    assert_eq!(Version::parse("1.256.3+5"), Err(BumpError::InvalidMinorVersion));
}

#[test]
fn parse_patch_out_of_range_fails() {
    assert_eq!(
        Version::parse("1.2.65536+5"),
        Err(BumpError::InvalidPatchVersion)
    );
}

#[test]
fn parse_code_checked_before_major() {
    // The code segment is checked first, so both being bad reports the code.
    assert_eq!(Version::parse("x.2.3+y"), Err(BumpError::InvalidVersionCode));
}

#[test]
fn increment_patch_steps_patch_and_code() {
    let mut v = Version { major: 1, minor: 2, patch: 3, code: 10 };
    assert!(v.increment_patch().is_ok());
    assert_eq!(v, Version { major: 1, minor: 2, patch: 4, code: 11 });
    assert_eq!(v.to_string(), "1.2.4+11");
}

#[test]
fn increment_minor_resets_patch() {
    let mut v = Version { major: 1, minor: 2, patch: 3, code: 10 };
    assert!(v.increment_minor().is_ok());
    assert_eq!(v, Version { major: 1, minor: 3, patch: 0, code: 11 });
    assert_eq!(v.to_string(), "1.3.0+11");
}

#[test]
fn increment_major_resets_minor_and_patch() {
    let mut v = Version { major: 1, minor: 2, patch: 3, code: 10 };
    assert!(v.increment_major().is_ok());
    assert_eq!(v, Version { major: 2, minor: 0, patch: 0, code: 11 });
    assert_eq!(v.to_string(), "2.0.0+11");
}

#[test]
fn increment_by_kind_matches_direct_calls() {
    let start = Version { major: 1, minor: 2, patch: 3, code: 10 };
    let mut a = start;
    assert!(a.increment(&VersionType::Patch).is_ok());
    assert_eq!(a, Version { major: 1, minor: 2, patch: 4, code: 11 });
    let mut b = start;
    assert!(b.increment(&VersionType::Minor).is_ok());
    assert_eq!(b, Version { major: 1, minor: 3, patch: 0, code: 11 });
    let mut c = start;
    assert!(c.increment(&VersionType::Major).is_ok());
    assert_eq!(c, Version { major: 2, minor: 0, patch: 0, code: 11 });
}

#[test]
fn increment_patch_overflow() {
    let mut v = Version { major: 1, minor: 2, patch: 65535, code: 10 };
    assert_eq!(v.increment_patch(), Err(BumpError::Overflow));
    assert_eq!(v, Version { major: 1, minor: 2, patch: 65535, code: 10 });
}

#[test]
fn increment_minor_overflow() {
    let mut v = Version { major: 1, minor: 255, patch: 3, code: 10 };
    assert_eq!(v.increment_minor(), Err(BumpError::Overflow));
    assert_eq!(v, Version { major: 1, minor: 255, patch: 3, code: 10 });
}

#[test]
fn increment_major_overflow() {
    let mut v = Version { major: 255, minor: 2, patch: 3, code: 10 };
    assert_eq!(v.increment_major(), Err(BumpError::Overflow));
    assert_eq!(v, Version { major: 255, minor: 2, patch: 3, code: 10 });
}

#[test]
fn increment_code_overflow() {
    let mut v = Version { major: 1, minor: 2, patch: 3, code: 4294967295 };
    assert_eq!(v.increment_patch(), Err(BumpError::Overflow));
    assert_eq!(v.increment_minor(), Err(BumpError::Overflow));
    assert_eq!(v.increment_major(), Err(BumpError::Overflow));
    assert_eq!(v, Version { major: 1, minor: 2, patch: 3, code: 4294967295 });
}

#[test]
fn error_messages() {
    assert_eq!(
        BumpError::InvalidVersionString.message(),
        "invalid version string"
    );
    assert_eq!(BumpError::InvalidVersionCode.message(), "invalid version code");
    assert_eq!(BumpError::InvalidMajorVersion.message(), "invalid major version");
    assert_eq!(BumpError::InvalidMinorVersion.message(), "invalid minor version");
    assert_eq!(BumpError::InvalidPatchVersion.message(), "invalid patch version");
    assert_eq!(BumpError::Overflow.message(), "version overflow");
    assert_eq!(BumpError::NotFound.message(), "version not found");
}
