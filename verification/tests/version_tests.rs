use embassy_devtool::text::decimal_text;
use embassy_devtool::version::{bump_minor, bump_patch, bump_text, BumpKind, Version, VersionError};

#[test]
fn bump_patch_increments_the_patch_number() {
    assert_eq!(bump_patch("1.2.3").unwrap(), "1.2.4");
}

#[test]
fn bump_minor_increments_minor_and_resets_patch() {
    assert_eq!(bump_minor("1.2.3").unwrap(), "1.3.0");
}

#[test]
fn bump_minor_below_one_keeps_major_zero() {
    assert_eq!(bump_minor("0.5.9").unwrap(), "0.6.0");
}

#[test]
fn bump_patch_carries_into_more_digits() {
    assert_eq!(bump_patch("0.0.9").unwrap(), "0.0.10");
    assert_eq!(bump_patch("10.20.99").unwrap(), "10.20.100");
}

#[test]
fn bump_text_follows_the_kind() {
    assert_eq!(bump_text("2.1.0", BumpKind::Patch).unwrap(), "2.1.1");
    assert_eq!(bump_text("2.1.0", BumpKind::Minor).unwrap(), "2.2.0");
}

#[test]
fn parse_reads_the_three_numbers() {
    let v = Version::parse("12.0.345").unwrap();
    assert_eq!(v, Version { major: 12, minor: 0, patch: 345 });
    assert_eq!(v, Version::new(12, 0, 345));
}

#[test]
fn parse_is_not_the_identity_on_its_input() {
    // A parser that handed back a fixed or empty answer would fail here.
    let a = Version::parse("1.2.3").unwrap();
    let b = Version::parse("3.2.1").unwrap();
    assert_ne!(a, b);
    assert_eq!(a.major, 1);
    assert_eq!(b.major, 3);
}

#[test]
fn parse_drops_prerelease_and_build_parts() {
    let v = Version::parse("1.2.3-alpha.1+build.5").unwrap();
    assert_eq!(v, Version { major: 1, minor: 2, patch: 3 });
    assert_eq!(bump_patch("1.2.3-alpha.1+build.5").unwrap(), "1.2.4");
}

#[test]
fn parse_rejects_malformed_versions() {
    for text in ["", "1", "1.0", "1.0.01", "1.0.unknown", "1.0.0-", "1.0.0+", "v1.0.0", "1.0.0 ", "a.b.c"] {
        assert_eq!(Version::parse(text), Err(VersionError::Malformed), "{}", text);
        assert_eq!(bump_patch(text), Err(VersionError::Malformed), "{}", text);
        assert_eq!(bump_minor(text), Err(VersionError::Malformed), "{}", text);
    }
}

#[test]
fn parse_rejects_numbers_beyond_u64() {
    assert_eq!(Version::parse("1.2.18446744073709551616"), Err(VersionError::Malformed));
}

#[test]
fn bump_reports_overflow() {
    assert_eq!(bump_patch("1.2.18446744073709551615"), Err(VersionError::Overflow));
    assert_eq!(bump_minor("1.18446744073709551615.3"), Err(VersionError::Overflow));
    // The other component is not touched, so its size does not matter.
    assert_eq!(bump_minor("1.2.18446744073709551615").unwrap(), "1.3.0");
    assert_eq!(bump_patch("1.18446744073709551615.3").unwrap(), "1.18446744073709551615.4");
}

#[test]
fn version_bump_by_kind() {
    let v = Version::new(1, 2, 3);
    assert_eq!(v.bump(BumpKind::Patch), Some(Version::new(1, 2, 4)));
    assert_eq!(v.bump(BumpKind::Minor), Some(Version::new(1, 3, 0)));
    assert_eq!(v.bump_patch(), Version::new(1, 2, 4));
    assert_eq!(v.bump_minor(), Version::new(1, 3, 0));
    assert_eq!(Version::new(0, u64::MAX, 0).bump(BumpKind::Minor), None);
    assert_eq!(Version::new(0, 0, u64::MAX).bump(BumpKind::Patch), None);
}

#[test]
fn to_text_writes_decimal_components() {
    assert_eq!(Version::new(0, 0, 0).to_text(), "0.0.0");
    assert_eq!(Version::new(1, 20, 300).to_text(), "1.20.300");
    assert_eq!(
        Version::new(u64::MAX, 0, 7).to_text(),
        "18446744073709551615.0.7"
    );
}

#[test]
fn decimal_text_matches_standard_formatting() {
    for n in [0u64, 1, 9, 10, 11, 99, 100, 101, 12345, 1_000_000, u64::MAX - 1, u64::MAX] {
        assert_eq!(decimal_text(n), format!("{}", n));
    }
}

#[test]
fn text_round_trip_through_parse() {
    for v in [Version::new(0, 0, 1), Version::new(3, 14, 159), Version::new(1, 0, 0)] {
        assert_eq!(Version::parse(&v.to_text()), Ok(v));
    }
}
