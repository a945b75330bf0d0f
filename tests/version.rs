use trident_resolver::version::SCALE;
use trident_resolver::Version;

fn triple(v: &Version) -> (u64, u64, u64) {
    (v.major, v.minor, v.patch)
}

#[test]
fn parse_plain_triple() {
    let v = Version::parse("1.2.3");
    assert_eq!(triple(&v), (1, 2, 3));
    assert_eq!(v.channel, "stable");
    let v = Version::parse("10.0.42");
    assert_eq!(triple(&v), (10, 0, 42));
    assert_eq!(v.channel, "stable");
}

#[test]
fn parse_with_channel() {
    let v = Version::parse("1.2.3-experimental");
    assert_eq!(triple(&v), (1, 2, 3));
    assert_eq!(v.channel, "experimental");
}

#[test]
fn parse_garbage_defaults() {
    let v = Version::parse("bad");
    assert_eq!(triple(&v), (0, 0, 0));
    assert_eq!(v.channel, "stable");
}

#[test]
fn parse_empty_text() {
    let v = Version::parse("");
    assert_eq!(triple(&v), (0, 0, 0));
    assert_eq!(v.channel, "stable");
}

#[test]
fn parse_missing_segments() {
    let v = Version::parse("4.7");
    assert_eq!(triple(&v), (4, 7, 0));
    let v = Version::parse("9-lts");
    assert_eq!(triple(&v), (9, 0, 0));
    assert_eq!(v.channel, "lts");
}

#[test]
fn parse_ignores_fourth_segment() {
    let v = Version::parse("1.2.3.4");
    assert_eq!(triple(&v), (1, 2, 3));
}

#[test]
fn parse_bad_segment_is_zero() {
    let v = Version::parse("1.x.3");
    assert_eq!(triple(&v), (1, 0, 3));
    let v = Version::parse("1..3");
    assert_eq!(triple(&v), (1, 0, 3));
    let v = Version::parse("+4.+.5");
    assert_eq!(triple(&v), (4, 0, 5));
}

#[test]
fn parse_too_large_segment_is_zero() {
    let v = Version::parse("18446744073709551616.18446744073709551615.1");
    assert_eq!(triple(&v), (0, u64::MAX, 1));
}

#[test]
fn parse_channel_after_first_dash() {
    let v = Version::parse("1.2.3-rc-1");
    assert_eq!(triple(&v), (1, 2, 3));
    assert_eq!(v.channel, "rc-1");
    let v = Version::parse("1.2.3-");
    assert_eq!(v.channel, "");
}

#[test]
fn semver_weight_experimental() {
    assert_eq!(Version::parse("1.2.3-experimental").semver_weight(), 330_941_704_035_874_439);
}

#[test]
fn semver_weight_channels() {
    assert_eq!(Version::parse("2.0.0-stable").semver_weight(), 666_666_666_666_666_666);
    assert_eq!(Version::parse("2.0.0").semver_weight(), 666_666_666_666_666_666);
    assert_eq!(Version::parse("1.0.0-lts").semver_weight(), 500_000_000_000_000_000);
    assert_eq!(Version::parse("2.9.9-legacy").semver_weight(), 599_498_746_867_167_919);
    assert_eq!(Version::parse("1.0.0-beta").semver_weight(), 375_000_000_000_000_000);
}

#[test]
fn semver_weight_zero_and_largest() {
    assert_eq!(Version::parse("0.0.0").semver_weight(), 0);
    let v = Version {
        major: u64::MAX,
        minor: u64::MAX,
        patch: u64::MAX,
        channel: "stable".to_string(),
    };
    let w = v.semver_weight();
    assert_eq!(w, 999_999_999_999_999_999);
    assert!(w <= SCALE);
}
