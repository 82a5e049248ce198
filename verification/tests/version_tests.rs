use tayra::version::{BumpLevel, SemVer, VersionTag};

#[test]
fn parse_semver() {
    assert_eq!("1.2.3".parse::<SemVer>().unwrap(), SemVer::new(1, 2, 3));
    assert_eq!("v1.2.3".parse::<SemVer>().unwrap(), SemVer::new(1, 2, 3));
    assert_eq!("0.0.0".parse::<SemVer>().unwrap(), SemVer::zero());
}

#[test]
fn parse_semver_invalid() {
    assert!("abc".parse::<SemVer>().is_err());
    assert!("1.2".parse::<SemVer>().is_err());
    assert!("1.2.3.4".parse::<SemVer>().is_err());
}

#[test]
fn semver_ordering() {
    let v1 = SemVer::new(1, 0, 0);
    let v2 = SemVer::new(1, 1, 0);
    let v3 = SemVer::new(2, 0, 0);
    assert!(v1 < v2);
    assert!(v2 < v3);
}

#[test]
fn bump_patch() {
    let v = SemVer::new(1, 2, 3);
    assert_eq!(v.bump(BumpLevel::Patch), SemVer::new(1, 2, 4));
}

#[test]
fn bump_minor() {
    let v = SemVer::new(1, 2, 3);
    assert_eq!(v.bump(BumpLevel::Minor), SemVer::new(1, 3, 0));
}

#[test]
fn bump_major() {
    let v = SemVer::new(1, 2, 3);
    assert_eq!(v.bump(BumpLevel::Major), SemVer::new(2, 0, 0));
}

#[test]
fn version_tag_parse() {
    let tag = VersionTag::parse("v1.2.3").unwrap();
    assert!(tag.has_v_prefix);
    assert_eq!(tag.version, SemVer::new(1, 2, 3));

    let tag = VersionTag::parse("1.2.3").unwrap();
    assert!(!tag.has_v_prefix);

    assert!(VersionTag::parse("not-a-version").is_none());
}

#[test]
fn version_tag_format_next() {
    let tag = VersionTag::parse("v1.2.3").unwrap();
    let next = SemVer::new(1, 3, 0);
    assert_eq!(tag.format_next(&next), "v1.3.0");

    let tag = VersionTag::parse("1.2.3").unwrap();
    assert_eq!(tag.format_next(&next), "1.3.0");
}

#[test]
fn semver_display() {
    assert_eq!(SemVer::new(1, 2, 3).to_string(), "1.2.3");
}

#[test]
fn zero_bump_to_minor() {
    let v = SemVer::zero();
    assert_eq!(v.bump(BumpLevel::Minor), SemVer::new(0, 1, 0));
}
