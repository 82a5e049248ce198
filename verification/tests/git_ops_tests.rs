use tayra::git_ops::detect_prefix;
use tayra::version::VersionTag;

#[test]
fn detect_prefix_user_overrides_v() {
    let tag = VersionTag::parse("v1.0.0");
    assert_eq!(detect_prefix(tag.as_ref(), Some("")), "");
}

#[test]
fn detect_prefix_user_any_string() {
    assert_eq!(detect_prefix(None, Some("release-")), "release-");
}

#[test]
fn detect_prefix_falls_back_to_tag_style() {
    let v_tag = VersionTag::parse("v1.0.0");
    let plain_tag = VersionTag::parse("1.0.0");
    assert_eq!(detect_prefix(v_tag.as_ref(), None), "v");
    assert_eq!(detect_prefix(plain_tag.as_ref(), None), "");
}

#[test]
fn detect_prefix_defaults_to_v_for_fresh_repo() {
    assert_eq!(detect_prefix(None, None), "v");
}
