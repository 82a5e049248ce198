use tayra::commits::{parse_commit, ParsedCommit};
use tayra::git_ops::AnalysisResult;
use tayra::output::{compute_bump_and_version, compute_suggested, format_ci, format_full};
use tayra::version::{BumpLevel, SemVer, VersionTag};

fn make_result(tag: Option<&str>, messages: &[&str]) -> AnalysisResult {
    let current_version = tag.and_then(VersionTag::parse);
    let commits: Vec<ParsedCommit> = messages.iter().map(|m| parse_commit(m)).collect();
    AnalysisResult {
        current_version,
        commits,
    }
}

#[test]
fn ci_output_minor_bump() {
    let result = make_result(Some("v1.2.3"), &["feat: add login", "fix: typo"]);
    assert_eq!(format_ci(&result, "v"), "v1.3.0");
}

#[test]
fn ci_output_patch_bump() {
    let result = make_result(Some("v1.2.3"), &["fix: bug"]);
    assert_eq!(format_ci(&result, "v"), "v1.2.4");
}

#[test]
fn ci_output_major_bump() {
    let result = make_result(Some("v1.2.3"), &["feat!: breaking change"]);
    assert_eq!(format_ci(&result, "v"), "v2.0.0");
}

#[test]
fn ci_output_no_prefix() {
    let result = make_result(Some("1.2.3"), &["fix: bug"]);
    assert_eq!(format_ci(&result, ""), "1.2.4");
}

#[test]
fn ci_output_no_tags() {
    let result = make_result(None, &["feat: initial"]);
    assert_eq!(format_ci(&result, "v"), "v0.1.0");
}

#[test]
fn ci_output_no_tags_no_commits() {
    let result = make_result(None, &[]);
    assert_eq!(format_ci(&result, "v"), "v0.0.1");
}

#[test]
fn full_output_contains_header() {
    let result = make_result(Some("v1.0.0"), &["feat: new thing"]);
    let output = format_full(&result, "v", false);
    assert!(output.contains("tayra v"));
    assert!(output.contains("Current version: v1.0.0"));
    assert!(output.contains("minor"));
    assert!(output.contains("v1.1.0"));
}

#[test]
fn full_output_no_commits() {
    let result = make_result(Some("v1.0.0"), &[]);
    let output = format_full(&result, "v", false);
    assert!(output.contains("No new commits"));
}

#[test]
fn full_output_verbose_marks_breaking() {
    let result = make_result(Some("v1.0.0"), &["feat!: drop old api"]);
    let output = format_full(&result, "v", true);
    assert!(output.contains("[BREAKING]"));
}

#[test]
fn full_output_non_verbose_no_breaking_marker() {
    let result = make_result(Some("v1.0.0"), &["feat!: drop old api"]);
    let output = format_full(&result, "v", false);
    assert!(!output.contains("[BREAKING]"));
}

#[test]
fn compute_bump_and_version_no_tag_no_commits() {
    let result = make_result(None, &[]);
    let (bump, ver) = compute_bump_and_version(&result);
    assert_eq!(bump, BumpLevel::Patch);
    assert_eq!(ver, SemVer::new(0, 0, 1));
}

#[test]
fn compute_bump_and_version_zero_with_breaking_is_major() {
    let result = make_result(None, &["feat!: breaking"]);
    let (bump, ver) = compute_bump_and_version(&result);
    assert_eq!(bump, BumpLevel::Major);
    assert_eq!(ver, SemVer::new(1, 0, 0));
}

#[test]
fn compute_suggested_no_tags_with_feat() {
    let result = make_result(None, &["feat: init"]);
    assert_eq!(compute_suggested(&result), SemVer::new(0, 1, 0));
}

#[test]
fn compute_suggested_existing_tag_with_feat() {
    let result = make_result(Some("v2.1.0"), &["feat: new"]);
    assert_eq!(compute_suggested(&result), SemVer::new(2, 2, 0));
}
