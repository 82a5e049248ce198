use tayra::commits::{compute_bump, count_by_type, parse_commit, CommitType};
use tayra::version::BumpLevel;

#[test]
fn parse_simple_feat() {
    let c = parse_commit("feat: add login");
    assert_eq!(c.commit_type, CommitType::Feat);
    assert_eq!(c.description, "add login");
    assert!(!c.is_breaking);
    assert!(c.scope.is_none());
}

#[test]
fn parse_scoped_fix() {
    let c = parse_commit("fix(auth): correct token expiry");
    assert_eq!(c.commit_type, CommitType::Fix);
    assert_eq!(c.scope.as_deref(), Some("auth"));
    assert_eq!(c.description, "correct token expiry");
}

#[test]
fn parse_breaking_bang() {
    let c = parse_commit("feat!: remove deprecated API");
    assert_eq!(c.commit_type, CommitType::Feat);
    assert!(c.is_breaking);
}

#[test]
fn parse_breaking_in_body() {
    let c = parse_commit("feat: new API\n\nBREAKING CHANGE: old API removed");
    assert_eq!(c.commit_type, CommitType::Feat);
    assert!(c.is_breaking);
}

#[test]
fn parse_chore() {
    let c = parse_commit("chore: update deps");
    assert_eq!(c.commit_type, CommitType::Chore);
    assert_eq!(c.bump_level(), BumpLevel::Patch);
}

#[test]
fn parse_non_conventional() {
    let c = parse_commit("Updated the readme file");
    assert_eq!(c.commit_type, CommitType::Other);
    assert_eq!(c.bump_level(), BumpLevel::Patch);
}

#[test]
fn parse_docs() {
    let c = parse_commit("docs: update changelog");
    assert_eq!(c.commit_type, CommitType::Docs);
}

#[test]
fn parse_refactor() {
    let c = parse_commit("refactor(core): simplify parser");
    assert_eq!(c.commit_type, CommitType::Refactor);
    assert_eq!(c.scope.as_deref(), Some("core"));
}

#[test]
fn compute_bump_feat_wins() {
    let commits = vec![
        parse_commit("fix: bug"),
        parse_commit("feat: feature"),
        parse_commit("chore: deps"),
    ];
    assert_eq!(compute_bump(&commits), BumpLevel::Minor);
}

#[test]
fn compute_bump_breaking_wins() {
    let commits = vec![
        parse_commit("feat: feature"),
        parse_commit("fix!: breaking fix"),
    ];
    assert_eq!(compute_bump(&commits), BumpLevel::Major);
}

#[test]
fn compute_bump_only_fixes() {
    let commits = vec![parse_commit("fix: bug1"), parse_commit("fix: bug2")];
    assert_eq!(compute_bump(&commits), BumpLevel::Patch);
}

#[test]
fn count_by_type_groups_correctly() {
    let commits = vec![
        parse_commit("feat: a"),
        parse_commit("feat: b"),
        parse_commit("fix: c"),
    ];
    let counts = count_by_type(&commits);
    assert_eq!(counts[0], ("feat".to_string(), 2));
    assert_eq!(counts[1], ("fix".to_string(), 1));
}

#[test]
fn parse_empty_description_is_other() {
    let c = parse_commit("feat:");
    assert_eq!(c.commit_type, CommitType::Other);
}

#[test]
fn parse_breaking_change_dash_in_body() {
    let c = parse_commit("fix: something\n\nBREAKING-CHANGE: old removed");
    assert!(c.is_breaking);
}

#[test]
fn bump_level_ordering() {
    assert!(BumpLevel::Patch < BumpLevel::Minor);
    assert!(BumpLevel::Minor < BumpLevel::Major);
}

#[test]
fn parse_test_type() {
    let c = parse_commit("test: add unit tests");
    assert_eq!(c.commit_type, CommitType::Test);
}

#[test]
fn parse_ci_type() {
    let c = parse_commit("ci: add github actions");
    assert_eq!(c.commit_type, CommitType::Ci);
}

#[test]
fn parse_perf_type() {
    let c = parse_commit("perf: optimize hot path");
    assert_eq!(c.commit_type, CommitType::Perf);
}

#[test]
fn parse_scoped_breaking() {
    let c = parse_commit("feat(api)!: redesign endpoints");
    assert_eq!(c.commit_type, CommitType::Feat);
    assert_eq!(c.scope.as_deref(), Some("api"));
    assert!(c.is_breaking);
}
