use tayra::commits::{compute_bump, count_by_type, parse_commit, CommitType, ParsedCommit};
use tayra::git_ops::{commits_since_tag, detect_prefix, find_latest_version_tag, AnalysisResult};
use tayra::output::{
    can_suggest_next, compute_bump_and_version, compute_suggested, format_ci, format_full,
};
use tayra::version::{BumpLevel, ParseError, SemVer, VersionTag};

fn result_of(tag: Option<&str>, messages: &[&str]) -> AnalysisResult {
    AnalysisResult {
        current_version: tag.and_then(VersionTag::parse),
        commits: messages.iter().map(|m| parse_commit(m)).collect(),
    }
}

// ---- versions ----

#[test]
fn semver_parse_accepts_plus_signs_like_u64() {
    assert_eq!(SemVer::parse("+1.+2.+3"), Ok(SemVer::new(1, 2, 3)));
    assert_eq!(SemVer::parse("1.2.+"), Err(ParseError::InvalidFormat));
    assert_eq!(SemVer::parse("1.2.-3"), Err(ParseError::InvalidFormat));
}

#[test]
fn semver_parse_limits_and_empty_parts() {
    assert_eq!(
        SemVer::parse("18446744073709551615.0.0"),
        Ok(SemVer::new(u64::MAX, 0, 0))
    );
    assert!(SemVer::parse("18446744073709551616.0.0").is_err());
    assert!(SemVer::parse("1..3").is_err());
    assert!(SemVer::parse("").is_err());
    assert!(SemVer::parse("vv1.2.3").is_err());
    assert!(SemVer::parse("1.2.3 ").is_err());
    assert_eq!(SemVer::parse("007.0.01"), Ok(SemVer::new(7, 0, 1)));
}

#[test]
fn semver_parse_drops_prerelease_suffix() {
    assert_eq!(SemVer::parse("v1.0.0-rc1"), Ok(SemVer::new(1, 0, 0)));
    assert_eq!(SemVer::parse("2.3.4-beta.1"), Ok(SemVer::new(2, 3, 4)));
    let tag = VersionTag::parse("v1.0.0-rc1").unwrap();
    assert_eq!(tag.version, SemVer::new(1, 0, 0));
    assert_eq!(tag.tag_name, "v1.0.0-rc1");
}

#[test]
fn semver_text_round_trips() {
    for v in [
        SemVer::zero(),
        SemVer::new(1, 20, 300),
        SemVer::new(u64::MAX, u64::MAX, u64::MAX),
    ] {
        assert_eq!(SemVer::parse(&v.to_string()), Ok(v));
        let tag = VersionTag::parse("v0.0.0").unwrap();
        let next = VersionTag::parse(&tag.format_next(&v)).unwrap();
        assert_eq!(next.version, v);
        assert!(next.has_v_prefix);
    }
    assert_eq!(SemVer::new(u64::MAX, 0, 10).to_string(), "18446744073709551615.0.10");
}

#[test]
fn semver_order_is_lexicographic() {
    assert!(SemVer::new(1, 9, 9) < SemVer::new(2, 0, 0));
    assert!(SemVer::new(1, 2, 9) < SemVer::new(1, 3, 0));
    assert!(SemVer::new(1, 2, 3) < SemVer::new(1, 2, 4));
    assert!(!(SemVer::new(1, 2, 3) < SemVer::new(1, 2, 3)));
    assert!(SemVer::new(3, 0, 0) > SemVer::new(2, 99, 99));
}

#[test]
fn bump_is_later_at_every_level() {
    let v = SemVer::new(4, 5, 6);
    for level in [BumpLevel::Patch, BumpLevel::Minor, BumpLevel::Major] {
        assert!(v < v.bump(level));
    }
}

#[test]
fn names_of_levels_types_and_errors() {
    assert_eq!(BumpLevel::Patch.to_string(), "patch");
    assert_eq!(BumpLevel::Minor.to_string(), "minor");
    assert_eq!(BumpLevel::Major.to_string(), "major");
    assert_eq!(ParseError::InvalidFormat.to_string(), "invalid semver format");
    assert_eq!(CommitType::Refactor.to_string(), "refactor");
    assert_eq!(CommitType::Other.to_string(), "other");
    assert_eq!(CommitType::Feat.bump_level(), BumpLevel::Minor);
    assert_eq!(CommitType::Build.bump_level(), BumpLevel::Patch);
}

// ---- commits ----

#[test]
fn parse_trims_unicode_whitespace_and_crlf() {
    let c = parse_commit("\u{3000} feat: x \t\r\n\r\nBREAKING CHANGE: y\r\n");
    assert_eq!(c.commit_type, CommitType::Feat);
    assert_eq!(c.description, "x");
    assert!(c.is_breaking);
    assert_eq!(c.raw_message, "feat: x\n\nBREAKING CHANGE: y");
    assert_eq!(c.summary(), "feat: x");
}

#[test]
fn parse_rejects_malformed_prefixes() {
    assert_eq!(parse_commit("feat(scope)x: y").commit_type, CommitType::Other);
    assert_eq!(parse_commit("feat(scope: y").commit_type, CommitType::Other);
    assert_eq!(parse_commit("Feat: y").commit_type, CommitType::Other);
    assert_eq!(parse_commit("feat !: y").commit_type, CommitType::Other);
    assert_eq!(parse_commit("fe-at: y").commit_type, CommitType::Other);
    assert_eq!(parse_commit(": y").commit_type, CommitType::Other);
    assert_eq!(parse_commit("(x): y").commit_type, CommitType::Other);
    assert_eq!(parse_commit("").commit_type, CommitType::Other);
}

#[test]
fn parse_accepts_all_known_types() {
    let cases = [
        ("feat: a", CommitType::Feat),
        ("fix: a", CommitType::Fix),
        ("chore: a", CommitType::Chore),
        ("docs: a", CommitType::Docs),
        ("refactor: a", CommitType::Refactor),
        ("test: a", CommitType::Test),
        ("tests: a", CommitType::Test),
        ("ci: a", CommitType::Ci),
        ("perf: a", CommitType::Perf),
        ("style: a", CommitType::Style),
        ("build: a", CommitType::Build),
        ("  build (x) : a", CommitType::Other),
        ("build(): a", CommitType::Build),
    ];
    for (message, expected) in cases {
        assert_eq!(parse_commit(message).commit_type, expected, "{message}");
    }
    assert_eq!(parse_commit("build(): a").scope.as_deref(), Some(""));
}

#[test]
fn non_conventional_keeps_message_and_reads_body() {
    let c = parse_commit("  Merge branch 'x'  \nBREAKING-CHANGE: yes\n");
    assert_eq!(c.commit_type, CommitType::Other);
    assert_eq!(c.description, "Merge branch 'x'");
    assert!(c.is_breaking);
    assert_eq!(c.bump_level(), BumpLevel::Major);
    assert_eq!(c.raw_message, "  Merge branch 'x'  \nBREAKING-CHANGE: yes\n");
    assert_eq!(c.summary(), "  Merge branch 'x'  ");
}

#[test]
fn breaking_marker_only_counts_in_body() {
    let c = parse_commit("fix: BREAKING CHANGE: not in body");
    assert!(!c.is_breaking);
    let c = parse_commit("fix: x\nbreaking change: lower case");
    assert!(!c.is_breaking);
}

#[test]
fn compute_bump_of_nothing_is_patch_and_concat_takes_max() {
    let none: Vec<ParsedCommit> = Vec::new();
    assert_eq!(compute_bump(&none), BumpLevel::Patch);
    let a = vec![parse_commit("feat: a")];
    let b = vec![parse_commit("fix: b"), parse_commit("docs: c")];
    let mut ab = a.clone();
    ab.extend(b.clone());
    let mut ba = b.clone();
    ba.extend(a.clone());
    assert_eq!(compute_bump(&a), BumpLevel::Minor);
    assert_eq!(compute_bump(&b), BumpLevel::Patch);
    assert_eq!(compute_bump(&ab), BumpLevel::Minor);
    assert_eq!(compute_bump(&ba), BumpLevel::Minor);
}

#[test]
fn count_by_type_orders_by_count_then_first_appearance() {
    let commits: Vec<ParsedCommit> = [
        "test: e", "fix: a", "feat: b", "chore: c", "chore: d", "whatever", "test: f",
    ]
    .iter()
    .map(|m| parse_commit(m))
    .collect();
    let counts = count_by_type(&commits);
    let expected: Vec<(String, usize)> = vec![
        ("test".to_string(), 2),
        ("chore".to_string(), 2),
        ("fix".to_string(), 1),
        ("feat".to_string(), 1),
        ("other".to_string(), 1),
    ];
    assert_eq!(counts, expected);
    let total: usize = counts.iter().map(|e| e.1).sum();
    assert_eq!(total, commits.len());
    assert!(count_by_type(&[]).is_empty());
}

// ---- repository decisions ----

#[test]
fn latest_tag_is_highest_version_first_seen() {
    let names: Vec<String> = ["v1.0.0", "v1.1.0", "garbage", "v0.9.0", "1.1.0"]
        .iter()
        .map(|s| s.to_string())
        .collect();
    let best = find_latest_version_tag(&names, None).unwrap();
    assert_eq!(best.tag_name, "v1.1.0");
    assert_eq!(best.version, SemVer::new(1, 1, 0));
    assert!(best.has_v_prefix);

    let none: Vec<String> = vec!["garbage".to_string(), "release-1.0.0".to_string()];
    assert!(find_latest_version_tag(&none, None).is_none());
}

#[test]
fn latest_tag_with_user_prefix() {
    let names: Vec<String> = vec!["release-1.0.0".to_string(), "v0.5.0".to_string()];
    let best = find_latest_version_tag(&names, Some("release-")).unwrap();
    assert_eq!(best.tag_name, "release-1.0.0");
    assert_eq!(best.version, SemVer::new(1, 0, 0));
    assert!(!best.has_v_prefix);
    // An empty prefix strips nothing; a prefix that does not fit falls back.
    let best = find_latest_version_tag(&names, Some("")).unwrap();
    assert_eq!(best.tag_name, "v0.5.0");
    let best = find_latest_version_tag(&names, Some("v")).unwrap();
    assert_eq!(best.tag_name, "v0.5.0");
}

#[test]
fn commits_since_tag_stops_at_tag_and_skips_empty() {
    let history: Vec<(String, String)> = vec![
        ("c3".to_string(), "fix: three".to_string()),
        ("c2".to_string(), String::new()),
        ("c1".to_string(), "feat: one".to_string()),
        ("c0".to_string(), "chore: zero".to_string()),
    ];
    let since = commits_since_tag(&history, Some("c1"));
    assert_eq!(since.len(), 1);
    assert_eq!(since[0].description, "three");
    let all = commits_since_tag(&history, None);
    assert_eq!(all.len(), 3);
    assert_eq!(all[2].commit_type, CommitType::Chore);
    assert!(commits_since_tag(&history, Some("c3")).is_empty());
    assert_eq!(commits_since_tag(&history, Some("nope")).len(), 3);
}

#[test]
fn detected_prefix_matches_tag_style() {
    let next = SemVer::new(3, 0, 0);
    for name in ["v2.0.0", "2.0.0"] {
        let tag = VersionTag::parse(name).unwrap();
        let prefix = detect_prefix(Some(&tag), None);
        assert_eq!(format!("{}{}", prefix, next.to_string()), tag.format_next(&next));
    }
}

// ---- suggestions and reports ----

#[test]
fn suggestion_rules() {
    let r = result_of(Some("v0.0.0"), &["fix: a"]);
    assert_eq!(compute_bump_and_version(&r), (BumpLevel::Minor, SemVer::new(0, 1, 0)));
    let r = result_of(Some("v0.0.0"), &[]);
    assert_eq!(compute_bump_and_version(&r), (BumpLevel::Patch, SemVer::new(0, 0, 1)));
    let r = result_of(Some("v0.0.5"), &["fix: a"]);
    assert_eq!(compute_bump_and_version(&r), (BumpLevel::Patch, SemVer::new(0, 0, 6)));
    let r = result_of(Some("v1.2.3"), &["docs: a", "feat(x)!: b"]);
    assert_eq!(compute_suggested(&r), SemVer::new(2, 0, 0));
    assert!(compute_suggested(&r) > r.current_version.as_ref().unwrap().version);
}

#[test]
fn suggestion_guard_for_overflow() {
    let r = result_of(Some("1.2.18446744073709551615"), &["fix: a"]);
    assert!(!can_suggest_next(&r));
    let r = result_of(Some("1.2.18446744073709551615"), &["feat: a"]);
    assert!(can_suggest_next(&r));
    assert_eq!(format_ci(&r, ""), "1.3.0");
}

#[test]
fn full_report_exact_text() {
    let r = result_of(Some("v1.2.3"), &["feat: add auth", "fix!: typo  ", "fix: more"]);
    let out = format_full(&r, "v", true);
    let expected = "tayra v0.1.0\n\
                    ━━━━━━━━━━━━━━━━━━━━━\n\
                    Current version: v1.2.3\n\
                    Suggested bump:  major → v2.0.0\n\
                    \n\
                    Commits since v1.2.3:\n  \
                    feat: add auth\n  \
                    fix!: typo  [BREAKING]\n  \
                    fix: more\n\
                    \n\
                    Breakdown: 2 fix, 1 feat → major\n";
    assert_eq!(out, expected);
    assert!(out.contains(&format_ci(&r, "v")));
}

#[test]
fn full_report_without_tag_or_commits() {
    let r = result_of(None, &["chore: init"]);
    let out = format_full(&r, "v", false);
    assert!(out.contains("Current version: none (assuming 0.0.0)\n"));
    assert!(out.contains("Suggested bump:  minor → v0.1.0\n"));
    assert!(out.contains("\nCommits since beginning:\n  chore: init\n"));
    assert!(out.contains("Breakdown: 1 chore → minor\n"));

    let r = result_of(Some("2.0.0"), &[]);
    let out = format_full(&r, "", false);
    assert!(out.ends_with("Suggested bump:  patch → 2.0.1\n\nNo new commits since last tag.\n"));
}

#[test]
fn full_report_of_documented_example() {
    let r = result_of(
        Some("v1.4.2"),
        &[
            "feat(auth): add OAuth2 support",
            "fix: handle empty token correctly",
            "chore: update dependencies",
            "docs: expand API reference",
        ],
    );
    let out = format_full(&r, "v", false);
    assert!(out.ends_with(
        "Current version: v1.4.2\n\
         Suggested bump:  minor → v1.5.0\n\
         \n\
         Commits since v1.4.2:\n  \
         feat(auth): add OAuth2 support\n  \
         fix: handle empty token correctly\n  \
         chore: update dependencies\n  \
         docs: expand API reference\n\
         \n\
         Breakdown: 1 feat, 1 fix, 1 chore, 1 docs → minor\n"
    ));
}

#[test]
fn every_type_name_reads_back_as_that_type() {
    let types = [
        CommitType::Feat,
        CommitType::Fix,
        CommitType::Chore,
        CommitType::Docs,
        CommitType::Refactor,
        CommitType::Test,
        CommitType::Ci,
        CommitType::Perf,
        CommitType::Style,
        CommitType::Build,
    ];
    for t in types {
        for d in ["x", "  spaced words \t", "a: b (c)!"] {
            let c = parse_commit(&format!("{}: {}", t.to_string(), d));
            assert_eq!(c.commit_type, t);
            assert!(c.scope.is_none());
            assert!(!c.is_breaking);
            assert_eq!(c.description, d.trim());
        }
    }
}
