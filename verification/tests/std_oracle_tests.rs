//! The library's text handling checked against the standard library's own string
//! functions on tricky inputs.

use tayra::commits::{parse_commit, CommitType};
use tayra::version::SemVer;

const MESSAGES: &[&str] = &[
    "",
    "\n",
    "\n\n",
    "a",
    "a\n",
    "a\r",
    "a\r\n",
    "a\r\nb\r\n",
    "a\n\nb\n\n",
    "\r\n\r\n",
    "x\ry\nz",
    "feat: a\r",
    "  feat(core)!:  spaced out \u{a0}\n\nbody\nBREAKING CHANGE: x",
    "fix(a)(b): y",
    "fix((a): y",
    "fix)a(: y",
    "fix(a)!!: y",
    "fix!(a): y",
    "feat:\u{2003}",
    "\u{85}docs: z\u{85}",
    "chore : spaced colon",
    "tests(x): many\nlines\r\nhere\n",
    "perf: émoji 🚀 text",
    "Revert \"feat: x\"\n\nThis reverts commit abc.",
    "style:x",
    "ci!: y\n\nBREAKING-CHANGE:",
    "build: ok\n BREAKING CHANGE: indented",
];

fn std_type(word: &str) -> Option<CommitType> {
    match word {
        "feat" => Some(CommitType::Feat),
        "fix" => Some(CommitType::Fix),
        "chore" => Some(CommitType::Chore),
        "docs" => Some(CommitType::Docs),
        "refactor" => Some(CommitType::Refactor),
        "test" | "tests" => Some(CommitType::Test),
        "ci" => Some(CommitType::Ci),
        "perf" => Some(CommitType::Perf),
        "style" => Some(CommitType::Style),
        "build" => Some(CommitType::Build),
        _ => None,
    }
}

fn std_prefix(prefix: &str) -> Option<(&str, Option<String>, bool)> {
    let prefix = prefix.trim();
    if prefix.is_empty() {
        return None;
    }
    let (prefix, bang) = match prefix.strip_suffix('!') {
        Some(s) => (s, true),
        None => (prefix, false),
    };
    match prefix.find('(') {
        Some(open) => {
            let word = &prefix[..open];
            let rest = &prefix[open + 1..];
            let close = rest.find(')')?;
            if close + 1 != rest.len() || !word.chars().all(|c| c.is_ascii_alphanumeric()) {
                return None;
            }
            Some((word, Some(rest[..close].to_string()), bang))
        }
        None => {
            if !prefix.chars().all(|c| c.is_ascii_alphanumeric()) {
                return None;
            }
            Some((prefix, None, bang))
        }
    }
}

/// (type, scope, description, breaking, raw message) by the standard library.
fn std_parse(message: &str) -> (CommitType, Option<String>, String, bool, String) {
    let first = message.lines().next().unwrap_or(message).trim();
    let body = message.lines().skip(1).collect::<Vec<_>>().join("\n");
    let breaking = body.contains("BREAKING CHANGE:") || body.contains("BREAKING-CHANGE:");
    if let Some(colon) = first.find(':') {
        let description = first[colon + 1..].trim().to_string();
        if !description.is_empty() {
            if let Some((word, scope, bang)) = std_prefix(&first[..colon]) {
                if let Some(t) = std_type(word) {
                    return (t, scope, description, bang || breaking, format!("{first}\n{body}"));
                }
            }
        }
    }
    (CommitType::Other, None, first.to_string(), breaking, message.to_string())
}

#[test]
fn parse_commit_agrees_with_std_string_functions() {
    for m in MESSAGES {
        let c = parse_commit(m);
        let (t, scope, description, breaking, raw) = std_parse(m);
        assert_eq!(c.commit_type, t, "{m:?}");
        assert_eq!(c.scope, scope, "{m:?}");
        assert_eq!(c.description, description, "{m:?}");
        assert_eq!(c.is_breaking, breaking, "{m:?}");
        assert_eq!(c.raw_message, raw, "{m:?}");
        assert_eq!(
            c.summary(),
            c.raw_message.lines().next().unwrap_or(&c.raw_message),
            "{m:?}"
        );
    }
}

fn std_semver(s: &str) -> Option<SemVer> {
    let s = s.strip_prefix('v').unwrap_or(s);
    let s = match s.find('-') {
        Some(i) => &s[..i],
        None => s,
    };
    let parts: Vec<&str> = s.split('.').collect();
    if parts.len() != 3 {
        return None;
    }
    Some(SemVer::new(
        parts[0].parse().ok()?,
        parts[1].parse().ok()?,
        parts[2].parse().ok()?,
    ))
}

#[test]
fn semver_parse_agrees_with_std_u64_parsing() {
    let inputs = [
        "1.2.3", "v1.2.3", "V1.2.3", "v", "", ".", "..", "1.2.3.", ".1.2.3", "1.2.3-", "1.2-3.4",
        "-1.2.3", "+0.+0.+0", "++0.0.0", "0x1.0.0", "1.2.3+build", "1.2.3-rc.1.2",
        "18446744073709551615.18446744073709551615.18446744073709551615",
        "18446744073709551616.1.1", "99999999999999999999999.1.1", "１.２.３", "1 .2.3",
        "v1.0.0-rc1", "vv1.0.0", "1.02.003",
    ];
    for s in inputs {
        assert_eq!(SemVer::parse(s).ok(), std_semver(s), "{s:?}");
        assert_eq!(s.parse::<SemVer>().ok(), std_semver(s), "{s:?}");
    }
}

#[test]
fn semver_text_agrees_with_std_formatting() {
    for v in [
        SemVer::new(0, 0, 0),
        SemVer::new(10, 200, 3000),
        SemVer::new(u64::MAX, 9, 10),
    ] {
        assert_eq!(v.to_string(), format!("{}.{}.{}", v.major, v.minor, v.patch));
    }
}
