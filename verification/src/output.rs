//! The suggestion: which bump to make and what the next version is, and the
//! reports that show it.

use vstd::prelude::*;

use crate::commits::{
    commit_bump, compute_bump, law_max_bump_is_highest, count_by_type, entry_views, max_bump, type_breakdown, views,
    CommitView, ParsedCommit,
};
use crate::git_ops::AnalysisResult;
use crate::text::{
    count_char, is_ws, law_first_line, law_trim_end_prefix, lemma_count_char_concat,
    lemma_count_char_none, chars_of, contains, decimal, extend_chars, first_line, join, occurs_at, push_decimal,
    string_from, trim_end, trim_end_bound,
};
use crate::version::{
    bumped, can_bump, law_bump_is_later, level_name, rank, semver_lt, version_text, BumpLevel, SemVer,
};

verus! {

/// The version of this tool, shown in the report header.
pub const VERSION: &'static str = "0.1.0";

/// The line under the report header.
pub const SEPARATOR: &'static str = "━━━━━━━━━━━━━━━━━━━━━";

/// The version the analysis starts from: the latest tag's, or 0.0.0.
pub open spec fn current_of(result: AnalysisResult) -> SemVer {
    match result.current_version {
        Some(t) => t.version,
        None => SemVer { major: 0, minor: 0, patch: 0 },
    }
}

/// The bump to make: patch where there are no commits; minor where the current
/// version is 0.0.0 and the commits ask for no more than a patch; else the highest
/// bump level across the commits.
pub open spec fn effective_bump(result: AnalysisResult) -> BumpLevel {
    let cs = views(result.commits@);
    if cs.len() == 0 {
        BumpLevel::Patch
    } else if current_of(result) == (SemVer { major: 0, minor: 0, patch: 0 }) && max_bump(cs)
        == BumpLevel::Patch {
        BumpLevel::Minor
    } else {
        max_bump(cs)
    }
}

/// The suggested next version.
pub open spec fn suggested_of(result: AnalysisResult) -> SemVer {
    bumped(current_of(result), effective_bump(result))
}

/// Whether the suggested bump can be made without the bumped component overflowing.
pub open spec fn can_suggest(result: AnalysisResult) -> bool {
    can_bump(current_of(result), effective_bump(result))
}

/// The version the analysis starts from, and the bump to make.
fn current_and_bump(result: &AnalysisResult) -> (r: (SemVer, BumpLevel))
    ensures
        r.0 == current_of(*result),
        r.1 == effective_bump(*result),
{
    let current = match &result.current_version {
        Some(vt) => vt.version,
        None => SemVer::zero(),
    };
    if result.commits.len() == 0 {
        return (current, BumpLevel::Patch);
    }
    let raw_bump = compute_bump(result.commits.as_slice());
    let is_zero = current.major == 0 && current.minor == 0 && current.patch == 0;
    let is_patch = match raw_bump {
        BumpLevel::Patch => true,
        _ => false,
    };
    let effective = if is_zero && is_patch {
        BumpLevel::Minor
    } else {
        raw_bump
    };
    (current, effective)
}

/// Whether the suggested bump can be made: the component it increments is below
/// `u64::MAX`. The functions that compute the suggestion require it.
pub fn can_suggest_next(result: &AnalysisResult) -> (b: bool)
    ensures
        b == can_suggest(*result),
{
    let (current, bump) = current_and_bump(result);
    match bump {
        BumpLevel::Major => current.major < u64::MAX,
        BumpLevel::Minor => current.minor < u64::MAX,
        BumpLevel::Patch => current.patch < u64::MAX,
    }
}

/// Compute (bump_level, suggested_version) for an analysis result.
///
/// Rules:
/// - No commits → patch bump from current (or 0.0.0 → 0.0.1).
/// - Current == 0.0.0 and any non-breaking commits → minor bump (0.0.0 → 0.1.0).
/// - Otherwise → highest bump level across commits.
pub fn compute_bump_and_version(result: &AnalysisResult) -> (r: (BumpLevel, SemVer))
    requires
        can_suggest(*result),
    ensures
        r.0 == effective_bump(*result),
        r.1 == suggested_of(*result),
{
    let (current, effective) = current_and_bump(result);
    (effective, current.bump(effective))
}

/// Format the CI-friendly output (just the version string).
pub fn format_ci(result: &AnalysisResult, prefix: &str) -> (s: String)
    requires
        can_suggest(*result),
    ensures
        s@ == prefix@ + version_text(suggested_of(*result)),
{
    let (_, suggested) = compute_bump_and_version(result);
    let mut v: Vec<char> = Vec::new();
    extend_chars(&mut v, prefix);
    push_version(&mut v, &suggested);
    string_from(v.as_slice())
}

/// Compute the suggested next version.
pub fn compute_suggested(result: &AnalysisResult) -> (v: SemVer)
    requires
        can_suggest(*result),
    ensures
        v == suggested_of(*result),
{
    compute_bump_and_version(result).1
}

/// Appends the text of a version.
fn push_version(out: &mut Vec<char>, v: &SemVer)
    ensures
        final(out)@ == old(out)@ + version_text(*v),
{
    let ghost start = out@;
    push_decimal(out, v.major);
    out.push('.');
    push_decimal(out, v.minor);
    out.push('.');
    push_decimal(out, v.patch);
    proof {
        assert(out@ =~= start + version_text(*v));
    }
}


/// How the report names the current version: the tag, or that there is none.
pub open spec fn current_display(result: AnalysisResult) -> Seq<char> {
    match result.current_version {
        Some(t) => t.tag_name@,
        None => "none (assuming 0.0.0)"@,
    }
}

/// Where the report's list of commits starts: at the tag, or at the beginning.
pub open spec fn since_display(result: AnalysisResult) -> Seq<char> {
    match result.current_version {
        Some(t) => t.tag_name@,
        None => "beginning"@,
    }
}

/// The report line of one commit: its first line without trailing whitespace,
/// marked when verbose and breaking.
pub open spec fn commit_line(c: CommitView, verbose: bool) -> Seq<char> {
    "  "@ + trim_end(first_line(c.raw_message)) + if verbose && c.is_breaking {
        "  [BREAKING]\n"@
    } else {
        "\n"@
    }
}

/// The report lines of the commits, in order.
pub open spec fn commit_lines(cs: Seq<CommitView>, verbose: bool) -> Seq<char>
    decreases cs.len(),
{
    if cs.len() == 0 {
        seq![]
    } else {
        commit_lines(cs.drop_last(), verbose) + commit_line(cs.last(), verbose)
    }
}

/// One breakdown entry: the count, a space, the type name.
pub open spec fn entry_text(e: (Seq<char>, nat)) -> Seq<char> {
    decimal(e.1) + " "@ + e.0
}

/// The breakdown entries, separated by commas.
pub open spec fn breakdown_text(entries: Seq<(Seq<char>, nat)>) -> Seq<char> {
    join(entries.map_values(|e: (Seq<char>, nat)| entry_text(e)), ", "@)
}

/// The head of the report: the tool line, the current version, the suggested bump.
pub open spec fn report_head(result: AnalysisResult, prefix: Seq<char>) -> Seq<char> {
    "tayra v"@ + VERSION@ + "\n"@ + SEPARATOR@ + "\n"@ + "Current version: "@ + current_display(
        result,
    ) + "\n"@ + "Suggested bump:  "@ + level_name(effective_bump(result)) + " → "@ + prefix
        + version_text(suggested_of(result)) + "\n"@
}

/// The rest of the report: the commits and their breakdown, or that there are none.
pub open spec fn report_tail(result: AnalysisResult, verbose: bool) -> Seq<char> {
    let cs = views(result.commits@);
    if cs.len() > 0 {
        "\nCommits since "@ + since_display(result) + ":\n"@ + commit_lines(cs, verbose)
            + "\nBreakdown: "@ + breakdown_text(type_breakdown(cs)) + " → "@ + level_name(
            effective_bump(result),
        ) + "\n"@
    } else {
        "\nNo new commits since last tag.\n"@
    }
}

/// The full human-readable report.
pub open spec fn full_report(result: AnalysisResult, prefix: Seq<char>, verbose: bool) -> Seq<char> {
    report_head(result, prefix) + report_tail(result, verbose)
}

/// Appends the report lines of the commits.
fn push_commit_lines(out: &mut Vec<char>, commits: &Vec<ParsedCommit>, verbose: bool)
    ensures
        final(out)@ == old(out)@ + commit_lines(views(commits@), verbose),
{
    let ghost start = out@;
    let ghost cs = views(commits@);
    let mut i: usize = 0;
    while i < commits.len()
        invariant
            cs == views(commits@),
            0 <= i <= commits@.len(),
            out@ == start + commit_lines(cs.take(i as int), verbose),
        decreases commits@.len() - i,
    {
        let commit = &commits[i];
        let summary = commit.summary();
        let v = chars_of(summary);
        let end = trim_end_bound(v.as_slice(), 0, v.len());
        let ghost before = out@;
        extend_chars(out, "  ");
        let mut k: usize = 0;
        while k < end
            invariant
                0 <= k <= end <= v@.len(),
                out@ == before + "  "@ + v@.subrange(0, k as int),
            decreases end - k,
        {
            out.push(v[k]);
            proof {
                assert(v@.subrange(0, k + 1) =~= v@.subrange(0, k as int).push(v@[k as int]));
            }
            k = k + 1;
        }
        if verbose && commit.is_breaking {
            extend_chars(out, "  [BREAKING]\n");
        } else {
            extend_chars(out, "\n");
        }
        proof {
            assert(v@.subrange(0, v@.len() as int) =~= v@);
            let t = cs.take(i + 1);
            assert(t.drop_last() =~= cs.take(i as int));
            assert(t.last() == commit@);
            assert(out@ =~= start + commit_lines(cs.take(i + 1), verbose));
        }
        i = i + 1;
    }
    proof {
        assert(cs.take(i as int) =~= cs);
    }
}

/// Appends the breakdown entries, separated by commas.
fn push_breakdown(out: &mut Vec<char>, counts: &Vec<(String, usize)>)
    ensures
        final(out)@ == old(out)@ + breakdown_text(entry_views(counts@)),
{
    let ghost start = out@;
    let ghost es = entry_views(counts@);
    let ghost texts = es.map_values(|e: (Seq<char>, nat)| entry_text(e));
    let mut i: usize = 0;
    while i < counts.len()
        invariant
            es == entry_views(counts@),
            texts == es.map_values(|e: (Seq<char>, nat)| entry_text(e)),
            0 <= i <= counts@.len(),
            out@ == start + join(texts.take(i as int), ", "@),
        decreases counts@.len() - i,
    {
        let ghost before = out@;
        if i > 0 {
            extend_chars(out, ", ");
        }
        let ghost mid = out@;
        let (name, count) = (&counts[i].0, counts[i].1);
        push_decimal(out, count as u64);
        extend_chars(out, " ");
        extend_chars(out, name.as_str());
        proof {
            assert(es[i as int] == (name@, count as nat));
            assert(out@ =~= mid + entry_text(es[i as int]));
            let t = texts.take(i + 1);
            assert(t.drop_last() =~= texts.take(i as int));
            assert(t.last() == entry_text(es[i as int]));
            if i == 0 {
                assert(texts.take(i as int).len() == 0);
                assert(mid == start);
            }
            assert(out@ =~= start + join(texts.take(i + 1), ", "@));
        }
        i = i + 1;
    }
    proof {
        assert(texts.take(i as int) =~= texts);
    }
}

/// Appends the head of the report.
fn push_head(
    out: &mut Vec<char>,
    result: &AnalysisResult,
    prefix: &str,
    bump: BumpLevel,
    suggested: SemVer,
)
    requires
        bump == effective_bump(*result),
        suggested == suggested_of(*result),
    ensures
        final(out)@ == old(out)@ + report_head(*result, prefix@),
{
    let ghost start = out@;
    extend_chars(out, "tayra v");
    extend_chars(out, VERSION);
    extend_chars(out, "\n");
    extend_chars(out, SEPARATOR);
    extend_chars(out, "\n");
    extend_chars(out, "Current version: ");
    match &result.current_version {
        Some(vt) => extend_chars(out, vt.tag_name.as_str()),
        None => extend_chars(out, "none (assuming 0.0.0)"),
    }
    extend_chars(out, "\n");
    let ghost mid = out@;
    extend_chars(out, "Suggested bump:  ");
    let name = bump.to_string();
    extend_chars(out, name.as_str());
    extend_chars(out, " → ");
    extend_chars(out, prefix);
    push_version(out, &suggested);
    extend_chars(out, "\n");
    proof {
        assert(mid =~= start + "tayra v"@ + VERSION@ + "\n"@ + SEPARATOR@ + "\n"@
            + "Current version: "@ + current_display(*result) + "\n"@);
        assert(out@ =~= start + report_head(*result, prefix@));
    }
}

/// Appends the rest of the report.
fn push_tail(out: &mut Vec<char>, result: &AnalysisResult, verbose: bool, bump: BumpLevel)
    requires
        bump == effective_bump(*result),
    ensures
        final(out)@ == old(out)@ + report_tail(*result, verbose),
{
    let ghost start = out@;
    if result.commits.len() > 0 {
        extend_chars(out, "\nCommits since ");
        match &result.current_version {
            Some(vt) => extend_chars(out, vt.tag_name.as_str()),
            None => extend_chars(out, "beginning"),
        }
        extend_chars(out, ":\n");
        push_commit_lines(out, &result.commits, verbose);
        let ghost mid = out@;
        extend_chars(out, "\nBreakdown: ");
        let counts = count_by_type(result.commits.as_slice());
        push_breakdown(out, &counts);
        extend_chars(out, " → ");
        let name = bump.to_string();
        extend_chars(out, name.as_str());
        extend_chars(out, "\n");
        proof {
            assert(out@ =~= start + report_tail(*result, verbose));
        }
    } else {
        extend_chars(out, "\nNo new commits since last tag.\n");
    }
}

/// Format the full human-readable output.
pub fn format_full(result: &AnalysisResult, prefix: &str, verbose: bool) -> (s: String)
    requires
        can_suggest(*result),
    ensures
        s@ == full_report(*result, prefix@, verbose),
{
    let (bump, suggested) = compute_bump_and_version(result);
    let mut out: Vec<char> = Vec::new();
    push_head(&mut out, result, prefix, bump, suggested);
    push_tail(&mut out, result, verbose, bump);
    proof {
        assert(out@ =~= full_report(*result, prefix@, verbose));
    }
    string_from(out.as_slice())
}


// ----------------------------------------------------------------------
// Laws
// ----------------------------------------------------------------------

/// The suggested version always comes after the current one.
pub proof fn law_suggestion_is_later(result: AnalysisResult)
    requires
        can_suggest(result),
    ensures
        semver_lt(current_of(result), suggested_of(result)),
{
    law_bump_is_later(current_of(result), effective_bump(result));
}

/// From 0.0.0, commits never lead to a 0.0.x version: the first release is at least
/// 0.1.0.
pub proof fn law_first_release_at_least_minor(result: AnalysisResult)
    requires
        can_suggest(result),
        current_of(result) == (SemVer { major: 0, minor: 0, patch: 0 }),
        result.commits@.len() > 0,
    ensures
        suggested_of(result).major > 0 || suggested_of(result).minor > 0,
{
}

/// The full report suggests exactly what the CI output prints.
pub proof fn law_report_shows_ci_output(result: AnalysisResult, prefix: Seq<char>, verbose: bool)
    ensures
        contains(full_report(result, prefix, verbose), prefix + version_text(suggested_of(result))),
{
    let r = full_report(result, prefix, verbose);
    let before = "tayra v"@ + VERSION@ + "\n"@ + SEPARATOR@ + "\n"@ + "Current version: "@
        + current_display(result) + "\n"@ + "Suggested bump:  "@ + level_name(
        effective_bump(result),
    ) + " → "@;
    let shown = prefix + version_text(suggested_of(result));
    assert(r =~= before + shown + ("\n"@ + report_tail(result, verbose)));
    assert(r.subrange(before.len() as int, before.len() + shown.len() as int) =~= shown);
    assert(occurs_at(r, shown, before.len() as int));
}

/// The bump follows the commits: with none, a patch; from a version other than 0.0.0,
/// the highest bump across the commits; from 0.0.0, that highest bump, raised from a
/// patch to a minor. So a tag 1.0.0 with only patch-level commits suggests 1.0.1.
pub proof fn law_bump_follows_commits(result: AnalysisResult)
    ensures
        result.commits@.len() == 0 ==> effective_bump(result) == BumpLevel::Patch,
        result.commits@.len() > 0 && current_of(result) != (SemVer { major: 0, minor: 0, patch: 0 })
            ==> effective_bump(result) == max_bump(views(result.commits@)),
        result.commits@.len() > 0 && current_of(result) == (SemVer { major: 0, minor: 0, patch: 0 })
            ==> effective_bump(result) == (if max_bump(views(result.commits@)) == BumpLevel::Patch {
            BumpLevel::Minor
        } else {
            max_bump(views(result.commits@))
        }),
        forall|i: int|
            0 <= i < result.commits@.len() ==> rank(commit_bump(#[trigger] result.commits@[i]@))
                <= rank(effective_bump(result)),
        suggested_of(result) == bumped(current_of(result), effective_bump(result)),
{
    let cs = views(result.commits@);
    law_max_bump_is_highest(cs);
    assert forall|i: int| 0 <= i < result.commits@.len() implies rank(
        commit_bump(#[trigger] result.commits@[i]@),
    ) <= rank(effective_bump(result)) by {
        assert(cs[i] == result.commits@[i]@);
    }
}

/// Each commit takes one line of the report: the indent, then the commit's first line
/// with only its trailing whitespace dropped, then the breaking marker where verbose,
/// then one `\n`, the only one in the line.
pub proof fn law_commit_line_is_one_line(c: CommitView, verbose: bool)
    ensures
        ({
            let line = commit_line(c, verbose);
            let f = first_line(c.raw_message);
            &&& line.len() > 2
            &&& line.last() == '\n'
            &&& forall|i: int| 0 <= i < line.len() - 1 ==> line[i] != '\n'
            &&& line.take(2) == seq![' ', ' ']
            &&& exists|n: int|
                0 <= n <= f.len() && line.subrange(2, 2 + n) == f.take(n) && (forall|i: int|
                    n <= i < f.len() ==> is_ws(#[trigger] f[i])) && line.skip(2 + n) == (if verbose
                    && c.is_breaking {
                    "  [BREAKING]\n"@
                } else {
                    "\n"@
                })
        }),
{
    reveal_strlit("  ");
    reveal_strlit("\n");
    reveal_strlit("  [BREAKING]\n");
    let f = first_line(c.raw_message);
    law_first_line(c.raw_message);
    law_trim_end_prefix(f);
    let t = trim_end(f);
    let n = t.len() as int;
    let tail = if verbose && c.is_breaking {
        "  [BREAKING]\n"@
    } else {
        "\n"@
    };
    let line = commit_line(c, verbose);
    assert(line =~= seq![' ', ' '] + t + tail);
    assert(line.subrange(2, 2 + n) =~= f.take(n));
    assert(line.skip(2 + n) =~= tail);
    assert(line.take(2) =~= seq![' ', ' ']);
    assert forall|i: int| 0 <= i < line.len() - 1 implies line[i] != '\n' by {
        if 2 <= i < 2 + n {
            assert(line[i] == f[i - 2]);
        } else if i >= 2 + n {
            assert(line[i] == tail[i - 2 - n]);
        }
    }
}

/// The commit list of the report has exactly one line per commit.
pub proof fn law_commit_lines_count(cs: Seq<CommitView>, verbose: bool)
    ensures
        count_char(commit_lines(cs, verbose), '\n') == cs.len(),
    decreases cs.len(),
{
    if cs.len() > 0 {
        law_commit_lines_count(cs.drop_last(), verbose);
        let line = commit_line(cs.last(), verbose);
        law_commit_line_is_one_line(cs.last(), verbose);
        lemma_count_char_concat(commit_lines(cs.drop_last(), verbose), line, '\n');
        lemma_count_char_none(line.drop_last(), '\n');
        assert(line =~= line.drop_last() + seq!['\n']);
        lemma_count_char_concat(line.drop_last(), seq!['\n'], '\n');
        assert(seq!['\n'].drop_last() =~= Seq::<char>::empty());
    }
}

} // verus!
