//! Conventional Commits: parsing commit messages, and what they imply for the
//! next version.

use vstd::prelude::*;

use crate::text::{
    all_alnum, all_alnum_in, chars_of, contains, contains_chars, find_char, first_index,
    first_line, first_non_ws, is_alnum, is_ws, join, join_ranges, lemma_first_index_at,
    lemma_trim_end_at, lemma_trim_start_at, line_ranges, lines, non_ws_end, pieces, range_equals,
    string_from, trim, trim_bounds,
};
use crate::version::{higher_level, max_level, rank, BumpLevel};

verus! {

/// The type of a conventional commit.
#[derive(Debug, Clone, Copy, PartialEq, Eq, Structural, Hash)]
pub enum CommitType {
    Feat,
    Fix,
    Chore,
    Docs,
    Refactor,
    Test,
    Ci,
    Perf,
    Style,
    Build,
    Other,
}

/// The name of a commit type, as it is displayed.
pub open spec fn kind_name(t: CommitType) -> Seq<char> {
    match t {
        CommitType::Feat => "feat"@,
        CommitType::Fix => "fix"@,
        CommitType::Chore => "chore"@,
        CommitType::Docs => "docs"@,
        CommitType::Refactor => "refactor"@,
        CommitType::Test => "test"@,
        CommitType::Ci => "ci"@,
        CommitType::Perf => "perf"@,
        CommitType::Style => "style"@,
        CommitType::Build => "build"@,
        CommitType::Other => "other"@,
    }
}

/// The bump level that a commit type implies by itself: minor for a feature,
/// patch for anything else.
pub open spec fn type_bump(t: CommitType) -> BumpLevel {
    match t {
        CommitType::Feat => BumpLevel::Minor,
        _ => BumpLevel::Patch,
    }
}

/// The commit type that a conventional-commit type word names, if any.
pub open spec fn type_of_word(w: Seq<char>) -> Option<CommitType> {
    if w == "feat"@ {
        Some(CommitType::Feat)
    } else if w == "fix"@ {
        Some(CommitType::Fix)
    } else if w == "chore"@ {
        Some(CommitType::Chore)
    } else if w == "docs"@ {
        Some(CommitType::Docs)
    } else if w == "refactor"@ {
        Some(CommitType::Refactor)
    } else if w == "test"@ || w == "tests"@ {
        Some(CommitType::Test)
    } else if w == "ci"@ {
        Some(CommitType::Ci)
    } else if w == "perf"@ {
        Some(CommitType::Perf)
    } else if w == "style"@ {
        Some(CommitType::Style)
    } else if w == "build"@ {
        Some(CommitType::Build)
    } else {
        None
    }
}

impl CommitType {
    /// The name of this commit type.
    pub fn to_string(&self) -> (s: String)
        ensures
            s@ == kind_name(*self),
    {
        match self {
            CommitType::Feat => "feat".to_owned(),
            CommitType::Fix => "fix".to_owned(),
            CommitType::Chore => "chore".to_owned(),
            CommitType::Docs => "docs".to_owned(),
            CommitType::Refactor => "refactor".to_owned(),
            CommitType::Test => "test".to_owned(),
            CommitType::Ci => "ci".to_owned(),
            CommitType::Perf => "perf".to_owned(),
            CommitType::Style => "style".to_owned(),
            CommitType::Build => "build".to_owned(),
            CommitType::Other => "other".to_owned(),
        }
    }

    /// The bump level implied by this commit type alone (ignoring breaking changes).
    pub fn bump_level(self) -> (r: BumpLevel)
        ensures
            r == type_bump(self),
    {
        match self {
            CommitType::Feat => BumpLevel::Minor,
            _ => BumpLevel::Patch,
        }
    }
}

/// A parsed conventional commit.
#[derive(Debug, Clone)]
pub struct ParsedCommit {
    pub commit_type: CommitType,
    pub scope: Option<String>,
    pub description: String,
    pub is_breaking: bool,
    pub raw_message: String,
}

/// What a parsed commit holds, with its texts as character sequences.
pub struct CommitView {
    pub commit_type: CommitType,
    pub scope: Option<Seq<char>>,
    pub description: Seq<char>,
    pub is_breaking: bool,
    pub raw_message: Seq<char>,
}

impl View for ParsedCommit {
    type V = CommitView;

    open spec fn view(&self) -> CommitView {
        CommitView {
            commit_type: self.commit_type,
            scope: match self.scope {
                Some(s) => Some(s@),
                None => None,
            },
            description: self.description@,
            is_breaking: self.is_breaking,
            raw_message: self.raw_message@,
        }
    }
}

/// The views of a sequence of parsed commits.
pub open spec fn views(cs: Seq<ParsedCommit>) -> Seq<CommitView> {
    cs.map_values(|c: ParsedCommit| c@)
}

/// The bump level of one commit: major for a breaking change, else that of its type.
pub open spec fn commit_bump(c: CommitView) -> BumpLevel {
    if c.is_breaking {
        BumpLevel::Major
    } else {
        type_bump(c.commit_type)
    }
}

/// The body of a message: its lines after the first, joined by `\n`.
pub open spec fn body_of(m: Seq<char>) -> Seq<char> {
    if lines(m).len() == 0 {
        seq![]
    } else {
        join(lines(m).drop_first(), seq!['\n'])
    }
}

/// Whether a message body announces a breaking change.
pub open spec fn breaking_in_body(body: Seq<char>) -> bool {
    contains(body, "BREAKING CHANGE:"@) || contains(body, "BREAKING-CHANGE:"@)
}

/// The prefix of a conventional-commit header, the part before its first colon:
/// `type`, an optional `(scope)`, an optional `!`. Gives the type word, the scope
/// and whether the `!` is there.
pub open spec fn parse_prefix(prefix: Seq<char>) -> Option<(Seq<char>, Option<Seq<char>>, bool)> {
    let p = trim(prefix);
    if p.len() == 0 {
        None
    } else {
        let bang = p.last() == '!';
        let q = if bang {
            p.drop_last()
        } else {
            p
        };
        let open = first_index(q, '(');
        if open >= 0 {
            let word = q.take(open);
            let rest = q.skip(open + 1);
            let close = first_index(rest, ')');
            if close < 0 {
                None
            } else if close + 1 != rest.len() {
                None
            } else if !all_alnum(word) {
                None
            } else {
                Some((word, Some(rest.take(close)), bang))
            }
        } else if !all_alnum(q) {
            None
        } else {
            Some((q, None, bang))
        }
    }
}

/// A header `type(scope)!: description` read as a conventional commit, if it is one.
/// The raw message becomes the header, `\n` and the body.
pub open spec fn conventional(header: Seq<char>, body: Seq<char>, breaking: bool) -> Option<
    CommitView,
> {
    let colon = first_index(header, ':');
    if colon < 0 {
        None
    } else {
        let description = trim(header.skip(colon + 1));
        if description.len() == 0 {
            None
        } else {
            match parse_prefix(header.take(colon)) {
                None => None,
                Some((word, scope, bang)) => match type_of_word(word) {
                    None => None,
                    Some(t) => Some(
                        CommitView {
                            commit_type: t,
                            scope,
                            description,
                            is_breaking: bang || breaking,
                            raw_message: header + seq!['\n'] + body,
                        },
                    ),
                },
            }
        }
    }
}

/// The commit that a message is: conventional where its trimmed first line reads as
/// one, else of type `Other` with that line as description and the message kept as
/// it is. A `BREAKING CHANGE:` or `BREAKING-CHANGE:` in the body marks it breaking.
pub open spec fn commit_of_message(m: Seq<char>) -> CommitView {
    let header = trim(first_line(m));
    let body = body_of(m);
    let breaking = breaking_in_body(body);
    match conventional(header, body, breaking) {
        Some(c) => c,
        None => CommitView {
            commit_type: CommitType::Other,
            scope: None,
            description: header,
            is_breaking: breaking,
            raw_message: m,
        },
    }
}


/// The commit type that the word `v[lo..hi]` names, if any.
fn type_of_range(v: &[char], lo: usize, hi: usize) -> (r: Option<CommitType>)
    requires
        lo <= hi <= v@.len(),
    ensures
        r == type_of_word(v@.subrange(lo as int, hi as int)),
{
    if range_equals(v, lo, hi, "feat") {
        Some(CommitType::Feat)
    } else if range_equals(v, lo, hi, "fix") {
        Some(CommitType::Fix)
    } else if range_equals(v, lo, hi, "chore") {
        Some(CommitType::Chore)
    } else if range_equals(v, lo, hi, "docs") {
        Some(CommitType::Docs)
    } else if range_equals(v, lo, hi, "refactor") {
        Some(CommitType::Refactor)
    } else if range_equals(v, lo, hi, "test") || range_equals(v, lo, hi, "tests") {
        Some(CommitType::Test)
    } else if range_equals(v, lo, hi, "ci") {
        Some(CommitType::Ci)
    } else if range_equals(v, lo, hi, "perf") {
        Some(CommitType::Perf)
    } else if range_equals(v, lo, hi, "style") {
        Some(CommitType::Style)
    } else if range_equals(v, lo, hi, "build") {
        Some(CommitType::Build)
    } else {
        None
    }
}

/// The prefix `v[lo..hi]` of a header, read as `parse_prefix` says: the range of the
/// type word, the range of the scope, and whether a `!` ends it.
fn parse_prefix_range(v: &[char], lo: usize, hi: usize) -> (r: Option<
    (usize, usize, Option<(usize, usize)>, bool),
>)
    requires
        lo <= hi <= v@.len(),
    ensures
        match parse_prefix(v@.subrange(lo as int, hi as int)) {
            None => r is None,
            Some((word, scope, bang)) => r matches Some((wl, wh, sr, b)) && wl <= wh <= v@.len()
                && v@.subrange(wl as int, wh as int) == word && b == bang && match scope {
                None => sr is None,
                Some(sc) => sr matches Some((sl, sh)) && sl <= sh <= v@.len() && v@.subrange(
                    sl as int,
                    sh as int,
                ) == sc,
            },
        },
{
    let ghost prefix = v@.subrange(lo as int, hi as int);
    let (a, b) = trim_bounds(v, lo, hi);
    if a == b {
        return None;
    }
    let bang = v[b - 1] == '!';
    let qh = if bang {
        b - 1
    } else {
        b
    };
    let ghost p = trim(prefix);
    let ghost q = v@.subrange(a as int, qh as int);
    proof {
        assert(p == v@.subrange(a as int, b as int));
        assert(p.last() == v@[b - 1]);
        if bang {
            assert(p.drop_last() =~= q);
        } else {
            assert(p =~= q);
        }
    }
    match find_char(v, a, qh, '(') {
        Some(o) => {
            proof {
                assert(q.take(o - a) =~= v@.subrange(a as int, o as int));
                assert(q.skip(o - a + 1) =~= v@.subrange(o + 1, qh as int));
            }
            match find_char(v, o + 1, qh, ')') {
                Some(e) => {
                    if e + 1 != qh {
                        return None;
                    }
                    if !all_alnum_in(v, a, o) {
                        return None;
                    }
                    proof {
                        assert(v@.subrange(o + 1, qh as int).take(e - (o + 1)) =~= v@.subrange(
                            o + 1,
                            e as int,
                        ));
                    }
                    Some((a, o, Some((o + 1, e)), bang))
                },
                None => None,
            }
        },
        None => {
            if !all_alnum_in(v, a, qh) {
                return None;
            }
            Some((a, qh, None, bang))
        },
    }
}

/// The characters of `v[lo..hi]`.
fn copy_range(v: &[char], lo: usize, hi: usize) -> (out: Vec<char>)
    requires
        lo <= hi <= v@.len(),
    ensures
        out@ == v@.subrange(lo as int, hi as int),
{
    let mut out: Vec<char> = Vec::new();
    let mut k = lo;
    while k < hi
        invariant
            lo <= k <= hi <= v@.len(),
            out@ == v@.subrange(lo as int, k as int),
        decreases hi - k,
    {
        out.push(v[k]);
        proof {
            assert(v@.subrange(lo as int, k + 1) =~= v@.subrange(lo as int, k as int).push(
                v@[k as int],
            ));
        }
        k = k + 1;
    }
    out
}

/// The header `v[lo..hi]`, with the given body, read as a conventional commit.
fn try_parse_conventional(v: &[char], lo: usize, hi: usize, body: &Vec<char>, breaking: bool) -> (r:
    Option<ParsedCommit>)
    requires
        lo <= hi <= v@.len(),
    ensures
        match conventional(v@.subrange(lo as int, hi as int), body@, breaking) {
            None => r is None,
            Some(c) => r matches Some(p) && p@ == c,
        },
{
    let ghost header = v@.subrange(lo as int, hi as int);
    let colon = match find_char(v, lo, hi, ':') {
        Some(c) => c,
        None => {
            return None;
        },
    };
    let (dl, dh) = trim_bounds(v, colon + 1, hi);
    proof {
        assert(header.skip(colon - lo + 1) =~= v@.subrange(colon + 1, hi as int));
        assert(header.take(colon - lo) =~= v@.subrange(lo as int, colon as int));
    }
    if dl == dh {
        return None;
    }
    let (wl, wh, scope_range, bang) = match parse_prefix_range(v, lo, colon) {
        Some(x) => x,
        None => {
            return None;
        },
    };
    let commit_type = match type_of_range(v, wl, wh) {
        Some(t) => t,
        None => {
            return None;
        },
    };
    let scope = match scope_range {
        Some((sl, sh)) => Some(string_from(copy_range(v, sl, sh).as_slice())),
        None => None,
    };
    let description = string_from(copy_range(v, dl, dh).as_slice());
    let mut raw = copy_range(v, lo, hi);
    raw.push('\n');
    let mut k: usize = 0;
    let ghost start = raw@;
    while k < body.len()
        invariant
            0 <= k <= body@.len(),
            raw@ == start + body@.take(k as int),
        decreases body@.len() - k,
    {
        raw.push(body[k]);
        proof {
            assert(body@.take(k + 1) =~= body@.take(k as int).push(body@[k as int]));
        }
        k = k + 1;
    }
    proof {
        assert(body@.take(body@.len() as int) =~= body@);
    }
    let raw_message = string_from(raw.as_slice());
    proof {
        assert(raw@ =~= header + seq!['\n'] + body@);
    }
    proof {
        assert(description@ == trim(header.skip(colon - lo + 1)));
    }
    Some(
        ParsedCommit {
            commit_type,
            scope,
            description,
            is_breaking: bang || breaking,
            raw_message,
        },
    )
}

/// Parse a commit message into a ParsedCommit.
pub fn parse_commit(message: &str) -> (c: ParsedCommit)
    ensures
        c@ == commit_of_message(message@),
{
    let v = chars_of(message);
    let ranges = line_ranges(v.as_slice(), 0);
    proof {
        assert(v@.skip(0) =~= v@);
    }
    let (fl, fh) = if ranges.len() > 0 {
        ranges[0]
    } else {
        (0, v.len())
    };
    proof {
        if ranges@.len() > 0 {
            assert(pieces(v@, ranges@)[0] == v@.subrange(fl as int, fh as int));
            assert(ranges@[0].0 <= ranges@[0].1 <= v@.len());
        } else {
            assert(v@.subrange(0, v@.len() as int) =~= v@);
        }
    }
    let (hl, hh) = trim_bounds(v.as_slice(), fl, fh);
    let from: usize = if ranges.len() > 0 {
        1
    } else {
        0
    };
    let body = join_ranges(v.as_slice(), &ranges, from, '\n');
    proof {
        if ranges@.len() > 0 {
            assert(pieces(v@, ranges@).skip(1) =~= lines(v@).drop_first());
        } else {
            assert(pieces(v@, ranges@).skip(0) =~= Seq::<Seq<char>>::empty());
        }
    }
    let breaking = contains_chars(body.as_slice(), chars_of("BREAKING CHANGE:").as_slice())
        || contains_chars(body.as_slice(), chars_of("BREAKING-CHANGE:").as_slice());
    match try_parse_conventional(v.as_slice(), hl, hh, &body, breaking) {
        Some(c) => c,
        None => ParsedCommit {
            commit_type: CommitType::Other,
            scope: None,
            description: string_from(copy_range(v.as_slice(), hl, hh).as_slice()),
            is_breaking: breaking,
            raw_message: message.to_owned(),
        },
    }
}


impl ParsedCommit {
    /// Determine the bump level for this commit.
    pub fn bump_level(&self) -> (r: BumpLevel)
        ensures
            r == commit_bump(self@),
    {
        if self.is_breaking {
            BumpLevel::Major
        } else {
            self.commit_type.bump_level()
        }
    }

    /// Short summary for display (first line of commit).
    pub fn summary(&self) -> (r: &str)
        ensures
            r@ == first_line(self.raw_message@),
    {
        let s = self.raw_message.as_str();
        let v = chars_of(s);
        let ranges = line_ranges(v.as_slice(), 0);
        proof {
            assert(v@.skip(0) =~= v@);
        }
        if ranges.len() > 0 {
            let (a, b) = ranges[0];
            proof {
                assert(pieces(v@, ranges@)[0] == v@.subrange(a as int, b as int));
                assert(ranges@[0].0 <= ranges@[0].1 <= v@.len());
            }
            s.substring_char(a, b)
        } else {
            s
        }
    }
}

/// The highest bump level among commits, patch where there are none.
pub open spec fn max_bump(cs: Seq<CommitView>) -> BumpLevel
    decreases cs.len(),
{
    if cs.len() == 0 {
        BumpLevel::Patch
    } else {
        max_level(max_bump(cs.drop_last()), commit_bump(cs.last()))
    }
}

/// Compute the overall bump level from a list of parsed commits.
pub fn compute_bump(commits: &[ParsedCommit]) -> (r: BumpLevel)
    ensures
        r == max_bump(views(commits@)),
{
    let mut best = BumpLevel::Patch;
    let mut i: usize = 0;
    while i < commits.len()
        invariant
            0 <= i <= commits@.len(),
            best == max_bump(views(commits@).take(i as int)),
        decreases commits@.len() - i,
    {
        let level = commits[i].bump_level();
        proof {
            let t = views(commits@).take(i + 1);
            assert(t.drop_last() =~= views(commits@).take(i as int));
            assert(t.last() == commits@[i as int]@);
        }
        best = higher_level(best, level);
        i = i + 1;
    }
    proof {
        assert(views(commits@).take(i as int) =~= views(commits@));
    }
    best
}


/// How many of the commits have type `t`.
pub open spec fn count_of(cs: Seq<CommitView>, t: CommitType) -> nat
    decreases cs.len(),
{
    if cs.len() == 0 {
        0
    } else {
        count_of(cs.drop_last(), t) + if cs.last().commit_type == t {
            1nat
        } else {
            0nat
        }
    }
}

/// The commit types in the order in which the commits first have them.
pub open spec fn first_seen(cs: Seq<CommitView>) -> Seq<CommitType>
    decreases cs.len(),
{
    if cs.len() == 0 {
        seq![]
    } else {
        let earlier = first_seen(cs.drop_last());
        if earlier.contains(cs.last().commit_type) {
            earlier
        } else {
            earlier.push(cs.last().commit_type)
        }
    }
}

/// Every commit type, each in a slot of its own, for counting.
pub open spec fn type_slots() -> Seq<CommitType> {
    seq![
        CommitType::Build,
        CommitType::Chore,
        CommitType::Ci,
        CommitType::Docs,
        CommitType::Feat,
        CommitType::Fix,
        CommitType::Other,
        CommitType::Perf,
        CommitType::Refactor,
        CommitType::Style,
        CommitType::Test,
    ]
}

/// The types among `types` that exactly `k` commits have, in the order of `types`.
pub open spec fn types_with_count(cs: Seq<CommitView>, types: Seq<CommitType>, k: nat) -> Seq<
    CommitType,
>
    decreases types.len(),
{
    if types.len() == 0 {
        seq![]
    } else {
        let rest = types_with_count(cs, types.drop_last(), k);
        if count_of(cs, types.last()) == k {
            rest.push(types.last())
        } else {
            rest
        }
    }
}

/// The types that between 1 and `k` commits have: most frequent first, types of
/// equal frequency in the order in which they are first seen.
pub open spec fn types_by_count(cs: Seq<CommitView>, k: nat) -> Seq<CommitType>
    decreases k,
{
    if k == 0 {
        seq![]
    } else {
        types_with_count(cs, first_seen(cs), k) + types_by_count(cs, (k - 1) as nat)
    }
}

/// The breakdown entry of a type: its name and how many commits have it.
pub open spec fn entry_of(cs: Seq<CommitView>, t: CommitType) -> (Seq<char>, nat) {
    (kind_name(t), count_of(cs, t))
}

/// For each type that some commit has, its name and how many commits have it:
/// most frequent first, types of equal frequency in the order in which they first
/// appear among the commits.
pub open spec fn type_breakdown(cs: Seq<CommitView>) -> Seq<(Seq<char>, nat)> {
    types_by_count(cs, cs.len()).map_values(|t: CommitType| entry_of(cs, t))
}

/// The entries of a breakdown as character sequences and numbers.
pub open spec fn entry_views(r: Seq<(String, usize)>) -> Seq<(Seq<char>, nat)> {
    r.map_values(|e: (String, usize)| (e.0@, e.1 as nat))
}

/// The slot of the commit type `t`.
fn slot_of(t: CommitType) -> (j: usize)
    ensures
        j < 11,
        type_slots()[j as int] == t,
{
    match t {
        CommitType::Build => 0,
        CommitType::Chore => 1,
        CommitType::Ci => 2,
        CommitType::Docs => 3,
        CommitType::Feat => 4,
        CommitType::Fix => 5,
        CommitType::Other => 6,
        CommitType::Perf => 7,
        CommitType::Refactor => 8,
        CommitType::Style => 9,
        CommitType::Test => 10,
    }
}

/// A type is among those first seen exactly when some commit has it.
proof fn lemma_first_seen_contains(cs: Seq<CommitView>, t: CommitType)
    ensures
        first_seen(cs).contains(t) <==> count_of(cs, t) > 0,
    decreases cs.len(),
{
    if cs.len() > 0 {
        lemma_first_seen_contains(cs.drop_last(), t);
        let earlier = first_seen(cs.drop_last());
        let u = cs.last().commit_type;
        if !earlier.contains(u) {
            let fs = earlier.push(u);
            if earlier.contains(t) {
                let p = choose|p: int| 0 <= p < earlier.len() && earlier[p] == t;
                assert(fs[p] == t);
            }
            if fs.contains(t) && t != u {
                let p = choose|p: int| 0 <= p < fs.len() && fs[p] == t;
                assert(earlier[p] == t);
            }
            if t == u {
                assert(fs[fs.len() - 1] == t);
            }
        }
    }
}

/// Count commits by type, returning a sorted vec of (type_name, count).
pub fn count_by_type(commits: &[ParsedCommit]) -> (r: Vec<(String, usize)>)
    ensures
        entry_views(r@) == type_breakdown(views(commits@)),
{
    let ghost cs = views(commits@);
    let mut counts: Vec<usize> = Vec::new();
    while counts.len() < 11
        invariant
            counts@.len() <= 11,
            forall|j: int| 0 <= j < counts@.len() ==> counts@[j] == 0,
        decreases 11 - counts@.len(),
    {
        counts.push(0);
    }
    let mut order: Vec<CommitType> = Vec::new();
    let mut i: usize = 0;
    proof {
        assert(cs.take(0) =~= Seq::<CommitView>::empty());
    }
    while i < commits.len()
        invariant
            cs == views(commits@),
            0 <= i <= commits@.len(),
            counts@.len() == 11,
            forall|j: int|
                0 <= j < 11 ==> #[trigger] counts@[j] == count_of(
                    cs.take(i as int),
                    type_slots()[j],
                ),
            forall|j: int| 0 <= j < 11 ==> #[trigger] counts@[j] <= i,
            order@ == first_seen(cs.take(i as int)),
        decreases commits@.len() - i,
    {
        let t = commits[i].commit_type;
        let j = slot_of(t);
        proof {
            assert(cs.take(i + 1).drop_last() =~= cs.take(i as int));
            assert(cs.take(i + 1).last() == cs[i as int]);
            lemma_first_seen_contains(cs.take(i as int), t);
        }
        let c = counts[j];
        if c == 0 {
            order.push(t);
        }
        counts.set(j, c + 1);
        i = i + 1;
    }
    proof {
        assert(cs.take(i as int) =~= cs);
    }
    let mut out: Vec<(String, usize)> = Vec::new();
    let mut k: usize = commits.len();
    let ghost mut listed: Seq<CommitType> = seq![];
    proof {
        assert(listed + types_by_count(cs, k as nat) =~= types_by_count(cs, cs.len()));
    }
    while k > 0
        invariant
            cs == views(commits@),
            k <= cs.len(),
            counts@.len() == 11,
            forall|j: int| 0 <= j < 11 ==> #[trigger] counts@[j] == count_of(cs, type_slots()[j]),
            order@ == first_seen(cs),
            entry_views(out@) == listed.map_values(|t: CommitType| entry_of(cs, t)),
            listed + types_by_count(cs, k as nat) == types_by_count(cs, cs.len()),
        decreases k,
    {
        let ghost before = listed;
        let mut j: usize = 0;
        while j < order.len()
            invariant
                0 <= j <= order@.len(),
                0 < k,
                counts@.len() == 11,
                forall|j: int|
                    0 <= j < 11 ==> #[trigger] counts@[j] == count_of(cs, type_slots()[j]),
                listed == before + types_with_count(cs, order@.take(j as int), k as nat),
                entry_views(out@) == listed.map_values(|t: CommitType| entry_of(cs, t)),
            decreases order@.len() - j,
        {
            let t = order[j];
            let s = slot_of(t);
            proof {
                let ts = order@.take(j + 1);
                assert(ts.drop_last() =~= order@.take(j as int));
                assert(ts.last() == t);
            }
            if counts[s] == k {
                let name = t.to_string();
                let ghost prev_out = out@;
                let ghost prev_listed = listed;
                out.push((name, k));
                proof {
                    listed = prev_listed.push(t);
                    assert(entry_views(out@) =~= entry_views(prev_out).push(entry_of(cs, t)));
                    assert(listed.map_values(|t: CommitType| entry_of(cs, t)) =~= prev_listed.map_values(
                        |t: CommitType| entry_of(cs, t),
                    ).push(entry_of(cs, t)));
                    assert(listed =~= before + types_with_count(cs, order@.take(j + 1), k as nat));
                }
            }
            j = j + 1;
        }
        proof {
            assert(order@.take(order@.len() as int) =~= order@);
            assert(listed + types_by_count(cs, (k - 1) as nat) =~= before + types_by_count(
                cs,
                k as nat,
            ));
        }
        k = k - 1;
    }
    proof {
        assert(listed + types_by_count(cs, 0) =~= listed);
    }
    out
}

// ----------------------------------------------------------------------
// Laws
// ----------------------------------------------------------------------

/// The highest bump level across all commits wins: no commit asks for more than
/// `max_bump`, and where there are commits, one of them asks for exactly that.
pub proof fn law_max_bump_is_highest(cs: Seq<CommitView>)
    ensures
        forall|i: int| 0 <= i < cs.len() ==> rank(commit_bump(#[trigger] cs[i])) <= rank(max_bump(cs)),
        cs.len() > 0 ==> exists|i: int| 0 <= i < cs.len() && max_bump(cs) == commit_bump(cs[i]),
        cs.len() == 0 ==> max_bump(cs) == BumpLevel::Patch,
    decreases cs.len(),
{
    if cs.len() > 0 {
        let init = cs.drop_last();
        law_max_bump_is_highest(init);
        assert forall|i: int| 0 <= i < cs.len() implies rank(commit_bump(#[trigger] cs[i])) <= rank(
            max_bump(cs),
        ) by {
            if i < cs.len() - 1 {
                assert(cs[i] == init[i]);
            }
        }
        if max_bump(cs) == commit_bump(cs.last()) {
            assert(max_bump(cs) == commit_bump(cs[cs.len() - 1]));
        } else {
            let j = choose|j: int| 0 <= j < init.len() && max_bump(init) == commit_bump(init[j]);
            assert(max_bump(cs) == commit_bump(cs[j]));
        }
    }
}

/// The overall bump of two runs of commits together is the higher of their bumps:
/// more commits never lower the bump, and order does not matter.
pub proof fn law_max_bump_concat(a: Seq<CommitView>, b: Seq<CommitView>)
    ensures
        max_bump(a + b) == max_level(max_bump(a), max_bump(b)),
    decreases b.len(),
{
    if b.len() == 0 {
        assert(a + b =~= a);
    } else {
        law_max_bump_concat(a, b.drop_last());
        assert((a + b).drop_last() =~= a + b.drop_last());
        assert((a + b).last() == b.last());
    }
}

/// A `BREAKING CHANGE:` or `BREAKING-CHANGE:` in the body makes any commit breaking,
/// so that it asks for a major bump.
pub proof fn law_breaking_body_is_major(m: Seq<char>)
    requires
        breaking_in_body(body_of(m)),
    ensures
        commit_of_message(m).is_breaking,
        commit_bump(commit_of_message(m)) == BumpLevel::Major,
{
}

/// A conventional commit is breaking exactly when its header has the `!` or its body
/// announces a breaking change; a feature asks for minor, any other type for patch.
pub proof fn law_conventional_bump(m: Seq<char>)
    requires
        commit_of_message(m).commit_type != CommitType::Other,
    ensures
        ({
            let header = trim(first_line(m));
            let colon = first_index(header, ':');
            let prefix = parse_prefix(header.take(colon));
            &&& prefix is Some
            &&& commit_of_message(m).is_breaking == (prefix.unwrap().2 || breaking_in_body(
                body_of(m),
            ))
        }),
        commit_bump(commit_of_message(m)) == (if commit_of_message(m).is_breaking {
            BumpLevel::Major
        } else if commit_of_message(m).commit_type == CommitType::Feat {
            BumpLevel::Minor
        } else {
            BumpLevel::Patch
        }),
{
}

/// A message that is not a conventional commit asks for a patch, or for a major bump
/// where its body announces a breaking change.
pub proof fn law_other_bump(m: Seq<char>)
    requires
        commit_of_message(m).commit_type == CommitType::Other,
    ensures
        commit_bump(commit_of_message(m)) == (if breaking_in_body(body_of(m)) {
            BumpLevel::Major
        } else {
            BumpLevel::Patch
        }),
{
    let header = trim(first_line(m));
    let body = body_of(m);
    let breaking = breaking_in_body(body);
    if let Some(c) = conventional(header, body, breaking) {
        assert(type_of_word(parse_prefix(header.take(first_index(header, ':'))).unwrap().0)
            is Some);
    }
}


/// The index of the first commit of type `t`, or -1 where no commit has it.
pub open spec fn first_commit(cs: Seq<CommitView>, t: CommitType) -> int
    decreases cs.len(),
{
    if cs.len() == 0 {
        -1
    } else if count_of(cs.drop_last(), t) > 0 {
        first_commit(cs.drop_last(), t)
    } else if cs.last().commit_type == t {
        cs.len() - 1
    } else {
        -1
    }
}

/// `first_commit` is the position of the first commit of that type.
pub proof fn lemma_first_commit(cs: Seq<CommitView>, t: CommitType)
    ensures
        count_of(cs, t) > 0 ==> {
            &&& 0 <= first_commit(cs, t) < cs.len()
            &&& cs[first_commit(cs, t)].commit_type == t
            &&& forall|j: int| 0 <= j < first_commit(cs, t) ==> (#[trigger] cs[j]).commit_type != t
        },
        count_of(cs, t) == 0 ==> first_commit(cs, t) == -1 && forall|j: int|
            0 <= j < cs.len() ==> (#[trigger] cs[j]).commit_type != t,
    decreases cs.len(),
{
    if cs.len() > 0 {
        let init = cs.drop_last();
        lemma_first_commit(init, t);
        assert forall|j: int| 0 <= j < init.len() implies cs[j] == init[j] by {}
    }
}

/// Whether type `a` is listed before type `b` in the breakdown of `cs`: more commits
/// first, and of equally many, the one whose first commit comes first.
pub open spec fn listed_before(cs: Seq<CommitView>, a: CommitType, b: CommitType) -> bool {
    count_of(cs, a) > count_of(cs, b) || (count_of(cs, a) == count_of(cs, b) && first_commit(
        cs,
        a,
    ) < first_commit(cs, b))
}

/// No type is had by more commits than there are.
proof fn lemma_count_bounded(cs: Seq<CommitView>, t: CommitType)
    ensures
        count_of(cs, t) <= cs.len(),
    decreases cs.len(),
{
    if cs.len() > 0 {
        lemma_count_bounded(cs.drop_last(), t);
    }
}

/// The types first seen are each had by some commit, each seen once, in the order of
/// their first commits; and every type that a commit has is among them.
proof fn lemma_first_seen(cs: Seq<CommitView>)
    ensures
        ({
            let fs = first_seen(cs);
            &&& forall|p: int| 0 <= p < fs.len() ==> count_of(cs, #[trigger] fs[p]) > 0
            &&& forall|p: int, q: int|
                0 <= p < q < fs.len() ==> first_commit(cs, #[trigger] fs[p]) < first_commit(
                    cs,
                    #[trigger] fs[q],
                )
            &&& forall|t: CommitType| #[trigger] count_of(cs, t) > 0 ==> fs.contains(t)
        }),
    decreases cs.len(),
{
    let fs = first_seen(cs);
    assert forall|t: CommitType| #[trigger] count_of(cs, t) > 0 implies fs.contains(t) by {
        lemma_first_seen_contains(cs, t);
    }
    if cs.len() > 0 {
        let init = cs.drop_last();
        let earlier = first_seen(init);
        let u = cs.last().commit_type;
        lemma_first_seen(init);
        assert forall|p: int| 0 <= p < fs.len() implies count_of(cs, #[trigger] fs[p]) > 0 by {
            lemma_first_seen_contains(cs, fs[p]);
            assert(fs.contains(fs[p]));
        }
        assert forall|p: int, q: int| 0 <= p < q < fs.len() implies first_commit(
            cs,
            #[trigger] fs[p],
        ) < first_commit(cs, #[trigger] fs[q]) by {
            lemma_first_commit(init, fs[p]);
            if q < earlier.len() {
                assert(fs[p] == earlier[p] && fs[q] == earlier[q]);
            } else {
                assert(fs[p] == earlier[p]);
                assert(fs[q] == u);
                lemma_first_seen_contains(init, u);
            }
        }
    }
}

/// The types with count `k` among the first `m` of `types`, where `types` is in the
/// order of first commits: each is one of those types and has count `k`, they are in
/// the order of their first commits, and every such type is there.
proof fn lemma_types_with_count(cs: Seq<CommitView>, types: Seq<CommitType>, m: int, k: nat)
    requires
        0 <= m <= types.len(),
        forall|p: int, q: int|
            0 <= p < q < types.len() ==> first_commit(cs, #[trigger] types[p]) < first_commit(
                cs,
                #[trigger] types[q],
            ),
    ensures
        ({
            let x = types_with_count(cs, types.take(m), k);
            &&& forall|i: int|
                0 <= i < x.len() ==> count_of(cs, #[trigger] x[i]) == k && types.take(m).contains(
                    x[i],
                )
            &&& forall|i: int, j: int|
                0 <= i < j < x.len() ==> first_commit(cs, #[trigger] x[i]) < first_commit(
                    cs,
                    #[trigger] x[j],
                )
            &&& forall|p: int|
                0 <= p < m && count_of(cs, #[trigger] types[p]) == k ==> x.contains(types[p])
        }),
    decreases m,
{
    let x = types_with_count(cs, types.take(m), k);
    if m > 0 {
        lemma_types_with_count(cs, types, m - 1, k);
        let tm = types.take(m);
        let prev_types = types.take(m - 1);
        assert(tm.drop_last() =~= prev_types);
        assert(tm.last() == types[m - 1]);
        let prev = types_with_count(cs, prev_types, k);
        assert forall|i: int| 0 <= i < prev.len() implies tm.contains(#[trigger] prev[i]) by {
            let p = choose|p: int| 0 <= p < prev_types.len() && prev_types[p] == prev[i];
            assert(tm[p] == prev[i]);
        }
        if count_of(cs, types[m - 1]) == k {
            assert(x == prev.push(types[m - 1]));
            assert forall|i: int| 0 <= i < x.len() implies count_of(cs, #[trigger] x[i]) == k
                && tm.contains(x[i]) by {
                if i < prev.len() {
                    assert(x[i] == prev[i]);
                } else {
                    assert(tm[m - 1] == x[i]);
                }
            }
            assert forall|i: int, j: int| 0 <= i < j < x.len() implies first_commit(
                cs,
                #[trigger] x[i],
            ) < first_commit(cs, #[trigger] x[j]) by {
                assert(x[i] == prev[i]);
                if j < prev.len() {
                    assert(x[j] == prev[j]);
                } else {
                    let p = choose|p: int| 0 <= p < prev_types.len() && prev_types[p] == prev[i];
                    assert(types[p] == x[i]);
                    assert(x[j] == types[m - 1]);
                }
            }
            assert forall|p: int| 0 <= p < m && count_of(cs, #[trigger] types[p]) == k implies x.contains(
                types[p],
            ) by {
                if p == m - 1 {
                    assert(x[x.len() - 1] == types[p]);
                } else {
                    let i = choose|i: int| 0 <= i < prev.len() && prev[i] == types[p];
                    assert(x[i] == prev[i]);
                }
            }
        } else {
            assert(x == prev);
        }
    }
}

/// The types that between 1 and `k` commits have: each is first seen and has such a
/// count, they are listed by descending count and, for equal counts, by first commit,
/// and every such type is there.
proof fn lemma_types_by_count(cs: Seq<CommitView>, k: nat)
    ensures
        ({
            let y = types_by_count(cs, k);
            let fs = first_seen(cs);
            &&& forall|i: int|
                0 <= i < y.len() ==> 1 <= count_of(cs, #[trigger] y[i]) <= k && fs.contains(y[i])
            &&& forall|i: int, j: int|
                0 <= i < j < y.len() ==> listed_before(cs, #[trigger] y[i], #[trigger] y[j])
            &&& forall|t: CommitType|
                fs.contains(t) && 1 <= #[trigger] count_of(cs, t) <= k ==> y.contains(t)
        }),
    decreases k,
{
    if k > 0 {
        let fs = first_seen(cs);
        lemma_first_seen(cs);
        lemma_types_by_count(cs, (k - 1) as nat);
        lemma_types_with_count(cs, fs, fs.len() as int, k);
        assert(fs.take(fs.len() as int) =~= fs);
        let x = types_with_count(cs, fs, k);
        let rest = types_by_count(cs, (k - 1) as nat);
        let y = types_by_count(cs, k);
        assert(y == x + rest);
        assert forall|i: int| 0 <= i < y.len() implies 1 <= count_of(cs, #[trigger] y[i]) <= k
            && fs.contains(y[i]) by {
            if i < x.len() {
                assert(y[i] == x[i]);
            } else {
                assert(y[i] == rest[i - x.len()]);
            }
        }
        assert forall|i: int, j: int| 0 <= i < j < y.len() implies listed_before(
            cs,
            #[trigger] y[i],
            #[trigger] y[j],
        ) by {
            if j < x.len() {
                assert(y[i] == x[i] && y[j] == x[j]);
            } else if i < x.len() {
                assert(y[i] == x[i] && y[j] == rest[j - x.len()]);
            } else {
                assert(y[i] == rest[i - x.len()] && y[j] == rest[j - x.len()]);
            }
        }
        assert forall|t: CommitType| fs.contains(t) && 1 <= #[trigger] count_of(cs, t) <= k implies y.contains(
            t,
        ) by {
            if count_of(cs, t) == k {
                let p = choose|p: int| 0 <= p < fs.len() && fs[p] == t;
                assert(count_of(cs, fs[p]) == k);
                let i = choose|i: int| 0 <= i < x.len() && x[i] == fs[p];
                assert(y[i] == x[i]);
            } else {
                let i = choose|i: int| 0 <= i < rest.len() && rest[i] == t;
                assert(y[i + x.len()] == rest[i]);
            }
        }
    }
}

/// The types of the breakdown, in its order.
pub open spec fn breakdown_types(cs: Seq<CommitView>) -> Seq<CommitType> {
    types_by_count(cs, cs.len())
}

/// What `count_by_type` promises: one entry, its name and count, for each type that
/// some commit has; most frequent first, and equally frequent types in the order in
/// which their first commits come.
pub proof fn law_type_breakdown(cs: Seq<CommitView>)
    ensures
        ({
            let ts = breakdown_types(cs);
            &&& type_breakdown(cs) == ts.map_values(|t: CommitType| entry_of(cs, t))
            &&& forall|i: int| 0 <= i < ts.len() ==> count_of(cs, #[trigger] ts[i]) > 0
            &&& forall|t: CommitType| #[trigger] count_of(cs, t) > 0 ==> ts.contains(t)
            &&& forall|i: int, j: int|
                0 <= i < j < ts.len() ==> listed_before(cs, #[trigger] ts[i], #[trigger] ts[j])
        }),
{
    lemma_types_by_count(cs, cs.len());
    lemma_first_seen(cs);
    assert forall|t: CommitType| #[trigger] count_of(cs, t) > 0 implies breakdown_types(
        cs,
    ).contains(t) by {
        lemma_count_bounded(cs, t);
    }
}

/// The name of every type but `Other` is a non-empty word of ASCII letters that
/// `type_of_word` reads back as that type.
proof fn lemma_kind_name_word(t: CommitType)
    requires
        t != CommitType::Other,
    ensures
        kind_name(t).len() > 0,
        forall|i: int| 0 <= i < kind_name(t).len() ==> is_alnum(#[trigger] kind_name(t)[i]),
        type_of_word(kind_name(t)) == Some(t),
{
    reveal_strlit("build");
    reveal_strlit("chore");
    reveal_strlit("ci");
    reveal_strlit("docs");
    reveal_strlit("feat");
    reveal_strlit("fix");
    reveal_strlit("perf");
    reveal_strlit("refactor");
    reveal_strlit("style");
    reveal_strlit("test");
    reveal_strlit("tests");
    let n = kind_name(t);
    let words = seq![
        "feat"@,
        "fix"@,
        "chore"@,
        "docs"@,
        "refactor"@,
        "test"@,
        "tests"@,
        "ci"@,
        "perf"@,
        "style"@,
        "build"@,
    ];
    assert forall|i: int| 0 <= i < 11 implies (#[trigger] words[i]).len() > 0 && (n
        =~= words[i] || n.len() != words[i].len() || n[0] != words[i][0]) by {}
}

/// A one-line message made of a prefix that reads as type `t` with `scope` and no
/// `!`, then `: ` and a description with some non-whitespace in it, is read as a
/// commit of type `t` with that scope, not breaking, with the description trimmed.
proof fn lemma_header_reads_back(
    t: CommitType,
    pre: Seq<char>,
    scope: Option<Seq<char>>,
    d: Seq<char>,
)
    requires
        t != CommitType::Other,
        pre.len() > 0,
        forall|i: int| 0 <= i < pre.len() ==> pre[i] != '\n' && pre[i] != ':',
        !is_ws(pre[0]),
        !is_ws(pre.last()),
        parse_prefix(pre) == Some((kind_name(t), scope, false)),
        trim(d).len() > 0,
        forall|i: int| 0 <= i < d.len() ==> d[i] != '\n',
    ensures
        ({
            let c = commit_of_message(pre + seq![':', ' '] + d);
            &&& c.commit_type == t
            &&& c.scope == scope
            &&& !c.is_breaking
            &&& c.description == trim(d)
        }),
{
    lemma_kind_name_word(t);
    let nn = pre.len() as int;
    let m = pre + seq![':', ' '] + d;
    // Where the description's non-whitespace starts and ends.
    let a = first_non_ws(d);
    let b = non_ws_end(d);
    lemma_trim_start_at(d, a);
    if a == d.len() {
        assert(d.skip(a) =~= Seq::<char>::empty());
        assert(false);
    }
    assert(a < b);
    assert forall|i: int| b - a <= i < d.skip(a).len() implies is_ws(#[trigger] d.skip(a)[i]) by {
        assert(d.skip(a)[i] == d[i + a]);
    }
    assert(d.skip(a)[b - a - 1] == d[b - 1]);
    lemma_trim_end_at(d.skip(a), b - a);
    assert(d.skip(a).take(b - a) =~= d.subrange(a, b));
    assert(trim(d) == d.subrange(a, b));
    // The message is one line.
    assert forall|i: int| 0 <= i < m.len() implies m[i] != '\n' by {
        if i < nn {
            assert(m[i] == pre[i]);
        } else if i >= nn + 2 {
            assert(m[i] == d[i - nn - 2]);
        }
    }
    lemma_first_index_at(m, '\n', m.len() as int);
    assert(lines(m) == seq![m]);
    assert(first_line(m) == m);
    assert(lines(m).drop_first() =~= Seq::<Seq<char>>::empty());
    assert(body_of(m) =~= Seq::<char>::empty());
    reveal_strlit("BREAKING CHANGE:");
    reveal_strlit("BREAKING-CHANGE:");
    assert(!breaking_in_body(body_of(m)));
    // The header is the message without the description's trailing whitespace.
    assert(m[0] == pre[0]);
    lemma_trim_start_at(m, 0);
    assert(m.skip(0) =~= m);
    assert forall|i: int| nn + 2 + b <= i < m.len() implies is_ws(#[trigger] m[i]) by {
        assert(m[i] == d[i - nn - 2]);
    }
    assert(m[nn + 2 + b - 1] == d[b - 1]);
    lemma_trim_end_at(m, nn + 2 + b);
    let header = trim(first_line(m));
    assert(header =~= pre + seq![':', ' '] + d.take(b));
    // Its first colon follows the prefix.
    assert forall|j: int| 0 <= j < nn implies header[j] != ':' by {
        assert(header[j] == pre[j]);
    }
    lemma_first_index_at(header, ':', nn);
    assert(header.take(nn) =~= pre);
    // The description is the rest, trimmed.
    let e = header.skip(nn + 1);
    assert(e =~= seq![' '] + d.take(b));
    assert forall|i: int| 0 <= i < 1 + a implies is_ws(#[trigger] e[i]) by {
        if i > 0 {
            assert(e[i] == d[i - 1]);
        }
    }
    assert(e[1 + a] == d[a]);
    lemma_trim_start_at(e, 1 + a);
    assert(e.skip(1 + a) =~= d.subrange(a, b));
    assert(d.subrange(a, b)[b - a - 1] == d[b - 1]);
    lemma_trim_end_at(d.subrange(a, b), b - a);
    assert(d.subrange(a, b).take(b - a) =~= d.subrange(a, b));
    assert(trim(e) == trim(d));
}

/// Every type but `Other`, written as its name, `: ` and a one-line description with
/// some non-whitespace in it, is read back as that type, with no scope, not
/// breaking, and with the description trimmed.
pub proof fn law_type_name_reads_back(t: CommitType, d: Seq<char>)
    requires
        t != CommitType::Other,
        trim(d).len() > 0,
        forall|i: int| 0 <= i < d.len() ==> d[i] != '\n',
    ensures
        ({
            let c = commit_of_message(kind_name(t) + seq![':', ' '] + d);
            &&& c.commit_type == t
            &&& c.scope is None
            &&& !c.is_breaking
            &&& c.description == trim(d)
        }),
{
    let n = kind_name(t);
    lemma_kind_name_word(t);
    let nn = n.len() as int;
    lemma_trim_start_at(n, 0);
    assert(n.skip(0) =~= n);
    lemma_trim_end_at(n, nn);
    assert(n.take(nn) =~= n);
    assert(trim(n) == n);
    assert(n.last() == n[nn - 1]);
    assert forall|j: int| 0 <= j < nn implies n[j] != '(' by {}
    lemma_first_index_at(n, '(', nn);
    assert(parse_prefix(n) == Some((n, None::<Seq<char>>, false)));
    lemma_header_reads_back(t, n, None, d);
}

/// Every type but `Other`, written as its name, a scope in parentheses, `: ` and a
/// one-line description with some non-whitespace in it, is read back as that type
/// with exactly that scope, not breaking, and with the description trimmed. The
/// scope may hold any characters but `)`, a line break, and `:` (the header ends
/// at its first colon).
pub proof fn law_scoped_type_reads_back(t: CommitType, scope: Seq<char>, d: Seq<char>)
    requires
        t != CommitType::Other,
        forall|i: int|
            0 <= i < scope.len() ==> scope[i] != ')' && scope[i] != '\n' && scope[i] != ':',
        trim(d).len() > 0,
        forall|i: int| 0 <= i < d.len() ==> d[i] != '\n',
    ensures
        ({
            let c = commit_of_message(
                kind_name(t) + seq!['('] + scope + seq![')'] + seq![':', ' '] + d,
            );
            &&& c.commit_type == t
            &&& c.scope == Some(scope)
            &&& !c.is_breaking
            &&& c.description == trim(d)
        }),
{
    let n = kind_name(t);
    lemma_kind_name_word(t);
    let nn = n.len() as int;
    let pre = n + seq!['('] + scope + seq![')'];
    let pl = pre.len() as int;
    assert(pre[0] == n[0]);
    assert(pre.last() == ')');
    assert forall|i: int| 0 <= i < pl implies pre[i] != '\n' && pre[i] != ':' by {
        if i < nn {
            assert(pre[i] == n[i]);
        } else if nn < i < pl - 1 {
            assert(pre[i] == scope[i - nn - 1]);
        }
    }
    lemma_trim_start_at(pre, 0);
    assert(pre.skip(0) =~= pre);
    lemma_trim_end_at(pre, pl);
    assert(pre.take(pl) =~= pre);
    assert(trim(pre) == pre);
    assert forall|j: int| 0 <= j < nn implies pre[j] != '(' by {
        assert(pre[j] == n[j]);
    }
    lemma_first_index_at(pre, '(', nn);
    assert(pre.take(nn) =~= n);
    let rest = pre.skip(nn + 1);
    assert(rest =~= scope + seq![')']);
    assert forall|j: int| 0 <= j < scope.len() implies rest[j] != ')' by {
        assert(rest[j] == scope[j]);
    }
    lemma_first_index_at(rest, ')', scope.len() as int);
    assert(rest.take(scope.len() as int) =~= scope);
    assert(parse_prefix(pre) == Some((n, Some(scope), false)));
    lemma_header_reads_back(t, pre, Some(scope), d);
    assert(pre + seq![':', ' '] + d =~= n + seq!['('] + scope + seq![')'] + seq![':', ' '] + d);
}

} // verus!
