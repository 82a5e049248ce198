//! Semantic versions, bump levels, and version tags.

use vstd::prelude::*;

use crate::text::{
    chars_of, decimal, first_index, find_char, lemma_decimal, lemma_first_index_at,
    lemma_parse_decimal, lemma_split_front, lemma_split_none, parse_u64, parse_u64_in, pieces,
    push_decimal, split, split_ranges, string_from,
};

verus! {

/// A semantic version (major.minor.patch).
#[derive(Debug, Clone, Copy, PartialEq, Eq, Structural, Ord)]
pub struct SemVer {
    pub major: u64,
    pub minor: u64,
    pub patch: u64,
}

/// The level of version bump to apply, from least to most significant.
#[derive(Debug, Clone, Copy, PartialEq, Eq, Structural, PartialOrd, Ord)]
pub enum BumpLevel {
    Patch,
    Minor,
    Major,
}

/// Why a text is not a semantic version.
#[derive(Debug, Clone, Copy, PartialEq, Eq, Structural)]
pub enum ParseError {
    InvalidFormat,
}

/// The rank of a bump level: patch below minor below major.
pub open spec fn rank(level: BumpLevel) -> nat {
    match level {
        BumpLevel::Patch => 0,
        BumpLevel::Minor => 1,
        BumpLevel::Major => 2,
    }
}

/// The larger of two bump levels.
pub open spec fn max_level(a: BumpLevel, b: BumpLevel) -> BumpLevel {
    if rank(a) >= rank(b) {
        a
    } else {
        b
    }
}

/// The larger of two bump levels.
pub fn higher_level(a: BumpLevel, b: BumpLevel) -> (r: BumpLevel)
    ensures
        r == max_level(a, b),
{
    let ra: u8 = match a {
        BumpLevel::Patch => 0,
        BumpLevel::Minor => 1,
        BumpLevel::Major => 2,
    };
    let rb: u8 = match b {
        BumpLevel::Patch => 0,
        BumpLevel::Minor => 1,
        BumpLevel::Major => 2,
    };
    if ra >= rb {
        a
    } else {
        b
    }
}

/// The name of a bump level.
pub open spec fn level_name(level: BumpLevel) -> Seq<char> {
    match level {
        BumpLevel::Patch => "patch"@,
        BumpLevel::Minor => "minor"@,
        BumpLevel::Major => "major"@,
    }
}

impl BumpLevel {
    /// The name of this bump level: `patch`, `minor` or `major`.
    pub fn to_string(&self) -> (s: String)
        ensures
            s@ == level_name(*self),
    {
        match self {
            BumpLevel::Patch => "patch".to_owned(),
            BumpLevel::Minor => "minor".to_owned(),
            BumpLevel::Major => "major".to_owned(),
        }
    }
}

impl ParseError {
    /// The message of this error.
    pub fn to_string(&self) -> (s: String)
        ensures
            s@ == "invalid semver format"@,
    {
        "invalid semver format".to_owned()
    }
}

/// Whether `a` comes before `b`: majors compared first, then minors, then patches.
pub open spec fn semver_lt(a: SemVer, b: SemVer) -> bool {
    ||| a.major < b.major
    ||| (a.major == b.major && a.minor < b.minor)
    ||| (a.major == b.major && a.minor == b.minor && a.patch < b.patch)
}

/// Whether the component that `level` increments can still grow.
pub open spec fn can_bump(v: SemVer, level: BumpLevel) -> bool {
    match level {
        BumpLevel::Major => v.major < u64::MAX,
        BumpLevel::Minor => v.minor < u64::MAX,
        BumpLevel::Patch => v.patch < u64::MAX,
    }
}

/// `v` bumped at `level`: that component grows by one, the lower ones reset to zero.
pub open spec fn bumped(v: SemVer, level: BumpLevel) -> SemVer {
    match level {
        BumpLevel::Major => SemVer { major: (v.major + 1) as u64, minor: 0, patch: 0 },
        BumpLevel::Minor => SemVer { major: v.major, minor: (v.minor + 1) as u64, patch: 0 },
        BumpLevel::Patch => SemVer { major: v.major, minor: v.minor, patch: (v.patch + 1) as u64 },
    }
}

/// The text of `v`: `major.minor.patch` in decimal.
pub open spec fn version_text(v: SemVer) -> Seq<char> {
    decimal(v.major as nat) + seq!['.'] + decimal(v.minor as nat) + seq!['.'] + decimal(
        v.patch as nat,
    )
}

/// `s` without one leading `v`.
pub open spec fn strip_v(s: Seq<char>) -> Seq<char> {
    if s.len() > 0 && s[0] == 'v' {
        s.drop_first()
    } else {
        s
    }
}

/// `s` up to its first `-`: a pre-release suffix is not part of the version.
pub open spec fn version_core(s: Seq<char>) -> Seq<char> {
    let i = first_index(s, '-');
    if i < 0 {
        s
    } else {
        s.take(i)
    }
}

/// The version that `s` denotes: an optional leading `v`, then three `u64` numerals
/// separated by dots, then optionally a pre-release suffix that starts with `-`.
pub open spec fn parse_semver(s: Seq<char>) -> Option<SemVer> {
    let parts = split(version_core(strip_v(s)), '.');
    if parts.len() != 3 {
        None
    } else {
        match (parse_u64(parts[0]), parse_u64(parts[1]), parse_u64(parts[2])) {
            (Some(a), Some(b), Some(c)) => Some(SemVer { major: a, minor: b, patch: c }),
            _ => None,
        }
    }
}

impl SemVer {
    pub fn new(major: u64, minor: u64, patch: u64) -> (v: Self)
        ensures
            v == (SemVer { major, minor, patch }),
    {
        Self { major, minor, patch }
    }

    pub fn zero() -> (v: Self)
        ensures
            v == (SemVer { major: 0, minor: 0, patch: 0 }),
    {
        Self::new(0, 0, 0)
    }

    /// Bump the version according to the given bump level.
    pub fn bump(&self, level: BumpLevel) -> (v: Self)
        requires
            can_bump(*self, level),
        ensures
            v == bumped(*self, level),
    {
        match level {
            BumpLevel::Major => Self::new(self.major + 1, 0, 0),
            BumpLevel::Minor => Self::new(self.major, self.minor + 1, 0),
            BumpLevel::Patch => Self::new(self.major, self.minor, self.patch + 1),
        }
    }

    /// The text of this version, `major.minor.patch`.
    pub fn to_string(&self) -> (s: String)
        ensures
            s@ == version_text(*self),
    {
        let mut v: Vec<char> = Vec::new();
        push_decimal(&mut v, self.major);
        v.push('.');
        push_decimal(&mut v, self.minor);
        v.push('.');
        push_decimal(&mut v, self.patch);
        proof {
            assert(v@ =~= version_text(*self));
        }
        string_from(v.as_slice())
    }

    /// Parse a version such as `1.2.3` or `v1.2.3`.
    pub fn parse(s: &str) -> (r: Result<SemVer, ParseError>)
        ensures
            r == (match parse_semver(s@) {
                Some(v) => Ok(v),
                None => Err(ParseError::InvalidFormat),
            }),
    {
        let v = chars_of(s);
        let lo: usize = if v.len() > 0 && v[0] == 'v' {
            1
        } else {
            0
        };
        let hi: usize = match find_char(v.as_slice(), lo, v.len(), '-') {
            Some(i) => i,
            None => v.len(),
        };
        proof {
            let t = strip_v(s@);
            assert(t =~= v@.subrange(lo as int, v@.len() as int));
            assert(version_core(t) =~= v@.subrange(lo as int, hi as int));
        }
        let parts = split_ranges(v.as_slice(), lo, hi, '.');
        if parts.len() != 3 {
            return Err(ParseError::InvalidFormat);
        }
        let ghost ps = pieces(v@, parts@);
        let (a0, a1) = parts[0];
        let (b0, b1) = parts[1];
        let (c0, c1) = parts[2];
        proof {
            assert(a0 <= a1 <= v@.len() && ps[0] == v@.subrange(a0 as int, a1 as int)) by {
                assert(parts@[0].0 <= parts@[0].1 <= v@.len());
            }
            assert(b0 <= b1 <= v@.len() && ps[1] == v@.subrange(b0 as int, b1 as int)) by {
                assert(parts@[1].0 <= parts@[1].1 <= v@.len());
            }
            assert(c0 <= c1 <= v@.len() && ps[2] == v@.subrange(c0 as int, c1 as int)) by {
                assert(parts@[2].0 <= parts@[2].1 <= v@.len());
            }
        }
        let major = parse_u64_in(v.as_slice(), a0, a1);
        let minor = parse_u64_in(v.as_slice(), b0, b1);
        let patch = parse_u64_in(v.as_slice(), c0, c1);
        match (major, minor, patch) {
            (Some(a), Some(b), Some(c)) => Ok(Self::new(a, b, c)),
            _ => Err(ParseError::InvalidFormat),
        }
    }
}

impl core::str::FromStr for SemVer {
    type Err = ParseError;

    fn from_str(s: &str) -> (r: Result<Self, Self::Err>)
        ensures
            r == (match parse_semver(s@) {
                Some(v) => Ok(v),
                None => Err(ParseError::InvalidFormat),
            }),
    {
        SemVer::parse(s)
    }
}


/// Information about a version tag found in git.
#[derive(Debug, Clone)]
pub struct VersionTag {
    pub version: SemVer,
    pub tag_name: String,
    pub has_v_prefix: bool,
}

/// Whether `s` starts with `v`.
pub open spec fn starts_with_v(s: Seq<char>) -> bool {
    s.len() > 0 && s[0] == 'v'
}

/// The text of `next` in the prefix style of a tag: with a leading `v` or without.
pub open spec fn styled_version(has_v_prefix: bool, next: SemVer) -> Seq<char> {
    if has_v_prefix {
        seq!['v'] + version_text(next)
    } else {
        version_text(next)
    }
}

/// Whether `s` starts with `v`.
pub fn starts_with_v_char(s: &str) -> (b: bool)
    ensures
        b == starts_with_v(s@),
{
    let v = chars_of(s);
    v.len() > 0 && v[0] == 'v'
}

impl VersionTag {
    /// Parse a tag name into a VersionTag, returning None if it doesn't match.
    pub fn parse(tag_name: &str) -> (r: Option<Self>)
        ensures
            match parse_semver(tag_name@) {
                Some(v) => r matches Some(t) && t.version == v && t.tag_name@ == tag_name@
                    && t.has_v_prefix == starts_with_v(tag_name@),
                None => r is None,
            },
    {
        let has_v_prefix = starts_with_v_char(tag_name);
        match SemVer::parse(tag_name) {
            Ok(version) => Some(Self { version, tag_name: tag_name.to_owned(), has_v_prefix }),
            Err(_) => None,
        }
    }

    /// Format the next version with the same prefix style as this tag.
    pub fn format_next(&self, next: &SemVer) -> (s: String)
        ensures
            s@ == styled_version(self.has_v_prefix, *next),
    {
        if self.has_v_prefix {
            let mut v: Vec<char> = Vec::new();
            v.push('v');
            push_decimal(&mut v, next.major);
            v.push('.');
            push_decimal(&mut v, next.minor);
            v.push('.');
            push_decimal(&mut v, next.patch);
            proof {
                assert(v@ =~= seq!['v'] + version_text(*next));
            }
            string_from(v.as_slice())
        } else {
            next.to_string()
        }
    }
}

// ----------------------------------------------------------------------
// Laws
// ----------------------------------------------------------------------

/// The text of a version has no `-`, and every `.` in it is one of the two separators.
proof fn lemma_version_text_shape(v: SemVer)
    ensures
        first_index(version_text(v), '-') == -1,
        version_text(v).len() > 0,
        version_text(v)[0] != 'v',
        split(version_text(v), '.') == seq![
            decimal(v.major as nat),
            decimal(v.minor as nat),
            decimal(v.patch as nat),
        ],
{
    let a = decimal(v.major as nat);
    let b = decimal(v.minor as nat);
    let c = decimal(v.patch as nat);
    lemma_decimal(v.major as nat);
    lemma_decimal(v.minor as nat);
    lemma_decimal(v.patch as nat);
    let t = version_text(v);
    assert forall|j: int| 0 <= j < t.len() implies t[j] != '-' by {
        if j < a.len() {
            assert(t[j] == a[j]);
        } else if j == a.len() {
        } else if j < a.len() + 1 + b.len() {
            assert(t[j] == b[j - a.len() - 1]);
        } else if j == a.len() + 1 + b.len() {
        } else {
            assert(t[j] == c[j - a.len() - 2 - b.len()]);
        }
    }
    lemma_first_index_at(t, '-', t.len() as int);
    assert(t[0] == a[0]);
    assert(forall|j: int| 0 <= j < a.len() ==> a[j] != '.');
    assert(forall|j: int| 0 <= j < b.len() ==> b[j] != '.');
    assert(forall|j: int| 0 <= j < c.len() ==> c[j] != '.');
    lemma_split_none(c, '.');
    lemma_split_front(b, c, '.');
    assert(b.push('.') + c =~= b + seq!['.'] + c);
    lemma_split_front(a, b + seq!['.'] + c, '.');
    assert(t =~= a.push('.') + (b + seq!['.'] + c));
}

/// Parsing the text of a version gives back that version.
pub proof fn law_parse_version_text(v: SemVer)
    ensures
        parse_semver(version_text(v)) == Some(v),
{
    lemma_version_text_shape(v);
    lemma_parse_decimal(v.major);
    lemma_parse_decimal(v.minor);
    lemma_parse_decimal(v.patch);
}

/// The next version that a tag formats keeps the tag's prefix style, and parses back
/// as that version.
pub proof fn law_format_next_parses_back(has_v_prefix: bool, next: SemVer)
    ensures
        parse_semver(styled_version(has_v_prefix, next)) == Some(next),
        starts_with_v(styled_version(has_v_prefix, next)) == has_v_prefix,
{
    lemma_version_text_shape(next);
    law_parse_version_text(next);
    if has_v_prefix {
        assert((seq!['v'] + version_text(next)).drop_first() =~= version_text(next));
    }
}

/// Bumping a version, at any level, gives a later version.
pub proof fn law_bump_is_later(v: SemVer, level: BumpLevel)
    requires
        can_bump(v, level),
    ensures
        semver_lt(v, bumped(v, level)),
{
}

/// Version order is a strict total order.
pub proof fn law_version_order_total(a: SemVer, b: SemVer, c: SemVer)
    ensures
        !semver_lt(a, a),
        semver_lt(a, b) ==> !semver_lt(b, a),
        semver_lt(a, b) && semver_lt(b, c) ==> semver_lt(a, c),
        a == b || semver_lt(a, b) || semver_lt(b, a),
{
}

} // verus!
