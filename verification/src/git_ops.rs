//! What the library decides about a repository: which tag is the latest version,
//! which commits came after it, and which tag prefix to use. Reading the repository
//! is left to the caller, who hands in tag names and the commit history.

use vstd::prelude::*;

use crate::commits::{commit_of_message, parse_commit, views, CommitView, ParsedCommit};
use crate::text::{chars_of, range_equals};
use crate::version::{
    law_parse_version_text, parse_semver, semver_lt, starts_with_v, starts_with_v_char,
    styled_version, version_text, SemVer, VersionTag,
};

verus! {

/// Result of analyzing the repository.
#[derive(Debug)]
pub struct AnalysisResult {
    pub current_version: Option<VersionTag>,
    pub commits: Vec<ParsedCommit>,
}

/// Whether `s` starts with `p`.
pub open spec fn has_prefix(s: Seq<char>, p: Seq<char>) -> bool {
    p.len() <= s.len() && s.take(p.len() as int) == p
}

/// The version that a tag name denotes, and whether the name starts with `v`.
/// With a non-empty user prefix that the name starts with, and after which a version
/// follows, that version; otherwise what the name denotes as it is.
pub open spec fn tag_version(name: Seq<char>, user_prefix: Option<Seq<char>>) -> Option<SemVer> {
    match user_prefix {
        Some(p) => if p.len() > 0 && has_prefix(name, p) && parse_semver(
            name.skip(p.len() as int),
        ) is Some {
            parse_semver(name.skip(p.len() as int))
        } else {
            parse_semver(name)
        },
        None => parse_semver(name),
    }
}

/// The view of an optional string slice.
pub open spec fn opt_view(s: Option<&str>) -> Option<Seq<char>> {
    match s {
        Some(p) => Some(p@),
        None => None,
    }
}

/// Whether `a` and `b` hold the same characters.
pub fn same_text(a: &str, b: &str) -> (r: bool)
    ensures
        r == (a@ == b@),
{
    let v = chars_of(a);
    proof {
        assert(v@.subrange(0, v@.len() as int) =~= a@);
    }
    range_equals(v.as_slice(), 0, v.len(), b)
}

/// Parse a tag name, optionally trying a user-supplied prefix first.
///
/// Semantics:
/// 1. If `user_prefix` is set, try stripping it and parsing as SemVer.
/// 2. If that fails, fall back to the default parser (handles `v1.2.3` and `1.2.3`).
fn parse_tag_with_optional_prefix(tag_name: &str, user_prefix: Option<&str>) -> (r: Option<
    VersionTag,
>)
    ensures
        match tag_version(tag_name@, opt_view(user_prefix)) {
            Some(v) => r matches Some(t) && t.version == v && t.tag_name@ == tag_name@
                && t.has_v_prefix == starts_with_v(tag_name@),
            None => r is None,
        },
{
    if let Some(p) = user_prefix {
        let name = chars_of(tag_name);
        let pv = chars_of(p);
        if pv.len() > 0 && pv.len() <= name.len() && range_equals(name.as_slice(), 0, pv.len(), p) {
            let stripped = tag_name.substring_char(pv.len(), name.len());
            proof {
                assert(name@.subrange(0, pv@.len() as int) =~= tag_name@.take(p@.len() as int));
                assert(stripped@ =~= tag_name@.skip(p@.len() as int));
            }
            if let Ok(version) = SemVer::parse(stripped) {
                return Some(
                    VersionTag {
                        version,
                        tag_name: tag_name.to_owned(),
                        has_v_prefix: starts_with_v_char(tag_name),
                    },
                );
            }
        }
    }
    VersionTag::parse(tag_name)
}

/// Whether the tag at `i` is the latest version among `names`: it denotes a version,
/// no name denotes a later one, and no earlier name denotes the same one.
pub open spec fn is_latest_at(names: Seq<Seq<char>>, user_prefix: Option<Seq<char>>, i: int) -> bool {
    &&& 0 <= i < names.len()
    &&& tag_version(names[i], user_prefix) is Some
    &&& forall|j: int|
        0 <= j < names.len() && #[trigger] tag_version(names[j], user_prefix) is Some ==> !semver_lt(
            tag_version(names[i], user_prefix).unwrap(),
            tag_version(names[j], user_prefix).unwrap(),
        )
    &&& forall|j: int|
        0 <= j < i && #[trigger] tag_version(names[j], user_prefix) is Some ==> semver_lt(
            tag_version(names[j], user_prefix).unwrap(),
            tag_version(names[i], user_prefix).unwrap(),
        )
}

/// The views of a sequence of strings.
pub open spec fn string_views(s: Seq<String>) -> Seq<Seq<char>> {
    s.map_values(|x: String| x@)
}

/// Find the latest version tag among the repository's tag names.
///
/// If `user_prefix` is provided (e.g. `"release-"`), it is stripped before
/// parsing so custom-prefixed tags like `release-1.2.3` are recognised.
pub fn find_latest_version_tag(tag_names: &[String], user_prefix: Option<&str>) -> (r: Option<
    VersionTag,
>)
    ensures
        match r {
            None => forall|j: int|
                0 <= j < tag_names@.len() ==> #[trigger] tag_version(
                    tag_names@[j]@,
                    opt_view(user_prefix),
                ) is None,
            Some(t) => exists|i: int|
                is_latest_at(string_views(tag_names@), opt_view(user_prefix), i) && t.tag_name@
                    == tag_names@[i]@ && t.version == tag_version(
                    tag_names@[i]@,
                    opt_view(user_prefix),
                ).unwrap() && t.has_v_prefix == starts_with_v(tag_names@[i]@),
        },
{
    let ghost names = string_views(tag_names@);
    let ghost up = opt_view(user_prefix);
    let mut best: Option<VersionTag> = None;
    let ghost mut best_index: int = -1;
    let mut k: usize = 0;
    while k < tag_names.len()
        invariant
            names == string_views(tag_names@),
            up == opt_view(user_prefix),
            0 <= k <= tag_names@.len(),
            best is None ==> forall|j: int|
                0 <= j < k ==> #[trigger] tag_version(names[j], up) is None,
            best matches Some(t) ==> {
                &&& 0 <= best_index < k
                &&& is_latest_at(names.take(k as int), up, best_index)
                &&& t.tag_name@ == names[best_index]
                &&& t.version == tag_version(names[best_index], up).unwrap()
                &&& t.has_v_prefix == starts_with_v(names[best_index])
            },
        decreases tag_names@.len() - k,
    {
        let parsed = parse_tag_with_optional_prefix(tag_names[k].as_str(), user_prefix);
        proof {
            assert(names[k as int] == tag_names@[k as int]@);
            assert(names.take(k + 1).drop_last() =~= names.take(k as int));
        }
        let ghost old_best_index = best_index;
        match parsed {
            Some(vt) => {
                let replace = match &best {
                    Some(current) => vt.version > current.version,
                    None => true,
                };
                if replace {
                    proof {
                        best_index = k as int;
                    }
                    best = Some(vt);
                }
            },
            None => {},
        }
        proof {
            let nk = names.take(k + 1);
            assert forall|j: int| 0 <= j < k implies nk[j] == names.take(k as int)[j] by {}
            if best is None {
                assert forall|j: int| 0 <= j < k + 1 implies #[trigger] tag_version(names[j], up)
                    is None by {}
            }
        }
        k = k + 1;
    }
    proof {
        assert(names.take(k as int) =~= names);
        if best is None {
            assert forall|j: int| 0 <= j < tag_names@.len() implies #[trigger] tag_version(
                tag_names@[j]@,
                up,
            ) is None by {
                assert(names[j] == tag_names@[j]@);
            }
        }
    }
    best
}


/// The commits of a history walk, newest first, that come before the commit `stop_at`:
/// those with an empty message left out, the others parsed.
pub open spec fn commits_until(history: Seq<(Seq<char>, Seq<char>)>, stop_at: Option<Seq<char>>) -> Seq<
    CommitView,
>
    decreases history.len(),
{
    if history.len() == 0 {
        seq![]
    } else if stop_at == Some(history[0].0) {
        seq![]
    } else {
        let rest = commits_until(history.drop_first(), stop_at);
        if history[0].1.len() == 0 {
            rest
        } else {
            seq![commit_of_message(history[0].1)] + rest
        }
    }
}

/// The views of a history of (commit id, message) pairs.
pub open spec fn history_views(h: Seq<(String, String)>) -> Seq<(Seq<char>, Seq<char>)> {
    h.map_values(|e: (String, String)| (e.0@, e.1@))
}

/// Collect the commits of a history walk, newest first, since the commit `stop_at`
/// (all of them where there is none). Each entry is a commit's id and its message.
pub fn commits_since_tag(history: &[(String, String)], stop_at: Option<&str>) -> (r: Vec<
    ParsedCommit,
>)
    ensures
        views(r@) == commits_until(history_views(history@), opt_view(stop_at)),
{
    let ghost h = history_views(history@);
    let ghost stop = opt_view(stop_at);
    let mut out: Vec<ParsedCommit> = Vec::new();
    let mut i: usize = 0;
    proof {
        assert(h.skip(0) =~= h);
        assert(views(out@) + commits_until(h, stop) =~= commits_until(h, stop));
    }
    while i < history.len()
        invariant
            h == history_views(history@),
            stop == opt_view(stop_at),
            0 <= i <= history@.len(),
            views(out@) + commits_until(h.skip(i as int), stop) == commits_until(h, stop),
        decreases history@.len() - i,
    {
        let ghost rest = h.skip(i as int);
        proof {
            assert(rest[0] == (history@[i as int].0@, history@[i as int].1@));
            assert(rest.drop_first() =~= h.skip(i + 1));
        }
        let (oid, message) = (&history[i].0, &history[i].1);
        let stop_here = match stop_at {
            Some(s) => same_text(oid.as_str(), s),
            None => false,
        };
        if stop_here {
            proof {
                assert(views(out@) + commits_until(rest, stop) =~= views(out@));
            }
            return out;
        }
        let empty = chars_of(message.as_str()).len() == 0;
        if !empty {
            let ghost prev = out@;
            out.push(parse_commit(message.as_str()));
            proof {
                assert(views(out@) =~= views(prev).push(commit_of_message(message@)));
                assert(views(out@) + commits_until(h.skip(i + 1), stop) =~= views(prev)
                    + commits_until(rest, stop));
            }
        }
        i = i + 1;
    }
    proof {
        assert(h.skip(i as int) =~= Seq::<(Seq<char>, Seq<char>)>::empty());
        assert(views(out@) + commits_until(h.skip(i as int), stop) =~= views(out@));
    }
    out
}

/// The tag prefix to use: the user's, else that of the current tag (`v` or none),
/// else `v`.
pub open spec fn prefix_for(tag: Option<VersionTag>, user_prefix: Option<Seq<char>>) -> Seq<char> {
    match user_prefix {
        Some(p) => p,
        None => match tag {
            Some(t) => if t.has_v_prefix {
                seq!['v']
            } else {
                seq![]
            },
            None => seq!['v'],
        },
    }
}

/// Determine the tag prefix to use based on existing tags or user preference.
///
/// Precedence:
/// 1. User-supplied `--prefix` (any string, including empty).
/// 2. Existing tag's prefix (`v` if present, else empty).
/// 3. Default `v` prefix for fresh repos.
pub fn detect_prefix(tag: Option<&VersionTag>, user_prefix: Option<&str>) -> (r: String)
    ensures
        r@ == prefix_for(
            match tag {
                Some(t) => Some(*t),
                None => None,
            },
            opt_view(user_prefix),
        ),
{
    if let Some(p) = user_prefix {
        return p.to_owned();
    }
    let mut out = String::new();
    match tag {
        Some(vt) => {
            if vt.has_v_prefix {
                crate::text::push_char(&mut out, 'v');
            }
        },
        None => {
            crate::text::push_char(&mut out, 'v');
        },
    }
    out
}


// ----------------------------------------------------------------------
// Laws
// ----------------------------------------------------------------------

/// Without a user prefix, the prefix detected from a tag, followed by a version, is
/// what the tag formats as its next version: the tag's prefix style is preserved.
pub proof fn law_detected_prefix_matches_tag_style(tag: VersionTag, next: SemVer)
    ensures
        prefix_for(Some(tag), None) + version_text(next) == styled_version(
            tag.has_v_prefix,
            next,
        ),
{
    if !tag.has_v_prefix {
        assert(seq![] + version_text(next) =~= version_text(next));
    }
}

/// A tag named with a non-empty user prefix followed by a version is recognised as
/// that version when that prefix is given.
pub proof fn law_user_prefix_tag_recognised(prefix: Seq<char>, v: SemVer)
    requires
        prefix.len() > 0,
    ensures
        tag_version(prefix + version_text(v), Some(prefix)) == Some(v),
{
    let name = prefix + version_text(v);
    assert(name.take(prefix.len() as int) =~= prefix);
    assert(name.skip(prefix.len() as int) =~= version_text(v));
    law_parse_version_text(v);
}

/// The history walk stops at the tagged commit: where the newest commit is the
/// tagged one, there is nothing since the tag.
pub proof fn law_nothing_since_head_tag(history: Seq<(Seq<char>, Seq<char>)>)
    requires
        history.len() > 0,
    ensures
        commits_until(history, Some(history[0].0)).len() == 0,
{
}

/// A user prefix never hides a tag: a name that denotes a version on its own is
/// recognised whatever prefix is given, as that version unless the name is the prefix
/// followed by a version, which is then the version recognised.
pub proof fn law_tag_recognised_with_any_prefix(name: Seq<char>, user_prefix: Option<Seq<char>>)
    ensures
        parse_semver(name) is Some ==> tag_version(name, user_prefix) is Some,
        tag_version(name, user_prefix) is Some ==> tag_version(name, user_prefix) == parse_semver(
            name,
        ) || (user_prefix matches Some(p) && p.len() > 0 && has_prefix(name, p)
            && tag_version(name, user_prefix) == parse_semver(name.skip(p.len() as int))),
        user_prefix is None ==> tag_version(name, user_prefix) == parse_semver(name),
{
}

/// The latest tag is found whenever some tag name denotes a version on its own,
/// whatever user prefix is given.
pub proof fn law_latest_found_with_any_prefix(
    names: Seq<Seq<char>>,
    user_prefix: Option<Seq<char>>,
    j: int,
)
    requires
        0 <= j < names.len(),
        parse_semver(names[j]) is Some,
    ensures
        tag_version(names[j], user_prefix) is Some,
{
    law_tag_recognised_with_any_prefix(names[j], user_prefix);
}

/// How many entries of a history have a non-empty message.
pub open spec fn nonempty_count(history: Seq<(Seq<char>, Seq<char>)>) -> nat
    decreases history.len(),
{
    if history.len() == 0 {
        0
    } else {
        (if history[0].1.len() > 0 {
            1nat
        } else {
            0nat
        }) + nonempty_count(history.drop_first())
    }
}

/// Counting one more entry adds that entry's share.
proof fn lemma_nonempty_count_step(h: Seq<(Seq<char>, Seq<char>)>, a: int)
    requires
        0 <= a < h.len(),
    ensures
        nonempty_count(h.take(a + 1)) == nonempty_count(h.take(a)) + (if h[a].1.len() > 0 {
            1nat
        } else {
            0nat
        }),
    decreases a,
{
    let e0: nat = if h[0].1.len() > 0 {
        1
    } else {
        0
    };
    assert(h.take(a + 1)[0] == h[0]);
    assert(nonempty_count(h.take(a + 1)) == e0 + nonempty_count(h.take(a + 1).drop_first()));
    if a == 0 {
        assert(h.take(1).drop_first() =~= Seq::<(Seq<char>, Seq<char>)>::empty());
        assert(nonempty_count(h.take(1).drop_first()) == 0);
        assert(h.take(0).len() == 0);
    } else {
        let t = h.drop_first();
        lemma_nonempty_count_step(t, a - 1);
        assert(h.take(a + 1).drop_first() =~= t.take(a));
        assert(h.take(a).drop_first() =~= t.take(a - 1));
        assert(h.take(a)[0] == h[0]);
        assert(nonempty_count(h.take(a)) == e0 + nonempty_count(h.take(a).drop_first()));
        assert(t[a - 1] == h[a]);
    }
}

/// Counting over a longer prefix counts at least as many.
proof fn lemma_nonempty_count_monotone(h: Seq<(Seq<char>, Seq<char>)>, a: int, b: int)
    requires
        0 <= a <= b <= h.len(),
    ensures
        nonempty_count(h.take(a)) <= nonempty_count(h.take(b)),
    decreases b - a,
{
    if a < b {
        lemma_nonempty_count_step(h, b - 1);
        lemma_nonempty_count_monotone(h, a, b - 1);
    }
}

/// Where the commit `stop_at` is first met at position `k` of the walk (or never,
/// with `k` the walk's length), the commits since it are those before `k` with a
/// non-empty message, each parsed, in the order of the walk: none is dropped or added.
pub proof fn law_commits_before_stop(
    history: Seq<(Seq<char>, Seq<char>)>,
    stop_at: Option<Seq<char>>,
    k: int,
)
    requires
        0 <= k <= history.len(),
        k == history.len() || stop_at == Some(history[k].0),
        forall|j: int| 0 <= j < k ==> stop_at != Some(#[trigger] history[j].0),
    ensures
        ({
            let r = commits_until(history, stop_at);
            &&& r.len() == nonempty_count(history.take(k))
            &&& forall|i: int|
                0 <= i < k && history[i].1.len() > 0 ==> r[nonempty_count(history.take(i)) as int]
                    == commit_of_message(#[trigger] history[i].1)
        }),
    decreases history.len(),
{
    let r = commits_until(history, stop_at);
    if history.len() == 0 {
        assert(history.take(0) =~= history);
    } else if stop_at == Some(history[0].0) {
        assert(k == 0);
        assert(history.take(0).len() == 0);
    } else {
        let h = history.drop_first();
        assert forall|j: int| 0 <= j < k - 1 implies stop_at != Some(#[trigger] h[j].0) by {
            assert(h[j] == history[j + 1]);
        }
        if k < history.len() {
            assert(h[k - 1] == history[k]);
        }
        law_commits_before_stop(h, stop_at, k - 1);
        let rest = commits_until(h, stop_at);
        let e: nat = if history[0].1.len() > 0 {
            1
        } else {
            0
        };
        assert forall|i: int| 1 <= i <= k implies nonempty_count(#[trigger] history.take(i)) == e
            + nonempty_count(h.take(i - 1)) by {
            assert(history.take(i).drop_first() =~= h.take(i - 1));
        }
        assert(history.take(0).len() == 0);
        if e == 1 {
            assert(r == seq![commit_of_message(history[0].1)] + rest);
        } else {
            assert(r == rest);
        }
        assert forall|i: int| 0 <= i < k && history[i].1.len() > 0 implies r[nonempty_count(
            history.take(i),
        ) as int] == commit_of_message(#[trigger] history[i].1) by {
            if i > 0 {
                assert(history[i] == h[i - 1]);
                assert(nonempty_count(history.take(i)) == e + nonempty_count(h.take(i - 1)));
                lemma_nonempty_count_step(h, i - 1);
                lemma_nonempty_count_monotone(h, i, k - 1);
                assert(r[(e + nonempty_count(h.take(i - 1))) as int] == rest[nonempty_count(
                    h.take(i - 1),
                ) as int]);
            }
        }
    }
}

} // verus!
