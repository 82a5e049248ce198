//! Character-level text handling: whitespace trimming, searching, line
//! splitting, and decimal numbers.

use vstd::prelude::*;

verus! {

broadcast use vstd::string::group_string_axioms;

/// Appends one character to a string.
///
/// Trusted: `String::push` appends `c` at the end of `s` and changes nothing else.
#[verifier::external_body]
pub(crate) fn push_char(s: &mut String, c: char)
    ensures
        final(s)@ == old(s)@.push(c),
{
    s.push(c);
}

/// The characters of a string slice, in order.
pub fn chars_of(s: &str) -> (v: Vec<char>)
    ensures
        v@ == s@,
{
    let mut v: Vec<char> = Vec::new();
    for c in it: s.chars()
        invariant
            v@ == it.seq().take(it.index() as int),
            it.seq() == s@,
    {
        v.push(c);
    }
    v
}


/// Appends the characters of `t` to `v`.
pub fn extend_chars(v: &mut Vec<char>, t: &str)
    ensures
        final(v)@ == old(v)@ + t@,
{
    let ghost start = v@;
    for c in it: t.chars()
        invariant
            v@ == start + it.seq().take(it.index() as int),
            it.seq() == t@,
    {
        v.push(c);
        proof {
            assert(it.seq().take(it.index() + 1) =~= it.seq().take(it.index() as int).push(c));
        }
    }
}

/// A string holding exactly the given characters.
pub fn string_from(v: &[char]) -> (s: String)
    ensures
        s@ == v@,
{
    let mut s = String::new();
    let mut i: usize = 0;
    while i < v.len()
        invariant
            0 <= i <= v@.len(),
            s@ == v@.take(i as int),
        decreases v@.len() - i,
    {
        push_char(&mut s, v[i]);
        proof {
            assert(v@.take(i + 1) =~= v@.take(i as int).push(v@[i as int]));
        }
        i = i + 1;
    }
    proof {
        assert(v@.take(v@.len() as int) =~= v@);
    }
    s
}

// ----------------------------------------------------------------------
// Whitespace
// ----------------------------------------------------------------------

/// The Unicode `White_Space` property, which `char::is_whitespace` tests.
pub open spec fn is_ws(c: char) -> bool {
    let n = c as u32;
    ||| 0x09 <= n <= 0x0D
    ||| n == 0x20
    ||| n == 0x85
    ||| n == 0xA0
    ||| n == 0x1680
    ||| 0x2000 <= n <= 0x200A
    ||| n == 0x2028
    ||| n == 0x2029
    ||| n == 0x202F
    ||| n == 0x205F
    ||| n == 0x3000
}

/// Whether `c` is a Unicode whitespace character.
pub fn is_whitespace(c: char) -> (b: bool)
    ensures
        b == is_ws(c),
{
    let n: u32 = c as u32;
    (0x09 <= n && n <= 0x0D) || n == 0x20 || n == 0x85 || n == 0xA0 || n == 0x1680
        || (0x2000 <= n && n <= 0x200A) || n == 0x2028 || n == 0x2029 || n == 0x202F
        || n == 0x205F || n == 0x3000
}

/// `s` without its leading whitespace.
pub open spec fn trim_start(s: Seq<char>) -> Seq<char>
    decreases s.len(),
{
    if s.len() > 0 && is_ws(s[0]) {
        trim_start(s.drop_first())
    } else {
        s
    }
}

/// `s` without its trailing whitespace.
pub open spec fn trim_end(s: Seq<char>) -> Seq<char>
    decreases s.len(),
{
    if s.len() > 0 && is_ws(s.last()) {
        trim_end(s.drop_last())
    } else {
        s
    }
}

/// `s` without leading and trailing whitespace, as `str::trim` gives it.
pub open spec fn trim(s: Seq<char>) -> Seq<char> {
    trim_end(trim_start(s))
}

/// Where `s` has whitespace before position `a` and none at `a`, `trim_start` drops
/// exactly that whitespace.
pub proof fn lemma_trim_start_at(s: Seq<char>, a: int)
    requires
        0 <= a <= s.len(),
        forall|i: int| 0 <= i < a ==> is_ws(#[trigger] s[i]),
        a < s.len() ==> !is_ws(s[a]),
    ensures
        trim_start(s) == s.skip(a),
    decreases a,
{
    if a > 0 {
        let t = s.drop_first();
        assert forall|i: int| 0 <= i < a - 1 implies is_ws(#[trigger] t[i]) by {
            assert(t[i] == s[i + 1]);
        }
        if a - 1 < t.len() {
            assert(t[a - 1] == s[a]);
        }
        lemma_trim_start_at(t, a - 1);
        assert(t.skip(a - 1) =~= s.skip(a));
        assert(is_ws(s[0]));
    } else {
        assert(s.skip(0) =~= s);
    }
}

/// Where `s` has whitespace from position `b` on and none just before `b`,
/// `trim_end` drops exactly that whitespace.
pub proof fn lemma_trim_end_at(s: Seq<char>, b: int)
    requires
        0 <= b <= s.len(),
        forall|i: int| b <= i < s.len() ==> is_ws(#[trigger] s[i]),
        b > 0 ==> !is_ws(s[b - 1]),
    ensures
        trim_end(s) == s.take(b),
    decreases s.len() - b,
{
    if b < s.len() {
        let t = s.drop_last();
        assert forall|i: int| b <= i < t.len() implies is_ws(#[trigger] t[i]) by {
            assert(t[i] == s[i]);
        }
        if b > 0 {
            assert(t[b - 1] == s[b - 1]);
        }
        lemma_trim_end_at(t, b);
        assert(t.take(b) =~= s.take(b));
        assert(is_ws(s.last()));
    } else {
        assert(s.take(b) =~= s);
    }
}

/// The position of the first character of `s` that is not whitespace, or its length.
pub proof fn first_non_ws(s: Seq<char>) -> (a: int)
    ensures
        0 <= a <= s.len(),
        forall|i: int| 0 <= i < a ==> is_ws(#[trigger] s[i]),
        a < s.len() ==> !is_ws(s[a]),
    decreases s.len(),
{
    if s.len() == 0 || !is_ws(s[0]) {
        0
    } else {
        let t = s.drop_first();
        let r = first_non_ws(t);
        assert forall|i: int| 0 <= i < r + 1 implies is_ws(#[trigger] s[i]) by {
            if i > 0 {
                assert(s[i] == t[i - 1]);
            }
        }
        if r + 1 < s.len() {
            assert(s[r + 1] == t[r]);
        }
        r + 1
    }
}

/// The position just after the last character of `s` that is not whitespace, or 0.
pub proof fn non_ws_end(s: Seq<char>) -> (b: int)
    ensures
        0 <= b <= s.len(),
        forall|i: int| b <= i < s.len() ==> is_ws(#[trigger] s[i]),
        b > 0 ==> !is_ws(s[b - 1]),
    decreases s.len(),
{
    if s.len() == 0 || !is_ws(s.last()) {
        s.len() as int
    } else {
        let t = s.drop_last();
        let r = non_ws_end(t);
        assert forall|i: int| r <= i < s.len() implies is_ws(#[trigger] s[i]) by {
            if i < s.len() - 1 {
                assert(s[i] == t[i]);
            }
        }
        if r > 0 {
            assert(s[r - 1] == t[r - 1]);
        }
        r
    }
}

/// The bounds of `v[lo..hi]` with its leading and trailing whitespace removed.
pub fn trim_bounds(v: &[char], lo: usize, hi: usize) -> (r: (usize, usize))
    requires
        lo <= hi <= v@.len(),
    ensures
        lo <= r.0 <= r.1 <= hi,
        v@.subrange(r.0 as int, r.1 as int) == trim(v@.subrange(lo as int, hi as int)),
{
    let mut start = lo;
    while start < hi && is_whitespace(v[start])
        invariant
            lo <= start <= hi <= v@.len(),
            trim_start(v@.subrange(lo as int, hi as int)) == trim_start(
                v@.subrange(start as int, hi as int),
            ),
        decreases hi - start,
    {
        proof {
            assert(v@.subrange(start as int, hi as int).drop_first() =~= v@.subrange(
                start + 1,
                hi as int,
            ));
        }
        start = start + 1;
    }
    let mut end = hi;
    while end > start && is_whitespace(v[end - 1])
        invariant
            lo <= start <= end <= hi <= v@.len(),
            trim_start(v@.subrange(lo as int, hi as int)) == v@.subrange(start as int, hi as int),
            trim_end(v@.subrange(start as int, hi as int)) == trim_end(
                v@.subrange(start as int, end as int),
            ),
        decreases end - start,
    {
        proof {
            assert(v@.subrange(start as int, end as int).drop_last() =~= v@.subrange(
                start as int,
                end - 1,
            ));
        }
        end = end - 1;
    }
    (start, end)
}

/// The bounds of `v[lo..hi]` with its trailing whitespace removed.
pub fn trim_end_bound(v: &[char], lo: usize, hi: usize) -> (end: usize)
    requires
        lo <= hi <= v@.len(),
    ensures
        lo <= end <= hi,
        v@.subrange(lo as int, end as int) == trim_end(v@.subrange(lo as int, hi as int)),
{
    let mut end = hi;
    while end > lo && is_whitespace(v[end - 1])
        invariant
            lo <= end <= hi <= v@.len(),
            trim_end(v@.subrange(lo as int, hi as int)) == trim_end(
                v@.subrange(lo as int, end as int),
            ),
        decreases end - lo,
    {
        proof {
            assert(v@.subrange(lo as int, end as int).drop_last() =~= v@.subrange(
                lo as int,
                end - 1,
            ));
        }
        end = end - 1;
    }
    end
}


// ----------------------------------------------------------------------
// Searching
// ----------------------------------------------------------------------

/// The index of the first occurrence of `c` in `s`, or -1 where `c` does not occur.
pub open spec fn first_index(s: Seq<char>, c: char) -> int
    decreases s.len(),
{
    if s.len() == 0 {
        -1
    } else if s[0] == c {
        0
    } else {
        let r = first_index(s.drop_first(), c);
        if r < 0 {
            -1
        } else {
            r + 1
        }
    }
}

/// `first_index` is -1 or the position of the first `c`.
pub proof fn lemma_first_index(s: Seq<char>, c: char)
    ensures
        -1 <= first_index(s, c) < s.len(),
        first_index(s, c) >= 0 ==> s[first_index(s, c)] == c,
        forall|j: int|
            0 <= j < s.len() && (first_index(s, c) < 0 || j < first_index(s, c)) ==> s[j] != c,
    decreases s.len(),
{
    if s.len() > 0 && s[0] != c {
        lemma_first_index(s.drop_first(), c);
        assert forall|j: int|
            0 <= j < s.len() && (first_index(s, c) < 0 || j < first_index(s, c)) implies s[j]
            != c by {
            if j > 0 {
                assert(s[j] == s.drop_first()[j - 1]);
            }
        }
    }
}

/// A position `i` before which no `c` occurs, and at which `c` occurs or `s` ends,
/// is what `first_index` gives.
pub proof fn lemma_first_index_at(s: Seq<char>, c: char, i: int)
    requires
        0 <= i <= s.len(),
        forall|j: int| 0 <= j < i ==> s[j] != c,
        i < s.len() ==> s[i] == c,
    ensures
        first_index(s, c) == (if i < s.len() {
            i
        } else {
            -1
        }),
{
    lemma_first_index(s, c);
    if first_index(s, c) >= 0 && first_index(s, c) < i {
        assert(s[first_index(s, c)] != c);
    }
}

/// The first position of `c` in `v[lo..hi]`, counted from `lo`.
pub fn find_char(v: &[char], lo: usize, hi: usize, c: char) -> (r: Option<usize>)
    requires
        lo <= hi <= v@.len(),
    ensures
        match r {
            Some(i) => lo <= i < hi && i - lo == first_index(
                v@.subrange(lo as int, hi as int),
                c,
            ),
            None => first_index(v@.subrange(lo as int, hi as int), c) == -1,
        },
{
    let ghost s = v@.subrange(lo as int, hi as int);
    let mut i = lo;
    while i < hi
        invariant
            lo <= i <= hi <= v@.len(),
            s == v@.subrange(lo as int, hi as int),
            forall|j: int| 0 <= j < i - lo ==> s[j] != c,
        decreases hi - i,
    {
        if v[i] == c {
            proof {
                lemma_first_index_at(s, c, i - lo);
            }
            return Some(i);
        }
        i = i + 1;
    }
    proof {
        lemma_first_index_at(s, c, s.len() as int);
    }
    None
}

/// Whether `needle` occurs in `hay` at position `i`.
pub open spec fn occurs_at(hay: Seq<char>, needle: Seq<char>, i: int) -> bool {
    0 <= i && i + needle.len() <= hay.len() && hay.subrange(i, i + needle.len()) == needle
}

/// Whether `needle` occurs anywhere in `hay`.
pub open spec fn contains(hay: Seq<char>, needle: Seq<char>) -> bool {
    exists|i: int| occurs_at(hay, needle, i)
}

/// Whether `needle` occurs in `hay`.
pub fn contains_chars(hay: &[char], needle: &[char]) -> (b: bool)
    ensures
        b == contains(hay@, needle@),
{
    if needle.len() > hay.len() {
        assert forall|i: int| !occurs_at(hay@, needle@, i) by {}
        return false;
    }
    let hay_len = hay.len();
    let last = hay_len - needle.len();
    let mut i: usize = 0;
    loop
        invariant
            hay_len == hay@.len(),
            needle@.len() <= hay@.len(),
            last == hay@.len() - needle@.len(),
            0 <= i <= last,
            forall|k: int| 0 <= k < i ==> !occurs_at(hay@, needle@, k),
        decreases last - i,
    {
        let mut j: usize = 0;
        while j < needle.len()
            invariant_except_break
                forall|k: int| 0 <= k < j ==> hay@[i + k] == needle@[k],
            invariant
                i <= last,
                hay_len == hay@.len(),
                needle@.len() <= hay@.len(),
                last == hay@.len() - needle@.len(),
                0 <= j <= needle@.len(),
            ensures
                forall|k: int| 0 <= k < j ==> hay@[i + k] == needle@[k],
                j < needle@.len() ==> hay@[i + j] != needle@[j as int],
            decreases needle@.len() - j,
        {
            if hay[i + j] != needle[j] {
                break;
            }
            j = j + 1;
        }
        if j == needle.len() {
            assert(hay@.subrange(i as int, i + needle@.len()) =~= needle@);
            assert(occurs_at(hay@, needle@, i as int));
            return true;
        }
        assert(hay@.subrange(i as int, i + needle@.len())[j as int] != needle@[j as int]);
        if i == last {
            assert forall|k: int| !occurs_at(hay@, needle@, k) by {
                if 0 <= k && k + needle@.len() <= hay@.len() && k != i {
                    assert(k < i);
                }
            }
            return false;
        }
        i = i + 1;
    }
}

// ----------------------------------------------------------------------
// Splitting and joining
// ----------------------------------------------------------------------

/// The pieces of `s` between occurrences of `c`, as `str::split` yields them.
pub open spec fn split(s: Seq<char>, c: char) -> Seq<Seq<char>>
    decreases s.len(),
{
    let i = first_index(s, c);
    if i < 0 {
        seq![s]
    } else {
        proof {
            lemma_first_index(s, c);
        }
        seq![s.take(i)] + split(s.skip(i + 1), c)
    }
}

/// `s` without one final carriage return.
pub open spec fn strip_cr(s: Seq<char>) -> Seq<char> {
    if s.len() > 0 && s.last() == '\r' {
        s.drop_last()
    } else {
        s
    }
}

/// The lines of `s`, as `str::lines` yields them: split at `\n` or `\r\n`, the
/// terminator not included, with no empty line after a final terminator.
pub open spec fn lines(s: Seq<char>) -> Seq<Seq<char>>
    decreases s.len(),
{
    if s.len() == 0 {
        seq![]
    } else {
        let i = first_index(s, '\n');
        if i < 0 {
            seq![s]
        } else {
            proof {
                lemma_first_index(s, '\n');
            }
            seq![strip_cr(s.take(i))] + lines(s.skip(i + 1))
        }
    }
}

/// The first line of `s`, or `s` itself where it has no line.
pub open spec fn first_line(s: Seq<char>) -> Seq<char> {
    if lines(s).len() > 0 {
        lines(s)[0]
    } else {
        s
    }
}

/// The pieces of `parts` with `sep` between each two of them.
pub open spec fn join(parts: Seq<Seq<char>>, sep: Seq<char>) -> Seq<char>
    decreases parts.len(),
{
    if parts.len() == 0 {
        seq![]
    } else if parts.len() == 1 {
        parts[0]
    } else {
        join(parts.drop_last(), sep) + sep + parts.last()
    }
}

/// The ranges of `v` that `ranges` marks out.
pub open spec fn pieces(v: Seq<char>, ranges: Seq<(usize, usize)>) -> Seq<Seq<char>> {
    ranges.map_values(|r: (usize, usize)| v.subrange(r.0 as int, r.1 as int))
}

/// Whether every range lies within `v` and in order.
pub open spec fn ranges_within(v: Seq<char>, ranges: Seq<(usize, usize)>) -> bool {
    forall|k: int| 0 <= k < ranges.len() ==> #[trigger] ranges[k].0 <= ranges[k].1 <= v.len()
}

/// The ranges of `v[lo..hi]` between occurrences of `c`.
pub fn split_ranges(v: &[char], lo: usize, hi: usize, c: char) -> (r: Vec<(usize, usize)>)
    requires
        lo <= hi <= v@.len(),
    ensures
        ranges_within(v@, r@),
        pieces(v@, r@) == split(v@.subrange(lo as int, hi as int), c),
{
    let mut r: Vec<(usize, usize)> = Vec::new();
    let mut p = lo;
    loop
        invariant
            lo <= p <= hi <= v@.len(),
            ranges_within(v@, r@),
            pieces(v@, r@) + split(v@.subrange(p as int, hi as int), c) == split(
                v@.subrange(lo as int, hi as int),
                c,
            ),
        decreases hi - p,
    {
        let ghost rest = v@.subrange(p as int, hi as int);
        let ghost prev = r@;
        match find_char(v, p, hi, c) {
            Some(q) => {
                proof {
                    assert(rest.take(q - p) =~= v@.subrange(p as int, q as int));
                    assert(rest.skip(q - p + 1) =~= v@.subrange(q + 1, hi as int));
                }
                r.push((p, q));
                proof {
                    assert(pieces(v@, r@) =~= pieces(v@, prev).push(v@.subrange(p as int, q as int)));
                    assert(pieces(v@, r@) + split(v@.subrange(q + 1, hi as int), c) =~= pieces(
                        v@,
                        prev,
                    ) + split(rest, c));
                }
                p = q + 1;
            },
            None => {
                r.push((p, hi));
                proof {
                    assert(pieces(v@, r@) =~= pieces(v@, prev).push(rest));
                    assert(pieces(v@, r@) =~= pieces(v@, prev) + split(rest, c));
                }
                return r;
            },
        }
    }
}

/// Splitting a piece free of `c`, followed by `c`, gives that piece first.
pub proof fn lemma_split_front(a: Seq<char>, rest: Seq<char>, c: char)
    requires
        forall|j: int| 0 <= j < a.len() ==> a[j] != c,
    ensures
        split(a.push(c) + rest, c) == seq![a] + split(rest, c),
{
    let s = a.push(c) + rest;
    lemma_first_index_at(s, c, a.len() as int);
    assert(s.take(a.len() as int) =~= a);
    assert(s.skip(a.len() as int + 1) =~= rest);
}

/// Splitting a piece free of `c` gives that piece alone.
pub proof fn lemma_split_none(a: Seq<char>, c: char)
    requires
        forall|j: int| 0 <= j < a.len() ==> a[j] != c,
    ensures
        split(a, c) == seq![a],
{
    lemma_first_index_at(a, c, a.len() as int);
}

/// The ranges of the lines of `v[lo..]`.
pub fn line_ranges(v: &[char], lo: usize) -> (r: Vec<(usize, usize)>)
    requires
        lo <= v@.len(),
    ensures
        ranges_within(v@, r@),
        pieces(v@, r@) == lines(v@.skip(lo as int)),
{
    let mut r: Vec<(usize, usize)> = Vec::new();
    let mut p = lo;
    while p < v.len()
        invariant
            lo <= p <= v@.len(),
            ranges_within(v@, r@),
            pieces(v@, r@) + lines(v@.skip(p as int)) == lines(v@.skip(lo as int)),
        decreases v@.len() - p,
    {
        let ghost rest = v@.skip(p as int);
        let ghost prev = r@;
        proof {
            assert(v@.subrange(p as int, v@.len() as int) =~= rest);
        }
        match find_char(v, p, v.len(), '\n') {
            Some(q) => {
                let end = if q > p && v[q - 1] == '\r' {
                    q - 1
                } else {
                    q
                };
                proof {
                    assert(strip_cr(rest.take(q - p)) =~= v@.subrange(p as int, end as int));
                    assert(rest.skip(q - p + 1) =~= v@.skip(q + 1));
                }
                r.push((p, end));
                proof {
                    assert(pieces(v@, r@) =~= pieces(v@, prev).push(v@.subrange(p as int, end as int)));
                    assert(pieces(v@, r@) + lines(v@.skip(q + 1)) =~= pieces(v@, prev) + lines(rest));
                }
                p = q + 1;
            },
            None => {
                r.push((p, v.len()));
                proof {
                    assert(pieces(v@, r@) =~= pieces(v@, prev).push(rest));
                    assert(v@.skip(v@.len() as int) =~= Seq::<char>::empty());
                    assert(pieces(v@, r@) + lines(v@.skip(v@.len() as int)) =~= pieces(v@, prev) + lines(rest));
                }
                p = v.len();
            },
        }
    }
    proof {
        assert(v@.skip(p as int) =~= Seq::<char>::empty());
        assert(pieces(v@, r@) + lines(v@.skip(p as int)) =~= pieces(v@, r@));
    }
    r
}

/// The pieces of `v` that `ranges[from..]` marks out, with `sep` between them.
pub fn join_ranges(v: &[char], ranges: &Vec<(usize, usize)>, from: usize, sep: char) -> (out: Vec<
    char,
>)
    requires
        from <= ranges@.len(),
        ranges_within(v@, ranges@),
    ensures
        out@ == join(pieces(v@, ranges@).skip(from as int), seq![sep]),
{
    let ghost ps = pieces(v@, ranges@).skip(from as int);
    let mut out: Vec<char> = Vec::new();
    let mut i = from;
    while i < ranges.len()
        invariant
            from <= i <= ranges@.len(),
            ranges_within(v@, ranges@),
            ps == pieces(v@, ranges@).skip(from as int),
            out@ == join(ps.take(i - from), seq![sep]),
        decreases ranges@.len() - i,
    {
        let (a, b) = ranges[i];
        proof {
            assert(a <= b <= v@.len()) by {
                assert(ranges@[i as int].0 <= ranges@[i as int].1 <= v@.len());
            }
        }
        let ghost before = out@;
        if i > from {
            out.push(sep);
        }
        let mut k = a;
        while k < b
            invariant
                a <= k <= b <= v@.len(),
                out@ == (if i > from {
                    before.push(sep)
                } else {
                    before
                }) + v@.subrange(a as int, k as int),
            decreases b - k,
        {
            out.push(v[k]);
            proof {
                assert(v@.subrange(a as int, k + 1) =~= v@.subrange(a as int, k as int).push(
                    v@[k as int],
                ));
            }
            k = k + 1;
        }
        proof {
            let t = ps.take(i + 1 - from);
            assert(t.drop_last() =~= ps.take(i - from));
            assert(t.last() == v@.subrange(a as int, b as int));
            if i == from {
                assert(before =~= Seq::<char>::empty());
            }
        }
        i = i + 1;
    }
    proof {
        assert(ps.take(i - from) =~= ps);
    }
    out
}


/// Whether `v[lo..hi]` holds exactly the characters of `t`.
pub fn range_equals(v: &[char], lo: usize, hi: usize, t: &str) -> (b: bool)
    requires
        lo <= hi <= v@.len(),
    ensures
        b == (v@.subrange(lo as int, hi as int) == t@),
{
    let w = chars_of(t);
    if hi - lo != w.len() {
        return false;
    }
    let mut k: usize = 0;
    while k < w.len()
        invariant
            lo <= hi <= v@.len(),
            hi - lo == w@.len(),
            w@ == t@,
            0 <= k <= w@.len(),
            forall|j: int| 0 <= j < k ==> v@[lo + j] == w@[j],
        decreases w@.len() - k,
    {
        if v[lo + k] != w[k] {
            assert(v@.subrange(lo as int, hi as int)[k as int] != t@[k as int]);
            return false;
        }
        k = k + 1;
    }
    assert(v@.subrange(lo as int, hi as int) =~= t@);
    true
}

// ----------------------------------------------------------------------
// Character classes
// ----------------------------------------------------------------------

/// An ASCII letter or digit, as `char::is_ascii_alphanumeric` tests.
pub open spec fn is_alnum(c: char) -> bool {
    ('0' <= c <= '9') || ('A' <= c <= 'Z') || ('a' <= c <= 'z')
}

/// Whether every character of `s` is an ASCII letter or digit.
pub open spec fn all_alnum(s: Seq<char>) -> bool {
    forall|i: int| 0 <= i < s.len() ==> is_alnum(#[trigger] s[i])
}

/// Whether every character of `v[lo..hi]` is an ASCII letter or digit.
pub fn all_alnum_in(v: &[char], lo: usize, hi: usize) -> (b: bool)
    requires
        lo <= hi <= v@.len(),
    ensures
        b == all_alnum(v@.subrange(lo as int, hi as int)),
{
    let mut k = lo;
    while k < hi
        invariant
            lo <= k <= hi <= v@.len(),
            forall|j: int| lo <= j < k ==> is_alnum(#[trigger] v@[j]),
        decreases hi - k,
    {
        let c = v[k];
        if !(('0' <= c && c <= '9') || ('A' <= c && c <= 'Z') || ('a' <= c && c <= 'z')) {
            assert(!is_alnum(v@.subrange(lo as int, hi as int)[k - lo]));
            return false;
        }
        k = k + 1;
    }
    assert forall|i: int| 0 <= i < hi - lo implies is_alnum(
        #[trigger] v@.subrange(lo as int, hi as int)[i],
    ) by {
        assert(v@.subrange(lo as int, hi as int)[i] == v@[lo + i]);
    }
    true
}

// ----------------------------------------------------------------------
// Decimal numbers
// ----------------------------------------------------------------------

/// An ASCII decimal digit.
pub open spec fn is_digit(c: char) -> bool {
    '0' <= c <= '9'
}

/// The value of the decimal digit `c`.
pub open spec fn digit_value(c: char) -> nat {
    (c as u32 - '0' as u32) as nat
}

/// The character of the decimal digit `d`.
pub open spec fn digit_char(d: nat) -> char {
    (d + '0' as u32) as char
}

/// The value of the decimal numeral `s`, most significant digit first.
pub open spec fn digits_value(s: Seq<char>) -> nat
    decreases s.len(),
{
    if s.len() == 0 {
        0
    } else {
        digits_value(s.drop_last()) * 10 + digit_value(s.last())
    }
}

/// What `u64::from_str` gives for `s`: one optional leading `+`, then one or more
/// ASCII digits whose value fits in a `u64`.
pub open spec fn parse_u64(s: Seq<char>) -> Option<u64> {
    let d = strip_plus(s);
    if d.len() == 0 {
        None
    } else if !(forall|i: int| 0 <= i < d.len() ==> is_digit(#[trigger] d[i])) {
        None
    } else if digits_value(d) > u64::MAX {
        None
    } else {
        Some(digits_value(d) as u64)
    }
}

/// `s` without one leading `+`.
pub open spec fn strip_plus(s: Seq<char>) -> Seq<char> {
    if s.len() > 0 && s[0] == '+' {
        s.drop_first()
    } else {
        s
    }
}

/// The decimal numeral of `n`, without leading zeros.
pub open spec fn decimal(n: nat) -> Seq<char>
    decreases n,
{
    if n < 10 {
        seq![digit_char(n)]
    } else {
        decimal(n / 10).push(digit_char(n % 10))
    }
}

/// A longer numeral is worth at least its prefix.
pub proof fn lemma_digits_value_prefix(s: Seq<char>, k: int)
    requires
        0 <= k <= s.len(),
    ensures
        digits_value(s.take(k)) <= digits_value(s),
    decreases s.len(),
{
    if k < s.len() {
        lemma_digits_value_prefix(s.drop_last(), k);
        assert(s.drop_last().take(k) =~= s.take(k));
    } else {
        assert(s.take(k) =~= s);
    }
}

/// What `u64::from_str` gives for `v[lo..hi]`.
pub fn parse_u64_in(v: &[char], lo: usize, hi: usize) -> (r: Option<u64>)
    requires
        lo <= hi <= v@.len(),
    ensures
        r == parse_u64(v@.subrange(lo as int, hi as int)),
{
    let ghost s = v@.subrange(lo as int, hi as int);
    let start = if lo < hi && v[lo] == '+' {
        lo + 1
    } else {
        lo
    };
    let ghost d = v@.subrange(start as int, hi as int);
    proof {
        if lo < hi && v@[lo as int] == '+' {
            assert(s.drop_first() =~= d);
        } else {
            assert(s =~= d);
        }
    }
    if start == hi {
        return None;
    }
    let mut acc: u64 = 0;
    let mut k = start;
    while k < hi
        invariant
            lo <= start < hi <= v@.len(),
            start <= k <= hi,
            d == v@.subrange(start as int, hi as int),
            s == v@.subrange(lo as int, hi as int),
            d == strip_plus(s),
            forall|i: int| 0 <= i < k - start ==> is_digit(#[trigger] d[i]),
            acc == digits_value(d.take(k - start)),
        decreases hi - k,
    {
        let c = v[k];
        if !('0' <= c && c <= '9') {
            assert(!is_digit(d[k - start]));
            return None;
        }
        let dv: u64 = (c as u32 - '0' as u32) as u64;
        proof {
            assert(d.take(k + 1 - start).drop_last() =~= d.take(k - start));
            assert(d.take(k + 1 - start).last() == c);
            assert(dv == digit_value(c));
            assert(digits_value(d.take(k + 1 - start)) == acc * 10 + dv);
        }
        match acc.checked_mul(10) {
            Some(m) => match m.checked_add(dv) {
                Some(n) => {
                    acc = n;
                },
                None => {
                    proof {
                        lemma_digits_value_prefix(d, k + 1 - start);
                    }
                    return None;
                },
            },
            None => {
                proof {
                    lemma_digits_value_prefix(d, k + 1 - start);
                }
                return None;
            },
        }
        k = k + 1;
    }
    assert(d.take(hi - start) =~= d);
    Some(acc)
}


/// Appends the decimal numeral of `n` to `out`.
pub fn push_decimal(out: &mut Vec<char>, n: u64)
    ensures
        final(out)@ == old(out)@ + decimal(n as nat),
    decreases n,
{
    if n >= 10 {
        push_decimal(out, n / 10);
    }
    let d: u32 = (n % 10) as u32;
    let c: char = char_of_digit(d);
    out.push(c);
    proof {
        if n >= 10 {
            assert(decimal(n as nat) == decimal((n / 10) as nat).push(digit_char((n % 10) as nat)));
        }
    }
}

/// The character of the decimal digit `d`.
fn char_of_digit(d: u32) -> (c: char)
    requires
        d < 10,
    ensures
        c == digit_char(d as nat),
{
    if d == 0 { '0' } else if d == 1 { '1' } else if d == 2 { '2' } else if d == 3 { '3' } else if d
        == 4 { '4' } else if d == 5 { '5' } else if d == 6 { '6' } else if d == 7 { '7' } else if d
        == 8 { '8' } else { '9' }
}

/// The decimal numeral of `n` consists of digits, and its value is `n`.
pub proof fn lemma_decimal(n: nat)
    ensures
        decimal(n).len() > 0,
        forall|i: int| 0 <= i < decimal(n).len() ==> is_digit(#[trigger] decimal(n)[i]),
        digits_value(decimal(n)) == n,
    decreases n,
{
    if n >= 10 {
        lemma_decimal(n / 10);
        let s = decimal(n);
        assert(s.drop_last() =~= decimal(n / 10));
        assert forall|i: int| 0 <= i < s.len() implies is_digit(#[trigger] s[i]) by {
            if i < s.len() - 1 {
                assert(s[i] == decimal(n / 10)[i]);
            }
        }
        assert(n == (n / 10) * 10 + n % 10) by (nonlinear_arith);
        lemma_digit_roundtrip(n % 10);
        assert(s.last() == digit_char(n % 10));
        assert(digits_value(s) == digits_value(s.drop_last()) * 10 + digit_value(s.last()));
    } else {
        lemma_digit_roundtrip(n);
        let s = decimal(n);
        assert(s.drop_last() =~= Seq::<char>::empty());
        assert(digits_value(s) == digits_value(s.drop_last()) * 10 + digit_value(s.last()));
    }
}

/// The value of the character of a digit is that digit.
pub proof fn lemma_digit_roundtrip(d: nat)
    requires
        d < 10,
    ensures
        digit_value(digit_char(d)) == d,
        is_digit(digit_char(d)),
{
    assert(digit_char(d) as u32 == d + 48);
}

/// Reading back the numeral of a `u64` gives that `u64`.
pub proof fn lemma_parse_decimal(n: u64)
    ensures
        parse_u64(decimal(n as nat)) == Some(n),
{
    lemma_decimal(n as nat);
    assert(strip_plus(decimal(n as nat)) == decimal(n as nat));
}

/// How many times `c` occurs in `s`.
pub open spec fn count_char(s: Seq<char>, c: char) -> nat
    decreases s.len(),
{
    if s.len() == 0 {
        0
    } else {
        count_char(s.drop_last(), c) + if s.last() == c {
            1nat
        } else {
            0nat
        }
    }
}

/// Occurrences in a concatenation add up.
pub proof fn lemma_count_char_concat(a: Seq<char>, b: Seq<char>, c: char)
    ensures
        count_char(a + b, c) == count_char(a, c) + count_char(b, c),
    decreases b.len(),
{
    if b.len() == 0 {
        assert(a + b =~= a);
    } else {
        lemma_count_char_concat(a, b.drop_last(), c);
        assert((a + b).drop_last() =~= a + b.drop_last());
    }
}

/// A sequence without `c` holds it zero times.
pub proof fn lemma_count_char_none(s: Seq<char>, c: char)
    requires
        forall|i: int| 0 <= i < s.len() ==> s[i] != c,
    ensures
        count_char(s, c) == 0,
    decreases s.len(),
{
    if s.len() > 0 {
        lemma_count_char_none(s.drop_last(), c);
    }
}

/// The first line of `s` is the part of `s` before its first line ending: it holds
/// no `\n`, and `s` either ends after it or goes on with `\n` or `\r\n`.
pub proof fn law_first_line(s: Seq<char>)
    ensures
        ({
            let f = first_line(s);
            let n = f.len() as int;
            &&& n <= s.len()
            &&& f == s.take(n)
            &&& forall|i: int| 0 <= i < n ==> f[i] != '\n'
            &&& n == s.len() || s[n] == '\n' || (s[n] == '\r' && n + 1 < s.len() && s[n + 1]
                == '\n')
        }),
{
    lemma_first_index(s, '\n');
    let i = first_index(s, '\n');
    if s.len() == 0 {
        assert(s.take(0) =~= s);
    } else if i < 0 {
        assert(lines(s) == seq![s]);
        assert(s.take(s.len() as int) =~= s);
    } else {
        assert(lines(s)[0] == strip_cr(s.take(i)));
        let t = s.take(i);
        if t.len() > 0 && t.last() == '\r' {
            assert(t.drop_last() =~= s.take(i - 1));
        }
    }
}

/// `trim_end` keeps a prefix of `s` and drops only whitespace after it.
pub proof fn law_trim_end_prefix(s: Seq<char>)
    ensures
        ({
            let t = trim_end(s);
            let n = t.len() as int;
            &&& n <= s.len()
            &&& t == s.take(n)
            &&& forall|i: int| n <= i < s.len() ==> is_ws(#[trigger] s[i])
            &&& n > 0 ==> !is_ws(s[n - 1])
        }),
{
    let b = non_ws_end(s);
    lemma_trim_end_at(s, b);
}

} // verus!
