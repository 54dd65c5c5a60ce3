//! Character classes and scanning primitives over text.
//!
//! All note-format grammars in this crate are stated over `Seq<char>` views
//! of strings.  This module holds the shared building blocks: character
//! classes, runs of characters, substring search and trimming.

use vstd::prelude::*;

verus! {

/// Whitespace as the note grammar understands it: space, tab, newline,
/// carriage return, vertical tab and form feed.
pub open spec fn is_ws(c: char) -> bool {
    c == ' ' || c == '\t' || c == '\n' || c == '\r' || c == '\u{b}' || c == '\u{c}'
}

/// Space or tab only (trailing padding on a horizontal-rule line).
pub open spec fn is_blank(c: char) -> bool {
    c == ' ' || c == '\t'
}

/// ASCII alphanumeric characters, the alphabet of note identifiers.
pub open spec fn is_alnum(c: char) -> bool {
    ('a' <= c && c <= 'z') || ('A' <= c && c <= 'Z') || ('0' <= c && c <= '9')
}

/// ASCII decimal digit.
pub open spec fn is_digit(c: char) -> bool {
    '0' <= c && c <= '9'
}

/// First index at or after `i` whose character is not whitespace.
pub open spec fn skip_ws_spec(t: Seq<char>, i: int) -> int
    decreases t.len() - i when 0 <= i <= t.len()
{
    if i >= t.len() || !is_ws(t[i]) {
        i
    } else {
        skip_ws_spec(t, i + 1)
    }
}

/// First index at or after `i` whose character is not space or tab.
pub open spec fn skip_blank_spec(t: Seq<char>, i: int) -> int
    decreases t.len() - i when 0 <= i <= t.len()
{
    if i >= t.len() || !is_blank(t[i]) {
        i
    } else {
        skip_blank_spec(t, i + 1)
    }
}

/// First index at or after `i` whose character is not a newline.
pub open spec fn skip_newlines_spec(t: Seq<char>, i: int) -> int
    decreases t.len() - i when 0 <= i <= t.len()
{
    if i >= t.len() || t[i] != '\n' {
        i
    } else {
        skip_newlines_spec(t, i + 1)
    }
}

/// First index at or after `i` whose character is not alphanumeric.
pub open spec fn skip_alnum_spec(t: Seq<char>, i: int) -> int
    decreases t.len() - i when 0 <= i <= t.len()
{
    if i >= t.len() || !is_alnum(t[i]) {
        i
    } else {
        skip_alnum_spec(t, i + 1)
    }
}

/// The pattern `pat` occurs in `t` starting at index `i`.
pub open spec fn occurs_at(t: Seq<char>, i: int, pat: Seq<char>) -> bool {
    0 <= i && i + pat.len() <= t.len() && t.subrange(i, i + pat.len()) == pat
}

/// Index of the first occurrence of `pat` at or after `i`, if any.
pub open spec fn find_spec(t: Seq<char>, i: int, pat: Seq<char>) -> Option<int>
    decreases t.len() - i when 0 <= i
{
    if i + pat.len() > t.len() {
        None
    } else if pat.len() == 0 {
        Some(i)
    } else if occurs_at(t, i, pat) {
        Some(i)
    } else {
        find_spec(t, i + 1, pat)
    }
}

/// The pattern occurs somewhere in `t` (substring containment).
pub open spec fn contains_spec(t: Seq<char>, pat: Seq<char>) -> bool {
    find_spec(t, 0, pat) is Some
}

/// Basic bounds of the run functions.
pub proof fn lemma_skip_ws_bounds(t: Seq<char>, i: int)
    requires 0 <= i <= t.len(),
    ensures
        i <= skip_ws_spec(t, i) <= t.len(),
        forall|j: int| i <= j < skip_ws_spec(t, i) ==> is_ws(t[j]),
        skip_ws_spec(t, i) < t.len() ==> !is_ws(t[skip_ws_spec(t, i)]),
    decreases t.len() - i
{
    if i < t.len() && is_ws(t[i]) {
        lemma_skip_ws_bounds(t, i + 1);
    }
}

pub proof fn lemma_skip_blank_bounds(t: Seq<char>, i: int)
    requires 0 <= i <= t.len(),
    ensures
        i <= skip_blank_spec(t, i) <= t.len(),
        forall|j: int| i <= j < skip_blank_spec(t, i) ==> is_blank(t[j]),
        skip_blank_spec(t, i) < t.len() ==> !is_blank(t[skip_blank_spec(t, i)]),
    decreases t.len() - i
{
    if i < t.len() && is_blank(t[i]) {
        lemma_skip_blank_bounds(t, i + 1);
    }
}

pub proof fn lemma_skip_newlines_bounds(t: Seq<char>, i: int)
    requires 0 <= i <= t.len(),
    ensures
        i <= skip_newlines_spec(t, i) <= t.len(),
        forall|j: int| i <= j < skip_newlines_spec(t, i) ==> t[j] == '\n',
        skip_newlines_spec(t, i) < t.len() ==> t[skip_newlines_spec(t, i)] != '\n',
    decreases t.len() - i
{
    if i < t.len() && t[i] == '\n' {
        lemma_skip_newlines_bounds(t, i + 1);
    }
}

pub proof fn lemma_skip_alnum_bounds(t: Seq<char>, i: int)
    requires 0 <= i <= t.len(),
    ensures
        i <= skip_alnum_spec(t, i) <= t.len(),
        forall|j: int| i <= j < skip_alnum_spec(t, i) ==> is_alnum(t[j]),
        skip_alnum_spec(t, i) < t.len() ==> !is_alnum(t[skip_alnum_spec(t, i)]),
    decreases t.len() - i
{
    if i < t.len() && is_alnum(t[i]) {
        lemma_skip_alnum_bounds(t, i + 1);
    }
}

/// A found occurrence is the first one: nothing matches earlier.
pub proof fn lemma_find_first(t: Seq<char>, i: int, pat: Seq<char>)
    requires 0 <= i,
    ensures
        match find_spec(t, i, pat) {
            Some(m) => {
                &&& i <= m
                &&& occurs_at(t, m, pat)
                &&& forall|j: int| i <= j < m ==> !occurs_at(t, j, pat)
            },
            None => forall|j: int| i <= j ==> !occurs_at(t, j, pat),
        },
    decreases t.len() - i
{
    if i + pat.len() > t.len() {
        assert forall|j: int| i <= j implies !occurs_at(t, j, pat) by {
            assert(j + pat.len() > t.len());
        }
    } else if pat.len() == 0 {
        assert(t.subrange(i, i) =~= pat);
    } else if occurs_at(t, i, pat) {
    } else {
        lemma_find_first(t, i + 1, pat);
    }
}

/// If `pat` occurs at `m` and nowhere in `[i, m)`, the search finds `m`.
pub proof fn lemma_find_unique(t: Seq<char>, i: int, pat: Seq<char>, m: int)
    requires
        0 <= i <= m,
        occurs_at(t, m, pat),
        forall|j: int| i <= j < m ==> !occurs_at(t, j, pat),
    ensures
        find_spec(t, i, pat) == Some(m),
    decreases m - i
{
    if pat.len() == 0 && i < m {
        assert(t.subrange(i, i) =~= pat);
        assert(occurs_at(t, i, pat));
    }
    if i < m {
        assert(i + pat.len() <= t.len() || m + pat.len() > t.len());
        lemma_find_unique(t, i + 1, pat, m);
    }
}

// ------------------------------------------------------------------
// Executable counterparts.
// ------------------------------------------------------------------

/// Relies on String::push: appends exactly the one character at the end.
#[verifier::external_body]
pub fn push_char(s: &mut String, c: char)
    ensures final(s)@ == old(s)@.push(c),
{
    s.push(c);
}

/// Skip whitespace starting at `i`.
pub fn skip_ws(s: &str, i: usize) -> (r: usize)
    requires i <= s@.len(),
    ensures r == skip_ws_spec(s@, i as int),
{
    let n: usize = s.unicode_len();
    let mut j: usize = i;
    while j < n
        invariant
            i <= j <= n,
            n == s@.len(),
            skip_ws_spec(s@, i as int) == skip_ws_spec(s@, j as int),
            forall|k: int| i <= k < j ==> is_ws(s@[k]),
        decreases n - j
    {
        let c = s.get_char(j);
        if !(c == ' ' || c == '\t' || c == '\n' || c == '\r' || c == '\u{b}' || c == '\u{c}') {
            return j;
        }
        j = j + 1;
    }
    j
}

/// Skip spaces and tabs starting at `i`.
pub fn skip_blank(s: &str, i: usize) -> (r: usize)
    requires i <= s@.len(),
    ensures r == skip_blank_spec(s@, i as int),
{
    let n: usize = s.unicode_len();
    let mut j: usize = i;
    while j < n
        invariant
            i <= j <= n,
            n == s@.len(),
            skip_blank_spec(s@, i as int) == skip_blank_spec(s@, j as int),
        decreases n - j
    {
        let c = s.get_char(j);
        if !(c == ' ' || c == '\t') {
            return j;
        }
        j = j + 1;
    }
    j
}

/// Skip newlines starting at `i`.
pub fn skip_newlines(s: &str, i: usize) -> (r: usize)
    requires i <= s@.len(),
    ensures r == skip_newlines_spec(s@, i as int),
{
    let n: usize = s.unicode_len();
    let mut j: usize = i;
    while j < n
        invariant
            i <= j <= n,
            n == s@.len(),
            skip_newlines_spec(s@, i as int) == skip_newlines_spec(s@, j as int),
        decreases n - j
    {
        let c = s.get_char(j);
        if c != '\n' {
            return j;
        }
        j = j + 1;
    }
    j
}

/// Skip alphanumeric characters starting at `i`.
pub fn skip_alnum(s: &str, i: usize) -> (r: usize)
    requires i <= s@.len(),
    ensures r == skip_alnum_spec(s@, i as int),
{
    let n: usize = s.unicode_len();
    let mut j: usize = i;
    while j < n
        invariant
            i <= j <= n,
            n == s@.len(),
            skip_alnum_spec(s@, i as int) == skip_alnum_spec(s@, j as int),
        decreases n - j
    {
        let c = s.get_char(j);
        if !(('a' <= c && c <= 'z') || ('A' <= c && c <= 'Z') || ('0' <= c && c <= '9')) {
            return j;
        }
        j = j + 1;
    }
    j
}

/// Does `pat` occur in `s` starting exactly at `i`?
pub fn occurs_at_exec(s: &str, i: usize, pat: &str) -> (r: bool)
    requires i <= s@.len(),
    ensures r == occurs_at(s@, i as int, pat@),
{
    let n: usize = s.unicode_len();
    let m: usize = pat.unicode_len();
    if m > n - i {
        assert(!occurs_at(s@, i as int, pat@));
        return false;
    }
    let mut k: usize = 0;
    while k < m
        invariant
            0 <= k <= m,
            i + m <= n,
            n == s@.len(),
            m == pat@.len(),
            forall|j: int| 0 <= j < k ==> s@[i + j] == pat@[j],
        decreases m - k
    {
        if s.get_char(i + k) != pat.get_char(k) {
            assert(s@.subrange(i as int, i + m) != pat@) by {
                assert(s@.subrange(i as int, i + m)[k as int] != pat@[k as int]);
            }
            return false;
        }
        k = k + 1;
    }
    assert(s@.subrange(i as int, i + m) =~= pat@);
    true
}

/// Index of the first occurrence of `pat` in `s` at or after `i`.
pub fn find_from(s: &str, i: usize, pat: &str) -> (r: Option<usize>)
    requires i <= s@.len(),
    ensures
        match r {
            Some(m) => i <= m && m + pat@.len() <= s@.len()
                && find_spec(s@, i as int, pat@) == Some(m as int),
            None => find_spec(s@, i as int, pat@) is None,
        },
{
    let n: usize = s.unicode_len();
    let m: usize = pat.unicode_len();
    if m > n || i > n - m {
        assert(i + m > n);
        return None;
    }
    let lim: usize = n - m;
    let mut j: usize = i;
    loop
        invariant
            i <= j <= lim + 1,
            lim == n - m,
            m <= n,
            n == s@.len(),
            m == pat@.len(),
            find_spec(s@, i as int, pat@) == find_spec(s@, j as int, pat@),
        decreases lim + 1 - j
    {
        if j > lim {
            assert(j + m > n);
            return None;
        }
        if occurs_at_exec(s, j, pat) {
            assert(occurs_at(s@, j as int, pat@));
            return Some(j);
        }
        if m == 0 {
            assert(s@.subrange(j as int, j as int) =~= pat@);
            assert(false);
        }
        j = j + 1;
    }
}

/// Substring containment.
pub fn contains_str(s: &str, pat: &str) -> (r: bool)
    ensures r == contains_spec(s@, pat@),
{
    find_from(s, 0, pat).is_some()
}

/// Indices `[lo, hi)` of `t.subrange(i, j)` with surrounding whitespace
/// removed.
pub open spec fn trim_spec(t: Seq<char>, i: int, j: int) -> (int, int)
    decreases j - i when 0 <= i <= j <= t.len()
{
    if i == j {
        (i, j)
    } else if is_ws(t[i]) {
        trim_spec(t, i + 1, j)
    } else if is_ws(t[j - 1]) {
        trim_spec(t, i, j - 1)
    } else {
        (i, j)
    }
}

pub proof fn lemma_trim_bounds(t: Seq<char>, i: int, j: int)
    requires 0 <= i <= j <= t.len(),
    ensures ({
        let (lo, hi) = trim_spec(t, i, j);
        i <= lo <= hi <= j
    }),
    decreases j - i
{
    if i == j {
    } else if is_ws(t[i]) {
        lemma_trim_bounds(t, i + 1, j);
    } else if is_ws(t[j - 1]) {
        lemma_trim_bounds(t, i, j - 1);
    }
}

/// Trim whitespace from both ends of the range `[i, j)` of `s`.
pub fn trim_range(s: &str, i: usize, j: usize) -> (r: (usize, usize))
    requires i <= j && j <= s@.len(),
    ensures
        (r.0 as int, r.1 as int) == trim_spec(s@, i as int, j as int),
        i <= r.0 && r.0 <= r.1 && r.1 <= j,
{
    proof { lemma_trim_bounds(s@, i as int, j as int); }
    let mut lo: usize = i;
    let mut hi: usize = j;
    loop
        invariant
            i <= lo <= hi <= j,
            j <= s@.len(),
            trim_spec(s@, i as int, j as int) == trim_spec(s@, lo as int, hi as int),
        decreases hi - lo
    {
        if lo == hi {
            return (lo, hi);
        }
        let c = s.get_char(lo);
        if c == ' ' || c == '\t' || c == '\n' || c == '\r' || c == '\u{b}' || c == '\u{c}' {
            lo = lo + 1;
        } else {
            let d = s.get_char(hi - 1);
            if d == ' ' || d == '\t' || d == '\n' || d == '\r' || d == '\u{b}' || d == '\u{c}' {
                hi = hi - 1;
            } else {
                return (lo, hi);
            }
        }
    }
}


/// The text with every occurrence of `pat` replaced by `rep`, scanning
/// left to right over non-overlapping occurrences.
pub open spec fn replace_all_spec(t: Seq<char>, pat: Seq<char>, rep: Seq<char>) -> Seq<char>
    decreases t.len() when pat.len() > 0 via replace_all_spec_dec
{
    match find_spec(t, 0, pat) {
        None => t,
        Some(m) => t.subrange(0, m) + rep
            + replace_all_spec(t.subrange(m + pat.len(), t.len() as int), pat, rep),
    }
}

#[via_fn]
proof fn replace_all_spec_dec(t: Seq<char>, pat: Seq<char>, rep: Seq<char>) {
    lemma_find_first(t, 0, pat);
}

/// Replace every occurrence of `pat` in `s` by `rep`.
pub fn replace_all(s: &str, pat: &str, rep: &str) -> (r: String)
    requires pat@.len() > 0,
    ensures r@ == replace_all_spec(s@, pat@, rep@),
{
    let mut out = String::new();
    let mut cur: String = s.to_owned();
    assert(out@ + replace_all_spec(cur@, pat@, rep@) =~= replace_all_spec(s@, pat@, rep@));
    loop
        invariant
            pat@.len() > 0,
            out@ + replace_all_spec(cur@, pat@, rep@) == replace_all_spec(s@, pat@, rep@),
        decreases cur@.len()
    {
        let m = match find_from(cur.as_str(), 0, pat) {
            None => {
                assert(replace_all_spec(cur@, pat@, rep@) == cur@);
                out.append(cur.as_str());
                return out;
            },
            Some(m) => m,
        };
        let n: usize = cur.unicode_len();
        let plen: usize = pat.unicode_len();
        let head = cur.as_str().substring_char(0, m).to_owned();
        let rest = cur.as_str().substring_char(m + plen, n).to_owned();
        proof {
            assert(replace_all_spec(cur@, pat@, rep@) == cur@.subrange(0, m as int) + rep@
                + replace_all_spec(cur@.subrange(m as int + pat@.len() as int, cur@.len() as int),
                    pat@, rep@));
            assert(((out@ + head@) + rep@) + replace_all_spec(rest@, pat@, rep@)
                =~= out@ + ((head@ + rep@) + replace_all_spec(rest@, pat@, rep@)));
            assert(out@ + (head@ + rep@ + replace_all_spec(rest@, pat@, rep@))
                =~= out@ + replace_all_spec(cur@, pat@, rep@));
        }
        out.append(head.as_str());
        out.append(rep);
        cur = rest;
    }
}

} // verus!
