//! The structural grammar of a note file.
//!
//! A note file is an envelope: optional leading whitespace, a
//! horizontal-rule line `---`, the header text, a second `---`, and the
//! body.  The header is a block of `key: value` lines; `tags` and
//! `backlinks` carry bracketed lists.  This module delimits those three
//! structural boundaries and reads values out of the header; it is
//! deliberately tolerant of arbitrary text in unrelated fields.

use vstd::prelude::*;
use crate::text::{
    is_ws, occurs_at, find_spec, skip_ws_spec, skip_blank_spec, skip_newlines_spec, trim_spec,
    lemma_skip_ws_bounds, lemma_skip_blank_bounds, lemma_skip_newlines_bounds, lemma_trim_bounds,
    skip_ws, skip_blank, skip_newlines, find_from, occurs_at_exec, trim_range,
};

verus! {

/// First index at or after `i` holding a newline, or the end of the text.
pub open spec fn line_end_spec(t: Seq<char>, i: int) -> int
    decreases t.len() - i when 0 <= i <= t.len()
{
    if i >= t.len() || t[i] == '\n' {
        i
    } else {
        line_end_spec(t, i + 1)
    }
}

pub proof fn lemma_line_end_bounds(t: Seq<char>, i: int)
    requires 0 <= i <= t.len(),
    ensures
        i <= line_end_spec(t, i) <= t.len(),
        forall|j: int| i <= j < line_end_spec(t, i) ==> t[j] != '\n',
        line_end_spec(t, i) < t.len() ==> t[line_end_spec(t, i)] == '\n',
    decreases t.len() - i
{
    if i < t.len() && t[i] != '\n' {
        lemma_line_end_bounds(t, i + 1);
    }
}

/// Start of the maximal run of newlines that ends right before `m`,
/// bounded below by `lo`.
pub open spec fn newline_run_start(t: Seq<char>, m: int, lo: int) -> int
    decreases m - lo when 0 <= lo <= m <= t.len()
{
    if m <= lo || t[m - 1] != '\n' {
        m
    } else {
        newline_run_start(t, m - 1, lo)
    }
}

pub proof fn lemma_newline_run_start_bounds(t: Seq<char>, m: int, lo: int)
    requires 0 <= lo <= m <= t.len(),
    ensures
        lo <= newline_run_start(t, m, lo) <= m,
        forall|j: int| newline_run_start(t, m, lo) <= j < m ==> t[j] == '\n',
        newline_run_start(t, m, lo) > lo ==> t[newline_run_start(t, m, lo) - 1] != '\n',
    decreases m - lo
{
    if m > lo && t[m - 1] == '\n' {
        lemma_newline_run_start_bounds(t, m - 1, lo);
    }
}

/// The three hyphens of a horizontal rule.
pub open spec fn hr_pat() -> Seq<char> {
    seq!['-', '-', '-']
}

/// Structural boundaries of a note file: start of the header text, end of
/// the header text, start of the body.
///
/// The envelope is: leading whitespace, `---` padded by spaces or tabs and
/// closed by a newline, any further newlines, the header text, newlines,
/// `---` with optional padding and at most one newline, then the body.
/// The header ends at the first later occurrence of `---`, with the run of
/// newlines directly before that rule not counted as header text.
pub open spec fn spec_envelope(t: Seq<char>) -> Option<(int, int, int)> {
    let i = skip_ws_spec(t, 0);
    if !(i + 3 <= t.len() && t[i] == '-' && t[i + 1] == '-' && t[i + 2] == '-') {
        None
    } else {
        let j = skip_blank_spec(t, i + 3);
        if !(j < t.len() && t[j] == '\n') {
            None
        } else {
            let h0 = skip_newlines_spec(t, j);
            match find_spec(t, h0, hr_pat()) {
                None => None,
                Some(m) => {
                    let h1 = newline_run_start(t, m, h0);
                    let p = skip_blank_spec(t, m + 3);
                    let b0 = if p < t.len() && t[p] == '\n' { p + 1 } else { p };
                    Some((h0, h1, b0))
                },
            }
        }
    }
}

/// The boundaries are ordered and in range.
pub proof fn lemma_envelope_bounds(t: Seq<char>)
    ensures
        match spec_envelope(t) {
            Some((h0, h1, b0)) => 0 <= h0 <= h1 <= t.len() && h1 <= b0 <= t.len(),
            None => true,
        },
{
    lemma_skip_ws_bounds(t, 0);
    let i = skip_ws_spec(t, 0);
    if i + 3 <= t.len() && t[i] == '-' && t[i + 1] == '-' && t[i + 2] == '-' {
        lemma_skip_blank_bounds(t, i + 3);
        let j = skip_blank_spec(t, i + 3);
        if j < t.len() && t[j] == '\n' {
            lemma_skip_newlines_bounds(t, j);
            let h0 = skip_newlines_spec(t, j);
            crate::text::lemma_find_first(t, h0, hr_pat());
            match find_spec(t, h0, hr_pat()) {
                None => {},
                Some(m) => {
                    lemma_newline_run_start_bounds(t, m, h0);
                    lemma_skip_blank_bounds(t, m + 3);
                },
            }
        }
    }
}

/// Locate the structural boundaries of a note file.
pub fn envelope(s: &str) -> (r: Option<(usize, usize, usize)>)
    ensures
        match r {
            Some((h0, h1, b0)) => {
                &&& spec_envelope(s@) == Some((h0 as int, h1 as int, b0 as int))
                &&& h0 <= h1 <= s@.len()
                &&& h1 <= b0 <= s@.len()
            },
            None => spec_envelope(s@) is None,
        },
{
    proof { lemma_envelope_bounds(s@); }
    let n: usize = s.unicode_len();
    let i = skip_ws(s, 0);
    proof { lemma_skip_ws_bounds(s@, 0); }
    if !(n - i >= 3 && s.get_char(i) == '-' && s.get_char(i + 1) == '-' && s.get_char(i + 2) == '-') {
        return None;
    }
    let j = skip_blank(s, i + 3);
    proof { lemma_skip_blank_bounds(s@, i as int + 3); }
    if !(j < n && s.get_char(j) == '\n') {
        return None;
    }
    let h0 = skip_newlines(s, j);
    proof { lemma_skip_newlines_bounds(s@, j as int); }
    let m = match find_hr(s, h0) {
        Some(m) => m,
        None => {
            return None;
        },
    };
    let h1 = newline_run_start_exec(s, m, h0);
    let p = skip_blank(s, m + 3);
    proof { lemma_skip_blank_bounds(s@, m as int + 3); }
    let b0 = if p < n && s.get_char(p) == '\n' { p + 1 } else { p };
    Some((h0, h1, b0))
}

/// Find the first `---` at or after `i`.
fn find_hr(s: &str, i: usize) -> (r: Option<usize>)
    requires i <= s@.len(),
    ensures
        match r {
            Some(m) => find_spec(s@, i as int, hr_pat()) == Some(m as int)
                && i <= m && m + 3 <= s@.len(),
            None => find_spec(s@, i as int, hr_pat()) is None,
        },
{
    proof {
        reveal_strlit("---");
        assert("---"@ =~= hr_pat());
    }
    find_from(s, i, "---")
}

/// Start of the newline run ending right before `m`.
fn newline_run_start_exec(s: &str, m: usize, lo: usize) -> (r: usize)
    requires lo <= m && m <= s@.len(),
    ensures r == newline_run_start(s@, m as int, lo as int),
{
    let mut k: usize = m;
    loop
        invariant
            lo <= k <= m <= s@.len(),
            newline_run_start(s@, m as int, lo as int) == newline_run_start(s@, k as int, lo as int),
        decreases k - lo
    {
        if k <= lo || s.get_char(k - 1) != '\n' {
            return k;
        }
        k = k - 1;
    }
}

/// A `key: value` line starts at `i`.
pub open spec fn line_matches_key(t: Seq<char>, i: int, key: Seq<char>) -> bool {
    occurs_at(t, i, key) && i + key.len() < t.len() && t[i + key.len()] == ':'
}

/// Start of the first line whose key is `key`, scanning line by line from
/// `i`.
pub open spec fn find_key_spec(t: Seq<char>, i: int, key: Seq<char>) -> Option<int>
    decreases t.len() - i when 0 <= i <= t.len() via find_key_spec_dec
{
    if line_matches_key(t, i, key) {
        Some(i)
    } else {
        let e = line_end_spec(t, i);
        if e >= t.len() {
            None
        } else {
            find_key_spec(t, e + 1, key)
        }
    }
}

#[via_fn]
proof fn find_key_spec_dec(t: Seq<char>, i: int, key: Seq<char>) {
    lemma_line_end_bounds(t, i);
}

/// The trimmed value of the first `key:` line of the header, `None` when
/// no line carries the key or the value is blank.
pub open spec fn spec_header_value(t: Seq<char>, key: Seq<char>) -> Option<Seq<char>> {
    match find_key_spec(t, 0, key) {
        None => None,
        Some(li) => {
            let e = line_end_spec(t, li);
            if li + key.len() + 1 <= e {
                let lo = trim_spec(t, li + key.len() + 1, e).0;
                let hi = trim_spec(t, li + key.len() + 1, e).1;
                if lo == hi {
                    None
                } else {
                    Some(t.subrange(lo, hi))
                }
            } else {
                None
            }
        },
    }
}

/// Scan for the first line of `s` whose key is `key`.
fn find_key(s: &str, key: &str) -> (r: Option<usize>)
    ensures
        match r {
            Some(li) => find_key_spec(s@, 0, key@) == Some(li as int)
                && li + key@.len() < s@.len() && line_matches_key(s@, li as int, key@),
            None => find_key_spec(s@, 0, key@) is None,
        },
{
    let n: usize = s.unicode_len();
    let klen: usize = key.unicode_len();
    let mut i: usize = 0;
    loop
        invariant
            0 <= i <= n,
            n == s@.len(),
            klen == key@.len(),
            find_key_spec(s@, 0, key@) == find_key_spec(s@, i as int, key@),
        decreases n - i
    {
        let matches = if occurs_at_exec(s, i, key) {
            i + klen < n && s.get_char(i + klen) == ':'
        } else {
            false
        };
        if matches {
            assert(line_matches_key(s@, i as int, key@));
            return Some(i);
        }
        assert(!line_matches_key(s@, i as int, key@));
        let e = line_end(s, i);
        proof { lemma_line_end_bounds(s@, i as int); }
        if e >= n {
            return None;
        }
        i = e + 1;
    }
}

/// First newline at or after `i`, or the end of the text.
fn line_end(s: &str, i: usize) -> (r: usize)
    requires i <= s@.len(),
    ensures r == line_end_spec(s@, i as int), i <= r <= s@.len(),
{
    proof { lemma_line_end_bounds(s@, i as int); }
    let n: usize = s.unicode_len();
    let mut j: usize = i;
    while j < n
        invariant
            i <= j <= n,
            n == s@.len(),
            line_end_spec(s@, i as int) == line_end_spec(s@, j as int),
        decreases n - j
    {
        if s.get_char(j) == '\n' {
            return j;
        }
        j = j + 1;
    }
    j
}

/// Read the trimmed value of the first `key:` line of the header.
pub fn header_value(s: &str, key: &str) -> (r: Option<String>)
    ensures
        match r {
            Some(v) => spec_header_value(s@, key@) == Some(v@),
            None => spec_header_value(s@, key@) is None,
        },
{
    let li = match find_key(s, key) {
        Some(li) => li,
        None => {
            return None;
        },
    };
    let e = line_end(s, li);
    proof { lemma_line_end_bounds(s@, li as int); }
    let klen: usize = key.unicode_len();
    if !(e - li > klen) {
        assert(li + key@.len() + 1 > line_end_spec(s@, li as int));
        return None;
    }
    assert(li + klen + 1 <= e);
    let (lo, hi) = trim_range(s, li + klen + 1, e);
    if lo == hi {
        None
    } else {
        Some(s.substring_char(lo, hi).to_owned())
    }
}

/// First comma at or after `i`, capped at `j`.
pub open spec fn next_comma_spec(t: Seq<char>, i: int, j: int) -> int
    decreases j - i when 0 <= i <= j <= t.len()
{
    if i >= j || t[i] == ',' {
        i
    } else {
        next_comma_spec(t, i + 1, j)
    }
}

pub proof fn lemma_next_comma_bounds(t: Seq<char>, i: int, j: int)
    requires 0 <= i <= j <= t.len(),
    ensures
        i <= next_comma_spec(t, i, j) <= j,
        forall|k: int| i <= k < next_comma_spec(t, i, j) ==> t[k] != ',',
        next_comma_spec(t, i, j) < j ==> t[next_comma_spec(t, i, j)] == ',',
    decreases j - i
{
    if i < j && t[i] != ',' {
        lemma_next_comma_bounds(t, i + 1, j);
    }
}

/// Split the range `[i, j)` on commas; each piece is trimmed and empty
/// pieces are dropped.
pub open spec fn split_items_spec(t: Seq<char>, i: int, j: int) -> Seq<Seq<char>>
    decreases j - i when 0 <= i <= j <= t.len() via split_items_spec_dec
{
    let c = next_comma_spec(t, i, j);
    let lo = trim_spec(t, i, c).0;
    let hi = trim_spec(t, i, c).1;
    let head = if lo == hi { Seq::<Seq<char>>::empty() } else { seq![t.subrange(lo, hi)] };
    if c >= j {
        head
    } else {
        head + split_items_spec(t, c + 1, j)
    }
}

#[via_fn]
proof fn split_items_spec_dec(t: Seq<char>, i: int, j: int) {
    lemma_next_comma_bounds(t, i, j);
}

/// A bracketed list value `[ a, b ]`: `None` when the value is not
/// bracketed, else its comma-separated items, trimmed, empties dropped.
pub open spec fn spec_parse_list(v: Seq<char>) -> Option<Seq<Seq<char>>> {
    if v.len() >= 2 && v[0] == '[' && v[v.len() - 1] == ']' {
        Some(split_items_spec(v, 1, v.len() - 1))
    } else {
        None
    }
}

/// First comma of `s` at or after `i`, capped at `j`.
fn next_comma(s: &str, i: usize, j: usize) -> (r: usize)
    requires i <= j && j <= s@.len(),
    ensures r == next_comma_spec(s@, i as int, j as int), i <= r <= j,
{
    proof { lemma_next_comma_bounds(s@, i as int, j as int); }
    let mut k: usize = i;
    while k < j
        invariant
            i <= k <= j <= s@.len(),
            next_comma_spec(s@, i as int, j as int) == next_comma_spec(s@, k as int, j as int),
        decreases j - k
    {
        if s.get_char(k) == ',' {
            return k;
        }
        k = k + 1;
    }
    k
}

/// Split the range `[i, j)` of `s` on commas into trimmed nonempty items.
pub fn split_items(s: &str, i: usize, j: usize) -> (r: Vec<String>)
    requires i <= j && j <= s@.len(),
    ensures r.deep_view() == split_items_spec(s@, i as int, j as int),
{
    let mut out: Vec<String> = Vec::new();
    let mut cur: usize = i;
    loop
        invariant
            i <= cur,
            cur <= j + 1,
            j <= s@.len(),
            cur <= j ==> out.deep_view() + split_items_spec(s@, cur as int, j as int)
                == split_items_spec(s@, i as int, j as int),
            cur > j ==> out.deep_view() == split_items_spec(s@, i as int, j as int),
        decreases j + 1 - cur
    {
        if cur > j {
            return out;
        }
        let c = next_comma(s, cur, j);
        let (lo, hi) = trim_range(s, cur, c);
        let ghost pre = out.deep_view();
        let ghost head = if lo == hi { Seq::<Seq<char>>::empty() } else {
            seq![s@.subrange(lo as int, hi as int)]
        };
        if lo != hi {
            out.push(s.substring_char(lo, hi).to_owned());
        }
        assert(out.deep_view() =~= pre + head);
        if c >= j {
            assert(split_items_spec(s@, cur as int, j as int) == head);
            assert(out.deep_view() =~= split_items_spec(s@, i as int, j as int));
            return out;
        }
        proof {
            assert(split_items_spec(s@, cur as int, j as int)
                == head + split_items_spec(s@, c as int + 1, j as int));
            assert((pre + head) + split_items_spec(s@, c as int + 1, j as int)
                =~= pre + (head + split_items_spec(s@, c as int + 1, j as int)));
        }
        cur = c + 1;
    }
}

/// Parse a bracketed list value into its items.
pub fn parse_list(v: &str) -> (r: Option<Vec<String>>)
    ensures
        match r {
            Some(items) => spec_parse_list(v@) == Some(items.deep_view()),
            None => spec_parse_list(v@) is None,
        },
{
    let n: usize = v.unicode_len();
    if n >= 2 && v.get_char(0) == '[' && v.get_char(n - 1) == ']' {
        Some(split_items(v, 1, n - 1))
    } else {
        None
    }
}

} // verus!
