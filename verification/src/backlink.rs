//! The backlink rewriter.
//!
//! `add_backlink` is a pure text transform: given the full text of a
//! target note and the identifier of a source note, it inserts
//! `[[source]]` into the `backlinks` field of the target's header and
//! returns the new full text.  When the identifier is already listed the
//! input comes back unchanged, so the rewrite is idempotent.  Every byte
//! outside the `backlinks` field is left untouched; the field itself is
//! rewritten in canonical form `backlinks: [ [[A]], [[B]] ]`.

use vstd::prelude::*;
use crate::text::{
    is_ws, is_blank, occurs_at, find_spec, skip_ws_spec, skip_blank_spec,
    lemma_skip_ws_bounds, lemma_skip_blank_bounds, lemma_skip_alnum_bounds,
    skip_ws, skip_blank, find_from, occurs_at_exec,
};
use crate::links::{link_token_at, link_end, spec_extract_links, extract_links, vec_contains_str};
use crate::text::skip_alnum;
use crate::envelope::spec_envelope;
use crate::note_metadata::{spec_render_list, spec_bracket_links};

verus! {

/// Why a backlink could not be inserted.
#[derive(Clone, Copy, Debug, PartialEq, Eq, Structural)]
pub enum BacklinkError {
    /// The envelope is missing, or no well-formed `backlinks` field could
    /// be located in the header.
    MalformedBacklinksField,
}

/// The label that opens a backlinks field.
pub open spec fn bk_pat() -> Seq<char> {
    seq!['b', 'a', 'c', 'k', 'l', 'i', 'n', 'k', 's', ':']
}

pub proof fn lemma_bk_lit()
    ensures "backlinks:"@ == bk_pat(),
{
    reveal_strlit("backlinks:");
    assert("backlinks:"@ =~= bk_pat());
}

/// Position of the `[` after the label: directly after it, or after one
/// whitespace character.
pub open spec fn bracket_pos(t: Seq<char>, q: int) -> Option<int> {
    if 0 <= q < t.len() && t[q] == '[' {
        Some(q)
    } else if 0 <= q && q + 1 < t.len() && is_ws(t[q]) && t[q + 1] == '[' {
        Some(q + 1)
    } else {
        None
    }
}

/// End of the item run `(\s? [[Id]] ,?)*` that starts at `c`.
pub open spec fn items_end(t: Seq<char>, c: int) -> int
    decreases t.len() - c when 0 <= c <= t.len() via items_end_dec
{
    let c1 = if c < t.len() && is_ws(t[c]) { c + 1 } else { c };
    if link_token_at(t, c1) {
        let after = link_end(t, c1);
        let after2 = if after < t.len() && t[after] == ',' { after + 1 } else { after };
        items_end(t, after2)
    } else {
        c
    }
}

#[via_fn]
proof fn items_end_dec(t: Seq<char>, c: int) {
    let c1 = if c < t.len() && is_ws(t[c]) { c + 1 } else { c };
    if link_token_at(t, c1) {
        lemma_skip_alnum_bounds(t, c1 + 2);
    }
}

pub proof fn lemma_items_end_bounds(t: Seq<char>, c: int)
    requires 0 <= c <= t.len(),
    ensures c <= items_end(t, c) <= t.len(),
    decreases t.len() - c
{
    let c1 = if c < t.len() && is_ws(t[c]) { c + 1 } else { c };
    if link_token_at(t, c1) {
        lemma_skip_alnum_bounds(t, c1 + 2);
        let after = link_end(t, c1);
        let after2 = if after < t.len() && t[after] == ',' { after + 1 } else { after };
        lemma_items_end_bounds(t, after2);
    }
}

/// Shape of a well-formed `backlinks` field starting at `p`: the label,
/// an optionally space-separated `[`, at least one whitespace character,
/// the items, optional whitespace, `]`, and trailing spaces or tabs.
/// Yields the bounds of the item run and the end of the whole field.
pub open spec fn try_field_spec(t: Seq<char>, p: int) -> Option<(int, int, int)> {
    if !occurs_at(t, p, bk_pat()) {
        None
    } else {
        match bracket_pos(t, p + 10) {
            None => None,
            Some(br) => if br + 1 > t.len() {
                None
            } else {
                let w = skip_ws_spec(t, br + 1);
                if w == br + 1 {
                    None
                } else {
                    let c = items_end(t, w);
                    let e2 = skip_ws_spec(t, c);
                    if e2 < t.len() && t[e2] == ']' {
                        Some((w, c, skip_blank_spec(t, e2 + 1)))
                    } else {
                        None
                    }
                }
            },
        }
    }
}

pub proof fn lemma_try_field_bounds(t: Seq<char>, p: int)
    requires 0 <= p,
    ensures
        match try_field_spec(t, p) {
            Some((lo, hi, end)) => p + 10 <= lo <= hi <= t.len() && hi < end <= t.len(),
            None => true,
        },
{
    if occurs_at(t, p, bk_pat()) {
        match bracket_pos(t, p + 10) {
            None => {},
            Some(br) => {
                if br + 1 <= t.len() {
                    lemma_skip_ws_bounds(t, br + 1);
                    let w = skip_ws_spec(t, br + 1);
                    if w > br + 1 {
                        lemma_items_end_bounds(t, w);
                        let c = items_end(t, w);
                        lemma_skip_ws_bounds(t, c);
                        let e2 = skip_ws_spec(t, c);
                        if e2 < t.len() && t[e2] == ']' {
                            lemma_skip_blank_bounds(t, e2 + 1);
                        }
                    }
                }
            },
        }
    }
}

/// The canonical text of a backlinks field listing the given
/// identifiers.
pub open spec fn spec_render_field(toks: Seq<Seq<char>>) -> Seq<char> {
    bk_pat() + seq![' '] + spec_render_list(spec_bracket_links(toks))
}

/// The result of `add_backlink`: the input unchanged when the identifier
/// is already listed, else the input with the located field replaced by
/// its canonical rewrite listing the old identifiers and the new one.
pub open spec fn spec_add_backlink(t: Seq<char>, id: Seq<char>) -> Result<Seq<char>, BacklinkError> {
    match spec_envelope(t) {
        None => Err(BacklinkError::MalformedBacklinksField),
        Some((h0, h1, b0)) => match find_spec(t, h0, bk_pat()) {
            None => Err(BacklinkError::MalformedBacklinksField),
            Some(p) => if p >= h1 {
                Err(BacklinkError::MalformedBacklinksField)
            } else {
                match try_field_spec(t, p) {
                    None => Err(BacklinkError::MalformedBacklinksField),
                    Some((lo, hi, end)) => {
                        let toks = spec_extract_links(t.subrange(lo, hi), 0);
                        if toks.contains(id) {
                            Ok(t)
                        } else {
                            Ok(t.subrange(0, p) + spec_render_field(toks.push(id))
                                + t.subrange(end, t.len() as int))
                        }
                    },
                }
            },
        },
    }
}

/// Walk the item run `(\s? [[Id]] ,?)*` starting at `c`.
fn items_end_exec(s: &str, c: usize) -> (r: usize)
    requires c <= s@.len(),
    ensures r == items_end(s@, c as int), c <= r <= s@.len(),
{
    proof { lemma_items_end_bounds(s@, c as int); }
    let n: usize = s.unicode_len();
    let mut cur: usize = c;
    loop
        invariant
            c <= cur <= n,
            n == s@.len(),
            items_end(s@, c as int) == items_end(s@, cur as int),
        decreases n - cur
    {
        let c1 = if cur < n && is_ws_exec(s, cur) { cur + 1 } else { cur };
        let mut token = false;
        let mut tok_end: usize = 0;
        if c1 < n && n - c1 >= 2 && s.get_char(c1) == '[' && s.get_char(c1 + 1) == '[' {
            let a = skip_alnum(s, c1 + 2);
            proof { lemma_skip_alnum_bounds(s@, c1 as int + 2); }
            if a > c1 + 2 && n - a >= 2 && s.get_char(a) == ']' && s.get_char(a + 1) == ']' {
                token = true;
                tok_end = a + 2;
                assert(link_token_at(s@, c1 as int));
                assert(tok_end == link_end(s@, c1 as int));
            }
        }
        if !token {
            assert(!link_token_at(s@, c1 as int));
            return cur;
        }
        let after2 = if tok_end < n && s.get_char(tok_end) == ',' { tok_end + 1 } else { tok_end };
        proof { lemma_items_end_bounds(s@, after2 as int); }
        cur = after2;
    }
}

/// Is the character at `i` whitespace?
fn is_ws_exec(s: &str, i: usize) -> (r: bool)
    requires i < s@.len(),
    ensures r == is_ws(s@[i as int]),
{
    let c = s.get_char(i);
    c == ' ' || c == '\t' || c == '\n' || c == '\r' || c == '\u{b}' || c == '\u{c}'
}

/// Try to read a well-formed backlinks field starting at `p`.
fn try_field(s: &str, p: usize) -> (r: Option<(usize, usize, usize)>)
    requires p <= s@.len(),
    ensures
        match r {
            Some((lo, hi, end)) => try_field_spec(s@, p as int)
                == Some((lo as int, hi as int, end as int))
                && p <= lo <= hi <= s@.len() && hi < end <= s@.len(),
            None => try_field_spec(s@, p as int) is None,
        },
{
    proof {
        lemma_try_field_bounds(s@, p as int);
        lemma_bk_lit();
    }
    let n: usize = s.unicode_len();
    if !occurs_at_exec(s, p, "backlinks:") {
        return None;
    }
    let q = p + 10;
    let br = if q < n && s.get_char(q) == '[' {
        q
    } else if q < n && n - q >= 2 && is_ws_exec(s, q) && s.get_char(q + 1) == '[' {
        q + 1
    } else {
        assert(bracket_pos(s@, q as int) is None);
        return None;
    };
    assert(bracket_pos(s@, q as int) == Some(br as int));
    let w = skip_ws(s, br + 1);
    proof { lemma_skip_ws_bounds(s@, br as int + 1); }
    if w == br + 1 {
        return None;
    }
    let c = items_end_exec(s, w);
    let e2 = skip_ws(s, c);
    proof { lemma_skip_ws_bounds(s@, c as int); }
    if e2 < n && s.get_char(e2) == ']' {
        let end = skip_blank(s, e2 + 1);
        proof { lemma_skip_blank_bounds(s@, e2 as int + 1); }
        Some((w, c, end))
    } else {
        None
    }
}

/// Insert `[[backlink_id]]` into the backlinks field of the note text.
///
/// The field is located inside the header as the first occurrence of the
/// label `backlinks:`; when it cannot be found in well-formed shape the
/// text is left alone and `MalformedBacklinksField` comes back, so a
/// caller never writes a partial result.  When the identifier is already
/// listed, the unchanged input comes back.
pub fn add_backlink(text: &str, backlink_id: &str) -> (r: Result<String, BacklinkError>)
    ensures
        match r {
            Ok(u) => spec_add_backlink(text@, backlink_id@) == Ok::<Seq<char>, BacklinkError>(u@),
            Err(e) => spec_add_backlink(text@, backlink_id@)
                == Err::<Seq<char>, BacklinkError>(e),
        },
{
    proof { lemma_bk_lit(); }
    let (h0, h1, _b0) = match crate::envelope::envelope(text) {
        Some(bounds) => bounds,
        None => {
            return Err(BacklinkError::MalformedBacklinksField);
        },
    };
    let p = match find_from(text, h0, "backlinks:") {
        Some(p) => p,
        None => {
            return Err(BacklinkError::MalformedBacklinksField);
        },
    };
    if p >= h1 {
        return Err(BacklinkError::MalformedBacklinksField);
    }
    let (lo, hi, end) = match try_field(text, p) {
        Some(shape) => shape,
        None => {
            return Err(BacklinkError::MalformedBacklinksField);
        },
    };
    let items = text.substring_char(lo, hi);
    let toks = extract_links(items);
    if vec_contains_str(&toks, backlink_id) {
        assert(spec_extract_links(text@.subrange(lo as int, hi as int), 0).contains(backlink_id@));
        return Ok(text.to_owned());
    }
    let mut all = toks;
    all.push(backlink_id.to_owned());
    assert(all.deep_view() =~= spec_extract_links(text@.subrange(lo as int, hi as int), 0)
        .push(backlink_id@));
    let n: usize = text.unicode_len();
    let mut out = text.substring_char(0, p).to_owned();
    out.append("backlinks: ");
    let field = crate::note_metadata::render_bracket_list(&all);
    out.append(field.as_str());
    out.append(text.substring_char(end, n));
    proof {
        reveal_strlit("backlinks: ");
        assert("backlinks: "@ =~= bk_pat() + seq![' ']);
        assert(out@ =~= spec_add_backlink(text@, backlink_id@)->Ok_0);
    }
    Ok(out)
}

} // verus!
