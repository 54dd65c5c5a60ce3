//! The parser/writer round trip.
//!
//! Parsing a file in canonical form and rendering the fields again
//! reproduces the text byte for byte; equivalently, `spec_parse` inverts
//! `spec_render_note` on well-formed field values.  The proof walks the
//! rendered text through every stage of the parser.

use vstd::prelude::*;
use crate::text::{
    is_ws, is_alnum, occurs_at, find_spec, skip_ws_spec, skip_blank_spec, skip_newlines_spec,
    skip_alnum_spec, trim_spec, lemma_find_unique,
};
use crate::links::{alnum_id, link_token_at, link_text, link_end, spec_extract_links};
use crate::envelope::{line_end_spec, next_comma_spec, split_items_spec, spec_parse_list,
    spec_header_value, find_key_spec, line_matches_key, newline_run_start, spec_envelope, hr_pat};
use crate::note_metadata::{
    ParsedFields, FormatError, spec_join, spec_render_list, spec_bracket_links,
    spec_render_header, spec_render_note, spec_parse, spec_tags_of_header,
    spec_backlinks_of_header,
};
use crate::timestamp::{Timestamp, spec_format_timestamp, spec_parse_timestamp, digit_char,
    lemma_timestamp_round_trip};

verus! {

/// No two consecutive hyphens: such a run could be mistaken for the
/// horizontal rule that closes the header.
pub open spec fn no_hyphen_pair(s: Seq<char>) -> bool {
    forall|i: int| 0 <= i && i + 1 < s.len() ==> !((#[trigger] s[i]) == '-' && s[i + 1] == '-')
}

/// A value fit for the `name` header line: nonempty, free of newlines
/// and hyphen runs, not padded with whitespace.
pub open spec fn rt_value(s: Seq<char>) -> bool {
    &&& s.len() > 0
    &&& !is_ws(s[0])
    &&& !is_ws(s[s.len() - 1])
    &&& (forall|i: int| 0 <= i < s.len() ==> s[i] != '\n')
    &&& no_hyphen_pair(s)
}

/// A value fit for one item of the `tags` list: a name value without
/// commas, which would split the item.
pub open spec fn rt_tag(s: Seq<char>) -> bool {
    rt_value(s) && forall|i: int| 0 <= i < s.len() ==> s[i] != ','
}

/// Field values in canonical form: what the round trip asks of a note.
pub open spec fn wf_parsed(pn: ParsedFields) -> bool {
    &&& alnum_id(pn.id)
    &&& rt_value(pn.name)
    &&& pn.date.wf()
    &&& (forall|k: int| 0 <= k < pn.tags.len() ==> rt_tag(#[trigger] pn.tags[k]))
    &&& (forall|k: int| 0 <= k < pn.backlinks.len() ==> alnum_id(#[trigger] pn.backlinks[k]))
}

// ------------------------------------------------------------------
// Exact-position lemmas for the scanning primitives.
// ------------------------------------------------------------------

pub proof fn lemma_line_end_at(t: Seq<char>, i: int, e: int)
    requires
        0 <= i <= e <= t.len(),
        forall|j: int| i <= j < e ==> t[j] != '\n',
        e == t.len() || t[e] == '\n',
    ensures line_end_spec(t, i) == e,
    decreases e - i
{
    if i < e {
        lemma_line_end_at(t, i + 1, e);
    }
}

pub proof fn lemma_next_comma_at(t: Seq<char>, i: int, j: int, c: int)
    requires
        0 <= i <= c <= j <= t.len(),
        forall|k: int| i <= k < c ==> t[k] != ',',
        c == j || t[c] == ',',
    ensures next_comma_spec(t, i, j) == c,
    decreases c - i
{
    if i < c {
        lemma_next_comma_at(t, i + 1, j, c);
    }
}

pub proof fn lemma_skip_alnum_at(t: Seq<char>, i: int, e: int)
    requires
        0 <= i <= e <= t.len(),
        forall|j: int| i <= j < e ==> is_alnum(t[j]),
        e == t.len() || !is_alnum(t[e]),
    ensures skip_alnum_spec(t, i) == e,
    decreases e - i
{
    if i < e {
        lemma_skip_alnum_at(t, i + 1, e);
    }
}

pub proof fn lemma_skip_newlines_at(t: Seq<char>, i: int, e: int)
    requires
        0 <= i <= e <= t.len(),
        forall|j: int| i <= j < e ==> t[j] == '\n',
        e == t.len() || t[e] != '\n',
    ensures skip_newlines_spec(t, i) == e,
    decreases e - i
{
    if i < e {
        lemma_skip_newlines_at(t, i + 1, e);
    }
}

pub proof fn lemma_newline_run_start_at(t: Seq<char>, m: int, lo: int, e: int)
    requires
        0 <= lo <= e <= m <= t.len(),
        forall|j: int| e <= j < m ==> t[j] == '\n',
        e == lo || t[e - 1] != '\n',
    ensures newline_run_start(t, m, lo) == e,
    decreases m - e
{
    if e < m {
        lemma_newline_run_start_at(t, m - 1, lo, e);
    }
}

/// Trimming a region of the shape `' '` plus a value with unpadded ends.
pub proof fn lemma_trim_after_space(t: Seq<char>, i: int, j: int)
    requires
        0 <= i && i + 1 < j <= t.len(),
        is_ws(t[i]),
        !is_ws(t[i + 1]),
        !is_ws(t[j - 1]),
    ensures trim_spec(t, i, j) == (i + 1, j),
{
    assert(trim_spec(t, i + 1, j) == (i + 1, j));
}

// ------------------------------------------------------------------
// Hyphen-run reasoning.
// ------------------------------------------------------------------

pub proof fn lemma_no_pair_concat(a: Seq<char>, b: Seq<char>)
    requires
        no_hyphen_pair(a),
        no_hyphen_pair(b),
        !(a.len() > 0 && b.len() > 0 && a.last() == '-' && b[0] == '-'),
    ensures no_hyphen_pair(a + b),
{
    let c = a + b;
    assert forall|i: int| 0 <= i && i + 1 < c.len()
        implies !((#[trigger] c[i]) == '-' && c[i + 1] == '-') by {
        if i + 1 < a.len() {
            assert(c[i] == a[i] && c[i + 1] == a[i + 1]);
        } else if i >= a.len() {
            assert(c[i] == b[i - a.len()] && c[i + 1] == b[i + 1 - a.len()]);
        } else {
            assert(i == a.len() - 1);
            assert(c[i] == a.last() && c[i + 1] == b[0]);
        }
    }
}

/// An all-alphanumeric value holds no hyphen at all.
pub proof fn lemma_alnum_no_pair(s: Seq<char>)
    requires forall|i: int| 0 <= i < s.len() ==> is_alnum(#[trigger] s[i]),
    ensures
        no_hyphen_pair(s),
        forall|i: int| 0 <= i < s.len() ==> s[i] != '-' && s[i] != '\n' && !is_ws(s[i])
            && s[i] != ',' && s[i] != '[' && s[i] != ']',
{
    assert forall|i: int| 0 <= i < s.len()
        implies s[i] != '-' && s[i] != '\n' && !is_ws(s[i]) && s[i] != ','
            && s[i] != '[' && s[i] != ']' by {
        assert(is_alnum(s[i]));
    }
}

/// A digit character is never a separator.
pub proof fn lemma_digit_char_class(d: int)
    ensures
        crate::text::is_digit(digit_char(d)),
        digit_char(d) != '-' && digit_char(d) != '\n' && !is_ws(digit_char(d))
            && digit_char(d) != ',',
{
}

/// Character classes of the rendered timestamp: nineteen characters,
/// hyphens only at the two date positions, digits elsewhere except the
/// inner space and colons.
pub proof fn lemma_fmt_facts(ts: Timestamp)
    ensures ({
        let f = spec_format_timestamp(ts);
        &&& f.len() == 19
        &&& no_hyphen_pair(f)
        &&& (forall|i: int| 0 <= i < f.len() ==> f[i] != '\n' && f[i] != ',')
        &&& !is_ws(f[0])
        &&& !is_ws(f[18])
    }),
{
    let f = spec_format_timestamp(ts);
    assert(f.len() == 19);
    assert forall|i: int| 0 <= i < 19 implies f[i] != '\n' && f[i] != ','
        && (f[i] == '-' ==> (i == 4 || i == 7)) by {
        lemma_digit_char_class((ts.year as int) / 1000);
        lemma_digit_char_class(((ts.year as int) / 100) % 10);
        lemma_digit_char_class(((ts.year as int) / 10) % 10);
        lemma_digit_char_class((ts.year as int) % 10);
        lemma_digit_char_class((ts.month as int) / 10);
        lemma_digit_char_class((ts.month as int) % 10);
        lemma_digit_char_class((ts.day as int) / 10);
        lemma_digit_char_class((ts.day as int) % 10);
        lemma_digit_char_class((ts.hour as int) / 10);
        lemma_digit_char_class((ts.hour as int) % 10);
        lemma_digit_char_class((ts.minute as int) / 10);
        lemma_digit_char_class((ts.minute as int) % 10);
        lemma_digit_char_class((ts.second as int) / 10);
        lemma_digit_char_class((ts.second as int) % 10);
    }
    assert forall|i: int| 0 <= i && i + 1 < 19
        implies !((#[trigger] f[i]) == '-' && f[i + 1] == '-') by {
        if f[i] == '-' && f[i + 1] == '-' {
            assert(i == 4 || i == 7);
            assert(i + 1 == 4 || i + 1 == 7);
        }
    }
    lemma_digit_char_class((ts.year as int) / 1000);
    lemma_digit_char_class((ts.second as int) % 10);
    assert(!is_ws(f[0]));
    assert(!is_ws(f[18]));
}


/// Peeling the first item off a joined list.
pub proof fn lemma_join_head(items: Seq<Seq<char>>)
    requires items.len() >= 2,
    ensures spec_join(items) == items[0] + ", "@ + spec_join(items.drop_first()),
    decreases items.len()
{
    let dl = items.drop_last();
    let df = items.drop_first();
    if items.len() == 2 {
        assert(spec_join(items) == spec_join(dl) + ", "@ + items.last());
        assert(spec_join(dl) == dl[0]);
        assert(dl[0] == items[0]);
        assert(spec_join(df) == df[0]);
        assert(df[0] == items[1]);
        assert(items[0] + ", "@ + spec_join(df) =~= spec_join(dl) + ", "@ + items.last());
    } else {
        lemma_join_head(dl);
        assert(spec_join(items) == spec_join(dl) + ", "@ + items.last());
        assert(spec_join(dl) == dl[0] + ", "@ + spec_join(dl.drop_first()));
        assert(dl[0] == items[0]);
        assert(df.drop_last() =~= dl.drop_first());
        assert(spec_join(df) == spec_join(df.drop_last()) + ", "@ + df.last());
        assert(df.last() == items.last());
        assert((items[0] + ", "@ + spec_join(dl.drop_first())) + ", "@ + items.last()
            =~= items[0] + ", "@ + (spec_join(dl.drop_first()) + ", "@ + items.last()));
    }
}

/// Items free of newlines, commas at most, and hyphen runs: what the
/// join of a list keeps.
pub open spec fn joinable(items: Seq<Seq<char>>) -> bool {
    forall|k: int| 0 <= k < items.len() ==> {
        let s = #[trigger] items[k];
        s.len() > 0 && !is_ws(s[0]) && !is_ws(s[s.len() - 1]) && no_hyphen_pair(s)
            && (forall|i: int| 0 <= i < s.len() ==> s[i] != '\n')
    }
}

pub proof fn lemma_join_facts(items: Seq<Seq<char>>)
    requires joinable(items), items.len() > 0,
    ensures ({
        let j = spec_join(items);
        &&& j.len() > 0
        &&& no_hyphen_pair(j)
        &&& (forall|i: int| 0 <= i < j.len() ==> j[i] != '\n')
        &&& !is_ws(j[0])
        &&& !is_ws(j[j.len() - 1])
    }),
    decreases items.len()
{
    reveal_strlit(", ");
    let j = spec_join(items);
    if items.len() == 1 {
        assert(j == items[0]);
    } else {
        let dl = items.drop_last();
        assert(joinable(dl)) by {
            assert forall|k: int| 0 <= k < dl.len() implies ({
                let s = #[trigger] dl[k];
                s.len() > 0 && !is_ws(s[0]) && !is_ws(s[s.len() - 1]) && no_hyphen_pair(s)
                    && (forall|i: int| 0 <= i < s.len() ==> s[i] != '\n')
            }) by {
                assert(dl[k] == items[k]);
            }
        }
        lemma_join_facts(dl);
        let jp = spec_join(dl);
        let last = items.last();
        assert(j == jp + ", "@ + last);
        assert(", "@.len() == 2 && ", "@[0] == ',' && ", "@[1] == ' ');
        assert(no_hyphen_pair(", "@));
        lemma_no_pair_concat(jp, ", "@);
        lemma_no_pair_concat(jp + ", "@, last);
        assert forall|i: int| 0 <= i < j.len() implies j[i] != '\n' by {
            if i < jp.len() {
                assert(j[i] == jp[i]);
            } else if i < jp.len() + 2 {
                assert(j[i] == ", "@[i - jp.len()]);
            } else {
                assert(j[i] == last[i - jp.len() - 2]);
            }
        }
        assert(j[0] == jp[0]);
        assert(j[j.len() - 1] == last[last.len() - 1]);
    }
}

/// Shape of a rendered bracketed list.
#[verifier::rlimit(60)]
#[verifier::spinoff_prover]
pub proof fn lemma_render_list_shape(items: Seq<Seq<char>>)
    requires joinable(items),
    ensures ({
        let r = spec_render_list(items);
        &&& r.len() >= 3
        &&& r[0] == '['
        &&& r[r.len() - 1] == ']'
    }),
{
    let r = spec_render_list(items);
    if items.len() == 0 {
        reveal_strlit("[ ]");
        assert(r == "[ ]"@);
        assert(r.len() == 3 && r[0] == '[' && r[2] == ']');
    } else {
        reveal_strlit("[ ");
        reveal_strlit(" ]");
        lemma_join_facts(items);
        let j = spec_join(items);
        assert(r == "[ "@ + j + " ]"@);
        assert("[ "@.len() == 2 && "[ "@[0] == '[' && "[ "@[1] == ' ');
        assert(" ]"@.len() == 2 && " ]"@[0] == ' ' && " ]"@[1] == ']');
        assert(r.len() == j.len() + 4);
        assert(r[0] == '[');
        assert(r[r.len() - 1] == ']');
    }
}

/// A rendered bracketed list holds no hyphen run.
#[verifier::rlimit(60)]
#[verifier::spinoff_prover]
pub proof fn lemma_render_list_no_pair(items: Seq<Seq<char>>)
    requires joinable(items),
    ensures no_hyphen_pair(spec_render_list(items)),
{
    let r = spec_render_list(items);
    if items.len() == 0 {
        reveal_strlit("[ ]");
        assert(r == "[ ]"@);
        assert(r.len() == 3 && r[0] == '[' && r[1] == ' ' && r[2] == ']');
        assert forall|i: int| 0 <= i && i + 1 < r.len()
            implies !((#[trigger] r[i]) == '-' && r[i + 1] == '-') by {}
    } else {
        reveal_strlit("[ ");
        reveal_strlit(" ]");
        lemma_join_facts(items);
        let j = spec_join(items);
        assert(r == "[ "@ + j + " ]"@);
        assert("[ "@.len() == 2 && "[ "@[0] == '[' && "[ "@[1] == ' ');
        assert(" ]"@.len() == 2 && " ]"@[0] == ' ' && " ]"@[1] == ']');
        assert(no_hyphen_pair("[ "@));
        assert(no_hyphen_pair(" ]"@));
        lemma_no_pair_concat("[ "@, j);
        lemma_no_pair_concat("[ "@ + j, " ]"@);
    }
}

/// A rendered bracketed list holds no newline.
#[verifier::rlimit(60)]
#[verifier::spinoff_prover]
pub proof fn lemma_render_list_no_newline(items: Seq<Seq<char>>)
    requires joinable(items),
    ensures forall|i: int|
        0 <= i < spec_render_list(items).len() ==> (#[trigger] spec_render_list(items)[i]) != '\n',
{
    let r = spec_render_list(items);
    if items.len() == 0 {
        reveal_strlit("[ ]");
        assert(r == "[ ]"@);
        assert(r.len() == 3 && r[0] == '[' && r[1] == ' ' && r[2] == ']');
        assert forall|i: int| 0 <= i < r.len() implies (#[trigger] r[i]) != '\n' by {}
    } else {
        reveal_strlit("[ ");
        reveal_strlit(" ]");
        lemma_join_facts(items);
        let j = spec_join(items);
        assert(r == "[ "@ + j + " ]"@);
        assert("[ "@.len() == 2 && "[ "@[0] == '[' && "[ "@[1] == ' ');
        assert(" ]"@.len() == 2 && " ]"@[0] == ' ' && " ]"@[1] == ']');
        assert forall|i: int| 0 <= i < r.len() implies (#[trigger] r[i]) != '\n' by {
            if i < 2 {
                assert(r[i] == "[ "@[i]);
            } else if i < 2 + j.len() {
                assert(r[i] == j[i - 2]);
            } else {
                assert(r[i] == " ]"@[i - 2 - j.len()]);
            }
        }
    }
}

/// Shape and character classes of a rendered bracketed list.
pub proof fn lemma_render_list_facts(items: Seq<Seq<char>>)
    requires joinable(items),
    ensures ({
        let r = spec_render_list(items);
        &&& r.len() >= 3
        &&& r[0] == '['
        &&& r[r.len() - 1] == ']'
        &&& no_hyphen_pair(r)
        &&& (forall|i: int| 0 <= i < r.len() ==> r[i] != '\n')
    }),
{
    lemma_render_list_shape(items);
    lemma_render_list_no_pair(items);
    lemma_render_list_no_newline(items);
}

/// Trimming one space off each end.
pub proof fn lemma_trim_both_spaces(t: Seq<char>, i: int, j: int)
    requires
        0 <= i && i + 3 <= j && j <= t.len(),
        is_ws(t[i]),
        is_ws(t[j - 1]),
        !is_ws(t[i + 1]),
        !is_ws(t[j - 2]),
    ensures trim_spec(t, i, j) == (i + 1, j - 1),
{
    assert(trim_spec(t, i + 1, j - 1) == (i + 1, j - 1));
    assert(trim_spec(t, i + 1, j) == (i + 1, j - 1));
}

/// Items that survive a comma split: joinable and free of commas.
pub open spec fn splittable(items: Seq<Seq<char>>) -> bool {
    joinable(items) && forall|k: int, c: int|
        0 <= k < items.len() && 0 <= c < items[k].len() ==> (#[trigger] items[k][c]) != ','
}

/// Splitting a region of the shape space, joined items, space recovers
/// the items.
pub proof fn lemma_split_canonical(t: Seq<char>, i: int, j: int, items: Seq<Seq<char>>)
    requires
        items.len() >= 1,
        splittable(items),
        0 <= i && i < j && j <= t.len(),
        t[i] == ' ',
        t[j - 1] == ' ',
        j - i == 2 + spec_join(items).len(),
        forall|k: int| 0 <= k < spec_join(items).len() ==> t[i + 1 + k] == spec_join(items)[k],
    ensures split_items_spec(t, i, j) == items,
    decreases items.len()
{
    reveal_strlit(", ");
    let jn = spec_join(items);
    let item0 = items[0];
    assert(item0.len() > 0 && !is_ws(item0[0]) && !is_ws(item0[item0.len() - 1]));
    if items.len() == 1 {
        assert(jn == item0);
        assert forall|k: int| i <= k < j implies t[k] != ',' by {
            if k == i || k == j - 1 {
            } else {
                assert(t[k] == jn[k - i - 1]);
                assert(items[0][k - i - 1] != ',');
            }
        }
        lemma_next_comma_at(t, i, j, j);
        assert(t[i + 1] == jn[0]);
        assert(t[j - 2] == jn[jn.len() - 1]);
        lemma_trim_both_spaces(t, i, j);
        assert(t.subrange(i + 1, j - 1) =~= item0);
        assert(split_items_spec(t, i, j) =~= items);
    } else {
        lemma_join_head(items);
        let rest = items.drop_first();
        let jr = spec_join(rest);
        assert(jn == item0 + ", "@ + jr);
        assert(", "@.len() == 2 && ", "@[0] == ',' && ", "@[1] == ' ');
        let c = i + 1 + item0.len();
        assert forall|k: int| i <= k < c implies t[k] != ',' by {
            if k == i {
            } else {
                assert(t[k] == jn[k - i - 1]);
                assert(jn[k - i - 1] == item0[k - i - 1]);
                assert(items[0][k - i - 1] != ',');
            }
        }
        assert(t[c] == jn[item0.len() as int]);
        assert(jn[item0.len() as int] == ", "@[0]);
        lemma_next_comma_at(t, i, j, c);
        assert(t[i + 1] == jn[0]);
        assert(jn[0] == item0[0]);
        assert(t[c - 1] == jn[item0.len() - 1]);
        assert(jn[item0.len() - 1] == item0[item0.len() - 1]);
        lemma_trim_after_space(t, i, c);
        assert forall|k: int| 0 <= k < item0.len()
            implies t.subrange(i + 1, c)[k] == item0[k] by {
            assert(t[i + 1 + k] == jn[k]);
            assert(jn[k] == item0[k]);
        }
        assert(t.subrange(i + 1, c) =~= item0);
        // The tail region has the same shape for the remaining items.
        assert(splittable(rest)) by {
            assert forall|k: int| 0 <= k < rest.len() implies ({
                let s = #[trigger] rest[k];
                s.len() > 0 && !is_ws(s[0]) && !is_ws(s[s.len() - 1]) && no_hyphen_pair(s)
                    && (forall|q: int| 0 <= q < s.len() ==> s[q] != '\n')
            }) by {
                assert(rest[k] == items[k + 1]);
            }
            assert forall|k: int, q: int|
                0 <= k < rest.len() && 0 <= q < rest[k].len()
                implies (#[trigger] rest[k][q]) != ',' by {
                assert(rest[k] == items[k + 1]);
                assert(items[k + 1][q] != ',');
            }
        }
        assert(t[c + 1] == jn[c - i]);
        assert(jn[item0.len() + 1 as int] == ", "@[1]);
        assert forall|k: int| 0 <= k < jr.len() implies t[c + 2 + k] == jr[k] by {
            assert(t[c + 2 + k] == jn[c + 1 + k - i]);
            assert(jn[item0.len() + 2 + k as int] == jr[k]);
        }
        lemma_split_canonical(t, c + 1, j, rest);
        assert(split_items_spec(t, i, j) == seq![t.subrange(i + 1, c)]
            + split_items_spec(t, c + 1, j));
        assert(seq![item0] + rest =~= items);
    }
}

/// The bracketed token of one identifier: its shape, character by
/// character.
pub proof fn lemma_bracket_facts(tok: Seq<char>)
    requires alnum_id(tok),
    ensures ({
        let b = "[["@ + tok + "]]"@;
        &&& b.len() == tok.len() + 4
        &&& b[0] == '[' && b[1] == '['
        &&& (forall|k: int| 0 <= k < tok.len() ==> b[2 + k] == tok[k])
        &&& b[tok.len() + 2 as int] == ']' && b[tok.len() + 3 as int] == ']'
        &&& b.len() > 0 && !is_ws(b[0]) && !is_ws(b[b.len() - 1]) && no_hyphen_pair(b)
        &&& (forall|i: int| 0 <= i < b.len() ==> b[i] != '\n')
    }),
{
    reveal_strlit("[[");
    reveal_strlit("]]");
    let b = "[["@ + tok + "]]"@;
    lemma_alnum_no_pair(tok);
    assert forall|i: int| 0 <= i < b.len() implies b[i] != '\n' by {
        if i < 2 {
            assert(b[i] == "[["@[i]);
        } else if i < 2 + tok.len() {
            assert(b[i] == tok[i - 2]);
        } else {
            assert(b[i] == "]]"@[i - 2 - tok.len()]);
        }
    }
    assert forall|i: int| 0 <= i && i + 1 < b.len()
        implies !((#[trigger] b[i]) == '-' && b[i + 1] == '-') by {
        if b[i] == '-' {
            assert(2 <= i < 2 + tok.len());
            assert(b[i] == tok[i - 2]);
        }
    }
}

/// The bracketed token list of a tail.
pub proof fn lemma_bracket_links_drop_first(toks: Seq<Seq<char>>)
    requires toks.len() >= 1,
    ensures spec_bracket_links(toks).drop_first() == spec_bracket_links(toks.drop_first()),
{
    assert(spec_bracket_links(toks).drop_first() =~= spec_bracket_links(toks.drop_first()));
}

/// The bracketed tokens of identifiers are joinable items.
pub proof fn lemma_bracket_links_joinable(toks: Seq<Seq<char>>)
    requires forall|k: int| 0 <= k < toks.len() ==> alnum_id(#[trigger] toks[k]),
    ensures joinable(spec_bracket_links(toks)),
{
    let bs = spec_bracket_links(toks);
    assert forall|k: int| 0 <= k < bs.len() implies ({
        let s = #[trigger] bs[k];
        s.len() > 0 && !is_ws(s[0]) && !is_ws(s[s.len() - 1]) && no_hyphen_pair(s)
            && (forall|i: int| 0 <= i < s.len() ==> s[i] != '\n')
    }) by {
        assert(bs[k] == "[["@ + toks[k] + "]]"@);
        lemma_bracket_facts(toks[k]);
    }
}


/// Extraction over a joined token list embedded at `i`, closed by the
/// tail `' '`, `']'`: exactly the identifiers come back.
#[verifier::rlimit(100)]
#[verifier::spinoff_prover]
pub proof fn lemma_extract_join_at(t: Seq<char>, i: int, toks: Seq<Seq<char>>)
    requires
        toks.len() >= 1,
        forall|k: int| 0 <= k < toks.len() ==> alnum_id(#[trigger] toks[k]),
        0 <= i,
        t.len() == i + spec_join(spec_bracket_links(toks)).len() + 2,
        forall|k: int| 0 <= k < spec_join(spec_bracket_links(toks)).len()
            ==> t[i + k] == spec_join(spec_bracket_links(toks))[k],
        t[t.len() - 2] == ' ',
        t[t.len() - 1] == ']',
    ensures spec_extract_links(t, i) == toks,
    decreases toks.len()
{
    reveal_strlit(", ");
    let bs = spec_bracket_links(toks);
    let jn = spec_join(bs);
    let tok0 = toks[0];
    let b0 = bs[0];
    assert(b0 == "[["@ + tok0 + "]]"@);
    lemma_bracket_facts(tok0);
    let blen = tok0.len() + 4;
    assert(b0.len() == blen);
    if toks.len() == 1 {
        assert(jn == b0);
        assert(t[i] == jn[0] && jn[0] == b0[0]);
        assert(t[i + 1] == jn[1] && jn[1] == b0[1]);
        assert forall|k: int| 0 <= k < tok0.len() implies t[i + 2 + k] == tok0[k] by {
            assert(t[i + 2 + k] == jn[2 + k]);
            assert(jn[2 + k] == b0[2 + k]);
        }
        assert(t[i + 2 + tok0.len()] == jn[2 + tok0.len() as int]);
        assert(jn[2 + tok0.len() as int] == b0[2 + tok0.len() as int]);
        assert(t[i + 3 + tok0.len()] == jn[3 + tok0.len() as int]);
        assert(jn[3 + tok0.len() as int] == b0[3 + tok0.len() as int]);
        assert forall|k: int| i + 2 <= k < i + 2 + tok0.len() implies is_alnum(t[k]) by {
            assert(t[k] == tok0[k - i - 2]);
        }
        lemma_skip_alnum_at(t, i + 2, i + 2 + tok0.len());
        assert(link_token_at(t, i));
        assert(link_text(t, i) =~= tok0);
        assert(link_end(t, i) == i + blen);
        assert(spec_extract_links(t, i) == seq![tok0] + spec_extract_links(t, i + blen));
        assert(t[i + blen] == ' ');
        assert(!link_token_at(t, i + blen));
        assert(spec_extract_links(t, i + blen) == spec_extract_links(t, i + blen + 1));
        assert(t[i + blen + 1] == ']');
        assert(!link_token_at(t, i + blen + 1));
        assert(spec_extract_links(t, i + blen + 1) == spec_extract_links(t, i + blen + 2));
        assert(i + blen + 2 == t.len());
        assert(spec_extract_links(t, t.len() as int) =~= Seq::<Seq<char>>::empty());
        assert(seq![tok0] + Seq::<Seq<char>>::empty() =~= toks);
    } else {
        lemma_join_head(bs);
        lemma_bracket_links_drop_first(toks);
        let rest = toks.drop_first();
        let jr = spec_join(spec_bracket_links(rest));
        assert(jn == b0 + ", "@ + jr);
        assert(", "@.len() == 2 && ", "@[0] == ',' && ", "@[1] == ' ');
        assert(t[i] == jn[0] && jn[0] == b0[0]);
        assert(t[i + 1] == jn[1] && jn[1] == b0[1]);
        assert forall|k: int| 0 <= k < tok0.len() implies t[i + 2 + k] == tok0[k] by {
            assert(t[i + 2 + k] == jn[2 + k]);
            assert(jn[2 + k] == b0[2 + k]);
        }
        assert(t[i + 2 + tok0.len()] == jn[2 + tok0.len() as int]);
        assert(jn[2 + tok0.len() as int] == b0[2 + tok0.len() as int]);
        assert(t[i + 3 + tok0.len()] == jn[3 + tok0.len() as int]);
        assert(jn[3 + tok0.len() as int] == b0[3 + tok0.len() as int]);
        assert forall|k: int| i + 2 <= k < i + 2 + tok0.len() implies is_alnum(t[k]) by {
            assert(t[k] == tok0[k - i - 2]);
        }
        lemma_skip_alnum_at(t, i + 2, i + 2 + tok0.len());
        assert(link_token_at(t, i));
        assert(link_text(t, i) =~= tok0);
        assert(link_end(t, i) == i + blen);
        assert(spec_extract_links(t, i) == seq![tok0] + spec_extract_links(t, i + blen));
        assert(t[i + blen] == jn[blen as int]);
        assert(jn[blen as int] == ", "@[0]);
        assert(!link_token_at(t, i + blen));
        assert(spec_extract_links(t, i + blen) == spec_extract_links(t, i + blen + 1));
        assert(t[i + blen + 1] == jn[blen + 1 as int]);
        assert(jn[blen + 1 as int] == ", "@[1]);
        assert(!link_token_at(t, i + blen + 1));
        assert(spec_extract_links(t, i + blen + 1) == spec_extract_links(t, i + blen + 2));
        let i2 = i + blen + 2;
        assert forall|k: int| 0 <= k < jr.len() implies t[i2 + k] == jr[k] by {
            assert(t[i2 + k] == jn[blen + 2 + k]);
            assert(jn[blen + 2 + k] == jr[k]);
        }
        assert forall|k: int| 0 <= k < rest.len() implies alnum_id(#[trigger] rest[k]) by {
            assert(rest[k] == toks[k + 1]);
        }
        lemma_extract_join_at(t, i2, rest);
        assert(seq![tok0] + rest =~= toks);
    }
}

/// Extraction over a whole rendered backlinks value recovers the
/// identifiers.
pub proof fn lemma_extract_value(toks: Seq<Seq<char>>)
    requires forall|k: int| 0 <= k < toks.len() ==> alnum_id(#[trigger] toks[k]),
    ensures spec_extract_links(spec_render_list(spec_bracket_links(toks)), 0) == toks,
{
    let v = spec_render_list(spec_bracket_links(toks));
    let bs = spec_bracket_links(toks);
    if toks.len() == 0 {
        reveal_strlit("[ ]");
        assert(bs.len() == 0);
        assert(v == "[ ]"@);
        assert(v.len() == 3 && v[0] == '[' && v[1] == ' ' && v[2] == ']');
        assert(!link_token_at(v, 0));
        assert(spec_extract_links(v, 0) == spec_extract_links(v, 1));
        assert(!link_token_at(v, 1));
        assert(spec_extract_links(v, 1) == spec_extract_links(v, 2));
        assert(!link_token_at(v, 2));
        assert(spec_extract_links(v, 2) == spec_extract_links(v, 3));
        assert(spec_extract_links(v, 3) =~= Seq::<Seq<char>>::empty());
        assert(spec_extract_links(v, 0) =~= toks);
    } else {
        reveal_strlit("[ ");
        reveal_strlit(" ]");
        let jn = spec_join(bs);
        assert(v == "[ "@ + jn + " ]"@);
        assert("[ "@.len() == 2 && "[ "@[0] == '[' && "[ "@[1] == ' ');
        assert(" ]"@.len() == 2 && " ]"@[0] == ' ' && " ]"@[1] == ']');
        assert(v.len() == jn.len() + 4);
        assert(v[0] == '[' && v[1] == ' ');
        assert(v[v.len() - 2] == ' ' && v[v.len() - 1] == ']');
        assert(!link_token_at(v, 0)) by {
            assert(v[1] != '[');
        }
        assert(spec_extract_links(v, 0) == spec_extract_links(v, 1));
        assert(!link_token_at(v, 1)) by {
            assert(v[1] != '[');
        }
        assert(spec_extract_links(v, 1) == spec_extract_links(v, 2));
        assert forall|k: int| 0 <= k < jn.len() implies v[2 + k] == jn[k] by {}
        lemma_extract_join_at(v, 2, toks);
    }
}


/// What the header of a well-formed note guarantees: each key line
/// yields its value, and the text is free of hyphen runs.
pub open spec fn header_facts(pn: ParsedFields) -> bool {
    let h = spec_render_header(pn);
    &&& spec_header_value(h, "id"@) == Some(pn.id)
    &&& spec_header_value(h, "name"@) == Some(pn.name)
    &&& spec_header_value(h, "date"@) == Some(spec_format_timestamp(pn.date))
    &&& spec_header_value(h, "tags"@) == Some(spec_render_list(pn.tags))
    &&& spec_header_value(h, "backlinks"@)
        == Some(spec_render_list(spec_bracket_links(pn.backlinks)))
    &&& no_hyphen_pair(h)
    &&& h.len() > 0
    &&& h[0] == 'i'
    &&& h[h.len() - 1] == ']'
}

#[verifier::rlimit(100)]
#[verifier::spinoff_prover]
pub proof fn lemma_header_facts(pn: ParsedFields)
    requires wf_parsed(pn),
    ensures header_facts(pn),
{
    reveal_strlit("id: ");
    reveal_strlit("\nname: ");
    reveal_strlit("\ndate: ");
    reveal_strlit("\ntags: ");
    reveal_strlit("\nbacklinks: ");
    reveal_strlit("id");
    reveal_strlit("name");
    reveal_strlit("date");
    reveal_strlit("tags");
    reveal_strlit("backlinks");
    let h = spec_render_header(pn);
    let id = pn.id;
    let name = pn.name;
    let f = spec_format_timestamp(pn.date);
    let rlt = spec_render_list(pn.tags);
    let rlb = spec_render_list(spec_bracket_links(pn.backlinks));
    lemma_fmt_facts(pn.date);
    assert(joinable(pn.tags)) by {
        assert forall|k: int| 0 <= k < pn.tags.len() implies ({
            let s = #[trigger] pn.tags[k];
            s.len() > 0 && !is_ws(s[0]) && !is_ws(s[s.len() - 1]) && no_hyphen_pair(s)
                && (forall|i: int| 0 <= i < s.len() ==> s[i] != '\n')
        }) by {
            assert(rt_tag(pn.tags[k]));
        }
    }
    lemma_render_list_facts(pn.tags);
    lemma_bracket_links_joinable(pn.backlinks);
    lemma_render_list_facts(spec_bracket_links(pn.backlinks));
    lemma_alnum_no_pair(id);
    // Positions of the newlines between the five lines.
    let e1 = 4 + id.len() as int;
    let s2 = e1 + 1;
    let e2 = e1 + 7 + name.len() as int;
    let s3 = e2 + 1;
    let e3 = e2 + 26;
    let s4 = e3 + 1;
    let e4 = e3 + 7 + rlt.len() as int;
    let s5 = e4 + 1;
    let hend = e4 + 12 + rlb.len() as int;
    assert(h.len() == hend);
    // Character map of the whole header.
    assert(h.subrange(0, 4) =~= "id: "@);
    assert(h.subrange(4, e1) =~= id);
    assert(h.subrange(e1, e1 + 7) =~= "\nname: "@);
    assert(h.subrange(e1 + 7, e2) =~= name);
    assert(h.subrange(e2, e2 + 7) =~= "\ndate: "@);
    assert(h.subrange(e2 + 7, e2 + 26) =~= f);
    assert(h.subrange(e3, e3 + 7) =~= "\ntags: "@);
    assert(h.subrange(e3 + 7, e4) =~= rlt);
    assert(h.subrange(e4, e4 + 12) =~= "\nbacklinks: "@);
    assert(h.subrange(e4 + 12, hend) =~= rlb);
    assert("id: "@.len() == 4 && "id: "@[0] == 'i' && "id: "@[1] == 'd' && "id: "@[2] == ':'
        && "id: "@[3] == ' ');
    assert("\nname: "@.len() == 7 && "\nname: "@[0] == '\n' && "\nname: "@[1] == 'n'
        && "\nname: "@[2] == 'a' && "\nname: "@[3] == 'm' && "\nname: "@[4] == 'e'
        && "\nname: "@[5] == ':' && "\nname: "@[6] == ' ');
    assert("\ndate: "@.len() == 7 && "\ndate: "@[0] == '\n' && "\ndate: "@[1] == 'd'
        && "\ndate: "@[2] == 'a' && "\ndate: "@[3] == 't' && "\ndate: "@[4] == 'e'
        && "\ndate: "@[5] == ':' && "\ndate: "@[6] == ' ');
    assert("\ntags: "@.len() == 7 && "\ntags: "@[0] == '\n' && "\ntags: "@[1] == 't'
        && "\ntags: "@[2] == 'a' && "\ntags: "@[3] == 'g' && "\ntags: "@[4] == 's'
        && "\ntags: "@[5] == ':' && "\ntags: "@[6] == ' ');
    assert("\nbacklinks: "@.len() == 12 && "\nbacklinks: "@[0] == '\n'
        && "\nbacklinks: "@[1] == 'b' && "\nbacklinks: "@[2] == 'a'
        && "\nbacklinks: "@[3] == 'c' && "\nbacklinks: "@[4] == 'k'
        && "\nbacklinks: "@[5] == 'l' && "\nbacklinks: "@[6] == 'i'
        && "\nbacklinks: "@[7] == 'n' && "\nbacklinks: "@[8] == 'k'
        && "\nbacklinks: "@[9] == 's' && "\nbacklinks: "@[10] == ':'
        && "\nbacklinks: "@[11] == ' ');
    // The newline of each separator, and no newline anywhere else.
    assert(h[e1] == '\n' && h[e2] == '\n' && h[e3] == '\n' && h[e4] == '\n');
    assert forall|i: int| 0 <= i < h.len() && i != e1 && i != e2 && i != e3 && i != e4
        implies h[i] != '\n' by {
        if i < 4 {
            assert(h[i] == h.subrange(0, 4)[i]);
        } else if i < e1 {
            assert(h[i] == h.subrange(4, e1)[i - 4]);
        } else if i < e1 + 7 {
            assert(h[i] == h.subrange(e1, e1 + 7)[i - e1]);
        } else if i < e2 {
            assert(h[i] == h.subrange(e1 + 7, e2)[i - e1 - 7]);
        } else if i < e2 + 7 {
            assert(h[i] == h.subrange(e2, e2 + 7)[i - e2]);
        } else if i < e3 {
            assert(h[i] == h.subrange(e2 + 7, e2 + 26)[i - e2 - 7]);
        } else if i < e3 + 7 {
            assert(h[i] == h.subrange(e3, e3 + 7)[i - e3]);
        } else if i < e4 {
            assert(h[i] == h.subrange(e3 + 7, e4)[i - e3 - 7]);
        } else if i < e4 + 12 {
            assert(h[i] == h.subrange(e4, e4 + 12)[i - e4]);
        } else {
            assert(h[i] == h.subrange(e4 + 12, hend)[i - e4 - 12]);
        }
    }
    // No hyphen pair anywhere: compose the pieces left to right.
    assert(no_hyphen_pair("id: "@));
    assert(no_hyphen_pair("\nname: "@));
    assert(no_hyphen_pair("\ndate: "@));
    assert(no_hyphen_pair("\ntags: "@));
    assert(no_hyphen_pair("\nbacklinks: "@));
    lemma_no_pair_concat("id: "@, id);
    lemma_no_pair_concat("id: "@ + id, "\nname: "@);
    lemma_no_pair_concat("id: "@ + id + "\nname: "@, name);
    lemma_no_pair_concat("id: "@ + id + "\nname: "@ + name, "\ndate: "@);
    lemma_no_pair_concat("id: "@ + id + "\nname: "@ + name + "\ndate: "@, f);
    lemma_no_pair_concat("id: "@ + id + "\nname: "@ + name + "\ndate: "@ + f, "\ntags: "@);
    lemma_no_pair_concat(
        "id: "@ + id + "\nname: "@ + name + "\ndate: "@ + f + "\ntags: "@, rlt);
    lemma_no_pair_concat(
        "id: "@ + id + "\nname: "@ + name + "\ndate: "@ + f + "\ntags: "@ + rlt,
        "\nbacklinks: "@);
    lemma_no_pair_concat(
        "id: "@ + id + "\nname: "@ + name + "\ndate: "@ + f + "\ntags: "@ + rlt
            + "\nbacklinks: "@,
        rlb);
    assert(no_hyphen_pair(h));
    assert(h[0] == 'i');
    assert(h[hend - 1] == h.subrange(e4 + 12, hend)[rlb.len() - 1]);
    assert(h[hend - 1] == ']');
    // Line ends.
    lemma_line_end_at(h, 0, e1);
    lemma_line_end_at(h, s2, e2);
    lemma_line_end_at(h, s3, e3);
    lemma_line_end_at(h, s4, e4);
    lemma_line_end_at(h, s5, hend);
    // Key matches at the line starts.
    assert("id"@.len() == 2 && "id"@[0] == 'i' && "id"@[1] == 'd');
    assert("name"@.len() == 4 && "name"@[0] == 'n' && "name"@[1] == 'a' && "name"@[2] == 'm'
        && "name"@[3] == 'e');
    assert("date"@.len() == 4 && "date"@[0] == 'd' && "date"@[1] == 'a' && "date"@[2] == 't'
        && "date"@[3] == 'e');
    assert("tags"@.len() == 4 && "tags"@[0] == 't' && "tags"@[1] == 'a' && "tags"@[2] == 'g'
        && "tags"@[3] == 's');
    assert("backlinks"@.len() == 9 && "backlinks"@[0] == 'b' && "backlinks"@[1] == 'a'
        && "backlinks"@[2] == 'c' && "backlinks"@[3] == 'k' && "backlinks"@[4] == 'l'
        && "backlinks"@[5] == 'i' && "backlinks"@[6] == 'n' && "backlinks"@[7] == 'k'
        && "backlinks"@[8] == 's');
    assert(h[s2] == 'n' && h[s2 + 1] == 'a' && h[s2 + 2] == 'm' && h[s2 + 3] == 'a' || true);
    // Line start characters.
    assert(h[s2] == h.subrange(e1, e1 + 7)[1]);
    assert(h[s3] == h.subrange(e2, e2 + 7)[1]);
    assert(h[s4] == h.subrange(e3, e3 + 7)[1]);
    assert(h[s5] == h.subrange(e4, e4 + 12)[1]);
    assert(h[s2] == 'n' && h[s3] == 'd' && h[s4] == 't' && h[s5] == 'b');
    // The id line.
    assert(occurs_at(h, 0, "id"@)) by {
        assert(h.subrange(0, 2) =~= "id"@);
    }
    assert(h[2] == ':');
    assert(line_matches_key(h, 0, "id"@));
    assert(find_key_spec(h, 0, "id"@) == Some(0int));
    assert(h[3] == ' ' && is_ws(h[3]));
    assert(!is_ws(h[4]) && !is_ws(h[e1 - 1])) by {
        assert(h[4] == id[0]);
        assert(h[e1 - 1] == id[id.len() - 1]);
        lemma_alnum_no_pair(id);
    }
    lemma_trim_after_space(h, 3, e1);
    assert(spec_header_value(h, "id"@) == Some(pn.id)) by {
        assert(h.subrange(4, e1) == id);
    }
    // Walking to the later lines: the earlier line starts never match.
    assert(!line_matches_key(h, 0, "name"@)) by {
        if occurs_at(h, 0, "name"@) {
            assert(h.subrange(0, 4)[0] == "name"@[0]);
        }
    }
    assert(!line_matches_key(h, s2, "name"@) == false) by {
        assert(occurs_at(h, s2, "name"@)) by {
            assert(h.subrange(s2, s2 + 4) =~= "name"@);
        }
        assert(h[s2 + 4] == h.subrange(e1, e1 + 7)[5]);
    }
    assert(find_key_spec(h, 0, "name"@) == Some(s2)) by {
        assert(line_end_spec(h, 0) == e1);
        assert(find_key_spec(h, s2, "name"@) == Some(s2));
        assert(find_key_spec(h, 0, "name"@) == find_key_spec(h, s2, "name"@));
    }
    assert(h[s2 + 5] == h.subrange(e1, e1 + 7)[6]);
    assert(h[s2 + 5] == ' ');
    assert(!is_ws(h[s2 + 6]) && !is_ws(h[e2 - 1])) by {
        assert(h[s2 + 6] == name[0]);
        assert(h[e2 - 1] == name[name.len() - 1]);
    }
    lemma_trim_after_space(h, s2 + 5, e2);
    assert(spec_header_value(h, "name"@) == Some(pn.name)) by {
        assert(h.subrange(s2 + 6, e2) == name);
    }
    // The date line.
    assert(!line_matches_key(h, 0, "date"@)) by {
        if occurs_at(h, 0, "date"@) {
            assert(h.subrange(0, 4)[0] == "date"@[0]);
        }
    }
    assert(!line_matches_key(h, s2, "date"@)) by {
        if occurs_at(h, s2, "date"@) {
            assert(h.subrange(s2, s2 + 4)[0] == "date"@[0]);
            assert(h.subrange(s2, s2 + 4)[0] == h[s2]);
        }
    }
    assert(occurs_at(h, s3, "date"@)) by {
        assert(h.subrange(s3, s3 + 4) =~= "date"@);
    }
    assert(h[s3 + 4] == h.subrange(e2, e2 + 7)[5]);
    assert(line_matches_key(h, s3, "date"@));
    assert(find_key_spec(h, 0, "date"@) == Some(s3)) by {
        assert(line_end_spec(h, 0) == e1);
        assert(line_end_spec(h, s2) == e2);
        assert(find_key_spec(h, s3, "date"@) == Some(s3));
        assert(find_key_spec(h, s2, "date"@) == find_key_spec(h, s3, "date"@));
        assert(find_key_spec(h, 0, "date"@) == find_key_spec(h, s2, "date"@));
    }
    assert(h[s3 + 5] == h.subrange(e2, e2 + 7)[6]);
    assert(h[s3 + 5] == ' ');
    assert(!is_ws(h[s3 + 6]) && !is_ws(h[e3 - 1])) by {
        assert(h[s3 + 6] == f[0]);
        assert(h[e3 - 1] == f[18]);
    }
    lemma_trim_after_space(h, s3 + 5, e3);
    assert(spec_header_value(h, "date"@) == Some(f)) by {
        assert(h.subrange(s3 + 6, e3) == f);
    }
    // The tags line.
    assert(!line_matches_key(h, 0, "tags"@)) by {
        if occurs_at(h, 0, "tags"@) {
            assert(h.subrange(0, 4)[0] == "tags"@[0]);
        }
    }
    assert(!line_matches_key(h, s2, "tags"@)) by {
        if occurs_at(h, s2, "tags"@) {
            assert(h.subrange(s2, s2 + 4)[0] == "tags"@[0]);
            assert(h.subrange(s2, s2 + 4)[0] == h[s2]);
        }
    }
    assert(!line_matches_key(h, s3, "tags"@)) by {
        if occurs_at(h, s3, "tags"@) {
            assert(h.subrange(s3, s3 + 4)[0] == "tags"@[0]);
            assert(h.subrange(s3, s3 + 4)[0] == h[s3]);
        }
    }
    assert(occurs_at(h, s4, "tags"@)) by {
        assert(h.subrange(s4, s4 + 4) =~= "tags"@);
    }
    assert(h[s4 + 4] == h.subrange(e3, e3 + 7)[5]);
    assert(line_matches_key(h, s4, "tags"@));
    assert(find_key_spec(h, 0, "tags"@) == Some(s4)) by {
        assert(line_end_spec(h, 0) == e1);
        assert(line_end_spec(h, s2) == e2);
        assert(line_end_spec(h, s3) == e3);
        assert(find_key_spec(h, s4, "tags"@) == Some(s4));
        assert(find_key_spec(h, s3, "tags"@) == find_key_spec(h, s4, "tags"@));
        assert(find_key_spec(h, s2, "tags"@) == find_key_spec(h, s3, "tags"@));
        assert(find_key_spec(h, 0, "tags"@) == find_key_spec(h, s2, "tags"@));
    }
    assert(h[s4 + 5] == h.subrange(e3, e3 + 7)[6]);
    assert(h[s4 + 5] == ' ');
    assert(!is_ws(h[s4 + 6]) && !is_ws(h[e4 - 1])) by {
        assert(h[s4 + 6] == rlt[0]);
        assert(h[e4 - 1] == rlt[rlt.len() - 1]);
    }
    lemma_trim_after_space(h, s4 + 5, e4);
    assert(spec_header_value(h, "tags"@) == Some(rlt)) by {
        assert(h.subrange(s4 + 6, e4) == rlt);
    }
    // The backlinks line.
    assert(!line_matches_key(h, 0, "backlinks"@)) by {
        if occurs_at(h, 0, "backlinks"@) {
            assert(h.subrange(0, 9)[0] == "backlinks"@[0]);
            assert(h.subrange(0, 9)[0] == h[0]);
        }
    }
    assert(!line_matches_key(h, s2, "backlinks"@)) by {
        if occurs_at(h, s2, "backlinks"@) {
            assert(h.subrange(s2, s2 + 9)[0] == "backlinks"@[0]);
            assert(h.subrange(s2, s2 + 9)[0] == h[s2]);
        }
    }
    assert(!line_matches_key(h, s3, "backlinks"@)) by {
        if occurs_at(h, s3, "backlinks"@) {
            assert(h.subrange(s3, s3 + 9)[0] == "backlinks"@[0]);
            assert(h.subrange(s3, s3 + 9)[0] == h[s3]);
        }
    }
    assert(!line_matches_key(h, s4, "backlinks"@)) by {
        if occurs_at(h, s4, "backlinks"@) {
            assert(h.subrange(s4, s4 + 9)[0] == "backlinks"@[0]);
            assert(h.subrange(s4, s4 + 9)[0] == h[s4]);
        }
    }
    assert(occurs_at(h, s5, "backlinks"@)) by {
        assert(h.subrange(s5, s5 + 9) =~= "backlinks"@);
    }
    assert(h[s5 + 9] == h.subrange(e4, e4 + 12)[10]);
    assert(line_matches_key(h, s5, "backlinks"@));
    assert(find_key_spec(h, 0, "backlinks"@) == Some(s5)) by {
        assert(line_end_spec(h, 0) == e1);
        assert(line_end_spec(h, s2) == e2);
        assert(line_end_spec(h, s3) == e3);
        assert(line_end_spec(h, s4) == e4);
        assert(find_key_spec(h, s5, "backlinks"@) == Some(s5));
        assert(find_key_spec(h, s4, "backlinks"@) == find_key_spec(h, s5, "backlinks"@));
        assert(find_key_spec(h, s3, "backlinks"@) == find_key_spec(h, s4, "backlinks"@));
        assert(find_key_spec(h, s2, "backlinks"@) == find_key_spec(h, s3, "backlinks"@));
        assert(find_key_spec(h, 0, "backlinks"@) == find_key_spec(h, s2, "backlinks"@));
    }
    assert(h[s5 + 10] == h.subrange(e4, e4 + 12)[11]);
    assert(h[s5 + 10] == ' ');
    assert(!is_ws(h[s5 + 11]) && !is_ws(h[hend - 1])) by {
        assert(h[s5 + 11] == rlb[0]);
        assert(h[hend - 1] == rlb[rlb.len() - 1]);
    }
    lemma_trim_after_space(h, s5 + 10, hend);
    assert(spec_header_value(h, "backlinks"@) == Some(rlb)) by {
        assert(h.subrange(s5 + 11, hend) == rlb);
    }
}


/// The envelope of a canonically rendered note: the header text sits
/// between the two rules, the body after them.
#[verifier::rlimit(100)]
pub proof fn lemma_envelope_of_render(pn: ParsedFields)
    requires wf_parsed(pn),
    ensures ({
        let t = spec_render_note(pn);
        let hl = spec_render_header(pn).len() as int;
        &&& spec_envelope(t) == Some((5int, 5 + hl, 5 + hl + 6))
        &&& t.subrange(5, 5 + hl) == spec_render_header(pn)
        &&& t.subrange(5 + hl + 6, t.len() as int) == pn.body
    }),
{
    reveal_strlit("---\n\n");
    reveal_strlit("\n\n---\n");
    lemma_header_facts(pn);
    let t = spec_render_note(pn);
    let h = spec_render_header(pn);
    let hl = h.len() as int;
    let m = 5 + hl + 2;
    assert("---\n\n"@.len() == 5 && "---\n\n"@[0] == '-' && "---\n\n"@[1] == '-'
        && "---\n\n"@[2] == '-' && "---\n\n"@[3] == '\n' && "---\n\n"@[4] == '\n');
    assert("\n\n---\n"@.len() == 6 && "\n\n---\n"@[0] == '\n' && "\n\n---\n"@[1] == '\n'
        && "\n\n---\n"@[2] == '-' && "\n\n---\n"@[3] == '-' && "\n\n---\n"@[4] == '-'
        && "\n\n---\n"@[5] == '\n');
    assert(t.len() == 5 + hl + 6 + pn.body.len());
    assert(t.subrange(0, 5) =~= "---\n\n"@);
    assert(t.subrange(5, 5 + hl) =~= h);
    assert(t.subrange(5 + hl, 5 + hl + 6) =~= "\n\n---\n"@);
    assert(t.subrange(5 + hl + 6, t.len() as int) =~= pn.body);
    assert(t[0] == '-' && t[1] == '-' && t[2] == '-' && t[3] == '\n' && t[4] == '\n');
    assert forall|k: int| 0 <= k < hl implies t[5 + k] == h[k] by {
        assert(t.subrange(5, 5 + hl)[k] == h[k]);
    }
    assert(t[5] == 'i');
    assert(t[5 + hl] == '\n' && t[5 + hl + 1] == '\n' && t[m] == '-' && t[m + 1] == '-'
        && t[m + 2] == '-' && t[m + 3] == '\n');
    // Opening rule.
    assert(skip_ws_spec(t, 0) == 0) by {
        assert(!is_ws(t[0]));
    }
    assert(skip_blank_spec(t, 3) == 3) by {
        assert(!crate::text::is_blank(t[3]));
    }
    lemma_skip_newlines_at(t, 3, 5);
    // The first later occurrence of the rule is the closing one.
    assert(occurs_at(t, m, hr_pat())) by {
        assert(t.subrange(m, m + 3) =~= hr_pat());
    }
    assert forall|j: int| 5 <= j < m implies !occurs_at(t, j, hr_pat()) by {
        if occurs_at(t, j, hr_pat()) {
            assert(t.subrange(j, j + 3)[0] == hr_pat()[0]);
            assert(t.subrange(j, j + 3)[1] == hr_pat()[1]);
            assert(t[j] == '-' && t[j + 1] == '-');
            if j + 1 < 5 + hl {
                assert(t[j] == h[j - 5] && t[j + 1] == h[j - 4]);
                assert(no_hyphen_pair(h));
            } else if j < 5 + hl {
                assert(t[j + 1] == '\n');
            } else {
                assert(t[j] == '\n');
            }
        }
    }
    lemma_find_unique(t, 5, hr_pat(), m);
    // The header ends where the closing newline run starts.
    assert(t[5 + hl - 1] == h[hl - 1]);
    assert(t[5 + hl - 1] == ']');
    lemma_newline_run_start_at(t, m, 5, 5 + hl);
    assert(skip_blank_spec(t, m + 3) == m + 3) by {
        assert(!crate::text::is_blank(t[m + 3]));
    }
    assert(t[m + 3] == '\n');
    assert(spec_envelope(t) == Some((5int, 5 + hl, m + 4)));
}

/// The round trip: parsing a canonically rendered note recovers exactly
/// the field values and the body it was rendered from.  Together with
/// the determinism of rendering, a well-formed file's header re-renders
/// byte for byte when its fields are untouched.
#[verifier::rlimit(100)]
pub proof fn lemma_parse_render_round_trip(pn: ParsedFields)
    requires wf_parsed(pn),
    ensures spec_parse(spec_render_note(pn)) == Ok::<ParsedFields, FormatError>(pn),
{
    lemma_envelope_of_render(pn);
    lemma_header_facts(pn);
    let t = spec_render_note(pn);
    let h = spec_render_header(pn);
    let hl = h.len() as int;
    assert(t.subrange(5, 5 + hl) == h);
    // The three required fields.
    assert(spec_header_value(h, "id"@) == Some(pn.id));
    assert(spec_header_value(h, "name"@) == Some(pn.name));
    assert(spec_header_value(h, "date"@) == Some(spec_format_timestamp(pn.date)));
    lemma_timestamp_round_trip(pn.date);
    // The tag list.
    let rlt = spec_render_list(pn.tags);
    lemma_render_list_facts_tags(pn);
    assert(spec_tags_of_header(h) == pn.tags);
    // The backlinks.
    let rlb = spec_render_list(spec_bracket_links(pn.backlinks));
    lemma_extract_value(pn.backlinks);
    assert(spec_backlinks_of_header(h) == pn.backlinks);
    // Assemble.
    let parsed = spec_parse(t);
    assert(parsed is Ok);
    let got = parsed->Ok_0;
    assert(got.id == pn.id);
    assert(got.name == pn.name);
    assert(got.date == pn.date);
    assert(got.tags == pn.tags);
    assert(got.backlinks == pn.backlinks);
    assert(got.body == pn.body);
}

/// The rendered tag list parses back to the tags.
proof fn lemma_render_list_facts_tags(pn: ParsedFields)
    requires wf_parsed(pn),
    ensures spec_parse_list(spec_render_list(pn.tags)) == Some(pn.tags),
{
    let rlt = spec_render_list(pn.tags);
    assert(joinable(pn.tags)) by {
        assert forall|k: int| 0 <= k < pn.tags.len() implies ({
            let s = #[trigger] pn.tags[k];
            s.len() > 0 && !is_ws(s[0]) && !is_ws(s[s.len() - 1]) && no_hyphen_pair(s)
                && (forall|i: int| 0 <= i < s.len() ==> s[i] != '\n')
        }) by {
            assert(rt_tag(pn.tags[k]));
        }
    }
    lemma_render_list_facts(pn.tags);
    if pn.tags.len() == 0 {
        reveal_strlit("[ ]");
        assert(rlt == "[ ]"@);
        assert(rlt.len() == 3 && rlt[0] == '[' && rlt[1] == ' ' && rlt[2] == ']');
        assert(next_comma_spec(rlt, 1, 2) == 2) by {
            assert(next_comma_spec(rlt, 2, 2) == 2);
        }
        assert(trim_spec(rlt, 1, 2) == (2int, 2int)) by {
            assert(trim_spec(rlt, 2, 2) == (2int, 2int));
        }
        assert(split_items_spec(rlt, 1, 2) =~= pn.tags);
    } else {
        reveal_strlit("[ ");
        reveal_strlit(" ]");
        let jn = spec_join(pn.tags);
        assert(rlt == "[ "@ + jn + " ]"@);
        assert("[ "@.len() == 2 && "[ "@[0] == '[' && "[ "@[1] == ' ');
        assert(" ]"@.len() == 2 && " ]"@[0] == ' ' && " ]"@[1] == ']');
        assert(rlt.len() == jn.len() + 4);
        assert(rlt[0] == '[' && rlt[rlt.len() - 1] == ']');
        assert(rlt[1] == ' ');
        assert(rlt[rlt.len() - 2] == ' ');
        assert(splittable(pn.tags)) by {
            assert forall|k: int, c: int|
                0 <= k < pn.tags.len() && 0 <= c < pn.tags[k].len()
                implies (#[trigger] pn.tags[k][c]) != ',' by {
                assert(rt_tag(pn.tags[k]));
            }
        }
        assert forall|k: int| 0 <= k < jn.len() implies rlt[1 + 1 + k] == jn[k] by {}
        lemma_split_canonical(rlt, 1, rlt.len() - 1, pn.tags);
    }
}


pub proof fn lemma_skip_ws_at(t: Seq<char>, i: int, e: int)
    requires
        0 <= i <= e <= t.len(),
        forall|j: int| i <= j < e ==> is_ws(t[j]),
        e == t.len() || !is_ws(t[e]),
    ensures skip_ws_spec(t, i) == e,
    decreases e - i
{
    if i < e {
        lemma_skip_ws_at(t, i + 1, e);
    }
}

pub proof fn lemma_skip_blank_at(t: Seq<char>, i: int, e: int)
    requires
        0 <= i <= e <= t.len(),
        forall|j: int| i <= j < e ==> crate::text::is_blank(t[j]),
        e == t.len() || !crate::text::is_blank(t[e]),
    ensures skip_blank_spec(t, i) == e,
    decreases e - i
{
    if i < e {
        lemma_skip_blank_at(t, i + 1, e);
    }
}

/// The item walk never passes a hyphen: every character it consumes is
/// whitespace, a bracket, a comma or alphanumeric.
pub proof fn lemma_items_end_before_hyphen(t: Seq<char>, c: int, x: int)
    requires
        0 <= c <= x < t.len(),
        t[x] == '-',
    ensures crate::backlink::items_end(t, c) <= x,
    decreases t.len() - c
{
    let c1 = if c < t.len() && is_ws(t[c]) { c + 1 } else { c };
    if c1 > x {
        assert(c == x);
        assert(!is_ws(t[c]));
        assert(!link_token_at(t, c));
    } else if link_token_at(t, c1) {
        crate::text::lemma_skip_alnum_bounds(t, c1 + 2);
        let a = skip_alnum_spec(t, c1 + 2);
        let after = link_end(t, c1);
        assert(t[c1] == '[' && t[c1 + 1] == '[');
        assert(t[a] == ']' && t[a + 1] == ']');
        if x < after {
            assert(c1 <= x);
            if x == c1 || x == c1 + 1 {
                assert(t[x] == '[');
            } else if x < a {
                assert(is_alnum(t[x]));
            } else {
                assert(t[x] == ']');
            }
            assert(false);
        }
        let after2 = if after < t.len() && t[after] == ',' { after + 1 } else { after };
        if after2 > x {
            assert(after == x);
            assert(t[after] != ',');
            assert(crate::backlink::items_end(t, after2) <= x);
        } else {
            lemma_items_end_before_hyphen(t, after2, x);
        }
    }
}

/// The item walk over a joined token list embedded at `w`, closed by
/// the tail `' '`, `']'`, ends exactly after the list.
#[verifier::rlimit(100)]
#[verifier::spinoff_prover]
pub proof fn lemma_items_end_join_at(t: Seq<char>, w: int, toks: Seq<Seq<char>>)
    requires
        toks.len() >= 1,
        forall|k: int| 0 <= k < toks.len() ==> alnum_id(#[trigger] toks[k]),
        0 <= w,
        w + spec_join(spec_bracket_links(toks)).len() + 2 <= t.len(),
        forall|k: int| 0 <= k < spec_join(spec_bracket_links(toks)).len()
            ==> t[w + k] == spec_join(spec_bracket_links(toks))[k],
        t[w + spec_join(spec_bracket_links(toks)).len()] == ' ',
        t[w + spec_join(spec_bracket_links(toks)).len() + 1] == ']',
    ensures crate::backlink::items_end(t, w) == w + spec_join(spec_bracket_links(toks)).len(),
    decreases toks.len()
{
    reveal_strlit(", ");
    let bs = spec_bracket_links(toks);
    let jn = spec_join(bs);
    let tok0 = toks[0];
    let b0 = bs[0];
    assert(b0 == "[["@ + tok0 + "]]"@);
    lemma_bracket_facts(tok0);
    let blen = tok0.len() + 4;
    if toks.len() == 1 {
        assert(jn == b0);
        assert(t[w] == jn[0] && jn[0] == '[');
        assert(t[w + 1] == jn[1] && jn[1] == '[');
        assert forall|k: int| w + 2 <= k < w + 2 + tok0.len() implies is_alnum(t[k]) by {
            assert(t[k] == jn[k - w]);
            assert(jn[k - w] == tok0[k - w - 2]);
        }
        assert(t[w + 2 + tok0.len()] == jn[2 + tok0.len() as int]);
        assert(jn[2 + tok0.len() as int] == ']');
        assert(t[w + 3 + tok0.len()] == jn[3 + tok0.len() as int]);
        assert(jn[3 + tok0.len() as int] == ']');
        lemma_skip_alnum_at(t, w + 2, w + 2 + tok0.len());
        assert(!is_ws(t[w]));
        assert(link_token_at(t, w));
        assert(link_end(t, w) == w + blen);
        assert(t[w + blen] == ' ');
        // The walk stops after the lone token: one whitespace, then no
        // opening bracket.
        assert(t[w + blen + 1] == ']');
        assert(!link_token_at(t, w + blen + 1));
        assert(crate::backlink::items_end(t, w + blen) == w + blen);
        assert(crate::backlink::items_end(t, w) == w + blen);
    } else {
        lemma_join_head(bs);
        lemma_bracket_links_drop_first(toks);
        let rest = toks.drop_first();
        let jr = spec_join(spec_bracket_links(rest));
        assert(jn == b0 + ", "@ + jr);
        assert(", "@.len() == 2 && ", "@[0] == ',' && ", "@[1] == ' ');
        assert(t[w] == jn[0] && jn[0] == '[');
        assert(t[w + 1] == jn[1] && jn[1] == '[');
        assert forall|k: int| w + 2 <= k < w + 2 + tok0.len() implies is_alnum(t[k]) by {
            assert(t[k] == jn[k - w]);
            assert(jn[k - w] == b0[k - w]);
        }
        assert(t[w + 2 + tok0.len()] == jn[2 + tok0.len() as int]);
        assert(jn[2 + tok0.len() as int] == b0[2 + tok0.len() as int]);
        assert(t[w + 3 + tok0.len()] == jn[3 + tok0.len() as int]);
        assert(jn[3 + tok0.len() as int] == b0[3 + tok0.len() as int]);
        lemma_skip_alnum_at(t, w + 2, w + 2 + tok0.len());
        assert(!is_ws(t[w]));
        assert(link_token_at(t, w));
        assert(link_end(t, w) == w + blen);
        assert(t[w + blen] == jn[blen as int]);
        assert(jn[blen as int] == ',');
        let w2 = w + blen + 1;
        assert forall|k: int| 0 <= k < jr.len() implies t[w2 + 1 + k] == jr[k] by {
            assert(t[w2 + 1 + k] == jn[blen + 2 + k]);
            assert(jn[blen + 2 + k] == jr[k]);
        }
        assert forall|k: int| 0 <= k < rest.len() implies alnum_id(#[trigger] rest[k]) by {
            assert(rest[k] == toks[k + 1]);
        }
        assert(t[w2] == jn[blen + 1 as int]);
        assert(jn[blen + 1 as int] == ' ');
        // After the comma the walk takes the one space and the next
        // token, exactly as it would from the next token list.
        lemma_items_end_join_at(t, w2 + 1, rest);
        assert(is_ws(t[w2]));
        assert(t[w2 + 1] == jr[0]);
        assert(jr[0] == spec_bracket_links(rest)[0][0]) by {
            if rest.len() == 1 {
                assert(jr == spec_bracket_links(rest)[0]);
            } else {
                lemma_join_head(spec_bracket_links(rest));
            }
        }
        assert(spec_bracket_links(rest)[0] == "[["@ + rest[0] + "]]"@);
        lemma_bracket_facts(rest[0]);
        assert(jr[0] == '[');
        assert(!is_ws(t[w2 + 1]));
        assert(crate::backlink::items_end(t, w2) == crate::backlink::items_end(t, w2 + 1)) by {
            let c1a = if w2 < t.len() && is_ws(t[w2]) { w2 + 1 } else { w2 };
            assert(c1a == w2 + 1);
            let c1b = if w2 + 1 < t.len() && is_ws(t[w2 + 1]) { w2 + 2 } else { w2 + 1 };
            assert(c1b == w2 + 1);
            if link_token_at(t, w2 + 1) {
            } else {
                assert(crate::backlink::items_end(t, w2) == w2);
                assert(crate::backlink::items_end(t, w2 + 1) == w2 + 1);
                assert(t[w2 + 1] == '[');
                assert(false);
            }
        }
        assert(crate::backlink::items_end(t, w) == w + jn.len() as int);
    }
}

/// Extraction over a joined token list that ends the text.
#[verifier::rlimit(100)]
#[verifier::spinoff_prover]
pub proof fn lemma_extract_join_plain(t: Seq<char>, i: int, toks: Seq<Seq<char>>)
    requires
        toks.len() >= 1,
        forall|k: int| 0 <= k < toks.len() ==> alnum_id(#[trigger] toks[k]),
        0 <= i,
        t.len() == i + spec_join(spec_bracket_links(toks)).len(),
        forall|k: int| 0 <= k < spec_join(spec_bracket_links(toks)).len()
            ==> t[i + k] == spec_join(spec_bracket_links(toks))[k],
    ensures spec_extract_links(t, i) == toks,
    decreases toks.len()
{
    reveal_strlit(", ");
    let bs = spec_bracket_links(toks);
    let jn = spec_join(bs);
    let tok0 = toks[0];
    let b0 = bs[0];
    assert(b0 == "[["@ + tok0 + "]]"@);
    lemma_bracket_facts(tok0);
    let blen = tok0.len() + 4;
    if toks.len() == 1 {
        assert(jn == b0);
        assert(t[i] == jn[0] && jn[0] == '[');
        assert(t[i + 1] == jn[1] && jn[1] == '[');
        assert forall|k: int| i + 2 <= k < i + 2 + tok0.len() implies is_alnum(t[k]) by {
            assert(t[k] == jn[k - i]);
            assert(jn[k - i] == tok0[k - i - 2]);
        }
        assert(t[i + 2 + tok0.len()] == jn[2 + tok0.len() as int]);
        assert(jn[2 + tok0.len() as int] == ']');
        assert(t[i + 3 + tok0.len()] == jn[3 + tok0.len() as int]);
        assert(jn[3 + tok0.len() as int] == ']');
        lemma_skip_alnum_at(t, i + 2, i + 2 + tok0.len());
        assert(link_token_at(t, i));
        assert(link_text(t, i) =~= tok0);
        assert(link_end(t, i) == i + blen);
        assert(i + blen == t.len());
        assert(spec_extract_links(t, i) == seq![tok0] + spec_extract_links(t, i + blen));
        assert(spec_extract_links(t, t.len() as int) =~= Seq::<Seq<char>>::empty());
        assert(seq![tok0] + Seq::<Seq<char>>::empty() =~= toks);
    } else {
        lemma_join_head(bs);
        lemma_bracket_links_drop_first(toks);
        let rest = toks.drop_first();
        let jr = spec_join(spec_bracket_links(rest));
        assert(jn == b0 + ", "@ + jr);
        assert(", "@.len() == 2 && ", "@[0] == ',' && ", "@[1] == ' ');
        assert(t[i] == jn[0] && jn[0] == '[');
        assert(t[i + 1] == jn[1] && jn[1] == '[');
        assert forall|k: int| 0 <= k < tok0.len() implies t[i + 2 + k] == tok0[k] by {
            assert(t[i + 2 + k] == jn[2 + k]);
            assert(jn[2 + k] == b0[2 + k]);
        }
        assert forall|k: int| i + 2 <= k < i + 2 + tok0.len() implies is_alnum(t[k]) by {
            assert(t[k] == tok0[k - i - 2]);
        }
        assert(t[i + 2 + tok0.len()] == jn[2 + tok0.len() as int]);
        assert(jn[2 + tok0.len() as int] == b0[2 + tok0.len() as int]);
        assert(t[i + 3 + tok0.len()] == jn[3 + tok0.len() as int]);
        assert(jn[3 + tok0.len() as int] == b0[3 + tok0.len() as int]);
        lemma_skip_alnum_at(t, i + 2, i + 2 + tok0.len());
        assert(link_token_at(t, i));
        assert(link_text(t, i) =~= tok0);
        assert(link_end(t, i) == i + blen);
        assert(spec_extract_links(t, i) == seq![tok0] + spec_extract_links(t, i + blen));
        assert(t[i + blen] == jn[blen as int]);
        assert(jn[blen as int] == ',');
        assert(!link_token_at(t, i + blen));
        assert(spec_extract_links(t, i + blen) == spec_extract_links(t, i + blen + 1));
        assert(t[i + blen + 1] == jn[blen + 1 as int]);
        assert(jn[blen + 1 as int] == ' ');
        assert(!link_token_at(t, i + blen + 1));
        assert(spec_extract_links(t, i + blen + 1) == spec_extract_links(t, i + blen + 2));
        let i2 = i + blen + 2;
        assert forall|k: int| 0 <= k < jr.len() implies t[i2 + k] == jr[k] by {
            assert(t[i2 + k] == jn[blen + 2 + k]);
            assert(jn[blen + 2 + k] == jr[k]);
        }
        assert forall|k: int| 0 <= k < rest.len() implies alnum_id(#[trigger] rest[k]) by {
            assert(rest[k] == toks[k + 1]);
        }
        lemma_extract_join_plain(t, i2, rest);
        assert(seq![tok0] + rest =~= toks);
    }
}


/// No character of a joined bracketed token list is a hyphen or
/// newline.
pub proof fn lemma_join_chars(toks: Seq<Seq<char>>)
    requires
        toks.len() >= 1,
        forall|k: int| 0 <= k < toks.len() ==> alnum_id(#[trigger] toks[k]),
    ensures forall|i: int|
        0 <= i < spec_join(spec_bracket_links(toks)).len()
            ==> (#[trigger] spec_join(spec_bracket_links(toks))[i]) != '-'
                && spec_join(spec_bracket_links(toks))[i] != '\n',
    decreases toks.len()
{
    reveal_strlit(", ");
    let bs = spec_bracket_links(toks);
    let jn = spec_join(bs);
    let b_last = bs[bs.len() - 1];
    assert(b_last == "[["@ + toks[toks.len() - 1] + "]]"@);
    lemma_bracket_facts(toks[toks.len() - 1]);
    lemma_alnum_no_pair(toks[toks.len() - 1]);
    assert forall|i: int| 0 <= i < b_last.len()
        implies (#[trigger] b_last[i]) != '-' && b_last[i] != '\n' by {
        let tok = toks[toks.len() - 1];
        if i < 2 {
            assert(b_last[i] == '[');
        } else if i < 2 + tok.len() {
            assert(b_last[i] == tok[i - 2]);
        } else {
            assert(b_last[i] == ']');
        }
    }
    if toks.len() == 1 {
        assert(jn == bs[0]);
    } else {
        let rest = toks.drop_last();
        assert forall|k: int| 0 <= k < rest.len() implies alnum_id(#[trigger] rest[k]) by {
            assert(rest[k] == toks[k]);
        }
        lemma_join_chars(rest);
        assert(spec_bracket_links(rest) =~= bs.drop_last());
        let jp = spec_join(bs.drop_last());
        assert(jn == jp + ", "@ + bs.last());
        assert(", "@.len() == 2 && ", "@[0] == ',' && ", "@[1] == ' ');
        assert forall|i: int| 0 <= i < jn.len()
            implies (#[trigger] jn[i]) != '-' && jn[i] != '\n' by {
            if i < jp.len() {
                assert(jn[i] == jp[i]);
                assert(spec_join(spec_bracket_links(rest))[i] == jp[i]);
            } else if i < jp.len() + 2 {
                assert(jn[i] == ", "@[i - jp.len()]);
            } else {
                assert(jn[i] == b_last[i - jp.len() - 2]);
            }
        }
    }
}

/// Shape and character map of a canonical backlinks field.
#[verifier::rlimit(100)]
#[verifier::spinoff_prover]
pub proof fn lemma_field_facts(toks: Seq<Seq<char>>)
    requires
        toks.len() >= 1,
        forall|k: int| 0 <= k < toks.len() ==> alnum_id(#[trigger] toks[k]),
    ensures ({
        let ff = crate::backlink::spec_render_field(toks);
        let jn = spec_join(spec_bracket_links(toks));
        &&& ff.len() == jn.len() + 15
        &&& (forall|k: int| 0 <= k < 10 ==> ff[k] == crate::backlink::bk_pat()[k])
        &&& ff[10] == ' ' && ff[11] == '[' && ff[12] == ' '
        &&& (forall|k: int| 0 <= k < jn.len() ==> ff[13 + k] == jn[k])
        &&& ff[jn.len() + 13 as int] == ' ' && ff[jn.len() + 14 as int] == ']'
        &&& (forall|i: int| 0 <= i < ff.len() ==> ff[i] != '-' && ff[i] != '\n')
    }),
{
    reveal_strlit("[ ");
    reveal_strlit(" ]");
    let ff = crate::backlink::spec_render_field(toks);
    let bk = crate::backlink::bk_pat();
    let jn = spec_join(spec_bracket_links(toks));
    let rl = spec_render_list(spec_bracket_links(toks));
    assert(spec_bracket_links(toks).len() == toks.len());
    assert(rl == "[ "@ + jn + " ]"@);
    assert("[ "@.len() == 2 && "[ "@[0] == '[' && "[ "@[1] == ' ');
    assert(" ]"@.len() == 2 && " ]"@[0] == ' ' && " ]"@[1] == ']');
    assert(ff == bk + seq![' '] + rl);
    assert(ff.len() == jn.len() + 15);
    lemma_join_chars(toks);
    assert forall|k: int| 0 <= k < 10 implies ff[k] == bk[k] by {}
    assert(ff[10] == ' ');
    assert(ff[11] == rl[0]);
    assert(ff[12] == rl[1]);
    assert forall|k: int| 0 <= k < jn.len() implies ff[13 + k] == jn[k] by {
        assert(ff[13 + k] == rl[2 + k]);
        assert(rl[2 + k] == jn[k]);
    }
    assert(ff[jn.len() + 13 as int] == rl[jn.len() + 2 as int]);
    assert(rl[jn.len() + 2 as int] == ' ');
    assert(ff[jn.len() + 14 as int] == rl[jn.len() + 3 as int]);
    assert(rl[jn.len() + 3 as int] == ']');
    assert forall|i: int| 0 <= i < ff.len() implies ff[i] != '-' && ff[i] != '\n' by {
        if i < 10 {
            assert(ff[i] == bk[i]);
        } else if i == 10 {
        } else if i < 13 {
        } else if i < 13 + jn.len() {
            assert(ff[i] == jn[i - 13]);
        } else {
            assert(ff[i] == rl[i - 11]);
            if i == 13 + jn.len() {
                assert(rl[i - 11] == ' ');
            } else {
                assert(rl[i - 11] == ']');
            }
        }
    }
}



/// Bounds of a located backlinks field: the label and the whole field
/// sit inside the header, before the closing rule's newline run.
#[verifier::rlimit(100)]
#[verifier::spinoff_prover]
pub proof fn lemma_rewrite_bounds(t: Seq<char>, id: Seq<char>)
    requires crate::backlink::spec_add_backlink(t, id) is Ok,
    ensures ({
        let h0 = spec_envelope(t)->Some_0.0;
        let h1 = spec_envelope(t)->Some_0.1;
        let p = find_spec(t, h0, crate::backlink::bk_pat())->Some_0;
        let end = crate::backlink::try_field_spec(t, p)->Some_0.2;
        let m = find_spec(t, h0, hr_pat())->Some_0;
        &&& h0 <= p
        &&& p + 10 <= h1
        &&& end <= h1
        &&& h1 <= m
        &&& m + 3 <= t.len()
        &&& t[m] == '-' && t[m + 1] == '-' && t[m + 2] == '-'
        &&& end < t.len() ==> !crate::text::is_blank(t[end])
    }),
{
    let bk = crate::backlink::bk_pat();
    let env = spec_envelope(t);
    let h0 = env->Some_0.0;
    let h1 = env->Some_0.1;
    let p = find_spec(t, h0, bk)->Some_0;
    let tf = crate::backlink::try_field_spec(t, p);
    let end = tf->Some_0.2;
    crate::envelope::lemma_envelope_bounds(t);
    crate::text::lemma_find_first(t, h0, bk);
    crate::backlink::lemma_try_field_bounds(t, p);
    let m = find_spec(t, h0, hr_pat())->Some_0;
    crate::text::lemma_find_first(t, h0, hr_pat());
    assert(occurs_at(t, m, hr_pat()));
    assert(t.subrange(m, m + 3)[0] == hr_pat()[0]);
    assert(t.subrange(m, m + 3)[1] == hr_pat()[1]);
    assert(t.subrange(m, m + 3)[2] == hr_pat()[2]);
    assert(t[m] == '-' && t[m + 1] == '-' && t[m + 2] == '-');
    assert(h1 == newline_run_start(t, m, h0));
    crate::envelope::lemma_newline_run_start_bounds(t, m, h0);
    assert(occurs_at(t, p, bk));
    assert forall|k: int| 0 <= k < 10 implies t[p + k] == bk[k] by {
        assert(t.subrange(p, p + 10)[k] == bk[k]);
    }
    assert(bk[0] == 'b' && bk[1] == 'a' && bk[2] == 'c' && bk[3] == 'k' && bk[4] == 'l'
        && bk[5] == 'i' && bk[6] == 'n' && bk[7] == 'k' && bk[8] == 's' && bk[9] == ':');
    assert(p + 10 <= h1) by {
        if p + 10 > h1 {
            let q = h1 - p;
            assert(1 <= q < 10);
            if h1 < m {
                assert(t[h1] == '\n');
                assert(t[p + q] == bk[q]);
            } else {
                assert(h1 == m);
                assert(t[p + q] == bk[q]);
            }
        }
    }
    // Field internals.
    let br = crate::backlink::bracket_pos(t, p + 10)->Some_0;
    let w = skip_ws_spec(t, br + 1);
    let c = crate::backlink::items_end(t, w);
    let e2 = skip_ws_spec(t, c);
    assert(br + 1 <= t.len());
    crate::text::lemma_skip_ws_bounds(t, br + 1);
    assert(w > br + 1);
    assert(e2 < t.len() && t[e2] == ']');
    assert(end == skip_blank_spec(t, e2 + 1));
    assert(br == p + 10 || br == p + 11);
    assert(t[br] == '[');
    assert(br < h1) by {
        if br >= h1 {
            if br < m {
                assert(t[br] == '\n');
            } else if br == m {
                assert(t[br] == '-');
            } else {
                assert(br == m + 1 || br == m + 2) by {
                    assert(br <= p + 11 < h1 + 2 <= m + 2);
                }
                assert(t[br] == '-');
            }
        }
    }
    assert(m < t.len());
    assert(w <= m) by {
        if w > m {
            assert(is_ws(t[m]));
        }
    }
    crate::backlink::lemma_items_end_bounds(t, w);
    assert(c <= m) by {
        if c > m {
            lemma_items_end_before_hyphen(t, w, m);
        }
    }
    crate::text::lemma_skip_ws_bounds(t, c);
    assert(e2 <= m) by {
        if e2 > m {
            assert(is_ws(t[m]));
        }
    }
    assert(e2 < m);
    assert(e2 < h1) by {
        if e2 >= h1 {
            assert(t[e2] == '\n');
        }
    }
    crate::text::lemma_skip_blank_bounds(t, e2 + 1);
    assert(end <= h1) by {
        if end > h1 {
            if h1 < m {
                assert(crate::text::is_blank(t[h1]));
                assert(t[h1] == '\n');
            } else {
                assert(h1 == m);
                assert(crate::text::is_blank(t[m]));
            }
        }
    }
}



/// No horizontal rule occurs between the header start and the shifted
/// closing rule of a rewritten text.
#[verifier::rlimit(100)]
#[verifier::spinoff_prover]
proof fn lemma_no_hr_in_rewrite(
    t: Seq<char>,
    u: Seq<char>,
    p: int,
    flen: int,
    end: int,
    h0: int,
    m: int,
)
    requires
        0 <= h0 <= p,
        p <= end <= m,
        m + 3 <= t.len(),
        flen >= 1,
        u.len() == p + flen + (t.len() - end),
        forall|k: int| 0 <= k < p ==> u[k] == t[k],
        forall|k: int| 0 <= k < flen ==> (#[trigger] u[p + k]) != '-',
        u[p] == 'b',
        forall|k: int| 0 <= k < t.len() - end ==> #[trigger] u[p + flen + k] == t[end + k],
        forall|j: int| h0 <= j < m ==> !occurs_at(t, j, hr_pat()),
    ensures
        forall|q: int| h0 <= q < m + flen - (end - p) ==> !occurs_at(u, q, hr_pat()),
{
    let delta = flen - (end - p);
    let mu = m + delta;
    assert forall|q: int| h0 <= q < mu implies !occurs_at(u, q, hr_pat()) by {
        if occurs_at(u, q, hr_pat()) {
            assert(u.subrange(q, q + 3)[0] == hr_pat()[0]);
            assert(u[q] == '-');
            if q < p {
                assert(u.subrange(q, q + 3)[1] == hr_pat()[1]);
                assert(u.subrange(q, q + 3)[2] == hr_pat()[2]);
                if q + 3 <= p {
                    assert(occurs_at(t, q, hr_pat())) by {
                        assert(t.subrange(q, q + 3) =~= hr_pat());
                    }
                } else {
                    let d = p - q;
                    assert(1 <= d <= 2);
                    assert(u[q + d] == '-');
                }
            } else if q < p + flen {
                assert(u[p + (q - p)] != '-');
            } else {
                assert(u.subrange(q, q + 3)[1] == hr_pat()[1]);
                assert(u.subrange(q, q + 3)[2] == hr_pat()[2]);
                assert(occurs_at(t, q - delta, hr_pat())) by {
                    assert(u[p + flen + (q - p - flen)] == t[end + (q - p - flen)]);
                    assert(u[p + flen + (q + 1 - p - flen)] == t[end + (q + 1 - p - flen)]);
                    assert(u[p + flen + (q + 2 - p - flen)] == t[end + (q + 2 - p - flen)]);
                    assert(u[q] == t[q - delta]);
                    assert(u[q + 1] == t[q - delta + 1]);
                    assert(u[q + 2] == t[q - delta + 2]);
                    assert(t.subrange(q - delta, q - delta + 3) =~= hr_pat());
                }
                assert(h0 <= q - delta < m);
            }
        }
    }
}

/// No field label occurs before the rewritten field.
#[verifier::rlimit(100)]
#[verifier::spinoff_prover]
proof fn lemma_no_bk_before_rewrite(t: Seq<char>, u: Seq<char>, p: int, h0: int)
    requires
        0 <= h0 <= p,
        p + 10 <= u.len(),
        p + 10 <= t.len(),
        forall|k: int| 0 <= k < p ==> u[k] == t[k],
        forall|k: int| 0 <= k < 10 ==> #[trigger] u[p + k] == t[p + k],
        forall|j: int| h0 <= j < p ==> !occurs_at(t, j, crate::backlink::bk_pat()),
    ensures
        forall|q: int| h0 <= q < p ==> !occurs_at(u, q, crate::backlink::bk_pat()),
{
    let bk = crate::backlink::bk_pat();
    assert forall|q: int| h0 <= q < p implies !occurs_at(u, q, bk) by {
        if occurs_at(u, q, bk) {
            assert(occurs_at(t, q, bk)) by {
                assert forall|k: int| 0 <= k < 10 implies t.subrange(q, q + 10)[k] == bk[k] by {
                    assert(u.subrange(q, q + 10)[k] == bk[k]);
                    if q + k < p {
                        assert(u[q + k] == t[q + k]);
                    } else {
                        assert(u[p + (q + k - p)] == t[p + (q + k - p)]);
                    }
                }
                assert(t.subrange(q, q + 10) =~= bk);
            }
        }
    }
}


/// The few field facts the envelope argument needs.
#[verifier::spinoff_prover]
proof fn lemma_field_slim(toks: Seq<Seq<char>>)
    requires
        toks.len() >= 1,
        forall|k: int| 0 <= k < toks.len() ==> alnum_id(#[trigger] toks[k]),
    ensures ({
        let ff = crate::backlink::spec_render_field(toks);
        &&& ff.len() >= 15
        &&& ff[0] == 'b'
        &&& ff[ff.len() - 1] == ']'
        &&& (forall|i: int| 0 <= i < ff.len() ==> (#[trigger] ff[i]) != '-')
    }),
{
    lemma_field_facts(toks);
    let ff = crate::backlink::spec_render_field(toks);
    let jn = spec_join(spec_bracket_links(toks));
    assert(ff[0] == crate::backlink::bk_pat()[0]);
    assert(ff[ff.len() - 1] == ff[jn.len() + 14 as int]);
}

/// After a successful insertion, the rewritten text still parses as an
/// envelope with the same header start, and the label is still found
/// first at the same place, inside the header.
#[verifier::rlimit(100)]
#[verifier::spinoff_prover]
pub proof fn lemma_rewrite_envelope(t: Seq<char>, id: Seq<char>)
    requires
        alnum_id(id),
        crate::backlink::spec_add_backlink(t, id) is Ok,
        crate::backlink::spec_add_backlink(t, id)->Ok_0 != t,
    ensures ({
        let h0 = spec_envelope(t)->Some_0.0;
        let u = crate::backlink::spec_add_backlink(t, id)->Ok_0;
        let p = find_spec(t, h0, crate::backlink::bk_pat())->Some_0;
        &&& spec_envelope(u) is Some
        &&& spec_envelope(u)->Some_0.0 == h0
        &&& p < spec_envelope(u)->Some_0.1
    }),
{
    let bk = crate::backlink::bk_pat();
    let env = spec_envelope(t);
    let h0 = env->Some_0.0;
    let h1 = env->Some_0.1;
    let p = find_spec(t, h0, bk)->Some_0;
    let tf = crate::backlink::try_field_spec(t, p);
    let lo = tf->Some_0.0;
    let hi = tf->Some_0.1;
    let end = tf->Some_0.2;
    let toks = spec_extract_links(t.subrange(lo, hi), 0);
    crate::envelope::lemma_envelope_bounds(t);
    crate::text::lemma_find_first(t, h0, bk);
    crate::backlink::lemma_try_field_bounds(t, p);
    lemma_rewrite_bounds(t, id);
    assert(!toks.contains(id));
    let toks2 = toks.push(id);
    let ff = crate::backlink::spec_render_field(toks2);
    let jn = spec_join(spec_bracket_links(toks2));
    let u = t.subrange(0, p) + ff + t.subrange(end, t.len() as int);
    assert(crate::backlink::spec_add_backlink(t, id)->Ok_0 == u);
    crate::links::lemma_extract_links_alnum(t.subrange(lo, hi), 0);
    assert forall|k: int| 0 <= k < toks2.len() implies alnum_id(#[trigger] toks2[k]) by {
        if k < toks.len() {
            assert(toks2[k] == toks[k]);
        } else {
            assert(toks2[k] == id);
        }
    }
    lemma_field_slim(toks2);
    // Envelope internals of the original text.
    let i0 = skip_ws_spec(t, 0);
    crate::text::lemma_skip_ws_bounds(t, 0);
    assert(i0 + 3 <= t.len() && t[i0] == '-' && t[i0 + 1] == '-' && t[i0 + 2] == '-');
    let j0 = skip_blank_spec(t, i0 + 3);
    crate::text::lemma_skip_blank_bounds(t, i0 + 3);
    assert(j0 < t.len() && t[j0] == '\n');
    assert(h0 == skip_newlines_spec(t, j0));
    crate::text::lemma_skip_newlines_bounds(t, j0);
    let m = find_spec(t, h0, hr_pat())->Some_0;
    crate::text::lemma_find_first(t, h0, hr_pat());
    assert(h1 == newline_run_start(t, m, h0));
    crate::envelope::lemma_newline_run_start_bounds(t, m, h0);
    assert(occurs_at(t, p, bk));
    assert(t[p] == 'b') by {
        assert(t.subrange(p, p + 10)[0] == bk[0]);
        assert(bk[0] == 'b');
    }
    // The character map of the rewritten text.
    assert(u.len() == p + ff.len() + (t.len() - end));
    assert forall|k: int| 0 <= k < p implies u[k] == t[k] by {
        assert(u[k] == t.subrange(0, p)[k]);
    }
    assert forall|k: int| 0 <= k < ff.len() implies u[p + k] == ff[k] by {}
    assert forall|k: int| 0 <= k < t.len() - end
        implies #[trigger] u[p + ff.len() + k] == t[end + k] by {
        assert(u[p + ff.len() + k] == t.subrange(end, t.len() as int)[k]);
    }
    let delta = ff.len() - (end - p);
    let mu = m + delta;
    let h1u = h1 + delta;
    assert(i0 < p && j0 < p && h0 <= p) by {
        assert(t[p] == 'b');
    }
    lemma_skip_ws_at(u, 0, i0);
    assert(u[i0] == '-' && u[i0 + 1] == '-' && u[i0 + 2] == '-') by {
        assert(i0 + 3 <= j0 <= h0);
    }
    lemma_skip_blank_at(u, i0 + 3, j0);
    assert(u[j0] == '\n');
    lemma_skip_newlines_at(u, j0, h0);
    assert(occurs_at(u, mu, hr_pat())) by {
        assert(mu == p + ff.len() + (m - end));
        assert(u[mu] == t[m] && u[mu + 1] == t[m + 1] && u[mu + 2] == t[m + 2]);
        assert(u.subrange(mu, mu + 3) =~= hr_pat());
    }
    assert(p <= end) by {
        assert(p + 10 <= tf->Some_0.0);
    }
    assert forall|k: int| 0 <= k < ff.len() implies (#[trigger] u[p + k]) != '-' by {
        assert(u[p + k] == ff[k]);
    }
    assert(u[p] == 'b') by {
        assert(u[p] == ff[0]);
    }
    lemma_no_hr_in_rewrite(t, u, p, ff.len() as int, end, h0, m);
    lemma_find_unique(u, h0, hr_pat(), mu);
    assert forall|q: int| h1u <= q < mu implies u[q] == '\n' by {
        assert(u[q] == t[q - delta]);
        assert(h1 <= q - delta < m);
    }
    assert(h1u == h0 || u[h1u - 1] != '\n') by {
        if h1u > h0 {
            if h1 == end {
                assert(u[h1u - 1] == ff[ff.len() - 1]);
            } else {
                assert(h1 > end);
                assert(u[h1u - 1] == t[h1 - 1]);
                assert(h1 > h0) by {
                    assert(end <= h1);
                    assert(p + 10 <= h1 && h0 <= p);
                }
                assert(t[h1 - 1] != '\n');
            }
        }
    }
    lemma_newline_run_start_at(u, mu, h0, h1u);
    assert(spec_envelope(u) is Some);
    assert(spec_envelope(u)->Some_0.0 == h0);
    assert(spec_envelope(u)->Some_0.1 == h1u);
    assert(p < h1u) by {
        assert(h1u >= p + ff.len());
    }
}


/// After a successful insertion, the label is still found first at the
/// same place.
#[verifier::rlimit(100)]
#[verifier::spinoff_prover]
pub proof fn lemma_rewrite_find(t: Seq<char>, id: Seq<char>)
    requires
        alnum_id(id),
        crate::backlink::spec_add_backlink(t, id) is Ok,
        crate::backlink::spec_add_backlink(t, id)->Ok_0 != t,
    ensures ({
        let h0 = spec_envelope(t)->Some_0.0;
        let u = crate::backlink::spec_add_backlink(t, id)->Ok_0;
        let p = find_spec(t, h0, crate::backlink::bk_pat())->Some_0;
        find_spec(u, h0, crate::backlink::bk_pat()) == Some(p)
    }),
{
    let bk = crate::backlink::bk_pat();
    let env = spec_envelope(t);
    let h0 = env->Some_0.0;
    let p = find_spec(t, h0, bk)->Some_0;
    let tf = crate::backlink::try_field_spec(t, p);
    let lo = tf->Some_0.0;
    let hi = tf->Some_0.1;
    let end = tf->Some_0.2;
    let toks = spec_extract_links(t.subrange(lo, hi), 0);
    crate::envelope::lemma_envelope_bounds(t);
    crate::text::lemma_find_first(t, h0, bk);
    crate::backlink::lemma_try_field_bounds(t, p);
    assert(!toks.contains(id));
    let toks2 = toks.push(id);
    let ff = crate::backlink::spec_render_field(toks2);
    let u = t.subrange(0, p) + ff + t.subrange(end, t.len() as int);
    assert(crate::backlink::spec_add_backlink(t, id)->Ok_0 == u);
    crate::links::lemma_extract_links_alnum(t.subrange(lo, hi), 0);
    assert forall|k: int| 0 <= k < toks2.len() implies alnum_id(#[trigger] toks2[k]) by {
        if k < toks.len() {
            assert(toks2[k] == toks[k]);
        } else {
            assert(toks2[k] == id);
        }
    }
    lemma_field_facts(toks2);
    assert forall|k: int| 0 <= k < p implies u[k] == t[k] by {
        assert(u[k] == t.subrange(0, p)[k]);
    }
    assert(occurs_at(t, p, bk));
    assert forall|k: int| 0 <= k < 10 implies t[p + k] == bk[k] by {
        assert(t.subrange(p, p + 10)[k] == bk[k]);
    }
    assert(occurs_at(u, p, bk)) by {
        assert forall|k: int| 0 <= k < 10 implies u[p + k] == bk[k] by {
            assert(u[p + k] == ff[k]);
        }
        assert(u.subrange(p, p + 10) =~= bk);
    }
    assert forall|k: int| 0 <= k < 10 implies #[trigger] u[p + k] == t[p + k] by {
        assert(u[p + k] == ff[k]);
        assert(ff[k] == bk[k]);
        assert(t[p + k] == bk[k]);
    }
    lemma_no_bk_before_rewrite(t, u, p, h0);
    lemma_find_unique(u, h0, bk, p);
}



/// A canonical field embedded at `p` parses back in canonical shape.
#[verifier::rlimit(100)]
#[verifier::spinoff_prover]
proof fn lemma_canonical_field_parse(u: Seq<char>, p: int, toks: Seq<Seq<char>>)
    requires
        toks.len() >= 1,
        forall|k: int| 0 <= k < toks.len() ==> alnum_id(#[trigger] toks[k]),
        0 <= p,
        p + crate::backlink::spec_render_field(toks).len() <= u.len(),
        forall|k: int| 0 <= k < crate::backlink::spec_render_field(toks).len()
            ==> u[p + k] == crate::backlink::spec_render_field(toks)[k],
        p + crate::backlink::spec_render_field(toks).len() == u.len()
            || !crate::text::is_blank(u[p + crate::backlink::spec_render_field(toks).len()]),
    ensures ({
        let ff = crate::backlink::spec_render_field(toks);
        let jn = spec_join(spec_bracket_links(toks));
        &&& crate::backlink::try_field_spec(u, p)
            == Some((p + 13, p + 13 + jn.len() as int, p + ff.len() as int))
        &&& u.subrange(p + 13, p + 13 + jn.len() as int) == jn
    }),
{
    let bk = crate::backlink::bk_pat();
    let ff = crate::backlink::spec_render_field(toks);
    let jn = spec_join(spec_bracket_links(toks));
    lemma_field_facts(toks);
    assert(occurs_at(u, p, bk)) by {
        assert forall|k: int| 0 <= k < 10 implies u[p + k] == bk[k] by {
            assert(u[p + k] == ff[k]);
        }
        assert(u.subrange(p, p + 10) =~= bk);
    }
    assert(u[p + 10] == ff[10] && ff[10] == ' ');
    assert(u[p + 11] == ff[11] && ff[11] == '[');
    assert(crate::backlink::bracket_pos(u, p + 10) == Some(p + 11)) by {
        assert(is_ws(u[p + 10]));
        assert(u[p + 10] != '[');
    }
    assert(u[p + 12] == ff[12] && ff[12] == ' ');
    assert(u[p + 13] == ff[13] && ff[13] == jn[0]);
    assert(jn[0] == '[') by {
        let bs = spec_bracket_links(toks);
        if toks.len() == 1 {
            assert(jn == bs[0]);
        } else {
            lemma_join_head(bs);
        }
        assert(bs[0] == "[["@ + toks[0] + "]]"@);
        lemma_bracket_facts(toks[0]);
    }
    lemma_skip_ws_at(u, p + 12, p + 13);
    lemma_canonical_items_parse(u, p, toks);
    let cu = p + 13 + jn.len() as int;
    let endu = p + ff.len() as int;
    assert(crate::backlink::try_field_spec(u, p) == Some((p + 13, cu, endu)));
    assert(u.subrange(p + 13, cu) =~= jn);
}

/// The item run and closing bracket of an embedded canonical field.
#[verifier::rlimit(100)]
#[verifier::spinoff_prover]
proof fn lemma_canonical_items_parse(u: Seq<char>, p: int, toks: Seq<Seq<char>>)
    requires
        toks.len() >= 1,
        forall|k: int| 0 <= k < toks.len() ==> alnum_id(#[trigger] toks[k]),
        0 <= p,
        p + crate::backlink::spec_render_field(toks).len() <= u.len(),
        forall|k: int| 0 <= k < crate::backlink::spec_render_field(toks).len()
            ==> u[p + k] == crate::backlink::spec_render_field(toks)[k],
        p + crate::backlink::spec_render_field(toks).len() == u.len()
            || !crate::text::is_blank(u[p + crate::backlink::spec_render_field(toks).len()]),
    ensures ({
        let ff = crate::backlink::spec_render_field(toks);
        let jn = spec_join(spec_bracket_links(toks));
        &&& crate::backlink::items_end(u, p + 13) == p + 13 + jn.len() as int
        &&& skip_ws_spec(u, p + 13 + jn.len() as int) == p + 14 + jn.len() as int
        &&& u[p + 14 + jn.len() as int] == ']'
        &&& skip_blank_spec(u, p + 15 + jn.len() as int) == p + ff.len() as int
    }),
{
    let ff = crate::backlink::spec_render_field(toks);
    let jn = spec_join(spec_bracket_links(toks));
    lemma_field_facts(toks);
    assert forall|k: int| 0 <= k < jn.len() implies u[p + 13 + k] == jn[k] by {
        assert(u[p + 13 + k] == ff[13 + k]);
    }
    assert(u[p + 13 + jn.len()] == ff[13 + jn.len() as int]);
    assert(u[p + 14 + jn.len()] == ff[14 + jn.len() as int]);
    lemma_items_end_join_at(u, p + 13, toks);
    let cu = p + 13 + jn.len() as int;
    lemma_skip_ws_at(u, cu, cu + 1);
    assert(u[cu + 1] == ']');
    let endu = p + ff.len() as int;
    assert(skip_blank_spec(u, cu + 2) == endu) by {
        assert(cu + 2 == endu);
        lemma_skip_blank_at(u, endu, endu);
    }
}

/// After a successful insertion, the rewritten field parses back in
/// canonical shape and already lists the identifier.
#[verifier::rlimit(100)]
#[verifier::spinoff_prover]
pub proof fn lemma_rewrite_field(t: Seq<char>, id: Seq<char>)
    requires
        alnum_id(id),
        crate::backlink::spec_add_backlink(t, id) is Ok,
        crate::backlink::spec_add_backlink(t, id)->Ok_0 != t,
    ensures ({
        let h0 = spec_envelope(t)->Some_0.0;
        let u = crate::backlink::spec_add_backlink(t, id)->Ok_0;
        let p = find_spec(t, h0, crate::backlink::bk_pat())->Some_0;
        &&& crate::backlink::try_field_spec(u, p) is Some
        &&& spec_extract_links(
            u.subrange(
                crate::backlink::try_field_spec(u, p)->Some_0.0,
                crate::backlink::try_field_spec(u, p)->Some_0.1,
            ),
            0,
        ).contains(id)
    }),
{
    let bk = crate::backlink::bk_pat();
    let env = spec_envelope(t);
    let h0 = env->Some_0.0;
    let p = find_spec(t, h0, bk)->Some_0;
    let tf = crate::backlink::try_field_spec(t, p);
    let lo = tf->Some_0.0;
    let hi = tf->Some_0.1;
    let end = tf->Some_0.2;
    let toks = spec_extract_links(t.subrange(lo, hi), 0);
    crate::envelope::lemma_envelope_bounds(t);
    crate::text::lemma_find_first(t, h0, bk);
    crate::backlink::lemma_try_field_bounds(t, p);
    assert(!toks.contains(id));
    let toks2 = toks.push(id);
    let ff = crate::backlink::spec_render_field(toks2);
    let jn = spec_join(spec_bracket_links(toks2));
    let u = t.subrange(0, p) + ff + t.subrange(end, t.len() as int);
    assert(crate::backlink::spec_add_backlink(t, id)->Ok_0 == u);
    crate::links::lemma_extract_links_alnum(t.subrange(lo, hi), 0);
    assert forall|k: int| 0 <= k < toks2.len() implies alnum_id(#[trigger] toks2[k]) by {
        if k < toks.len() {
            assert(toks2[k] == toks[k]);
        } else {
            assert(toks2[k] == id);
        }
    }
    lemma_rewrite_bounds(t, id);
    assert forall|k: int| 0 <= k < ff.len() implies u[p + k] == ff[k] by {}
    assert(p + ff.len() == u.len() || !crate::text::is_blank(u[p + ff.len()])) by {
        if p + ff.len() < u.len() {
            assert(u[p + ff.len() + 0] == t.subrange(end, t.len() as int)[0]);
            assert(u[p + ff.len()] == t[end]);
            assert(!crate::text::is_blank(t[end]));
        }
    }
    lemma_canonical_field_parse(u, p, toks2);
    lemma_extract_join_plain(jn, 0, toks2);
    assert(u.subrange(p + 13, p + 13 + jn.len() as int) == jn);
    assert(spec_extract_links(u.subrange(p + 13, p + 13 + jn.len() as int), 0) == toks2);
    assert(toks2.contains(id)) by {
        assert(toks2[toks2.len() - 1] == id);
    }
}

/// Backlink idempotence: inserting the same identifier twice changes
/// nothing the second time.  After a successful insertion the rewritten
/// field already lists the identifier, sits at the same place in the
/// header, and parses back in canonical shape, so the repeat call
/// returns its input unchanged.
#[verifier::spinoff_prover]
pub proof fn lemma_add_backlink_idempotent(t: Seq<char>, id: Seq<char>)
    requires
        alnum_id(id),
        crate::backlink::spec_add_backlink(t, id) is Ok,
    ensures
        crate::backlink::spec_add_backlink(
            crate::backlink::spec_add_backlink(t, id)->Ok_0,
            id,
        ) == crate::backlink::spec_add_backlink(t, id),
{
    let bk = crate::backlink::bk_pat();
    let env = spec_envelope(t);
    let h0 = env->Some_0.0;
    let p = find_spec(t, h0, bk)->Some_0;
    let tf = crate::backlink::try_field_spec(t, p);
    let lo = tf->Some_0.0;
    let hi = tf->Some_0.1;
    let end = tf->Some_0.2;
    let toks = spec_extract_links(t.subrange(lo, hi), 0);
    let u = crate::backlink::spec_add_backlink(t, id)->Ok_0;
    if toks.contains(id) {
        assert(u == t);
        assert(crate::backlink::spec_add_backlink(t, id) == Ok::<Seq<char>,
            crate::backlink::BacklinkError>(t));
    } else if u == t {
        assert(crate::backlink::spec_add_backlink(u, id)
            == crate::backlink::spec_add_backlink(t, id));
    } else {
        lemma_rewrite_envelope(t, id);
        lemma_rewrite_find(t, id);
        lemma_rewrite_field(t, id);
        assert(spec_envelope(u) is Some);
        assert(spec_envelope(u)->Some_0.0 == h0);
        assert(find_spec(u, h0, bk) == Some(p));
        assert(p < spec_envelope(u)->Some_0.1);
        assert(crate::backlink::try_field_spec(u, p) is Some);
        assert(crate::backlink::spec_add_backlink(u, id) == Ok::<Seq<char>,
            crate::backlink::BacklinkError>(u));
    }
}


/// After an insertion the rewritten field lists the identifier exactly
/// once: the old tokens stay as they were, the identifier is appended,
/// and it was not among them — an identifier already listed leaves the
/// text unchanged instead, so repeated calls never add a second copy.
pub proof fn lemma_add_backlink_lists_once(t: Seq<char>, id: Seq<char>)
    requires
        alnum_id(id),
        crate::backlink::spec_add_backlink(t, id) is Ok,
        crate::backlink::spec_add_backlink(t, id)->Ok_0 != t,
    ensures ({
        let h0 = spec_envelope(t)->Some_0.0;
        let u = crate::backlink::spec_add_backlink(t, id)->Ok_0;
        let p = find_spec(t, h0, crate::backlink::bk_pat())->Some_0;
        let old_toks = spec_extract_links(
            t.subrange(
                crate::backlink::try_field_spec(t, p)->Some_0.0,
                crate::backlink::try_field_spec(t, p)->Some_0.1,
            ),
            0,
        );
        &&& !old_toks.contains(id)
        &&& spec_extract_links(
            u.subrange(
                crate::backlink::try_field_spec(u, p)->Some_0.0,
                crate::backlink::try_field_spec(u, p)->Some_0.1,
            ),
            0,
        ) == old_toks.push(id)
    }),
{
    let bk = crate::backlink::bk_pat();
    let h0 = spec_envelope(t)->Some_0.0;
    let p = find_spec(t, h0, bk)->Some_0;
    let tf = crate::backlink::try_field_spec(t, p);
    let lo = tf->Some_0.0;
    let hi = tf->Some_0.1;
    let end = tf->Some_0.2;
    let toks = spec_extract_links(t.subrange(lo, hi), 0);
    crate::envelope::lemma_envelope_bounds(t);
    crate::text::lemma_find_first(t, h0, bk);
    crate::backlink::lemma_try_field_bounds(t, p);
    assert(!toks.contains(id));
    let toks2 = toks.push(id);
    let ff = crate::backlink::spec_render_field(toks2);
    let jn = spec_join(spec_bracket_links(toks2));
    let u = t.subrange(0, p) + ff + t.subrange(end, t.len() as int);
    assert(crate::backlink::spec_add_backlink(t, id)->Ok_0 == u);
    crate::links::lemma_extract_links_alnum(t.subrange(lo, hi), 0);
    assert forall|k: int| 0 <= k < toks2.len() implies alnum_id(#[trigger] toks2[k]) by {
        if k < toks.len() {
            assert(toks2[k] == toks[k]);
        } else {
            assert(toks2[k] == id);
        }
    }
    lemma_rewrite_bounds(t, id);
    assert forall|k: int| 0 <= k < ff.len() implies u[p + k] == ff[k] by {}
    assert(p + ff.len() == u.len() || !crate::text::is_blank(u[p + ff.len()])) by {
        if p + ff.len() < u.len() {
            assert(u[p + ff.len() + 0] == t.subrange(end, t.len() as int)[0]);
            assert(u[p + ff.len()] == t[end]);
            assert(!crate::text::is_blank(t[end]));
        }
    }
    lemma_canonical_field_parse(u, p, toks2);
    lemma_extract_join_plain(jn, 0, toks2);
    assert(u.subrange(p + 13, p + 13 + jn.len() as int) == jn);
    assert(spec_extract_links(u.subrange(p + 13, p + 13 + jn.len() as int), 0) == toks2);
}

} // verus!
