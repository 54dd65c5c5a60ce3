//! The link extractor.
//!
//! A body references other notes through tokens of the form
//! `[[NoteId]]`: two opening brackets, one or more alphanumeric
//! characters, two closing brackets.  Extraction walks the text left to
//! right, collecting non-overlapping tokens in order of first occurrence
//! and keeping duplicates; callers deduplicate when they need set
//! semantics.

use vstd::prelude::*;
use crate::text::{is_alnum, skip_alnum_spec, skip_alnum, lemma_skip_alnum_bounds};

verus! {

/// A link token starts at index `i`: `[[`, at least one alphanumeric
/// character, `]]`.
pub open spec fn link_token_at(t: Seq<char>, i: int) -> bool {
    &&& 0 <= i
    &&& i + 2 <= t.len()
    &&& t[i] == '[' && t[i + 1] == '['
    &&& {
        let a = skip_alnum_spec(t, i + 2);
        &&& a > i + 2
        &&& a + 2 <= t.len()
        &&& t[a] == ']' && t[a + 1] == ']'
    }
}

/// The referenced identifier of a token starting at `i`.
pub open spec fn link_text(t: Seq<char>, i: int) -> Seq<char> {
    t.subrange(i + 2, skip_alnum_spec(t, i + 2))
}

/// Index right after a token starting at `i`.
pub open spec fn link_end(t: Seq<char>, i: int) -> int {
    skip_alnum_spec(t, i + 2) + 2
}

/// All link tokens of `t` at or after `i`, leftmost first, duplicates
/// kept.
pub open spec fn spec_extract_links(t: Seq<char>, i: int) -> Seq<Seq<char>>
    decreases t.len() - i when 0 <= i <= t.len() via spec_extract_links_dec
{
    if i >= t.len() {
        Seq::empty()
    } else if link_token_at(t, i) {
        seq![link_text(t, i)] + spec_extract_links(t, link_end(t, i))
    } else {
        spec_extract_links(t, i + 1)
    }
}

#[via_fn]
proof fn spec_extract_links_dec(t: Seq<char>, i: int) {
    if i < t.len() && link_token_at(t, i) {
        lemma_skip_alnum_bounds(t, i + 2);
    }
}

/// Every extracted identifier is nonempty and alphanumeric.
/// An identifier consists of one or more alphanumeric characters.
pub open spec fn alnum_id(s: Seq<char>) -> bool {
    s.len() > 0 && forall|j: int| 0 <= j < s.len() ==> is_alnum(s[j])
}

pub proof fn lemma_extract_links_alnum(t: Seq<char>, i: int)
    requires 0 <= i <= t.len(),
    ensures forall|k: int|
        0 <= k < spec_extract_links(t, i).len() ==> alnum_id(#[trigger] spec_extract_links(t, i)[k]),
    decreases t.len() - i
{
    if i >= t.len() {
    } else if link_token_at(t, i) {
        lemma_skip_alnum_bounds(t, i + 2);
        lemma_extract_links_alnum(t, link_end(t, i));
        let s0 = link_text(t, i);
        assert(s0.len() > 0);
        assert forall|j: int| 0 <= j < s0.len() implies is_alnum(s0[j]) by {
            assert(s0[j] == t[i + 2 + j]);
        }
        assert(alnum_id(s0));
        let res = spec_extract_links(t, i);
        let rest = spec_extract_links(t, link_end(t, i));
        assert forall|k: int| 0 <= k < res.len() implies alnum_id(#[trigger] res[k]) by {
            if k == 0 {
                assert(res[0] == s0);
            } else {
                assert(res[k] == rest[k - 1]);
                assert(alnum_id(rest[k - 1]));
            }
        }
    } else {
        lemma_extract_links_alnum(t, i + 1);
        assert(spec_extract_links(t, i) == spec_extract_links(t, i + 1));
    }
}

/// Extract all `[[NoteId]]` tokens of `body`, in order, duplicates kept.
pub fn extract_links(body: &str) -> (r: Vec<String>)
    ensures r.deep_view() == spec_extract_links(body@, 0),
{
    let n: usize = body.unicode_len();
    let mut out: Vec<String> = Vec::new();
    let mut i: usize = 0;
    while i < n
        invariant
            0 <= i <= n,
            n == body@.len(),
            out.deep_view() + spec_extract_links(body@, i as int) == spec_extract_links(body@, 0),
        decreases n - i
    {
        let mut advanced = false;
        if i + 1 < n && body.get_char(i) == '[' && body.get_char(i + 1) == '[' {
            let a = skip_alnum(body, i + 2);
            proof { lemma_skip_alnum_bounds(body@, i + 2); }
            if a > i + 2 && n - a >= 2 && body.get_char(a) == ']' && body.get_char(a + 1) == ']' {
                assert(link_token_at(body@, i as int));
                let id = body.substring_char(i + 2, a).to_owned();
                assert(id@ == link_text(body@, i as int));
                let ghost pre = out.deep_view();
                out.push(id);
                assert(out.deep_view() =~= pre + seq![id@]);
                proof {
                    assert(pre + seq![link_text(body@, i as int)]
                        + spec_extract_links(body@, link_end(body@, i as int))
                        =~= pre + (seq![link_text(body@, i as int)]
                            + spec_extract_links(body@, link_end(body@, i as int))));
                }
                i = a + 2;
                advanced = true;
            }
        }
        if !advanced {
            assert(!link_token_at(body@, i as int));
            i = i + 1;
        }
    }
    assert(spec_extract_links(body@, i as int) =~= Seq::<Seq<char>>::empty());
    assert(out.deep_view() =~= out.deep_view() + Seq::<Seq<char>>::empty());
    out
}

/// First-occurrence deduplication: the distinct identifiers of `s`, each
/// at the position of its first appearance.
pub open spec fn dedup_spec(s: Seq<Seq<char>>) -> Seq<Seq<char>>
    decreases s.len()
{
    if s.len() == 0 {
        Seq::empty()
    } else {
        let prefix = dedup_spec(s.drop_last());
        if prefix.contains(s.last()) {
            prefix
        } else {
            prefix.push(s.last())
        }
    }
}

/// Deduplication keeps exactly the members of `s`.
pub proof fn lemma_dedup_members(s: Seq<Seq<char>>)
    ensures
        forall|x: Seq<char>| dedup_spec(s).contains(x) <==> s.contains(x),
        forall|p: int, q: int|
            0 <= p < q < dedup_spec(s).len() ==> dedup_spec(s)[p] != dedup_spec(s)[q],
    decreases s.len()
{
    if s.len() > 0 {
        lemma_dedup_members(s.drop_last());
        let d = dedup_spec(s);
        let dp = dedup_spec(s.drop_last());
        assert forall|x: Seq<char>| d.contains(x) implies s.contains(x) by {
            if dp.contains(x) {
                assert(s.drop_last().contains(x));
                let k = choose|k: int| 0 <= k < s.drop_last().len() && s.drop_last()[k] == x;
                assert(s[k] == x);
                assert(s.contains(x));
            } else {
                assert(x == s.last());
                assert(s[s.len() - 1] == x);
                assert(s.contains(x));
            }
        }
        assert forall|x: Seq<char>| s.contains(x) implies d.contains(x) by {
            let k = choose|k: int| 0 <= k < s.len() && s[k] == x;
            if k < s.len() - 1 {
                assert(s.drop_last()[k] == x);
                assert(s.drop_last().contains(x));
                assert(dp.contains(x));
                if !dp.contains(s.last()) {
                    assert(d == dp.push(s.last()));
                    let j = choose|j: int| 0 <= j < dp.len() && dp[j] == x;
                    assert(d[j] == x);
                }
            } else {
                assert(x == s.last());
                if dp.contains(x) {
                } else {
                    assert(d == dp.push(x));
                    assert(d[d.len() - 1] == x);
                }
            }
        }
    }
}

/// Compare two strings for equal contents.
pub fn str_eq(a: &str, b: &str) -> (r: bool)
    ensures r == (a@ == b@),
{
    let n: usize = a.unicode_len();
    let m: usize = b.unicode_len();
    if n != m {
        return false;
    }
    let mut i: usize = 0;
    while i < n
        invariant
            0 <= i <= n,
            n == a@.len(),
            n == b@.len(),
            forall|j: int| 0 <= j < i ==> a@[j] == b@[j],
        decreases n - i
    {
        if a.get_char(i) != b.get_char(i) {
            return false;
        }
        i = i + 1;
    }
    assert(a@ =~= b@);
    true
}

/// Does the vector hold a string with these contents?
pub fn vec_contains_str(v: &Vec<String>, x: &str) -> (r: bool)
    ensures r == v.deep_view().contains(x@),
{
    let n = v.len();
    let mut i: usize = 0;
    while i < n
        invariant
            0 <= i <= n,
            n == v.len(),
            forall|j: int| 0 <= j < i ==> v.deep_view()[j] != x@,
        decreases n - i
    {
        if str_eq(v[i].as_str(), x) {
            assert(v.deep_view()[i as int] == x@);
            return true;
        }
        i = i + 1;
    }
    assert(forall|j: int| 0 <= j < v.deep_view().len() ==> v.deep_view()[j] != x@);
    false
}

/// Keep the first occurrence of each identifier, dropping later
/// duplicates.
pub fn dedup_links(links: &Vec<String>) -> (r: Vec<String>)
    ensures r.deep_view() == dedup_spec(links.deep_view()),
{
    let n = links.len();
    let mut out: Vec<String> = Vec::new();
    let mut i: usize = 0;
    while i < n
        invariant
            0 <= i <= n,
            n == links.len(),
            out.deep_view() == dedup_spec(links.deep_view().take(i as int)),
        decreases n - i
    {
        let ghost pre = links.deep_view().take(i as int);
        assert(links.deep_view().take(i as int + 1).drop_last() =~= pre);
        assert(links.deep_view().take(i as int + 1).last() == links.deep_view()[i as int]);
        if !vec_contains_str(&out, links[i].as_str()) {
            let item = links[i].clone();
            assert(item@ == links.deep_view()[i as int]);
            out.push(item);
        }
        assert(out.deep_view() =~= dedup_spec(links.deep_view().take(i as int + 1)));
        i = i + 1;
    }
    assert(links.deep_view().take(n as int) =~= links.deep_view());
    out
}

} // verus!
