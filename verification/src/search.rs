//! The search-query evaluator.
//!
//! A query is a list of clauses joined by the literal delimiter
//! `" && "`.  Each clause may be prefixed by any mix
//! of `!` (negation) and `#` (tag scope); the rest is a substring
//! pattern.  An unscoped clause matches a note by name, by identifier or
//! by tag; a tag-scoped clause matches by tag only.  The first clause of
//! a polarity seeds that polarity's set, every further clause of the
//! same polarity narrows it by intersection, and the result is the
//! positive set minus the negative set.  A note must match all positive
//! clauses, and is excluded only when it matches all negative clauses —
//! several `!` clauses together exclude less, not more.

use vstd::prelude::*;
use crate::index::Index;
use crate::note::NoteTagging;
use crate::text::{contains_spec, find_spec, find_from};
use crate::collection_tool::{CollectionTool, opt_view, has_id, lookup, unique_entry_ids,
    contains_id};

verus! {

/// The clause delimiter.
pub open spec fn clause_sep() -> Seq<char> {
    seq![' ', '&', '&', ' ']
}

/// The clauses of a query: the pieces between occurrences of the
/// delimiter, leftmost first.
pub open spec fn split_clauses(q: Seq<char>) -> Seq<Seq<char>>
    decreases q.len() via split_clauses_dec
{
    match find_spec(q, 0, clause_sep()) {
        None => seq![q],
        Some(m) => seq![q.subrange(0, m)] + split_clauses(q.subrange(m + 4, q.len() as int)),
    }
}

#[via_fn]
proof fn split_clauses_dec(q: Seq<char>) {
    crate::text::lemma_find_first(q, 0, clause_sep());
}

/// Strip recognized prefix characters: whether `!` occurred, whether `#`
/// occurred, and the remaining pattern.
pub open spec fn strip_prefixes(c: Seq<char>) -> (bool, bool, Seq<char>)
    decreases c.len()
{
    if c.len() > 0 && c[0] == '!' {
        let r = strip_prefixes(c.drop_first());
        (true, r.1, r.2)
    } else if c.len() > 0 && c[0] == '#' {
        let r = strip_prefixes(c.drop_first());
        (r.0, true, r.2)
    } else {
        (false, false, c)
    }
}

/// The clause is negated.
pub open spec fn clause_negated(c: Seq<char>) -> bool {
    strip_prefixes(c).0
}

/// The clause matches tags only.
pub open spec fn clause_tag_scoped(c: Seq<char>) -> bool {
    strip_prefixes(c).1
}

/// The clause's substring pattern.
pub open spec fn clause_pattern(c: Seq<char>) -> Seq<char> {
    strip_prefixes(c).2
}

/// Some note row has this identifier and a name containing the pattern.
pub open spec fn name_match(idx: Index, id: Seq<char>, pat: Seq<char>) -> bool {
    exists|k: int|
        0 <= k < idx.notes_seq().len() && (#[trigger] idx.notes_seq()[k]).note_id == id
            && contains_spec(idx.notes_seq()[k].note_name, pat)
}

/// Some note row has this identifier, itself containing the pattern.
pub open spec fn id_match(idx: Index, id: Seq<char>, pat: Seq<char>) -> bool {
    exists|k: int|
        0 <= k < idx.notes_seq().len() && (#[trigger] idx.notes_seq()[k]).note_id == id
            && contains_spec(idx.notes_seq()[k].note_id, pat)
}

/// Some edge of the note carries a tag containing the pattern.
pub open spec fn tag_match(idx: Index, id: Seq<char>, pat: Seq<char>) -> bool {
    crate::index::edge_tag_match(idx.tagging_seq(), pat, id)
}

/// Does one clause match the note with this identifier?
pub open spec fn clause_ids_pred(idx: Index, tag_scoped: bool, pat: Seq<char>, id: Seq<char>) -> bool {
    (!tag_scoped && (name_match(idx, id, pat) || id_match(idx, id, pat)))
        || tag_match(idx, id, pat)
}

/// The identifiers one clause matches: notes whose name or identifier
/// contains the pattern (unscoped clauses only), and notes with a tag
/// containing the pattern.
pub open spec fn clause_ids(idx: Index, tag_scoped: bool, pat: Seq<char>) -> Set<Seq<char>> {
    Set::new(|id: Seq<char>| clause_ids_pred(idx, tag_scoped, pat, id))
}

/// The identifier matches every positive clause.
pub open spec fn matches_all_positive(idx: Index, cls: Seq<Seq<char>>, id: Seq<char>) -> bool {
    forall|k: int|
        0 <= k < cls.len() && !clause_negated(#[trigger] cls[k])
            ==> clause_ids(idx, clause_tag_scoped(cls[k]), clause_pattern(cls[k])).contains(id)
}

/// The identifier matches every negative clause.
pub open spec fn matches_all_negative(idx: Index, cls: Seq<Seq<char>>, id: Seq<char>) -> bool {
    forall|k: int|
        0 <= k < cls.len() && clause_negated(#[trigger] cls[k])
            ==> clause_ids(idx, clause_tag_scoped(cls[k]), clause_pattern(cls[k])).contains(id)
}

/// Some clause is positive.
pub open spec fn has_positive(cls: Seq<Seq<char>>) -> bool {
    exists|k: int| 0 <= k < cls.len() && !clause_negated(#[trigger] cls[k])
}

/// Some clause is negative.
pub open spec fn has_negative(cls: Seq<Seq<char>>) -> bool {
    exists|k: int| 0 <= k < cls.len() && clause_negated(#[trigger] cls[k])
}

/// The identifiers a query returns: with at least one positive clause,
/// the notes matching all positive clauses and not excluded; a note is
/// excluded only when negative clauses exist and it matches all of them.
/// Without a positive clause nothing is returned.
pub open spec fn result_ids(idx: Index, q: Seq<char>) -> Set<Seq<char>> {
    Set::new(
        |id: Seq<char>|
            has_positive(split_clauses(q)) && matches_all_positive(idx, split_clauses(q), id)
                && !(has_negative(split_clauses(q))
                    && matches_all_negative(idx, split_clauses(q), id)),
    )
}

/// The annotation of the first edge of `id` whose tag contains the
/// pattern.
pub open spec fn first_tag_annot(
    tgs: Seq<(Seq<char>, Seq<char>)>,
    id: Seq<char>,
    pat: Seq<char>,
) -> Option<Seq<char>>
    decreases tgs.len()
{
    if tgs.len() == 0 {
        None
    } else if tgs[0].0 == id && contains_spec(tgs[0].1, pat) {
        Some(tgs[0].1)
    } else {
        first_tag_annot(tgs.drop_first(), id, pat)
    }
}

/// The annotation one clause attaches to a matched note: none when an
/// unscoped clause matched the name, else the first matching tag, none
/// when only the identifier matched.
pub open spec fn clause_annot(
    idx: Index,
    tag_scoped: bool,
    pat: Seq<char>,
    id: Seq<char>,
) -> Option<Seq<char>> {
    if !tag_scoped && name_match(idx, id, pat) {
        None
    } else {
        first_tag_annot(idx.tagging_seq(), id, pat)
    }
}

/// Index of the last positive clause, or a negative number when none is.
pub open spec fn last_positive(cls: Seq<Seq<char>>) -> int
    decreases cls.len()
{
    if cls.len() == 0 {
        -1
    } else if !clause_negated(cls.last()) {
        cls.len() - 1
    } else {
        last_positive(cls.drop_last())
    }
}

/// With no matching edge there is no annotation.
pub proof fn lemma_first_tag_annot_none(tgs: Seq<(Seq<char>, Seq<char>)>, id: Seq<char>, pat: Seq<char>)
    requires
        forall|k: int|
            0 <= k < tgs.len() ==> !((#[trigger] tgs[k]).0 == id && contains_spec(tgs[k].1, pat)),
    ensures first_tag_annot(tgs, id, pat) is None,
    decreases tgs.len()
{
    if tgs.len() > 0 {
        assert forall|k: int| 0 <= k < tgs.drop_first().len()
            implies !((#[trigger] tgs.drop_first()[k]).0 == id
                && contains_spec(tgs.drop_first()[k].1, pat)) by {
            assert(tgs.drop_first()[k] == tgs[k + 1]);
        }
        lemma_first_tag_annot_none(tgs.drop_first(), id, pat);
    }
}

/// Split a clause into its negation flag, tag-scope flag and pattern.
fn strip_clause(c: &str) -> (r: (bool, bool, String))
    ensures ({
        let s = strip_prefixes(c@);
        r.0 == s.0 && r.1 == s.1 && r.2@ == s.2
    }),
{
    let n: usize = c.unicode_len();
    assert(c@.subrange(0, n as int) =~= c@);
    let mut i: usize = 0;
    let mut neg = false;
    let mut tag = false;
    loop
        invariant
            0 <= i <= n,
            n == c@.len(),
            ({
                let s = strip_prefixes(c@.subrange(i as int, n as int));
                strip_prefixes(c@) == ((neg || s.0), (tag || s.1), s.2)
            }),
        decreases n - i
    {
        if i >= n {
            assert(c@.subrange(i as int, n as int).len() == 0);
            let pattern = c.substring_char(i, n).to_owned();
            return (neg, tag, pattern);
        }
        let ch = c.get_char(i);
        proof {
            assert(c@.subrange(i as int, n as int)[0] == c@[i as int]);
            assert(c@.subrange(i as int, n as int).drop_first()
                =~= c@.subrange(i as int + 1, n as int));
        }
        if ch == '!' {
            neg = true;
            i = i + 1;
        } else if ch == '#' {
            tag = true;
            i = i + 1;
        } else {
            let pattern = c.substring_char(i, n).to_owned();
            return (neg, tag, pattern);
        }
    }
}

/// Split a query on the clause delimiter.
fn split_query(q: &str) -> (r: Vec<String>)
    ensures r.deep_view() == split_clauses(q@),
{
    proof {
        reveal_strlit(" && ");
        assert(" && "@ =~= clause_sep());
    }
    let mut acc: Vec<String> = Vec::new();
    let mut cur: String = q.to_owned();
    assert(acc.deep_view() =~= Seq::<Seq<char>>::empty());
    assert(Seq::<Seq<char>>::empty() + split_clauses(cur@) =~= split_clauses(q@));
    loop
        invariant
            acc.deep_view() + split_clauses(cur@) == split_clauses(q@),
        decreases cur@.len()
    {
        proof {
            reveal_strlit(" && ");
            assert(" && "@ =~= clause_sep());
        }
        let m = match find_from(cur.as_str(), 0, " && ") {
            None => {
                let ghost pre = acc.deep_view();
                assert(split_clauses(cur@) == seq![cur@]);
                let ghost cv = cur@;
                acc.push(cur);
                assert(acc.deep_view() =~= pre + seq![cv]);
                return acc;
            },
            Some(m) => m,
        };
        let n: usize = cur.unicode_len();
        let head = cur.as_str().substring_char(0, m).to_owned();
        let rest = cur.as_str().substring_char(m + 4, n).to_owned();
        proof {
            let pre = acc.deep_view();
            assert(split_clauses(cur@) == seq![cur@.subrange(0, m as int)]
                + split_clauses(cur@.subrange(m as int + 4, cur@.len() as int)));
            assert((pre + seq![head@]) + split_clauses(rest@)
                =~= pre + (seq![head@] + split_clauses(rest@)));
        }
        let ghost pre2 = acc.deep_view();
        let ghost hv = head@;
        acc.push(head);
        assert(acc.deep_view() =~= pre2 + seq![hv]);
        cur = rest;
    }
}

/// The result entries one clause contributes: notes matched by name
/// first (unscoped clauses only), then notes matched by a tag, carrying
/// the matching tag, then notes matched by identifier; one entry per
/// note.
fn entries_for_clause(index: &Index, tag_scoped: bool, pat: &str) -> (r: Vec<NoteTagging>)
    requires index.wf(),
    ensures
        unique_entry_ids(r@),
        (forall|id: Seq<char>|
            #[trigger] has_id(r@, id) <==> clause_ids_pred(*index, tag_scoped, pat@, id)),
        (forall|k: int|
            0 <= k < r@.len()
                ==> opt_view((#[trigger] r@[k]).tag_name)
                    == clause_annot(*index, tag_scoped, pat@, r@[k].note_id@)),
{
    let mut out: Vec<NoteTagging> = Vec::new();
    proof {
        crate::index::lemma_ids_like_members(
            index.notes_seq(), crate::note::NoteProperty::NoteName, pat@);
        crate::index::lemma_ids_like_members(
            index.notes_seq(), crate::note::NoteProperty::NoteId, pat@);
        crate::index::lemma_taggings_like_members(index.tagging_seq(), pat@);
    }
    // Notes matched by name (unscoped clauses only): no annotation.
    if !tag_scoped {
        let ids = index.get_note_ids_like(crate::note::NoteProperty::NoteName, pat);
        let n = ids.len();
        let mut i: usize = 0;
        while i < n
            invariant
                0 <= i <= n,
                n == ids@.len(),
                ids.deep_view() == crate::index::ids_like_spec(
                    index.notes_seq(), crate::note::NoteProperty::NoteName, pat@),
                unique_entry_ids(out@),
                (forall|id: Seq<char>|
                    #[trigger] has_id(out@, id)
                        <==> exists|j: int| 0 <= j < i && (#[trigger] ids.deep_view()[j]) == id),
                (forall|k: int|
                    0 <= k < out@.len()
                        ==> (#[trigger] out@[k]).tag_name is None
                            && name_match(*index, out@[k].note_id@, pat@)),
            decreases n - i
        {
            let ghost pre = out@;
            let ghost dv = ids.deep_view();
            assert(dv[i as int] == ids@[i as int]@);
            if !contains_id(&out, ids[i].as_str()) {
                let e = NoteTagging { note_id: ids[i].clone(), tag_name: None };
                proof {
                    crate::index::lemma_ids_like_members(
                        index.notes_seq(), crate::note::NoteProperty::NoteName, pat@);
                    assert(dv.contains(dv[i as int]));
                    assert(name_match(*index, dv[i as int], pat@));
                }
                out.push(e);
            }
            proof {
                assert forall|id: Seq<char>| #[trigger] has_id(out@, id)
                    implies exists|j: int| 0 <= j < i + 1 && (#[trigger] dv[j]) == id by {
                    let k = choose|k: int|
                        0 <= k < out@.len() && (#[trigger] out@[k]).note_id@ == id;
                    if k < pre.len() {
                        assert(has_id(pre, id));
                    } else {
                        assert(dv[i as int] == id);
                    }
                }
                assert forall|id: Seq<char>|
                    (exists|j: int| 0 <= j < i + 1 && (#[trigger] dv[j]) == id)
                    implies #[trigger] has_id(out@, id) by {
                    let j = choose|j: int| 0 <= j < i + 1 && (#[trigger] dv[j]) == id;
                    if j < i {
                        assert(has_id(pre, id));
                        let k = choose|k: int|
                            0 <= k < pre.len() && (#[trigger] pre[k]).note_id@ == id;
                        assert(out@[k].note_id@ == id);
                    } else {
                        if has_id(pre, id) {
                            let k = choose|k: int|
                                0 <= k < pre.len() && (#[trigger] pre[k]).note_id@ == id;
                            assert(out@[k].note_id@ == id);
                        } else {
                            assert(out@[out@.len() - 1].note_id@ == id);
                        }
                    }
                }
            }
            i = i + 1;
        }
        proof {
            assert forall|id: Seq<char>| #[trigger] has_id(out@, id)
                <==> name_match(*index, id, pat@) by {
                if has_id(out@, id) {
                }
                if name_match(*index, id, pat@) {
                    assert(crate::index::ids_like_spec(
                        index.notes_seq(), crate::note::NoteProperty::NoteName, pat@)
                        .contains(id));
                    let j = choose|j: int|
                        0 <= j < ids.deep_view().len() && (#[trigger] ids.deep_view()[j]) == id;
                    assert(0 <= j < n && ids.deep_view()[j] == id);
                }
            }
        }
    }
    let ghost after_names = out@;
    // Notes matched by a tag: annotated with the first matching tag.
    let te = index.get_note_ids_with_tag_like(pat);
    let tn = te.len();
    let mut j: usize = 0;
    while j < tn
        invariant
            0 <= j <= tn,
            index.wf(),
            tn == te@.len(),
            te@.len() == crate::index::taggings_like_spec(index.tagging_seq(), pat@).len(),
            (forall|k: int|
                0 <= k < te@.len()
                    ==> (#[trigger] te@[k]).note_id@
                        == crate::index::taggings_like_spec(index.tagging_seq(), pat@)[k].0),
            unique_entry_ids(out@),
            (forall|id: Seq<char>|
                #[trigger] has_id(out@, id)
                    <==> has_id(after_names, id)
                        || exists|w: int| 0 <= w < j && (#[trigger] te@[w]).note_id@ == id),
            (forall|id: Seq<char>| #[trigger] has_id(after_names, id) ==> has_id(out@, id)),
            (forall|k: int|
                0 <= k < out@.len()
                    ==> opt_view((#[trigger] out@[k]).tag_name)
                        == clause_annot(*index, tag_scoped, pat@, out@[k].note_id@)),
            (forall|id: Seq<char>| #[trigger] has_id(after_names, id)
                <==> !tag_scoped && name_match(*index, id, pat@)),
        decreases tn - j
    {
        let ghost pre = out@;
        if !contains_id(&out, te[j].note_id.as_str()) {
            let annot = index.get_first_tag_like(te[j].note_id.as_str(), pat);
            let e = NoteTagging { note_id: te[j].note_id.clone(), tag_name: annot };
            proof {
                assert(!has_id(after_names, e.note_id@));
                assert(!(!tag_scoped && name_match(*index, e.note_id@, pat@)));
                assert(opt_view(e.tag_name)
                    == first_tag_annot(index.tagging_seq(), e.note_id@, pat@));
                assert(opt_view(e.tag_name) == clause_annot(*index, tag_scoped, pat@, e.note_id@));
            }
            out.push(e);
        }
        proof {
            assert forall|id: Seq<char>| #[trigger] has_id(out@, id)
                implies has_id(after_names, id)
                    || exists|w: int| 0 <= w < j + 1 && (#[trigger] te@[w]).note_id@ == id by {
                let k = choose|k: int|
                    0 <= k < out@.len() && (#[trigger] out@[k]).note_id@ == id;
                if k < pre.len() {
                    assert(has_id(pre, id));
                } else {
                    assert(te@[j as int].note_id@ == id);
                }
            }
            assert forall|id: Seq<char>|
                has_id(after_names, id)
                    || (exists|w: int| 0 <= w < j + 1 && (#[trigger] te@[w]).note_id@ == id)
                implies #[trigger] has_id(out@, id) by {
                if has_id(pre, id) {
                    let k = choose|k: int|
                        0 <= k < pre.len() && (#[trigger] pre[k]).note_id@ == id;
                    assert(out@[k].note_id@ == id);
                } else {
                    if has_id(after_names, id) {
                        assert(has_id(pre, id));
                    } else {
                        let w = choose|w: int|
                            0 <= w < j + 1 && (#[trigger] te@[w]).note_id@ == id;
                        if w < j {
                            assert(has_id(pre, id));
                        } else {
                            assert(out@[out@.len() - 1].note_id@ == id);
                        }
                    }
                }
            }
        }
        j = j + 1;
    }
    let ghost after_tags = out@;
    proof {
        assert forall|id: Seq<char>| #[trigger] has_id(after_tags, id)
            <==> (!tag_scoped && name_match(*index, id, pat@)) || tag_match(*index, id, pat@) by {
            if has_id(after_tags, id) && !has_id(after_names, id) {
                let w = choose|w: int| 0 <= w < tn && (#[trigger] te@[w]).note_id@ == id;
                assert(crate::index::taggings_like_spec(index.tagging_seq(), pat@)[w].0 == id);
                assert(crate::index::listed_in_taggings_like(index.tagging_seq(), pat@, id));
            }
            if tag_match(*index, id, pat@) && !has_id(after_names, id) {
                assert(crate::index::listed_in_taggings_like(index.tagging_seq(), pat@, id));
                let w = choose|w: int|
                    0 <= w < crate::index::taggings_like_spec(index.tagging_seq(), pat@).len()
                        && (#[trigger] crate::index::taggings_like_spec(
                            index.tagging_seq(), pat@)[w]).0 == id;
                assert(te@[w].note_id@ == id);
            }
        }
    }
    // Notes matched by identifier (unscoped clauses only): no annotation.
    if !tag_scoped {
        let ids = index.get_note_ids_like(crate::note::NoteProperty::NoteId, pat);
        let n = ids.len();
        let mut i: usize = 0;
        while i < n
            invariant
                0 <= i <= n,
                index.wf(),
                n == ids@.len(),
                !tag_scoped,
                ids.deep_view() == crate::index::ids_like_spec(
                    index.notes_seq(), crate::note::NoteProperty::NoteId, pat@),
                unique_entry_ids(out@),
                (forall|id: Seq<char>|
                    #[trigger] has_id(out@, id)
                        <==> has_id(after_tags, id)
                            || exists|w: int|
                                0 <= w < i && (#[trigger] ids.deep_view()[w]) == id),
                (forall|k: int|
                    0 <= k < out@.len()
                        ==> opt_view((#[trigger] out@[k]).tag_name)
                            == clause_annot(*index, tag_scoped, pat@, out@[k].note_id@)),
                (forall|id: Seq<char>| #[trigger] has_id(after_tags, id)
                    <==> name_match(*index, id, pat@) || tag_match(*index, id, pat@)),
            decreases n - i
        {
            let ghost pre = out@;
            let ghost dv = ids.deep_view();
            assert(dv[i as int] == ids@[i as int]@);
            if !contains_id(&out, ids[i].as_str()) {
                let e = NoteTagging { note_id: ids[i].clone(), tag_name: None };
                proof {
                    assert(!has_id(after_tags, e.note_id@));
                    assert(!name_match(*index, e.note_id@, pat@));
                    assert(!tag_match(*index, e.note_id@, pat@));
                    assert forall|k: int| 0 <= k < index.tagging_seq().len()
                        implies !((#[trigger] index.tagging_seq()[k]).0 == e.note_id@
                            && contains_spec(index.tagging_seq()[k].1, pat@)) by {
                        if index.tagging_seq()[k].0 == e.note_id@
                            && contains_spec(index.tagging_seq()[k].1, pat@) {
                            assert(crate::index::edge_tag_match(
                                index.tagging_seq(), pat@, e.note_id@));
                        }
                    }
                    lemma_first_tag_annot_none(index.tagging_seq(), e.note_id@, pat@);
                    assert(opt_view(e.tag_name)
                        == clause_annot(*index, tag_scoped, pat@, e.note_id@));
                }
                out.push(e);
            }
            proof {
                assert forall|id: Seq<char>| #[trigger] has_id(out@, id)
                    implies has_id(after_tags, id)
                        || exists|w: int| 0 <= w < i + 1 && (#[trigger] dv[w]) == id by {
                    let k = choose|k: int|
                        0 <= k < out@.len() && (#[trigger] out@[k]).note_id@ == id;
                    if k < pre.len() {
                        assert(has_id(pre, id));
                    } else {
                        assert(dv[i as int] == id);
                    }
                }
                assert forall|id: Seq<char>|
                    has_id(after_tags, id)
                        || (exists|w: int| 0 <= w < i + 1 && (#[trigger] dv[w]) == id)
                    implies #[trigger] has_id(out@, id) by {
                    if has_id(pre, id) {
                        let k = choose|k: int|
                            0 <= k < pre.len() && (#[trigger] pre[k]).note_id@ == id;
                        assert(out@[k].note_id@ == id);
                    } else {
                        if has_id(after_tags, id) {
                            assert(has_id(pre, id));
                        } else {
                            let w = choose|w: int|
                                0 <= w < i + 1 && (#[trigger] dv[w]) == id;
                            if w < i {
                                assert(has_id(pre, id));
                            } else {
                                assert(out@[out@.len() - 1].note_id@ == id);
                            }
                        }
                    }
                }
            }
            i = i + 1;
        }
        proof {
            assert forall|id: Seq<char>| #[trigger] has_id(out@, id)
                <==> clause_ids_pred(*index, tag_scoped, pat@, id) by {
                if has_id(out@, id) && !has_id(after_tags, id) {
                    let w = choose|w: int|
                        0 <= w < ids.deep_view().len() && (#[trigger] ids.deep_view()[w]) == id;
                    assert(ids.deep_view().contains(id));
                    assert(id_match(*index, id, pat@));
                }
                if id_match(*index, id, pat@) && !has_id(after_tags, id) {
                    assert(crate::index::ids_like_spec(
                        index.notes_seq(), crate::note::NoteProperty::NoteId, pat@)
                        .contains(id));
                    let w = choose|w: int|
                        0 <= w < ids.deep_view().len() && (#[trigger] ids.deep_view()[w]) == id;
                }
            }
        }
    }
    out
}


/// Evaluate a compound boolean query against the index.
///
/// The result holds each matching note once, annotated with the tag that
/// produced the match for the last positive clause where the match came
/// through a tag; the order of the entries is not specified.  A note is
/// returned exactly when at least one positive clause exists, the note
/// matches every positive clause, and it is not the case that negative
/// clauses exist and the note matches all of them.
pub fn evaluate(index: &Index, query: &str) -> (r: Vec<NoteTagging>)
    requires index.wf(),
    ensures
        unique_entry_ids(r@),
        (forall|id: Seq<char>|
            #[trigger] has_id(r@, id) <==> result_ids(*index, query@).contains(id)),
        (forall|k: int|
            0 <= k < r@.len() ==> ({
                let cls = split_clauses(query@);
                opt_view((#[trigger] r@[k]).tag_name) == clause_annot(
                    *index,
                    clause_tag_scoped(cls[last_positive(cls)]),
                    clause_pattern(cls[last_positive(cls)]),
                    r@[k].note_id@,
                )
            })),
{
    let clauses = split_query(query);
    let ghost cls = split_clauses(query@);
    let mut inc: Vec<NoteTagging> = Vec::new();
    let mut exc: Vec<NoteTagging> = Vec::new();
    let mut seenp = false;
    let mut seenn = false;
    let n = clauses.len();
    assert(cls.take(0) =~= Seq::<Seq<char>>::empty());
    let mut i: usize = 0;
    while i < n
        invariant
            0 <= i <= n,
            index.wf(),
            n == clauses@.len(),
            clauses.deep_view() == cls,
            cls == split_clauses(query@),
            seenp == has_positive(cls.take(i as int)),
            seenn == has_negative(cls.take(i as int)),
            !seenp ==> inc@.len() == 0,
            !seenn ==> exc@.len() == 0,
            unique_entry_ids(inc@),
            unique_entry_ids(exc@),
            seenp ==> (forall|id: Seq<char>|
                #[trigger] has_id(inc@, id)
                    <==> matches_all_positive(*index, cls.take(i as int), id)),
            seenn ==> (forall|id: Seq<char>|
                #[trigger] has_id(exc@, id)
                    <==> matches_all_negative(*index, cls.take(i as int), id)),
            seenp ==> (forall|k: int|
                0 <= k < inc@.len()
                    ==> opt_view((#[trigger] inc@[k]).tag_name) == clause_annot(
                        *index,
                        clause_tag_scoped(cls[last_positive(cls.take(i as int))]),
                        clause_pattern(cls[last_positive(cls.take(i as int))]),
                        inc@[k].note_id@,
                    )),
        decreases n - i
    {
        assert(clauses.deep_view()[i as int] == clauses@[i as int]@);
        let stripped = strip_clause(clauses[i].as_str());
        let neg = stripped.0;
        let tagsc = stripped.1;
        let pat = stripped.2;
        assert(neg == clause_negated(cls[i as int]));
        assert(tagsc == clause_tag_scoped(cls[i as int]));
        assert(pat@ == clause_pattern(cls[i as int]));
        let ents = entries_for_clause(index, tagsc, pat.as_str());
        let ghost tk0 = cls.take(i as int);
        let ghost tk1 = cls.take(i as int + 1);
        proof {
            assert(tk1.drop_last() =~= tk0);
            assert(tk1.last() == cls[i as int]);
            assert(tk1[i as int] == cls[i as int]);
        }
        if !neg {
            if !seenp {
                proof {
                    assert(!has_positive(tk0));
                    assert forall|k: int| 0 <= k < i implies clause_negated(#[trigger] cls[k]) by {
                        if !clause_negated(cls[k]) {
                            assert(tk0[k] == cls[k]);
                            assert(has_positive(tk0));
                        }
                    }
                }
                inc = ents;
                seenp = true;
                proof {
                    assert(has_positive(tk1)) by {
                        assert(!clause_negated(tk1[i as int]));
                    }
                    assert(last_positive(tk1) == i);
                    assert forall|id: Seq<char>| #[trigger] has_id(inc@, id)
                        <==> matches_all_positive(*index, tk1, id) by {
                        if has_id(inc@, id) {
                            assert forall|k: int|
                                0 <= k < tk1.len() && !clause_negated(#[trigger] tk1[k])
                                implies clause_ids(*index, clause_tag_scoped(tk1[k]),
                                    clause_pattern(tk1[k])).contains(id) by {
                                assert(tk1[k] == cls[k]);
                                assert(k == i);
                                assert(clause_ids_pred(*index, tagsc, pat@, id));
                            }
                        }
                        if matches_all_positive(*index, tk1, id) {
                            assert(!clause_negated(tk1[i as int]));
                            assert(clause_ids(*index, clause_tag_scoped(tk1[i as int]),
                                clause_pattern(tk1[i as int])).contains(id));
                            assert(clause_ids_pred(*index, tagsc, pat@, id));
                        }
                    }
                }
            } else {
                let merged = CollectionTool::intersect(&inc, &ents);
                let ghost old_inc = inc@;
                inc = merged;
                proof {
                    assert(has_positive(tk1)) by {
                        assert(!clause_negated(tk1[i as int]));
                    }
                    assert(last_positive(tk1) == i);
                    assert forall|id: Seq<char>| #[trigger] has_id(inc@, id)
                        <==> matches_all_positive(*index, tk1, id) by {
                        if has_id(inc@, id) {
                            assert(has_id(old_inc, id) && has_id(ents@, id));
                            assert(matches_all_positive(*index, tk0, id));
                            assert forall|k: int|
                                0 <= k < tk1.len() && !clause_negated(#[trigger] tk1[k])
                                implies clause_ids(*index, clause_tag_scoped(tk1[k]),
                                    clause_pattern(tk1[k])).contains(id) by {
                                assert(tk1[k] == cls[k]);
                                if k < i {
                                    assert(tk0[k] == cls[k]);
                                    assert(clause_ids(*index, clause_tag_scoped(tk0[k]),
                                        clause_pattern(tk0[k])).contains(id));
                                } else {
                                    assert(clause_ids_pred(*index, tagsc, pat@, id));
                                }
                            }
                        }
                        if matches_all_positive(*index, tk1, id) {
                            assert(matches_all_positive(*index, tk0, id)) by {
                                assert forall|k: int|
                                    0 <= k < tk0.len() && !clause_negated(#[trigger] tk0[k])
                                    implies clause_ids(*index, clause_tag_scoped(tk0[k]),
                                        clause_pattern(tk0[k])).contains(id) by {
                                    assert(tk0[k] == cls[k]);
                                    assert(tk1[k] == cls[k]);
                                }
                            }
                            assert(has_id(old_inc, id));
                            assert(!clause_negated(tk1[i as int]));
                            assert(clause_ids(*index, clause_tag_scoped(tk1[i as int]),
                                clause_pattern(tk1[i as int])).contains(id));
                            assert(has_id(ents@, id));
                        }
                    }
                    assert forall|k: int| 0 <= k < inc@.len()
                        implies opt_view((#[trigger] inc@[k]).tag_name) == clause_annot(
                            *index, tagsc, pat@, inc@[k].note_id@) by {
                        let id = inc@[k].note_id@;
                        assert(opt_view(inc@[k].tag_name) == lookup(ents@, id));
                        assert(has_id(inc@, id));
                        assert(has_id(ents@, id));
                        crate::collection_tool::lemma_lookup_some(ents@, id);
                        let w = choose|w: int|
                            0 <= w < ents@.len() && (#[trigger] ents@[w]).note_id@ == id
                                && lookup(ents@, id) == opt_view(ents@[w].tag_name);
                        assert(opt_view(ents@[w].tag_name)
                            == clause_annot(*index, tagsc, pat@, id));
                    }
                }
            }
            proof {
                assert(seenn == has_negative(tk1)) by {
                    if has_negative(tk1) && !has_negative(tk0) {
                        let k = choose|k: int|
                            0 <= k < tk1.len() && clause_negated(#[trigger] tk1[k]);
                        assert(k == i || tk0[k] == tk1[k]);
                    }
                    if has_negative(tk0) {
                        let k = choose|k: int|
                            0 <= k < tk0.len() && clause_negated(#[trigger] tk0[k]);
                        assert(tk1[k] == tk0[k]);
                    }
                }
                if seenn {
                    assert forall|id: Seq<char>| #[trigger] has_id(exc@, id)
                        <==> matches_all_negative(*index, tk1, id) by {
                        if has_id(exc@, id) {
                            assert forall|k: int|
                                0 <= k < tk1.len() && clause_negated(#[trigger] tk1[k])
                                implies clause_ids(*index, clause_tag_scoped(tk1[k]),
                                    clause_pattern(tk1[k])).contains(id) by {
                                assert(tk1[k] == cls[k]);
                                assert(k < i);
                                assert(tk0[k] == cls[k]);
                            }
                        }
                        if matches_all_negative(*index, tk1, id) {
                            assert forall|k: int|
                                0 <= k < tk0.len() && clause_negated(#[trigger] tk0[k])
                                implies clause_ids(*index, clause_tag_scoped(tk0[k]),
                                    clause_pattern(tk0[k])).contains(id) by {
                                assert(tk1[k] == tk0[k]);
                            }
                        }
                    }
                }
            }
        } else {
            if !seenn {
                proof {
                    assert forall|k: int| 0 <= k < i
                        implies !clause_negated(#[trigger] cls[k]) by {
                        if clause_negated(cls[k]) {
                            assert(tk0[k] == cls[k]);
                            assert(has_negative(tk0));
                        }
                    }
                }
                exc = ents;
                seenn = true;
                proof {
                    assert(has_negative(tk1)) by {
                        assert(clause_negated(tk1[i as int]));
                    }
                    assert forall|id: Seq<char>| #[trigger] has_id(exc@, id)
                        <==> matches_all_negative(*index, tk1, id) by {
                        if has_id(exc@, id) {
                            assert forall|k: int|
                                0 <= k < tk1.len() && clause_negated(#[trigger] tk1[k])
                                implies clause_ids(*index, clause_tag_scoped(tk1[k]),
                                    clause_pattern(tk1[k])).contains(id) by {
                                assert(tk1[k] == cls[k]);
                                assert(k == i);
                                assert(clause_ids_pred(*index, tagsc, pat@, id));
                            }
                        }
                        if matches_all_negative(*index, tk1, id) {
                            assert(clause_negated(tk1[i as int]));
                            assert(clause_ids(*index, clause_tag_scoped(tk1[i as int]),
                                clause_pattern(tk1[i as int])).contains(id));
                            assert(clause_ids_pred(*index, tagsc, pat@, id));
                        }
                    }
                }
            } else {
                let merged = CollectionTool::intersect(&exc, &ents);
                let ghost old_exc = exc@;
                exc = merged;
                proof {
                    assert(has_negative(tk1)) by {
                        assert(clause_negated(tk1[i as int]));
                    }
                    assert forall|id: Seq<char>| #[trigger] has_id(exc@, id)
                        <==> matches_all_negative(*index, tk1, id) by {
                        if has_id(exc@, id) {
                            assert(has_id(old_exc, id) && has_id(ents@, id));
                            assert forall|k: int|
                                0 <= k < tk1.len() && clause_negated(#[trigger] tk1[k])
                                implies clause_ids(*index, clause_tag_scoped(tk1[k]),
                                    clause_pattern(tk1[k])).contains(id) by {
                                assert(tk1[k] == cls[k]);
                                if k < i {
                                    assert(tk0[k] == cls[k]);
                                    assert(clause_ids(*index, clause_tag_scoped(tk0[k]),
                                        clause_pattern(tk0[k])).contains(id));
                                } else {
                                    assert(clause_ids_pred(*index, tagsc, pat@, id));
                                }
                            }
                        }
                        if matches_all_negative(*index, tk1, id) {
                            assert(matches_all_negative(*index, tk0, id)) by {
                                assert forall|k: int|
                                    0 <= k < tk0.len() && clause_negated(#[trigger] tk0[k])
                                    implies clause_ids(*index, clause_tag_scoped(tk0[k]),
                                        clause_pattern(tk0[k])).contains(id) by {
                                    assert(tk0[k] == cls[k]);
                                    assert(tk1[k] == cls[k]);
                                }
                            }
                            assert(has_id(old_exc, id));
                            assert(clause_negated(tk1[i as int]));
                            assert(clause_ids(*index, clause_tag_scoped(tk1[i as int]),
                                clause_pattern(tk1[i as int])).contains(id));
                            assert(has_id(ents@, id));
                        }
                    }
                }
            }
            proof {
                assert(seenp == has_positive(tk1)) by {
                    if has_positive(tk1) && !has_positive(tk0) {
                        let k = choose|k: int|
                            0 <= k < tk1.len() && !clause_negated(#[trigger] tk1[k]);
                        assert(k == i || tk0[k] == tk1[k]);
                    }
                    if has_positive(tk0) {
                        let k = choose|k: int|
                            0 <= k < tk0.len() && !clause_negated(#[trigger] tk0[k]);
                        assert(tk1[k] == tk0[k]);
                    }
                }
                assert(last_positive(tk1) == last_positive(tk0));
                if seenp {
                    assert forall|id: Seq<char>| #[trigger] has_id(inc@, id)
                        <==> matches_all_positive(*index, tk1, id) by {
                        if has_id(inc@, id) {
                            assert forall|k: int|
                                0 <= k < tk1.len() && !clause_negated(#[trigger] tk1[k])
                                implies clause_ids(*index, clause_tag_scoped(tk1[k]),
                                    clause_pattern(tk1[k])).contains(id) by {
                                assert(tk1[k] == cls[k]);
                                assert(k < i);
                                assert(tk0[k] == cls[k]);
                            }
                        }
                        if matches_all_positive(*index, tk1, id) {
                            assert forall|k: int|
                                0 <= k < tk0.len() && !clause_negated(#[trigger] tk0[k])
                                implies clause_ids(*index, clause_tag_scoped(tk0[k]),
                                    clause_pattern(tk0[k])).contains(id) by {
                                assert(tk1[k] == tk0[k]);
                            }
                        }
                    }
                }
            }
        }
        i = i + 1;
    }
    assert(cls.take(n as int) =~= cls);
    let result = CollectionTool::difference(&inc, &exc);
    proof {
        assert forall|id: Seq<char>| #[trigger] has_id(result@, id)
            <==> result_ids(*index, query@).contains(id) by {
            assert(result_ids(*index, query@).contains(id)
                == (has_positive(cls) && matches_all_positive(*index, cls, id)
                    && !(has_negative(cls) && matches_all_negative(*index, cls, id))));
            if seenp {
                if seenn {
                } else {
                    assert(!has_id(exc@, id));
                }
            } else {
                assert(inc@.len() == 0);
                if has_id(result@, id) {
                    assert(has_id(inc@, id));
                    let k = choose|k: int|
                        0 <= k < inc@.len() && (#[trigger] inc@[k]).note_id@ == id;
                }
            }
        }
        assert forall|k: int| 0 <= k < result@.len()
            implies opt_view((#[trigger] result@[k]).tag_name) == ({
                clause_annot(
                    *index,
                    clause_tag_scoped(cls[last_positive(cls)]),
                    clause_pattern(cls[last_positive(cls)]),
                    result@[k].note_id@,
                )
            }) by {
            let id = result@[k].note_id@;
            assert(opt_view(result@[k].tag_name) == lookup(inc@, id));
            assert(has_id(result@, id));
            assert(has_id(inc@, id));
            assert(seenp) by {
                if !seenp {
                    assert(inc@.len() == 0);
                    let w = choose|w: int|
                        0 <= w < inc@.len() && (#[trigger] inc@[w]).note_id@ == id;
                }
            }
            crate::collection_tool::lemma_lookup_some(inc@, id);
            let w = choose|w: int|
                0 <= w < inc@.len() && (#[trigger] inc@[w]).note_id@ == id
                    && lookup(inc@, id) == opt_view(inc@[w].tag_name);
        }
    }
    result
}

} // verus!
