//! The tag/metadata synchronizer and the link-graph synchronizer.
//!
//! `sync_tags` reconciles a note's parsed header tags against the tag
//! index destructively: all existing edges of the note are dropped (with
//! orphaned tag rows garbage-collected) and rebuilt from the current file
//! content, so the store converges to the file no matter its prior state.
//! `sync_links` replaces the note's outgoing link edges by the links
//! found in its current body, and plans which targets need a backlink
//! written into their files.

use vstd::prelude::*;
use crate::index::Index;
use crate::links::{spec_extract_links, extract_links, dedup_spec, dedup_links, lemma_dedup_members};
use crate::note::{Note, NoteProperty, valid_tag_name, validate_tag_name, all_whitespace,
    is_all_whitespace};

verus! {

/// Why a tag synchronization was refused.
#[derive(Debug)]
pub enum SyncError {
    /// A parsed tag holds a reserved character; nothing was inserted.
    InvalidTagName(String),
}

/// What a successful tag synchronization found.
#[derive(Clone, Copy, Debug, PartialEq, Eq, Structural)]
pub enum SyncReport {
    /// Edges were rebuilt from a nonempty tag list.
    Synced,
    /// The note carries no tags; the caller may warn the user.
    NoTags,
}

/// Why a note's parsed name was refused.
#[derive(Clone, Copy, Debug, PartialEq, Eq, Structural)]
pub enum NameError {
    /// The header has no `name` value, or only whitespace.
    MissingNoteName,
}

/// Why a note could not be removed.
#[derive(Clone, Copy, Debug, PartialEq, Eq, Structural)]
pub enum RemoveError {
    /// Neither a note name nor a note identifier matched.
    NoteDoesNotExist,
}

/// Synchronize the tag index with a note's parsed header tags.
///
/// All existing edges of the note are deleted first — tags left without
/// any edge are garbage-collected — and edges to exactly the parsed tags
/// are inserted.  A tag with a reserved character aborts the call before
/// any insertion: the deletion stands, no edge was added.  An empty tag
/// list reports `NoTags` rather than erring.
pub fn sync_tags(index: &mut Index, note_id: &str, parsed_tags: &Vec<String>) -> (r: Result<
    SyncReport,
    SyncError,
>)
    requires old(index).wf(),
    ensures
        final(index).wf(),
        final(index).notes_seq() == old(index).notes_seq(),
        final(index).link_seq() == old(index).link_seq(),
        match r {
            Ok(report) => {
                &&& (forall|k: int|
                    0 <= k < parsed_tags.deep_view().len()
                        ==> valid_tag_name(#[trigger] parsed_tags.deep_view()[k]))
                &&& (forall|pr: (Seq<char>, Seq<char>)|
                    #[trigger] final(index).tagging_seq().contains(pr)
                        <==> (old(index).tagging_seq().contains(pr) && pr.0 != note_id@)
                            || (pr.0 == note_id@ && parsed_tags.deep_view().contains(pr.1)))
                &&& (report == SyncReport::NoTags <==> parsed_tags.deep_view().len() == 0)
            },
            Err(SyncError::InvalidTagName(t)) => {
                &&& parsed_tags.deep_view().contains(t@)
                &&& !valid_tag_name(t@)
                &&& (forall|pr: (Seq<char>, Seq<char>)|
                    #[trigger] final(index).tagging_seq().contains(pr)
                        <==> old(index).tagging_seq().contains(pr) && pr.0 != note_id@)
            },
        },
{
    // Destructive step: drop every edge of this note; orphaned tag rows
    // disappear with them.
    let empty: Vec<String> = Vec::new();
    assert(empty.deep_view() =~= Seq::<Seq<char>>::empty());
    index.replace_note_tags(note_id, &empty);
    // Validate all tags before inserting any.
    let n = parsed_tags.len();
    let mut i: usize = 0;
    while i < n
        invariant
            0 <= i <= n,
            n == parsed_tags@.len(),
            index.wf(),
            index.notes_seq() == old(index).notes_seq(),
            index.link_seq() == old(index).link_seq(),
            (forall|pr: (Seq<char>, Seq<char>)|
                #[trigger] index.tagging_seq().contains(pr)
                    <==> old(index).tagging_seq().contains(pr) && pr.0 != note_id@),
            forall|k: int| 0 <= k < i ==> valid_tag_name(#[trigger] parsed_tags.deep_view()[k]),
        decreases n - i
    {
        if !validate_tag_name(parsed_tags[i].as_str()) {
            assert(parsed_tags.deep_view()[i as int] == parsed_tags@[i as int]@);
            assert(parsed_tags.deep_view().contains(parsed_tags@[i as int]@));
            return Err(SyncError::InvalidTagName(parsed_tags[i].clone()));
        }
        i = i + 1;
    }
    // Rebuild: one edge per parsed tag.
    index.replace_note_tags(note_id, parsed_tags);
    if parsed_tags.len() == 0 {
        Ok(SyncReport::NoTags)
    } else {
        Ok(SyncReport::Synced)
    }
}

/// The deduplicated body links that resolve to existing notes, in order
/// of first occurrence.
pub open spec fn resolvable_targets(idx: Index, body: Seq<char>) -> Seq<Seq<char>> {
    keep_existing(dedup_spec(spec_extract_links(body, 0)), idx)
}

/// The identifiers of `ids` that name an existing note, in order.
pub open spec fn keep_existing(ids: Seq<Seq<char>>, idx: Index) -> Seq<Seq<char>>
    decreases ids.len()
{
    if ids.len() == 0 {
        Seq::empty()
    } else {
        let rest = keep_existing(ids.drop_last(), idx);
        if idx.has_note(ids.last()) {
            rest.push(ids.last())
        } else {
            rest
        }
    }
}

pub proof fn lemma_keep_existing(ids: Seq<Seq<char>>, idx: Index)
    ensures
        (forall|t: Seq<char>|
            #[trigger] keep_existing(ids, idx).contains(t)
                <==> ids.contains(t) && idx.has_note(t)),
    decreases ids.len()
{
    if ids.len() > 0 {
        lemma_keep_existing(ids.drop_last(), idx);
        let r = keep_existing(ids, idx);
        let rp = keep_existing(ids.drop_last(), idx);
        assert forall|t: Seq<char>|
            #[trigger] r.contains(t) implies ids.contains(t) && idx.has_note(t) by {
            if rp.contains(t) {
                assert(ids.drop_last().contains(t));
                let k = choose|k: int| 0 <= k < ids.drop_last().len() && ids.drop_last()[k] == t;
                assert(ids[k] == t);
            } else {
                assert(t == ids.last());
                assert(ids[ids.len() - 1] == t);
            }
        }
        assert forall|t: Seq<char>|
            ids.contains(t) && idx.has_note(t) implies #[trigger] r.contains(t) by {
            let k = choose|k: int| 0 <= k < ids.len() && ids[k] == t;
            if k < ids.len() - 1 {
                assert(ids.drop_last()[k] == t);
                assert(ids.drop_last().contains(t));
                assert(rp.contains(t));
                if idx.has_note(ids.last()) {
                    let m = choose|m: int| 0 <= m < rp.len() && rp[m] == t;
                    assert(r[m] == t);
                }
            } else {
                assert(t == ids.last());
                assert(r[r.len() - 1] == t);
            }
        }
    }
}

/// How one link synchronization relates the index before the call to the
/// index after it: edges of other sources are untouched, and the source's
/// outgoing edges are exactly its current body links that resolve to
/// existing notes.
pub open spec fn sync_links_rel(pre: Index, post: Index, src: Seq<char>, body: Seq<char>) -> bool {
    forall|pr: (Seq<char>, Seq<char>)|
        #[trigger] post.link_seq().contains(pr)
            <==> (pre.link_seq().contains(pr) && pr.0 != src)
                || (pr.0 == src && spec_extract_links(body, 0).contains(pr.1)
                    && pre.has_note(pr.1))
}

/// Synchronize the link graph with a note's current body.
///
/// The body's `[[Id]]` links are extracted, deduplicated, and filtered to
/// targets that exist in the index; the note's outgoing edge set is
/// replaced by edges to exactly those targets, so stale links disappear.
/// The returned list holds the targets whose files still need a backlink
/// to this note — the resolvable targets when backlinking is enabled,
/// nothing otherwise.  Unresolvable targets are skipped without error: a
/// link may point to a note not yet created.
pub fn sync_links(index: &mut Index, source_id: &str, body: &str, backlinking_enabled: bool) -> (r:
    Vec<String>)
    requires old(index).wf(),
    ensures
        final(index).wf(),
        sync_links_rel(*old(index), *final(index), source_id@, body@),
        final(index).notes_seq() == old(index).notes_seq(),
        final(index).tag_seq() == old(index).tag_seq(),
        final(index).tagging_seq() == old(index).tagging_seq(),
        backlinking_enabled ==> r.deep_view() == resolvable_targets(*old(index), body@),
        !backlinking_enabled ==> r.deep_view() == Seq::<Seq<char>>::empty(),
{
    let ghost pre = *index;
    let links = extract_links(body);
    let distinct = dedup_links(&links);
    // Keep only targets that resolve to existing notes.
    let mut targets: Vec<String> = Vec::new();
    let n = distinct.len();
    let mut i: usize = 0;
    while i < n
        invariant
            0 <= i <= n,
            n == distinct@.len(),
            *index == pre,
            targets.deep_view() == keep_existing(distinct.deep_view().take(i as int), pre),
        decreases n - i
    {
        let ghost prefix = distinct.deep_view().take(i as int);
        assert(distinct.deep_view().take(i as int + 1).drop_last() =~= prefix);
        assert(distinct.deep_view().take(i as int + 1).last() == distinct.deep_view()[i as int]);
        if index.contains_note(distinct[i].as_str()) {
            targets.push(distinct[i].clone());
        }
        assert(targets.deep_view()
            =~= keep_existing(distinct.deep_view().take(i as int + 1), pre));
        i = i + 1;
    }
    assert(distinct.deep_view().take(n as int) =~= distinct.deep_view());
    index.replace_source_links(source_id, &targets);
    proof {
        lemma_dedup_members(links.deep_view());
        lemma_keep_existing(distinct.deep_view(), pre);
        assert forall|pr: (Seq<char>, Seq<char>)|
            #[trigger] index.link_seq().contains(pr)
            implies ((pre.link_seq().contains(pr) && pr.0 != source_id@)
                || (pr.0 == source_id@ && spec_extract_links(body@, 0).contains(pr.1)
                    && pre.has_note(pr.1))) by {
            if pr.0 == source_id@ && targets.deep_view().contains(pr.1) {
                assert(keep_existing(distinct.deep_view(), pre).contains(pr.1));
            }
        }
        assert forall|pr: (Seq<char>, Seq<char>)|
            ((pre.link_seq().contains(pr) && pr.0 != source_id@)
                || (pr.0 == source_id@ && spec_extract_links(body@, 0).contains(pr.1)
                    && pre.has_note(pr.1)))
            implies #[trigger] index.link_seq().contains(pr) by {
            if pr.0 == source_id@ {
                assert(dedup_spec(links.deep_view()).contains(pr.1));
                assert(keep_existing(distinct.deep_view(), pre).contains(pr.1));
            }
        }
    }
    if backlinking_enabled {
        targets
    } else {
        let empty: Vec<String> = Vec::new();
        assert(empty.deep_view() =~= Seq::<Seq<char>>::empty());
        empty
    }
}

/// Link replacement across two synchronizations of the same source: the
/// final outgoing edge set reflects only the second body.  A target
/// linked by the first body but no longer by the second has no edge left.
pub proof fn lemma_link_replacement(
    i0: Index,
    i1: Index,
    i2: Index,
    src: Seq<char>,
    body1: Seq<char>,
    body2: Seq<char>,
)
    requires
        sync_links_rel(i0, i1, src, body1),
        sync_links_rel(i1, i2, src, body2),
    ensures
        (forall|t: Seq<char>|
            #[trigger] i2.link_seq().contains((src, t))
                <==> spec_extract_links(body2, 0).contains(t) && i1.has_note(t)),
        (forall|t: Seq<char>|
            !spec_extract_links(body2, 0).contains(t) ==> !i2.link_seq().contains((src, t))),
{
    assert forall|t: Seq<char>|
        #[trigger] i2.link_seq().contains((src, t))
        implies spec_extract_links(body2, 0).contains(t) && i1.has_note(t) by {
        assert(((i1.link_seq().contains((src, t)) && src != src)
            || (spec_extract_links(body2, 0).contains(t) && i1.has_note(t))));
    }
}

/// Check a note's parsed header name against the index: a missing or
/// blank name is refused; a changed name is written through to the note
/// row.
pub fn check_note_name(index: &mut Index, note_id: &str, parsed_name: &Option<String>) -> (r:
    Result<(), NameError>)
    requires old(index).wf(),
    ensures
        final(index).wf(),
        final(index).tag_seq() == old(index).tag_seq(),
        final(index).tagging_seq() == old(index).tagging_seq(),
        final(index).link_seq() == old(index).link_seq(),
        final(index).notes_seq().len() == old(index).notes_seq().len(),
        match r {
            Ok(()) => {
                &&& parsed_name is Some
                &&& !all_whitespace(parsed_name->0@)
                &&& (forall|k: int|
                    0 <= k < old(index).notes_seq().len()
                        ==> (#[trigger] final(index).notes_seq()[k])
                            == if old(index).notes_seq()[k].note_id == note_id@ {
                                crate::note::NoteFields {
                                    note_name: parsed_name->0@,
                                    ..old(index).notes_seq()[k]
                                }
                            } else {
                                old(index).notes_seq()[k]
                            })
            },
            Err(NameError::MissingNoteName) => {
                &&& (parsed_name is None || all_whitespace(parsed_name->0@))
                &&& final(index).notes_seq() == old(index).notes_seq()
            },
        },
{
    match parsed_name {
        None => Err(NameError::MissingNoteName),
        Some(name) => {
            if is_all_whitespace(name.as_str()) {
                return Err(NameError::MissingNoteName);
            }
            index.update_note_name_where(name.as_str(), NoteProperty::NoteId, note_id);
            Ok(())
        },
    }
}

/// Remove a note from the index by display name or identifier, cascading
/// to its tag edges (with garbage collection) and to every link edge that
/// touches it.  The removed note row comes back so that the caller can
/// delete the file it names.  Removal fails exactly when no note carries
/// the argument as its display name and none carries it as its
/// identifier; the index is then unchanged.
pub fn remove_note(index: &mut Index, note_name_or_id: &str) -> (r: Result<Note, RemoveError>)
    requires old(index).wf(),
    ensures
        final(index).wf(),
        match r {
            Ok(note) => {
                &&& old(index).notes_seq().contains(note@)
                &&& !final(index).has_note(note@.note_id)
                &&& (forall|n: crate::note::NoteFields|
                    #[trigger] final(index).notes_seq().contains(n)
                        <==> old(index).notes_seq().contains(n) && n.note_id != note@.note_id)
                &&& (forall|pr: (Seq<char>, Seq<char>)|
                    #[trigger] final(index).tagging_seq().contains(pr)
                        <==> old(index).tagging_seq().contains(pr) && pr.0 != note@.note_id)
                &&& (forall|pr: (Seq<char>, Seq<char>)|
                    #[trigger] final(index).link_seq().contains(pr)
                        <==> old(index).link_seq().contains(pr) && pr.0 != note@.note_id
                            && pr.1 != note@.note_id)
            },
            Err(RemoveError::NoteDoesNotExist) => {
                &&& *final(index) == *old(index)
                &&& (forall|k: int|
                    0 <= k < old(index).notes_seq().len()
                        ==> (#[trigger] old(index).notes_seq()[k]).note_name
                            != note_name_or_id@)
                &&& !old(index).has_note(note_name_or_id@)
            },
        },
{
    let ghost pre = *index;
    let resolved = match index.get_note_id_where(NoteProperty::NoteName, note_name_or_id) {
        Some(id) => id,
        None => note_name_or_id.to_owned(),
    };
    let note = match index.get_note_by_id(resolved.as_str()) {
        Some(note) => note,
        None => {
            proof {
                assert forall|k: int| 0 <= k < pre.notes_seq().len()
                    implies (#[trigger] pre.notes_seq()[k]).note_name != note_name_or_id@ by {
                    assert(crate::index::prop_of(pre.notes_seq()[k], NoteProperty::NoteName)
                        != note_name_or_id@);
                }
            }
            return Err(RemoveError::NoteDoesNotExist);
        },
    };
    let empty: Vec<String> = Vec::new();
    assert(empty.deep_view() =~= Seq::<Seq<char>>::empty());
    index.replace_note_tags(note.note_id.as_str(), &empty);
    index.delete_all_links_with_note(note.note_id.as_str());
    index.delete_note(note.note_id.as_str());
    proof {
        crate::index::lemma_keep_other_note_rows(pre.notes_seq(), note@.note_id);
        if index.has_note(note@.note_id) {
            let k = choose|k: int|
                0 <= k < index.notes_seq().len()
                    && index.notes_seq()[k].note_id == note@.note_id;
            assert(index.notes_seq().contains(index.notes_seq()[k]));
        }
    }
    Ok(note)
}

} // verus!
