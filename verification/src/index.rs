//! The relational index.
//!
//! An in-memory model of the note store: note rows, tag rows, note-tag
//! edges and link edges, with the store's integrity rules as a verified
//! invariant.  Chief among them is the tag garbage-collection rule: a tag
//! row exists exactly as long as at least one note-tag edge references
//! it, so no orphaned tag can ever be observed.

use vstd::prelude::*;
use crate::note::{Note, NoteFields, NoteProperty, NoteTagging, NoteLink};
use crate::timestamp::spec_format_timestamp;
use crate::text::contains_spec;
use crate::links::str_eq;

verus! {

/// Why an index update was refused.
#[derive(Clone, Copy, Debug, PartialEq, Eq, Structural)]
pub enum IndexError {
    /// A note row with this identifier already exists.
    DuplicateNoteId,
}

/// One note-tag edge.
#[derive(Debug)]
pub struct TagEdge {
    pub note_id: String,
    pub tag_name: String,
}

/// No two note rows share an identifier.
pub open spec fn unique_note_ids(ns: Seq<NoteFields>) -> bool {
    forall|i: int, j: int| 0 <= i < j < ns.len() ==> ns[i].note_id != ns[j].note_id
}

/// Every note row carries a well-formed creation timestamp.
pub open spec fn notes_dates_wf(ns: Seq<NoteFields>) -> bool {
    forall|k: int| 0 <= k < ns.len() ==> (#[trigger] ns[k]).creation_date_time.wf()
}

/// No element occurs twice.
pub open spec fn unique_elems(s: Seq<Seq<char>>) -> bool {
    forall|i: int, j: int| 0 <= i < j < s.len() ==> s[i] != s[j]
}

/// No pair occurs twice.
pub open spec fn unique_pairs(s: Seq<(Seq<char>, Seq<char>)>) -> bool {
    forall|i: int, j: int| 0 <= i < j < s.len() ==> s[i] != s[j]
}

/// The tag rows are exactly the tags referenced by the edges: every edge
/// names an existing tag row, and every tag row is named by at least one
/// edge (no orphaned tag).
pub open spec fn tags_consistent(tags: Seq<Seq<char>>, edges: Seq<(Seq<char>, Seq<char>)>) -> bool {
    &&& (forall|k: int| 0 <= k < edges.len() ==> tags.contains(#[trigger] edges[k].1))
    &&& (forall|k: int|
        0 <= k < tags.len()
            ==> exists|m: int| 0 <= m < edges.len() && (#[trigger] edges[m].1) == #[trigger] tags[k])
}

/// The relational index of the knowledge base.
pub struct Index {
    notes: Vec<Note>,
    tags: Vec<String>,
    taggings: Vec<TagEdge>,
    links: Vec<NoteLink>,
}

impl Index {
    /// The note rows, in insertion order.
    pub closed spec fn notes_seq(self) -> Seq<NoteFields> {
        Seq::new(self.notes@.len(), |k: int| self.notes@[k]@)
    }

    /// The tag rows, in insertion order.
    pub closed spec fn tag_seq(self) -> Seq<Seq<char>> {
        Seq::new(self.tags@.len(), |k: int| self.tags@[k]@)
    }

    /// The note-tag edges, in insertion order.
    pub closed spec fn tagging_seq(self) -> Seq<(Seq<char>, Seq<char>)> {
        Seq::new(
            self.taggings@.len(),
            |k: int| (self.taggings@[k].note_id@, self.taggings@[k].tag_name@),
        )
    }

    /// The link edges, in insertion order.
    pub closed spec fn link_seq(self) -> Seq<(Seq<char>, Seq<char>)> {
        Seq::new(
            self.links@.len(),
            |k: int| (self.links@[k].source_note_id@, self.links@[k].target_note_id@),
        )
    }

    /// A note row with this identifier exists.
    pub open spec fn has_note(self, id: Seq<char>) -> bool {
        exists|k: int| 0 <= k < self.notes_seq().len() && self.notes_seq()[k].note_id == id
    }

    /// A link edge from `src` to `tgt` exists.
    pub open spec fn has_link(self, src: Seq<char>, tgt: Seq<char>) -> bool {
        self.link_seq().contains((src, tgt))
    }

    /// A note-tag edge exists.
    pub open spec fn has_tagging(self, id: Seq<char>, tag: Seq<char>) -> bool {
        self.tagging_seq().contains((id, tag))
    }

    /// A tag row exists.
    pub open spec fn has_tag(self, tag: Seq<char>) -> bool {
        self.tag_seq().contains(tag)
    }

    /// Well-formedness: rows and edges are unique, every edge references
    /// an existing tag row, and every tag row is referenced by at least
    /// one edge (the garbage-collection rule).
    pub open spec fn wf(self) -> bool {
        &&& unique_note_ids(self.notes_seq())
        &&& notes_dates_wf(self.notes_seq())
        &&& unique_elems(self.tag_seq())
        &&& unique_pairs(self.tagging_seq())
        &&& unique_pairs(self.link_seq())
        &&& tags_consistent(self.tag_seq(), self.tagging_seq())
    }

    /// An empty index.
    pub fn new() -> (r: Index)
        ensures
            r.wf(),
            r.notes_seq() == Seq::<NoteFields>::empty(),
            r.tag_seq() == Seq::<Seq<char>>::empty(),
            r.tagging_seq() == Seq::<(Seq<char>, Seq<char>)>::empty(),
            r.link_seq() == Seq::<(Seq<char>, Seq<char>)>::empty(),
    {
        let r = Index { notes: Vec::new(), tags: Vec::new(), taggings: Vec::new(), links: Vec::new() };
        proof {
            assert(r.notes_seq() =~= Seq::<NoteFields>::empty());
            assert(r.tag_seq() =~= Seq::<Seq<char>>::empty());
            assert(r.tagging_seq() =~= Seq::<(Seq<char>, Seq<char>)>::empty());
            assert(r.link_seq() =~= Seq::<(Seq<char>, Seq<char>)>::empty());
        }
        r
    }

    /// Index of the first note row with this identifier.
    fn find_note_index(&self, id: &str) -> (r: Option<usize>)
        ensures
            match r {
                Some(k) => k < self.notes_seq().len() && self.notes_seq()[k as int].note_id == id@,
                None => !self.has_note(id@),
            },
    {
        let n = self.notes.len();
        let mut i: usize = 0;
        while i < n
            invariant
                0 <= i <= n,
                n == self.notes.len(),
                forall|j: int| 0 <= j < i ==> self.notes_seq()[j].note_id != id@,
            decreases n - i
        {
            if str_eq(self.notes[i].note_id.as_str(), id) {
                assert(self.notes_seq()[i as int].note_id == id@);
                return Some(i);
            }
            i = i + 1;
        }
        assert forall|k: int| 0 <= k < self.notes_seq().len()
            implies self.notes_seq()[k].note_id != id@ by {}
        None
    }

    /// Insert a note row; refused when the identifier is already taken.
    pub fn insert_note(&mut self, note: Note) -> (r: Result<(), IndexError>)
        requires
            old(self).wf(),
            note@.creation_date_time.wf(),
        ensures
            final(self).wf(),
            match r {
                Ok(()) => !old(self).has_note(note@.note_id)
                    && final(self).notes_seq() == old(self).notes_seq().push(note@),
                Err(IndexError::DuplicateNoteId) => old(self).has_note(note@.note_id)
                    && final(self).notes_seq() == old(self).notes_seq(),
            },
            final(self).tag_seq() == old(self).tag_seq(),
            final(self).tagging_seq() == old(self).tagging_seq(),
            final(self).link_seq() == old(self).link_seq(),
    {
        if self.find_note_index(note.note_id.as_str()).is_some() {
            assert(self.has_note(note@.note_id));
            return Err(IndexError::DuplicateNoteId);
        }
        let ghost pre = *self;
        let ghost nv = note@;
        self.notes.push(note);
        proof {
            assert(self.notes_seq() =~= pre.notes_seq().push(nv));
            assert(self.tag_seq() =~= pre.tag_seq());
            assert(self.tagging_seq() =~= pre.tagging_seq());
            assert(self.link_seq() =~= pre.link_seq());
            assert forall|i: int, j: int|
                0 <= i < j < self.notes_seq().len()
                implies self.notes_seq()[i].note_id != self.notes_seq()[j].note_id by {
                if j == self.notes_seq().len() - 1 {
                    assert(self.notes_seq()[i] == pre.notes_seq()[i]);
                    assert(self.notes_seq()[j] == nv);
                } else {
                    assert(self.notes_seq()[i] == pre.notes_seq()[i]);
                    assert(self.notes_seq()[j] == pre.notes_seq()[j]);
                }
            }
            assert(unique_note_ids(self.notes_seq()));
            assert forall|k: int| 0 <= k < self.notes_seq().len()
                implies (#[trigger] self.notes_seq()[k]).creation_date_time.wf() by {
                if k < self.notes_seq().len() - 1 {
                    assert(self.notes_seq()[k] == pre.notes_seq()[k]);
                } else {
                    assert(self.notes_seq()[k] == nv);
                }
            }
        }
        Ok(())
    }

    /// The note row with this identifier, if any.
    pub fn get_note_by_id(&self, id: &str) -> (r: Option<Note>)
        ensures
            match r {
                Some(n) => self.has_note(id@) && n@.note_id == id@
                    && self.notes_seq().contains(n@),
                None => !self.has_note(id@),
            },
    {
        match self.find_note_index(id) {
            Some(k) => {
                let n = self.notes[k].clone();
                proof {
                    assert(n@ == self.notes_seq()[k as int]);
                    assert(self.notes_seq().contains(n@));
                }
                Some(n)
            },
            None => None,
        }
    }

    /// Does a note row with this identifier exist?
    pub fn contains_note(&self, id: &str) -> (r: bool)
        ensures r == self.has_note(id@),
    {
        self.find_note_index(id).is_some()
    }

    /// How many note rows the index holds.
    pub fn note_count(&self) -> (r: usize)
        ensures r == self.notes_seq().len(),
    {
        self.notes.len()
    }

    /// The identifier of the note row at this position.
    pub fn get_note_id_at(&self, k: usize) -> (r: String)
        requires k < self.notes_seq().len(),
        ensures r@ == self.notes_seq()[k as int].note_id,
    {
        self.notes[k].note_id.clone()
    }
}


// ------------------------------------------------------------------
// Sequence transformers for edge and row updates.
// ------------------------------------------------------------------

/// The edges whose note is not `id`, in order.
pub open spec fn keep_other_notes(
    tgs: Seq<(Seq<char>, Seq<char>)>,
    id: Seq<char>,
) -> Seq<(Seq<char>, Seq<char>)>
    decreases tgs.len()
{
    if tgs.len() == 0 {
        Seq::empty()
    } else {
        let rest = keep_other_notes(tgs.drop_last(), id);
        if tgs.last().0 == id {
            rest
        } else {
            rest.push(tgs.last())
        }
    }
}

pub proof fn lemma_keep_other_notes(tgs: Seq<(Seq<char>, Seq<char>)>, id: Seq<char>)
    ensures
        forall|pr: (Seq<char>, Seq<char>)|
            #[trigger] keep_other_notes(tgs, id).contains(pr)
                <==> tgs.contains(pr) && pr.0 != id,
        unique_pairs(tgs) ==> unique_pairs(keep_other_notes(tgs, id)),
        forall|m: int|
            0 <= m < keep_other_notes(tgs, id).len()
                ==> (#[trigger] keep_other_notes(tgs, id)[m]).0 != id,
    decreases tgs.len()
{
    if tgs.len() > 0 {
        lemma_keep_other_notes(tgs.drop_last(), id);
        let r = keep_other_notes(tgs, id);
        let rp = keep_other_notes(tgs.drop_last(), id);
        assert forall|pr: (Seq<char>, Seq<char>)|
            #[trigger] r.contains(pr) implies tgs.contains(pr) && pr.0 != id by {
            if rp.contains(pr) {
                assert(tgs.drop_last().contains(pr));
                let k = choose|k: int| 0 <= k < tgs.drop_last().len() && tgs.drop_last()[k] == pr;
                assert(tgs[k] == pr);
            } else {
                assert(pr == tgs.last());
                assert(tgs[tgs.len() - 1] == pr);
            }
        }
        assert forall|pr: (Seq<char>, Seq<char>)|
            tgs.contains(pr) && pr.0 != id implies #[trigger] r.contains(pr) by {
            let k = choose|k: int| 0 <= k < tgs.len() && tgs[k] == pr;
            if k < tgs.len() - 1 {
                assert(tgs.drop_last()[k] == pr);
                assert(tgs.drop_last().contains(pr));
                assert(rp.contains(pr));
                if tgs.last().0 == id {
                } else {
                    let m = choose|m: int| 0 <= m < rp.len() && rp[m] == pr;
                    assert(r[m] == pr);
                }
            } else {
                assert(pr == tgs.last());
                assert(r[r.len() - 1] == pr);
            }
        }
        if unique_pairs(tgs) {
            assert(unique_pairs(tgs.drop_last())) by {
                assert forall|i: int, j: int|
                    0 <= i < j < tgs.drop_last().len()
                    implies tgs.drop_last()[i] != tgs.drop_last()[j] by {
                    assert(tgs[i] == tgs.drop_last()[i]);
                    assert(tgs[j] == tgs.drop_last()[j]);
                }
            }
            if tgs.last().0 != id {
                assert(!rp.contains(tgs.last())) by {
                    if rp.contains(tgs.last()) {
                        assert(tgs.drop_last().contains(tgs.last()));
                        let k = choose|k: int|
                            0 <= k < tgs.drop_last().len() && tgs.drop_last()[k] == tgs.last();
                        assert(tgs[k] == tgs[tgs.len() - 1]);
                    }
                }
                assert forall|i: int, j: int|
                    0 <= i < j < r.len() implies r[i] != r[j] by {
                    if j < r.len() - 1 {
                        assert(r[i] == rp[i] && r[j] == rp[j]);
                    } else {
                        assert(r[j] == tgs.last());
                        assert(r[i] == rp[i]);
                        assert(rp.contains(rp[i]));
                    }
                }
            }
        }
    }
}

/// The edges extended by `(id, t)` for each tag `t` of `ts`, skipping
/// pairs already present.
pub open spec fn add_note_tags(
    tgs: Seq<(Seq<char>, Seq<char>)>,
    id: Seq<char>,
    ts: Seq<Seq<char>>,
) -> Seq<(Seq<char>, Seq<char>)>
    decreases ts.len()
{
    if ts.len() == 0 {
        tgs
    } else {
        let prev = add_note_tags(tgs, id, ts.drop_last());
        if prev.contains((id, ts.last())) {
            prev
        } else {
            prev.push((id, ts.last()))
        }
    }
}

pub proof fn lemma_add_note_tags(tgs: Seq<(Seq<char>, Seq<char>)>, id: Seq<char>, ts: Seq<Seq<char>>)
    ensures
        forall|pr: (Seq<char>, Seq<char>)|
            #[trigger] add_note_tags(tgs, id, ts).contains(pr)
                <==> tgs.contains(pr) || (pr.0 == id && ts.contains(pr.1)),
        unique_pairs(tgs) ==> unique_pairs(add_note_tags(tgs, id, ts)),
    decreases ts.len()
{
    if ts.len() > 0 {
        lemma_add_note_tags(tgs, id, ts.drop_last());
        let r = add_note_tags(tgs, id, ts);
        let rp = add_note_tags(tgs, id, ts.drop_last());
        assert forall|pr: (Seq<char>, Seq<char>)|
            #[trigger] r.contains(pr)
            implies tgs.contains(pr) || (pr.0 == id && ts.contains(pr.1)) by {
            if rp.contains(pr) {
                if !tgs.contains(pr) {
                    assert(ts.drop_last().contains(pr.1));
                    let k = choose|k: int|
                        0 <= k < ts.drop_last().len() && ts.drop_last()[k] == pr.1;
                    assert(ts[k] == pr.1);
                }
            } else {
                assert(pr == (id, ts.last()));
                assert(ts[ts.len() - 1] == pr.1);
            }
        }
        assert forall|pr: (Seq<char>, Seq<char>)|
            tgs.contains(pr) || (pr.0 == id && ts.contains(pr.1))
            implies #[trigger] r.contains(pr) by {
            if tgs.contains(pr) {
                assert(rp.contains(pr));
                if !rp.contains((id, ts.last())) {
                    let m = choose|m: int| 0 <= m < rp.len() && rp[m] == pr;
                    assert(r[m] == pr);
                }
            } else {
                let k = choose|k: int| 0 <= k < ts.len() && ts[k] == pr.1;
                if k < ts.len() - 1 {
                    assert(ts.drop_last()[k] == pr.1);
                    assert(ts.drop_last().contains(pr.1));
                    assert(rp.contains(pr));
                    if !rp.contains((id, ts.last())) {
                        let m = choose|m: int| 0 <= m < rp.len() && rp[m] == pr;
                        assert(r[m] == pr);
                    }
                } else {
                    assert(pr == (id, ts.last()));
                    if rp.contains(pr) {
                        if !rp.contains((id, ts.last())) {
                            assert(false);
                        }
                    } else {
                        assert(r[r.len() - 1] == pr);
                    }
                }
            }
        }
        if unique_pairs(tgs) {
            if !rp.contains((id, ts.last())) {
                assert forall|i: int, j: int|
                    0 <= i < j < r.len() implies r[i] != r[j] by {
                    if j < r.len() - 1 {
                        assert(r[i] == rp[i] && r[j] == rp[j]);
                    } else {
                        assert(r[j] == (id, ts.last()));
                        assert(r[i] == rp[i]);
                        assert(rp.contains(rp[i]));
                    }
                }
            }
        }
    }
}

/// The distinct tags referenced by the edges, in order of first
/// reference.
pub open spec fn tags_from_edges(tgs: Seq<(Seq<char>, Seq<char>)>) -> Seq<Seq<char>>
    decreases tgs.len()
{
    if tgs.len() == 0 {
        Seq::empty()
    } else {
        let rest = tags_from_edges(tgs.drop_last());
        if rest.contains(tgs.last().1) {
            rest
        } else {
            rest.push(tgs.last().1)
        }
    }
}

pub proof fn lemma_tags_from_edges(tgs: Seq<(Seq<char>, Seq<char>)>)
    ensures
        forall|t: Seq<char>|
            #[trigger] tags_from_edges(tgs).contains(t)
                <==> exists|m: int| 0 <= m < tgs.len() && (#[trigger] tgs[m]).1 == t,
        unique_elems(tags_from_edges(tgs)),
    decreases tgs.len()
{
    if tgs.len() > 0 {
        lemma_tags_from_edges(tgs.drop_last());
        let r = tags_from_edges(tgs);
        let rp = tags_from_edges(tgs.drop_last());
        assert forall|t: Seq<char>|
            #[trigger] r.contains(t)
            implies exists|m: int| 0 <= m < tgs.len() && (#[trigger] tgs[m]).1 == t by {
            if rp.contains(t) {
                let m = choose|m: int| 0 <= m < tgs.drop_last().len() && tgs.drop_last()[m].1 == t;
                assert(tgs[m].1 == t);
            } else {
                assert(t == tgs.last().1);
                assert(tgs[tgs.len() - 1].1 == t);
            }
        }
        assert forall|t: Seq<char>|
            (exists|m: int| 0 <= m < tgs.len() && (#[trigger] tgs[m]).1 == t)
            implies #[trigger] r.contains(t) by {
            let m = choose|m: int| 0 <= m < tgs.len() && tgs[m].1 == t;
            if m < tgs.len() - 1 {
                assert(tgs.drop_last()[m].1 == t);
                assert(rp.contains(t));
                if !rp.contains(tgs.last().1) {
                    let k = choose|k: int| 0 <= k < rp.len() && rp[k] == t;
                    assert(r[k] == t);
                }
            } else {
                assert(t == tgs.last().1);
                if rp.contains(t) {
                } else {
                    assert(r[r.len() - 1] == t);
                }
            }
        }
        if !rp.contains(tgs.last().1) {
            assert forall|i: int, j: int|
                0 <= i < j < r.len() implies r[i] != r[j] by {
                if j < r.len() - 1 {
                    assert(r[i] == rp[i] && r[j] == rp[j]);
                } else {
                    assert(r[j] == tgs.last().1);
                    assert(r[i] == rp[i]);
                    assert(rp.contains(rp[i]));
                }
            }
        }
    }
}


/// The link edges that touch neither end at `id`.
pub open spec fn keep_unrelated_links(
    ls: Seq<(Seq<char>, Seq<char>)>,
    id: Seq<char>,
) -> Seq<(Seq<char>, Seq<char>)>
    decreases ls.len()
{
    if ls.len() == 0 {
        Seq::empty()
    } else {
        let rest = keep_unrelated_links(ls.drop_last(), id);
        if ls.last().0 == id || ls.last().1 == id {
            rest
        } else {
            rest.push(ls.last())
        }
    }
}

pub proof fn lemma_keep_unrelated_links(ls: Seq<(Seq<char>, Seq<char>)>, id: Seq<char>)
    ensures
        forall|pr: (Seq<char>, Seq<char>)|
            #[trigger] keep_unrelated_links(ls, id).contains(pr)
                <==> ls.contains(pr) && pr.0 != id && pr.1 != id,
        unique_pairs(ls) ==> unique_pairs(keep_unrelated_links(ls, id)),
    decreases ls.len()
{
    if ls.len() > 0 {
        lemma_keep_unrelated_links(ls.drop_last(), id);
        let r = keep_unrelated_links(ls, id);
        let rp = keep_unrelated_links(ls.drop_last(), id);
        assert forall|pr: (Seq<char>, Seq<char>)|
            #[trigger] r.contains(pr) implies ls.contains(pr) && pr.0 != id && pr.1 != id by {
            if rp.contains(pr) {
                assert(ls.drop_last().contains(pr));
                let k = choose|k: int| 0 <= k < ls.drop_last().len() && ls.drop_last()[k] == pr;
                assert(ls[k] == pr);
            } else {
                assert(pr == ls.last());
                assert(ls[ls.len() - 1] == pr);
            }
        }
        assert forall|pr: (Seq<char>, Seq<char>)|
            ls.contains(pr) && pr.0 != id && pr.1 != id implies #[trigger] r.contains(pr) by {
            let k = choose|k: int| 0 <= k < ls.len() && ls[k] == pr;
            if k < ls.len() - 1 {
                assert(ls.drop_last()[k] == pr);
                assert(ls.drop_last().contains(pr));
                assert(rp.contains(pr));
                if !(ls.last().0 == id || ls.last().1 == id) {
                    let m = choose|m: int| 0 <= m < rp.len() && rp[m] == pr;
                    assert(r[m] == pr);
                }
            } else {
                assert(pr == ls.last());
                assert(r[r.len() - 1] == pr);
            }
        }
        if unique_pairs(ls) {
            assert(unique_pairs(ls.drop_last())) by {
                assert forall|i: int, j: int|
                    0 <= i < j < ls.drop_last().len()
                    implies ls.drop_last()[i] != ls.drop_last()[j] by {
                    assert(ls[i] == ls.drop_last()[i]);
                    assert(ls[j] == ls.drop_last()[j]);
                }
            }
            if !(ls.last().0 == id || ls.last().1 == id) {
                assert(!rp.contains(ls.last())) by {
                    if rp.contains(ls.last()) {
                        assert(ls.drop_last().contains(ls.last()));
                        let k = choose|k: int|
                            0 <= k < ls.drop_last().len() && ls.drop_last()[k] == ls.last();
                        assert(ls[k] == ls[ls.len() - 1]);
                    }
                }
                assert forall|i: int, j: int|
                    0 <= i < j < r.len() implies r[i] != r[j] by {
                    if j < r.len() - 1 {
                        assert(r[i] == rp[i] && r[j] == rp[j]);
                    } else {
                        assert(r[j] == ls.last());
                        assert(r[i] == rp[i]);
                        assert(rp.contains(rp[i]));
                    }
                }
            }
        }
    }
}

/// The note rows whose identifier is not `id`.
pub open spec fn keep_other_note_rows(ns: Seq<NoteFields>, id: Seq<char>) -> Seq<NoteFields>
    decreases ns.len()
{
    if ns.len() == 0 {
        Seq::empty()
    } else {
        let rest = keep_other_note_rows(ns.drop_last(), id);
        if ns.last().note_id == id {
            rest
        } else {
            rest.push(ns.last())
        }
    }
}

/// What filtering the rows of one note guarantees.
pub open spec fn note_rows_filtered(ns: Seq<NoteFields>, id: Seq<char>) -> bool {
    &&& (forall|n: NoteFields|
        #[trigger] keep_other_note_rows(ns, id).contains(n) <==> ns.contains(n) && n.note_id != id)
    &&& (forall|m: int|
        0 <= m < keep_other_note_rows(ns, id).len()
            ==> ns.contains(#[trigger] keep_other_note_rows(ns, id)[m])
                && keep_other_note_rows(ns, id)[m].note_id != id)
    &&& (unique_note_ids(ns) ==> unique_note_ids(keep_other_note_rows(ns, id)))
}

pub proof fn lemma_keep_other_note_rows(ns: Seq<NoteFields>, id: Seq<char>)
    ensures
        note_rows_filtered(ns, id),
    decreases ns.len()
{
    if ns.len() > 0 {
        lemma_keep_other_note_rows(ns.drop_last(), id);
        let r = keep_other_note_rows(ns, id);
        let rp = keep_other_note_rows(ns.drop_last(), id);
        assert forall|m: int| 0 <= m < ns.drop_last().len()
            implies ns.contains(#[trigger] ns.drop_last()[m]) by {
            assert(ns[m] == ns.drop_last()[m]);
        }
        assert forall|n: NoteFields|
            #[trigger] r.contains(n) implies ns.contains(n) && n.note_id != id by {
            if rp.contains(n) {
                assert(ns.drop_last().contains(n));
                let k = choose|k: int| 0 <= k < ns.drop_last().len() && ns.drop_last()[k] == n;
                assert(ns[k] == n);
            } else {
                assert(n == ns.last());
                assert(ns[ns.len() - 1] == n);
            }
        }
        assert forall|n: NoteFields|
            ns.contains(n) && n.note_id != id implies #[trigger] r.contains(n) by {
            let k = choose|k: int| 0 <= k < ns.len() && ns[k] == n;
            if k < ns.len() - 1 {
                assert(ns.drop_last()[k] == n);
                assert(ns.drop_last().contains(n));
                assert(rp.contains(n));
                if ns.last().note_id != id {
                    let m = choose|m: int| 0 <= m < rp.len() && rp[m] == n;
                    assert(r[m] == n);
                }
            } else {
                assert(n == ns.last());
                assert(r[r.len() - 1] == n);
            }
        }
        assert forall|m: int| 0 <= m < r.len()
            implies ns.contains(#[trigger] r[m]) && r[m].note_id != id by {
            assert(r.contains(r[m]));
        }
        if unique_note_ids(ns) {
            assert(unique_note_ids(ns.drop_last())) by {
                assert forall|i: int, j: int|
                    0 <= i < j < ns.drop_last().len()
                    implies ns.drop_last()[i].note_id != ns.drop_last()[j].note_id by {
                    assert(ns[i] == ns.drop_last()[i]);
                    assert(ns[j] == ns.drop_last()[j]);
                }
            }
            if ns.last().note_id != id {
                assert forall|i: int, j: int|
                    0 <= i < j < r.len() implies r[i].note_id != r[j].note_id by {
                    if j < r.len() - 1 {
                        assert(r[i] == rp[i] && r[j] == rp[j]);
                    } else {
                        assert(r[j] == ns.last());
                        assert(r[i] == rp[i]);
                        assert(rp.contains(rp[i]));
                        let k = choose|k: int|
                            0 <= k < ns.drop_last().len() && ns.drop_last()[k] == rp[i];
                        assert(ns[k] == rp[i]);
                    }
                }
            }
        }
    }
}

impl Index {
    /// Index of the first edge equal to `(note_id, tag_name)` in a vector.
    fn find_edge(edges: &Vec<TagEdge>, note_id: &str, tag_name: &str) -> (r: bool)
        ensures
            r == (exists|k: int|
                0 <= k < edges@.len()
                    && (#[trigger] edges@[k]).note_id@ == note_id@
                    && edges@[k].tag_name@ == tag_name@),
    {
        let n = edges.len();
        let mut i: usize = 0;
        while i < n
            invariant
                0 <= i <= n,
                n == edges@.len(),
                forall|j: int|
                    0 <= j < i
                        ==> !((#[trigger] edges@[j]).note_id@ == note_id@
                            && edges@[j].tag_name@ == tag_name@),
            decreases n - i
        {
            if str_eq(edges[i].note_id.as_str(), note_id)
                && str_eq(edges[i].tag_name.as_str(), tag_name) {
                return true;
            }
            i = i + 1;
        }
        false
    }

    /// Is a tag name among the strings of a vector?
    fn find_tag_row(tags: &Vec<String>, tag_name: &str) -> (r: bool)
        ensures r == tags.deep_view().contains(tag_name@),
    {
        crate::links::vec_contains_str(tags, tag_name)
    }

    /// Is there a link edge from `source` to `target` in a vector?
    fn find_link(links: &Vec<NoteLink>, source: &str, target: &str) -> (r: bool)
        ensures
            r == (exists|k: int|
                0 <= k < links@.len()
                    && (#[trigger] links@[k]).source_note_id@ == source@
                    && links@[k].target_note_id@ == target@),
    {
        let n = links.len();
        let mut i: usize = 0;
        while i < n
            invariant
                0 <= i <= n,
                n == links@.len(),
                forall|j: int|
                    0 <= j < i
                        ==> !((#[trigger] links@[j]).source_note_id@ == source@
                            && links@[j].target_note_id@ == target@),
            decreases n - i
        {
            if str_eq(links[i].source_note_id.as_str(), source)
                && str_eq(links[i].target_note_id.as_str(), target) {
                return true;
            }
            i = i + 1;
        }
        false
    }

    /// Replace every note-tag edge of `note_id` by edges to exactly the
    /// given tags, and rebuild the tag rows from the surviving edges, so
    /// that no orphaned tag row remains.
    pub fn replace_note_tags(&mut self, note_id: &str, tags: &Vec<String>)
        requires old(self).wf(),
        ensures
            final(self).wf(),
            (forall|pr: (Seq<char>, Seq<char>)|
                #[trigger] final(self).tagging_seq().contains(pr)
                    <==> (old(self).tagging_seq().contains(pr) && pr.0 != note_id@)
                        || (pr.0 == note_id@ && tags.deep_view().contains(pr.1))),
            final(self).notes_seq() == old(self).notes_seq(),
            final(self).link_seq() == old(self).link_seq(),
    {
        let ghost pre = *self;
        // Keep the edges of other notes.
        let mut kept: Vec<TagEdge> = Vec::new();
        let n = self.taggings.len();
        let mut i: usize = 0;
        while i < n
            invariant
                0 <= i <= n,
                n == self.taggings@.len(),
                Seq::new(kept@.len(), |k: int| (kept@[k].note_id@, kept@[k].tag_name@))
                    == keep_other_notes(self.tagging_seq().take(i as int), note_id@),
            decreases n - i
        {
            let ghost prefix = self.tagging_seq().take(i as int);
            assert(self.tagging_seq().take(i as int + 1).drop_last() =~= prefix);
            assert(self.tagging_seq().take(i as int + 1).last() == self.tagging_seq()[i as int]);
            if !str_eq(self.taggings[i].note_id.as_str(), note_id) {
                let e = TagEdge {
                    note_id: self.taggings[i].note_id.clone(),
                    tag_name: self.taggings[i].tag_name.clone(),
                };
                assert((e.note_id@, e.tag_name@) == self.tagging_seq()[i as int]);
                kept.push(e);
            }
            assert(Seq::new(kept@.len(), |k: int| (kept@[k].note_id@, kept@[k].tag_name@))
                =~= keep_other_notes(self.tagging_seq().take(i as int + 1), note_id@));
            i = i + 1;
        }
        assert(self.tagging_seq().take(n as int) =~= self.tagging_seq());
        // Add one edge for each given tag, skipping duplicates.
        let m = tags.len();
        let mut j: usize = 0;
        while j < m
            invariant
                0 <= j <= m,
                m == tags@.len(),
                Seq::new(kept@.len(), |k: int| (kept@[k].note_id@, kept@[k].tag_name@))
                    == add_note_tags(
                        keep_other_notes(pre.tagging_seq(), note_id@),
                        note_id@,
                        tags.deep_view().take(j as int),
                    ),
            decreases m - j
        {
            let ghost base = keep_other_notes(pre.tagging_seq(), note_id@);
            let ghost prefix = tags.deep_view().take(j as int);
            assert(tags.deep_view().take(j as int + 1).drop_last() =~= prefix);
            assert(tags.deep_view().take(j as int + 1).last() == tags.deep_view()[j as int]);
            let present = Index::find_edge(&kept, note_id, tags[j].as_str());
            proof {
                let cur = Seq::new(kept@.len(), |k: int| (kept@[k].note_id@, kept@[k].tag_name@));
                if present {
                    let k = choose|k: int|
                        0 <= k < kept@.len()
                            && (#[trigger] kept@[k]).note_id@ == note_id@
                            && kept@[k].tag_name@ == tags.deep_view()[j as int];
                    assert(cur[k] == (note_id@, tags.deep_view()[j as int]));
                    assert(cur.contains((note_id@, tags.deep_view()[j as int])));
                } else {
                    if cur.contains((note_id@, tags.deep_view()[j as int])) {
                        let k = choose|k: int|
                            0 <= k < cur.len()
                                && cur[k] == (note_id@, tags.deep_view()[j as int]);
                        assert(kept@[k].note_id@ == note_id@);
                        assert(false);
                    }
                }
            }
            if !present {
                let e = TagEdge { note_id: note_id.to_owned(), tag_name: tags[j].clone() };
                kept.push(e);
            }
            assert(Seq::new(kept@.len(), |k: int| (kept@[k].note_id@, kept@[k].tag_name@))
                =~= add_note_tags(base, note_id@, tags.deep_view().take(j as int + 1)));
            j = j + 1;
        }
        assert(tags.deep_view().take(m as int) =~= tags.deep_view());
        self.taggings = kept;
        // Rebuild the tag rows from the surviving edges.
        let mut rows: Vec<String> = Vec::new();
        let tn = self.taggings.len();
        let mut q: usize = 0;
        while q < tn
            invariant
                0 <= q <= tn,
                tn == self.taggings@.len(),
                rows.deep_view() == tags_from_edges(self.tagging_seq().take(q as int)),
            decreases tn - q
        {
            let ghost prefix = self.tagging_seq().take(q as int);
            assert(self.tagging_seq().take(q as int + 1).drop_last() =~= prefix);
            assert(self.tagging_seq().take(q as int + 1).last() == self.tagging_seq()[q as int]);
            if !Index::find_tag_row(&rows, self.taggings[q].tag_name.as_str()) {
                rows.push(self.taggings[q].tag_name.clone());
            }
            assert(rows.deep_view()
                =~= tags_from_edges(self.tagging_seq().take(q as int + 1)));
            q = q + 1;
        }
        assert(self.tagging_seq().take(tn as int) =~= self.tagging_seq());
        self.tags = rows;
        proof {
            let ghost fin = *self;
            lemma_keep_other_notes(pre.tagging_seq(), note_id@);
            lemma_add_note_tags(
                keep_other_notes(pre.tagging_seq(), note_id@), note_id@, tags.deep_view());
            lemma_tags_from_edges(fin.tagging_seq());
            assert(fin.notes_seq() =~= pre.notes_seq());
            assert(fin.link_seq() =~= pre.link_seq());
            assert(fin.tag_seq() =~= rows.deep_view());
            // Well-formedness: uniqueness carried by the transformers,
            // consistency by construction of the rebuilt rows.
            assert(unique_pairs(fin.tagging_seq()));
            assert(unique_elems(fin.tag_seq()));
            assert forall|k: int|
                0 <= k < fin.tagging_seq().len()
                implies fin.tag_seq().contains(#[trigger] fin.tagging_seq()[k].1) by {
                let pr = fin.tagging_seq()[k];
                assert(exists|m2: int|
                    0 <= m2 < fin.tagging_seq().len()
                        && (#[trigger] fin.tagging_seq()[m2]).1 == pr.1);
            }
            assert forall|k: int|
                0 <= k < fin.tag_seq().len()
                implies exists|m2: int|
                    0 <= m2 < fin.tagging_seq().len()
                        && (#[trigger] fin.tagging_seq()[m2].1) == #[trigger] fin.tag_seq()[k] by {
                assert(fin.tag_seq().contains(fin.tag_seq()[k]));
            }
        }
    }

    /// The tag names attached to a note, in edge order.
    pub fn get_tags_of_note(&self, note_id: &str) -> (r: Vec<String>)
        ensures r.deep_view() == tags_of_note_spec(self.tagging_seq(), note_id@),
    {
        let n = self.taggings.len();
        let mut out: Vec<String> = Vec::new();
        let mut i: usize = 0;
        while i < n
            invariant
                0 <= i <= n,
                n == self.taggings@.len(),
                out.deep_view() == tags_of_note_spec(self.tagging_seq().take(i as int), note_id@),
            decreases n - i
        {
            let ghost prefix = self.tagging_seq().take(i as int);
            assert(self.tagging_seq().take(i as int + 1).drop_last() =~= prefix);
            assert(self.tagging_seq().take(i as int + 1).last() == self.tagging_seq()[i as int]);
            if str_eq(self.taggings[i].note_id.as_str(), note_id) {
                out.push(self.taggings[i].tag_name.clone());
            }
            assert(out.deep_view()
                =~= tags_of_note_spec(self.tagging_seq().take(i as int + 1), note_id@));
            i = i + 1;
        }
        assert(self.tagging_seq().take(n as int) =~= self.tagging_seq());
        out
    }

    /// The identifiers of the notes carrying a tag, in edge order.
    pub fn get_notes_with_tag(&self, tag_name: &str) -> (r: Vec<String>)
        ensures r.deep_view() == notes_with_tag_spec(self.tagging_seq(), tag_name@),
    {
        let n = self.taggings.len();
        let mut out: Vec<String> = Vec::new();
        let mut i: usize = 0;
        while i < n
            invariant
                0 <= i <= n,
                n == self.taggings@.len(),
                out.deep_view() == notes_with_tag_spec(self.tagging_seq().take(i as int), tag_name@),
            decreases n - i
        {
            let ghost prefix = self.tagging_seq().take(i as int);
            assert(self.tagging_seq().take(i as int + 1).drop_last() =~= prefix);
            assert(self.tagging_seq().take(i as int + 1).last() == self.tagging_seq()[i as int]);
            if str_eq(self.taggings[i].tag_name.as_str(), tag_name) {
                out.push(self.taggings[i].note_id.clone());
            }
            assert(out.deep_view()
                =~= notes_with_tag_spec(self.tagging_seq().take(i as int + 1), tag_name@));
            i = i + 1;
        }
        assert(self.tagging_seq().take(n as int) =~= self.tagging_seq());
        out
    }
}

/// The tags of the edges of one note, in order.
pub open spec fn tags_of_note_spec(tgs: Seq<(Seq<char>, Seq<char>)>, id: Seq<char>) -> Seq<Seq<char>>
    decreases tgs.len()
{
    if tgs.len() == 0 {
        Seq::empty()
    } else {
        let rest = tags_of_note_spec(tgs.drop_last(), id);
        if tgs.last().0 == id {
            rest.push(tgs.last().1)
        } else {
            rest
        }
    }
}

/// The notes of the edges of one tag, in order.
pub open spec fn notes_with_tag_spec(tgs: Seq<(Seq<char>, Seq<char>)>, tag: Seq<char>) -> Seq<Seq<char>>
    decreases tgs.len()
{
    if tgs.len() == 0 {
        Seq::empty()
    } else {
        let rest = notes_with_tag_spec(tgs.drop_last(), tag);
        if tgs.last().1 == tag {
            rest.push(tgs.last().0)
        } else {
            rest
        }
    }
}


/// The value of one queryable column of a note row.
pub open spec fn prop_of(n: NoteFields, p: NoteProperty) -> Seq<char> {
    match p {
        NoteProperty::NoteId => n.note_id,
        NoteProperty::NoteName => n.note_name,
        NoteProperty::CreationDate => spec_format_timestamp(n.creation_date_time),
    }
}

/// The identifiers of the note rows whose column contains the pattern,
/// in row order.
pub open spec fn ids_like_spec(ns: Seq<NoteFields>, p: NoteProperty, pat: Seq<char>) -> Seq<Seq<char>>
    decreases ns.len()
{
    if ns.len() == 0 {
        Seq::empty()
    } else {
        let rest = ids_like_spec(ns.drop_last(), p, pat);
        if contains_spec(prop_of(ns.last(), p), pat) {
            rest.push(ns.last().note_id)
        } else {
            rest
        }
    }
}

/// The edges whose tag contains the pattern, in edge order.
pub open spec fn taggings_like_spec(
    tgs: Seq<(Seq<char>, Seq<char>)>,
    pat: Seq<char>,
) -> Seq<(Seq<char>, Seq<char>)>
    decreases tgs.len()
{
    if tgs.len() == 0 {
        Seq::empty()
    } else {
        let rest = taggings_like_spec(tgs.drop_last(), pat);
        if contains_spec(tgs.last().1, pat) {
            rest.push(tgs.last())
        } else {
            rest
        }
    }
}

impl Index {
    /// The value of one queryable column of a note row.
    fn prop_string(note: &Note, p: NoteProperty) -> (r: String)
        requires note@.creation_date_time.wf(),
        ensures r@ == prop_of(note@, p),
    {
        match p {
            NoteProperty::NoteId => note.note_id.clone(),
            NoteProperty::NoteName => note.note_name.clone(),
            NoteProperty::CreationDate => crate::timestamp::format_timestamp(
                &note.creation_date_time,
            ),
        }
    }

    /// The identifier of the first note row whose column equals `value`.
    pub fn get_note_id_where(&self, p: NoteProperty, value: &str) -> (r: Option<String>)
        requires self.wf(),
        ensures
            match r {
                Some(id) => exists|k: int|
                    0 <= k < self.notes_seq().len()
                        && prop_of(#[trigger] self.notes_seq()[k], p) == value@
                        && id@ == self.notes_seq()[k].note_id,
                None => forall|k: int|
                    0 <= k < self.notes_seq().len()
                        ==> prop_of(#[trigger] self.notes_seq()[k], p) != value@,
            },
    {
        let n = self.notes.len();
        let mut i: usize = 0;
        while i < n
            invariant
                0 <= i <= n,
                n == self.notes@.len(),
                self.wf(),
                forall|j: int|
                    0 <= j < i ==> prop_of(#[trigger] self.notes_seq()[j], p) != value@,
            decreases n - i
        {
            assert(self.notes_seq()[i as int].creation_date_time.wf());
            let s = Index::prop_string(&self.notes[i], p);
            if str_eq(s.as_str(), value) {
                assert(prop_of(self.notes_seq()[i as int], p) == value@);
                return Some(self.notes[i].note_id.clone());
            }
            i = i + 1;
        }
        None
    }

    /// The identifiers of the note rows whose column contains `pattern`
    /// as a substring, in row order.
    pub fn get_note_ids_like(&self, p: NoteProperty, pattern: &str) -> (r: Vec<String>)
        requires self.wf(),
        ensures r.deep_view() == ids_like_spec(self.notes_seq(), p, pattern@),
    {
        let n = self.notes.len();
        let mut out: Vec<String> = Vec::new();
        let mut i: usize = 0;
        while i < n
            invariant
                0 <= i <= n,
                n == self.notes@.len(),
                self.wf(),
                out.deep_view() == ids_like_spec(self.notes_seq().take(i as int), p, pattern@),
            decreases n - i
        {
            let ghost prefix = self.notes_seq().take(i as int);
            assert(self.notes_seq().take(i as int + 1).drop_last() =~= prefix);
            assert(self.notes_seq().take(i as int + 1).last() == self.notes_seq()[i as int]);
            assert(self.notes_seq()[i as int].creation_date_time.wf());
            let s = Index::prop_string(&self.notes[i], p);
            if crate::text::contains_str(s.as_str(), pattern) {
                out.push(self.notes[i].note_id.clone());
            }
            assert(out.deep_view()
                =~= ids_like_spec(self.notes_seq().take(i as int + 1), p, pattern@));
            i = i + 1;
        }
        assert(self.notes_seq().take(n as int) =~= self.notes_seq());
        out
    }

    /// The edges whose tag contains `pattern` as a substring, each as a
    /// note identifier annotated with the matching tag.
    pub fn get_note_ids_with_tag_like(&self, pattern: &str) -> (r: Vec<NoteTagging>)
        ensures
            r@.len() == taggings_like_spec(self.tagging_seq(), pattern@).len(),
            (forall|k: int|
                0 <= k < r@.len()
                    ==> (#[trigger] r@[k]).note_id@
                        == taggings_like_spec(self.tagging_seq(), pattern@)[k].0
                        && r@[k].tag_name is Some
                        && r@[k].tag_name->0@
                            == taggings_like_spec(self.tagging_seq(), pattern@)[k].1),
    {
        let n = self.taggings.len();
        let mut out: Vec<NoteTagging> = Vec::new();
        let mut i: usize = 0;
        while i < n
            invariant
                0 <= i <= n,
                n == self.taggings@.len(),
                out@.len() == taggings_like_spec(self.tagging_seq().take(i as int), pattern@).len(),
                forall|k: int|
                    0 <= k < out@.len()
                        ==> (#[trigger] out@[k]).note_id@
                            == taggings_like_spec(self.tagging_seq().take(i as int), pattern@)[k].0
                            && out@[k].tag_name is Some
                            && out@[k].tag_name->0@
                                == taggings_like_spec(self.tagging_seq().take(i as int), pattern@)[k].1,
            decreases n - i
        {
            let ghost prefix = self.tagging_seq().take(i as int);
            assert(self.tagging_seq().take(i as int + 1).drop_last() =~= prefix);
            assert(self.tagging_seq().take(i as int + 1).last() == self.tagging_seq()[i as int]);
            if crate::text::contains_str(self.taggings[i].tag_name.as_str(), pattern) {
                let e = NoteTagging {
                    note_id: self.taggings[i].note_id.clone(),
                    tag_name: Some(self.taggings[i].tag_name.clone()),
                };
                out.push(e);
            }
            i = i + 1;
        }
        assert(self.tagging_seq().take(n as int) =~= self.tagging_seq());
        out
    }

    /// Set the name of every note row whose column equals `value`.
    pub fn update_note_name_where(&mut self, new_name: &str, p: NoteProperty, value: &str)
        requires old(self).wf(),
        ensures
            final(self).wf(),
            final(self).notes_seq().len() == old(self).notes_seq().len(),
            (forall|k: int|
                0 <= k < old(self).notes_seq().len()
                    ==> (#[trigger] final(self).notes_seq()[k])
                        == if prop_of(old(self).notes_seq()[k], p) == value@ {
                            NoteFields { note_name: new_name@, ..old(self).notes_seq()[k] }
                        } else {
                            old(self).notes_seq()[k]
                        }),
            final(self).tag_seq() == old(self).tag_seq(),
            final(self).tagging_seq() == old(self).tagging_seq(),
            final(self).link_seq() == old(self).link_seq(),
    {
        let ghost pre = *self;
        let n = self.notes.len();
        let mut out: Vec<Note> = Vec::new();
        let mut i: usize = 0;
        while i < n
            invariant
                0 <= i <= n,
                n == pre.notes_seq().len(),
                pre.wf(),
                *self == (Index { notes: self.notes, ..pre }),
                n == self.notes@.len(),
                self.notes_seq() == pre.notes_seq(),
                out@.len() == i,
                forall|k: int|
                    0 <= k < i
                        ==> (#[trigger] out@[k]@)
                            == if prop_of(pre.notes_seq()[k], p) == value@ {
                                NoteFields { note_name: new_name@, ..pre.notes_seq()[k] }
                            } else {
                                pre.notes_seq()[k]
                            },
                forall|k: int| 0 <= k < i ==> (#[trigger] out@[k]@).note_id
                    == pre.notes_seq()[k].note_id
                    && out@[k]@.creation_date_time == pre.notes_seq()[k].creation_date_time,
            decreases n - i
        {
            assert(self.notes_seq()[i as int].creation_date_time.wf());
            let s = Index::prop_string(&self.notes[i], p);
            let mut note = self.notes[i].clone();
            if str_eq(s.as_str(), value) {
                note.note_name = new_name.to_owned();
            }
            out.push(note);
            i = i + 1;
        }
        self.notes = out;
        proof {
            assert(self.tag_seq() =~= pre.tag_seq());
            assert(self.tagging_seq() =~= pre.tagging_seq());
            assert(self.link_seq() =~= pre.link_seq());
            assert forall|a: int, b: int|
                0 <= a < b < self.notes_seq().len()
                implies self.notes_seq()[a].note_id != self.notes_seq()[b].note_id by {
                assert(self.notes_seq()[a].note_id == pre.notes_seq()[a].note_id);
                assert(self.notes_seq()[b].note_id == pre.notes_seq()[b].note_id);
            }
            assert forall|k: int| 0 <= k < self.notes_seq().len()
                implies (#[trigger] self.notes_seq()[k]).creation_date_time.wf() by {
                assert(self.notes_seq()[k].creation_date_time
                    == pre.notes_seq()[k].creation_date_time);
            }
        }
    }

    /// Remove the note row with this identifier; tags and links are
    /// cascaded separately.
    pub fn delete_note(&mut self, note_id: &str)
        requires old(self).wf(),
        ensures
            final(self).wf(),
            final(self).notes_seq() == keep_other_note_rows(old(self).notes_seq(), note_id@),
            !final(self).has_note(note_id@),
            final(self).tag_seq() == old(self).tag_seq(),
            final(self).tagging_seq() == old(self).tagging_seq(),
            final(self).link_seq() == old(self).link_seq(),
    {
        let ghost pre = *self;
        let n = self.notes.len();
        let mut out: Vec<Note> = Vec::new();
        let mut i: usize = 0;
        while i < n
            invariant
                0 <= i <= n,
                pre.wf(),
                *self == (Index { notes: self.notes, ..pre }),
                n == self.notes@.len(),
                self.notes_seq() == pre.notes_seq(),
                Seq::new(out@.len(), |k: int| out@[k]@)
                    == keep_other_note_rows(pre.notes_seq().take(i as int), note_id@),
            decreases n - i
        {
            let ghost prefix = pre.notes_seq().take(i as int);
            assert(pre.notes_seq().take(i as int + 1).drop_last() =~= prefix);
            assert(pre.notes_seq().take(i as int + 1).last() == pre.notes_seq()[i as int]);
            if !str_eq(self.notes[i].note_id.as_str(), note_id) {
                let note = self.notes[i].clone();
                out.push(note);
            }
            assert(Seq::new(out@.len(), |k: int| out@[k]@)
                =~= keep_other_note_rows(pre.notes_seq().take(i as int + 1), note_id@));
            i = i + 1;
        }
        assert(pre.notes_seq().take(n as int) =~= pre.notes_seq());
        self.notes = out;
        proof {
            lemma_keep_other_note_rows(pre.notes_seq(), note_id@);
            assert(self.notes_seq() =~= keep_other_note_rows(pre.notes_seq(), note_id@));
            assert forall|k: int| 0 <= k < self.notes_seq().len()
                implies (#[trigger] self.notes_seq()[k]).creation_date_time.wf() by {
                assert(pre.notes_seq().contains(self.notes_seq()[k]));
                let w = choose|w: int|
                    0 <= w < pre.notes_seq().len() && pre.notes_seq()[w] == self.notes_seq()[k];
            }
            assert(self.tag_seq() =~= pre.tag_seq());
            assert(self.tagging_seq() =~= pre.tagging_seq());
            assert(self.link_seq() =~= pre.link_seq());
            if self.has_note(note_id@) {
                let k = choose|k: int|
                    0 <= k < self.notes_seq().len() && self.notes_seq()[k].note_id == note_id@;
                assert(self.notes_seq().contains(self.notes_seq()[k]));
            }
        }
    }

    /// Insert a link edge; a duplicate of an existing edge is a no-op
    /// (set semantics).
    pub fn insert_link_edge(&mut self, source: &str, target: &str)
        requires old(self).wf(),
        ensures
            final(self).wf(),
            old(self).has_link(source@, target@)
                ==> final(self).link_seq() == old(self).link_seq(),
            !old(self).has_link(source@, target@)
                ==> final(self).link_seq() == old(self).link_seq().push((source@, target@)),
            final(self).notes_seq() == old(self).notes_seq(),
            final(self).tag_seq() == old(self).tag_seq(),
            final(self).tagging_seq() == old(self).tagging_seq(),
    {
        let ghost pre = *self;
        let n = self.links.len();
        let mut i: usize = 0;
        while i < n
            invariant
                0 <= i <= n,
                n == self.links@.len(),
                pre.wf(),
                *self == pre,
                forall|j: int| 0 <= j < i ==> self.link_seq()[j] != (source@, target@),
            decreases n - i
        {
            if str_eq(self.links[i].source_note_id.as_str(), source)
                && str_eq(self.links[i].target_note_id.as_str(), target) {
                assert(self.link_seq()[i as int] == (source@, target@));
                assert(self.link_seq().contains((source@, target@)));
                return;
            }
            i = i + 1;
        }
        proof {
            if pre.has_link(source@, target@) {
                let k = choose|k: int|
                    0 <= k < pre.link_seq().len() && pre.link_seq()[k] == (source@, target@);
                assert(false);
            }
        }
        let e = NoteLink { source_note_id: source.to_owned(), target_note_id: target.to_owned() };
        self.links.push(e);
        proof {
            assert(self.link_seq() =~= pre.link_seq().push((source@, target@)));
            assert(self.notes_seq() =~= pre.notes_seq());
            assert(self.tag_seq() =~= pre.tag_seq());
            assert(self.tagging_seq() =~= pre.tagging_seq());
            assert forall|a: int, b: int|
                0 <= a < b < self.link_seq().len()
                implies self.link_seq()[a] != self.link_seq()[b] by {
                if b == self.link_seq().len() - 1 {
                    assert(self.link_seq()[a] == pre.link_seq()[a]);
                    assert(self.link_seq()[b] == (source@, target@));
                } else {
                    assert(self.link_seq()[a] == pre.link_seq()[a]);
                    assert(self.link_seq()[b] == pre.link_seq()[b]);
                }
            }
        }
    }

    /// Replace the outgoing link edges of `source` by edges to exactly
    /// the given targets: stale links disappear, new ones are added, and
    /// duplicates collapse (set semantics).
    pub fn replace_source_links(&mut self, source: &str, targets: &Vec<String>)
        requires old(self).wf(),
        ensures
            final(self).wf(),
            (forall|pr: (Seq<char>, Seq<char>)|
                #[trigger] final(self).link_seq().contains(pr)
                    <==> (old(self).link_seq().contains(pr) && pr.0 != source@)
                        || (pr.0 == source@ && targets.deep_view().contains(pr.1))),
            final(self).notes_seq() == old(self).notes_seq(),
            final(self).tag_seq() == old(self).tag_seq(),
            final(self).tagging_seq() == old(self).tagging_seq(),
    {
        let ghost pre = *self;
        let mut kept: Vec<NoteLink> = Vec::new();
        let n = self.links.len();
        let mut i: usize = 0;
        while i < n
            invariant
                0 <= i <= n,
                n == self.links@.len(),
                *self == pre,
                Seq::new(kept@.len(), |k: int| (kept@[k].source_note_id@, kept@[k].target_note_id@))
                    == keep_other_notes(self.link_seq().take(i as int), source@),
            decreases n - i
        {
            let ghost prefix = self.link_seq().take(i as int);
            assert(self.link_seq().take(i as int + 1).drop_last() =~= prefix);
            assert(self.link_seq().take(i as int + 1).last() == self.link_seq()[i as int]);
            if !str_eq(self.links[i].source_note_id.as_str(), source) {
                let e = NoteLink {
                    source_note_id: self.links[i].source_note_id.clone(),
                    target_note_id: self.links[i].target_note_id.clone(),
                };
                assert((e.source_note_id@, e.target_note_id@) == self.link_seq()[i as int]);
                kept.push(e);
            }
            assert(Seq::new(kept@.len(), |k: int| (kept@[k].source_note_id@, kept@[k].target_note_id@))
                =~= keep_other_notes(self.link_seq().take(i as int + 1), source@));
            i = i + 1;
        }
        assert(self.link_seq().take(n as int) =~= self.link_seq());
        let m = targets.len();
        let mut j: usize = 0;
        while j < m
            invariant
                0 <= j <= m,
                m == targets@.len(),
                Seq::new(kept@.len(), |k: int| (kept@[k].source_note_id@, kept@[k].target_note_id@))
                    == add_note_tags(
                        keep_other_notes(pre.link_seq(), source@),
                        source@,
                        targets.deep_view().take(j as int),
                    ),
            decreases m - j
        {
            let ghost base = keep_other_notes(pre.link_seq(), source@);
            let ghost prefix = targets.deep_view().take(j as int);
            assert(targets.deep_view().take(j as int + 1).drop_last() =~= prefix);
            assert(targets.deep_view().take(j as int + 1).last() == targets.deep_view()[j as int]);
            let present = Index::find_link(&kept, source, targets[j].as_str());
            proof {
                let cur = Seq::new(
                    kept@.len(),
                    |k: int| (kept@[k].source_note_id@, kept@[k].target_note_id@),
                );
                let tv = targets.deep_view()[j as int];
                assert(tv == targets@[j as int]@);
                if present {
                    let w = choose|w: int|
                        0 <= w < kept@.len()
                            && (#[trigger] kept@[w]).source_note_id@ == source@
                            && kept@[w].target_note_id@ == tv;
                    assert(cur[w] == (source@, tv));
                    assert(cur.contains((source@, tv)));
                } else {
                    if cur.contains((source@, tv)) {
                        let w = choose|w: int|
                            0 <= w < cur.len() && cur[w] == (source@, tv);
                        assert(kept@[w].source_note_id@ == source@);
                        assert(false);
                    }
                }
            }
            if !present {
                let e = NoteLink {
                    source_note_id: source.to_owned(),
                    target_note_id: targets[j].clone(),
                };
                kept.push(e);
            }
            assert(Seq::new(kept@.len(), |k: int| (kept@[k].source_note_id@, kept@[k].target_note_id@))
                =~= add_note_tags(base, source@, targets.deep_view().take(j as int + 1)));
            j = j + 1;
        }
        assert(targets.deep_view().take(m as int) =~= targets.deep_view());
        self.links = kept;
        proof {
            lemma_keep_other_notes(pre.link_seq(), source@);
            lemma_add_note_tags(keep_other_notes(pre.link_seq(), source@), source@, targets.deep_view());
            assert(self.link_seq() =~= add_note_tags(
                keep_other_notes(pre.link_seq(), source@), source@, targets.deep_view()));
            assert(self.notes_seq() =~= pre.notes_seq());
            assert(self.tag_seq() =~= pre.tag_seq());
            assert(self.tagging_seq() =~= pre.tagging_seq());
        }
    }

    /// Remove every link edge that touches this note at either end.
    pub fn delete_all_links_with_note(&mut self, note_id: &str)
        requires old(self).wf(),
        ensures
            final(self).wf(),
            final(self).link_seq() == keep_unrelated_links(old(self).link_seq(), note_id@),
            (forall|pr: (Seq<char>, Seq<char>)|
                #[trigger] final(self).link_seq().contains(pr)
                    <==> old(self).link_seq().contains(pr) && pr.0 != note_id@ && pr.1 != note_id@),
            final(self).notes_seq() == old(self).notes_seq(),
            final(self).tag_seq() == old(self).tag_seq(),
            final(self).tagging_seq() == old(self).tagging_seq(),
    {
        let ghost pre = *self;
        let mut kept: Vec<NoteLink> = Vec::new();
        let n = self.links.len();
        let mut i: usize = 0;
        while i < n
            invariant
                0 <= i <= n,
                n == self.links@.len(),
                *self == pre,
                Seq::new(kept@.len(), |k: int| (kept@[k].source_note_id@, kept@[k].target_note_id@))
                    == keep_unrelated_links(self.link_seq().take(i as int), note_id@),
            decreases n - i
        {
            let ghost prefix = self.link_seq().take(i as int);
            assert(self.link_seq().take(i as int + 1).drop_last() =~= prefix);
            assert(self.link_seq().take(i as int + 1).last() == self.link_seq()[i as int]);
            if !str_eq(self.links[i].source_note_id.as_str(), note_id)
                && !str_eq(self.links[i].target_note_id.as_str(), note_id) {
                let e = NoteLink {
                    source_note_id: self.links[i].source_note_id.clone(),
                    target_note_id: self.links[i].target_note_id.clone(),
                };
                assert((e.source_note_id@, e.target_note_id@) == self.link_seq()[i as int]);
                kept.push(e);
            }
            assert(Seq::new(kept@.len(), |k: int| (kept@[k].source_note_id@, kept@[k].target_note_id@))
                =~= keep_unrelated_links(self.link_seq().take(i as int + 1), note_id@));
            i = i + 1;
        }
        assert(self.link_seq().take(n as int) =~= self.link_seq());
        self.links = kept;
        proof {
            lemma_keep_unrelated_links(pre.link_seq(), note_id@);
            assert(self.link_seq() =~= keep_unrelated_links(pre.link_seq(), note_id@));
            assert(self.notes_seq() =~= pre.notes_seq());
            assert(self.tag_seq() =~= pre.tag_seq());
            assert(self.tagging_seq() =~= pre.tagging_seq());
        }
    }

    /// All note identifiers, in row order.
    pub fn get_all_note_ids(&self) -> (r: Vec<String>)
        ensures
            r@.len() == self.notes_seq().len(),
            forall|k: int|
                0 <= k < r@.len() ==> (#[trigger] r@[k])@ == self.notes_seq()[k].note_id,
    {
        let n = self.notes.len();
        let mut out: Vec<String> = Vec::new();
        let mut i: usize = 0;
        while i < n
            invariant
                0 <= i <= n,
                n == self.notes@.len(),
                out@.len() == i,
                forall|k: int| 0 <= k < i ==> (#[trigger] out@[k])@ == self.notes_seq()[k].note_id,
            decreases n - i
        {
            out.push(self.notes[i].note_id.clone());
            i = i + 1;
        }
        out
    }

    /// All link edges, in edge order.
    pub fn get_all_note_links(&self) -> (r: Vec<NoteLink>)
        ensures
            r@.len() == self.link_seq().len(),
            (forall|k: int|
                0 <= k < r@.len()
                    ==> ((#[trigger] r@[k]).source_note_id@, r@[k].target_note_id@)
                        == self.link_seq()[k]),
    {
        let n = self.links.len();
        let mut out: Vec<NoteLink> = Vec::new();
        let mut i: usize = 0;
        while i < n
            invariant
                0 <= i <= n,
                n == self.links@.len(),
                out@.len() == i,
                forall|k: int|
                    0 <= k < i
                        ==> ((#[trigger] out@[k]).source_note_id@, out@[k].target_note_id@)
                            == self.link_seq()[k],
            decreases n - i
        {
            let e = NoteLink {
                source_note_id: self.links[i].source_note_id.clone(),
                target_note_id: self.links[i].target_note_id.clone(),
            };
            out.push(e);
            i = i + 1;
        }
        out
    }
}

/// The garbage-collection law: in a well-formed index no tag row exists
/// without at least one note-tag edge referencing it.  Every index
/// operation preserves well-formedness, so after any sequence of
/// synchronization calls no orphaned tag can be observed.
pub proof fn lemma_no_orphan_tags(idx: Index)
    requires idx.wf(),
    ensures
        (forall|t: Seq<char>|
            #[trigger] idx.has_tag(t)
                ==> exists|m: int|
                    0 <= m < idx.tagging_seq().len() && (#[trigger] idx.tagging_seq()[m]).1 == t),
{
    assert forall|t: Seq<char>|
        #[trigger] idx.has_tag(t)
        implies exists|m: int|
            0 <= m < idx.tagging_seq().len() && (#[trigger] idx.tagging_seq()[m]).1 == t by {
        let k = choose|k: int| 0 <= k < idx.tag_seq().len() && idx.tag_seq()[k] == t;
        assert(0 <= k < idx.tag_seq().len());
        let m = choose|m: int|
            0 <= m < idx.tagging_seq().len() && (#[trigger] idx.tagging_seq()[m].1) == idx.tag_seq()[k];
        assert(idx.tagging_seq()[m].1 == t);
    }
}


/// Membership in the like-query result: an identifier is listed exactly
/// when some note row with it matches.
pub proof fn lemma_ids_like_members(ns: Seq<NoteFields>, p: NoteProperty, pat: Seq<char>)
    ensures
        (forall|id: Seq<char>|
            #[trigger] ids_like_spec(ns, p, pat).contains(id)
                <==> exists|k: int|
                    0 <= k < ns.len() && (#[trigger] ns[k]).note_id == id
                        && contains_spec(prop_of(ns[k], p), pat)),
    decreases ns.len()
{
    if ns.len() > 0 {
        lemma_ids_like_members(ns.drop_last(), p, pat);
        let r = ids_like_spec(ns, p, pat);
        let rp = ids_like_spec(ns.drop_last(), p, pat);
        assert forall|id: Seq<char>| #[trigger] r.contains(id)
            implies exists|k: int|
                0 <= k < ns.len() && (#[trigger] ns[k]).note_id == id
                    && contains_spec(prop_of(ns[k], p), pat) by {
            if rp.contains(id) {
                let k = choose|k: int|
                    0 <= k < ns.drop_last().len() && (#[trigger] ns.drop_last()[k]).note_id == id
                        && contains_spec(prop_of(ns.drop_last()[k], p), pat);
                assert(ns[k] == ns.drop_last()[k]);
            } else {
                assert(id == ns.last().note_id);
                assert(ns[ns.len() - 1] == ns.last());
            }
        }
        assert forall|id: Seq<char>|
            (exists|k: int|
                0 <= k < ns.len() && (#[trigger] ns[k]).note_id == id
                    && contains_spec(prop_of(ns[k], p), pat))
            implies #[trigger] r.contains(id) by {
            let k = choose|k: int|
                0 <= k < ns.len() && (#[trigger] ns[k]).note_id == id
                    && contains_spec(prop_of(ns[k], p), pat);
            if k < ns.len() - 1 {
                assert(ns.drop_last()[k] == ns[k]);
                assert(rp.contains(id));
                if contains_spec(prop_of(ns.last(), p), pat) {
                    let m = choose|m: int| 0 <= m < rp.len() && rp[m] == id;
                    assert(r[m] == id);
                }
            } else {
                assert(r[r.len() - 1] == id);
            }
        }
    }
}

/// The identifier appears in the tag-like result.
pub open spec fn listed_in_taggings_like(
    tgs: Seq<(Seq<char>, Seq<char>)>,
    pat: Seq<char>,
    id: Seq<char>,
) -> bool {
    exists|j: int|
        0 <= j < taggings_like_spec(tgs, pat).len()
            && (#[trigger] taggings_like_spec(tgs, pat)[j]).0 == id
}

/// Some edge of the note carries a tag containing the pattern.
pub open spec fn edge_tag_match(
    tgs: Seq<(Seq<char>, Seq<char>)>,
    pat: Seq<char>,
    id: Seq<char>,
) -> bool {
    exists|k: int|
        0 <= k < tgs.len() && (#[trigger] tgs[k]).0 == id && contains_spec(tgs[k].1, pat)
}

/// Membership in the tag-like result: an identifier is listed exactly
/// when one of its edges carries a matching tag.
pub proof fn lemma_taggings_like_members(tgs: Seq<(Seq<char>, Seq<char>)>, pat: Seq<char>)
    ensures
        (forall|id: Seq<char>|
            #[trigger] listed_in_taggings_like(tgs, pat, id) <==> edge_tag_match(tgs, pat, id)),
    decreases tgs.len()
{
    if tgs.len() > 0 {
        lemma_taggings_like_members(tgs.drop_last(), pat);
        let r = taggings_like_spec(tgs, pat);
        let rp = taggings_like_spec(tgs.drop_last(), pat);
        assert forall|id: Seq<char>|
            #[trigger] listed_in_taggings_like(tgs, pat, id)
            implies edge_tag_match(tgs, pat, id) by {
            let j = choose|j: int| 0 <= j < r.len() && (#[trigger] r[j]).0 == id;
            if j < rp.len() {
                assert(r[j] == rp[j]);
                assert(listed_in_taggings_like(tgs.drop_last(), pat, id));
                assert(edge_tag_match(tgs.drop_last(), pat, id));
                let k = choose|k: int|
                    0 <= k < tgs.drop_last().len() && (#[trigger] tgs.drop_last()[k]).0 == id
                        && contains_spec(tgs.drop_last()[k].1, pat);
                assert(tgs[k] == tgs.drop_last()[k]);
                assert(edge_tag_match(tgs, pat, id));
            } else {
                assert(r[j] == tgs.last());
                assert(tgs[tgs.len() - 1] == tgs.last());
                assert(edge_tag_match(tgs, pat, id));
            }
        }
        assert forall|id: Seq<char>|
            edge_tag_match(tgs, pat, id)
            implies #[trigger] listed_in_taggings_like(tgs, pat, id) by {
            let k = choose|k: int|
                0 <= k < tgs.len() && (#[trigger] tgs[k]).0 == id
                    && contains_spec(tgs[k].1, pat);
            if k < tgs.len() - 1 {
                assert(tgs.drop_last()[k] == tgs[k]);
                assert(edge_tag_match(tgs.drop_last(), pat, id));
                assert(listed_in_taggings_like(tgs.drop_last(), pat, id));
                let j = choose|j: int| 0 <= j < rp.len() && (#[trigger] rp[j]).0 == id;
                if contains_spec(tgs.last().1, pat) {
                    assert(r[j] == rp[j]);
                } else {
                    assert(r[j] == rp[j]);
                }
                assert(listed_in_taggings_like(tgs, pat, id));
            } else {
                assert(contains_spec(tgs.last().1, pat));
                assert(r[r.len() - 1] == tgs.last());
                assert(listed_in_taggings_like(tgs, pat, id));
            }
        }
    }
}

impl Index {
    /// The tag of the first edge of this note whose tag contains the
    /// pattern, if any.
    pub fn get_first_tag_like(&self, note_id: &str, pattern: &str) -> (r: Option<String>)
        ensures
            match r {
                Some(t) => crate::search::first_tag_annot(self.tagging_seq(), note_id@, pattern@)
                    == Some(t@),
                None => crate::search::first_tag_annot(self.tagging_seq(), note_id@, pattern@)
                    is None,
            },
    {
        let n = self.taggings.len();
        proof {
            assert(self.tagging_seq().subrange(0, n as int) =~= self.tagging_seq());
        }
        let mut i: usize = 0;
        while i < n
            invariant
                0 <= i <= n,
                n == self.taggings@.len(),
                crate::search::first_tag_annot(self.tagging_seq(), note_id@, pattern@)
                    == crate::search::first_tag_annot(
                        self.tagging_seq().subrange(i as int, n as int), note_id@, pattern@),
            decreases n - i
        {
            proof {
                assert(self.tagging_seq().subrange(i as int, n as int)[0]
                    == self.tagging_seq()[i as int]);
                assert(self.tagging_seq().subrange(i as int, n as int).drop_first()
                    =~= self.tagging_seq().subrange(i as int + 1, n as int));
            }
            if str_eq(self.taggings[i].note_id.as_str(), note_id)
                && crate::text::contains_str(self.taggings[i].tag_name.as_str(), pattern) {
                assert(self.tagging_seq()[i as int].0 == note_id@);
                return Some(self.taggings[i].tag_name.clone());
            }
            i = i + 1;
        }
        assert(self.tagging_seq().subrange(n as int, n as int).len() == 0);
        None
    }
}


impl Index {
    /// All tag rows, in row order.
    pub fn get_all_tags(&self) -> (r: Vec<String>)
        ensures
            r@.len() == self.tag_seq().len(),
            forall|k: int| 0 <= k < r@.len() ==> (#[trigger] r@[k])@ == self.tag_seq()[k],
    {
        let n = self.tags.len();
        let mut out: Vec<String> = Vec::new();
        let mut i: usize = 0;
        while i < n
            invariant
                0 <= i <= n,
                n == self.tags@.len(),
                out@.len() == i,
                forall|k: int| 0 <= k < i ==> (#[trigger] out@[k])@ == self.tag_seq()[k],
            decreases n - i
        {
            out.push(self.tags[i].clone());
            i = i + 1;
        }
        out
    }
}



/// The creation time of the note with this identifier: with
/// well-formed rows the identifier names at most one row.
pub open spec fn date_of(idx: Index, id: Seq<char>) -> crate::timestamp::Timestamp {
    idx.notes_seq()[choose|j: int|
        0 <= j < idx.notes_seq().len() && (#[trigger] idx.notes_seq()[j]).note_id == id]
        .creation_date_time
}

/// In a well-formed index the date lookup agrees with every row that
/// carries the identifier.
pub proof fn lemma_date_of(idx: Index, j: int)
    requires
        idx.wf(),
        0 <= j < idx.notes_seq().len(),
    ensures date_of(idx, idx.notes_seq()[j].note_id) == idx.notes_seq()[j].creation_date_time,
{
    let id = idx.notes_seq()[j].note_id;
    let w = choose|w: int|
        0 <= w < idx.notes_seq().len() && (#[trigger] idx.notes_seq()[w]).note_id == id;
    assert(0 <= w < idx.notes_seq().len() && idx.notes_seq()[w].note_id == id) by {
        assert(idx.notes_seq()[j].note_id == id);
    }
    if w != j {
        assert(unique_note_ids(idx.notes_seq()));
        assert(false);
    }
}

/// Some picked row carries this identifier.
pub open spec fn picked_row(idx: Index, taken: Seq<bool>, id: Seq<char>) -> bool {
    exists|j: int|
        0 <= j < idx.notes_seq().len() && j < taken.len() && taken[j]
            && (#[trigger] idx.notes_seq()[j]).note_id == id
}

/// Some entry of the result carries this identifier.
pub open spec fn listed_id(out: Seq<String>, id: Seq<char>) -> bool {
    exists|k: int| 0 <= k < out.len() && (#[trigger] out[k])@ == id
}

/// How many entries of a flag sequence are set.
pub open spec fn count_true(s: Seq<bool>) -> int
    decreases s.len()
{
    if s.len() == 0 {
        0
    } else {
        count_true(s.drop_last()) + if s.last() { 1int } else { 0int }
    }
}

pub proof fn lemma_count_true_bounds(s: Seq<bool>)
    ensures 0 <= count_true(s) <= s.len(),
    decreases s.len()
{
    if s.len() > 0 {
        lemma_count_true_bounds(s.drop_last());
    }
}

/// Fewer set flags than entries leaves an unset entry.
pub proof fn lemma_exists_unset(s: Seq<bool>)
    requires count_true(s) < s.len(),
    ensures exists|j: int| 0 <= j < s.len() && !s[j],
    decreases s.len()
{
    if s.len() > 0 {
        if !s.last() {
            assert(!s[s.len() - 1]);
        } else {
            lemma_count_true_bounds(s.drop_last());
            lemma_exists_unset(s.drop_last());
            let j = choose|j: int| 0 <= j < s.drop_last().len() && !s.drop_last()[j];
            assert(!s[j]);
        }
    }
}

impl Index {
    /// The identifiers of the most recently created notes, newest
    /// first, at most `count` of them: rows are picked by repeatedly
    /// taking the newest not yet picked.  Each identifier appears once,
    /// names an existing note, the list is ordered by creation time from
    /// newest to oldest, and no note left out is newer than one listed.
    pub fn get_recent_note_ids(&self, count: usize) -> (r: Vec<String>)
        requires self.wf(),
        ensures
            r@.len() == if count as int <= self.notes_seq().len() {
                count as int
            } else {
                self.notes_seq().len() as int
            },
            (forall|a: int, b: int| 0 <= a < b < r@.len() ==> (#[trigger] r@[a])@ != (#[trigger] r@[b])@),
            (forall|k: int| 0 <= k < r@.len() ==> self.has_note((#[trigger] r@[k])@)),
            (forall|a: int, b: int|
                0 <= a < b < r@.len()
                    ==> date_of(*self, (#[trigger] r@[b])@).spec_le(
                        date_of(*self, (#[trigger] r@[a])@))),
            (forall|k: int, j: int|
                0 <= k < r@.len() && 0 <= j < self.notes_seq().len()
                    && !listed_id(r@, (#[trigger] self.notes_seq()[j]).note_id)
                    ==> self.notes_seq()[j].creation_date_time.spec_le(
                        date_of(*self, (#[trigger] r@[k])@))),
    {
        let ns = self.notes.len();
        let limit: usize = if count <= ns { count } else { ns };
        let mut taken: Vec<bool> = Vec::new();
        let mut q: usize = 0;
        while q < ns
            invariant
                0 <= q <= ns,
                taken@.len() == q,
                forall|j: int| 0 <= j < q ==> !(#[trigger] taken@[j]),
                count_true(taken@) == 0,
            decreases ns - q
        {
            let ghost pre = taken@;
            taken.push(false);
            assert(taken@.drop_last() =~= pre);
            q = q + 1;
        }
        let mut out: Vec<String> = Vec::new();
        let mut round: usize = 0;
        while round < limit
            invariant
                self.wf(),
                0 <= round <= limit,
                limit <= ns,
                ns == self.notes_seq().len(),
                taken@.len() == ns,
                count_true(taken@) == round,
                out@.len() == round,
                (forall|a: int, b: int|
                    0 <= a < b < round ==> (#[trigger] out@[a])@ != (#[trigger] out@[b])@),
                (forall|k: int| 0 <= k < round
                    ==> picked_row(*self, taken@, (#[trigger] out@[k])@)),
                (forall|j: int| 0 <= j < ns && !(#[trigger] taken@[j])
                    ==> !listed_id(out@, self.notes_seq()[j].note_id)),
                (forall|j: int| 0 <= j < ns && #[trigger] taken@[j]
                    ==> listed_id(out@, self.notes_seq()[j].note_id)),
                (forall|a: int, b: int|
                    0 <= a < b < round
                        ==> date_of(*self, (#[trigger] out@[b])@).spec_le(
                            date_of(*self, (#[trigger] out@[a])@))),
                (forall|k: int, j: int|
                    0 <= k < round && 0 <= j < ns && !(#[trigger] taken@[j])
                        ==> self.notes_seq()[j].creation_date_time.spec_le(
                            date_of(*self, (#[trigger] out@[k])@))),
            decreases limit - round
        {
            proof {
                lemma_exists_unset(taken@);
            }
            // Find the newest note not picked yet; ties keep the
            // earliest row.
            let mut best: usize = 0;
            let mut have: bool = false;
            let mut j: usize = 0;
            while j < ns
                invariant
                    self.wf(),
                    0 <= j <= ns,
                    ns == self.notes_seq().len(),
                    taken@.len() == ns,
                    have ==> best < ns && !taken@[best as int],
                    have ==> forall|w: int| 0 <= w < j && !(#[trigger] taken@[w])
                        ==> self.notes_seq()[w].creation_date_time.spec_le(
                            self.notes_seq()[best as int].creation_date_time),
                    !have ==> forall|w: int| 0 <= w < j ==> #[trigger] taken@[w],
                decreases ns - j
            {
                if !taken[j] {
                    if !have {
                        best = j;
                        have = true;
                    } else if !self.notes[j].creation_date_time.le(
                        &self.notes[best].creation_date_time) {
                        assert forall|w: int| 0 <= w < j + 1 && !(#[trigger] taken@[w])
                            implies self.notes_seq()[w].creation_date_time.spec_le(
                                self.notes_seq()[j as int].creation_date_time) by {
                            if w < j {
                                assert(self.notes_seq()[w].creation_date_time.spec_le(
                                    self.notes_seq()[best as int].creation_date_time));
                            }
                        }
                        best = j;
                    }
                }
                j = j + 1;
            }
            proof {
                if !have {
                    let w = choose|w: int| 0 <= w < taken@.len() && !taken@[w];
                    assert(taken@[w]);
                }
            }
            // Record it and mark the row as used.
            let ghost pre_out = out@;
            let ghost pre_taken = taken@;
            let id = self.notes[best].note_id.clone();
            assert(id@ == self.notes_seq()[best as int].note_id);
            out.push(id);
            let mut flipped: Vec<bool> = Vec::new();
            let mut w: usize = 0;
            while w < ns
                invariant
                    0 <= w <= ns,
                    ns == taken@.len(),
                    best < ns,
                    taken@ == pre_taken,
                    flipped@.len() == w,
                    forall|v: int| 0 <= v < w
                        ==> #[trigger] flipped@[v] == (taken@[v] || v == best as int),
                    count_true(flipped@) == count_true(taken@.take(w as int))
                        + if (best as int) < w && !taken@[best as int] { 1int } else { 0int },
                decreases ns - w
            {
                let ghost pre_f = flipped@;
                if w == best {
                    flipped.push(true);
                } else {
                    flipped.push(taken[w]);
                }
                proof {
                    assert(flipped@.drop_last() =~= pre_f);
                    assert(taken@.take(w as int + 1).drop_last() =~= taken@.take(w as int));
                    assert(taken@.take(w as int + 1).last() == taken@[w as int]);
                }
                w = w + 1;
            }
            assert(taken@.take(ns as int) =~= taken@);
            taken = flipped;
            proof {
                assert(!pre_taken[best as int]);
                assert(count_true(taken@) == round + 1);
                assert forall|a: int, b: int| 0 <= a < b < round + 1
                    implies (#[trigger] out@[a])@ != (#[trigger] out@[b])@ by {
                    if b == round as int {
                        assert(out@[a] == pre_out[a]);
                        assert(picked_row(*self, pre_taken, pre_out[a]@));
                        let ja = choose|j2: int|
                            0 <= j2 < ns && j2 < pre_taken.len() && pre_taken[j2]
                                && (#[trigger] self.notes_seq()[j2]).note_id == pre_out[a]@;
                        assert(ja != best as int);
                        assert(out@[b]@ == self.notes_seq()[best as int].note_id);
                    } else {
                        assert(out@[a] == pre_out[a] && out@[b] == pre_out[b]);
                    }
                }
                assert forall|k: int| 0 <= k < round + 1
                    implies picked_row(*self, taken@, (#[trigger] out@[k])@) by {
                    if k == round as int {
                        assert(taken@[best as int]
                            && self.notes_seq()[best as int].note_id == out@[k]@);
                    } else {
                        assert(out@[k] == pre_out[k]);
                        assert(picked_row(*self, pre_taken, pre_out[k]@));
                        let j2 = choose|j2: int|
                            0 <= j2 < ns && j2 < pre_taken.len() && pre_taken[j2]
                                && (#[trigger] self.notes_seq()[j2]).note_id == pre_out[k]@;
                        assert(taken@[j2] && self.notes_seq()[j2].note_id == out@[k]@);
                    }
                }
                assert forall|j2: int| 0 <= j2 < ns && #[trigger] taken@[j2]
                    implies listed_id(out@, self.notes_seq()[j2].note_id) by {
                    if j2 == best as int {
                        assert(out@[round as int]@ == self.notes_seq()[best as int].note_id);
                    } else {
                        assert(pre_taken[j2]);
                        assert(listed_id(pre_out, self.notes_seq()[j2].note_id));
                        let k = choose|k: int| 0 <= k < pre_out.len()
                            && (#[trigger] pre_out[k])@ == self.notes_seq()[j2].note_id;
                        assert(out@[k]@ == self.notes_seq()[j2].note_id);
                    }
                }
                assert forall|j2: int| 0 <= j2 < ns && !(#[trigger] taken@[j2])
                    implies !listed_id(out@, self.notes_seq()[j2].note_id) by {
                    assert(!pre_taken[j2] && j2 != best as int);
                    if listed_id(out@, self.notes_seq()[j2].note_id) {
                        let k = choose|k: int| 0 <= k < out@.len()
                            && (#[trigger] out@[k])@ == self.notes_seq()[j2].note_id;
                        if k == round as int {
                            assert(self.notes_seq()[best as int].note_id
                                == self.notes_seq()[j2].note_id);
                            assert(false);
                        } else {
                            assert(pre_out[k]@ == self.notes_seq()[j2].note_id);
                            assert(listed_id(pre_out, self.notes_seq()[j2].note_id));
                        }
                    }
                }
            }
            round = round + 1;
        }
        proof {
            assert forall|k: int| 0 <= k < out@.len()
                implies self.has_note((#[trigger] out@[k])@) by {
                assert(picked_row(*self, taken@, out@[k]@));
                let j2 = choose|j2: int|
                    0 <= j2 < ns && j2 < taken@.len() && taken@[j2]
                        && (#[trigger] self.notes_seq()[j2]).note_id == out@[k]@;
            }
            assert forall|k: int, j: int|
                0 <= k < out@.len() && 0 <= j < self.notes_seq().len()
                    && !listed_id(out@, (#[trigger] self.notes_seq()[j]).note_id)
                implies self.notes_seq()[j].creation_date_time.spec_le(
                    date_of(*self, (#[trigger] out@[k])@)) by {
                assert(!taken@[j]);
            }
        }
        out
    }
}



} // verus!
