//! Set operations on search-result collections.
//!
//! A search-result collection is a vector of `NoteTagging` entries in
//! which each note identifier occurs at most once; the identifier alone
//! is the element's identity, the tag annotation is carried data.

use vstd::prelude::*;
use crate::note::NoteTagging;
use crate::links::str_eq;

verus! {

/// The contents of an optional tag annotation.
pub open spec fn opt_view(o: Option<String>) -> Option<Seq<char>> {
    match o {
        None => None,
        Some(s) => Some(s@),
    }
}

/// An entry with this note identifier exists.
pub open spec fn has_id(s: Seq<NoteTagging>, id: Seq<char>) -> bool {
    exists|k: int| 0 <= k < s.len() && (#[trigger] s[k]).note_id@ == id
}

/// The first entry carrying this note identifier.
pub open spec fn lookup(s: Seq<NoteTagging>, id: Seq<char>) -> Option<Seq<char>>
    decreases s.len()
{
    if s.len() == 0 {
        None
    } else if s[0].note_id@ == id {
        opt_view(s[0].tag_name)
    } else {
        lookup(s.drop_first(), id)
    }
}

/// Each note identifier occurs at most once.
pub open spec fn unique_entry_ids(s: Seq<NoteTagging>) -> bool {
    forall|a: int, b: int| 0 <= a < b < s.len() ==> s[a].note_id@ != s[b].note_id@
}

/// In a unique collection, every entry is what lookup finds for its
/// identifier.
pub proof fn lemma_lookup_unique(s: Seq<NoteTagging>, k: int)
    requires
        unique_entry_ids(s),
        0 <= k < s.len(),
    ensures lookup(s, s[k].note_id@) == opt_view(s[k].tag_name),
    decreases s.len()
{
    if k == 0 {
    } else {
        assert(s[0].note_id@ != s[k].note_id@);
        assert(unique_entry_ids(s.drop_first())) by {
            assert forall|a: int, b: int|
                0 <= a < b < s.drop_first().len()
                implies s.drop_first()[a].note_id@ != s.drop_first()[b].note_id@ by {
                assert(s.drop_first()[a] == s[a + 1]);
                assert(s.drop_first()[b] == s[b + 1]);
            }
        }
        assert(s.drop_first()[k - 1] == s[k]);
        lemma_lookup_unique(s.drop_first(), k - 1);
    }
}

/// A found identifier has a lookup result.
pub proof fn lemma_lookup_some(s: Seq<NoteTagging>, id: Seq<char>)
    requires has_id(s, id),
    ensures exists|k: int| 0 <= k < s.len() && (#[trigger] s[k]).note_id@ == id
        && lookup(s, id) == opt_view(s[k].tag_name),
    decreases s.len()
{
    if s.len() > 0 {
        if s[0].note_id@ == id {
            assert(lookup(s, id) == opt_view(s[0].tag_name));
        } else {
            assert(has_id(s.drop_first(), id)) by {
                let k = choose|k: int| 0 <= k < s.len() && (#[trigger] s[k]).note_id@ == id;
                assert(s.drop_first()[k - 1] == s[k]);
            }
            lemma_lookup_some(s.drop_first(), id);
            let k = choose|k: int|
                0 <= k < s.drop_first().len() && (#[trigger] s.drop_first()[k]).note_id@ == id
                    && lookup(s.drop_first(), id) == opt_view(s.drop_first()[k].tag_name);
            assert(s[k + 1] == s.drop_first()[k]);
        }
    }
}

/// Is there an entry with this note identifier?
pub fn contains_id(v: &Vec<NoteTagging>, id: &str) -> (r: bool)
    ensures r == has_id(v@, id@),
{
    let n = v.len();
    let mut i: usize = 0;
    while i < n
        invariant
            0 <= i <= n,
            n == v@.len(),
            forall|j: int| 0 <= j < i ==> (#[trigger] v@[j]).note_id@ != id@,
        decreases n - i
    {
        if str_eq(v[i].note_id.as_str(), id) {
            assert(v@[i as int].note_id@ == id@);
            return true;
        }
        i = i + 1;
    }
    false
}

/// The first entry carrying this note identifier, copied out.
fn find_entry(v: &Vec<NoteTagging>, id: &str) -> (r: Option<NoteTagging>)
    ensures
        match r {
            Some(e) => has_id(v@, id@) && e.note_id@ == id@
                && opt_view(e.tag_name) == lookup(v@, id@),
            None => !has_id(v@, id@),
        },
{
    let n = v.len();
    assert(v@.subrange(0, n as int) =~= v@);
    let mut i: usize = 0;
    while i < n
        invariant
            0 <= i <= n,
            n == v@.len(),
            forall|j: int| 0 <= j < i ==> (#[trigger] v@[j]).note_id@ != id@,
            lookup(v@, id@) == lookup(v@.subrange(i as int, n as int), id@),
        decreases n - i
    {
        proof {
            assert(v@.subrange(i as int, n as int)[0] == v@[i as int]);
        }
        if str_eq(v[i].note_id.as_str(), id) {
            let tag = match &v[i].tag_name {
                Some(t) => Some(t.clone()),
                None => None,
            };
            let e = NoteTagging { note_id: v[i].note_id.clone(), tag_name: tag };
            assert(opt_view(e.tag_name) == opt_view(v@[i as int].tag_name));
            assert(v@[i as int].note_id@ == id@);
            return Some(e);
        }
        proof {
            assert(v@.subrange(i as int, n as int).drop_first()
                =~= v@.subrange(i as int + 1, n as int));
        }
        i = i + 1;
    }
    assert(v@.subrange(n as int, n as int).len() == 0);
    None
}

/// Set tools for search-result collections.
pub struct CollectionTool;

impl CollectionTool {
    /// The entries of `b` whose identifier also occurs in `a`, in the
    /// order of `a`: an intersection that keeps the annotations of the
    /// newer collection.
    pub fn intersect(a: &Vec<NoteTagging>, b: &Vec<NoteTagging>) -> (r: Vec<NoteTagging>)
        requires unique_entry_ids(a@),
        ensures
            unique_entry_ids(r@),
            (forall|id: Seq<char>| #[trigger] has_id(r@, id) <==> has_id(a@, id) && has_id(b@, id)),
            (forall|k: int|
                0 <= k < r@.len()
                    ==> opt_view((#[trigger] r@[k]).tag_name) == lookup(b@, r@[k].note_id@)),
    {
        let n = a.len();
        let mut out: Vec<NoteTagging> = Vec::new();
        let mut i: usize = 0;
        while i < n
            invariant
                0 <= i <= n,
                n == a@.len(),
                unique_entry_ids(a@),
                unique_entry_ids(out@),
                forall|id: Seq<char>| #[trigger] has_id(out@, id)
                    <==> (exists|j: int| 0 <= j < i && (#[trigger] a@[j]).note_id@ == id)
                        && has_id(b@, id),
                forall|k: int|
                    0 <= k < out@.len()
                        ==> opt_view((#[trigger] out@[k]).tag_name) == lookup(b@, out@[k].note_id@),
                forall|k: int|
                    0 <= k < out@.len() ==> has_id(a@, (#[trigger] out@[k]).note_id@),
            decreases n - i
        {
            let ghost pre = out@;
            if !contains_id(&out, a[i].note_id.as_str()) {
                match find_entry(b, a[i].note_id.as_str()) {
                    Some(e) => {
                        assert(e.note_id@ == a@[i as int].note_id@);
                        out.push(e);
                    },
                    None => {},
                }
            }
            proof {
                assert forall|id: Seq<char>| #[trigger] has_id(out@, id)
                    implies (exists|j: int| 0 <= j < i + 1 && (#[trigger] a@[j]).note_id@ == id)
                        && has_id(b@, id) by {
                    let k = choose|k: int| 0 <= k < out@.len() && (#[trigger] out@[k]).note_id@ == id;
                    if k < pre.len() {
                        assert(has_id(pre, id));
                    } else {
                        assert(a@[i as int].note_id@ == id);
                    }
                }
                assert forall|id: Seq<char>|
                    (exists|j: int| 0 <= j < i + 1 && (#[trigger] a@[j]).note_id@ == id)
                        && has_id(b@, id)
                    implies #[trigger] has_id(out@, id) by {
                    let j = choose|j: int| 0 <= j < i + 1 && (#[trigger] a@[j]).note_id@ == id;
                    if j < i {
                        assert(has_id(pre, id));
                        let k = choose|k: int|
                            0 <= k < pre.len() && (#[trigger] pre[k]).note_id@ == id;
                        assert(out@[k].note_id@ == id);
                    } else {
                        if has_id(pre, id) {
                            let k = choose|k: int|
                                0 <= k < pre.len() && (#[trigger] pre[k]).note_id@ == id;
                            assert(out@[k].note_id@ == id);
                        } else {
                            assert(out@[out@.len() - 1].note_id@ == id);
                        }
                    }
                }
            }
            i = i + 1;
        }
        proof {
            assert forall|id: Seq<char>| #[trigger] has_id(out@, id) <==> has_id(a@, id)
                && has_id(b@, id) by {
                if has_id(a@, id) {
                    let j = choose|j: int| 0 <= j < a@.len() && (#[trigger] a@[j]).note_id@ == id;
                }
            }
        }
        out
    }

    /// The entries of `a` whose identifier does not occur in `b`: the
    /// set difference that keeps `a`'s annotations.
    pub fn difference(a: &Vec<NoteTagging>, b: &Vec<NoteTagging>) -> (r: Vec<NoteTagging>)
        requires unique_entry_ids(a@),
        ensures
            unique_entry_ids(r@),
            (forall|id: Seq<char>| #[trigger] has_id(r@, id) <==> has_id(a@, id) && !has_id(b@, id)),
            (forall|k: int|
                0 <= k < r@.len()
                    ==> opt_view((#[trigger] r@[k]).tag_name) == lookup(a@, r@[k].note_id@)),
    {
        let n = a.len();
        let mut out: Vec<NoteTagging> = Vec::new();
        let mut i: usize = 0;
        while i < n
            invariant
                0 <= i <= n,
                n == a@.len(),
                unique_entry_ids(a@),
                unique_entry_ids(out@),
                forall|id: Seq<char>| #[trigger] has_id(out@, id)
                    <==> (exists|j: int| 0 <= j < i && (#[trigger] a@[j]).note_id@ == id)
                        && !has_id(b@, id),
                forall|k: int|
                    0 <= k < out@.len()
                        ==> opt_view((#[trigger] out@[k]).tag_name) == lookup(a@, out@[k].note_id@),
            decreases n - i
        {
            let ghost pre = out@;
            if !contains_id(b, a[i].note_id.as_str()) {
                let tag = match &a[i].tag_name {
                    Some(t) => Some(t.clone()),
                    None => None,
                };
                let e = NoteTagging { note_id: a[i].note_id.clone(), tag_name: tag };
                assert(e.note_id@ == a@[i as int].note_id@);
                assert(opt_view(e.tag_name) == opt_view(a@[i as int].tag_name));
                proof {
                    lemma_lookup_unique(a@, i as int);
                    if has_id(pre, e.note_id@) {
                        let k = choose|k: int|
                            0 <= k < pre.len() && (#[trigger] pre[k]).note_id@ == e.note_id@;
                        let j = choose|j: int|
                            0 <= j < i && (#[trigger] a@[j]).note_id@ == e.note_id@;
                        assert(false);
                    }
                }
                out.push(e);
            }
            proof {
                assert forall|id: Seq<char>| #[trigger] has_id(out@, id)
                    implies (exists|j: int| 0 <= j < i + 1 && (#[trigger] a@[j]).note_id@ == id)
                        && !has_id(b@, id) by {
                    let k = choose|k: int| 0 <= k < out@.len() && (#[trigger] out@[k]).note_id@ == id;
                    if k < pre.len() {
                        assert(has_id(pre, id));
                    } else {
                        assert(a@[i as int].note_id@ == id);
                    }
                }
                assert forall|id: Seq<char>|
                    (exists|j: int| 0 <= j < i + 1 && (#[trigger] a@[j]).note_id@ == id)
                        && !has_id(b@, id)
                    implies #[trigger] has_id(out@, id) by {
                    let j = choose|j: int| 0 <= j < i + 1 && (#[trigger] a@[j]).note_id@ == id;
                    if j < i {
                        assert(has_id(pre, id));
                        let k = choose|k: int|
                            0 <= k < pre.len() && (#[trigger] pre[k]).note_id@ == id;
                        assert(out@[k].note_id@ == id);
                    } else {
                        assert(out@.len() > pre.len());
                        assert(out@[out@.len() - 1].note_id@ == id);
                    }
                }
            }
            i = i + 1;
        }
        proof {
            assert forall|id: Seq<char>| #[trigger] has_id(out@, id) <==> has_id(a@, id)
                && !has_id(b@, id) by {
                if has_id(a@, id) {
                    let j = choose|j: int| 0 <= j < a@.len() && (#[trigger] a@[j]).note_id@ == id;
                }
            }
        }
        out
    }
}

} // verus!
