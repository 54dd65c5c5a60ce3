//! The note-opening history.
//!
//! A bounded most-recently-used list of note identifiers: opening a note
//! moves its identifier to the front; when the list is full the oldest
//! entry falls off the back.  Reading and writing the history file is
//! the caller's business; `render` writes the list out as the file's
//! newline-separated text.

use vstd::prelude::*;
use crate::links::str_eq;

verus! {

/// The identifiers without the one being re-inserted.
pub open spec fn without_id(s: Seq<Seq<char>>, id: Seq<char>) -> Seq<Seq<char>>
    decreases s.len()
{
    if s.len() == 0 {
        Seq::empty()
    } else {
        let rest = without_id(s.drop_last(), id);
        if s.last() == id {
            rest
        } else {
            rest.push(s.last())
        }
    }
}

/// The most-recently-used list of opened notes, newest first.
#[derive(Debug)]
pub struct History {
    pub note_history_capacity: usize,
    note_history: Vec<String>,
}

impl History {
    /// The identifiers, newest first.
    pub closed spec fn entries(self) -> Seq<Seq<char>> {
        self.note_history.deep_view()
    }

    /// The greatest number of entries kept.
    pub closed spec fn capacity(self) -> int {
        self.note_history_capacity as int
    }

    /// An empty history holding at most one hundred entries.
    pub fn new() -> (r: History)
        ensures
            r.entries() == Seq::<Seq<char>>::empty(),
            r.capacity() == 100,
    {
        let r = History { note_history_capacity: 100, note_history: Vec::new() };
        proof {
            assert(r.entries() =~= Seq::<Seq<char>>::empty());
        }
        r
    }

    /// Record that a note was opened: its identifier moves to the front;
    /// a repeated identifier is moved, not duplicated; at capacity the
    /// oldest entry falls off.
    pub fn add(&mut self, note_id: &str)
        ensures
            final(self).capacity() == old(self).capacity(),
            final(self).entries() == ({
                let prior = if old(self).entries().contains(note_id@) {
                    without_id(old(self).entries(), note_id@)
                } else if old(self).entries().len() >= old(self).capacity()
                    && old(self).entries().len() > 0 {
                    old(self).entries().drop_last()
                } else {
                    old(self).entries()
                };
                seq![note_id@] + prior
            }),
    {
        let ghost orig = self.entries();
        let mut rest: Vec<String>;
        if self.contains(note_id) {
            let n = self.note_history.len();
            rest = Vec::new();
            let mut i: usize = 0;
            while i < n
                invariant
                    0 <= i <= n,
                    n == self.note_history@.len(),
                    orig == self.entries(),
                    rest.deep_view() == without_id(orig.take(i as int), note_id@),
                decreases n - i
            {
                let ghost prefix = orig.take(i as int);
                assert(orig.take(i as int + 1).drop_last() =~= prefix);
                assert(orig.take(i as int + 1).last() == orig[i as int]);
                if !str_eq(self.note_history[i].as_str(), note_id) {
                    let item = self.note_history[i].clone();
                    assert(item@ == orig[i as int]);
                    rest.push(item);
                }
                assert(rest.deep_view() =~= without_id(orig.take(i as int + 1), note_id@));
                i = i + 1;
            }
            assert(orig.take(n as int) =~= orig);
        } else if self.note_history.len() >= self.note_history_capacity
            && self.note_history.len() > 0 {
            rest = Vec::new();
            let n = self.note_history.len() - 1;
            let mut i: usize = 0;
            while i < n
                invariant
                    0 <= i <= n,
                    n == self.note_history@.len() - 1,
                    orig == self.entries(),
                    rest.deep_view() == orig.take(i as int),
                decreases n - i
            {
                let item = self.note_history[i].clone();
                assert(item@ == orig[i as int]);
                let ghost pred = rest.deep_view();
                rest.push(item);
                proof {
                    assert(rest@.len() == pred.len() + 1);
                    assert forall|k: int| 0 <= k < rest@.len()
                        implies #[trigger] rest.deep_view()[k] == orig.take(i as int + 1)[k] by {
                        if k < pred.len() {
                            assert(rest.deep_view()[k] == rest@[k]@);
                            assert(rest@[k]@ == pred[k]);
                        } else {
                            assert(rest@[k]@ == orig[i as int]);
                        }
                    }
                    assert(rest.deep_view() =~= orig.take(i as int + 1));
                }
                i = i + 1;
            }
            assert(orig.take(n as int) =~= orig.drop_last());
        } else {
            rest = Vec::new();
            let n = self.note_history.len();
            let mut i: usize = 0;
            while i < n
                invariant
                    0 <= i <= n,
                    n == self.note_history@.len(),
                    orig == self.entries(),
                    rest.deep_view() == orig.take(i as int),
                decreases n - i
            {
                let item = self.note_history[i].clone();
                assert(item@ == orig[i as int]);
                let ghost pred = rest.deep_view();
                rest.push(item);
                proof {
                    assert(rest@.len() == pred.len() + 1);
                    assert forall|k: int| 0 <= k < rest@.len()
                        implies #[trigger] rest.deep_view()[k] == orig.take(i as int + 1)[k] by {
                        if k < pred.len() {
                            assert(rest.deep_view()[k] == rest@[k]@);
                            assert(rest@[k]@ == pred[k]);
                        } else {
                            assert(rest@[k]@ == orig[i as int]);
                        }
                    }
                    assert(rest.deep_view() =~= orig.take(i as int + 1));
                }
                i = i + 1;
            }
            assert(orig.take(n as int) =~= orig);
        }
        let mut fresh: Vec<String> = Vec::new();
        fresh.push(note_id.to_owned());
        let ghost rv = rest.deep_view();
        let n = rest.len();
        let mut i: usize = 0;
        while i < n
            invariant
                0 <= i <= n,
                n == rest@.len(),
                rv == rest.deep_view(),
                fresh.deep_view() == seq![note_id@] + rv.take(i as int),
            decreases n - i
        {
            let item = rest[i].clone();
            assert(item@ == rv[i as int]);
            let ghost pred = fresh.deep_view();
            fresh.push(item);
            proof {
                assert(fresh@.len() == pred.len() + 1);
                assert forall|k: int| 0 <= k < fresh@.len()
                    implies #[trigger] fresh.deep_view()[k]
                        == (seq![note_id@] + rv.take(i as int + 1))[k] by {
                    if k < pred.len() {
                        assert(fresh.deep_view()[k] == fresh@[k]@);
                        assert(fresh@[k]@ == pred[k]);
                    } else {
                        assert(fresh@[k]@ == rv[i as int]);
                    }
                }
                assert(fresh.deep_view() =~= seq![note_id@] + rv.take(i as int + 1));
            }
            i = i + 1;
        }
        assert(rv.take(n as int) =~= rv);
        self.note_history = fresh;
    }

    /// Is an identifier already recorded?
    fn contains(&self, note_id: &str) -> (r: bool)
        ensures r == self.entries().contains(note_id@),
    {
        crate::links::vec_contains_str(&self.note_history, note_id)
    }

    /// The identifiers, newest first.
    pub fn list(&self) -> (r: Vec<String>)
        ensures r.deep_view() == self.entries(),
    {
        let n = self.note_history.len();
        let mut out: Vec<String> = Vec::new();
        let mut i: usize = 0;
        while i < n
            invariant
                0 <= i <= n,
                n == self.note_history@.len(),
                out.deep_view() == self.entries().take(i as int),
            decreases n - i
        {
            let item = self.note_history[i].clone();
            assert(item@ == self.entries()[i as int]);
            let ghost pred = out.deep_view();
            out.push(item);
            proof {
                assert(out@.len() == pred.len() + 1);
                assert forall|k: int| 0 <= k < out@.len()
                    implies #[trigger] out.deep_view()[k]
                        == self.entries().take(i as int + 1)[k] by {
                    if k < pred.len() {
                        assert(out.deep_view()[k] == out@[k]@);
                        assert(out@[k]@ == pred[k]);
                    } else {
                        assert(out@[k]@ == self.entries()[i as int]);
                    }
                }
                assert(out.deep_view() =~= self.entries().take(i as int + 1));
            }
            i = i + 1;
        }
        assert(self.entries().take(n as int) =~= self.entries());
        out
    }

    /// The text written to the history file: one identifier per line.
    pub fn render(&self) -> (r: String)
        ensures r@ == spec_render_history(self.entries()),
    {
        let mut out = String::new();
        let n = self.note_history.len();
        let mut i: usize = 0;
        assert(out@ =~= spec_render_history(self.entries().take(0)));
        while i < n
            invariant
                0 <= i <= n,
                n == self.note_history@.len(),
                out@ == spec_render_history(self.entries().take(i as int)),
            decreases n - i
        {
            let ghost prefix = self.entries().take(i as int);
            assert(self.entries().take(i as int + 1).drop_last() =~= prefix);
            assert(self.entries().take(i as int + 1).last() == self.entries()[i as int]);
            if i > 0 {
                out.append("\n");
            }
            proof {
                reveal_strlit("\n");
                assert("\n"@ =~= seq!['\n']);
            }
            assert(self.note_history@[i as int]@ == self.entries()[i as int]);
            out.append(self.note_history[i].as_str());
            assert(out@ =~= spec_render_history(self.entries().take(i as int + 1)));
            i = i + 1;
        }
        assert(self.entries().take(n as int) =~= self.entries());
        out
    }
}

/// The history file text: identifiers joined by newlines.
pub open spec fn spec_render_history(ids: Seq<Seq<char>>) -> Seq<char>
    decreases ids.len()
{
    if ids.len() == 0 {
        Seq::empty()
    } else if ids.len() == 1 {
        ids[0]
    } else {
        spec_render_history(ids.drop_last()) + seq!['\n'] + ids.last()
    }
}

} // verus!
