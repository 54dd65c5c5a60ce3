//! A text-input buffer with a fixed prompt prefix.
//!
//! The buffer holds a prompt (the pre-text) followed by what the user
//! typed; editing operations never eat into the prompt.

use vstd::prelude::*;
use crate::text::push_char;

verus! {

/// An input line: a fixed prompt and the editable text after it.
#[derive(Debug)]
pub struct InputString {
    text: String,
    pre_text_length: usize,
}

impl InputString {
    /// The whole buffer, prompt included.
    pub closed spec fn buffer(self) -> Seq<char> {
        self.text@
    }

    /// How many leading characters belong to the prompt.
    pub closed spec fn pre_len(self) -> int {
        self.pre_text_length as int
    }

    /// The prompt never exceeds the buffer.
    pub open spec fn wf(self) -> bool {
        0 <= self.pre_len() <= self.buffer().len()
    }

    /// A buffer holding just the prompt.
    pub fn from(pre_text: &str) -> (r: InputString)
        ensures
            r.wf(),
            r.buffer() == pre_text@,
            r.pre_len() == pre_text@.len(),
    {
        let text = pre_text.to_owned();
        let pre_text_length = text.unicode_len();
        InputString { text, pre_text_length }
    }

    /// Append one character after the current text.
    pub fn push(&mut self, c: char)
        requires old(self).wf(),
        ensures
            final(self).wf(),
            final(self).buffer() == old(self).buffer().push(c),
            final(self).pre_len() == old(self).pre_len(),
    {
        push_char(&mut self.text, c);
    }

    /// Remove the last typed character; the prompt stays.
    pub fn pop(&mut self)
        requires old(self).wf(),
        ensures
            final(self).wf(),
            final(self).pre_len() == old(self).pre_len(),
            old(self).buffer().len() > old(self).pre_len()
                ==> final(self).buffer() == old(self).buffer().drop_last(),
            old(self).buffer().len() <= old(self).pre_len()
                ==> final(self).buffer() == old(self).buffer(),
    {
        if self.text.unicode_len() > self.pre_text_length {
            pop_char(&mut self.text);
        }
    }

    /// The whole buffer, prompt included, as shown to the user.
    pub fn get_displayed_text(&self) -> (r: String)
        ensures r@ == self.buffer(),
    {
        self.text.clone()
    }

    /// Only what the user typed after the prompt.
    pub fn get_content_text(&self) -> (r: String)
        requires self.wf(),
        ensures r@ == self.buffer().subrange(self.pre_len(), self.buffer().len() as int),
    {
        let n = self.text.unicode_len();
        self.text.as_str().substring_char(self.pre_text_length, n).to_owned()
    }

    /// Replace the whole buffer by a new prompt.
    pub fn set_pre_text(&mut self, pre_text: &str)
        ensures
            final(self).wf(),
            final(self).buffer() == pre_text@,
            final(self).pre_len() == pre_text@.len(),
    {
        self.text = pre_text.to_owned();
        self.pre_text_length = self.text.unicode_len();
    }

    /// Drop everything the user typed, keeping the prompt.
    pub fn clear(&mut self)
        requires old(self).wf(),
        ensures
            final(self).wf(),
            final(self).pre_len() == old(self).pre_len(),
            final(self).buffer()
                == old(self).buffer().subrange(0, old(self).pre_len()),
    {
        let ghost orig = self.text@;
        let ghost keep = self.pre_text_length as int;
        loop
            invariant
                keep <= self.text@.len() <= orig.len(),
                self.pre_text_length as int == keep,
                keep == old(self).pre_len(),
                orig == old(self).buffer(),
                self.text@ == orig.subrange(0, self.text@.len() as int),
            decreases self.text@.len()
        {
            if self.text.unicode_len() <= self.pre_text_length {
                assert(self.text@.len() == keep);
                return;
            }
            let ghost before = self.text@;
            pop_char(&mut self.text);
            assert(self.text@ =~= orig.subrange(0, self.text@.len() as int));
        }
    }
}

/// Relies on String::pop: removes exactly the last character.
#[verifier::external_body]
fn pop_char(s: &mut String)
    requires old(s)@.len() > 0,
    ensures final(s)@ == old(s)@.drop_last(),
{
    s.pop();
}

} // verus!
