//! Composing a new note from the template.
//!
//! A fresh note gets an identifier made of its type prefix and a compact
//! creation timestamp, a file name derived from the same timestamp, and
//! file content produced by filling the placeholders of the note
//! template.  Reading the template and writing the file are the caller's
//! business.

use vstd::prelude::*;
use crate::timestamp::{
    Timestamp, spec_format_timestamp, spec_format_timestamp_compact, spec_format_file_stamp,
    format_timestamp, format_timestamp_compact, format_file_stamp,
};
use crate::text::{replace_all_spec, replace_all};

verus! {

/// The kind of note being created; it decides the identifier's prefix.
#[derive(Clone, Copy, Debug, PartialEq, Eq, Structural)]
pub enum NoteType {
    Topic,
    Quote,
    Journal,
}

/// The identifier prefix of a note type.
pub open spec fn spec_type_prefix(nt: NoteType) -> Seq<char> {
    match nt {
        NoteType::Topic => seq!['T'],
        NoteType::Quote => seq!['Q'],
        NoteType::Journal => seq!['J'],
    }
}

impl NoteType {
    /// The one-letter prefix of identifiers of this type.
    pub fn identifier(&self) -> (r: String)
        ensures r@ == spec_type_prefix(*self),
    {
        let mut out = String::new();
        match self {
            NoteType::Topic => crate::text::push_char(&mut out, 'T'),
            NoteType::Quote => crate::text::push_char(&mut out, 'Q'),
            NoteType::Journal => crate::text::push_char(&mut out, 'J'),
        }
        assert(out@ =~= spec_type_prefix(*self));
        out
    }
}

/// A fresh note identifier: the type prefix followed by the compact
/// creation timestamp.
pub fn make_note_id(nt: NoteType, ts: &Timestamp) -> (r: String)
    requires ts.wf(),
    ensures r@ == spec_type_prefix(nt) + spec_format_timestamp_compact(*ts),
{
    let mut out = nt.identifier();
    let stamp = format_timestamp_compact(ts);
    out.append(stamp.as_str());
    out
}

/// A fresh note file name: the file timestamp with the `.md` suffix.
pub fn make_file_name(ts: &Timestamp) -> (r: String)
    requires ts.wf(),
    ensures r@ == spec_format_file_stamp(*ts) + ".md"@,
{
    let mut out = format_file_stamp(ts);
    out.append(".md");
    out
}

/// The note content produced from the template: each placeholder is
/// replaced by the new note's identifier, name and creation timestamp.
pub open spec fn spec_instantiate_template(
    template: Seq<char>,
    note_id: Seq<char>,
    note_name: Seq<char>,
    ts: Timestamp,
) -> Seq<char> {
    replace_all_spec(
        replace_all_spec(
            replace_all_spec(template, "<note-id>"@, note_id),
            "<note-name>"@,
            note_name,
        ),
        "<creation-date>"@,
        spec_format_timestamp(ts),
    )
}

/// Fill the template's placeholders for a new note.
pub fn instantiate_template(template: &str, note_id: &str, note_name: &str, ts: &Timestamp) -> (r:
    String)
    requires ts.wf(),
    ensures r@ == spec_instantiate_template(template@, note_id@, note_name@, *ts),
{
    proof {
        reveal_strlit("<note-id>");
        reveal_strlit("<note-name>");
        reveal_strlit("<creation-date>");
    }
    let step1 = replace_all(template, "<note-id>", note_id);
    let step2 = replace_all(step1.as_str(), "<note-name>", note_name);
    let stamp = format_timestamp(ts);
    replace_all(step2.as_str(), "<creation-date>", stamp.as_str())
}

} // verus!
