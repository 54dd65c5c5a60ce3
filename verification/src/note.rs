//! The note model: identity, display name, file name, creation time, and
//! the validation rules for names and tags.

use vstd::prelude::*;
use crate::timestamp::Timestamp;

verus! {

/// Ghost description of a note row: the plain values of its fields.
pub struct NoteFields {
    pub note_id: Seq<char>,
    pub note_name: Seq<char>,
    pub file_name: Seq<char>,
    pub creation_date_time: Timestamp,
}

/// One note of the knowledge base as the relational index records it.
#[derive(Debug)]
pub struct Note {
    pub note_id: String,
    pub note_name: String,
    pub file_name: String,
    pub creation_date_time: Timestamp,
}

impl Clone for Note {
    fn clone(&self) -> (r: Note)
        ensures r@ == self@,
    {
        Note {
            note_id: self.note_id.clone(),
            note_name: self.note_name.clone(),
            file_name: self.file_name.clone(),
            creation_date_time: self.creation_date_time,
        }
    }
}

impl View for Note {
    type V = NoteFields;

    open spec fn view(&self) -> NoteFields {
        NoteFields {
            note_id: self.note_id@,
            note_name: self.note_name@,
            file_name: self.file_name@,
            creation_date_time: self.creation_date_time,
        }
    }
}

impl Note {
    /// Bundle the four fields of a note row.
    pub fn new(
        note_id: String,
        note_name: String,
        file_name: String,
        creation_date_time: Timestamp,
    ) -> (r: Note)
        ensures
            r@.note_id == note_id@,
            r@.note_name == note_name@,
            r@.file_name == file_name@,
            r@.creation_date_time == creation_date_time,
    {
        Note { note_id, note_name, file_name, creation_date_time }
    }
}

/// The three note columns the index can be asked about.
#[derive(Clone, Copy, Debug, PartialEq, Eq, Structural)]
pub enum NoteProperty {
    NoteId,
    NoteName,
    CreationDate,
}

impl NoteProperty {
    /// The relational column name of the property.
    pub fn to_db_string(&self) -> (r: String)
        ensures
            r@ == match *self {
                NoteProperty::NoteId => "note_id"@,
                NoteProperty::NoteName => "note_name"@,
                NoteProperty::CreationDate => "creation_date"@,
            },
    {
        match self {
            NoteProperty::NoteId => String::from_str("note_id"),
            NoteProperty::NoteName => String::from_str("note_name"),
            NoteProperty::CreationDate => String::from_str("creation_date"),
        }
    }

    /// The header key under which the property is written in a note file.
    pub fn to_metadata_identifier(&self) -> (r: String)
        ensures
            r@ == match *self {
                NoteProperty::NoteId => "id"@,
                NoteProperty::NoteName => "name"@,
                NoteProperty::CreationDate => "date"@,
            },
    {
        match self {
            NoteProperty::NoteId => String::from_str("id"),
            NoteProperty::NoteName => String::from_str("name"),
            NoteProperty::CreationDate => String::from_str("date"),
        }
    }
}

/// A directed link edge: the body of `source_note_id` references
/// `target_note_id`.
#[derive(Debug)]
pub struct NoteLink {
    pub source_note_id: String,
    pub target_note_id: String,
}

impl NoteLink {
    /// Bundle the two endpoints of a link edge.
    pub fn new(source_note_id: String, target_note_id: String) -> (r: NoteLink)
        ensures
            r.source_note_id@ == source_note_id@,
            r.target_note_id@ == target_note_id@,
    {
        NoteLink { source_note_id, target_note_id }
    }
}

/// A search result entry: a note, annotated with the tag that produced the
/// match when the match came through a tag.
#[derive(Debug)]
pub struct NoteTagging {
    pub note_id: String,
    pub tag_name: Option<String>,
}

impl NoteTagging {
    /// Bundle a note id with an optional matched tag name.
    pub fn from(note_id: String, tag_name: Option<String>) -> (r: NoteTagging)
        ensures
            r.note_id@ == note_id@,
            r.tag_name == tag_name,
    {
        NoteTagging { note_id, tag_name }
    }
}

/// Characters that may not appear in a tag name: they carry structure
/// elsewhere in the note format or the query language.
pub open spec fn bad_tag_char(c: char) -> bool {
    c == '!' || c == '?' || c == '$' || c == '%' || c == '\u{a7}' || c == '&' || c == '/'
        || c == '=' || c == '{' || c == '}' || c == '+' || c == '*' || c == '|' || c == '~'
        || c == '^' || c == '@'
}

/// A tag name is valid when it contains none of the reserved characters.
pub open spec fn valid_tag_name(t: Seq<char>) -> bool {
    forall|i: int| 0 <= i < t.len() ==> !bad_tag_char(t[i])
}

/// Characters that may not appear in a note name: the tag rules plus the
/// tag-scope marker.
pub open spec fn bad_name_char(c: char) -> bool {
    bad_tag_char(c) || c == '#'
}

/// A note name is valid when it contains none of the reserved characters.
pub open spec fn valid_note_name(t: Seq<char>) -> bool {
    forall|i: int| 0 <= i < t.len() ==> !bad_name_char(t[i])
}

/// Decide whether one character is reserved in tag names.
fn is_bad_tag_char(c: char) -> (r: bool)
    ensures r == bad_tag_char(c),
{
    c == '!' || c == '?' || c == '$' || c == '%' || c == '\u{a7}' || c == '&' || c == '/'
        || c == '=' || c == '{' || c == '}' || c == '+' || c == '*' || c == '|' || c == '~'
        || c == '^' || c == '@'
}

/// Decide whether a tag name is valid.
pub fn validate_tag_name(t: &str) -> (r: bool)
    ensures r == valid_tag_name(t@),
{
    let n: usize = t.unicode_len();
    let mut i: usize = 0;
    while i < n
        invariant
            0 <= i <= n,
            n == t@.len(),
            forall|j: int| 0 <= j < i ==> !bad_tag_char(t@[j]),
        decreases n - i
    {
        if is_bad_tag_char(t.get_char(i)) {
            return false;
        }
        i = i + 1;
    }
    true
}

/// Decide whether a note name is valid.
pub fn validate_note_name(t: &str) -> (r: bool)
    ensures r == valid_note_name(t@),
{
    let n: usize = t.unicode_len();
    let mut i: usize = 0;
    while i < n
        invariant
            0 <= i <= n,
            n == t@.len(),
            forall|j: int| 0 <= j < i ==> !bad_name_char(t@[j]),
        decreases n - i
    {
        let c = t.get_char(i);
        if is_bad_tag_char(c) || c == '#' {
            return false;
        }
        i = i + 1;
    }
    true
}

/// The text consists of whitespace only (a missing value in the header).
pub open spec fn all_whitespace(t: Seq<char>) -> bool {
    forall|i: int| 0 <= i < t.len() ==> crate::text::is_ws(t[i])
}

/// Decide whether a text is whitespace only.
pub fn is_all_whitespace(t: &str) -> (r: bool)
    ensures r == all_whitespace(t@),
{
    let n: usize = t.unicode_len();
    let mut i: usize = 0;
    while i < n
        invariant
            0 <= i <= n,
            n == t@.len(),
            forall|j: int| 0 <= j < i ==> crate::text::is_ws(t@[j]),
        decreases n - i
    {
        let c = t.get_char(i);
        if !(c == ' ' || c == '\t' || c == '\n' || c == '\r' || c == '\u{b}' || c == '\u{c}') {
            return false;
        }
        i = i + 1;
    }
    true
}

} // verus!
