//! The note-document parser and header writer.
//!
//! `parse` turns the raw text of a note file into a structured record or a
//! typed failure; `render_header` and `render_note` write the canonical
//! form back.  For untouched field values the two directions are exact
//! inverses; the round-trip proof lives in `roundtrip`.

use vstd::prelude::*;
use crate::envelope::{
    spec_envelope, spec_header_value, spec_parse_list, envelope, header_value, parse_list,
};
use crate::links::{spec_extract_links, extract_links};
use crate::note::NoteProperty;
use crate::timestamp::{
    Timestamp, spec_parse_timestamp, spec_format_timestamp, parse_timestamp, format_timestamp,
};

verus! {

/// Why a note file could not be parsed.
#[derive(Clone, Copy, Debug, PartialEq, Eq, Structural)]
pub enum FormatError {
    /// The triple-hyphen envelope is missing or unclosed.
    MissingHeader,
    /// A required header field is missing or blank.
    MissingField(NoteProperty),
    /// The `date` value does not have the form `YYYY-MM-DD HH:MM:SS`.
    BadTimestamp,
}

/// Ghost description of a parsed note: plain values of all its parts.
pub struct ParsedFields {
    pub id: Seq<char>,
    pub name: Seq<char>,
    pub date: Timestamp,
    pub tags: Seq<Seq<char>>,
    pub backlinks: Seq<Seq<char>>,
    pub body: Seq<char>,
}

/// A parsed note document: the header fields and the body.
#[derive(Debug)]
pub struct ParsedNote {
    pub id: String,
    pub name: String,
    pub date: Timestamp,
    pub tags: Vec<String>,
    pub backlinks: Vec<String>,
    pub body: String,
}

impl View for ParsedNote {
    type V = ParsedFields;

    open spec fn view(&self) -> ParsedFields {
        ParsedFields {
            id: self.id@,
            name: self.name@,
            date: self.date,
            tags: self.tags.deep_view(),
            backlinks: self.backlinks.deep_view(),
            body: self.body@,
        }
    }
}

/// The tag list of a header: the items of the bracketed `tags` value;
/// empty when the key is absent, blank, or not a bracketed list.
pub open spec fn spec_tags_of_header(h: Seq<char>) -> Seq<Seq<char>> {
    match spec_header_value(h, "tags"@) {
        None => Seq::empty(),
        Some(v) => match spec_parse_list(v) {
            None => Seq::empty(),
            Some(items) => items,
        },
    }
}

/// The backlink list of a header: the `[[Id]]` tokens of the `backlinks`
/// value; empty when the key is absent or blank.
pub open spec fn spec_backlinks_of_header(h: Seq<char>) -> Seq<Seq<char>> {
    match spec_header_value(h, "backlinks"@) {
        None => Seq::empty(),
        Some(v) => spec_extract_links(v, 0),
    }
}

/// Parse the raw text of a note file.
///
/// The envelope must be present (`MissingHeader` otherwise); `id`, `name`
/// and `date` must carry nonblank values (`MissingField` otherwise); the
/// `date` value must be a well-formed timestamp (`BadTimestamp`
/// otherwise).  `tags` and `backlinks` are optional.
pub open spec fn spec_parse(t: Seq<char>) -> Result<ParsedFields, FormatError> {
    match spec_envelope(t) {
        None => Err(FormatError::MissingHeader),
        Some((h0, h1, b0)) => {
            let h = t.subrange(h0, h1);
            match spec_header_value(h, "id"@) {
                None => Err(FormatError::MissingField(NoteProperty::NoteId)),
                Some(id) => match spec_header_value(h, "name"@) {
                    None => Err(FormatError::MissingField(NoteProperty::NoteName)),
                    Some(name) => match spec_header_value(h, "date"@) {
                        None => Err(FormatError::MissingField(NoteProperty::CreationDate)),
                        Some(datev) => match spec_parse_timestamp(datev) {
                            None => Err(FormatError::BadTimestamp),
                            Some(ts) => Ok(ParsedFields {
                                id: id,
                                name: name,
                                date: ts,
                                tags: spec_tags_of_header(h),
                                backlinks: spec_backlinks_of_header(h),
                                body: t.subrange(b0, t.len() as int),
                            }),
                        },
                    },
                },
            }
        },
    }
}

/// Parse a note file into its header fields and body.
///
/// A text without the triple-hyphen envelope yields `MissingHeader` and
/// nothing else: no partially populated record is ever returned.
pub fn parse(text: &str) -> (r: Result<ParsedNote, FormatError>)
    ensures
        match r {
            Ok(pn) => spec_parse(text@) == Ok::<ParsedFields, FormatError>(pn@),
            Err(e) => spec_parse(text@) == Err::<ParsedFields, FormatError>(e),
        },
        (r matches Err(FormatError::MissingHeader)) <==> spec_envelope(text@) is None,
{
    let (h0, h1, b0) = match envelope(text) {
        Some(bounds) => bounds,
        None => {
            return Err(FormatError::MissingHeader);
        },
    };
    let header = text.substring_char(h0, h1);
    let n: usize = text.unicode_len();
    let body = text.substring_char(b0, n).to_owned();
    let id = match header_value(header, "id") {
        Some(v) => v,
        None => {
            return Err(FormatError::MissingField(NoteProperty::NoteId));
        },
    };
    let name = match header_value(header, "name") {
        Some(v) => v,
        None => {
            return Err(FormatError::MissingField(NoteProperty::NoteName));
        },
    };
    let datev = match header_value(header, "date") {
        Some(v) => v,
        None => {
            return Err(FormatError::MissingField(NoteProperty::CreationDate));
        },
    };
    let date = match parse_timestamp(datev.as_str()) {
        Some(ts) => ts,
        None => {
            return Err(FormatError::BadTimestamp);
        },
    };
    let tags = match header_value(header, "tags") {
        Some(v) => match parse_list(v.as_str()) {
            Some(items) => items,
            None => Vec::new(),
        },
        None => Vec::new(),
    };
    assert(tags.deep_view() =~= spec_tags_of_header(header@));
    let backlinks = match header_value(header, "backlinks") {
        Some(v) => extract_links(v.as_str()),
        None => Vec::new(),
    };
    assert(backlinks.deep_view() =~= spec_backlinks_of_header(header@));
    let pn = ParsedNote { id, name, date, tags, backlinks, body };
    Ok(pn)
}

/// Join the items with `", "` separators.
pub open spec fn spec_join(items: Seq<Seq<char>>) -> Seq<char>
    decreases items.len()
{
    if items.len() == 0 {
        Seq::empty()
    } else if items.len() == 1 {
        items[0]
    } else {
        spec_join(items.drop_last()) + ", "@ + items.last()
    }
}

/// The canonical bracketed list: `[ a, b ]`, or `[ ]` when empty.
pub open spec fn spec_render_list(items: Seq<Seq<char>>) -> Seq<char> {
    if items.len() == 0 {
        "[ ]"@
    } else {
        "[ "@ + spec_join(items) + " ]"@
    }
}

/// Each backlink id wrapped in its double brackets.
pub open spec fn spec_bracket_links(bls: Seq<Seq<char>>) -> Seq<Seq<char>> {
    Seq::new(bls.len(), |k: int| "[["@ + bls[k] + "]]"@)
}

/// The canonical header text written for the given field values.
pub open spec fn spec_render_header(pn: ParsedFields) -> Seq<char> {
    "id: "@ + pn.id + "\nname: "@ + pn.name + "\ndate: "@ + spec_format_timestamp(pn.date)
        + "\ntags: "@ + spec_render_list(pn.tags) + "\nbacklinks: "@
        + spec_render_list(spec_bracket_links(pn.backlinks))
}

/// The canonical full file: envelope, header, body.
pub open spec fn spec_render_note(pn: ParsedFields) -> Seq<char> {
    "---\n\n"@ + spec_render_header(pn) + "\n\n---\n"@ + pn.body
}

/// Render the items as a canonical bracketed list.
fn render_list(items: &Vec<String>) -> (r: String)
    ensures r@ == spec_render_list(items.deep_view()),
{
    if items.len() == 0 {
        return String::from_str("[ ]");
    }
    let mut out = String::from_str("[ ");
    let mut i: usize = 0;
    let n = items.len();
    while i < n
        invariant
            0 < n == items.len(),
            0 <= i <= n,
            i == 0 ==> out@ == "[ "@,
            i > 0 ==> out@ == "[ "@ + spec_join(items.deep_view().take(i as int)),
        decreases n - i
    {
        if i > 0 {
            out.append(", ");
        }
        out.append(items[i].as_str());
        proof {
            let dv = items.deep_view();
            assert(dv.take(i as int + 1).drop_last() =~= dv.take(i as int));
            assert(dv.take(i as int + 1).last() == dv[i as int]);
            if i == 0 {
                assert(spec_join(dv.take(1)) == dv[0]);
            }
        }
        i = i + 1;
    }
    assert(items.deep_view().take(n as int) =~= items.deep_view());
    out.append(" ]");
    out
}

/// Wrap each backlink id in double brackets.
fn bracket_links(bls: &Vec<String>) -> (r: Vec<String>)
    ensures r.deep_view() == spec_bracket_links(bls.deep_view()),
{
    let mut out: Vec<String> = Vec::new();
    let n = bls.len();
    let mut i: usize = 0;
    while i < n
        invariant
            0 <= i <= n,
            n == bls.len(),
            out@.len() == i,
            forall|k: int| 0 <= k < i ==> out@[k]@ == spec_bracket_links(bls.deep_view())[k],
        decreases n - i
    {
        let mut tok = String::from_str("[[");
        tok.append(bls[i].as_str());
        tok.append("]]");
        assert(tok@ == "[["@ + bls.deep_view()[i as int] + "]]"@);
        assert(tok@ == spec_bracket_links(bls.deep_view())[i as int]);
        out.push(tok);
        i = i + 1;
    }
    assert(out.deep_view() =~= spec_bracket_links(bls.deep_view()));
    out
}

/// Render identifiers as a canonical bracketed token list:
/// `[ [[A]], [[B]] ]`, or `[ ]` when there are none.
pub fn render_bracket_list(ids: &Vec<String>) -> (r: String)
    ensures r@ == spec_render_list(spec_bracket_links(ids.deep_view())),
{
    let bt = bracket_links(ids);
    render_list(&bt)
}

/// Write the canonical header text for the given field values.
///
/// Parsing a file whose header is in this form and rendering the fields
/// again reproduces the header byte for byte.
pub fn render_header(pn: &ParsedNote) -> (r: String)
    requires pn.date.wf(),
    ensures r@ == spec_render_header(pn@),
{
    let mut out = String::from_str("id: ");
    out.append(pn.id.as_str());
    out.append("\nname: ");
    out.append(pn.name.as_str());
    out.append("\ndate: ");
    let ts = format_timestamp(&pn.date);
    out.append(ts.as_str());
    out.append("\ntags: ");
    let tl = render_list(&pn.tags);
    out.append(tl.as_str());
    out.append("\nbacklinks: ");
    let bt = bracket_links(&pn.backlinks);
    let bl = render_list(&bt);
    out.append(bl.as_str());
    out
}

/// Write the canonical full file: envelope, header and body.
pub fn render_note(pn: &ParsedNote) -> (r: String)
    requires pn.date.wf(),
    ensures r@ == spec_render_note(pn@),
{
    let mut out = String::from_str("---\n\n");
    let h = render_header(pn);
    out.append(h.as_str());
    out.append("\n\n---\n");
    out.append(pn.body.as_str());
    out
}

/// The parser namespace of the note store: reads single properties out of
/// raw note text.
pub struct NoteMetadata;

impl NoteMetadata {
    /// The trimmed header value of one property of the given note text;
    /// `Ok(None)` when the key is absent or blank, `Err` when the
    /// envelope is missing.
    pub fn get_property_of_text(text: &str, property: NoteProperty) -> (r: Result<
        Option<String>,
        FormatError,
    >)
        ensures
            match r {
                Ok(v) => {
                    &&& spec_envelope(text@) is Some
                    &&& {
                        let h = text@.subrange(
                            spec_envelope(text@)->Some_0.0,
                            spec_envelope(text@)->Some_0.1,
                        );
                        let key = match property {
                            NoteProperty::NoteId => "id"@,
                            NoteProperty::NoteName => "name"@,
                            NoteProperty::CreationDate => "date"@,
                        };
                        match v {
                            Some(s) => spec_header_value(h, key) == Some(s@),
                            None => spec_header_value(h, key) is None,
                        }
                    }
                },
                Err(e) => e == FormatError::MissingHeader && spec_envelope(text@) is None,
            },
    {
        let (h0, h1, _b0) = match envelope(text) {
            Some(bounds) => bounds,
            None => {
                return Err(FormatError::MissingHeader);
            },
        };
        let header = text.substring_char(h0, h1);
        let key = property.to_metadata_identifier();
        Ok(header_value(header, key.as_str()))
    }

    /// The tag list of the given note text; `Ok(None)` when the `tags`
    /// key is absent, blank, or not a bracketed list.
    pub fn get_tags_of_text(text: &str) -> (r: Result<Option<Vec<String>>, FormatError>)
        ensures
            match r {
                Ok(v) => {
                    &&& spec_envelope(text@) is Some
                    &&& {
                        let h = text@.subrange(
                            spec_envelope(text@)->Some_0.0,
                            spec_envelope(text@)->Some_0.1,
                        );
                        match v {
                            Some(items) => spec_header_value(h, "tags"@) is Some
                                && spec_parse_list(spec_header_value(h, "tags"@)->Some_0)
                                    == Some(items.deep_view()),
                            None => spec_header_value(h, "tags"@) is None
                                || spec_parse_list(spec_header_value(h, "tags"@)->Some_0) is None,
                        }
                    }
                },
                Err(e) => e == FormatError::MissingHeader && spec_envelope(text@) is None,
            },
    {
        let (h0, h1, _b0) = match envelope(text) {
            Some(bounds) => bounds,
            None => {
                return Err(FormatError::MissingHeader);
            },
        };
        let header = text.substring_char(h0, h1);
        match header_value(header, "tags") {
            None => Ok(None),
            Some(v) => match parse_list(v.as_str()) {
                None => Ok(None),
                Some(items) => Ok(Some(items)),
            },
        }
    }
}

} // verus!
