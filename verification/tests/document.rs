//! Tests of the note-document parser, writer, link extractor, backlink
//! rewriter and timestamp handling.

use zettelkasten::note_metadata::{parse, render_header, render_note, FormatError, ParsedNote,
    NoteMetadata};
use zettelkasten::note::NoteProperty;
use zettelkasten::timestamp::{Timestamp, parse_timestamp, format_timestamp};
use zettelkasten::links::{extract_links, dedup_links};
use zettelkasten::backlink::{add_backlink, BacklinkError};

fn ts(y: u16, mo: u8, d: u8, h: u8, mi: u8, s: u8) -> Timestamp {
    Timestamp { year: y, month: mo, day: d, hour: h, minute: mi, second: s }
}

fn sample_file() -> String {
    String::from(
        "---\n\nid: T20210703101530\nname: apple pie\ndate: 2021-07-03 10:15:30\n\
         tags: [ fruit, #dessert ]\nbacklinks: [ [[Q20200101000000]] ]\n\n---\n\n\
         A body with a [[J20190202030405]] link.\n",
    )
}

#[test]
fn parses_well_formed_file() {
    let parsed = parse(&sample_file()).unwrap();
    assert_eq!(parsed.id, "T20210703101530");
    assert_eq!(parsed.name, "apple pie");
    assert_eq!(parsed.date, ts(2021, 7, 3, 10, 15, 30));
    assert_eq!(parsed.tags, vec!["fruit".to_string(), "#dessert".to_string()]);
    assert_eq!(parsed.backlinks, vec!["Q20200101000000".to_string()]);
    assert_eq!(parsed.body, "\nA body with a [[J20190202030405]] link.\n");
}

#[test]
fn round_trip_header_is_byte_identical() {
    let file = sample_file();
    let parsed = parse(&file).unwrap();
    let header = render_header(&parsed);
    assert_eq!(
        header,
        "id: T20210703101530\nname: apple pie\ndate: 2021-07-03 10:15:30\n\
         tags: [ fruit, #dessert ]\nbacklinks: [ [[Q20200101000000]] ]"
    );
    assert!(file.contains(&header));
    let rendered = render_note(&parsed);
    assert_eq!(rendered, file);
    let reparsed = parse(&rendered).unwrap();
    assert_eq!(reparsed.id, parsed.id);
    assert_eq!(reparsed.name, parsed.name);
    assert_eq!(reparsed.date, parsed.date);
    assert_eq!(reparsed.tags, parsed.tags);
    assert_eq!(reparsed.backlinks, parsed.backlinks);
    assert_eq!(reparsed.body, parsed.body);
}

#[test]
fn missing_envelope_is_recoverable() {
    assert!(matches!(parse("no header here at all"), Err(FormatError::MissingHeader)));
    assert!(matches!(parse(""), Err(FormatError::MissingHeader)));
    assert!(matches!(parse("--- only one rule"), Err(FormatError::MissingHeader)));
}

#[test]
fn missing_fields_are_reported() {
    let no_id = "---\n\nname: x\ndate: 2021-07-03 10:15:30\n\n---\nbody";
    assert!(matches!(parse(no_id), Err(FormatError::MissingField(NoteProperty::NoteId))));
    let no_name = "---\n\nid: T1\ndate: 2021-07-03 10:15:30\n\n---\nbody";
    assert!(matches!(parse(no_name), Err(FormatError::MissingField(NoteProperty::NoteName))));
    let no_date = "---\n\nid: T1\nname: x\n\n---\nbody";
    assert!(matches!(parse(no_date), Err(FormatError::MissingField(NoteProperty::CreationDate))));
    let blank_name = "---\n\nid: T1\nname:   \ndate: 2021-07-03 10:15:30\n\n---\nbody";
    assert!(matches!(parse(blank_name), Err(FormatError::MissingField(NoteProperty::NoteName))));
}

#[test]
fn bad_timestamp_is_reported() {
    let bad = "---\n\nid: T1\nname: x\ndate: 2021-13-01 10:15:30\n\n---\nbody";
    assert!(matches!(parse(bad), Err(FormatError::BadTimestamp)));
    let short = "---\n\nid: T1\nname: x\ndate: 2021-7-1 10:15:30\n\n---\nbody";
    assert!(matches!(parse(short), Err(FormatError::BadTimestamp)));
}

#[test]
fn header_tolerates_unrelated_brackets() {
    let file = "---\n\nid: T1\nname: notes {with} [nested] (stuff)\n\
                date: 2021-07-03 10:15:30\nquirk: [ { ] } |\n\n---\nbody";
    let parsed = parse(file).unwrap();
    assert_eq!(parsed.name, "notes {with} [nested] (stuff)");
    assert!(parsed.tags.is_empty());
}

#[test]
fn property_and_tags_of_text() {
    let file = sample_file();
    let name = NoteMetadata::get_property_of_text(&file, NoteProperty::NoteName).unwrap();
    assert_eq!(name, Some("apple pie".to_string()));
    let tags = NoteMetadata::get_tags_of_text(&file).unwrap();
    assert_eq!(tags, Some(vec!["fruit".to_string(), "#dessert".to_string()]));
    let none = NoteMetadata::get_property_of_text("nope", NoteProperty::NoteName);
    assert!(matches!(none, Err(FormatError::MissingHeader)));
}

#[test]
fn timestamp_round_trip_and_validity() {
    let t = parse_timestamp("2021-07-03 10:15:30").unwrap();
    assert_eq!(t, ts(2021, 7, 3, 10, 15, 30));
    assert_eq!(format_timestamp(&t), "2021-07-03 10:15:30");
    assert_eq!(parse_timestamp("2020-02-29 00:00:00"), Some(ts(2020, 2, 29, 0, 0, 0)));
    assert_eq!(parse_timestamp("2021-02-29 00:00:00"), None);
    assert_eq!(parse_timestamp("2021-04-31 00:00:00"), None);
    assert_eq!(parse_timestamp("2021-07-03 24:00:00"), None);
    assert_eq!(parse_timestamp("2021-07-03T10:15:30"), None);
    assert_eq!(parse_timestamp("2100-02-29 00:00:00"), None);
    assert_eq!(parse_timestamp("2000-02-29 12:59:59"), Some(ts(2000, 2, 29, 12, 59, 59)));
}

#[test]
fn link_extraction_keeps_order_and_duplicates() {
    let body = "see [[A1]] and [[B2]], then [[A1]] again; broken [[x y]] and [[]] skipped";
    let links = extract_links(body);
    assert_eq!(links, vec!["A1".to_string(), "B2".to_string(), "A1".to_string()]);
    let distinct = dedup_links(&links);
    assert_eq!(distinct, vec!["A1".to_string(), "B2".to_string()]);
}

#[test]
fn link_extraction_handles_nesting() {
    assert_eq!(extract_links("[[[abc]]"), vec!["abc".to_string()]);
    assert_eq!(extract_links("[[ab]]cd]]"), vec!["ab".to_string()]);
    assert!(extract_links("nothing here").is_empty());
}

#[test]
fn add_backlink_inserts_token() {
    let file = sample_file();
    let updated = add_backlink(&file, "B777").unwrap();
    assert!(updated.contains("backlinks: [ [[Q20200101000000]], [[B777]] ]"));
    assert!(updated.contains("A body with a [[J20190202030405]] link."));
    assert_eq!(updated.matches("[[B777]]").count(), 1);
}

#[test]
fn add_backlink_to_empty_list() {
    let file = "---\n\nid: T1\nname: x\ndate: 2021-07-03 10:15:30\n\
                tags: [ ]\nbacklinks: [ ]\n\n---\nbody";
    let updated = add_backlink(file, "A123").unwrap();
    assert!(updated.contains("backlinks: [ [[A123]] ]"));
}

#[test]
fn add_backlink_is_idempotent() {
    let file = sample_file();
    let once = add_backlink(&file, "A123").unwrap();
    let twice = add_backlink(&once, "A123").unwrap();
    assert_eq!(once, twice);
    assert_eq!(twice.matches("[[A123]]").count(), 1);
}

#[test]
fn add_backlink_existing_is_unchanged() {
    let file = sample_file();
    let same = add_backlink(&file, "Q20200101000000").unwrap();
    assert_eq!(same, file);
}

#[test]
fn add_backlink_rejects_malformed_field() {
    assert_eq!(add_backlink("no envelope", "A1"), Err(BacklinkError::MalformedBacklinksField));
    let no_field = "---\n\nid: T1\nname: x\ndate: 2021-07-03 10:15:30\n\n---\nbody";
    assert_eq!(add_backlink(no_field, "A1"), Err(BacklinkError::MalformedBacklinksField));
    let tight = "---\n\nid: T1\nbacklinks: []\n\n---\nbody";
    assert_eq!(add_backlink(tight, "A1"), Err(BacklinkError::MalformedBacklinksField));
}

#[test]
fn render_note_from_fields() {
    let pn = ParsedNote {
        id: "T20210703101530".to_string(),
        name: "fresh".to_string(),
        date: ts(2021, 7, 3, 10, 15, 30),
        tags: vec![],
        backlinks: vec![],
        body: "\nhello\n".to_string(),
    };
    let text = render_note(&pn);
    assert_eq!(
        text,
        "---\n\nid: T20210703101530\nname: fresh\ndate: 2021-07-03 10:15:30\n\
         tags: [ ]\nbacklinks: [ ]\n\n---\n\nhello\n"
    );
    let back = parse(&text).unwrap();
    assert_eq!(back.name, "fresh");
    assert!(back.tags.is_empty());
    assert!(back.backlinks.is_empty());
}
