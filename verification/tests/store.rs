//! Tests of the relational index, the tag and link synchronizers, the
//! search evaluator, and the smaller helper types.

use zettelkasten::index::{Index, IndexError};
use zettelkasten::note::{Note, NoteProperty, NoteTagging, NoteLink};
use zettelkasten::timestamp::Timestamp;
use zettelkasten::sync::{sync_tags, sync_links, check_note_name, remove_note, SyncError,
    SyncReport, NameError, RemoveError};
use zettelkasten::search::evaluate;
use zettelkasten::collection_tool::CollectionTool;
use zettelkasten::history::History;
use zettelkasten::input_string::InputString;
use zettelkasten::create::{NoteType, make_note_id, make_file_name, instantiate_template};
use zettelkasten::graph::{GraphNode, GraphEdge};

fn ts(y: u16, mo: u8, d: u8, h: u8, mi: u8, s: u8) -> Timestamp {
    Timestamp { year: y, month: mo, day: d, hour: h, minute: mi, second: s }
}

fn note(id: &str, name: &str) -> Note {
    Note::new(
        id.to_string(),
        name.to_string(),
        format!("{}.md", id),
        ts(2021, 7, 3, 10, 15, 30),
    )
}

fn tags_of(index: &Index, id: &str) -> Vec<String> {
    index.get_tags_of_note(id)
}

fn sorted_ids(results: &[NoteTagging]) -> Vec<String> {
    let mut ids: Vec<String> = results.iter().map(|e| e.note_id.clone()).collect();
    ids.sort();
    ids
}

fn fruit_store() -> Index {
    let mut index = Index::new();
    index.insert_note(note("N1", "apple pie")).unwrap();
    index.insert_note(note("N2", "apple tart")).unwrap();
    index.insert_note(note("N3", "banana")).unwrap();
    sync_tags(&mut index, "N1", &vec!["fruit".to_string()]).unwrap();
    sync_tags(&mut index, "N2", &vec!["fruit".to_string(), "dessert".to_string()]).unwrap();
    sync_tags(&mut index, "N3", &vec!["fruit".to_string()]).unwrap();
    index
}

#[test]
fn insert_and_get_note() {
    let mut index = Index::new();
    index.insert_note(note("T1", "first")).unwrap();
    assert_eq!(index.insert_note(note("T1", "again")), Err(IndexError::DuplicateNoteId));
    let n = index.get_note_by_id("T1").unwrap();
    assert_eq!(n.note_name, "first");
    assert!(index.get_note_by_id("T2").is_none());
    assert_eq!(index.note_count(), 1);
    assert_eq!(index.get_note_id_at(0), "T1");
}

#[test]
fn note_queries() {
    let index = fruit_store();
    assert_eq!(
        index.get_note_id_where(NoteProperty::NoteName, "banana"),
        Some("N3".to_string())
    );
    assert_eq!(index.get_note_id_where(NoteProperty::NoteName, "mango"), None);
    assert_eq!(
        index.get_note_ids_like(NoteProperty::NoteName, "apple"),
        vec!["N1".to_string(), "N2".to_string()]
    );
    assert_eq!(index.get_note_ids_like(NoteProperty::NoteId, "N"), vec!["N1", "N2", "N3"]);
    assert_eq!(
        index.get_note_id_where(NoteProperty::CreationDate, "2021-07-03 10:15:30"),
        Some("N1".to_string())
    );
}

#[test]
fn update_note_name() {
    let mut index = fruit_store();
    index.update_note_name_where("apple crumble", NoteProperty::NoteId, "N2");
    assert_eq!(index.get_note_by_id("N2").unwrap().note_name, "apple crumble");
    assert_eq!(index.get_note_by_id("N1").unwrap().note_name, "apple pie");
}

#[test]
fn tag_sync_reports() {
    let mut index = Index::new();
    index.insert_note(note("T1", "x")).unwrap();
    let report = sync_tags(&mut index, "T1", &vec![]).unwrap();
    assert_eq!(report, SyncReport::NoTags);
    let report = sync_tags(&mut index, "T1", &vec!["a".to_string()]).unwrap();
    assert_eq!(report, SyncReport::Synced);
    assert_eq!(tags_of(&index, "T1"), vec!["a".to_string()]);
}

#[test]
fn tag_sync_rejects_reserved_characters() {
    let mut index = Index::new();
    index.insert_note(note("T1", "x")).unwrap();
    sync_tags(&mut index, "T1", &vec!["good".to_string()]).unwrap();
    let r = sync_tags(&mut index, "T1", &vec!["ok".to_string(), "ba|d".to_string()]);
    match r {
        Err(SyncError::InvalidTagName(t)) => assert_eq!(t, "ba|d"),
        other => panic!("expected an invalid tag name, got {:?}", other),
    }
    // The destructive step already ran; nothing was inserted.
    assert!(tags_of(&index, "T1").is_empty());
    assert!(index.get_all_tags().is_empty());
}

#[test]
fn tag_gc_leaves_no_orphan_rows() {
    let mut index = Index::new();
    index.insert_note(note("T1", "x")).unwrap();
    index.insert_note(note("T2", "y")).unwrap();
    sync_tags(&mut index, "T1", &vec!["shared".to_string(), "solo".to_string()]).unwrap();
    sync_tags(&mut index, "T2", &vec!["shared".to_string()]).unwrap();
    // Dropping T1's tags orphans `solo` but not `shared`.
    sync_tags(&mut index, "T1", &vec![]).unwrap();
    let rows = index.get_all_tags();
    assert_eq!(rows, vec!["shared".to_string()]);
    for row in &rows {
        assert!(!index.get_notes_with_tag(row).is_empty());
    }
    // Across any further calls the rule keeps holding.
    sync_tags(&mut index, "T2", &vec!["other".to_string()]).unwrap();
    let rows = index.get_all_tags();
    assert_eq!(rows, vec!["other".to_string()]);
    for row in &rows {
        assert!(!index.get_notes_with_tag(row).is_empty());
    }
}

#[test]
fn link_replacement_drops_stale_edges() {
    let mut index = Index::new();
    for id in ["S", "A", "B", "C"] {
        index.insert_note(note(id, id)).unwrap();
    }
    let targets = sync_links(&mut index, "S", "see [[A]] and [[B]]", true);
    assert_eq!(targets, vec!["A".to_string(), "B".to_string()]);
    let links = index.get_all_note_links();
    assert_eq!(links.len(), 2);
    let targets = sync_links(&mut index, "S", "now [[B]] and [[C]]", true);
    assert_eq!(targets, vec!["B".to_string(), "C".to_string()]);
    let links = index.get_all_note_links();
    let mut pairs: Vec<(String, String)> = links
        .iter()
        .map(|l| (l.source_note_id.clone(), l.target_note_id.clone()))
        .collect();
    pairs.sort();
    assert_eq!(
        pairs,
        vec![("S".to_string(), "B".to_string()), ("S".to_string(), "C".to_string())]
    );
}

#[test]
fn sync_links_skips_unresolvable_targets() {
    let mut index = Index::new();
    index.insert_note(note("S", "src")).unwrap();
    index.insert_note(note("A", "tgt")).unwrap();
    let targets = sync_links(&mut index, "S", "[[A]] and [[Missing]] and [[A]]", true);
    assert_eq!(targets, vec!["A".to_string()]);
    assert_eq!(index.get_all_note_links().len(), 1);
    let silent = sync_links(&mut index, "S", "[[A]]", false);
    assert!(silent.is_empty());
    assert_eq!(index.get_all_note_links().len(), 1);
}

#[test]
fn search_and_not() {
    let index = fruit_store();
    let results = evaluate(&index, "apple && !dessert");
    assert_eq!(sorted_ids(&results), vec!["N1".to_string()]);
}

#[test]
fn search_tag_scope() {
    let index = fruit_store();
    let results = evaluate(&index, "#fruit");
    assert_eq!(sorted_ids(&results), vec!["N1".to_string(), "N2".to_string(), "N3".to_string()]);
    for entry in &results {
        assert_eq!(entry.tag_name.as_deref(), Some("fruit"));
    }
    let results = evaluate(&index, "#fruit && !#dessert");
    assert_eq!(sorted_ids(&results), vec!["N1".to_string(), "N3".to_string()]);
}

#[test]
fn search_name_matches_have_no_annotation() {
    let index = fruit_store();
    let results = evaluate(&index, "banana");
    assert_eq!(sorted_ids(&results), vec!["N3".to_string()]);
    assert!(results[0].tag_name.is_none());
}

#[test]
fn search_without_positive_clause_is_empty() {
    let index = fruit_store();
    assert!(evaluate(&index, "!dessert").is_empty());
}

#[test]
fn search_unscoped_matches_ids_and_tags() {
    let index = fruit_store();
    let by_id = evaluate(&index, "N3");
    assert_eq!(sorted_ids(&by_id), vec!["N3".to_string()]);
    let by_tag = evaluate(&index, "dessert");
    assert_eq!(sorted_ids(&by_tag), vec!["N2".to_string()]);
    assert_eq!(by_tag[0].tag_name.as_deref(), Some("dessert"));
}

#[test]
fn check_note_name_flows() {
    let mut index = fruit_store();
    assert_eq!(
        check_note_name(&mut index, "N1", &None),
        Err(NameError::MissingNoteName)
    );
    assert_eq!(
        check_note_name(&mut index, "N1", &Some("   ".to_string())),
        Err(NameError::MissingNoteName)
    );
    check_note_name(&mut index, "N1", &Some("apple strudel".to_string())).unwrap();
    assert_eq!(index.get_note_by_id("N1").unwrap().note_name, "apple strudel");
}

#[test]
fn remove_note_cascades() {
    let mut index = fruit_store();
    sync_links(&mut index, "N1", "[[N2]]", false);
    sync_links(&mut index, "N3", "[[N2]]", false);
    let removed = remove_note(&mut index, "apple tart").unwrap();
    assert_eq!(removed.note_id, "N2");
    assert!(index.get_note_by_id("N2").is_none());
    assert!(tags_of(&index, "N2").is_empty());
    assert!(index.get_all_note_links().is_empty());
    assert_eq!(index.get_all_tags(), vec!["fruit".to_string()]);
    assert!(matches!(
        remove_note(&mut index, "no such note"),
        Err(RemoveError::NoteDoesNotExist)
    ));
}

#[test]
fn remove_note_accepts_identifier() {
    let mut index = fruit_store();
    let removed = remove_note(&mut index, "N3").unwrap();
    assert_eq!(removed.note_name, "banana");
}

#[test]
fn collection_tool_set_operations() {
    let a = vec![
        NoteTagging::from("X".to_string(), None),
        NoteTagging::from("Y".to_string(), Some("old".to_string())),
    ];
    let b = vec![
        NoteTagging::from("Y".to_string(), Some("new".to_string())),
        NoteTagging::from("Z".to_string(), None),
    ];
    let both = CollectionTool::intersect(&a, &b);
    assert_eq!(both.len(), 1);
    assert_eq!(both[0].note_id, "Y");
    assert_eq!(both[0].tag_name.as_deref(), Some("new"));
    let only_a = CollectionTool::difference(&a, &b);
    assert_eq!(only_a.len(), 1);
    assert_eq!(only_a[0].note_id, "X");
}

#[test]
fn history_is_a_bounded_mru_list() {
    let mut history = History::new();
    history.add("A");
    history.add("B");
    history.add("A");
    assert_eq!(history.list(), vec!["A".to_string(), "B".to_string()]);
    assert_eq!(history.render(), "A\nB");
    for i in 0..100 {
        history.add(&format!("N{}", i));
    }
    let entries = history.list();
    assert_eq!(entries.len(), 100);
    assert_eq!(entries[0], "N99");
    assert!(!entries.contains(&"A".to_string()));
}

#[test]
fn input_string_keeps_its_prompt() {
    let mut input = InputString::from("> ");
    input.push('h');
    input.push('i');
    assert_eq!(input.get_displayed_text(), "> hi");
    assert_eq!(input.get_content_text(), "hi");
    input.pop();
    assert_eq!(input.get_content_text(), "h");
    input.pop();
    input.pop();
    assert_eq!(input.get_displayed_text(), "> ");
    input.push('x');
    input.clear();
    assert_eq!(input.get_displayed_text(), "> ");
    input.set_pre_text("? ");
    assert_eq!(input.get_displayed_text(), "? ");
}

#[test]
fn note_property_names() {
    assert_eq!(NoteProperty::NoteId.to_db_string(), "note_id");
    assert_eq!(NoteProperty::NoteName.to_db_string(), "note_name");
    assert_eq!(NoteProperty::CreationDate.to_db_string(), "creation_date");
    assert_eq!(NoteProperty::NoteId.to_metadata_identifier(), "id");
    assert_eq!(NoteProperty::NoteName.to_metadata_identifier(), "name");
    assert_eq!(NoteProperty::CreationDate.to_metadata_identifier(), "date");
}

#[test]
fn create_note_parts() {
    let stamp = ts(2021, 7, 3, 10, 15, 30);
    assert_eq!(make_note_id(NoteType::Topic, &stamp), "T20210703101530");
    assert_eq!(make_note_id(NoteType::Quote, &stamp), "Q20210703101530");
    assert_eq!(make_note_id(NoteType::Journal, &stamp), "J20210703101530");
    assert_eq!(make_file_name(&stamp), "2021-07-03-101530.md");
    let template = "---\n\nid: <note-id>\nname: <note-name>\ndate: <creation-date>\n\
                    tags: [ ]\nbacklinks: [ ]\n\n---\n";
    let content = instantiate_template(template, "T20210703101530", "fresh note", &stamp);
    assert_eq!(
        content,
        "---\n\nid: T20210703101530\nname: fresh note\ndate: 2021-07-03 10:15:30\n\
         tags: [ ]\nbacklinks: [ ]\n\n---\n"
    );
}

#[test]
fn recent_notes_come_newest_first() {
    let mut index = Index::new();
    index
        .insert_note(Note::new(
            "A".to_string(), "old".to_string(), "a.md".to_string(), ts(2019, 1, 1, 0, 0, 0),
        ))
        .unwrap();
    index
        .insert_note(Note::new(
            "B".to_string(), "new".to_string(), "b.md".to_string(), ts(2021, 6, 1, 0, 0, 0),
        ))
        .unwrap();
    index
        .insert_note(Note::new(
            "C".to_string(), "mid".to_string(), "c.md".to_string(), ts(2020, 3, 1, 0, 0, 0),
        ))
        .unwrap();
    assert_eq!(index.get_recent_note_ids(2), vec!["B".to_string(), "C".to_string()]);
    assert_eq!(index.get_recent_note_ids(9), vec!["B", "C", "A"]);
    assert!(index.get_recent_note_ids(0).is_empty());
}

#[test]
fn graph_records() {
    let node = GraphNode::from("T1", "first", 3);
    assert_eq!(node.id, "T1");
    assert_eq!(node.label, "first");
    assert_eq!(node.weight, 3);
    let edge = GraphEdge::from("T1->T2", "T1", "T2");
    assert_eq!(edge.id, "T1->T2");
    assert_eq!(edge.source, "T1");
    assert_eq!(edge.target, "T2");
    let link = NoteLink::new("T1".to_string(), "T2".to_string());
    assert_eq!(link.source_note_id, "T1");
    assert_eq!(link.target_note_id, "T2");
}
