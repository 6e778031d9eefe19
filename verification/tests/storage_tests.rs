use blink::error::BlinkError;
use blink::frontmatter::{frame_note, import_shape, split_frontmatter, title_of_plain, ImportShape};
use blink::clock::note_id_of;
use blink::index::{
    entry_for, entry_from, file_stem, note_file_name, NoteIndexEntry, NotesIndex,
};
use blink::intake::{accept_one, Accepted};
use blink::note::{CreateNoteRequest, Note, NoteFrontmatter, UpdateNoteRequest};
use blink::storage::{
    export_file_name, export_frontmatter, import_note, place_note, FileStorageManager, NoteFile,
    Placement,
};
use blink::store::NoteStore;

const NOW: &str = "2024-06-01T12:00:00+00:00";

fn note(id: &str, title: &str, content: &str, position: Option<i32>) -> Note {
    Note {
        id: id.to_string(),
        title: title.to_string(),
        content: content.to_string(),
        created_at: "2024-01-01T00:00:00+00:00".to_string(),
        updated_at: "2024-02-01T00:00:00+00:00".to_string(),
        tags: vec!["first".to_string(), "second tag".to_string()],
        position,
    }
}

fn same_note(a: &Note, b: &Note) -> bool {
    a.id == b.id
        && a.title == b.title
        && a.content == b.content
        && a.created_at == b.created_at
        && a.updated_at == b.updated_at
        && a.tags == b.tags
        && a.position == b.position
}

/// Writes a metadata block as YAML.
fn to_yaml(f: &NoteFrontmatter) -> String {
    let mut map = serde_yaml::Mapping::new();
    map.insert("id".into(), f.id.clone().into());
    map.insert("title".into(), f.title.clone().into());
    map.insert("created_at".into(), f.created_at.clone().into());
    map.insert("updated_at".into(), f.updated_at.clone().into());
    let tags: Vec<serde_yaml::Value> = f.tags.iter().map(|t| t.clone().into()).collect();
    map.insert("tags".into(), serde_yaml::Value::Sequence(tags));
    if let Some(p) = f.position {
        map.insert("position".into(), serde_yaml::Value::Number(p.into()));
    }
    serde_yaml::to_string(&serde_yaml::Value::Mapping(map)).unwrap()
}

/// Reads a metadata block from YAML.
fn from_yaml(text: &str) -> Option<NoteFrontmatter> {
    let value: serde_yaml::Value = serde_yaml::from_str(text).ok()?;
    let text_of = |key: &str| value.get(key)?.as_str().map(|s| s.to_string());
    let tags = value
        .get("tags")?
        .as_sequence()?
        .iter()
        .map(|t| t.as_str().map(|s| s.to_string()))
        .collect::<Option<Vec<String>>>()?;
    let position = match value.get("position") {
        Some(p) => Some(p.as_i64()? as i32),
        None => None,
    };
    Some(NoteFrontmatter {
        id: text_of("id")?,
        title: text_of("title")?,
        created_at: text_of("created_at")?,
        updated_at: text_of("updated_at")?,
        tags,
        position,
    })
}

fn read_back(storage: &FileStorageManager, text: &str, stem: &str) -> Result<Note, BlinkError> {
    let frontmatter = split_frontmatter(text).and_then(|parts| from_yaml(&parts.metadata));
    storage.parse_markdown_note(text, stem, frontmatter.as_ref(), NOW)
}

#[test]
fn file_text_is_fence_metadata_fence_blank_line_body() {
    assert_eq!(frame_note("id: a\n", "Body").unwrap(), "---\nid: a\n---\n\nBody");
    assert_eq!(frame_note("", "").unwrap(), "---\n---\n\n");
    let parts = split_frontmatter("---\nid: a\n---\n\nBody\n---\nmore").unwrap();
    assert_eq!(parts.metadata, "id: a\n");
    assert_eq!(parts.body, "Body\n---\nmore");
    // Without the blank line the body begins right after the fence.
    let parts = split_frontmatter("---\nid: a\n---\nBody").unwrap();
    assert_eq!(parts.metadata, "id: a\n");
    assert_eq!(parts.body, "Body");
    let parts = split_frontmatter("---\n---\n").unwrap();
    assert_eq!(parts.metadata, "");
    assert_eq!(parts.body, "");
    assert!(split_frontmatter("Body").is_none());
    assert!(split_frontmatter("---\nid: a\nno end").is_none());
    assert!(split_frontmatter("").is_none());
    assert!(split_frontmatter(" ---\nid: a\n---\n").is_none());
    // The block ends only at a line that is a fence.
    let parts = split_frontmatter("---\ntitle: a---\nid: b\n---\n\nBody").unwrap();
    assert_eq!(parts.metadata, "title: a---\nid: b\n");
    assert_eq!(parts.body, "Body");
    assert!(split_frontmatter("---\ntitle: a---\nid: b").is_none());
    assert!(split_frontmatter("---\nid: a\n---").is_none());
}

#[test]
fn metadata_that_cannot_stand_between_fences_is_refused() {
    // A line that is a fence would end the block early.
    assert!(frame_note("a: 1\n---\nb: 2\n", "Body").is_none());
    assert!(frame_note("---\n", "Body").is_none());
    // So would a last line that does not end.
    assert!(frame_note("a: b", "Body").is_none());
    let n = note("n1", "T", "Body", Some(0));
    let refused = FileStorageManager::file_text("id: n1\n---\ntitle: T\n", &n);
    assert!(matches!(
        &refused,
        Err(BlinkError::Serialization(m)) if m == "Metadata cannot stand between fences"
    ));
    let storage = FileStorageManager::at("/notes");
    let index = NotesIndex::new(NOW);
    assert!(storage.plan_save(&index, &n, "id: n1\n---\n").is_err());
    assert!(storage.plan_save(&index, &n, "id: n1\n").is_ok());
}

#[test]
fn layout_round_trips_for_any_body() {
    for metadata in ["", "id: a\n", "title: '--- x'\ntags: []\n", "title: a---\nid: b\n", "a: ---\n"] {
        for body in ["", "Body", "\nleading blank", "---\n", "a\n---\nb\n", "\n\n"] {
            let parts = split_frontmatter(&frame_note(metadata, body).unwrap()).unwrap();
            assert_eq!(parts.metadata, metadata);
            assert_eq!(parts.body, body);
        }
    }
}

#[test]
fn note_round_trips_through_its_file() {
    let storage = FileStorageManager::at("/notes");
    let notes = vec![
        note("n1", "A title", "Body text\nwith lines\n", Some(0)),
        note("n2", "", "", None),
        note("n3", "Colons: and #hashes", "---\nlooks like a fence\n---\n", Some(12)),
        note("6ba7b810-9dad-11d1-80b4-00c04fd430c8", "1234", "\n\nblank lines first", Some(3)),
    ];
    for written in &notes {
        let text = FileStorageManager::file_text(&to_yaml(&written.frontmatter()), written).unwrap();
        let parsed = read_back(&storage, &text, "some-file").unwrap();
        assert!(same_note(&parsed, written), "{:?} became {:?}", written, parsed);
    }
}

#[test]
fn file_with_a_block_that_cannot_be_read_fails_alone() {
    let storage = FileStorageManager::at("/notes");
    let files = vec![
        ("good", FileStorageManager::file_text(&to_yaml(&note("g", "Good", "ok", Some(0)).frontmatter()), &note("g", "Good", "ok", Some(0))).unwrap()),
        ("bad", "---\ntitle: [unclosed\n---\n\nBody".to_string()),
        ("short", "---\ntitle: only a title\n---\n\nBody".to_string()),
        ("plain", "# Heading\n\nText".to_string()),
    ];
    let mut loaded = Vec::new();
    let mut failed = Vec::new();
    for (stem, text) in &files {
        match read_back(&storage, text, stem) {
            Ok(n) => loaded.push(NoteFile { file_name: format!("{}.md", stem), note: n }),
            Err(e) => failed.push((stem.to_string(), e)),
        }
    }
    assert_eq!(loaded.len(), 2);
    assert_eq!(loaded[0].note.id, "g");
    assert_eq!(loaded[1].note.id, "plain");
    assert_eq!(failed.len(), 2);
    assert_eq!(failed[0].0, "bad");
    assert!(matches!(&failed[0].1, BlinkError::Serialization(m) if m == "Malformed frontmatter"));
    assert_eq!(failed[1].0, "short");
    let outcome = storage.load_notes(&loaded, NOW);
    assert_eq!(outcome.notes.len(), 2);
    assert_eq!(outcome.files, vec!["good.md", "plain.md"]);
}

#[test]
fn plain_file_is_named_by_its_file_and_titled_by_its_first_line() {
    let storage = FileStorageManager::at("/notes");
    let modified = "2023-11-14T22:13:20+00:00";
    let n = storage.parse_markdown_note("# My Heading\n\nText", "my-file", None, modified).unwrap();
    assert_eq!(n.id, "my-file");
    assert_eq!(n.title, "My Heading");
    assert_eq!(n.content, "# My Heading\n\nText");
    assert_eq!(n.created_at, modified);
    assert_eq!(n.updated_at, modified);
    assert!(n.tags.is_empty());
    assert_eq!(n.position, None);

    assert_eq!(title_of_plain("## Deep  \nx", "id"), "Deep");
    assert_eq!(title_of_plain("#", "id"), "");
    assert_eq!(title_of_plain("  First line \nsecond", "id"), "First line");
    assert_eq!(title_of_plain("\n\n  \n third \n", "id"), "third");
    assert_eq!(title_of_plain("first\r\nsecond", "id"), "first");
    assert_eq!(title_of_plain("", "my-note-id"), "my note id");
    assert_eq!(title_of_plain(" \n\t\n", "my-note-id"), "my note id");
    assert_eq!(title_of_plain("\n# later heading", "id"), "# later heading");
}

#[test]
fn plain_title_agrees_with_the_lines_of_the_text() {
    fn by_lines(content: &str, id: &str) -> String {
        if let Some(first_line) = content.lines().next() {
            if first_line.starts_with('#') {
                first_line.trim_start_matches('#').trim().to_string()
            } else if !first_line.trim().is_empty() {
                first_line.trim().to_string()
            } else {
                content
                    .lines()
                    .find(|line| !line.trim().is_empty())
                    .map(|line| line.trim().to_string())
                    .unwrap_or_else(|| id.replace('-', " ").to_string())
            }
        } else {
            id.replace('-', " ").to_string()
        }
    }
    for content in [
        "", "\n", "a", "# h", "#", "###  h  \r\nx", " \r\n\r\n x \r\n", "\r\n", "x\r", "\n\n",
        "   #not first", "\u{a0}\u{2003}\nreal", "a\nb\nc", "#\n#\n", "\n#h",
    ] {
        assert_eq!(title_of_plain(content, "the-id"), by_lines(content, "the-id"), "{:?}", content);
    }
}

#[test]
fn import_takes_the_block_up_to_a_fence_line() {
    match import_shape("---\ntitle: a\n---\nBody") {
        ImportShape::Framed(parts) => {
            assert_eq!(parts.metadata, "title: a");
            assert_eq!(parts.body, "Body");
        }
        other => panic!("expected a framed file, got {:?}", other),
    }
    match import_shape("---\ntitle: a---\nid: b\n---\n\nBody") {
        ImportShape::Framed(parts) => {
            assert_eq!(parts.metadata, "title: a---\nid: b");
            assert_eq!(parts.body, "\nBody");
        }
        other => panic!("expected a framed file, got {:?}", other),
    }
    assert!(matches!(import_shape("Body"), ImportShape::Plain));
    assert!(matches!(import_shape("---\n---\nBody"), ImportShape::Malformed));
    assert!(matches!(import_shape("---\ntitle: a\n"), ImportShape::Malformed));

    let pattern = regex::Regex::new(r"(?s)^---\n(.*?)\n---\n(.*)$").unwrap();
    for text in [
        "---\na\n---\nb", "---\n\n---\n", "---\n---\n", "---\na\n---\nb\n---\nc", "---\na", "---\n\n---\n\n---\n",
    ] {
        let expected = pattern.captures(text).map(|c| (c[1].to_string(), c[2].to_string()));
        let got = match import_shape(text) {
            ImportShape::Framed(p) => Some((p.metadata, p.body)),
            _ => None,
        };
        assert_eq!(got, expected, "{:?}", text);
    }
}

#[test]
fn imported_note_gets_a_new_id() {
    let f = note("old-id", "Imported", "ignored", Some(2)).frontmatter();
    let n = import_note("---\ntitle: Imported\n---\nBody", Some("file"), Some(&f), "new-id", NOW).unwrap();
    assert_eq!(n.id, "new-id");
    assert_eq!(n.title, "Imported");
    assert_eq!(n.content, "Body");
    assert_eq!(n.created_at, f.created_at);
    assert_eq!(n.tags, f.tags);
    assert_eq!(n.position, Some(2));

    let plain = import_note("Just text", Some("my file"), None, "new-id", NOW).unwrap();
    assert_eq!(plain.title, "my file");
    assert_eq!(plain.content, "Just text");
    assert_eq!(plain.created_at, NOW);
    assert_eq!(plain.position, None);
    assert_eq!(import_note("x", None, None, "i", NOW).unwrap().title, "Untitled");

    match import_note("---\nnever closed", None, None, "i", NOW) {
        Err(BlinkError::Serialization(m)) => assert_eq!(m, "Invalid frontmatter format"),
        other => panic!("expected a failure, got {:?}", other),
    }
    match import_note("---\n: bad\n---\nBody", None, None, "i", NOW) {
        Err(BlinkError::Serialization(m)) => assert_eq!(m, "Failed to parse frontmatter"),
        other => panic!("expected a failure, got {:?}", other),
    }
}

#[test]
fn exported_note_is_named_after_its_title() {
    let n = note("n1", "My Note: Draft!", "Body", None);
    assert_eq!(export_file_name(&n), "my-note-draft.md");
    assert_eq!(export_file_name(&note("n1", "!!!", "Body", None)), "n1.md");
    let f = export_frontmatter(&n);
    assert_eq!(f.id, "my-note-draft");
    assert_eq!(f.title, "My Note: Draft!");
    assert_eq!(f.tags, n.tags);
}

#[test]
fn duplicate_id_is_replaced_by_the_candidate() {
    let mut store = NoteStore::new();
    assert!(matches!(place_note(&mut store, &note("a", "A", "1", None), "x", NOW), Placement::Kept));
    assert!(matches!(place_note(&mut store, &note("a", "A2", "2", None), "x", NOW), Placement::Renamed));
    assert!(matches!(place_note(&mut store, &note("a", "A3", "3", None), "x", NOW), Placement::Rejected));
    assert!(matches!(place_note(&mut store, &note("a", "A4", "4", None), "a", NOW), Placement::Rejected));
    assert_eq!(store.ids(), vec!["a", "x"]);
    let renamed = store.get("x").unwrap();
    assert_eq!(renamed.content, "2");
    assert_eq!(renamed.updated_at, NOW);
    assert_eq!(store.get("a").unwrap().updated_at, "2024-02-01T00:00:00+00:00");
}

#[test]
fn file_names_are_stable_and_do_not_collide() {
    let mut index = NotesIndex::new(NOW);
    let first = note("n1", "Shopping List", "milk", Some(0));
    let name = index.file_name_for(&first);
    assert_eq!(name, "shopping-list.md");
    index.upsert_note(entry_for(&first, &name, "text", NOW), NOW);

    // A change of title does not move the note to another file.
    let mut renamed = note("n1", "Groceries", "milk", Some(0));
    assert_eq!(index.file_name_for(&renamed), "shopping-list.md");
    renamed.title = String::new();
    assert_eq!(index.file_name_for(&renamed), "shopping-list.md");

    // Another note with the same title gets a number.
    let second = note("n2", "Shopping List", "eggs", Some(1));
    let name = index.file_name_for(&second);
    assert_eq!(name, "shopping-list-2.md");
    index.upsert_note(entry_for(&second, &name, "text", NOW), NOW);
    assert_eq!(index.file_name_for(&note("n3", "shopping list", "", None)), "shopping-list-3.md");

    // A note without a title is named after its id.
    assert_eq!(index.file_name_for(&note("n4", "", "", None)), "n4.md");
    assert_eq!(note_file_name("a"), "a.md");
    assert_eq!(file_stem("a.md"), "a");
    assert_eq!(file_stem("a.txt"), "a.txt");
    assert_eq!(file_stem(".md"), "");
    assert_eq!(file_stem("md"), "md");
}

#[test]
fn index_mirrors_the_notes() {
    let mut index = NotesIndex::new("2024-01-01T00:00:00+00:00");
    assert_eq!(index.len(), 0);
    assert_eq!(index.last_updated(), "2024-01-01T00:00:00+00:00");
    assert_eq!(index.get_next_position(), Some(1));

    let mut a = note("a", "A", "body a", Some(4));
    a.created_at = "2024-01-01T10:00:00+02:00".to_string();
    a.updated_at = "not a time".to_string();
    let text = "---\nid: a\n---\n\nbody a";
    index.upsert_note(entry_for(&a, "a.md", text, NOW), NOW);
    let entry = index.get_note("a").unwrap();
    assert_eq!(entry.id, "a");
    assert_eq!(entry.title, "A");
    assert_eq!(entry.file_path, "a.md");
    assert_eq!(entry.created_at, "2024-01-01T08:00:00+00:00");
    assert_eq!(entry.updated_at, NOW);
    assert_eq!(entry.tags, a.tags);
    assert_eq!(entry.position, Some(4));
    assert_eq!(entry.file_hash, Some(FileStorageManager::compute_file_hash(text)));
    assert_eq!(index.last_updated(), NOW);
    assert_eq!(index.get_next_position(), Some(5));

    index.upsert_note(entry_for(&note("b", "B", "b", None), "b.md", "", NOW), NOW);
    index.upsert_note(entry_for(&note("c", "C", "c", Some(1)), "c.md", "", NOW), NOW);
    index.upsert_note(entry_for(&note("a", "A again", "a", Some(4)), "a.md", "", NOW), NOW);
    assert_eq!(index.len(), 3);
    assert_eq!(index.get_note("a").unwrap().title, "A again");
    assert!(index.note_exists("b"));
    assert!(!index.note_exists("zz"));
    assert!(index.get_note("zz").is_none());
    assert_eq!(index.file_path_of("c"), Some("c.md".to_string()));
    assert_eq!(index.file_path_of("zz"), None);

    let listed: Vec<String> = index.get_all_notes().iter().map(|e| e.id.clone()).collect();
    assert_eq!(listed, vec!["c", "a", "b"]);
    let kept: Vec<String> = index.entries().iter().map(|e| e.id.clone()).collect();
    // An entry that is put in again stands last.
    assert_eq!(kept, vec!["b", "c", "a"]);

    assert!(matches!(index.update_position("b", 0, "2024-07-01T00:00:00+00:00"), Ok(true)));
    assert!(matches!(index.update_position("zz", 0, NOW), Ok(false)));
    // Another entry holds position one: nothing changes.
    assert!(matches!(
        index.update_position("a", 1, "2024-07-02T00:00:00+00:00"),
        Err(BlinkError::Conflict(m)) if m == "Position is held by another note"
    ));
    assert_eq!(index.get_note("a").unwrap().position, Some(4));
    assert_eq!(index.get_note("a").unwrap().updated_at, "2024-02-01T00:00:00+00:00");
    assert!(matches!(index.update_position("zz", 1, NOW), Ok(false)));
    // An entry may be given the position that it holds.
    assert!(matches!(index.update_position("a", 4, NOW), Ok(true)));
    let b = index.get_note("b").unwrap();
    assert_eq!(b.position, Some(0));
    assert_eq!(b.updated_at, "2024-07-01T00:00:00+00:00");
    let listed: Vec<String> = index.get_all_notes().iter().map(|e| e.id.clone()).collect();
    assert_eq!(listed, vec!["b", "c", "a"]);

    index.reorder_positions();
    let positions: Vec<(String, Option<i32>)> =
        index.entries().iter().map(|e| (e.id.clone(), e.position)).collect();
    assert_eq!(
        positions,
        vec![
            ("b".to_string(), Some(1)),
            ("c".to_string(), Some(2)),
            ("a".to_string(), Some(3)),
        ]
    );

    assert!(index.delete_note("c", "2024-08-01T00:00:00+00:00"));
    assert!(!index.delete_note("c", "2024-09-01T00:00:00+00:00"));
    assert_eq!(index.last_updated(), "2024-08-01T00:00:00+00:00");
    assert_eq!(index.len(), 2);
}

#[test]
fn index_is_made_again_from_the_notes() {
    let mut index = NotesIndex::new(NOW);
    index.upsert_note(entry_for(&note("keep", "Old Title", "x", Some(0)), "old-title.md", "t", NOW), NOW);
    index.upsert_note(entry_for(&note("gone", "Gone", "x", None), "gone.md", "t", NOW), NOW);

    let notes = vec![
        note("fresh", "New Note", "a", Some(1)),
        note("keep", "Renamed Since", "b", Some(0)),
    ];
    let names = vec!["new-note.md".to_string(), "old-title.md".to_string()];
    let texts = vec!["ta".to_string(), "tb".to_string()];
    index.rebuild(&notes, &names, &texts, "2024-07-01T00:00:00+00:00");
    let entries: Vec<NoteIndexEntry> = index.entries();
    assert_eq!(entries.len(), 2);
    assert_eq!(entries[0].id, "fresh");
    assert_eq!(entries[0].file_path, "new-note.md");
    assert_eq!(entries[0].file_hash, Some(FileStorageManager::compute_file_hash("ta")));
    assert_eq!(entries[1].id, "keep");
    assert_eq!(entries[1].file_path, "old-title.md");
    assert_eq!(entries[1].title, "Renamed Since");
    assert!(!index.note_exists("gone"));
    assert_eq!(index.last_updated(), "2024-07-01T00:00:00+00:00");

    index.rebuild(&vec![], &vec![], &vec![], NOW);
    assert_eq!(index.len(), 0);
}

#[test]
fn file_to_delete_is_the_indexed_one_or_the_one_named_after_the_id() {
    let storage = FileStorageManager::at("/notes");
    let mut index = NotesIndex::new(NOW);
    index.upsert_note(entry_for(&note("n1", "Title", "", None), "title.md", "", NOW), NOW);
    let directory = vec!["title.md".to_string(), "n2.md".to_string()];
    assert_eq!(storage.file_to_delete(&index, "n1", &directory), Some("title.md".to_string()));
    assert_eq!(storage.file_to_delete(&index, "n2", &directory), Some("n2.md".to_string()));
    assert_eq!(storage.file_to_delete(&index, "n3", &directory), None);
    assert_eq!(storage.sanitize_filename(" a/b "), "a-b");
}

#[test]
fn requests_make_and_change_notes() {
    let made = Note::create(
        &CreateNoteRequest { title: "T".to_string(), content: "C".to_string(), tags: vec!["x".to_string()] },
        "id-1",
        NOW,
        Some(3),
    );
    assert_eq!(made.id, "id-1");
    assert_eq!(made.created_at, NOW);
    assert_eq!(made.position, Some(3));
    let changed = made.apply(
        &UpdateNoteRequest { title: None, content: Some("D".to_string()), tags: Some(vec![]) },
        "2025-01-01T00:00:00+00:00",
    );
    assert_eq!(changed.title, "T");
    assert_eq!(changed.content, "D");
    assert!(changed.tags.is_empty());
    assert_eq!(changed.created_at, NOW);
    assert_eq!(changed.updated_at, "2025-01-01T00:00:00+00:00");
    assert!(same_note(&made.copy(), &made));
    let back = Note::from_frontmatter(&made.frontmatter(), &made.content);
    assert!(same_note(&back, &made));
}

#[test]
fn save_writes_to_the_indexed_file_and_is_recorded() {
    let storage = FileStorageManager::at("/notes");
    let mut index = NotesIndex::new(NOW);
    let first = note("n1", "Shopping List", "milk", Some(0));
    let write = storage.plan_save(&index, &first, "id: n1\n").unwrap();
    assert_eq!(write.file_name, "shopping-list.md");
    assert_eq!(write.path, "/notes/shopping-list.md");
    assert_eq!(write.text, "---\nid: n1\n---\n\nmilk");
    // Nothing is recorded before the write went through.
    assert!(!index.note_exists("n1"));
    FileStorageManager::record_save(&mut index, &first, &write, "2024-07-01T00:00:00+00:00");
    let entry = index.get_note("n1").unwrap();
    assert_eq!(entry.file_path, "shopping-list.md");
    assert_eq!(entry.file_hash, Some(FileStorageManager::compute_file_hash(&write.text)));
    assert_eq!(index.last_updated(), "2024-07-01T00:00:00+00:00");

    let retitled = note("n1", "Groceries", "milk and eggs", Some(0));
    let write = storage.plan_save(&index, &retitled, "id: n1\n").unwrap();
    assert_eq!(write.path, "/notes/shopping-list.md");
    assert_eq!(write.text, "---\nid: n1\n---\n\nmilk and eggs");
    FileStorageManager::record_save(&mut index, &retitled, &write, NOW);
    assert_eq!(index.len(), 1);
    assert_eq!(index.get_note("n1").unwrap().title, "Groceries");
}

#[test]
fn entry_from_takes_time_stamps_and_hash_as_given() {
    let n = note("n1", "Title", "body", Some(2));
    let e = entry_from(&n, "title.md", "created".to_string(), "updated".to_string(), "hash".to_string());
    assert_eq!(e.id, "n1");
    assert_eq!(e.title, "Title");
    assert_eq!(e.file_path, "title.md");
    assert_eq!(e.created_at, "created");
    assert_eq!(e.updated_at, "updated");
    assert_eq!(e.tags, n.tags);
    assert_eq!(e.position, Some(2));
    assert_eq!(e.file_hash, Some("hash".to_string()));
    assert_eq!(e.copy().file_hash, e.file_hash);
}

fn files_of(notes: Vec<Note>) -> Vec<NoteFile> {
    notes
        .into_iter()
        .enumerate()
        .map(|(i, n)| NoteFile { file_name: format!("file-{}.md", i), note: n })
        .collect()
}

fn nothing_accepted() -> Accepted {
    Accepted { notes: NoteStore::new(), files: vec![], renamed: vec![], rejected: vec![] }
}

#[test]
fn a_note_whose_id_is_free_is_taken_in_as_it_is() {
    let files = files_of(vec![note(&note_id_of(1), "A", "One", Some(0))]);
    let mut acc = nothing_accepted();
    accept_one(&mut acc, &files, 0, "", NOW);
    assert_eq!(acc.notes.len(), 1);
    assert!(same_note(&acc.notes.all()[0], &files[0].note));
    assert_eq!(acc.notes.all()[0].updated_at, "2024-02-01T00:00:00+00:00");
    assert_eq!(acc.files, vec!["file-0.md"]);
    assert!(acc.renamed.is_empty());
    assert!(acc.rejected.is_empty());
}

#[test]
fn a_note_whose_id_is_taken_gets_the_drawn_id() {
    let files = files_of(vec![
        note(&note_id_of(1), "A", "One", Some(0)),
        note(&note_id_of(1), "B", "Two", Some(3)),
    ]);
    let mut acc = nothing_accepted();
    accept_one(&mut acc, &files, 0, "", NOW);
    accept_one(&mut acc, &files, 1, &note_id_of(7), NOW);
    let all = acc.notes.all();
    assert_eq!(all.len(), 2);
    assert_eq!(all[0].id, note_id_of(1));
    assert_eq!(all[1].id, note_id_of(7));
    assert_eq!(all[1].title, "B");
    assert_eq!(all[1].content, "Two");
    assert_eq!(all[1].position, Some(3));
    assert_eq!(all[1].updated_at, NOW);
    assert_eq!(acc.files, vec!["file-0.md", "file-1.md"]);
    assert_eq!(acc.renamed, vec![note_id_of(7)]);
    assert!(acc.rejected.is_empty());
}

#[test]
fn a_note_is_left_out_where_the_drawn_id_is_taken_too() {
    let files = files_of(vec![
        note(&note_id_of(1), "A", "One", Some(0)),
        note(&note_id_of(1), "B", "Two", Some(1)),
        note(&note_id_of(1), "C", "Three", Some(2)),
        note(&note_id_of(2), "D", "Four", Some(3)),
        note(&note_id_of(1), "E", "Five", Some(4)),
    ]);
    let mut acc = nothing_accepted();
    accept_one(&mut acc, &files, 0, "", NOW);
    // The drawn id is the id of a file that comes later.
    accept_one(&mut acc, &files, 1, &note_id_of(2), NOW);
    assert_eq!(acc.notes.len(), 1);
    assert_eq!(acc.rejected.len(), 1);
    assert_eq!(acc.rejected[0].title, "B");
    assert_eq!(acc.rejected[0].id, note_id_of(1));
    accept_one(&mut acc, &files, 2, &note_id_of(9), NOW);
    accept_one(&mut acc, &files, 3, "", NOW);
    assert_eq!(acc.notes.len(), 3);
    assert_eq!(acc.notes.all()[2].id, note_id_of(2));
    // The drawn id is the id that an earlier note was given.
    accept_one(&mut acc, &files, 4, &note_id_of(9), NOW);
    assert_eq!(acc.notes.len(), 3);
    assert_eq!(acc.files, vec!["file-0.md", "file-2.md", "file-3.md"]);
    assert_eq!(acc.renamed, vec![note_id_of(9)]);
    assert_eq!(acc.rejected.len(), 2);
    assert_eq!(acc.rejected[1].title, "E");
}

fn record(id: &str, title: &str, file_path: &str, position: i32, hash: &str) -> NoteIndexEntry {
    NoteIndexEntry {
        id: id.to_string(),
        title: title.to_string(),
        file_path: file_path.to_string(),
        created_at: NOW.to_string(),
        updated_at: NOW.to_string(),
        tags: vec![],
        position: Some(position),
        file_hash: Some(hash.to_string()),
    }
}

#[test]
fn test_database_position_uniqueness_constraint() {
    let mut index = NotesIndex::new(NOW);
    let note1 = record("db-test-1", "First Note", "first.md", 0, "hash1");
    let note2 = record("db-test-2", "Second Note", "second.md", 0, "hash2");
    index.upsert_note(note1, NOW);
    index.upsert_note(note2, NOW);
    let all_notes = index.get_all_notes();
    let position_0_notes: Vec<&NoteIndexEntry> =
        all_notes.iter().filter(|n| n.position == Some(0)).collect();
    assert_eq!(
        position_0_notes.len(),
        1,
        "Should have exactly one note at position 0, got {}",
        position_0_notes.len()
    );
    // The entry that held the position has left.
    assert_eq!(position_0_notes[0].id, "db-test-2");
    assert_eq!(index.len(), 1);
    assert!(!index.note_exists("db-test-1"));
}

#[test]
fn an_entry_that_is_put_in_is_alone_with_its_id_file_and_position() {
    let mut index = NotesIndex::new(NOW);
    index.upsert_note(record("a", "A", "a.md", 0, "h"), NOW);
    index.upsert_note(record("b", "B", "b.md", 1, "h"), NOW);
    index.upsert_note(record("c", "C", "c.md", 2, "h"), NOW);
    index.upsert_note(entry_for(&note("d", "D", "", None), "d.md", "", NOW), NOW);
    index.upsert_note(entry_for(&note("e", "E", "", None), "e.md", "", NOW), NOW);
    assert_eq!(index.len(), 5);
    // It has the id of one entry, the file of another and the position of a third.
    index.upsert_note(record("a", "A again", "b.md", 2, "h2"), NOW);
    let kept: Vec<String> = index.entries().iter().map(|e| e.id.clone()).collect();
    assert_eq!(kept, vec!["d", "e", "a"]);
    let a = index.get_note("a").unwrap();
    assert_eq!(a.title, "A again");
    assert_eq!(a.file_path, "b.md");
    assert_eq!(a.position, Some(2));
    // Entries without a position do not stand in each other's way.
    index.upsert_note(entry_for(&note("f", "F", "", None), "f.md", "", NOW), NOW);
    assert_eq!(index.len(), 4);
}

#[test]
fn index_made_again_from_notes_that_clash_keeps_the_later_ones() {
    let mut index = NotesIndex::new(NOW);
    let notes = vec![
        note("a", "A", "", Some(0)),
        note("b", "B", "", Some(0)),
        note("c", "C", "", Some(1)),
        note("d", "D", "", None),
    ];
    let names: Vec<String> = ["a.md", "b.md", "c.md", "c.md"].iter().map(|s| s.to_string()).collect();
    let texts = vec![String::new(), String::new(), String::new(), String::new()];
    index.rebuild(&notes, &names, &texts, NOW);
    let kept: Vec<String> = index.entries().iter().map(|e| e.id.clone()).collect();
    assert_eq!(kept, vec!["b", "d"]);
}

#[test]
fn entries_that_list_alike_stay_in_the_order_of_the_index() {
    let mut index = NotesIndex::new(NOW);
    for (id, file) in [("x", "x.md"), ("y", "y.md"), ("z", "z.md")] {
        index.upsert_note(entry_for(&note(id, "", "", None), file, "", NOW), NOW);
    }
    index.upsert_note(record("first", "", "first.md", 0, "h"), NOW);
    let ids: Vec<String> = index.get_all_notes().iter().map(|e| e.id.clone()).collect();
    assert_eq!(ids, vec!["first", "x", "y", "z"]);
    // An entry that is put in again stands last among those that list alike.
    index.upsert_note(entry_for(&note("x", "again", "", None), "x.md", "", NOW), NOW);
    let ids: Vec<String> = index.get_all_notes().iter().map(|e| e.id.clone()).collect();
    assert_eq!(ids, vec!["first", "y", "z", "x"]);
}
