use blink::frontmatter::split_frontmatter;
use blink::index::{entry_from, file_stem, NotesIndex};
use blink::note::{Note, NoteFrontmatter};
use blink::positions::{count_claims, detect_conflicts, holds, repair_positions};
use blink::storage::{FileStorageManager, LoadOutcome, NoteFile};
use blink::store::NoteStore;

const NOW: &str = "2024-06-01T12:00:00+00:00";
const THEN: &str = "2024-01-01T00:00:00+00:00";

fn create_test_note(id: &str, title: &str, content: &str, position: Option<i32>) -> Note {
    Note {
        id: id.to_string(),
        title: title.to_string(),
        content: content.to_string(),
        created_at: THEN.to_string(),
        updated_at: THEN.to_string(),
        tags: vec![],
        position,
    }
}

fn load(notes: &Vec<Note>) -> blink::storage::LoadOutcome {
    let files: Vec<NoteFile> = notes
        .iter()
        .enumerate()
        .map(|(i, n)| NoteFile { file_name: format!("file-{}.md", i), note: n.copy() })
        .collect();
    FileStorageManager::at("/notes").load_notes(&files, NOW)
}

#[test]
fn repair_gives_two_notes_at_zero_the_positions_zero_and_one() {
    let repair = repair_positions(&vec![Some(0), Some(0)]);
    assert_eq!(repair.positions, vec![Some(0), Some(1)]);
    assert_eq!(repair.displaced, vec![true, true]);
}

#[test]
fn repair_of_sound_positions_changes_nothing() {
    let positions = vec![Some(2), None, Some(0), Some(7)];
    let repair = repair_positions(&positions);
    assert_eq!(repair.positions, positions);
    assert_eq!(repair.displaced, vec![false, false, false, false]);
}

#[test]
fn repair_is_a_no_op_the_second_time() {
    let first = repair_positions(&vec![Some(3), Some(3), Some(-1), None, Some(0), Some(3)]);
    // The one claim that stands, on zero, is kept; the others go round it.
    assert_eq!(first.positions, vec![Some(1), Some(2), Some(3), None, Some(0), Some(4)]);
    assert_eq!(first.displaced, vec![true, true, true, false, false, true]);
    let second = repair_positions(&first.positions);
    assert_eq!(second.positions, first.positions);
    assert_eq!(second.displaced, vec![false, false, false, false, false, false]);
}

#[test]
fn repair_gives_the_lowest_free_position() {
    // 0 and 1 are kept by the first two notes; the contested claims get 2 and 3.
    let repair = repair_positions(&vec![Some(0), Some(1), Some(5), Some(5)]);
    assert_eq!(repair.positions, vec![Some(0), Some(1), Some(2), Some(3)]);
}

#[test]
fn repair_never_moves_a_claim_that_stands() {
    // Nobody else claims 1: the third note keeps it, and the second of the
    // two at zero goes past it.
    let repair = repair_positions(&vec![Some(0), Some(0), Some(1)]);
    assert_eq!(repair.positions, vec![Some(0), Some(2), Some(1)]);
    assert_eq!(repair.displaced, vec![true, true, false]);
    let repair = repair_positions(&vec![Some(-3), Some(0), Some(2), Some(2), Some(1)]);
    assert_eq!(repair.positions, vec![Some(2), Some(0), Some(3), Some(4), Some(1)]);
    assert_eq!(repair.displaced, vec![true, false, true, true, false]);
}

#[test]
fn load_leaves_a_note_with_a_standing_claim_as_it_was_read() {
    let notes = vec![
        create_test_note("a", "A", "X", Some(0)),
        create_test_note("b", "B", "Y", Some(0)),
        create_test_note("c", "C", "Z", Some(1)),
        create_test_note("d", "D", "W", None),
    ];
    let loaded = load(&notes);
    assert_eq!(loaded.notes.positions(), vec![Some(0), Some(2), Some(1), None]);
    let c = loaded.notes.get("c").unwrap();
    assert_eq!(c.position, Some(1));
    assert_eq!(c.updated_at, THEN);
    assert_eq!(c.content, "Z");
    let d = loaded.notes.get("d").unwrap();
    assert_eq!(d.position, None);
    assert_eq!(d.updated_at, THEN);
    let rewritten: Vec<String> = loaded.rewritten.iter().map(|n| n.id.clone()).collect();
    assert_eq!(rewritten, vec!["a", "b"]);
    assert!(loaded.rewritten.iter().all(|n| n.updated_at == NOW));
}

#[test]
fn repair_leaves_notes_without_position_alone() {
    let repair = repair_positions(&vec![None, None, Some(-5), None]);
    assert_eq!(repair.positions, vec![None, None, Some(0), None]);
    assert_eq!(repair.displaced, vec![false, false, true, false]);
    let empty = repair_positions(&vec![]);
    assert!(empty.positions.is_empty());
    assert!(empty.displaced.is_empty());
}

#[test]
fn conflicts_are_found_without_change() {
    let positions = vec![Some(0), Some(0), Some(-1), None, Some(4)];
    assert_eq!(detect_conflicts(&positions), vec![true, true, true, false, false]);
    assert_eq!(count_claims(&positions, 0), 2);
    assert_eq!(count_claims(&positions, 4), 1);
    assert_eq!(count_claims(&positions, 9), 0);
    assert!(holds(&positions, 4));
    assert!(!holds(&positions, 1));
}

#[test]
fn load_rewrites_the_files_of_repaired_notes() {
    let notes = vec![
        create_test_note("a", "A", "X", Some(0)),
        create_test_note("b", "B", "Y", Some(0)),
        create_test_note("c", "C", "Z", Some(4)),
    ];
    let loaded = load(&notes);
    let mut rewritten: Vec<(String, Option<i32>, String)> = loaded
        .rewritten
        .iter()
        .map(|n| (n.id.clone(), n.position, n.content.clone()))
        .collect();
    rewritten.sort();
    assert_eq!(
        rewritten,
        vec![
            ("a".to_string(), Some(0), "X".to_string()),
            ("b".to_string(), Some(1), "Y".to_string()),
        ]
    );
    assert_eq!(loaded.notes.get("c").unwrap().position, Some(4));
    assert_eq!(loaded.notes.get("c").unwrap().updated_at, THEN);
}

#[test]
fn load_gives_a_copied_file_an_id_of_its_own() {
    let notes = vec![
        create_test_note("same", "First", "One", Some(0)),
        create_test_note("same", "Copy", "Two", Some(1)),
    ];
    let loaded = load(&notes);
    assert_eq!(loaded.notes.len(), 2);
    assert!(loaded.rejected.is_empty());
    let all = loaded.notes.all();
    assert_eq!(all[0].id, "same");
    assert_eq!(all[0].content, "One");
    assert_ne!(all[1].id, "same");
    assert!(uuid::Uuid::parse_str(&all[1].id).is_ok());
    assert_eq!(all[1].content, "Two");
    assert_eq!(all[1].title, "Copy");
    assert_eq!(all[1].updated_at, NOW);
    assert_eq!(all[1].position, Some(1));
    assert_eq!(loaded.rewritten.len(), 1);
    assert_eq!(loaded.rewritten[0].id, all[1].id);
    assert_eq!(loaded.rewritten[0].content, "Two");
    // The copy stays in the file it came from.
    assert_eq!(loaded.files, vec!["file-0.md", "file-1.md"]);
}

#[test]
fn load_gives_each_file_of_one_id_a_note() {
    let notes = vec![
        create_test_note("same", "First", "One", Some(0)),
        create_test_note("other", "Other", "Four", Some(1)),
        create_test_note("same", "Second", "Two", Some(2)),
        create_test_note("same", "Third", "Three", None),
    ];
    let loaded = load(&notes);
    assert!(loaded.rejected.is_empty());
    assert_eq!(loaded.files, vec!["file-0.md", "file-1.md", "file-2.md", "file-3.md"]);
    let all = loaded.notes.all();
    assert_eq!(all.len(), 4);
    // The first file of the id keeps it and is left as it was read.
    assert_eq!(all[0].id, "same");
    assert_eq!(all[0].updated_at, THEN);
    assert_eq!(all[1].id, "other");
    assert_eq!(all[1].updated_at, THEN);
    // The later ones get ids of their own, and keep text and position.
    for (i, body, position) in [(2, "Two", Some(2)), (3, "Three", None)] {
        assert!(uuid::Uuid::parse_str(&all[i].id).is_ok());
        assert_eq!(all[i].content, body);
        assert_eq!(all[i].position, position);
        assert_eq!(all[i].created_at, THEN);
        assert_eq!(all[i].updated_at, NOW);
    }
    assert_ne!(all[2].id, all[3].id);
    let rewritten: Vec<String> = loaded.rewritten.iter().map(|n| n.id.clone()).collect();
    assert_eq!(rewritten, vec![all[2].id.clone(), all[3].id.clone()]);
}

#[test]
fn load_lists_a_note_once_that_got_a_new_id_and_a_new_position() {
    let notes = vec![
        create_test_note("same", "First", "One", Some(0)),
        create_test_note("same", "Copy", "Two", Some(0)),
        create_test_note("free", "Free", "Three", Some(5)),
    ];
    let loaded = load(&notes);
    let all = loaded.notes.all();
    assert_eq!(all.len(), 3);
    assert_eq!(loaded.notes.positions(), vec![Some(0), Some(1), Some(5)]);
    assert_eq!(all[0].id, "same");
    assert_eq!(all[0].content, "One");
    assert_ne!(all[1].id, "same");
    assert_eq!(all[1].content, "Two");
    assert_eq!(all[2].updated_at, THEN);
    let rewritten: Vec<(String, Option<i32>)> =
        loaded.rewritten.iter().map(|n| (n.id.clone(), n.position)).collect();
    assert_eq!(
        rewritten,
        vec![("same".to_string(), Some(0)), (all[1].id.clone(), Some(1))]
    );
    assert_eq!(loaded.files, vec!["file-0.md", "file-1.md", "file-2.md"]);
}

#[test]
fn load_of_nothing_is_an_empty_store() {
    let loaded = load(&vec![]);
    assert_eq!(loaded.notes.len(), 0);
    assert!(loaded.rewritten.is_empty());
    assert!(loaded.rejected.is_empty());
}

#[test]
fn store_repair_stamps_the_displaced_notes() {
    let mut store = NoteStore::new();
    store.insert(create_test_note("a", "A", "X", Some(3)));
    store.insert(create_test_note("b", "B", "Y", None));
    store.insert(create_test_note("c", "C", "Z", Some(3)));
    let rewritten = store.repair(NOW);
    assert_eq!(rewritten.len(), 2);
    assert_eq!(store.positions(), vec![Some(0), None, Some(1)]);
    assert_eq!(store.get("a").unwrap().updated_at, NOW);
    assert_eq!(store.get("b").unwrap().updated_at, THEN);
    assert_eq!(store.get("c").unwrap().updated_at, NOW);
    assert!(store.repair(NOW).is_empty());
}

#[test]
fn test_database_ordering_vs_application_ordering() {
    let mut index = NotesIndex::new(NOW);
    let rows = [
        ("order-2", "Should be Third", "third.md", 2, "hash3"),
        ("order-0", "Should be First", "first.md", 0, "hash1"),
        ("order-1", "Should be Second", "second.md", 1, "hash2"),
    ];
    for (id, title, file, position, hash) in rows {
        let n = create_test_note(id, title, "", Some(position));
        index.upsert_note(entry_from(&n, file, NOW.to_string(), NOW.to_string(), hash.to_string()), NOW);
    }
    let db_notes = index.get_all_notes();

    assert_eq!(db_notes.len(), 3);
    assert_eq!(db_notes[0].position, Some(0));
    assert_eq!(db_notes[0].title, "Should be First");
    assert_eq!(db_notes[1].position, Some(1));
    assert_eq!(db_notes[1].title, "Should be Second");
    assert_eq!(db_notes[2].position, Some(2));
    assert_eq!(db_notes[2].title, "Should be Third");
}

/// Writes a metadata block as YAML.
fn to_yaml(f: &NoteFrontmatter) -> String {
    let mut map = serde_yaml::Mapping::new();
    map.insert("id".into(), f.id.clone().into());
    map.insert("title".into(), f.title.clone().into());
    map.insert("created_at".into(), f.created_at.clone().into());
    map.insert("updated_at".into(), f.updated_at.clone().into());
    let tags: Vec<serde_yaml::Value> = f.tags.iter().map(|t| t.clone().into()).collect();
    map.insert("tags".into(), serde_yaml::Value::Sequence(tags));
    if let Some(p) = f.position {
        map.insert("position".into(), serde_yaml::Value::Number(p.into()));
    }
    serde_yaml::to_string(&serde_yaml::Value::Mapping(map)).unwrap()
}

/// Reads a metadata block from YAML.
fn from_yaml(text: &str) -> Option<NoteFrontmatter> {
    let value: serde_yaml::Value = serde_yaml::from_str(text).ok()?;
    let text_of = |key: &str| value.get(key)?.as_str().map(|s| s.to_string());
    let tags = value
        .get("tags")?
        .as_sequence()?
        .iter()
        .map(|t| t.as_str().map(|s| s.to_string()))
        .collect::<Option<Vec<String>>>()?;
    let position = match value.get("position") {
        Some(p) => Some(p.as_i64()? as i32),
        None => None,
    };
    Some(NoteFrontmatter {
        id: text_of("id")?,
        title: text_of("title")?,
        created_at: text_of("created_at")?,
        updated_at: text_of("updated_at")?,
        tags,
        position,
    })
}

/// A notes directory held in memory: the name and the text of each file,
/// in the order of the names, and the index.
struct Directory {
    storage: FileStorageManager,
    index: NotesIndex,
    files: Vec<(String, String)>,
}

impl Directory {
    fn new() -> Directory {
        Directory {
            storage: FileStorageManager::at("/notes"),
            index: NotesIndex::new(NOW),
            files: Vec::new(),
        }
    }

    fn save_note(&mut self, note: &Note) {
        let write = self.storage.plan_save(&self.index, note, &to_yaml(&note.frontmatter())).unwrap();
        FileStorageManager::record_save(&mut self.index, note, &write, NOW);
        self.files.retain(|(name, _)| *name != write.file_name);
        self.files.push((write.file_name.clone(), write.text.clone()));
        self.files.sort();
    }

    fn save_all_notes(&mut self, notes: &Vec<Note>) {
        for note in notes {
            self.save_note(note);
        }
    }

    fn load_notes(&mut self) -> LoadOutcome {
        let mut parsed = Vec::new();
        for (name, text) in &self.files {
            let frontmatter = split_frontmatter(text).and_then(|parts| from_yaml(&parts.metadata));
            let note = self
                .storage
                .parse_markdown_note(text, &file_stem(name), frontmatter.as_ref(), NOW)
                .unwrap();
            parsed.push(NoteFile { file_name: name.clone(), note });
        }
        let outcome = self.storage.load_notes(&parsed, NOW);
        for note in &outcome.rewritten {
            self.save_note(note);
        }
        outcome
    }
}

#[test]
fn test_position_0_with_valid_note() {
    let notes = vec![
        create_test_note("note-0", "First Note", "Content of first note", Some(0)),
        create_test_note("note-1", "Second Note", "Content of second note", Some(1)),
        create_test_note("note-2", "Third Note", "Content of third note", Some(2)),
    ];
    let mut directory = Directory::new();
    directory.save_all_notes(&notes);
    let loaded = directory.load_notes();
    let notes_vec = loaded.notes.sorted();

    assert_eq!(notes_vec.len(), 3);
    assert_eq!(notes_vec[0].position, Some(0), "Note at index 0 should have position 0");
    assert_eq!(notes_vec[0].title, "First Note", "Note at index 0 should be 'First Note'");
    assert_eq!(
        notes_vec[0].content, "Content of first note",
        "Position 0 note content should be correct"
    );

    let retrieved_note_0 = loaded.notes.get("note-0").unwrap();
    assert_eq!(retrieved_note_0.title, "First Note");
    assert_eq!(retrieved_note_0.content, "Content of first note");
    assert_eq!(retrieved_note_0.position, Some(0));
    assert!(loaded.rewritten.is_empty());
    assert_eq!(loaded.files, vec!["first-note.md", "second-note.md", "third-note.md"]);
}

#[test]
fn test_position_0_vs_none_handling() {
    let notes = vec![
        create_test_note("note-zero", "Note with Position 0", "Content 0", Some(0)),
        create_test_note("note-none", "Note with No Position", "Content None", None),
    ];
    let mut directory = Directory::new();
    directory.save_all_notes(&notes);
    let loaded = directory.load_notes();
    let notes_vec = loaded.notes.sorted();

    assert_eq!(notes_vec[0].position, Some(0), "First note should have position 0");
    assert_eq!(notes_vec[0].title, "Note with Position 0");
    assert_eq!(notes_vec[1].position, None, "Second note should have position None");
    assert_eq!(notes_vec[1].title, "Note with No Position");
}

#[test]
fn test_position_conflict_at_zero() {
    let notes = vec![
        create_test_note("note-first", "First Claim to 0", "First content", Some(0)),
        create_test_note("note-second", "Second Claim to 0", "Second content", Some(0)),
    ];
    let mut directory = Directory::new();
    directory.save_all_notes(&notes);
    let loaded = directory.load_notes();
    let positions: Vec<Option<i32>> = loaded.notes.all().iter().map(|n| n.position).collect();

    assert_ne!(positions[0], positions[1], "Positions should be different after conflict resolution");
    let has_zero = positions.iter().any(|&p| p == Some(0));
    let has_one = positions.iter().any(|&p| p == Some(1));
    assert!(has_zero, "One note should have position 0");
    assert!(has_one, "One note should have position 1");

    // The files are taken in the order of their names.
    let first = loaded.notes.get("note-first").unwrap();
    let second = loaded.notes.get("note-second").unwrap();
    assert_eq!(first.position, Some(0));
    assert_eq!(second.position, Some(1));
    assert_eq!(first.content, "First content");
    assert_eq!(second.content, "Second content");
    assert_eq!(second.updated_at, NOW);
    assert_eq!(loaded.rewritten.len(), 2);

    // A second load of what the first one wrote changes nothing.
    let again = directory.load_notes();
    assert!(again.rewritten.is_empty());
    assert!(again.rejected.is_empty());
    assert_eq!(again.files, loaded.files);
    let before = loaded.notes.all();
    let after = again.notes.all();
    assert_eq!(after.len(), before.len());
    for (a, b) in after.iter().zip(before.iter()) {
        assert_eq!(
            (&a.id, &a.title, &a.content, &a.tags, a.position, &a.updated_at, &a.created_at),
            (&b.id, &b.title, &b.content, &b.tags, b.position, &b.updated_at, &b.created_at)
        );
    }
}

#[test]
fn test_selecting_different_notes_position_0_consistency() {
    let notes = vec![
        create_test_note("note-0", "Position Zero Note", "This should always be at position 0", Some(0)),
        create_test_note("note-1", "Position One Note", "This is at position 1", Some(1)),
        create_test_note("note-2", "Position Two Note", "This is at position 2", Some(2)),
    ];
    let mut directory = Directory::new();
    directory.save_all_notes(&notes);
    let loaded = directory.load_notes();
    let all = loaded.notes.all();
    let position_0_note =
        all.iter().find(|n| n.position == Some(0)).expect("Should have a note with position 0");
    let expected_position_0_content = position_0_note.content.clone();

    for note_id in loaded.notes.ids() {
        let selected_note = loaded.notes.get(&note_id).unwrap();
        let sorted_notes = loaded.notes.sorted();
        let current_position_0_note = &sorted_notes[0];
        assert_eq!(
            current_position_0_note.position,
            Some(0),
            "After selecting {}, position 0 should still be position 0",
            selected_note.title
        );
        assert_eq!(
            current_position_0_note.content, expected_position_0_content,
            "After selecting {}, position 0 content should remain unchanged",
            selected_note.title
        );
    }
    assert_eq!(expected_position_0_content, "This should always be at position 0");
}

#[test]
fn test_database_vs_file_system_consistency() {
    let notes = vec![
        create_test_note("db-note-0", "Database Note 0", "DB content 0", Some(0)),
        create_test_note("db-note-1", "Database Note 1", "DB content 1", Some(1)),
    ];
    let mut directory = Directory::new();
    for note in &notes {
        directory.save_note(note);
    }
    let db_notes = directory.index.get_all_notes();
    let file_notes = directory.load_notes().notes.all();

    let db_pos_0 = db_notes.iter().find(|n| n.position == Some(0)).unwrap();
    let file_pos_0 = file_notes.iter().find(|n| n.position == Some(0)).unwrap();
    assert_eq!(db_pos_0.id, file_pos_0.id, "Position 0 IDs should match between DB and file");
    assert_eq!(db_pos_0.title, file_pos_0.title, "Position 0 titles should match between DB and file");
    assert_eq!(db_pos_0.id, "db-note-0");
    assert_eq!(db_pos_0.file_path, "database-note-0.md");
}

#[test]
fn test_negative_position_handling() {
    let notes = vec![
        create_test_note("negative-pos", "Negative Position Note", "Should be fixed", Some(-1)),
        create_test_note("zero-pos", "Zero Position Note", "Should stay at 0", Some(0)),
    ];
    let mut directory = Directory::new();
    for note in &notes {
        directory.save_note(note);
    }
    let loaded = directory.load_notes();
    for note in loaded.notes.all() {
        if let Some(pos) = note.position {
            assert!(pos >= 0, "Note {} has negative position {}", note.id, pos);
        }
    }
    let positions: Vec<i32> = loaded.notes.all().iter().filter_map(|n| n.position).collect();
    assert!(positions.contains(&0), "Should have a note at position 0");

    // The claim on zero stands; the negative one gets the lowest position
    // that is left.
    let negative = loaded.notes.get("negative-pos").unwrap();
    let zero = loaded.notes.get("zero-pos").unwrap();
    assert_eq!(zero.position, Some(0));
    assert_eq!(zero.updated_at, THEN);
    assert_eq!(zero.content, "Should stay at 0");
    assert_eq!(negative.position, Some(1));
    assert_eq!(negative.updated_at, NOW);
    assert_eq!(negative.content, "Should be fixed");
    assert_eq!(loaded.rewritten.len(), 1);
    assert_eq!(loaded.rewritten[0].id, "negative-pos");
}

#[test]
fn test_note_creation_position_assignment() {
    let existing_note = create_test_note("existing", "Existing Note", "Already here", Some(0));
    let mut directory = Directory::new();
    directory.save_all_notes(&vec![existing_note]);

    let loaded_notes = directory.load_notes().notes.all();
    let max_position = loaded_notes.iter().filter_map(|n| n.position).max().unwrap_or(-1);
    let new_note = create_test_note("new-note", "New Note", "Just created", Some(max_position + 1));

    let mut updated_notes = loaded_notes;
    updated_notes.push(new_note);
    directory.save_all_notes(&updated_notes);

    let sorted_notes = directory.load_notes().notes.sorted();
    assert_eq!(sorted_notes.len(), 2);
    assert_eq!(sorted_notes[0].position, Some(0));
    assert_eq!(sorted_notes[0].title, "Existing Note");
    assert_eq!(sorted_notes[1].position, Some(1));
    assert_eq!(sorted_notes[1].title, "New Note");
}

#[test]
fn test_position_0_content_corruption() {
    let notes = vec![
        create_test_note("content-0", "Note Zero", "CONTENT_ZERO_UNIQUE_MARKER_12345", Some(0)),
        create_test_note("content-1", "Note One", "CONTENT_ONE_DIFFERENT_MARKER_67890", Some(1)),
        create_test_note("content-2", "Note Two", "CONTENT_TWO_ANOTHER_MARKER_ABCDE", Some(2)),
    ];
    let mut directory = Directory::new();
    directory.save_all_notes(&notes);
    let expected_position_0_content = "CONTENT_ZERO_UNIQUE_MARKER_12345";

    for _round in 0..10 {
        let loaded_notes = directory.load_notes().notes;
        for note in loaded_notes.all() {
            let sorted_notes = loaded_notes.sorted();
            let position_0_note = &sorted_notes[0];
            if position_0_note.content != expected_position_0_content {
                panic!("Position 0 content corruption detected!");
            }
            assert_eq!(
                position_0_note.id, "content-0",
                "Position 0 note ID changed after selecting {}",
                note.title
            );
        }
    }
}

#[test]
fn test_frontend_command_sequence() {
    let notes = vec![
        create_test_note("frontend-0", "Frontend Note 0", "Frontend content 0", Some(0)),
        create_test_note("frontend-1", "Frontend Note 1", "Frontend content 1", Some(1)),
        create_test_note("frontend-2", "Frontend Note 2", "Frontend content 2", Some(2)),
    ];
    let mut directory = Directory::new();
    directory.save_all_notes(&notes);
    let loaded_notes = directory.load_notes().notes;
    let initial_notes_list = loaded_notes.sorted();
    let original_position_0_content = initial_notes_list[0].content.clone();

    for i in 0..initial_notes_list.len() {
        let selected_note_id = &initial_notes_list[i].id;
        let selected_note = loaded_notes.get(selected_note_id).unwrap();
        let refreshed_notes_list = loaded_notes.sorted();

        assert_eq!(
            refreshed_notes_list[0].content, original_position_0_content,
            "Position 0 content changed after selecting note {} ({})",
            i, selected_note.title
        );
        assert_eq!(
            refreshed_notes_list[0].id, initial_notes_list[0].id,
            "Position 0 ID changed after selecting note {} ({})",
            i, selected_note.title
        );
    }
    assert_eq!(original_position_0_content, "Frontend content 0");
}

#[test]
fn index_made_from_a_load_lists_the_notes_as_the_store_does() {
    let notes = vec![
        create_test_note("note-b", "B", "Content B", Some(1)),
        create_test_note("note-a", "A", "Content A", Some(0)),
        create_test_note("note-c", "C", "Content C", None),
    ];
    let loaded = load(&notes);
    let all = loaded.notes.all();
    let texts: Vec<String> = all.iter().map(|n| n.content.clone()).collect();
    let mut index = NotesIndex::new(NOW);
    index.rebuild(&all, &loaded.files, &texts, NOW);

    let from_index: Vec<(String, Option<i32>)> =
        index.get_all_notes().iter().map(|e| (e.id.clone(), e.position)).collect();
    let from_store: Vec<(String, Option<i32>)> =
        loaded.notes.sorted().iter().map(|n| (n.id.clone(), n.position)).collect();
    assert_eq!(from_index, from_store);
    assert_eq!(from_index[0], ("note-a".to_string(), Some(0)));
    assert_eq!(index.file_path_of("note-b"), Some("file-0.md".to_string()));
}
