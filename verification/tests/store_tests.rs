use blink::error::BlinkError;
use blink::note::{CreateNoteRequest, Note, UpdateNoteRequest};
use blink::service::{create_note, forget_note, track_loaded};
use blink::index::{entry_for, NotesIndex};
use blink::store::{count_words, lists_first, NoteStore, UpdateOutcome};
use blink::tracker::ModifiedStateTracker;

const NOW: &str = "2024-06-01T12:00:00+00:00";

fn note(id: &str, content: &str, created_at: &str, position: Option<i32>) -> Note {
    Note {
        id: id.to_string(),
        title: format!("Title of {}", id),
        content: content.to_string(),
        created_at: created_at.to_string(),
        updated_at: created_at.to_string(),
        tags: vec![],
        position,
    }
}

fn request(title: &str, content: &str, tags: &[&str]) -> CreateNoteRequest {
    CreateNoteRequest {
        title: title.to_string(),
        content: content.to_string(),
        tags: tags.iter().map(|t| t.to_string()).collect(),
    }
}

#[test]
fn store_gives_new_notes_the_next_positions() {
    let mut store = NoteStore::new();
    let first = store.create_note(&request("First", "one", &[]), "id-1", NOW).unwrap();
    let second = store.create_note(&request("Second", "two", &["x"]), "id-2", NOW).unwrap();
    let third = store.create_note(&request("Third", "three", &[]), "id-3", NOW).unwrap();
    assert_eq!(first.position, Some(0));
    assert_eq!(second.position, Some(1));
    assert_eq!(third.position, Some(2));
    assert_eq!(second.tags, vec!["x".to_string()]);
    assert_eq!(second.created_at, NOW);
    assert_eq!(second.updated_at, NOW);
    assert_eq!(store.len(), 3);
    assert_eq!(store.next_position(), Some(3));
}

#[test]
fn new_note_goes_after_the_highest_position() {
    let mut store = NoteStore::new();
    store.insert(note("a", "", "2024-01-01", Some(7)));
    store.insert(note("b", "", "2024-01-02", None));
    let made = store.create_note(&request("New", "", &[]), "c", NOW).unwrap();
    assert_eq!(made.position, Some(8));
}

#[test]
fn create_note_fails_where_the_id_is_taken_or_no_position_is_left() {
    let mut store = NoteStore::new();
    store.insert(note("a", "", "2024-01-01", Some(0)));
    match store.create_note(&request("Again", "", &[]), "a", NOW) {
        Err(BlinkError::Conflict(_)) => {}
        other => panic!("expected a conflict, got {:?}", other),
    }
    store.insert(note("last", "", "2024-01-01", Some(i32::MAX)));
    assert_eq!(store.next_position(), None);
    match store.create_note(&request("More", "", &[]), "b", NOW) {
        Err(BlinkError::Conflict(_)) => {}
        other => panic!("expected a conflict, got {:?}", other),
    }
    assert_eq!(store.len(), 2);
}

#[test]
fn create_note_draws_a_new_id() {
    let mut store = NoteStore::new();
    let a = create_note(&mut store, &request("A", "", &[]), NOW).unwrap();
    let b = create_note(&mut store, &request("B", "", &[]), NOW).unwrap();
    assert_ne!(a.id, b.id);
    assert!(uuid::Uuid::parse_str(&a.id).is_ok());
    assert_eq!(a.position, Some(0));
    assert_eq!(b.position, Some(1));
    assert!(store.contains(&a.id));
    assert!(store.contains(&b.id));
}

#[test]
fn update_with_unchanged_content_writes_nothing() {
    let mut store = NoteStore::new();
    let mut tracker = ModifiedStateTracker::new();
    store.insert(note("n1", "body", "2024-01-01", Some(0)));
    let change = UpdateNoteRequest { title: None, content: Some("body".to_string()), tags: None };

    // Nothing is known of the note yet: the first update is a write.
    match store.update_note(&tracker, "n1", &change, NOW) {
        UpdateOutcome::Changed { note, content_changed } => {
            assert!(content_changed);
            assert_eq!(note.content, "body");
            assert_eq!(note.updated_at, NOW);
            tracker.commit_save("n1", &note.content);
        }
        other => panic!("expected a change, got {:?}", other),
    }
    // The same content again: no write.
    match store.update_note(&tracker, "n1", &change, "2025-01-01T00:00:00+00:00") {
        UpdateOutcome::Unchanged(note) => {
            assert_eq!(note.content, "body");
            assert_eq!(note.updated_at, NOW);
        }
        other => panic!("expected no change, got {:?}", other),
    }
}

#[test]
fn update_takes_over_what_the_request_gives() {
    let mut store = NoteStore::new();
    let tracker = ModifiedStateTracker::new();
    store.insert(note("n1", "body", "2024-01-01", Some(4)));
    store.insert(note("n2", "other", "2024-01-02", Some(0)));
    let change = UpdateNoteRequest {
        title: Some("New title".to_string()),
        content: None,
        tags: Some(vec!["t".to_string()]),
    };
    match store.update_note(&tracker, "n1", &change, NOW) {
        UpdateOutcome::Changed { note, content_changed } => {
            assert!(!content_changed);
            assert_eq!(note.title, "New title");
            assert_eq!(note.content, "body");
            assert_eq!(note.tags, vec!["t".to_string()]);
            assert_eq!(note.position, Some(4));
            assert_eq!(note.created_at, "2024-01-01");
            assert_eq!(note.updated_at, NOW);
        }
        other => panic!("expected a change, got {:?}", other),
    }
    // The note at position zero is untouched.
    let zero = store.get("n2").unwrap();
    assert_eq!(zero.content, "other");
    assert_eq!(zero.position, Some(0));
    assert_eq!(zero.updated_at, "2024-01-02");

    let same = UpdateNoteRequest {
        title: Some("New title".to_string()),
        content: None,
        tags: Some(vec!["t".to_string()]),
    };
    assert!(matches!(store.update_note(&tracker, "n1", &same, NOW), UpdateOutcome::Unchanged(_)));
    let nothing = UpdateNoteRequest { title: None, content: None, tags: None };
    assert!(matches!(store.update_note(&tracker, "n1", &nothing, NOW), UpdateOutcome::Unchanged(_)));
    assert!(matches!(store.update_note(&tracker, "gone", &nothing, NOW), UpdateOutcome::Missing));
}

#[test]
fn updates_leave_the_note_at_position_zero_alone() {
    let mut store = NoteStore::new();
    let tracker = ModifiedStateTracker::new();
    store.insert(note("zero", "Zero content", "2024-01-01", Some(0)));
    store.insert(note("one", "One content", "2024-01-02", Some(1)));
    store.insert(note("two", "Two content", "2024-01-03", Some(2)));
    for (id, text) in [("one", "One edited"), ("two", "Two edited"), ("one", "One again")] {
        let change = UpdateNoteRequest { title: None, content: Some(text.to_string()), tags: None };
        let _ = store.update_note(&tracker, id, &change, NOW);
        let first = &store.sorted()[0];
        assert_eq!(first.id, "zero");
        assert_eq!(first.content, "Zero content");
        assert_eq!(first.position, Some(0));
    }
    assert_eq!(store.get("one").unwrap().content, "One again");
}

#[test]
fn reorder_gives_each_note_the_index_of_its_id() {
    let mut store = NoteStore::new();
    store.insert(note("a", "", "2024-01-01", Some(0)));
    store.insert(note("b", "", "2024-01-02", None));
    store.insert(note("c", "", "2024-01-03", Some(9)));
    store.reorder(&vec!["c".to_string(), "missing".to_string(), "a".to_string()]);
    assert_eq!(store.get("c").unwrap().position, Some(0));
    assert_eq!(store.get("a").unwrap().position, Some(2));
    assert_eq!(store.get("b").unwrap().position, None);

    store.reorder(&vec!["b".to_string(), "a".to_string(), "c".to_string(), "b".to_string()]);
    assert_eq!(store.get("b").unwrap().position, Some(3));
    assert_eq!(store.get("a").unwrap().position, Some(1));
    assert_eq!(store.get("c").unwrap().position, Some(2));
}

#[test]
fn notes_list_by_position_then_newest_first() {
    let mut store = NoteStore::new();
    store.insert(note("old", "", "2024-01-01T00:00:00+00:00", None));
    store.insert(note("at5", "", "2024-01-02T00:00:00+00:00", Some(5)));
    store.insert(note("new", "", "2024-03-01T00:00:00+00:00", None));
    store.insert(note("at0", "", "2024-01-04T00:00:00+00:00", Some(0)));
    store.insert(note("mid", "", "2024-02-01T00:00:00+00:00", None));
    let ids: Vec<String> = store.sorted().iter().map(|n| n.id.clone()).collect();
    assert_eq!(ids, vec!["at0", "at5", "new", "mid", "old"]);
    // The store itself keeps its order.
    assert_eq!(store.ids(), vec!["old", "at5", "new", "at0", "mid"]);

    let a = note("a", "", "2024-01-01", Some(1));
    let b = note("b", "", "2024-01-01", None);
    assert!(lists_first(&a, &b));
    assert!(!lists_first(&b, &a));
    assert!(lists_first(&b, &b));
}

#[test]
fn stats_count_notes_words_and_tags() {
    let mut store = NoteStore::new();
    let mut a = note("a", "one two  three\nfour", "2024-01-01", None);
    a.tags = vec!["x".to_string(), "y".to_string()];
    let mut b = note("b", "   ", "2024-01-01", None);
    b.tags = vec!["y".to_string(), "z".to_string(), "y".to_string()];
    store.insert(a);
    store.insert(b);
    store.insert(note("c", "\tlast\u{a0}word ", "2024-01-01", None));
    let stats = store.get_stats();
    assert_eq!(stats.total_notes, 3);
    assert_eq!(stats.total_words, 6);
    assert_eq!(stats.unique_tags, 3);

    assert_eq!(count_words(""), 0);
    assert_eq!(count_words("word"), 1);
    assert_eq!(count_words(" a b "), 2);
    for text in ["", "a", " a  b\tc\n", "\u{2003}x\u{2003}y", "one, two; three"] {
        assert_eq!(count_words(text), text.split_whitespace().count());
    }
}

#[test]
fn store_keeps_one_note_under_each_id() {
    let mut store = NoteStore::new();
    store.insert(note("a", "first", "2024-01-01", None));
    store.insert(note("b", "second", "2024-01-01", None));
    store.insert(note("a", "third", "2024-01-01", None));
    assert_eq!(store.len(), 2);
    assert_eq!(store.get("a").unwrap().content, "third");
    assert_eq!(store.ids(), vec!["a", "b"]);
    assert!(store.get("zz").is_none());

    let removed = store.remove("a").unwrap();
    assert_eq!(removed.content, "third");
    assert!(!store.contains("a"));
    assert!(store.remove("a").is_none());
    assert_eq!(store.len(), 1);
}

#[test]
fn deleting_a_note_forgets_it_everywhere() {
    let mut store = NoteStore::new();
    let mut index = NotesIndex::new(NOW);
    let mut tracker = ModifiedStateTracker::new();
    let n = note("a", "body", "2024-01-01T00:00:00Z", Some(0));
    index.upsert_note(entry_for(&n, "a.md", "text", NOW), NOW);
    store.insert(n);
    store.insert(note("b", "other", "2024-01-01T00:00:00Z", Some(1)));
    track_loaded(&mut tracker, &store);
    assert!(!tracker.has_content_changed("a", "body"));
    assert!(!tracker.has_content_changed("b", "other"));
    tracker.mark_modified("a");

    assert!(forget_note(&mut store, &mut index, &mut tracker, "a", NOW));
    assert!(!store.contains("a"));
    assert!(!index.note_exists("a"));
    assert!(!tracker.is_modified("a"));
    assert!(tracker.has_content_changed("a", "body"));
    assert!(store.contains("b"));
    assert!(!tracker.has_content_changed("b", "other"));

    assert!(!forget_note(&mut store, &mut index, &mut tracker, "a", NOW));
}

#[test]
fn tracking_a_load_drops_what_was_tracked_before() {
    let mut tracker = ModifiedStateTracker::new();
    tracker.commit_save("stale", "x");
    tracker.mark_modified("stale");
    let mut store = NoteStore::new();
    store.insert(note("a", "body", "2024-01-01", None));
    track_loaded(&mut tracker, &store);
    assert!(tracker.has_content_changed("stale", "x"));
    assert!(!tracker.is_modified("stale"));
    assert!(!tracker.has_content_changed("a", "body"));
    assert!(tracker.get_modified_notes().is_empty());
}

#[test]
fn notes_that_list_alike_stay_in_the_order_of_the_store() {
    let mut store = NoteStore::new();
    store.insert(note("late", "", "2024-03-01", None));
    store.insert(note("x", "", "2024-01-01", None));
    store.insert(note("two-a", "", "2024-01-05", Some(2)));
    store.insert(note("y", "", "2024-01-01", None));
    store.insert(note("two-b", "", "2024-01-02", Some(2)));
    store.insert(note("z", "", "2024-01-01", None));
    store.insert(note("one", "", "2024-01-09", Some(1)));
    let ids: Vec<String> = store.sorted().iter().map(|n| n.id.clone()).collect();
    assert_eq!(ids, vec!["one", "two-a", "two-b", "late", "x", "y", "z"]);
}
