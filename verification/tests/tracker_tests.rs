use blink::note::Note;
use blink::tracker::{DirtyTracker, ModifiedStateTracker};

fn note(id: &str, content: &str) -> Note {
    Note {
        id: id.to_string(),
        title: "T".to_string(),
        content: content.to_string(),
        created_at: "2024-01-01T00:00:00+00:00".to_string(),
        updated_at: "2024-01-01T00:00:00+00:00".to_string(),
        tags: vec![],
        position: None,
    }
}

#[test]
fn dirty_tracker_test_content_hash() {
    let content1 = "Hello, world!";
    let content2 = "Hello, world!";
    let content3 = "Hello, world!!";

    let hash1 = DirtyTracker::compute_content_hash(content1);
    let hash2 = DirtyTracker::compute_content_hash(content2);
    let hash3 = DirtyTracker::compute_content_hash(content3);

    assert_eq!(hash1, hash2, "Same content should produce same hash");
    assert_ne!(hash1, hash3, "Different content should produce different hash");
}

#[test]
fn modified_state_tracker_test_content_hash() {
    let content1 = "Hello, world!";
    let content2 = "Hello, world!";
    let content3 = "Hello, world!!";

    let hash1 = ModifiedStateTracker::compute_content_hash(content1);
    let hash2 = ModifiedStateTracker::compute_content_hash(content2);
    let hash3 = ModifiedStateTracker::compute_content_hash(content3);

    assert_eq!(hash1, hash2, "Same content should produce same hash");
    assert_ne!(hash1, hash3, "Different content should produce different hash");
}

#[test]
fn content_hash_is_sha256_in_lower_case_hex() {
    assert_eq!(
        ModifiedStateTracker::compute_content_hash(""),
        "e3b0c44298fc1c149afbf4c8996fb92427ae41e4649b934ca495991b7852b855"
    );
    assert_eq!(
        ModifiedStateTracker::compute_content_hash("abc"),
        "ba7816bf8f01cfea414140de5dae2223b00361a396177a9cb410ff61f20015ad"
    );
    assert_eq!(
        DirtyTracker::compute_content_hash("abc"),
        "ba7816bf8f01cfea414140de5dae2223b00361a396177a9cb410ff61f20015ad"
    );
}

#[test]
fn test_dirty_tracking() {
    let mut tracker = DirtyTracker::new();
    let note_id = "test-note-1";

    assert!(!tracker.is_dirty(note_id));

    tracker.mark_dirty(note_id);
    assert!(tracker.is_dirty(note_id));

    tracker.clear_dirty(note_id);
    assert!(!tracker.is_dirty(note_id));
}

#[test]
fn test_modified_tracking() {
    let mut tracker = ModifiedStateTracker::new();
    let note_id = "test-note-1";

    assert!(!tracker.is_modified(note_id));

    tracker.mark_modified(note_id);
    assert!(tracker.is_modified(note_id));

    tracker.clear_modified(note_id);
    assert!(!tracker.is_modified(note_id));
}

#[test]
fn dirty_tracker_test_content_change_detection() {
    let mut tracker = DirtyTracker::new();
    let note_id = "test-note-1";
    let content1 = "Initial content";
    let content2 = "Modified content";

    assert!(tracker.has_content_changed(note_id, content1));

    tracker.update_content_hash(note_id, content1);

    assert!(!tracker.has_content_changed(note_id, content1));
    assert!(tracker.has_content_changed(note_id, content2));
}

#[test]
fn modified_state_tracker_test_content_change_detection() {
    let mut tracker = ModifiedStateTracker::new();
    let note_id = "test-note-1";
    let content1 = "Initial content";
    let content2 = "Modified content";

    assert!(tracker.has_content_changed(note_id, content1));

    tracker.update_content_hash(note_id, content1);

    assert!(!tracker.has_content_changed(note_id, content1));
    assert!(tracker.has_content_changed(note_id, content2));
}

#[test]
fn second_save_of_the_same_content_is_unchanged() {
    let mut tracker = ModifiedStateTracker::new();
    tracker.mark_modified("n1");
    assert!(tracker.has_content_changed("n1", "body"));
    tracker.commit_save("n1", "body");
    assert!(!tracker.has_content_changed("n1", "body"));
    assert!(!tracker.is_modified("n1"));
    tracker.commit_save("n1", "body");
    assert!(!tracker.has_content_changed("n1", "body"));
    assert!(tracker.has_content_changed("n1", "body "));
}

#[test]
fn failed_save_leaves_the_tracker_as_it_was() {
    let mut tracker = ModifiedStateTracker::new();
    tracker.commit_save("n1", "old");
    tracker.mark_modified("n1");
    // The save of "new" fails: nothing is told to the tracker.
    assert!(tracker.has_content_changed("n1", "new"));
    assert!(tracker.is_modified("n1"));
    assert!(!tracker.has_content_changed("n1", "old"));
}

#[test]
fn initialize_and_remove_keep_the_tracker_in_step_with_the_notes() {
    let mut tracker = ModifiedStateTracker::new();
    let n = note("n1", "body");
    tracker.mark_modified("n1");
    tracker.initialize_note(&n);
    assert!(!tracker.is_modified("n1"));
    assert!(!tracker.has_content_changed("n1", "body"));

    tracker.mark_modified("n1");
    tracker.remove_note("n1");
    assert!(!tracker.is_modified("n1"));
    assert!(tracker.has_content_changed("n1", "body"));
}

#[test]
fn modified_notes_are_listed_once() {
    let mut tracker = ModifiedStateTracker::new();
    tracker.mark_modified("a");
    tracker.mark_modified("b");
    tracker.mark_modified("a");
    let mut ids = tracker.get_modified_notes();
    ids.sort();
    assert_eq!(ids, vec!["a".to_string(), "b".to_string()]);

    tracker.clear_modified("a");
    assert_eq!(tracker.get_modified_notes(), vec!["b".to_string()]);

    tracker.clear_all();
    assert!(tracker.get_modified_notes().is_empty());
    assert!(tracker.has_content_changed("a", ""));

    let mut dirty = DirtyTracker::new();
    dirty.mark_dirty("x");
    dirty.initialize_note(&note("y", "body"));
    assert_eq!(dirty.get_dirty_notes(), vec!["x".to_string()]);
    dirty.remove_note("x");
    assert!(dirty.get_dirty_notes().is_empty());
    dirty.clear_all();
    assert!(dirty.has_content_changed("y", "body"));
}

#[test]
fn notes_changed_behind_the_back_are_found() {
    let mut tracker = ModifiedStateTracker::new();
    tracker.commit_save("a", "body a");
    tracker.commit_save("b", "body b");
    let on_disk = vec![
        note("a", "body a"),
        note("b", "edited elsewhere"),
        note("c", "never seen"),
    ];
    assert_eq!(tracker.drifted(&on_disk), vec!["b".to_string()]);
    tracker.initialize_note(&on_disk[1]);
    assert!(tracker.drifted(&on_disk).is_empty());
    assert!(ModifiedStateTracker::new().drifted(&on_disk).is_empty());
}

#[test]
fn hashes_are_compared_as_texts() {
    let mut tracker = ModifiedStateTracker::new();
    assert!(tracker.hash_changed("a", "abc"));
    tracker.record_hash("a", "abc".to_string());
    assert!(!tracker.hash_changed("a", "abc"));
    assert!(tracker.hash_changed("a", "abd"));
    assert!(tracker.hash_changed("b", "abc"));
    tracker.record_hash("a", ModifiedStateTracker::compute_content_hash("body"));
    assert!(!tracker.has_content_changed("a", "body"));
}
