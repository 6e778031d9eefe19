use blink::error::BlinkError;
use blink::note::Note;
use blink::service::{create_window, windows_to_adopt};
use blink::store::NoteStore;
use blink::window::{
    adopt_hybrid_window, begin_toggle, drag_ghost_url, drag_ghost_url_for, end_toggle,
    ghost_window_label,
    hybrid_label_for, hybrid_window_label, label_note_id, note_window_label, plan_main_shade,
    registry_from,
    save_window_position, save_window_size, window_label_for, window_title, window_url,
    windows_to_gather, CreateDetachedWindowRequest, DetachedWindow, LiveWindow, WindowAction,
    WindowRegistry,
};

fn request(note_id: &str, x: Option<i32>, y: Option<i32>) -> CreateDetachedWindowRequest {
    CreateDetachedWindowRequest { note_id: note_id.to_string(), x, y, width: None, height: None }
}

fn window(note_id: &str, label: &str, position: (i32, i32)) -> DetachedWindow {
    DetachedWindow {
        note_id: note_id.to_string(),
        window_label: label.to_string(),
        position,
        size: (640, 480),
        always_on_top: false,
        opacity: 100,
        is_shaded: false,
        original_height: None,
    }
}

fn labels(list: &[&str]) -> Vec<String> {
    list.iter().map(|l| l.to_string()).collect()
}

fn store_of(ids: &[&str]) -> NoteStore {
    let mut store = NoteStore::new();
    for id in ids {
        store.insert(Note {
            id: id.to_string(),
            title: String::new(),
            content: String::new(),
            created_at: String::new(),
            updated_at: String::new(),
            tags: vec![],
            position: None,
        });
    }
    store
}

#[test]
fn second_window_is_moved_off_the_first() {
    let notes = store_of(&["n1", "n2"]);
    let mut registry = WindowRegistry::new();
    let first = create_window(&notes, &mut registry, &request("n1", Some(100), Some(100)), None).unwrap();
    assert_eq!(first.position, (100, 100));
    assert_eq!(first.window_label, "note-n1");

    let second = create_window(&notes, &mut registry, &request("n2", Some(105), Some(105)), None).unwrap();
    assert_eq!(second.position, (130, 130));
    assert_ne!(second.position, first.position);
    assert_ne!(second.position, (105, 105));
    assert_eq!(second.window_label, "note-n2");
    assert_eq!(second.size, (800, 600));
    assert_eq!(registry.len(), 2);
    assert_eq!(registry.get("note-n2").unwrap().position, (130, 130));
}

#[test]
fn window_far_from_the_others_stays_where_it_was_asked_for() {
    let mut registry = WindowRegistry::new();
    registry.insert(window("n1", "note-n1", (100, 100)));
    let far = registry.plan_window(&request("n2", Some(150), Some(100)), true, None).unwrap();
    assert_eq!(far.position, (150, 100));
    let near = registry.plan_window(&request("n2", Some(149), Some(51)), true, None).unwrap();
    assert_eq!(near.position, (130, 130));
    let same = registry.plan_window(&request("n2", Some(100), Some(100)), true, None).unwrap();
    assert_eq!(same.position, (130, 130));
    let one_axis = registry.plan_window(&request("n2", Some(100), Some(150)), true, None).unwrap();
    assert_eq!(one_axis.position, (100, 150));
    let edge = registry.plan_window(&request("n2", Some(i32::MAX), Some(i32::MAX)), true, None).unwrap();
    assert_eq!(edge.position, (i32::MAX, i32::MAX));
    // At the edge of what a coordinate can hold the step stops there.
    registry.insert(window("n3", "note-n3", (i32::MAX - 10, 500)));
    let held = registry.plan_window(&request("n2", Some(i32::MAX - 20), Some(510)), true, None).unwrap();
    assert_eq!(held.position, (i32::MAX, 530));
}

#[test]
fn window_geometry_comes_from_the_request_then_the_saved_record_then_the_defaults() {
    let registry = WindowRegistry::new();
    let mut saved = window("n1", "note-n1", (300, 400));
    saved.size = (500, 350);

    let asked = CreateDetachedWindowRequest {
        note_id: "n1".to_string(),
        x: Some(10),
        y: Some(20),
        width: Some(900),
        height: None,
    };
    let w = registry.plan_window(&asked, true, Some(&saved)).unwrap();
    assert_eq!(w.position, (10, 20));
    assert_eq!(w.size, (900, 350));

    let half = request("n1", Some(10), None);
    let w = registry.plan_window(&half, true, Some(&saved)).unwrap();
    assert_eq!(w.position, (300, 400));
    assert_eq!(w.size, (500, 350));

    let w = registry.plan_window(&request("n1", None, None), true, None).unwrap();
    assert_eq!(w.position, (100, 100));
    assert_eq!(w.size, (800, 600));
    assert!(!w.always_on_top);
    assert_eq!(w.opacity, 100);
    assert!(!w.is_shaded);
    assert_eq!(w.original_height, None);
    assert_eq!(w.note_id, "n1");
}

#[test]
fn default_place_moves_with_the_number_of_windows() {
    let mut registry = WindowRegistry::new();
    registry.insert(window("a", "note-a", (1000, 1000)));
    registry.insert(window("b", "note-b", (2000, 2000)));
    let w = registry.plan_window(&request("c", None, None), true, None).unwrap();
    assert_eq!(w.position, (160, 160));

    // One window at the origin: the default place is one step away from it.
    let mut registry = WindowRegistry::new();
    registry.insert(window("a", "note-a", (100, 100)));
    let w = registry.plan_window(&request("c", None, None), true, None).unwrap();
    assert_eq!(w.position, (130, 130));
    // The first window that is too close decides.
    registry.insert(window("b", "note-b", (120, 120)));
    let w = registry.plan_window(&request("c", Some(115), Some(115)), true, None).unwrap();
    assert_eq!(w.position, (130, 130));
    assert_eq!(registry.crowding_window((115, 115)), Some((100, 100)));
    assert_eq!(registry.crowding_window((165, 165)), Some((120, 120)));
    assert_eq!(registry.crowding_window((170, 170)), None);
}

#[test]
fn window_needs_its_note_and_no_window_yet() {
    let notes = store_of(&["n1"]);
    let mut registry = WindowRegistry::new();
    match create_window(&notes, &mut registry, &request("gone", None, None), None) {
        Err(BlinkError::NotFound(m)) => assert_eq!(m, "Note not found"),
        other => panic!("expected not found, got {:?}", other),
    }
    assert_eq!(registry.len(), 0);
    create_window(&notes, &mut registry, &request("n1", None, None), None).unwrap();
    match create_window(&notes, &mut registry, &request("n1", Some(900), Some(900)), None) {
        Err(e) => {
            assert!(matches!(e, BlinkError::Conflict(_)));
            assert_eq!(e.message(), "Conflict: Window already exists for this note");
        }
        other => panic!("expected a conflict, got {:?}", other),
    }
    assert_eq!(registry.len(), 1);

    // A window left from dragging does not count as the note's window.
    let mut registry = WindowRegistry::new();
    registry.insert(window("n1", "hybrid-drag-n1", (0, 0)));
    assert!(!registry.has_window_for("n1"));
    assert!(create_window(&notes, &mut registry, &request("n1", Some(500), Some(500)), None).is_ok());
    assert!(registry.has_window_for("n1"));
}

#[test]
fn window_closed_by_the_system_is_dropped_by_the_next_reconciliation() {
    let mut registry = WindowRegistry::new();
    registry.insert(window("n1", "note-n1", (100, 100)));
    registry.insert(window("n2", "note-n2", (300, 300)));
    // The system closed the window of n1 without telling anyone.
    let live = labels(&["main", "note-n2"]);
    let truth = registry.reconcile(&live);
    assert_eq!(truth.orphaned, labels(&["note-n1"]));
    assert_eq!(truth.consistent, labels(&["note-n2"]));
    assert!(truth.untracked.is_empty());
    assert!(!registry.contains("note-n1"));
    assert!(registry.contains("note-n2"));
    assert_eq!(registry.len(), 1);

    let again = registry.reconcile(&live);
    assert!(again.orphaned.is_empty());
    assert_eq!(registry.len(), 1);
}

#[test]
fn truth_tells_the_records_and_the_live_windows_apart() {
    let mut registry = WindowRegistry::new();
    registry.insert(window("a", "note-a", (0, 0)));
    registry.insert(window("b", "hybrid-drag-b", (100, 0)));
    registry.insert(window("c", "note-c", (200, 0)));
    let live = labels(&["main", "note-c", "note-x", "hybrid-drag-y", "drag-ghost-17", "other"]);
    let truth = registry.window_state_truth(&live);
    assert_eq!(truth.consistent, labels(&["note-c"]));
    assert_eq!(truth.orphaned, labels(&["note-a", "hybrid-drag-b"]));
    assert_eq!(truth.stale_hybrids, labels(&["hybrid-drag-b"]));
    assert_eq!(truth.untracked, labels(&["note-x", "hybrid-drag-y"]));
    assert_eq!(registry.len(), 3);
}

#[test]
fn stale_records_are_counted_and_dropped() {
    let mut registry = WindowRegistry::new();
    registry.insert(window("a", "note-a", (0, 0)));
    registry.insert(window("b", "note-b", (100, 0)));
    registry.insert(window("c", "note-c", (200, 0)));
    assert_eq!(registry.cleanup_stale_windows(&labels(&["note-b"])), 2);
    assert_eq!(registry.labels(), labels(&["note-b"]));
    assert_eq!(registry.cleanup_stale_windows(&labels(&["note-b"])), 0);
    assert_eq!(registry.cleanup_stale_windows(&labels(&[])), 1);
    assert_eq!(registry.len(), 0);
}

#[test]
fn missing_windows_are_recreated_but_for_dragged_ones() {
    let mut registry = WindowRegistry::new();
    registry.insert(window("a", "note-a", (10, 20)));
    registry.insert(window("b", "hybrid-drag-b", (100, 0)));
    registry.insert(window("c", "note-c", (200, 0)));
    let missing = registry.windows_to_recreate(&labels(&["main", "note-c"]));
    assert_eq!(missing.len(), 1);
    assert_eq!(missing[0].window_label, "note-a");
    assert_eq!(missing[0].position, (10, 20));

    let dropped = registry.remove_hybrid_records();
    assert_eq!(dropped, labels(&["hybrid-drag-b"]));
    assert_eq!(registry.labels(), labels(&["note-a", "note-c"]));
    assert!(registry.remove_hybrid_records().is_empty());
}

#[test]
fn restore_shows_hidden_windows_and_drops_missing_ones() {
    let mut registry = WindowRegistry::new();
    registry.insert(window("a", "note-a", (0, 0)));
    registry.insert(window("b", "note-b", (100, 0)));
    registry.insert(window("c", "note-c", (200, 0)));
    let live = vec![
        LiveWindow { label: "main".to_string(), visible: true },
        LiveWindow { label: "note-a".to_string(), visible: false },
        LiveWindow { label: "note-c".to_string(), visible: true },
    ];
    let to_show = registry.restore_detached_windows(&live);
    assert_eq!(to_show, labels(&["note-a"]));
    assert_eq!(registry.labels(), labels(&["note-a", "note-c"]));
}

#[test]
fn toggle_hides_everything_or_shows_everything() {
    let mut registry = WindowRegistry::new();
    registry.insert(window("a", "note-a", (10, 20)));
    registry.insert(window("b", "note-b", (30, 40)));
    let live = labels(&["main", "note-a"]);

    let hide = registry.plan_toggle(true, &live);
    assert_eq!(hide.len(), 1);
    assert!(matches!(&hide[0], WindowAction::Hide(l) if l == "note-a"));

    let show = registry.plan_toggle(false, &live);
    assert_eq!(show.len(), 2);
    assert!(matches!(&show[0], WindowAction::Show(l) if l == "note-a"));
    match &show[1] {
        WindowAction::Recreate(r) => {
            assert_eq!(r.note_id, "b");
            assert_eq!((r.x, r.y), (Some(30), Some(40)));
            assert_eq!((r.width, r.height), (Some(640), Some(480)));
        }
        other => panic!("expected a window to be made again, got {:?}", other),
    }
}

#[test]
fn a_second_toggle_while_one_runs_is_dropped() {
    let mut in_progress = false;
    assert!(begin_toggle(&mut in_progress));
    assert!(in_progress);
    assert!(!begin_toggle(&mut in_progress));
    assert!(in_progress);
    end_toggle(&mut in_progress);
    assert!(!in_progress);
    assert!(begin_toggle(&mut in_progress));
}

#[test]
fn shade_remembers_the_height_and_gives_it_back() {
    let mut registry = WindowRegistry::new();
    registry.insert(window("a", "note-a", (0, 0)));
    let shaded = registry.toggle_shade("note-a", 450).unwrap();
    assert!(shaded.is_shaded);
    assert_eq!(shaded.resize_height, Some(48));
    let record = registry.get("note-a").unwrap();
    assert!(record.is_shaded);
    assert_eq!(record.original_height, Some(450));
    assert_eq!(record.size, (640, 480));

    let restored = registry.toggle_shade("note-a", 48).unwrap();
    assert!(!restored.is_shaded);
    assert_eq!(restored.resize_height, Some(450));
    let record = registry.get("note-a").unwrap();
    assert!(!record.is_shaded);
    assert_eq!(record.original_height, None);
    assert_eq!(record.size, (640, 450));

    match registry.toggle_shade("note-zz", 48) {
        Err(BlinkError::NotFound(m)) => assert_eq!(m, "Window data not found for note-zz"),
        other => panic!("expected not found, got {:?}", other),
    }

    let mut odd = window("b", "note-b", (0, 0));
    odd.is_shaded = true;
    registry.insert(odd);
    let stuck = registry.toggle_shade("note-b", 48).unwrap();
    assert!(stuck.is_shaded);
    assert_eq!(stuck.resize_height, None);
}

#[test]
fn move_and_resize_change_one_record() {
    let mut registry = WindowRegistry::new();
    registry.insert(window("a", "note-a", (0, 0)));
    registry.insert(window("b", "note-b", (100, 0)));
    assert!(registry.update_position("note-a", 7, 8));
    assert!(registry.update_size("note-a", 300, 200));
    assert!(!registry.update_position("note-zz", 1, 1));
    assert!(!registry.update_size("note-zz", 1, 1));
    let a = registry.get("note-a").unwrap();
    assert_eq!(a.position, (7, 8));
    assert_eq!(a.size, (300, 200));
    let b = registry.get("note-b").unwrap();
    assert_eq!(b.position, (100, 0));
    assert_eq!(b.size, (640, 480));
}

#[test]
fn close_takes_the_record_of_the_note_out() {
    let mut registry = WindowRegistry::new();
    registry.insert(window("a", "note-a", (0, 0)));
    registry.insert(window("b", "hybrid-drag-b", (100, 0)));
    assert_eq!(registry.focus_target("a"), Some("note-a".to_string()));
    assert_eq!(registry.focus_target("b"), None);
    assert_eq!(registry.label_for_note("b"), Some("hybrid-drag-b".to_string()));

    assert_eq!(registry.close_detached_window("b"), Some("hybrid-drag-b".to_string()));
    assert_eq!(registry.close_detached_window("b"), None);
    assert_eq!(registry.labels(), labels(&["note-a"]));

    assert!(!registry.cleanup_destroyed_window("zz"));
    assert!(registry.cleanup_destroyed_window("a"));
    assert_eq!(registry.len(), 0);

    registry.insert(window("a", "note-a", (0, 0)));
    assert!(registry.remove("note-a").is_some());
    assert!(registry.remove("note-a").is_none());
    registry.insert(window("a", "note-a", (0, 0)));
    registry.insert(window("c", "note-c", (0, 0)));
    assert_eq!(registry.clear(), 2);
    assert_eq!(registry.len(), 0);
}

#[test]
fn registry_keeps_one_record_under_each_label() {
    let records = vec![
        window("a", "note-a", (0, 0)),
        window("b", "note-b", (5, 5)),
        window("a", "note-a", (9, 9)),
    ];
    let registry = registry_from(&records);
    assert_eq!(registry.labels(), labels(&["note-a", "note-b"]));
    assert_eq!(registry.get("note-a").unwrap().position, (9, 9));
    assert_eq!(registry.records().len(), 2);
    assert!(registry.is_crowded((40, 40)));
    assert!(!registry.is_crowded((60, 60)));
}

#[test]
fn labels_tell_the_kinds_of_windows() {
    assert_eq!(window_label_for("abc"), "note-abc");
    assert_eq!(hybrid_label_for("abc"), "hybrid-drag-abc");
    assert!(note_window_label("note-abc"));
    assert!(!note_window_label("not-abc"));
    assert!(!note_window_label("note"));
    assert!(hybrid_window_label("hybrid-drag-abc"));
    assert!(!hybrid_window_label("note-hybrid-drag-"));
    assert!(ghost_window_label("drag-ghost"));
    assert!(ghost_window_label("drag-ghost-1700000000000"));
    assert!(!ghost_window_label("drag"));
    assert_eq!(label_note_id("note-abc"), Some("abc".to_string()));
    assert_eq!(label_note_id("note-"), Some(String::new()));
    assert_eq!(label_note_id("hybrid-drag-abc"), Some("abc".to_string()));
    assert_eq!(label_note_id("drag-ghost-1"), None);
    assert_eq!(label_note_id("main"), None);
    assert_eq!(window_url("abc"), "index.html?note=abc");
    assert_eq!(window_title("abc"), "Note - abc");
    assert_eq!(windows_to_gather(&labels(&["main", "note-a", "x"])), labels(&["note-a", "x"]));
}

#[test]
fn drag_ghost_address_carries_the_title_percent_encoded() {
    assert_eq!(drag_ghost_url("Hello World!"), "index.html?ghost=true&title=Hello%20World%21");
    assert_eq!(drag_ghost_url("a-b_c.d~e"), "index.html?ghost=true&title=a-b_c.d~e");
    assert_eq!(drag_ghost_url("caf\u{e9}"), "index.html?ghost=true&title=caf%C3%A9");
    assert_eq!(drag_ghost_url(""), "index.html?ghost=true&title=");
    assert_eq!(drag_ghost_url_for("a%20b"), "index.html?ghost=true&title=a%20b");
}

#[test]
fn dragged_window_is_adopted_where_it_was_dropped() {
    let mut registry = WindowRegistry::new();
    let w = adopt_hybrid_window(&mut registry, "hybrid-drag-n1", "n1", (40, 50), (400, 300));
    assert_eq!(w.window_label, "hybrid-drag-n1");
    assert_eq!(w.note_id, "n1");
    assert_eq!(w.position, (40, 50));
    assert_eq!(w.size, (400, 300));
    assert!(registry.contains("hybrid-drag-n1"));
}

#[test]
fn main_window_shade_goes_by_its_height() {
    let open = plan_main_shade(700, 650);
    assert!(open.is_shaded);
    assert_eq!(open.resize_height, 48);
    assert_eq!(open.remember_height, Some(700));
    let shaded = plan_main_shade(48, 650);
    assert!(!shaded.is_shaded);
    assert_eq!(shaded.resize_height, 650);
    assert_eq!(shaded.remember_height, None);
    assert!(!plan_main_shade(50, 1).is_shaded);
    assert!(plan_main_shade(51, 1).is_shaded);
}

#[test]
fn saved_geometry_is_changed_or_made_from_the_defaults() {
    let saved = window("n1", "note-n1", (1, 2));
    let moved = save_window_position(Some(&saved), "n1", 30, 40);
    assert_eq!(moved.position, (30, 40));
    assert_eq!(moved.size, (640, 480));
    let fresh = save_window_position(None, "n1", 30, 40);
    assert_eq!(fresh.position, (30, 40));
    assert_eq!(fresh.size, (800, 600));
    assert_eq!(fresh.window_label, "note-n1");
    let sized = save_window_size(Some(&saved), "n1", 300, 200);
    assert_eq!(sized.position, (1, 2));
    assert_eq!(sized.size, (300, 200));
    let fresh = save_window_size(None, "n1", 300, 200);
    assert_eq!(fresh.position, (100, 100));
    assert_eq!(fresh.size, (300, 200));
}

#[test]
fn only_windows_of_notes_that_exist_are_taken_into_the_records() {
    let notes = store_of(&["a", "b", ""]);
    let untracked = labels(&[
        "note-b",
        "hybrid-drag-a",
        "note-gone",
        "note-a",
        "main",
        "note-",
        "Note-a",
        "note-a ",
    ]);
    let adopt = windows_to_adopt(&untracked, &notes);
    assert_eq!(
        adopt,
        vec![
            ("note-b".to_string(), "b".to_string()),
            ("note-a".to_string(), "a".to_string()),
            ("note-".to_string(), "".to_string()),
        ]
    );
    assert!(windows_to_adopt(&labels(&["note-a"]), &store_of(&[])).is_empty());
    assert!(windows_to_adopt(&vec![], &notes).is_empty());
}

#[test]
fn a_window_that_is_made_again_gets_room_in_the_records() {
    let mut registry = WindowRegistry::new();
    registry.insert(window("a", "note-a", (10, 20)));
    registry.insert(window("b", "note-b", (300, 400)));
    let live = labels(&["main", "note-a"]);
    let show = registry.plan_toggle(false, &live);
    // Showing a window that exists leaves the records alone.
    assert_eq!(registry.clear_for(&show[0]), None);
    assert_eq!(registry.len(), 2);
    assert_eq!(registry.clear_for(&WindowAction::Hide("note-b".to_string())), None);
    assert_eq!(registry.len(), 2);
    // The record of the window that is gone leaves before it is made again.
    assert_eq!(registry.clear_for(&show[1]), Some("note-b".to_string()));
    assert_eq!(registry.len(), 1);
    assert!(registry.get("note-b").is_none());
    assert!(registry.get("note-a").is_some());
    let notes = store_of(&["a", "b"]);
    let request = match &show[1] {
        WindowAction::Recreate(r) => r,
        other => panic!("expected a window to be made again, got {:?}", other),
    };
    let made = create_window(&notes, &mut registry, request, None).unwrap();
    assert_eq!(made.position, (300, 400));
    assert_eq!(made.window_label, "note-b");
    // Without a record of the note nothing is taken out.
    assert_eq!(registry.clear_for(&WindowAction::Recreate(self::request("zz", None, None))), None);
    assert_eq!(registry.len(), 2);
}

#[test]
fn a_shade_is_recorded_first_and_a_restored_height_last() {
    let mut registry = WindowRegistry::new();
    registry.insert(window("a", "note-a", (0, 0)));
    let plan = registry.plan_shade("note-a").unwrap();
    assert_eq!(plan.resize_height, Some(48));
    assert!(plan.record_first);
    // Planning changes nothing.
    assert!(!registry.get("note-a").unwrap().is_shaded);

    registry.toggle_shade("note-a", 450).unwrap();
    let plan = registry.plan_shade("note-a").unwrap();
    assert_eq!(plan.resize_height, Some(450));
    assert!(!plan.record_first);
    assert!(registry.get("note-a").unwrap().is_shaded);

    let mut odd = window("b", "note-b", (0, 0));
    odd.is_shaded = true;
    registry.insert(odd);
    let plan = registry.plan_shade("note-b").unwrap();
    assert_eq!(plan.resize_height, None);
    assert!(!plan.record_first);

    match registry.plan_shade("note-zz") {
        Err(BlinkError::NotFound(m)) => assert_eq!(m, "Window data not found for note-zz"),
        other => panic!("expected not found, got {:?}", other),
    }
}
