//! The operations of the application on notes and windows, each across
//! the parts that it touches: the store, the index, the tracker and the
//! window records.
use vstd::prelude::*;
use crate::clock::new_note_id;
use crate::error::BlinkError;
use crate::index::{other_entry, has_entry, NotesIndex};
use crate::note::{created, note_views, CreateNoteRequest, Note, NoteView};
use crate::store::{creation, has_id, highest_position, other_id, NoteStore};
use crate::tracker::{after_delete, content_changed, ModifiedStateTracker};
use crate::trusted::uuid_text;
use crate::text::views;
use crate::window::{
    has_note_window, is_note_label, label_note_id, note_window_label, planned_window, saved_view,
    with_record, CreateDetachedWindowRequest, DetachedWindow, WindowRegistry,
};

verus! {

/// Opens a window for a note in the records. The note must be in the
/// store and must not have a window of its own yet.
pub fn create_window(
    notes: &NoteStore,
    registry: &mut WindowRegistry,
    request: &CreateDetachedWindowRequest,
    saved: Option<&DetachedWindow>,
) -> (r: Result<DetachedWindow, BlinkError>)
    requires
        old(registry).wf(),
    ensures
        final(registry).wf(),
        match r {
            Ok(w) => has_id(notes@, request@.note_id) && !has_note_window(
                old(registry)@,
                request@.note_id,
            ) && w@ == planned_window(request@, old(registry)@, saved_view(saved))
                && final(registry)@ == with_record(old(registry)@, w@),
            Err(BlinkError::NotFound(m)) => !has_id(notes@, request@.note_id) && final(registry)@
                == old(registry)@ && m@ == "Note not found"@,
            Err(BlinkError::Conflict(m)) => has_id(notes@, request@.note_id) && has_note_window(
                old(registry)@,
                request@.note_id,
            ) && final(registry)@ == old(registry)@ && m@
                == "Window already exists for this note"@,
            Err(_) => false,
        },
{
    let exists = notes.contains(request.note_id.as_str());
    registry.create_detached_window(request, exists, saved)
}

/// Makes a note from a request, under a new random id, and puts it after
/// the last position. Whatever id was drawn, what comes of it is what the
/// making of the note under that id comes to: the new note is the
/// request's note under the id, and the store holds it after all the
/// others; it fails only where no position is left or a note has the id
/// that was drawn.
pub fn create_note(store: &mut NoteStore, request: &CreateNoteRequest, now: &str) -> (r: Result<
    Note,
    BlinkError,
>)
    requires
        old(store).wf(),
    ensures
        final(store).wf(),
        exists|v: u128|
            creation(old(store)@, request@, #[trigger] uuid_text(v), now@, r, final(store)@),
        r is Err ==> final(store)@ == old(store)@,
        highest_position(old(store)@) == i32::MAX ==> r is Err,
{
    let id = new_note_id();
    store.create_note(request, id.as_str(), now)
}

/// Forgets a note everywhere at once: in the store, in the index and in
/// the tracker. It says whether the store held the note.
pub fn forget_note(
    store: &mut NoteStore,
    index: &mut NotesIndex,
    tracker: &mut ModifiedStateTracker,
    note_id: &str,
    now: &str,
) -> (removed: bool)
    requires
        old(store).wf(),
        old(index).wf(),
        old(tracker).wf(),
    ensures
        final(store).wf(),
        final(index).wf(),
        final(tracker).wf(),
        removed == has_id(old(store)@, note_id@),
        final(store)@ == old(store)@.filter(other_id(note_id@)),
        !has_id(final(store)@, note_id@),
        final(index)@.entries == old(index)@.entries.filter(other_entry(note_id@)),
        !has_entry(final(index)@.entries, note_id@),
        final(tracker)@ == after_delete(old(tracker)@, note_id@),
{
    let removed = store.remove(note_id).is_some();
    let _ = index.delete_note(note_id, now);
    tracker.remove_note(note_id);
    removed
}

/// Brings the tracker in step with the store after a load: it knows the
/// notes of the store and no others, each with the content it has, and
/// none of them as modified.
pub fn track_loaded(tracker: &mut ModifiedStateTracker, store: &NoteStore)
    requires
        store.wf(),
    ensures
        final(tracker).wf(),
        final(tracker)@.modified == Set::<Seq<char>>::empty(),
        forall|id: Seq<char>| final(tracker)@.hashes.contains_key(id) <==> has_id(store@, id),
        forall|i: int|
            0 <= i < store@.len() ==> !content_changed(
                final(tracker)@,
                (#[trigger] store@[i]).id,
                store@[i].content,
            ),
{
    tracker.clear_all();
    let notes = store.all();
    let ghost all = store@;
    let mut i: usize = 0;
    while i < notes.len()
        invariant
            i <= notes.len(),
            all == store@,
            note_views(notes@) == all,
            crate::store::distinct_ids(all),
            tracker.wf(),
            tracker@.modified == Set::<Seq<char>>::empty(),
            forall|id: Seq<char>|
                tracker@.hashes.contains_key(id) <==> exists|k: int|
                    0 <= k < i && (#[trigger] all[k]).id == id,
            forall|k: int|
                0 <= k < i ==> !content_changed(tracker@, (#[trigger] all[k]).id, all[k].content),
        decreases notes.len() - i,
    {
        let ghost before = tracker@;
        assert(notes@[i as int]@ == all[i as int]);
        tracker.initialize_note(&notes[i]);
        proof {
            assert(tracker@.modified =~= Set::<Seq<char>>::empty());
            assert forall|id: Seq<char>|
                tracker@.hashes.contains_key(id) <==> exists|k: int|
                    0 <= k < i + 1 && (#[trigger] all[k]).id == id by {
                if tracker@.hashes.contains_key(id) {
                    if id == all[i as int].id {
                    } else {
                        assert(before.hashes.contains_key(id));
                        let k = choose|k: int| 0 <= k < i && (#[trigger] all[k]).id == id;
                        assert(all[k].id == id);
                    }
                }
                if exists|k: int| 0 <= k < i + 1 && (#[trigger] all[k]).id == id {
                    let k = choose|k: int| 0 <= k < i + 1 && (#[trigger] all[k]).id == id;
                    if k < i {
                        assert(before.hashes.contains_key(id));
                    }
                }
            }
            assert forall|k: int| 0 <= k < i + 1 implies !content_changed(
                tracker@,
                (#[trigger] all[k]).id,
                all[k].content,
            ) by {
                if k < i {
                    assert(all[k].id != all[i as int].id);
                    assert(!content_changed(before, all[k].id, all[k].content));
                }
            }
        }
        i += 1;
    }
}

/// Labels of windows to take into the records: those of a note's window
/// whose note exists.
pub open spec fn adoptable(notes: Seq<NoteView>) -> spec_fn(Seq<char>) -> bool {
    |l: Seq<char>| is_note_label(l) && has_id(notes, l.skip("note-"@.len() as int))
}

/// For each label, the label and the note that it speaks of.
pub open spec fn with_notes(labels: Seq<Seq<char>>) -> Seq<(Seq<char>, Seq<char>)> {
    Seq::new(labels.len(), |i: int| (labels[i], labels[i].skip("note-"@.len() as int)))
}

/// Pairs of strings as mathematical values.
pub open spec fn pair_views(ps: Seq<(String, String)>) -> Seq<(Seq<char>, Seq<char>)> {
    Seq::new(ps.len(), |i: int| (ps[i].0@, ps[i].1@))
}

/// The windows that exist without a record and are to be taken into the
/// records, each with the id of its note: those whose label is that of a
/// note's window and whose note exists, in the order in which they were
/// found. A window made while dragging is never taken in, nor the window
/// of a note that is gone.
pub fn windows_to_adopt(untracked: &Vec<String>, notes: &NoteStore) -> (out: Vec<(String, String)>)
    ensures
        pair_views(out@) == with_notes(views(untracked@).filter(adoptable(notes@))),
{
    let ghost all = views(untracked@);
    let ghost p = adoptable(notes@);
    let mut out: Vec<(String, String)> = Vec::new();
    let mut i: usize = 0;
    proof {
        reveal(Seq::filter);
        assert(all.take(0).filter(p) =~= Seq::<Seq<char>>::empty());
        assert(pair_views(out@) =~= with_notes(all.take(0).filter(p)));
    }
    while i < untracked.len()
        invariant
            i <= untracked.len(),
            all == views(untracked@),
            p == adoptable(notes@),
            pair_views(out@) == with_notes(all.take(i as int).filter(p)),
        decreases untracked.len() - i,
    {
        let label = untracked[i].as_str();
        proof {
            assert(all[i as int] == label@);
            all.lemma_take_succ_push(i as int);
            all.take(i as int).lemma_filter_push(all[i as int], p);
        }
        if note_window_label(label) {
            match label_note_id(label) {
                Some(id) => {
                    if notes.contains(id.as_str()) {
                        let ghost before = pair_views(out@);
                        out.push((label.to_owned(), id));
                        assert(pair_views(out@) =~= before.push((label@, id@)));
                        assert(pair_views(out@) =~= with_notes(all.take(i + 1).filter(p)));
                    }
                },
                None => {},
            }
        }
        i += 1;
    }
    proof {
        all.lemma_take_len();
    }
    out
}

} // verus!
