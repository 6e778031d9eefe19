//! Modified state: for each note the hash of the content that was last
//! saved, and whether the note has edits that are not saved yet. The hash
//! decides whether an update has to reach the disk at all.
use vstd::hash_map::StringHashMap;
use vstd::prelude::*;
use crate::note::Note;
use crate::text::{copy_string, copy_strings, holds_string, str_eq, views};
use crate::trusted::{hash_text, sha256_hex};

verus! {

/// What a tracker knows, as a mathematical value.
pub struct TrackerView {
    /// For each tracked note, the hash of the content last saved.
    pub hashes: Map<Seq<char>, Seq<char>>,
    /// The notes with edits that are not saved.
    pub modified: Set<Seq<char>>,
}

/// The hashes by the text they hold.
pub open spec fn hash_texts(m: Map<Seq<char>, String>) -> Map<Seq<char>, Seq<char>> {
    Map::new(|k: Seq<char>| m.contains_key(k), |k: Seq<char>| m[k]@)
}

/// Whether `content` differs from what was last saved for the note: no
/// hash is known for the note, or the content's hash is another one.
pub open spec fn content_changed(t: TrackerView, id: Seq<char>, content: Seq<char>) -> bool {
    !t.hashes.contains_key(id) || t.hashes[id] != sha256_hex(content)
}

/// The tracker after `content` was saved for the note.
pub open spec fn after_save(t: TrackerView, id: Seq<char>, content: Seq<char>) -> TrackerView {
    TrackerView { hashes: t.hashes.insert(id, sha256_hex(content)), modified: t.modified.remove(id) }
}

/// The tracker after the note was deleted.
pub open spec fn after_delete(t: TrackerView, id: Seq<char>) -> TrackerView {
    TrackerView { hashes: t.hashes.remove(id), modified: t.modified.remove(id) }
}

/// The ids of the notes, in order, of which a hash is known that is not
/// the hash of their content.
pub open spec fn drifted_ids(t: TrackerView, ns: Seq<crate::note::NoteView>) -> Seq<Seq<char>>
    decreases ns.len(),
{
    if ns.len() == 0 {
        Seq::empty()
    } else {
        let rest = drifted_ids(t, ns.drop_last());
        let n = ns.last();
        if t.hashes.contains_key(n.id) && content_changed(t, n.id, n.content) {
            rest.push(n.id)
        } else {
            rest
        }
    }
}

/// Once a content is saved for a note, the same content
/// counts as unchanged, and saving it again changes nothing in the tracker.
pub proof fn lemma_save_idempotent(t: TrackerView, id: Seq<char>, content: Seq<char>)
    ensures
        !content_changed(after_save(t, id, content), id, content),
        after_save(after_save(t, id, content), id, content) == after_save(t, id, content),
{
    let once = after_save(t, id, content);
    let twice = after_save(once, id, content);
    assert(twice.hashes =~= once.hashes);
    assert(twice.modified =~= once.modified);
}

/// After a note is deleted nothing is known of it, so
/// whatever is saved under its id later counts as changed.
pub proof fn lemma_delete_forgets(t: TrackerView, id: Seq<char>, content: Seq<char>)
    ensures
        !after_delete(t, id).hashes.contains_key(id),
        !after_delete(t, id).modified.contains(id),
        content_changed(after_delete(t, id), id, content),
{
}

/// Tracks which notes were modified and the hash of what was last saved.
pub struct ModifiedStateTracker {
    content_hashes: StringHashMap<String>,
    modified: Vec<String>,
}

impl View for ModifiedStateTracker {
    type V = TrackerView;

    closed spec fn view(&self) -> TrackerView {
        TrackerView {
            hashes: hash_texts(self.content_hashes@),
            modified: views(self.modified@).to_set(),
        }
    }
}

impl ModifiedStateTracker {
    /// The invariant of a tracker: each modified note is listed once.
    pub closed spec fn wf(&self) -> bool {
        views(self.modified@).no_duplicates()
    }

    /// A tracker that knows nothing.
    pub fn new() -> (out: ModifiedStateTracker)
        ensures
            out.wf(),
            out@.hashes == Map::<Seq<char>, Seq<char>>::empty(),
            out@.modified == Set::<Seq<char>>::empty(),
    {
        let out = ModifiedStateTracker { content_hashes: StringHashMap::new(), modified: Vec::new() };
        assert(out@.hashes =~= Map::<Seq<char>, Seq<char>>::empty());
        assert(out@.modified =~= Set::<Seq<char>>::empty());
        out
    }

    /// The SHA-256 digest of a content, in hexadecimal.
    pub fn compute_content_hash(content: &str) -> (hash: String)
        ensures
            hash@ == sha256_hex(content@),
    {
        hash_text(content)
    }

    /// Whether a content with the hash `new_hash` differs from what was
    /// last saved for the note. A note of which no hash is known counts as
    /// changed.
    pub fn hash_changed(&self, note_id: &str, new_hash: &str) -> (changed: bool)
        ensures
            changed == (!self@.hashes.contains_key(note_id@) || self@.hashes[note_id@]
                != new_hash@),
    {
        match self.content_hashes.get(note_id) {
            Some(existing) => !str_eq(existing.as_str(), new_hash),
            None => true,
        }
    }

    /// Whether `new_content` differs from what was last saved for the note.
    /// A note of which no hash is known counts as changed.
    pub fn has_content_changed(&self, note_id: &str, new_content: &str) -> (changed: bool)
        ensures
            changed == content_changed(self@, note_id@, new_content@),
    {
        let new_hash = hash_text(new_content);
        self.hash_changed(note_id, new_hash.as_str())
    }

    /// Records `hash` as the hash of what was saved for the note.
    pub fn record_hash(&mut self, note_id: &str, hash: String)
        requires
            old(self).wf(),
        ensures
            final(self).wf(),
            final(self)@.hashes == old(self)@.hashes.insert(note_id@, hash@),
            final(self)@.modified == old(self)@.modified,
    {
        self.content_hashes.insert(note_id.to_owned(), hash);
        assert(self@.hashes =~= old(self)@.hashes.insert(note_id@, hash@));
    }

    /// Records the hash of a content that was saved for the note.
    pub fn update_content_hash(&mut self, note_id: &str, content: &str)
        requires
            old(self).wf(),
        ensures
            final(self).wf(),
            final(self)@.hashes == old(self)@.hashes.insert(note_id@, sha256_hex(content@)),
            final(self)@.modified == old(self)@.modified,
    {
        let hash = hash_text(content);
        self.record_hash(note_id, hash);
    }

    /// Marks the note as modified.
    pub fn mark_modified(&mut self, note_id: &str)
        requires
            old(self).wf(),
        ensures
            final(self).wf(),
            final(self)@.hashes == old(self)@.hashes,
            final(self)@.modified == old(self)@.modified.insert(note_id@),
    {
        if !holds_string(&self.modified, note_id) {
            let ghost before = views(self.modified@);
            self.modified.push(note_id.to_owned());
            assert(views(self.modified@) =~= before.push(note_id@));
            assert(self@.modified =~= old(self)@.modified.insert(note_id@)) by {
                before.lemma_push_to_set_commute(note_id@);
            }
        } else {
            assert(self@.modified =~= old(self)@.modified.insert(note_id@));
        }
    }

    /// Takes the modified mark off the note.
    pub fn clear_modified(&mut self, note_id: &str)
        requires
            old(self).wf(),
        ensures
            final(self).wf(),
            final(self)@.hashes == old(self)@.hashes,
            final(self)@.modified == old(self)@.modified.remove(note_id@),
    {
        let ghost before = views(self.modified@);
        let mut kept: Vec<String> = Vec::new();
        let mut i: usize = 0;
        while i < self.modified.len()
            invariant
                i <= self.modified.len(),
                before == views(self.modified@),
                before.no_duplicates(),
                views(kept@).no_duplicates(),
                forall|s: Seq<char>|
                    views(kept@).contains(s) <==> (before.take(i as int).contains(s) && s
                        != note_id@),
            decreases self.modified.len() - i,
        {
            let ghost had = views(kept@);
            let ghost pre = before.take(i as int);
            let ghost nxt = before.take(i + 1);
            let ghost cur = before[i as int];
            proof {
                before.lemma_take_succ_push(i as int);
                assert(nxt == pre.push(cur));
            }
            if !str_eq(self.modified[i].as_str(), note_id) {
                kept.push(copy_string(&self.modified[i]));
                proof {
                    let now = views(kept@);
                    assert(now =~= had.push(cur));
                    assert(!had.contains(cur)) by {
                        if had.contains(cur) {
                            let j = choose|j: int| 0 <= j < pre.len() && #[trigger] pre[j] == cur;
                            assert(before[j] == before[i as int]);
                        }
                    }
                    assert forall|s: Seq<char>|
                        now.contains(s) <==> (nxt.contains(s) && s != note_id@) by {
                        if now.contains(s) {
                            let j = choose|j: int| 0 <= j < now.len() && #[trigger] now[j] == s;
                            if j < had.len() {
                                assert(had[j] == s);
                                assert(had.contains(s));
                                let k = choose|k: int| 0 <= k < pre.len() && #[trigger] pre[k] == s;
                                assert(nxt[k] == s);
                            } else {
                                assert(nxt[i as int] == s);
                            }
                        }
                        if nxt.contains(s) && s != note_id@ {
                            let j = choose|j: int| 0 <= j < nxt.len() && #[trigger] nxt[j] == s;
                            if j < i {
                                assert(pre[j] == s);
                                assert(had.contains(s));
                                let k = choose|k: int| 0 <= k < had.len() && #[trigger] had[k] == s;
                                assert(now[k] == s);
                            } else {
                                assert(now[had.len() as int] == s);
                            }
                        }
                    }
                }
            } else {
                proof {
                    assert forall|s: Seq<char>|
                        had.contains(s) <==> (nxt.contains(s) && s != note_id@) by {
                        if nxt.contains(s) && s != note_id@ {
                            let j = choose|j: int| 0 <= j < nxt.len() && #[trigger] nxt[j] == s;
                            assert(pre[j] == s);
                        }
                        if had.contains(s) {
                            let j = choose|j: int| 0 <= j < pre.len() && #[trigger] pre[j] == s;
                            assert(nxt[j] == s);
                        }
                    }
                }
            }
            i += 1;
        }
        proof {
            before.lemma_take_len();
        }
        self.modified = kept;
        assert(self@.modified =~= old(self)@.modified.remove(note_id@));
    }

    /// Whether the note is marked as modified.
    pub fn is_modified(&self, note_id: &str) -> (r: bool)
        ensures
            r == self@.modified.contains(note_id@),
    {
        holds_string(&self.modified, note_id)
    }

    /// Begins to track a note that was loaded: its content is what is
    /// saved, and it has no edits.
    pub fn initialize_note(&mut self, note: &Note)
        requires
            old(self).wf(),
        ensures
            final(self).wf(),
            final(self)@ == after_save(old(self)@, note@.id, note@.content),
    {
        self.update_content_hash(note.id.as_str(), note.content.as_str());
        self.clear_modified(note.id.as_str());
    }

    /// Takes note of a save that went through: the content's hash is
    /// recorded and the modified mark comes off.
    pub fn commit_save(&mut self, note_id: &str, content: &str)
        requires
            old(self).wf(),
        ensures
            final(self).wf(),
            final(self)@ == after_save(old(self)@, note_id@, content@),
            !content_changed(final(self)@, note_id@, content@),
    {
        self.update_content_hash(note_id, content);
        self.clear_modified(note_id);
    }

    /// Forgets a note that was deleted.
    pub fn remove_note(&mut self, note_id: &str)
        requires
            old(self).wf(),
        ensures
            final(self).wf(),
            final(self)@ == after_delete(old(self)@, note_id@),
    {
        self.content_hashes.remove(note_id);
        assert(self@.hashes =~= old(self)@.hashes.remove(note_id@));
        self.clear_modified(note_id);
    }

    /// The notes that are marked as modified, each once.
    pub fn get_modified_notes(&self) -> (ids: Vec<String>)
        requires
            self.wf(),
        ensures
            views(ids@).to_set() == self@.modified,
            views(ids@).no_duplicates(),
    {
        copy_strings(&self.modified)
    }

    /// The notes whose content is not what was last saved for them: those
    /// were changed behind the application's back. A note of which nothing
    /// is known does not count.
    pub fn drifted(&self, notes: &Vec<Note>) -> (ids: Vec<String>)
        ensures
            views(ids@) == drifted_ids(self@, crate::note::note_views(notes@)),
    {
        let ghost all = crate::note::note_views(notes@);
        let mut ids: Vec<String> = Vec::new();
        let mut i: usize = 0;
        assert(all.take(0) =~= Seq::<crate::note::NoteView>::empty());
        assert(views(ids@) =~= Seq::<Seq<char>>::empty());
        while i < notes.len()
            invariant
                i <= notes.len(),
                all == crate::note::note_views(notes@),
                views(ids@) == drifted_ids(self@, all.take(i as int)),
            decreases notes.len() - i,
        {
            proof {
                assert(all.take(i + 1).drop_last() =~= all.take(i as int));
                assert(all.take(i + 1).last() == notes@[i as int]@);
            }
            let note = &notes[i];
            if self.content_hashes.contains_key(note.id.as_str()) && self.has_content_changed(
                note.id.as_str(),
                note.content.as_str(),
            ) {
                let ghost had = views(ids@);
                ids.push(copy_string(&note.id));
                assert(views(ids@) =~= had.push(note@.id));
            }
            i += 1;
        }
        assert(all.take(notes.len() as int) =~= all);
        ids
    }

    /// Forgets everything.
    pub fn clear_all(&mut self)
        ensures
            final(self).wf(),
            final(self)@.hashes == Map::<Seq<char>, Seq<char>>::empty(),
            final(self)@.modified == Set::<Seq<char>>::empty(),
    {
        self.content_hashes.clear();
        self.modified = Vec::new();
        assert(self@.hashes =~= Map::<Seq<char>, Seq<char>>::empty());
        assert(self@.modified =~= Set::<Seq<char>>::empty());
    }
}

/// The same tracker under its earlier name, with "dirty" for "modified".
pub struct DirtyTracker {
    inner: ModifiedStateTracker,
}

impl View for DirtyTracker {
    type V = TrackerView;

    closed spec fn view(&self) -> TrackerView {
        self.inner@
    }
}

impl DirtyTracker {
    /// The invariant of a tracker.
    pub closed spec fn wf(&self) -> bool {
        self.inner.wf()
    }

    /// A tracker that knows nothing.
    pub fn new() -> (out: DirtyTracker)
        ensures
            out.wf(),
            out@.hashes == Map::<Seq<char>, Seq<char>>::empty(),
            out@.modified == Set::<Seq<char>>::empty(),
    {
        DirtyTracker { inner: ModifiedStateTracker::new() }
    }

    /// The SHA-256 digest of a content, in hexadecimal.
    pub fn compute_content_hash(content: &str) -> (hash: String)
        ensures
            hash@ == sha256_hex(content@),
    {
        hash_text(content)
    }

    /// Whether `new_content` differs from what was last saved for the note.
    pub fn has_content_changed(&self, note_id: &str, new_content: &str) -> (changed: bool)
        ensures
            changed == content_changed(self@, note_id@, new_content@),
    {
        self.inner.has_content_changed(note_id, new_content)
    }

    /// Records the hash of a content that was saved for the note.
    pub fn update_content_hash(&mut self, note_id: &str, content: &str)
        requires
            old(self).wf(),
        ensures
            final(self).wf(),
            final(self)@.hashes == old(self)@.hashes.insert(note_id@, sha256_hex(content@)),
            final(self)@.modified == old(self)@.modified,
    {
        self.inner.update_content_hash(note_id, content);
    }

    /// Marks the note as dirty.
    pub fn mark_dirty(&mut self, note_id: &str)
        requires
            old(self).wf(),
        ensures
            final(self).wf(),
            final(self)@.hashes == old(self)@.hashes,
            final(self)@.modified == old(self)@.modified.insert(note_id@),
    {
        self.inner.mark_modified(note_id);
    }

    /// Takes the dirty mark off the note.
    pub fn clear_dirty(&mut self, note_id: &str)
        requires
            old(self).wf(),
        ensures
            final(self).wf(),
            final(self)@.hashes == old(self)@.hashes,
            final(self)@.modified == old(self)@.modified.remove(note_id@),
    {
        self.inner.clear_modified(note_id);
    }

    /// Whether the note is marked as dirty.
    pub fn is_dirty(&self, note_id: &str) -> (r: bool)
        ensures
            r == self@.modified.contains(note_id@),
    {
        self.inner.is_modified(note_id)
    }

    /// Begins to track a note that was loaded.
    pub fn initialize_note(&mut self, note: &Note)
        requires
            old(self).wf(),
        ensures
            final(self).wf(),
            final(self)@ == after_save(old(self)@, note@.id, note@.content),
    {
        self.inner.initialize_note(note);
    }

    /// Forgets a note that was deleted.
    pub fn remove_note(&mut self, note_id: &str)
        requires
            old(self).wf(),
        ensures
            final(self).wf(),
            final(self)@ == after_delete(old(self)@, note_id@),
    {
        self.inner.remove_note(note_id);
    }

    /// The notes that are marked as dirty, each once.
    pub fn get_dirty_notes(&self) -> (ids: Vec<String>)
        requires
            self.wf(),
        ensures
            views(ids@).to_set() == self@.modified,
            views(ids@).no_duplicates(),
    {
        self.inner.get_modified_notes()
    }

    /// Forgets everything.
    pub fn clear_all(&mut self)
        ensures
            final(self).wf(),
            final(self)@.hashes == Map::<Seq<char>, Seq<char>>::empty(),
            final(self)@.modified == Set::<Seq<char>>::empty(),
    {
        self.inner.clear_all();
    }
}

} // verus!
