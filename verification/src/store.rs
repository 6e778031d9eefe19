//! The notes in memory: one note under each id, changed by the requests of
//! the application and listed in manual order.
use vstd::prelude::*;
use vstd::seq_lib::{to_multiset_build, to_multiset_insert};
use crate::error::BlinkError;
use crate::note::{
    changes_tags, changes_title, created, note_views, updated, CreateNoteRequest, CreateView, Note,
    NoteView,
    UpdateNoteRequest, UpdateView,
};
use crate::positions::{positions_sound, repair_displaces, repair_positions, repaired};
use crate::text::{
    chars_lt, chars_of, copy_string, holds_string, is_whitespace, lemma_seq_ge_transitive,
    lemma_seq_lt_asymmetric, seq_lt, str_eq, views, whitespace,
};
use crate::tracker::{after_save, content_changed, ModifiedStateTracker, TrackerView};

verus! {

/// No two notes carry the same id.
pub open spec fn distinct_ids(ns: Seq<NoteView>) -> bool {
    forall|i: int, j: int| 0 <= i < j < ns.len() ==> (#[trigger] ns[i]).id != (#[trigger] ns[j]).id
}

/// Whether a note with the id is present.
pub open spec fn has_id(ns: Seq<NoteView>, id: Seq<char>) -> bool {
    exists|i: int| 0 <= i < ns.len() && (#[trigger] ns[i]).id == id
}

/// The note with the id.
pub open spec fn note_with(ns: Seq<NoteView>, id: Seq<char>) -> NoteView {
    ns[choose|i: int| 0 <= i < ns.len() && (#[trigger] ns[i]).id == id]
}

/// The notes with `n` put under its id: in place of the note that had the
/// id, or at the end.
pub open spec fn with_note(ns: Seq<NoteView>, n: NoteView) -> Seq<NoteView> {
    if has_id(ns, n.id) {
        Seq::new(
            ns.len(),
            |i: int|
                if ns[i].id == n.id {
                    n
                } else {
                    ns[i]
                },
        )
    } else {
        ns.push(n)
    }
}

/// Notes under another id than `id`.
pub open spec fn other_id(id: Seq<char>) -> spec_fn(NoteView) -> bool {
    |n: NoteView| n.id != id
}

/// The positions of the notes, in order.
pub open spec fn positions_of(ns: Seq<NoteView>) -> Seq<Option<i32>> {
    Seq::new(ns.len(), |i: int| ns[i].position)
}

/// The ids of the notes, in order.
pub open spec fn ids_of(ns: Seq<NoteView>) -> Seq<Seq<char>> {
    Seq::new(ns.len(), |i: int| ns[i].id)
}

/// The highest position that a note holds, or -1 where none holds one.
pub open spec fn highest_position(ns: Seq<NoteView>) -> int
    decreases ns.len(),
{
    if ns.len() == 0 {
        -1
    } else {
        let rest = highest_position(ns.drop_last());
        match ns.last().position {
            Some(p) => if p > rest {
                p as int
            } else {
                rest
            },
            None => rest,
        }
    }
}

/// The listing order: notes with a position come first, by position;
/// the others follow, the newest first.
pub open spec fn lists_before(a: NoteView, b: NoteView) -> bool {
    match (a.position, b.position) {
        (Some(x), Some(y)) => x <= y,
        (Some(_), None) => true,
        (None, Some(_)) => false,
        (None, None) => !seq_lt(a.created_at, b.created_at),
    }
}

/// Where note `n` goes among notes in listing order, looking from index
/// `k` on: behind every note that lists before it or with it.
pub open spec fn slot_from(ns: Seq<NoteView>, n: NoteView, k: int) -> int
    decreases ns.len() - k,
{
    if 0 <= k < ns.len() && lists_before(ns[k], n) {
        slot_from(ns, n, k + 1)
    } else {
        k
    }
}

/// The notes in listing order. Notes that list alike stay in the order
/// in which they stand.
pub open spec fn in_listing_order(ns: Seq<NoteView>) -> Seq<NoteView>
    decreases ns.len(),
{
    if ns.len() == 0 {
        Seq::empty()
    } else {
        let rest = in_listing_order(ns.drop_last());
        rest.insert(slot_from(rest, ns.last(), 0), ns.last())
    }
}

/// Whether the notes stand in listing order.
pub open spec fn listed(ns: Seq<NoteView>) -> bool {
    forall|i: int, j: int| 0 <= i < j < ns.len() ==> lists_before(#[trigger] ns[i], #[trigger] ns[j])
}

/// Of two notes, one lists before the other.
pub proof fn lemma_lists_total(a: NoteView, b: NoteView)
    ensures
        lists_before(a, b) || lists_before(b, a),
{
    if a.position is None && b.position is None && seq_lt(a.created_at, b.created_at) {
        lemma_seq_lt_asymmetric(a.created_at, b.created_at);
    }
}

/// The listing order is transitive.
pub proof fn lemma_lists_transitive(a: NoteView, b: NoteView, c: NoteView)
    requires
        lists_before(a, b),
        lists_before(b, c),
    ensures
        lists_before(a, c),
{
    if a.position is None && b.position is None && c.position is None {
        lemma_seq_ge_transitive(a.created_at, b.created_at, c.created_at);
    }
}

/// The notes after a reorder: each note whose id is in `ids` holds the
/// last index at which the id stands there; a note whose id is not in
/// `ids` keeps its position.
pub open spec fn reordered(ns: Seq<NoteView>, ids: Seq<Seq<char>>) -> Seq<NoteView> {
    Seq::new(
        ns.len(),
        |i: int|
            NoteView {
                position: if ids.contains(ns[i].id) {
                    Some(last_index(ids, ns[i].id) as i32)
                } else {
                    ns[i].position
                },
                ..ns[i]
            },
    )
}

/// The last index at which `id` stands in `ids`.
pub open spec fn last_index(ids: Seq<Seq<char>>, id: Seq<char>) -> int
    decreases ids.len(),
{
    if ids.len() == 0 {
        -1
    } else if ids.last() == id {
        ids.len() - 1
    } else {
        last_index(ids.drop_last(), id)
    }
}

/// `last_index` is an index of the id, where the id is there at all.
pub proof fn lemma_last_index(ids: Seq<Seq<char>>, id: Seq<char>)
    ensures
        ids.contains(id) ==> 0 <= last_index(ids, id) < ids.len() && ids[last_index(ids, id)] == id,
        !ids.contains(id) ==> last_index(ids, id) == -1,
    decreases ids.len(),
{
    if ids.len() > 0 {
        let rest = ids.drop_last();
        lemma_last_index(rest, id);
        if ids.last() != id {
            if ids.contains(id) {
                let k = choose|k: int| 0 <= k < ids.len() && ids[k] == id;
                assert(rest[k] == id);
            }
            if rest.contains(id) {
                let k = choose|k: int| 0 <= k < rest.len() && rest[k] == id;
                assert(ids[k] == id);
            }
        }
    }
}

/// A reorder that names every note leaves sound positions: each note
/// stands where its id stands in the list, and no two notes share an id.
pub proof fn lemma_reorder_sound(ns: Seq<NoteView>, ids: Seq<Seq<char>>)
    requires
        distinct_ids(ns),
        ids.len() <= i32::MAX,
        forall|i: int| 0 <= i < ns.len() ==> ids.contains((#[trigger] ns[i]).id),
    ensures
        positions_sound(positions_of(reordered(ns, ids))),
{
    let ps = positions_of(reordered(ns, ids));
    assert forall|i: int| 0 <= i < ps.len() && (#[trigger] ps[i]) is Some implies ps[i]->0 >= 0 by {
        lemma_last_index(ids, ns[i].id);
    }
    assert forall|i: int, j: int| 0 <= i < j < ps.len() && (#[trigger] ps[i]) is Some implies ps[i]
        != #[trigger] ps[j] by {
        lemma_last_index(ids, ns[i].id);
        lemma_last_index(ids, ns[j].id);
    }
}

/// Whether a request leads to a write: its content differs from what was
/// last saved, or it changes the title or the tags.
pub open spec fn update_writes(n: NoteView, req: UpdateView, t: TrackerView) -> bool {
    update_has_new_content(n, req, t) || changes_title(n, req) || changes_tags(n, req)
}

/// Whether a request brings a content that differs from what was last
/// saved for the note.
pub open spec fn update_has_new_content(n: NoteView, req: UpdateView, t: TrackerView) -> bool {
    req.content is Some && content_changed(t, n.id, req.content->0)
}

/// Once a content was saved for a note, a request that
/// brings the same content again, and nothing else, leads to no write.
pub proof fn lemma_same_content_writes_nothing(n: NoteView, content: Seq<char>, t: TrackerView)
    ensures
        !update_writes(
            n,
            UpdateView { title: None, content: Some(content), tags: None },
            after_save(t, n.id, content),
        ),
{
}

/// Whatever is changed in one note, every other
/// note stays as it is, and no note changes its id or its position. So
/// the note that holds position zero is the same note with the same
/// content after any change to another note.
pub proof fn lemma_update_leaves_others(ns: Seq<NoteView>, id: Seq<char>, req: UpdateView, now: Seq<char>)
    requires
        distinct_ids(ns),
        has_id(ns, id),
    ensures
        ({
            let after = with_note(ns, updated(note_with(ns, id), req, now));
            &&& after.len() == ns.len()
            &&& forall|j: int|
                0 <= j < ns.len() ==> (#[trigger] after[j]).id == ns[j].id && after[j].position
                    == ns[j].position
            &&& forall|j: int| 0 <= j < ns.len() && ns[j].id != id ==> #[trigger] after[j] == ns[j]
        }),
{
    let i = choose|i: int| 0 <= i < ns.len() && (#[trigger] ns[i]).id == id;
    let changed = updated(ns[i], req, now);
    assert(has_id(ns, changed.id));
    let after = with_note(ns, changed);
    assert forall|j: int| 0 <= j < ns.len() implies (#[trigger] after[j]).id == ns[j].id
        && after[j].position == ns[j].position by {
        if ns[j].id == id {
            assert(j == i);
        }
    }
}

/// What an update comes to.
#[derive(Debug)]
pub enum UpdateOutcome {
    /// There is no note with the id.
    Missing,
    /// Nothing differs: the note is as it was, and nothing is to be written.
    Unchanged(Note),
    /// The note was changed and is to be written. `content_changed` says
    /// whether the content differs from what was last saved, in which case
    /// the tracker is to take note of the save once it went through.
    Changed { note: Note, content_changed: bool },
}

/// How many notes there are, and what is in them.
#[derive(Debug)]
pub struct NoteStats {
    pub total_notes: usize,
    pub total_words: usize,
    pub unique_tags: usize,
}

/// The notes, one under each id.
pub struct NoteStore {
    notes: Vec<Note>,
}

impl View for NoteStore {
    type V = Seq<NoteView>;

    closed spec fn view(&self) -> Seq<NoteView> {
        note_views(self.notes@)
    }
}

impl NoteStore {
    /// The invariant of a store: ids are distinct.
    pub open spec fn wf(&self) -> bool {
        distinct_ids(self@)
    }

    /// A store without notes.
    pub fn new() -> (out: NoteStore)
        ensures
            out.wf(),
            out@ == Seq::<NoteView>::empty(),
    {
        let out = NoteStore { notes: Vec::new() };
        assert(out@ =~= Seq::<NoteView>::empty());
        out
    }

    /// How many notes there are.
    pub fn len(&self) -> (n: usize)
        ensures
            n == self@.len(),
    {
        self.notes.len()
    }

    /// The index of the note with the id.
    fn index_of(&self, id: &str) -> (r: Option<usize>)
        ensures
            match r {
                Some(i) => i < self@.len() && self@[i as int].id == id@,
                None => !has_id(self@, id@),
            },
    {
        let mut i: usize = 0;
        while i < self.notes.len()
            invariant
                i <= self.notes.len(),
                forall|j: int| 0 <= j < i ==> (#[trigger] self@[j]).id != id@,
            decreases self.notes.len() - i,
        {
            if str_eq(self.notes[i].id.as_str(), id) {
                return Some(i);
            }
            i += 1;
        }
        None
    }

    /// Whether there is a note with the id.
    pub fn contains(&self, id: &str) -> (r: bool)
        ensures
            r == has_id(self@, id@),
    {
        self.index_of(id).is_some()
    }

    /// The note with the id, if there is one.
    pub fn get(&self, id: &str) -> (r: Option<Note>)
        requires
            self.wf(),
        ensures
            match r {
                Some(n) => has_id(self@, id@) && n@ == note_with(self@, id@),
                None => !has_id(self@, id@),
            },
    {
        match self.index_of(id) {
            Some(i) => {
                proof {
                    let k = choose|k: int| 0 <= k < self@.len() && (#[trigger] self@[k]).id == id@;
                    assert(k == i);
                }
                Some(self.notes[i].copy())
            },
            None => None,
        }
    }

    /// A copy of every note, in the order of the store.
    pub fn all(&self) -> (out: Vec<Note>)
        ensures
            note_views(out@) == self@,
    {
        let mut out: Vec<Note> = Vec::new();
        let mut i: usize = 0;
        while i < self.notes.len()
            invariant
                i <= self.notes.len(),
                out@.len() == i,
                forall|j: int| 0 <= j < i ==> out@[j]@ == self.notes@[j]@,
            decreases self.notes.len() - i,
        {
            out.push(self.notes[i].copy());
            i += 1;
        }
        assert(note_views(out@) =~= self@);
        out
    }

    /// The ids of the notes, in the order of the store.
    pub fn ids(&self) -> (out: Vec<String>)
        ensures
            views(out@) == ids_of(self@),
    {
        let mut out: Vec<String> = Vec::new();
        let mut i: usize = 0;
        while i < self.notes.len()
            invariant
                i <= self.notes.len(),
                out@.len() == i,
                forall|j: int| 0 <= j < i ==> out@[j]@ == self@[j].id,
            decreases self.notes.len() - i,
        {
            out.push(copy_string(&self.notes[i].id));
            i += 1;
        }
        assert(views(out@) =~= ids_of(self@));
        out
    }

    /// The positions of the notes, in the order of the store.
    pub fn positions(&self) -> (out: Vec<Option<i32>>)
        ensures
            out@ == positions_of(self@),
    {
        let mut out: Vec<Option<i32>> = Vec::new();
        let mut i: usize = 0;
        while i < self.notes.len()
            invariant
                i <= self.notes.len(),
                out@.len() == i,
                forall|j: int| 0 <= j < i ==> out@[j] == self@[j].position,
            decreases self.notes.len() - i,
        {
            out.push(self.notes[i].position);
            i += 1;
        }
        assert(out@ =~= positions_of(self@));
        out
    }

    /// Puts a note under its id, in place of any note that had it.
    pub fn insert(&mut self, note: Note)
        requires
            old(self).wf(),
        ensures
            final(self).wf(),
            final(self)@ == with_note(old(self)@, note@),
            has_id(final(self)@, note@.id),
    {
        match self.index_of(note.id.as_str()) {
            Some(i) => {
                let ghost before = self@;
                self.notes.set(i, note);
                assert(self@ =~= with_note(before, note@));
                assert(self@[i as int].id == note@.id);
            },
            None => {
                let ghost before = self@;
                self.notes.push(note);
                assert(self@ =~= before.push(note@));
                assert(self@[before.len() as int].id == note@.id);
            },
        }
    }

    /// Takes the note with the id out, and hands it back.
    pub fn remove(&mut self, id: &str) -> (r: Option<Note>)
        requires
            old(self).wf(),
        ensures
            final(self).wf(),
            final(self)@ == old(self)@.filter(other_id(id@)),
            !has_id(final(self)@, id@),
            match r {
                Some(n) => has_id(old(self)@, id@) && n@ == note_with(old(self)@, id@),
                None => !has_id(old(self)@, id@) && final(self)@ == old(self)@,
            },
    {
        let found = self.get(id);
        let ghost p = other_id(id@);
        let ghost all = self@;
        let mut kept: Vec<Note> = Vec::new();
        let mut i: usize = 0;
        proof {
            reveal(Seq::filter);
            assert(all.take(0).filter(p) =~= Seq::<NoteView>::empty());
            assert(note_views(kept@) =~= Seq::<NoteView>::empty());
        }
        while i < self.notes.len()
            invariant
                i <= self.notes.len(),
                all == self@,
                p == other_id(id@),
                note_views(kept@) == all.take(i as int).filter(p),
            decreases self.notes.len() - i,
        {
            proof {
                all.lemma_take_succ_push(i as int);
                all.take(i as int).lemma_filter_push(all[i as int], p);
            }
            if !str_eq(self.notes[i].id.as_str(), id) {
                let ghost before = note_views(kept@);
                kept.push(self.notes[i].copy());
                assert(note_views(kept@) =~= before.push(all[i as int]));
            }
            i += 1;
        }
        proof {
            all.lemma_take_len();
            lemma_filter_distinct_ids(all, p);
            lemma_without_id(all, id@);
        }
        self.notes = kept;
        found
    }

    /// The position after the highest one that is held: where a new note
    /// goes. `None` where the highest position is the last there is.
    pub fn next_position(&self) -> (r: Option<i32>)
        ensures
            match r {
                Some(p) => p == highest_position(self@) + 1,
                None => highest_position(self@) == i32::MAX,
            },
    {
        let mut highest: i32 = -1;
        let mut i: usize = 0;
        assert(self@.take(0) =~= Seq::<NoteView>::empty());
        while i < self.notes.len()
            invariant
                i <= self.notes.len(),
                highest == highest_position(self@.take(i as int)),
            decreases self.notes.len() - i,
        {
            assert(self@.take(i + 1).drop_last() =~= self@.take(i as int));
            match self.notes[i].position {
                Some(p) => {
                    if p > highest {
                        highest = p;
                    }
                },
                None => {},
            }
            i += 1;
        }
        assert(self@.take(self.notes.len() as int) =~= self@);
        if highest == i32::MAX {
            None
        } else {
            Some(highest + 1)
        }
    }

    /// Makes a note from a request and puts it after the last position.
    /// Fails where the id is taken or no position is left.
    pub fn create_note(&mut self, request: &CreateNoteRequest, id: &str, now: &str) -> (r: Result<
        Note,
        BlinkError,
    >)
        requires
            old(self).wf(),
        ensures
            final(self).wf(),
            creation(old(self)@, request@, id@, now@, r, final(self)@),
    {
        if self.contains(id) {
            return Err(BlinkError::Conflict("A note with this id exists already".to_owned()));
        }
        match self.next_position() {
            Some(p) => {
                let note = Note::create(request, id, now, Some(p));
                self.insert(note.copy());
                Ok(note)
            },
            None => Err(BlinkError::Conflict("No position is left for a new note".to_owned())),
        }
    }

    /// Changes the note with the id as the request says, at the time `now`.
    ///
    /// The content counts as changed where the tracker says so; the title
    /// and the tags where they differ from the note's. Where nothing
    /// changed the note stays as it is. Else every field that the request
    /// gives is taken over and the note counts as updated at `now`. The
    /// tracker is left alone: it takes note of a save only once the save
    /// went through.
    pub fn update_note(
        &mut self,
        tracker: &ModifiedStateTracker,
        id: &str,
        request: &UpdateNoteRequest,
        now: &str,
    ) -> (r: UpdateOutcome)
        requires
            old(self).wf(),
        ensures
            final(self).wf(),
            final(self)@.len() == old(self)@.len(),
            forall|j: int|
                0 <= j < old(self)@.len() ==> (#[trigger] final(self)@[j]).id == old(self)@[j].id
                    && final(self)@[j].position == old(self)@[j].position,
            forall|j: int|
                0 <= j < old(self)@.len() && old(self)@[j].id != id@ ==> #[trigger] final(self)@[j]
                    == old(self)@[j],
            match r {
                UpdateOutcome::Missing => !has_id(old(self)@, id@) && final(self)@ == old(self)@,
                UpdateOutcome::Unchanged(n) => has_id(old(self)@, id@) && n@ == note_with(
                    old(self)@,
                    id@,
                ) && !update_writes(n@, request@, tracker@) && final(self)@ == old(self)@,
                UpdateOutcome::Changed { note, content_changed } => has_id(old(self)@, id@)
                    && update_writes(note_with(old(self)@, id@), request@, tracker@) && note@
                    == updated(note_with(old(self)@, id@), request@, now@) && content_changed
                    == update_has_new_content(note_with(old(self)@, id@), request@, tracker@)
                    && final(self)@ == with_note(old(self)@, note@),
            },
    {
        let i = match self.index_of(id) {
            Some(i) => i,
            None => {
                return UpdateOutcome::Missing;
            },
        };
        proof {
            let k = choose|k: int| 0 <= k < self@.len() && (#[trigger] self@[k]).id == id@;
            assert(k == i);
        }
        let current = self.notes[i].copy();
        let new_content = match &request.content {
            Some(c) => tracker.has_content_changed(id, c.as_str()),
            None => false,
        };
        let new_title = current.title_changed(request);
        let new_tags = current.tags_changed(request);
        if new_content || new_title || new_tags {
            let changed = current.apply(request, now);
            let ghost before = self@;
            self.notes.set(i, changed.copy());
            proof {
                assert(has_id(before, changed@.id));
                assert(self@ =~= with_note(before, changed@));
            }
            UpdateOutcome::Changed { note: changed, content_changed: new_content }
        } else {
            UpdateOutcome::Unchanged(current)
        }
    }

    /// Puts the notes in the order of `ordered_ids`: each note takes the
    /// index of its id as its position. A note that is not named keeps the
    /// position it has.
    pub fn reorder(&mut self, ordered_ids: &Vec<String>)
        requires
            old(self).wf(),
            ordered_ids@.len() <= i32::MAX,
        ensures
            final(self).wf(),
            final(self)@ == reordered(old(self)@, views(ordered_ids@)),
            (forall|i: int|
                0 <= i < old(self)@.len() ==> views(ordered_ids@).contains(
                    (#[trigger] old(self)@[i]).id,
                )) ==> positions_sound(positions_of(final(self)@)),
    {
        let ghost before = self@;
        let ghost ids = views(ordered_ids@);
        let mut k: usize = 0;
        assert(ids.take(0) =~= Seq::<Seq<char>>::empty());
        assert(self@ =~= reordered(before, ids.take(0)));
        while k < ordered_ids.len()
            invariant
                k <= ordered_ids.len(),
                ordered_ids@.len() <= i32::MAX,
                ids == views(ordered_ids@),
                distinct_ids(before),
                self@ == reordered(before, ids.take(k as int)),
            decreases ordered_ids.len() - k,
        {
            let ghost seen = ids.take(k as int);
            let ghost next = ids.take(k + 1);
            proof {
                ids.lemma_take_succ_push(k as int);
                assert(next.drop_last() =~= seen);
                assert(next.last() == ids[k as int]);
            }
            match self.index_of(ordered_ids[k].as_str()) {
                Some(i) => {
                    let mut note = self.notes[i].copy();
                    note.position = Some(k as i32);
                    let ghost mid = self@;
                    self.notes.set(i, note);
                    proof {
                        assert forall|j: int| 0 <= j < before.len() implies #[trigger] self@[j]
                            == reordered(before, next)[j] by {
                            lemma_last_index(seen, before[j].id);
                            lemma_last_index(next, before[j].id);
                            if j != i {
                                assert(self@[j] == mid[j]);
                                if seen.contains(before[j].id) {
                                    let m = choose|m: int|
                                        0 <= m < seen.len() && seen[m] == before[j].id;
                                    assert(next[m] == before[j].id);
                                }
                                if next.contains(before[j].id) {
                                    let m = choose|m: int|
                                        0 <= m < next.len() && next[m] == before[j].id;
                                    assert(seen[m] == before[j].id);
                                }
                            } else {
                                assert(next[k as int] == before[j].id);
                            }
                        }
                        assert(self@ =~= reordered(before, next));
                    }
                },
                None => {
                    proof {
                        assert forall|j: int| 0 <= j < before.len() implies #[trigger] self@[j]
                            == reordered(before, next)[j] by {
                            lemma_last_index(seen, before[j].id);
                            lemma_last_index(next, before[j].id);
                            assert(self@[j].id == before[j].id);
                            if seen.contains(before[j].id) {
                                let m = choose|m: int|
                                    0 <= m < seen.len() && seen[m] == before[j].id;
                                assert(next[m] == before[j].id);
                            }
                            if next.contains(before[j].id) {
                                let m = choose|m: int|
                                    0 <= m < next.len() && next[m] == before[j].id;
                                assert(seen[m] == before[j].id);
                            }
                        }
                        assert(self@ =~= reordered(before, next));
                    }
                },
            }
            k += 1;
        }
        proof {
            ids.lemma_take_len();
            if forall|i: int| 0 <= i < before.len() ==> ids.contains((#[trigger] before[i]).id) {
                lemma_reorder_sound(before, ids);
            }
        }
    }

    /// The notes in listing order: those with a position first, by
    /// position; then the others, the newest first. Notes that list alike
    /// stay in the order of the store.
    pub fn sorted(&self) -> (out: Vec<Note>)
        ensures
            note_views(out@) == in_listing_order(self@),
            listed(note_views(out@)),
            note_views(out@).to_multiset() == self@.to_multiset(),
    {
        let mut out: Vec<Note> = Vec::new();
        let mut i: usize = 0;
        assert(self@.take(0) =~= Seq::<NoteView>::empty());
        assert(note_views(out@) =~= Seq::<NoteView>::empty());
        while i < self.notes.len()
            invariant
                i <= self.notes.len(),
                note_views(out@) == in_listing_order(self@.take(i as int)),
                listed(note_views(out@)),
                note_views(out@).to_multiset() == self@.take(i as int).to_multiset(),
            decreases self.notes.len() - i,
        {
            let note = self.notes[i].copy();
            let ghost before = note_views(out@);
            let mut k: usize = 0;
            while k < out.len() && lists_first(&out[k], &note)
                invariant
                    k <= out.len(),
                    before == note_views(out@),
                    forall|j: int| 0 <= j < k ==> lists_before(#[trigger] out@[j]@, note@),
                    slot_from(before, note@, 0) == slot_from(before, note@, k as int),
                decreases out.len() - k,
            {
                assert(before[k as int] == out@[k as int]@);
                k += 1;
            }
            proof {
                if k < out.len() {
                    assert(before[k as int] == out@[k as int]@);
                }
                assert(slot_from(before, note@, 0) == k);
                assert(self@.take(i + 1).drop_last() =~= self@.take(i as int));
                assert(self@.take(i + 1).last() == note@);
            }
            out.insert(k, note);
            proof {
                let after = note_views(out@);
                assert(after =~= before.insert(k as int, self@[i as int]));
                to_multiset_insert(before, k as int, self@[i as int]);
                self@.lemma_take_succ_push(i as int);
                to_multiset_build(self@.take(i as int), self@[i as int]);
                assert forall|a: int, b: int| 0 <= a < b < after.len() implies lists_before(
                    #[trigger] after[a],
                    #[trigger] after[b],
                ) by {
                    if b == k {
                        assert(after[a] == before[a]);
                    } else if a == k {
                        assert(after[b] == before[b - 1]);
                        lemma_lists_total(before[k as int], after[k as int]);
                        if b - 1 > k {
                            lemma_lists_transitive(after[k as int], before[k as int], before[b - 1]);
                        }
                    } else if a < k {
                        assert(after[a] == before[a]);
                        if b < k {
                            assert(after[b] == before[b]);
                        } else {
                            assert(after[b] == before[b - 1]);
                        }
                    } else {
                        assert(after[a] == before[a - 1]);
                        assert(after[b] == before[b - 1]);
                    }
                }
            }
            i += 1;
        }
        proof {
            self@.lemma_take_len();
        }
        out
    }

    /// How many notes there are, how many words they hold, and how many
    /// different tags they carry. A word is a run of characters that are
    /// not whitespace. Where the words are more than a `usize` can count,
    /// the count stops at the highest `usize`.
    pub fn get_stats(&self) -> (stats: NoteStats)
        ensures
            stats.total_notes == self@.len(),
            stats.total_words == if total_words(self@) > usize::MAX {
                usize::MAX as int
            } else {
                total_words(self@) as int
            },
            stats.unique_tags == all_tags(self@).to_set().len(),
    {
        let ghost all = self@;
        let mut total: usize = 0;
        let mut seen: Vec<String> = Vec::new();
        let mut i: usize = 0;
        proof {
            assert(all.take(0) =~= Seq::<NoteView>::empty());
            assert(views(seen@) =~= Seq::<Seq<char>>::empty());
            assert(views(seen@).to_set() =~= all_tags(all.take(0)).to_set());
        }
        while i < self.notes.len()
            invariant
                i <= self.notes.len(),
                all == self@,
                total == if total_words(all.take(i as int)) > usize::MAX {
                    usize::MAX as int
                } else {
                    total_words(all.take(i as int)) as int
                },
                views(seen@).no_duplicates(),
                views(seen@).to_set() == all_tags(all.take(i as int)).to_set(),
            decreases self.notes.len() - i,
        {
            proof {
                assert(all.take(i + 1).drop_last() =~= all.take(i as int));
                assert(all.take(i + 1).last() == all[i as int]);
            }
            let words = count_words(self.notes[i].content.as_str());
            if total > usize::MAX - words {
                total = usize::MAX;
            } else {
                total = total + words;
            }
            let tags = &self.notes[i].tags;
            let ghost done = all_tags(all.take(i as int));
            let mut j: usize = 0;
            assert(views(tags@).take(0) =~= Seq::<Seq<char>>::empty());
            assert(done + views(tags@).take(0) =~= done);
            while j < tags.len()
                invariant
                    j <= tags.len(),
                    views(seen@).no_duplicates(),
                    views(seen@).to_set() == (done + views(tags@).take(j as int)).to_set(),
                decreases tags.len() - j,
            {
                let ghost so_far = done + views(tags@).take(j as int);
                let ghost tag = views(tags@)[j as int];
                proof {
                    views(tags@).lemma_take_succ_push(j as int);
                    assert(done + views(tags@).take(j + 1) =~= so_far.push(tag));
                    so_far.lemma_push_to_set_commute(tag);
                }
                if !holds_string(&seen, tags[j].as_str()) {
                    let ghost had = views(seen@);
                    seen.push(copy_string(&tags[j]));
                    proof {
                        assert(views(seen@) =~= had.push(tag));
                        had.lemma_push_to_set_commute(tag);
                        assert forall|a: int, b: int|
                            0 <= a < views(seen@).len() && 0 <= b < views(seen@).len() && a
                                != b implies views(seen@)[a] != views(seen@)[b] by {
                            if a < had.len() && b < had.len() {
                                assert(had[a] != had[b]);
                            } else if a < had.len() {
                                assert(had.contains(had[a]));
                            } else {
                                assert(had.contains(had[b]));
                            }
                        }
                    }
                } else {
                    assert(views(seen@).to_set().insert(tag) =~= views(seen@).to_set());
                }
                j += 1;
            }
            proof {
                views(tags@).lemma_take_len();
                assert(all[i as int].tags == views(tags@));
            }
            i += 1;
        }
        proof {
            all.lemma_take_len();
            views(seen@).unique_seq_to_set();
        }
        NoteStats { total_notes: self.notes.len(), total_words: total, unique_tags: seen.len() }
    }

    /// Repairs the positions of the notes, at the time `now`, and hands
    /// back a copy of each note that was given a new position: these are to
    /// be written again. A displaced note counts as updated at `now`;
    /// nothing else changes in any note.
    pub fn repair(&mut self, now: &str) -> (rewritten: Vec<Note>)
        requires
            old(self).wf(),
        ensures
            final(self).wf(),
            final(self)@ == repaired_notes(old(self)@, now@),
            positions_sound(positions_of(final(self)@)),
            note_views(rewritten@) == final(self)@.filter(displaced_note(old(self)@)),
    {
        let positions = self.positions();
        let repair = repair_positions(&positions);
        let ghost before = self@;
        proof {
            crate::positions::lemma_repair_unique(positions@);
        }
        let ghost p = displaced_note(before);
        let mut rewritten: Vec<Note> = Vec::new();
        let mut fixed: Vec<Note> = Vec::new();
        let mut i: usize = 0;
        proof {
            reveal(Seq::filter);
            assert(repaired_notes(before, now@).take(0).filter(p) =~= Seq::<NoteView>::empty());
            assert(note_views(rewritten@) =~= Seq::<NoteView>::empty());
        }
        while i < self.notes.len()
            invariant
                i <= self.notes.len(),
                before == self@,
                distinct_ids(before),
                p == displaced_note(before),
                positions@ == positions_of(before),
                repair.positions@ == repaired(positions@),
                repair.positions@.len() == before.len(),
                repair.displaced@.len() == before.len(),
                forall|j: int|
                    0 <= j < before.len() ==> repair.displaced@[j] == repair_displaces(
                        positions@,
                        j,
                    ),
                fixed@.len() == i,
                forall|j: int| 0 <= j < i ==> fixed@[j]@ == repaired_notes(before, now@)[j],
                note_views(rewritten@) == repaired_notes(before, now@).take(i as int).filter(p),
            decreases self.notes.len() - i,
        {
            let ghost target = repaired_notes(before, now@);
            proof {
                target.lemma_take_succ_push(i as int);
                target.take(i as int).lemma_filter_push(target[i as int], p);
                assert(target[i as int].id == before[i as int].id);
                if repair_displaces(positions@, i as int) {
                    assert(p(target[i as int]));
                } else if p(target[i as int]) {
                    let k = choose|k: int|
                        0 <= k < before.len() && (#[trigger] before[k]).id == target[i as int].id
                            && repair_displaces(positions_of(before), k);
                    assert(k == i);
                }
            }
            let mut note = self.notes[i].copy();
            if repair.displaced[i] {
                note.position = repair.positions[i];
                note.updated_at = now.to_owned();
                let ghost had = note_views(rewritten@);
                rewritten.push(note.copy());
                assert(note_views(rewritten@) =~= had.push(target[i as int]));
            }
            fixed.push(note);
            i += 1;
        }
        proof {
            let target = repaired_notes(before, now@);
            target.lemma_take_len();
            assert(note_views(fixed@) =~= target);
            lemma_repaired_positions(before, now@);
        }
        self.notes = fixed;
        rewritten
    }
}

/// Whether `r` and the notes `after` are what the making of a note from a
/// request comes to, under the id `id` at the time `now`: the note is
/// put after the highest position; it fails, and the notes stay as they
/// are, exactly where a note has the id or no position is left.
pub open spec fn creation(
    before: Seq<NoteView>,
    request: CreateView,
    id: Seq<char>,
    now: Seq<char>,
    r: Result<Note, BlinkError>,
    after: Seq<NoteView>,
) -> bool {
    match r {
        Ok(n) => !has_id(before, id) && highest_position(before) < i32::MAX && n@ == created(
            request,
            id,
            now,
            Some((highest_position(before) + 1) as i32),
        ) && after == before.push(n@),
        Err(BlinkError::Conflict(_)) => (has_id(before, id) || highest_position(before)
            == i32::MAX) && after == before,
        Err(_) => false,
    }
}

/// Notes that the repair of `before` gives a new position.
pub open spec fn displaced_note(before: Seq<NoteView>) -> spec_fn(NoteView) -> bool {
    |n: NoteView|
        exists|i: int|
            0 <= i < before.len() && (#[trigger] before[i]).id == n.id && repair_displaces(
                positions_of(before),
                i,
            )
}

/// The notes after their positions were repaired at the time `now`.
pub open spec fn repaired_notes(ns: Seq<NoteView>, now: Seq<char>) -> Seq<NoteView> {
    Seq::new(
        ns.len(),
        |i: int|
            if repair_displaces(positions_of(ns), i) {
                NoteView { position: repaired(positions_of(ns))[i], updated_at: now, ..ns[i] }
            } else {
                ns[i]
            },
    )
}

/// The positions of the notes after repair are the repaired positions.
pub proof fn lemma_repaired_positions(ns: Seq<NoteView>, now: Seq<char>)
    ensures
        positions_of(repaired_notes(ns, now)) == repaired(positions_of(ns)),
        positions_sound(positions_of(repaired_notes(ns, now))),
{
    let ps = positions_of(ns);
    let target = repaired_notes(ns, now);
    crate::positions::lemma_repair_unique(ps);
    assert forall|j: int| 0 <= j < ns.len() implies positions_of(target)[j] == repaired(ps)[j] by {
        if !repair_displaces(ps, j) {
            crate::positions::lemma_uncontested_keeps(ps, j);
        }
    }
    assert(positions_of(target) =~= repaired(ps));
}

/// A repair changes no note's id,
/// title, content or tags, and it leaves alone every note that it does
/// not displace. So a note that holds position zero by right is the same
/// note with the same content after any load.
pub proof fn lemma_repair_leaves_text(ns: Seq<NoteView>, now: Seq<char>)
    ensures
        repaired_notes(ns, now).len() == ns.len(),
        forall|j: int|
            0 <= j < ns.len() ==> {
                let after = #[trigger] repaired_notes(ns, now)[j];
                &&& after.id == ns[j].id
                &&& after.title == ns[j].title
                &&& after.content == ns[j].content
                &&& after.tags == ns[j].tags
                &&& after.created_at == ns[j].created_at
                &&& !repair_displaces(positions_of(ns), j) ==> after == ns[j]
            },
{
}

/// A repair of what a repair made changes
/// nothing, whenever it is made.
pub proof fn lemma_second_repair_changes_nothing(ns: Seq<NoteView>, now: Seq<char>, later: Seq<char>)
    ensures
        repaired_notes(repaired_notes(ns, now), later) == repaired_notes(ns, now),
{
    let once = repaired_notes(ns, now);
    lemma_repaired_positions(ns, now);
    crate::positions::lemma_repair_idempotent(positions_of(ns));
    assert(repaired_notes(once, later) =~= once);
}

/// Whether `a` lists before `b`, or with it.
pub fn lists_first(a: &Note, b: &Note) -> (r: bool)
    ensures
        r == lists_before(a@, b@),
{
    match (a.position, b.position) {
        (Some(x), Some(y)) => x <= y,
        (Some(_), None) => true,
        (None, Some(_)) => false,
        (None, None) => !chars_lt(
            &chars_of(a.created_at.as_str()),
            &chars_of(b.created_at.as_str()),
        ),
    }
}

/// Keeping part of the notes keeps their ids distinct.
pub proof fn lemma_filter_distinct_ids(ns: Seq<NoteView>, p: spec_fn(NoteView) -> bool)
    requires
        distinct_ids(ns),
    ensures
        distinct_ids(ns.filter(p)),
    decreases ns.len(),
{
    reveal(Seq::filter);
    if ns.len() > 0 {
        let rest = ns.drop_last();
        lemma_filter_distinct_ids(rest, p);
        let f = rest.filter(p);
        if p(ns.last()) {
            let g = f.push(ns.last());
            assert forall|i: int, j: int| 0 <= i < j < g.len() implies (#[trigger] g[i]).id != (
            #[trigger] g[j]).id by {
                if j == f.len() {
                    assert(f.contains(f[i]));
                    rest.lemma_filter_contains_rev(p, f[i]);
                    let k = choose|k: int| 0 <= k < rest.len() && rest[k] == f[i];
                    assert(ns[k] == f[i]);
                }
            }
        }
    }
}

/// Without the note under an id, no note has the id; and where none had
/// it, nothing changes.
pub proof fn lemma_without_id(ns: Seq<NoteView>, id: Seq<char>)
    ensures
        !has_id(ns.filter(other_id(id)), id),
        !has_id(ns, id) ==> ns.filter(other_id(id)) == ns,
    decreases ns.len(),
{
    reveal(Seq::filter);
    if ns.len() > 0 {
        let rest = ns.drop_last();
        lemma_without_id(rest, id);
        if !has_id(ns, id) {
            assert forall|i: int| 0 <= i < rest.len() implies (#[trigger] rest[i]).id != id by {
                assert(ns[i].id != id);
            }
            assert(!has_id(rest, id));
            assert(ns.last().id != id);
            assert(rest.push(ns.last()) =~= ns);
        }
    }
}


/// How many words a text holds: how many times a character that is not
/// whitespace stands at the start or after whitespace.
pub open spec fn word_count(s: Seq<char>) -> nat
    decreases s.len(),
{
    if s.len() == 0 {
        0
    } else {
        word_count(s.drop_last()) + if !is_whitespace(s.last()) && (s.len() == 1 || is_whitespace(
            s[s.len() - 2],
        )) {
            1nat
        } else {
            0nat
        }
    }
}

/// How many words the notes hold together.
pub open spec fn total_words(ns: Seq<NoteView>) -> nat
    decreases ns.len(),
{
    if ns.len() == 0 {
        0
    } else {
        total_words(ns.drop_last()) + word_count(ns.last().content)
    }
}

/// The tags of all the notes, one note after the other.
pub open spec fn all_tags(ns: Seq<NoteView>) -> Seq<Seq<char>>
    decreases ns.len(),
{
    if ns.len() == 0 {
        Seq::empty()
    } else {
        all_tags(ns.drop_last()) + ns.last().tags
    }
}

/// How many words a text holds.
pub fn count_words(content: &str) -> (n: usize)
    ensures
        n == word_count(content@),
{
    let chars = chars_of(content);
    let mut n: usize = 0;
    let mut i: usize = 0;
    assert(chars@.take(0) =~= Seq::<char>::empty());
    while i < chars.len()
        invariant
            i <= chars.len(),
            n <= i,
            n == word_count(chars@.take(i as int)),
        decreases chars.len() - i,
    {
        proof {
            let t = chars@.take(i + 1);
            assert(t.drop_last() =~= chars@.take(i as int));
            assert(t.last() == chars@[i as int]);
            if i > 0 {
                assert(t[t.len() - 2] == chars@[i - 1]);
            }
        }
        if !whitespace(chars[i]) && (i == 0 || whitespace(chars[i - 1])) {
            n += 1;
        }
        i += 1;
    }
    assert(chars@.take(chars.len() as int) =~= chars@);
    n
}

} // verus!
