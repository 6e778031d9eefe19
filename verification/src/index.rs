//! The secondary index: for each note its metadata, the file it is kept
//! in and the hash of that file. The index mirrors the notes and can be
//! made again from them at any time; it is never the source of a note.
use vstd::prelude::*;
use vstd::seq_lib::{to_multiset_build, to_multiset_insert};
use crate::clock::normalized_timestamp;
use crate::error::BlinkError;
use crate::note::{Note, NoteView};
use crate::slug::{generate_slug, slug_of, is_unique_slug, unique_from};
use crate::text::{chars_lt, chars_of, copy_string, copy_strings, seq_lt, str_eq, views};
use crate::trusted::{hash_text, rfc3339_in_utc, sha256_hex};

verus! {

/// What the index keeps of one note.
#[derive(Debug)]
pub struct NoteIndexEntry {
    pub id: String,
    pub title: String,
    /// The name of the note's file within the notes directory.
    pub file_path: String,
    pub created_at: String,
    pub updated_at: String,
    pub tags: Vec<String>,
    pub position: Option<i32>,
    /// The hash of the file's text, where it was computed.
    pub file_hash: Option<String>,
}

/// An entry as a mathematical value.
pub struct EntryView {
    pub id: Seq<char>,
    pub title: Seq<char>,
    pub file_path: Seq<char>,
    pub created_at: Seq<char>,
    pub updated_at: Seq<char>,
    pub tags: Seq<Seq<char>>,
    pub position: Option<i32>,
    pub file_hash: Option<Seq<char>>,
}

impl View for NoteIndexEntry {
    type V = EntryView;

    open spec fn view(&self) -> EntryView {
        EntryView {
            id: self.id@,
            title: self.title@,
            file_path: self.file_path@,
            created_at: self.created_at@,
            updated_at: self.updated_at@,
            tags: views(self.tags@),
            position: self.position,
            file_hash: match self.file_hash {
                Some(h) => Some(h@),
                None => None,
            },
        }
    }
}

impl NoteIndexEntry {
    /// A copy of the entry.
    pub fn copy(&self) -> (out: NoteIndexEntry)
        ensures
            out@ == self@,
    {
        NoteIndexEntry {
            id: copy_string(&self.id),
            title: copy_string(&self.title),
            file_path: copy_string(&self.file_path),
            created_at: copy_string(&self.created_at),
            updated_at: copy_string(&self.updated_at),
            tags: copy_strings(&self.tags),
            position: self.position,
            file_hash: match &self.file_hash {
                Some(h) => Some(copy_string(h)),
                None => None,
            },
        }
    }
}

/// The views of a sequence of entries.
pub open spec fn entry_views(es: Seq<NoteIndexEntry>) -> Seq<EntryView> {
    Seq::new(es.len(), |i: int| es[i]@)
}

/// A time stamp as the index keeps it.
pub open spec fn indexed_time(text: Seq<char>, now: Seq<char>) -> Seq<char> {
    match rfc3339_in_utc(text) {
        Some(t) => t,
        None => now,
    }
}

/// The entry of a note that is kept in the file `file_path` with the text
/// `file_text`. Time stamps are brought to UTC; one that cannot be read
/// is replaced by `now`.
pub open spec fn entry_of(n: NoteView, file_path: Seq<char>, file_text: Seq<char>, now: Seq<char>) -> EntryView {
    EntryView {
        id: n.id,
        title: n.title,
        file_path: file_path,
        created_at: indexed_time(n.created_at, now),
        updated_at: indexed_time(n.updated_at, now),
        tags: n.tags,
        position: n.position,
        file_hash: Some(sha256_hex(file_text)),
    }
}

/// The entry of a note with the time stamps and the file hash that are
/// given.
pub fn entry_from(
    note: &Note,
    file_path: &str,
    created_at: String,
    updated_at: String,
    file_hash: String,
) -> (entry: NoteIndexEntry)
    ensures
        entry@ == (EntryView {
            id: note@.id,
            title: note@.title,
            file_path: file_path@,
            created_at: created_at@,
            updated_at: updated_at@,
            tags: note@.tags,
            position: note@.position,
            file_hash: Some(file_hash@),
        }),
{
    NoteIndexEntry {
        id: copy_string(&note.id),
        title: copy_string(&note.title),
        file_path: file_path.to_owned(),
        created_at,
        updated_at,
        tags: copy_strings(&note.tags),
        position: note.position,
        file_hash: Some(file_hash),
    }
}

/// The entry of a note.
pub fn entry_for(note: &Note, file_path: &str, file_text: &str, now: &str) -> (entry: NoteIndexEntry)
    ensures
        entry@ == entry_of(note@, file_path@, file_text@, now@),
{
    entry_from(
        note,
        file_path,
        normalized_timestamp(note.created_at.as_str(), now),
        normalized_timestamp(note.updated_at.as_str(), now),
        hash_text(file_text),
    )
}

/// No two entries carry the same id.
pub open spec fn distinct_entries(es: Seq<EntryView>) -> bool {
    forall|i: int, j: int| 0 <= i < j < es.len() ==> (#[trigger] es[i]).id != (#[trigger] es[j]).id
}

/// Whether an entry with the id is present.
pub open spec fn has_entry(es: Seq<EntryView>, id: Seq<char>) -> bool {
    exists|i: int| 0 <= i < es.len() && (#[trigger] es[i]).id == id
}

/// The entry with the id.
pub open spec fn entry_with(es: Seq<EntryView>, id: Seq<char>) -> EntryView {
    es[choose|i: int| 0 <= i < es.len() && (#[trigger] es[i]).id == id]
}

/// The entries of the notes, each with the name and the text of its file.
pub open spec fn entries_of(
    notes: Seq<Note>,
    file_names: Seq<String>,
    file_texts: Seq<String>,
    now: Seq<char>,
) -> Seq<EntryView> {
    Seq::new(notes.len(), |i: int| entry_of(notes[i]@, file_names[i]@, file_texts[i]@, now))
}

/// No two entries hold the same position.
pub open spec fn distinct_positions(es: Seq<EntryView>) -> bool {
    forall|i: int, j: int|
        0 <= i < j < es.len() && (#[trigger] es[i]).position is Some ==> es[i].position != (
        #[trigger] es[j]).position
}

/// No two entries name the same file.
pub open spec fn distinct_files(es: Seq<EntryView>) -> bool {
    forall|i: int, j: int|
        0 <= i < j < es.len() ==> (#[trigger] es[i]).file_path != (#[trigger] es[j]).file_path
}

/// No two entries share an id, a position or a file.
pub open spec fn apart(es: Seq<EntryView>) -> bool {
    distinct_entries(es) && distinct_positions(es) && distinct_files(es)
}

/// Whether entry `x` cannot stay beside `e`: it has the id of `e`, its
/// file, or the position that `e` holds.
pub open spec fn clashes(x: EntryView, e: EntryView) -> bool {
    x.id == e.id || x.file_path == e.file_path || (e.position is Some && x.position == e.position)
}

/// Entries that can stay beside `e`.
pub open spec fn clear_of(e: EntryView) -> spec_fn(EntryView) -> bool {
    |x: EntryView| !clashes(x, e)
}

/// The entries after `e` was put in: every entry that has its id, its
/// file or its position has left, and `e` stands at the end.
pub open spec fn with_entry(es: Seq<EntryView>, e: EntryView) -> Seq<EntryView> {
    es.filter(clear_of(e)).push(e)
}

/// The entries after each of `es` was put in, in order, beginning with none.
pub open spec fn put_in_turn(es: Seq<EntryView>) -> Seq<EntryView>
    decreases es.len(),
{
    if es.len() == 0 {
        Seq::empty()
    } else {
        with_entry(put_in_turn(es.drop_last()), es.last())
    }
}

/// Whether an entry under another id than `id` holds position `p`.
pub open spec fn held_by_other(es: Seq<EntryView>, id: Seq<char>, p: i32) -> bool {
    exists|i: int| 0 <= i < es.len() && (#[trigger] es[i]).id != id && es[i].position == Some(p)
}

/// The entries with the entry under `id` moved to position `p` at the
/// time `now`.
pub open spec fn moved_to(es: Seq<EntryView>, id: Seq<char>, p: i32, now: Seq<char>) -> Seq<
    EntryView,
> {
    Seq::new(
        es.len(),
        |i: int|
            if es[i].id == id {
                EntryView { position: Some(p), updated_at: now, ..es[i] }
            } else {
                es[i]
            },
    )
}

/// Entries under another id than `id`.
pub open spec fn other_entry(id: Seq<char>) -> spec_fn(EntryView) -> bool {
    |e: EntryView| e.id != id
}

/// The file names that the entries use, without their extension.
pub open spec fn stems_of(es: Seq<EntryView>) -> Seq<Seq<char>> {
    Seq::new(es.len(), |i: int| stem_of(es[i].file_path))
}

/// A file name without the extension of a note's file.
pub open spec fn stem_of(file_name: Seq<char>) -> Seq<char> {
    if file_name.len() >= 3 && file_name.subrange(file_name.len() - 3, file_name.len() as int)
        == seq!['.', 'm', 'd'] {
        file_name.subrange(0, file_name.len() - 3)
    } else {
        file_name
    }
}

/// The name of a note's file for a stem.
pub open spec fn file_name_of(stem: Seq<char>) -> Seq<char> {
    stem + seq!['.', 'm', 'd']
}

/// The stem from which the file name of a new note starts: the slug of
/// its title, or its id where the title gives no slug.
pub open spec fn wanted_stem(n: NoteView) -> Seq<char> {
    if slug_of(n.title).len() > 0 {
        slug_of(n.title)
    } else {
        n.id
    }
}

/// The listing order of entries: as that of notes.
pub open spec fn entry_before(a: EntryView, b: EntryView) -> bool {
    match (a.position, b.position) {
        (Some(x), Some(y)) => x <= y,
        (Some(_), None) => true,
        (None, Some(_)) => false,
        (None, None) => !seq_lt(a.created_at, b.created_at),
    }
}

/// Where entry `e` goes among entries in listing order, looking from
/// index `k` on: behind every entry that lists before it or with it.
pub open spec fn entry_slot_from(es: Seq<EntryView>, e: EntryView, k: int) -> int
    decreases es.len() - k,
{
    if 0 <= k < es.len() && entry_before(es[k], e) {
        entry_slot_from(es, e, k + 1)
    } else {
        k
    }
}

/// The entries in listing order. Entries that list alike stay in the
/// order in which they stand.
pub open spec fn entries_in_listing_order(es: Seq<EntryView>) -> Seq<EntryView>
    decreases es.len(),
{
    if es.len() == 0 {
        Seq::empty()
    } else {
        let rest = entries_in_listing_order(es.drop_last());
        rest.insert(entry_slot_from(rest, es.last(), 0), es.last())
    }
}

/// Whether the entries stand in listing order.
pub open spec fn entries_listed(es: Seq<EntryView>) -> bool {
    forall|i: int, j: int|
        0 <= i < j < es.len() ==> entry_before(#[trigger] es[i], #[trigger] es[j])
}

/// The highest position in the index, or zero where there is none.
pub open spec fn top_position(es: Seq<EntryView>) -> int
    decreases es.len(),
{
    if es.len() == 0 {
        0
    } else {
        let rest = top_position(es.drop_last());
        match es.last().position {
            Some(p) => if p > rest {
                p as int
            } else {
                rest
            },
            None => rest,
        }
    }
}

/// The index as a mathematical value.
pub struct IndexView {
    pub entries: Seq<EntryView>,
    pub last_updated: Seq<char>,
}

/// The secondary index.
pub struct NotesIndex {
    entries: Vec<NoteIndexEntry>,
    last_updated: String,
}

impl View for NotesIndex {
    type V = IndexView;

    closed spec fn view(&self) -> IndexView {
        IndexView { entries: entry_views(self.entries@), last_updated: self.last_updated@ }
    }
}

impl NotesIndex {
    /// The invariant of an index: no two entries share an id, a position
    /// or a file.
    pub open spec fn wf(&self) -> bool {
        apart(self@.entries)
    }

    /// An index without entries, made at the time `now`.
    pub fn new(now: &str) -> (out: NotesIndex)
        ensures
            out.wf(),
            out@.entries == Seq::<EntryView>::empty(),
            out@.last_updated == now@,
    {
        let out = NotesIndex { entries: Vec::new(), last_updated: now.to_owned() };
        assert(out@.entries =~= Seq::<EntryView>::empty());
        out
    }

    /// How many notes are indexed.
    pub fn len(&self) -> (n: usize)
        ensures
            n == self@.entries.len(),
    {
        self.entries.len()
    }

    /// When the index was last changed.
    pub fn last_updated(&self) -> (t: String)
        ensures
            t@ == self@.last_updated,
    {
        copy_string(&self.last_updated)
    }

    fn index_of(&self, id: &str) -> (r: Option<usize>)
        ensures
            match r {
                Some(i) => i < self@.entries.len() && self@.entries[i as int].id == id@,
                None => !has_entry(self@.entries, id@),
            },
    {
        let mut i: usize = 0;
        while i < self.entries.len()
            invariant
                i <= self.entries.len(),
                forall|j: int| 0 <= j < i ==> (#[trigger] self@.entries[j]).id != id@,
            decreases self.entries.len() - i,
        {
            if str_eq(self.entries[i].id.as_str(), id) {
                return Some(i);
            }
            i += 1;
        }
        None
    }

    /// Whether a note is indexed.
    pub fn note_exists(&self, id: &str) -> (r: bool)
        ensures
            r == has_entry(self@.entries, id@),
    {
        self.index_of(id).is_some()
    }

    /// The entry of a note, if it is indexed.
    pub fn get_note(&self, id: &str) -> (r: Option<NoteIndexEntry>)
        requires
            self.wf(),
        ensures
            match r {
                Some(e) => has_entry(self@.entries, id@) && e@ == entry_with(self@.entries, id@),
                None => !has_entry(self@.entries, id@),
            },
    {
        match self.index_of(id) {
            Some(i) => {
                proof {
                    let k = choose|k: int|
                        0 <= k < self@.entries.len() && (#[trigger] self@.entries[k]).id == id@;
                    assert(k == i);
                }
                Some(self.entries[i].copy())
            },
            None => None,
        }
    }

    /// Puts an entry in. An entry that has its id leaves, and so does an
    /// entry of another note that names its file or holds its position:
    /// afterwards the new entry alone has its id, its file and its
    /// position. The index counts as changed at `now`.
    pub fn upsert_note(&mut self, entry: NoteIndexEntry, now: &str)
        requires
            old(self).wf(),
        ensures
            final(self).wf(),
            final(self)@.entries == with_entry(old(self)@.entries, entry@),
            final(self)@.last_updated == now@,
            has_entry(final(self)@.entries, entry@.id),
            entry_with(final(self)@.entries, entry@.id) == entry@,
            forall|i: int|
                0 <= i < final(self)@.entries.len() && clashes(
                    #[trigger] final(self)@.entries[i],
                    entry@,
                ) ==> final(self)@.entries[i] == entry@,
    {
        let ghost p = clear_of(entry@);
        let ghost all = self@.entries;
        let mut kept: Vec<NoteIndexEntry> = Vec::new();
        let mut i: usize = 0;
        proof {
            reveal(Seq::filter);
            assert(all.take(0).filter(p) =~= Seq::<EntryView>::empty());
            assert(entry_views(kept@) =~= Seq::<EntryView>::empty());
        }
        while i < self.entries.len()
            invariant
                i <= self.entries.len(),
                all == self@.entries,
                p == clear_of(entry@),
                entry_views(kept@) == all.take(i as int).filter(p),
            decreases self.entries.len() - i,
        {
            proof {
                all.lemma_take_succ_push(i as int);
                all.take(i as int).lemma_filter_push(all[i as int], p);
            }
            if !entries_clash(&self.entries[i], &entry) {
                let ghost before = entry_views(kept@);
                kept.push(self.entries[i].copy());
                assert(entry_views(kept@) =~= before.push(all[i as int]));
            }
            i += 1;
        }
        let ghost cleared = entry_views(kept@);
        let ghost e = entry@;
        kept.push(entry);
        proof {
            all.lemma_take_len();
            assert(entry_views(kept@) =~= cleared.push(e));
            lemma_with_entry(all, e);
        }
        self.entries = kept;
        self.last_updated = now.to_owned();
    }

    /// Takes the entry of a note out, and says whether there was one. The
    /// index counts as changed at `now` where there was.
    pub fn delete_note(&mut self, id: &str, now: &str) -> (removed: bool)
        requires
            old(self).wf(),
        ensures
            final(self).wf(),
            removed == has_entry(old(self)@.entries, id@),
            final(self)@.entries == old(self)@.entries.filter(other_entry(id@)),
            !has_entry(final(self)@.entries, id@),
            final(self)@.last_updated == if removed {
                now@
            } else {
                old(self)@.last_updated
            },
    {
        let found = self.index_of(id).is_some();
        let ghost p = other_entry(id@);
        let ghost all = self@.entries;
        let mut kept: Vec<NoteIndexEntry> = Vec::new();
        let mut i: usize = 0;
        proof {
            reveal(Seq::filter);
            assert(all.take(0).filter(p) =~= Seq::<EntryView>::empty());
            assert(entry_views(kept@) =~= Seq::<EntryView>::empty());
        }
        while i < self.entries.len()
            invariant
                i <= self.entries.len(),
                all == self@.entries,
                p == other_entry(id@),
                entry_views(kept@) == all.take(i as int).filter(p),
            decreases self.entries.len() - i,
        {
            proof {
                all.lemma_take_succ_push(i as int);
                all.take(i as int).lemma_filter_push(all[i as int], p);
            }
            if !str_eq(self.entries[i].id.as_str(), id) {
                let ghost before = entry_views(kept@);
                kept.push(self.entries[i].copy());
                assert(entry_views(kept@) =~= before.push(all[i as int]));
            }
            i += 1;
        }
        proof {
            all.lemma_take_len();
            lemma_filter_apart(all, p);
            lemma_without_entry(all, id@);
        }
        self.entries = kept;
        if found {
            self.last_updated = now.to_owned();
        }
        found
    }

    /// A copy of every entry, in the order of the index.
    pub fn entries(&self) -> (out: Vec<NoteIndexEntry>)
        ensures
            entry_views(out@) == self@.entries,
    {
        let mut out: Vec<NoteIndexEntry> = Vec::new();
        let mut i: usize = 0;
        while i < self.entries.len()
            invariant
                i <= self.entries.len(),
                out@.len() == i,
                forall|j: int| 0 <= j < i ==> out@[j]@ == self.entries@[j]@,
            decreases self.entries.len() - i,
        {
            out.push(self.entries[i].copy());
            i += 1;
        }
        assert(entry_views(out@) =~= self@.entries);
        out
    }

    /// Every entry, in listing order: by position, the entries without one
    /// last, the newest first. Entries that list alike stay in the order
    /// of the index.
    pub fn get_all_notes(&self) -> (out: Vec<NoteIndexEntry>)
        ensures
            entry_views(out@) == entries_in_listing_order(self@.entries),
            entries_listed(entry_views(out@)),
            entry_views(out@).to_multiset() == self@.entries.to_multiset(),
    {
        let ghost all = self@.entries;
        let mut out: Vec<NoteIndexEntry> = Vec::new();
        let mut i: usize = 0;
        assert(all.take(0) =~= Seq::<EntryView>::empty());
        assert(entry_views(out@) =~= Seq::<EntryView>::empty());
        while i < self.entries.len()
            invariant
                i <= self.entries.len(),
                all == self@.entries,
                entry_views(out@) == entries_in_listing_order(all.take(i as int)),
                entries_listed(entry_views(out@)),
                entry_views(out@).to_multiset() == all.take(i as int).to_multiset(),
            decreases self.entries.len() - i,
        {
            let entry = self.entries[i].copy();
            let ghost before = entry_views(out@);
            let mut k: usize = 0;
            while k < out.len() && entry_first(&out[k], &entry)
                invariant
                    k <= out.len(),
                    before == entry_views(out@),
                    forall|j: int| 0 <= j < k ==> entry_before(#[trigger] out@[j]@, entry@),
                    entry_slot_from(before, entry@, 0) == entry_slot_from(before, entry@, k as int),
                decreases out.len() - k,
            {
                assert(before[k as int] == out@[k as int]@);
                k += 1;
            }
            proof {
                if k < out.len() {
                    assert(before[k as int] == out@[k as int]@);
                }
                assert(entry_slot_from(before, entry@, 0) == k);
                assert(all.take(i + 1).drop_last() =~= all.take(i as int));
                assert(all.take(i + 1).last() == entry@);
            }
            out.insert(k, entry);
            proof {
                let after = entry_views(out@);
                assert(after =~= before.insert(k as int, all[i as int]));
                to_multiset_insert(before, k as int, all[i as int]);
                all.lemma_take_succ_push(i as int);
                to_multiset_build(all.take(i as int), all[i as int]);
                assert forall|a: int, b: int| 0 <= a < b < after.len() implies entry_before(
                    #[trigger] after[a],
                    #[trigger] after[b],
                ) by {
                    if b == k {
                        assert(after[a] == before[a]);
                    } else if a == k {
                        assert(after[b] == before[b - 1]);
                        lemma_entries_total(before[k as int], after[k as int]);
                        if b - 1 > k {
                            lemma_entries_transitive(
                                after[k as int],
                                before[k as int],
                                before[b - 1],
                            );
                        }
                    } else if a < k {
                        assert(after[a] == before[a]);
                        if b < k {
                            assert(after[b] == before[b]);
                        } else {
                            assert(after[b] == before[b - 1]);
                        }
                    } else {
                        assert(after[a] == before[a - 1]);
                        assert(after[b] == before[b - 1]);
                    }
                }
            }
            i += 1;
        }
        proof {
            all.lemma_take_len();
        }
        out
    }

    /// The position after the highest one in the index; positions in the
    /// index count from one. `None` where the highest is the last there is.
    pub fn get_next_position(&self) -> (r: Option<i32>)
        ensures
            match r {
                Some(p) => p == top_position(self@.entries) + 1,
                None => top_position(self@.entries) == i32::MAX,
            },
    {
        let ghost all = self@.entries;
        let mut highest: i32 = 0;
        let mut i: usize = 0;
        assert(all.take(0) =~= Seq::<EntryView>::empty());
        while i < self.entries.len()
            invariant
                i <= self.entries.len(),
                all == self@.entries,
                highest == top_position(all.take(i as int)),
            decreases self.entries.len() - i,
        {
            assert(all.take(i + 1).drop_last() =~= all.take(i as int));
            match self.entries[i].position {
                Some(p) => {
                    if p > highest {
                        highest = p;
                    }
                },
                None => {},
            }
            i += 1;
        }
        assert(all.take(self.entries.len() as int) =~= all);
        if highest == i32::MAX {
            None
        } else {
            Some(highest + 1)
        }
    }

    /// Gives the entry of a note another position, at the time `now`, and
    /// says whether there was such an entry. Where the entry of another
    /// note holds the position it fails, and the index stays as it is.
    pub fn update_position(&mut self, id: &str, new_position: i32, now: &str) -> (r: Result<
        bool,
        BlinkError,
    >)
        requires
            old(self).wf(),
        ensures
            final(self).wf(),
            final(self)@.last_updated == old(self)@.last_updated,
            match r {
                Ok(found) => found == has_entry(old(self)@.entries, id@) && !(found && held_by_other(
                    old(self)@.entries,
                    id@,
                    new_position,
                )) && final(self)@.entries == moved_to(
                    old(self)@.entries,
                    id@,
                    new_position,
                    now@,
                ),
                Err(BlinkError::Conflict(m)) => has_entry(old(self)@.entries, id@) && held_by_other(
                    old(self)@.entries,
                    id@,
                    new_position,
                ) && final(self)@ == old(self)@ && m@ == "Position is held by another note"@,
                Err(_) => false,
            },
    {
        let ghost before = self@.entries;
        match self.index_of(id) {
            Some(i) => {
                let mut k: usize = 0;
                while k < self.entries.len()
                    invariant
                        k <= self.entries.len(),
                        before == self@.entries,
                        apart(before),
                        i < before.len(),
                        before[i as int].id == id@,
                        forall|j: int|
                            0 <= j < k ==> (#[trigger] before[j]).id == id@ || before[j].position
                                != Some(new_position),
                    decreases self.entries.len() - k,
                {
                    if k != i && self.entries[k].position == Some(new_position) {
                        assert(before[k as int].id != id@) by {
                            if k < i {
                                assert(before[k as int].id != before[i as int].id);
                            } else {
                                assert(before[i as int].id != before[k as int].id);
                            }
                        }
                        return Err(
                            BlinkError::Conflict("Position is held by another note".to_owned()),
                        );
                    }
                    k += 1;
                }
                let mut entry = self.entries[i].copy();
                entry.position = Some(new_position);
                entry.updated_at = now.to_owned();
                self.entries.set(i, entry);
                proof {
                    let after = self@.entries;
                    assert(after =~= moved_to(before, id@, new_position, now@));
                    assert forall|a: int, b: int| 0 <= a < b < after.len() implies !clashes(
                        #[trigger] after[a],
                        #[trigger] after[b],
                    ) && !clashes(after[b], after[a]) by {
                        assert(!clashes(before[a], before[b]) && !clashes(before[b], before[a]));
                    }
                }
                Ok(true)
            },
            None => {
                assert(self@.entries =~= moved_to(before, id@, new_position, now@));
                Ok(false)
            },
        }
    }

    /// Makes the index again from the notes, at the time `now`: it is
    /// emptied, and the entry of each note is put in, in the order of the
    /// notes. `file_names` holds the name of each note's file and
    /// `file_texts` its text. Where no two notes share an id, a position
    /// or a file, as after a load, the index then holds one entry for
    /// each note, in the order of the notes.
    pub fn rebuild(
        &mut self,
        notes: &Vec<Note>,
        file_names: &Vec<String>,
        file_texts: &Vec<String>,
        now: &str,
    )
        requires
            file_names@.len() == notes@.len(),
            file_texts@.len() == notes@.len(),
        ensures
            final(self).wf(),
            final(self)@.last_updated == now@,
            final(self)@.entries == put_in_turn(
                entries_of(notes@, file_names@, file_texts@, now@),
            ),
            apart(entries_of(notes@, file_names@, file_texts@, now@)) ==> final(self)@.entries
                == entries_of(notes@, file_names@, file_texts@, now@),
    {
        let ghost all = entries_of(notes@, file_names@, file_texts@, now@);
        self.entries = Vec::new();
        self.last_updated = now.to_owned();
        assert(self@.entries =~= put_in_turn(all.take(0)));
        let mut i: usize = 0;
        while i < notes.len()
            invariant
                i <= notes.len(),
                file_names@.len() == notes@.len(),
                file_texts@.len() == notes@.len(),
                all == entries_of(notes@, file_names@, file_texts@, now@),
                self.wf(),
                self@.last_updated == now@,
                self@.entries == put_in_turn(all.take(i as int)),
            decreases notes.len() - i,
        {
            let entry = entry_for(&notes[i], file_names[i].as_str(), file_texts[i].as_str(), now);
            proof {
                assert(all.take(i + 1).drop_last() =~= all.take(i as int));
                assert(all.take(i + 1).last() == entry@);
            }
            self.upsert_note(entry, now);
            i += 1;
        }
        proof {
            assert(all.take(notes@.len() as int) =~= all);
            if apart(all) {
                lemma_put_in_turn_apart(all);
            }
        }
    }

    /// Gives the entries the positions one, two, three and so on, in their
    /// listing order.
    pub fn reorder_positions(&mut self)
        requires
            old(self).wf(),
            old(self)@.entries.len() < i32::MAX,
        ensures
            final(self).wf(),
            final(self)@.last_updated == old(self)@.last_updated,
            final(self)@.entries.len() == old(self)@.entries.len(),
            forall|i: int|
                0 <= i < final(self)@.entries.len() ==> (
                #[trigger] final(self)@.entries[i]).position == Some((i + 1) as i32),
            entries_listed(unpositioned(final(self)@.entries, old(self)@.entries)),
            unpositioned(final(self)@.entries, old(self)@.entries).to_multiset()
                == old(self)@.entries.to_multiset(),
    {
        let ghost before = self@.entries;
        let sorted = self.get_all_notes();
        proof {
            entry_views(sorted@).to_multiset_ensures();
            before.to_multiset_ensures();
        }
        let mut out: Vec<NoteIndexEntry> = Vec::new();
        let mut i: usize = 0;
        while i < sorted.len()
            invariant
                i <= sorted.len(),
                sorted@.len() < i32::MAX,
                out@.len() == i,
                forall|k: int|
                    0 <= k < i ==> (#[trigger] out@[k])@ == (EntryView {
                        position: Some((k + 1) as i32),
                        ..sorted@[k]@
                    }),
            decreases sorted.len() - i,
        {
            let mut e = sorted[i].copy();
            e.position = Some((i + 1) as i32);
            out.push(e);
            i += 1;
        }
        proof {
            let sv = entry_views(sorted@);
            let es = entry_views(out@);
            sv.to_multiset_ensures();
            before.to_multiset_ensures();
            assert(sv.len() == before.len());
            lemma_multiset_apart(before, sv);
            assert forall|a: int, b: int| 0 <= a < b < es.len() implies !clashes(
                #[trigger] es[a],
                #[trigger] es[b],
            ) && !clashes(es[b], es[a]) by {
                assert(!clashes(sv[a], sv[b]) && !clashes(sv[b], sv[a]));
                assert(es[a].position == Some((a + 1) as i32));
                assert(es[b].position == Some((b + 1) as i32));
            }
            assert(unpositioned(es, before) =~= sv) by {
                assert forall|k: int| 0 <= k < sv.len() implies unpositioned(es, before)[k]
                    == sv[k] by {
                    assert(sv.contains(sv[k]));
                    assert(sv.to_multiset().count(sv[k]) > 0);
                    assert(before.to_multiset().count(sv[k]) > 0);
                    assert(before.contains(sv[k]));
                    let m = choose|m: int| 0 <= m < before.len() && before[m] == sv[k];
                    assert(before[m].id == es[k].id);
                    let c = choose|c: int|
                        0 <= c < before.len() && (#[trigger] before[c]).id == es[k].id;
                    assert(c == m);
                }
            }
        }
        self.entries = out;
    }

    /// The file in which a note is kept, as far as the index knows.
    pub fn file_path_of(&self, id: &str) -> (r: Option<String>)
        requires
            self.wf(),
        ensures
            match r {
                Some(p) => has_entry(self@.entries, id@) && p@ == entry_with(
                    self@.entries,
                    id@,
                ).file_path,
                None => !has_entry(self@.entries, id@),
            },
    {
        match self.get_note(id) {
            Some(e) => Some(e.file_path),
            None => None,
        }
    }

    /// The file names in use, without their extension.
    pub fn stems(&self) -> (out: Vec<String>)
        ensures
            views(out@) == stems_of(self@.entries),
    {
        let mut out: Vec<String> = Vec::new();
        let mut i: usize = 0;
        while i < self.entries.len()
            invariant
                i <= self.entries.len(),
                out@.len() == i,
                forall|j: int| 0 <= j < i ==> out@[j]@ == stem_of(self@.entries[j].file_path),
            decreases self.entries.len() - i,
        {
            out.push(file_stem(self.entries[i].file_path.as_str()));
            i += 1;
        }
        assert(views(out@) =~= stems_of(self@.entries));
        out
    }

    /// The name of the file in which a note is to be saved. A note that is
    /// indexed stays in its file, whatever its title has become. A new
    /// note gets a name made from its title, or from its id where the
    /// title gives none, with a number behind it where the name is taken.
    pub fn file_name_for(&self, note: &Note) -> (name: String)
        requires
            self.wf(),
        ensures
            has_entry(self@.entries, note@.id) ==> name@ == entry_with(
                self@.entries,
                note@.id,
            ).file_path,
            !has_entry(self@.entries, note@.id) ==> exists|stem: Seq<char>|
                name@ == file_name_of(stem) && is_unique_slug(
                    wanted_stem(note@),
                    stems_of(self@.entries),
                    stem,
                ) && !stems_of(self@.entries).contains(stem),
    {
        match self.file_path_of(note.id.as_str()) {
            Some(path) => path,
            None => {
                let slug = generate_slug(note.title.as_str());
                let taken = self.stems();
                let stem = if slug.as_str().is_empty() {
                    unique_from(note.id.as_str(), &taken)
                } else {
                    unique_from(slug.as_str(), &taken)
                };
                let name = note_file_name(stem.as_str());
                assert(name@ == file_name_of(stem@));
                name
            },
        }
    }
}

/// The name of a note's file for a stem.
pub fn note_file_name(stem: &str) -> (name: String)
    ensures
        name@ == file_name_of(stem@),
{
    let mut out = chars_of(stem);
    out.push('.');
    out.push('m');
    out.push('d');
    assert(out@ =~= file_name_of(stem@));
    crate::text::string_of(&out)
}

/// A file name without the extension of a note's file.
pub fn file_stem(file_name: &str) -> (stem: String)
    ensures
        stem@ == stem_of(file_name@),
{
    let chars = chars_of(file_name);
    let n = chars.len();
    if n >= 3 && chars[n - 3] == '.' && chars[n - 2] == 'm' && chars[n - 1] == 'd' {
        assert(chars@.subrange(n - 3, n as int) =~= seq!['.', 'm', 'd']);
        crate::text::string_of(&crate::text::slice_of(&chars, 0, n - 3))
    } else {
        proof {
            if n >= 3 {
                let tail = chars@.subrange(n - 3, n as int);
                assert(tail[0] == chars@[n - 3] && tail[1] == chars@[n - 2] && tail[2] == chars@[n
                    - 1]);
            }
        }
        file_name.to_owned()
    }
}

/// Whether `a` lists before `b`, or with it.
pub fn entry_first(a: &NoteIndexEntry, b: &NoteIndexEntry) -> (r: bool)
    ensures
        r == entry_before(a@, b@),
{
    match (a.position, b.position) {
        (Some(x), Some(y)) => x <= y,
        (Some(_), None) => true,
        (None, Some(_)) => false,
        (None, None) => !chars_lt(
            &chars_of(a.created_at.as_str()),
            &chars_of(b.created_at.as_str()),
        ),
    }
}

/// Of two entries, one lists before the other.
pub proof fn lemma_entries_total(a: EntryView, b: EntryView)
    ensures
        entry_before(a, b) || entry_before(b, a),
{
    if a.position is None && b.position is None && seq_lt(a.created_at, b.created_at) {
        crate::text::lemma_seq_lt_asymmetric(a.created_at, b.created_at);
    }
}

/// The listing order of entries is transitive.
pub proof fn lemma_entries_transitive(a: EntryView, b: EntryView, c: EntryView)
    requires
        entry_before(a, b),
        entry_before(b, c),
    ensures
        entry_before(a, c),
{
    if a.position is None && b.position is None && c.position is None {
        crate::text::lemma_seq_ge_transitive(a.created_at, b.created_at, c.created_at);
    }
}

/// Keeping part of the entries keeps them apart.
pub proof fn lemma_filter_apart(es: Seq<EntryView>, p: spec_fn(EntryView) -> bool)
    requires
        apart(es),
    ensures
        apart(es.filter(p)),
    decreases es.len(),
{
    reveal(Seq::filter);
    if es.len() > 0 {
        let rest = es.drop_last();
        lemma_filter_apart(rest, p);
        let f = rest.filter(p);
        if p(es.last()) {
            let g = f.push(es.last());
            assert forall|i: int, j: int| 0 <= i < j < g.len() implies !clashes(
                #[trigger] g[i],
                #[trigger] g[j],
            ) && !clashes(g[j], g[i]) by {
                if j == f.len() {
                    assert(f.contains(f[i]));
                    rest.lemma_filter_contains_rev(p, f[i]);
                    let k = choose|k: int| 0 <= k < rest.len() && rest[k] == f[i];
                    assert(es[k] == f[i]);
                    assert(es[es.len() - 1] == g[j]);
                }
            }
        }
    }
}

/// Whether one entry cannot stay beside another.
pub fn entries_clash(x: &NoteIndexEntry, e: &NoteIndexEntry) -> (r: bool)
    ensures
        r == clashes(x@, e@),
{
    if str_eq(x.id.as_str(), e.id.as_str()) || str_eq(x.file_path.as_str(), e.file_path.as_str()) {
        return true;
    }
    match (x.position, e.position) {
        (Some(a), Some(b)) => a == b,
        _ => false,
    }
}

/// Putting an entry in keeps the entries apart, and leaves the new entry
/// alone with its id, its file and its position.
pub proof fn lemma_with_entry(es: Seq<EntryView>, e: EntryView)
    requires
        apart(es),
    ensures
        apart(with_entry(es, e)),
        has_entry(with_entry(es, e), e.id),
        entry_with(with_entry(es, e), e.id) == e,
        forall|i: int|
            0 <= i < with_entry(es, e).len() && clashes(#[trigger] with_entry(es, e)[i], e)
                ==> with_entry(es, e)[i] == e,
{
    let f = es.filter(clear_of(e));
    let g = with_entry(es, e);
    lemma_filter_apart(es, clear_of(e));
    assert forall|i: int| 0 <= i < f.len() implies !clashes(#[trigger] f[i], e) by {
        es.lemma_filter_pred(clear_of(e), i);
    }
    assert forall|i: int| 0 <= i < f.len() implies g[i] == f[i] by {}
    assert(g[f.len() as int] == e);
    assert forall|i: int, j: int| 0 <= i < j < g.len() implies !clashes(
        #[trigger] g[i],
        #[trigger] g[j],
    ) && !clashes(g[j], g[i]) by {
        if j == f.len() {
            assert(!clashes(f[i], e));
        } else {
            assert(g[i] == f[i] && g[j] == f[j]);
        }
    }
    let k = choose|k: int| 0 <= k < g.len() && (#[trigger] g[k]).id == e.id;
    if k < f.len() {
        assert(!clashes(f[k], e));
    }
}

/// Without the entry under an id, no entry has the id.
pub proof fn lemma_without_entry(es: Seq<EntryView>, id: Seq<char>)
    ensures
        !has_entry(es.filter(other_entry(id)), id),
    decreases es.len(),
{
    reveal(Seq::filter);
    if es.len() > 0 {
        lemma_without_entry(es.drop_last(), id);
    }
}


/// The entries with the positions that they had in `before`, found by id.
pub open spec fn unpositioned(es: Seq<EntryView>, before: Seq<EntryView>) -> Seq<EntryView> {
    Seq::new(es.len(), |i: int| EntryView { position: entry_with(before, es[i].id).position, ..es[i] })
}

/// Entries put in another order are still apart.
pub proof fn lemma_multiset_apart(a: Seq<EntryView>, b: Seq<EntryView>)
    requires
        apart(a),
        a.to_multiset() == b.to_multiset(),
    ensures
        apart(b),
{
    a.to_multiset_ensures();
    b.to_multiset_ensures();
    assert(a.no_duplicates()) by {
        assert forall|i: int, j: int| 0 <= i < a.len() && 0 <= j < a.len() && i != j implies a[i]
            != a[j] by {
            if i < j {
                assert(a[i].id != a[j].id);
            } else {
                assert(a[j].id != a[i].id);
            }
        }
    }
    a.lemma_multiset_has_no_duplicates();
    b.lemma_multiset_has_no_duplicates_conv();
    assert forall|i: int, j: int| 0 <= i < j < b.len() implies !clashes(
        #[trigger] b[i],
        #[trigger] b[j],
    ) && !clashes(b[j], b[i]) by {
        assert(b[i] != b[j]);
        assert(b.contains(b[i]));
        assert(b.contains(b[j]));
        assert(b.to_multiset().count(b[i]) > 0);
        assert(b.to_multiset().count(b[j]) > 0);
        assert(a.to_multiset().count(b[i]) > 0);
        assert(a.to_multiset().count(b[j]) > 0);
        assert(a.contains(b[i]));
        assert(a.contains(b[j]));
        let x = choose|x: int| 0 <= x < a.len() && a[x] == b[i];
        let y = choose|y: int| 0 <= y < a.len() && a[y] == b[j];
        if x < y {
            assert(!clashes(a[x], a[y]) && !clashes(a[y], a[x]));
        } else {
            assert(!clashes(a[y], a[x]) && !clashes(a[x], a[y]));
        }
    }
}

/// Entries that are apart all stay when they are put in one by one.
pub proof fn lemma_put_in_turn_apart(es: Seq<EntryView>)
    requires
        apart(es),
    ensures
        put_in_turn(es) == es,
    decreases es.len(),
{
    if es.len() > 0 {
        let rest = es.drop_last();
        let e = es.last();
        lemma_put_in_turn_apart(rest);
        assert forall|i: int| 0 <= i < rest.len() implies clear_of(e)(#[trigger] rest[i]) by {
            assert(rest[i] == es[i]);
            assert(!clashes(es[i], es[es.len() - 1]));
        }
        lemma_filter_keeps_all(rest, clear_of(e));
        assert(rest.push(e) =~= es);
    } else {
        assert(es =~= Seq::empty());
    }
}

/// A selection that every entry meets keeps every entry.
pub proof fn lemma_filter_keeps_all(es: Seq<EntryView>, p: spec_fn(EntryView) -> bool)
    requires
        forall|i: int| 0 <= i < es.len() ==> p(#[trigger] es[i]),
    ensures
        es.filter(p) == es,
    decreases es.len(),
{
    reveal(Seq::filter);
    if es.len() > 0 {
        let rest = es.drop_last();
        assert forall|i: int| 0 <= i < rest.len() implies p(#[trigger] rest[i]) by {
            assert(rest[i] == es[i]);
        }
        lemma_filter_keeps_all(rest, p);
        assert(rest.push(es.last()) =~= es);
    } else {
        assert(es.filter(p) =~= es);
    }
}

} // verus!
