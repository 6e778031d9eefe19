//! The notes directory: where each file lies, what a file's text means,
//! and what is made of the files when all of them are loaded.
use vstd::prelude::*;
use crate::config::{
    configured_directory, custom_directory, get_configured_notes_directory, join_path, joined,
    StorageConfig,
};
use crate::error::BlinkError;
use crate::frontmatter::{
    fence, frame_note, framed, framed_parts, import_parts, import_shape, is_block,
    lemma_frame_round_trip, plain_title, split_frontmatter, title_of_plain, ImportShape,
};
use crate::index::{entry_of, entry_with, has_entry, with_entry, NotesIndex};
use crate::intake::{
    accept_notes, accounted, came_in, drawn_for, first_with_id, held_in, intake_of, kept_in,
    lemma_every_file, lemma_intake_exact, lemma_intake_parts, lemma_loaded, lemma_loaded_notes,
    loaded, made_of, stems_from, taken_in, Accepted, Intake,
};
use crate::note::{frontmatter_of, note_of, note_views, FrontmatterView, Note, NoteFrontmatter, NoteView};
use crate::positions::{contested, positions_sound, repair_displaces};
use crate::slug::{export_filename, export_name, sanitize_filename, sanitized};
use crate::store::{
    displaced_note, distinct_ids, has_id, note_with, positions_of, repaired_notes, NoteStore,
};
use crate::text::{copy_string, copy_strings, occurs_at, views};
use crate::trusted::{hash_text, sha256_hex};

verus! {

/// The note that a plain file makes: the file's name is its id, its first
/// line gives the title, and the time of the file's last change stands
/// for both time stamps.
pub open spec fn plain_note(content: Seq<char>, stem: Seq<char>, modified_at: Seq<char>) -> NoteView {
    NoteView {
        id: stem,
        title: plain_title(content, stem),
        content: content,
        created_at: modified_at,
        updated_at: modified_at,
        tags: Seq::empty(),
        position: None,
    }
}

/// The note that a file makes, or `None` where the file has a metadata
/// block that could not be read. `frontmatter` is what was read from the
/// block.
pub open spec fn parsed_note(
    content: Seq<char>,
    stem: Seq<char>,
    frontmatter: Option<FrontmatterView>,
    modified_at: Seq<char>,
) -> Option<NoteView> {
    match framed_parts(content) {
        Some((_, body)) => match frontmatter {
            Some(f) => Some(note_of(f, body)),
            None => None,
        },
        None => Some(plain_note(content, stem, modified_at)),
    }
}

/// The file written for a note parses to the note again, in every field.
/// `metadata` is the text of the note's metadata block. No file is written
/// with a text that cannot stand as a block, so this holds of every file
/// that is written.
pub proof fn lemma_note_round_trip(
    n: NoteView,
    metadata: Seq<char>,
    stem: Seq<char>,
    modified_at: Seq<char>,
)
    requires
        is_block(metadata),
    ensures
        parsed_note(framed(metadata, n.content), stem, Some(frontmatter_of(n)), modified_at)
            == Some(n),
{
    lemma_frame_round_trip(metadata, n.content);
}

/// The metadata that was read from a file, as a mathematical value.
pub open spec fn read_frontmatter(frontmatter: Option<&NoteFrontmatter>) -> Option<FrontmatterView> {
    match frontmatter {
        Some(f) => Some(f@),
        None => None,
    }
}

/// Whether two notes hold the same text: what no repair changes.
pub open spec fn same_text(a: NoteView, b: NoteView) -> bool {
    &&& a.title == b.title
    &&& a.content == b.content
    &&& a.created_at == b.created_at
    &&& a.tags == b.tags
}

/// What became of a note that was to be taken in.
#[derive(Debug)]
pub enum Placement {
    /// The note was taken in as it is.
    Kept,
    /// The note's id was taken; it was taken in under the new id.
    Renamed,
    /// The note's id and the new id were both taken; it was left out.
    Rejected,
}

/// A note under a new id, given at the time `now`.
pub open spec fn renamed(n: NoteView, id: Seq<char>, now: Seq<char>) -> NoteView {
    NoteView { id: id, updated_at: now, ..n }
}

/// Takes a note into the store under an id that no other note has: its
/// own where that is free, else `candidate`. A note that gets the new id
/// counts as updated at `now`. Where both ids are taken the store stays
/// as it is.
pub fn place_note(store: &mut NoteStore, note: &Note, candidate: &str, now: &str) -> (r: Placement)
    requires
        old(store).wf(),
    ensures
        final(store).wf(),
        match r {
            Placement::Kept => !has_id(old(store)@, note@.id) && final(store)@ == old(store)@.push(
                note@,
            ),
            Placement::Renamed => has_id(old(store)@, note@.id) && !has_id(old(store)@, candidate@)
                && final(store)@ == old(store)@.push(renamed(note@, candidate@, now@)),
            Placement::Rejected => has_id(old(store)@, note@.id) && has_id(
                old(store)@,
                candidate@,
            ) && final(store)@ == old(store)@,
        },
{
    if !store.contains(note.id.as_str()) {
        store.insert(note.copy());
        Placement::Kept
    } else if !store.contains(candidate) {
        let mut copy = note.copy();
        copy.id = candidate.to_owned();
        copy.updated_at = now.to_owned();
        store.insert(copy);
        Placement::Renamed
    } else {
        Placement::Rejected
    }
}

/// A note as it was read from a file.
#[derive(Debug)]
pub struct NoteFile {
    /// The name of the file within the notes directory.
    pub file_name: String,
    pub note: Note,
}

/// The notes of a sequence of files.
pub open spec fn file_notes(fs: Seq<NoteFile>) -> Seq<NoteView> {
    Seq::new(fs.len(), |i: int| fs[i].note@)
}

/// The names of a sequence of files.
pub open spec fn file_names(fs: Seq<NoteFile>) -> Seq<Seq<char>> {
    Seq::new(fs.len(), |i: int| fs[i].file_name@)
}

/// What a load comes to.
pub struct LoadOutcome {
    /// The notes, each under its own id, with sound positions.
    pub notes: NoteStore,
    /// For each note of the store, in its order, the name of its file.
    pub files: Vec<String>,
    /// The notes that were given a new id or a new position, as they are
    /// now: their files are to be written again.
    pub rewritten: Vec<Note>,
    /// The notes that were left out: the id of each was taken, and so
    /// was the new id that was drawn for it.
    pub rejected: Vec<Note>,
}

/// What is written when a note is saved.
#[derive(Debug)]
pub struct NoteWrite {
    /// The name of the file within the notes directory.
    pub file_name: String,
    /// Where the file lies.
    pub path: String,
    /// The text of the file.
    pub text: String,
}

/// File-based storage: the notes directory.
#[derive(Debug)]
pub struct FileStorageManager {
    notes_dir: String,
}

impl FileStorageManager {
    /// The storage for the directory that the settings lead to. It fails
    /// where the default directory is needed and the user's data directory
    /// is not known.
    pub fn new(config: &StorageConfig, data_dir: Option<&str>) -> (r: Result<
        FileStorageManager,
        BlinkError,
    >)
        ensures
            match r {
                Ok(m) => (config.use_custom_directory && config.notes_directory is Some
                    || data_dir is Some) && m.notes_dir() == configured_directory(
                    config.use_custom_directory,
                    custom_directory(*config),
                    match data_dir {
                        Some(d) => d@,
                        None => Seq::empty(),
                    },
                ),
                Err(BlinkError::Storage(m)) => !(config.use_custom_directory
                    && config.notes_directory is Some) && data_dir is None && m@
                    == "Failed to get data directory"@,
                Err(_) => false,
            },
    {
        match get_configured_notes_directory(config, data_dir) {
            Ok(dir) => Ok(FileStorageManager::at(dir.as_str())),
            Err(e) => Err(BlinkError::Storage(e)),
        }
    }

    /// The storage for a notes directory.
    pub fn at(notes_dir: &str) -> (m: FileStorageManager)
        ensures
            m.notes_dir() == notes_dir@,
    {
        FileStorageManager { notes_dir: notes_dir.to_owned() }
    }

    /// The notes directory.
    pub closed spec fn notes_dir(&self) -> Seq<char> {
        self.notes_dir@
    }

    /// The notes directory.
    pub fn notes_directory(&self) -> (dir: String)
        ensures
            dir@ == self.notes_dir(),
    {
        copy_string(&self.notes_dir)
    }

    /// The hidden directory that holds the index and the workspace state.
    pub fn hidden_directory(&self) -> (dir: String)
        ensures
            dir@ == joined(self.notes_dir(), ".blink"@),
    {
        join_path(self.notes_dir.as_str(), ".blink")
    }

    /// Where the file with the given name lies.
    pub fn note_path(&self, file_name: &str) -> (path: String)
        ensures
            path@ == joined(self.notes_dir(), file_name@),
    {
        join_path(self.notes_dir.as_str(), file_name)
    }

    /// Where the workspace state is kept.
    pub fn workspace_path(&self) -> (path: String)
        ensures
            path@ == joined(joined(self.notes_dir(), ".blink"@), "workspace.json"@),
    {
        let hidden = self.hidden_directory();
        join_path(hidden.as_str(), "workspace.json")
    }

    /// Where the index is kept.
    pub fn database_path(&self) -> (path: String)
        ensures
            path@ == joined(joined(self.notes_dir(), ".blink"@), "notes.db"@),
    {
        crate::config::get_database_path(self.notes_dir.as_str())
    }

    /// Makes a title safe to use as a file name.
    pub fn sanitize_filename(&self, title: &str) -> (name: String)
        ensures
            name@ == sanitized(title@),
    {
        sanitize_filename(title)
    }

    /// The SHA-256 digest of a file's text, in hexadecimal.
    pub fn compute_file_hash(content: &str) -> (hash: String)
        ensures
            hash@ == sha256_hex(content@),
    {
        hash_text(content)
    }

    /// The text of a note's file: the metadata block, then the content.
    /// `metadata` is the text of the block. It fails where that text
    /// cannot stand as a block, so that every text it gives parts into
    /// the same block and the same content again.
    pub fn file_text(metadata: &str, note: &Note) -> (r: Result<String, BlinkError>)
        ensures
            match r {
                Ok(text) => is_block(metadata@) && text@ == framed(metadata@, note@.content)
                    && framed_parts(text@) == Some((metadata@, note@.content)),
                Err(BlinkError::Serialization(m)) => !is_block(metadata@) && m@
                    == "Metadata cannot stand between fences"@,
                Err(_) => false,
            },
    {
        match frame_note(metadata, note.content.as_str()) {
            Some(text) => Ok(text),
            None => Err(
                BlinkError::Serialization("Metadata cannot stand between fences".to_owned()),
            ),
        }
    }

    /// Makes a note of a file's text. `file_stem` is the file's name
    /// without its extension; `frontmatter` is what was read from the
    /// file's metadata block, `None` where there is no block or it could
    /// not be read; `modified_at` is the time stamp of the file's last
    /// change.
    ///
    /// A file with a block that could be read gives the note that the
    /// block and the body make. A file with a block that could not be read
    /// fails. A file without a block is a plain file.
    pub fn parse_markdown_note(
        &self,
        content: &str,
        file_stem: &str,
        frontmatter: Option<&NoteFrontmatter>,
        modified_at: &str,
    ) -> (r: Result<Note, BlinkError>)
        ensures
            match r {
                Ok(n) => parsed_note(
                    content@,
                    file_stem@,
                    read_frontmatter(frontmatter),
                    modified_at@,
                ) == Some(n@),
                Err(BlinkError::Serialization(m)) => parsed_note(
                    content@,
                    file_stem@,
                    read_frontmatter(frontmatter),
                    modified_at@,
                ) is None && m@ == "Malformed frontmatter"@,
                Err(_) => false,
            },
    {
        match split_frontmatter(content) {
            Some(parts) => match frontmatter {
                Some(f) => Ok(Note::from_frontmatter(f, parts.body.as_str())),
                None => Err(BlinkError::Serialization("Malformed frontmatter".to_owned())),
            },
            None => {
                let note = Note {
                    id: file_stem.to_owned(),
                    title: title_of_plain(content, file_stem),
                    content: content.to_owned(),
                    created_at: modified_at.to_owned(),
                    updated_at: modified_at.to_owned(),
                    tags: Vec::new(),
                    position: None,
                };
                assert(views(note.tags@) =~= Seq::<Seq<char>>::empty());
                Ok(note)
            },
        }
    }

    /// What is to be written when a note is saved, and where. `metadata`
    /// is the text of the note's metadata block. A note that is indexed is
    /// written to the file it is in, whatever its title has become. It
    /// fails where the metadata text cannot stand as a block; a text that
    /// is written parts into the same block and the same content again.
    pub fn plan_save(&self, index: &NotesIndex, note: &Note, metadata: &str) -> (r: Result<
        NoteWrite,
        BlinkError,
    >)
        requires
            index.wf(),
        ensures
            match r {
                Ok(write) => {
                    &&& is_block(metadata@)
                    &&& write.text@ == framed(metadata@, note@.content)
                    &&& framed_parts(write.text@) == Some((metadata@, note@.content))
                    &&& write.path@ == joined(self.notes_dir(), write.file_name@)
                    &&& has_entry(index@.entries, note@.id) ==> write.file_name@ == entry_with(
                        index@.entries,
                        note@.id,
                    ).file_path
                    &&& !has_entry(index@.entries, note@.id) ==> exists|stem: Seq<char>|
                        write.file_name@ == crate::index::file_name_of(stem)
                            && crate::slug::is_unique_slug(
                            crate::index::wanted_stem(note@),
                            crate::index::stems_of(index@.entries),
                            stem,
                        ) && !crate::index::stems_of(index@.entries).contains(stem)
                },
                Err(BlinkError::Serialization(m)) => !is_block(metadata@) && m@
                    == "Metadata cannot stand between fences"@,
                Err(_) => false,
            },
    {
        match FileStorageManager::file_text(metadata, note) {
            Ok(text) => {
                let file_name = index.file_name_for(note);
                let path = self.note_path(file_name.as_str());
                Ok(NoteWrite { file_name, path, text })
            },
            Err(e) => Err(e),
        }
    }

    /// Takes note in the index of a save that went through, at the time
    /// `now`.
    pub fn record_save(index: &mut NotesIndex, note: &Note, write: &NoteWrite, now: &str)
        requires
            old(index).wf(),
        ensures
            final(index).wf(),
            final(index)@.entries == with_entry(
                old(index)@.entries,
                entry_of(note@, write.file_name@, write.text@, now@),
            ),
            final(index)@.last_updated == now@,
    {
        let entry = crate::index::entry_for(
            note,
            write.file_name.as_str(),
            write.text.as_str(),
            now,
        );
        index.upsert_note(entry, now);
    }

    /// The file to remove when a note is deleted: the one that the index
    /// names, else the one named after the note's id where the directory
    /// holds it.
    pub fn file_to_delete(&self, index: &NotesIndex, note_id: &str, directory: &Vec<String>) -> (r:
        Option<String>)
        requires
            index.wf(),
        ensures
            match r {
                Some(name) => if has_entry(index@.entries, note_id@) {
                    name@ == entry_with(index@.entries, note_id@).file_path
                } else {
                    name@ == crate::index::file_name_of(note_id@) && views(directory@).contains(
                        name@,
                    )
                },
                None => !has_entry(index@.entries, note_id@) && !views(directory@).contains(
                    crate::index::file_name_of(note_id@),
                ),
            },
    {
        match index.file_path_of(note_id) {
            Some(path) => Some(path),
            None => {
                let name = crate::index::note_file_name(note_id);
                if crate::text::holds_string(directory, name.as_str()) {
                    Some(name)
                } else {
                    None
                }
            },
        }
    }

    /// Makes the store of the notes that were read from the files, at the
    /// time `now`.
    ///
    /// The notes are taken in order. The first file of an id keeps it. A
    /// later file with the same id gets a new random id; where a file or a
    /// note has that one too, the note is left out. Then the positions are
    /// repaired: a note whose claim stands keeps its position, and the
    /// others get the lowest positions that are free, in order. Notes that
    /// got a new id or a new position count as updated at `now` and are
    /// handed back to be written again, each to the file it came from;
    /// every other note is the note of its file, as it was read. Whatever
    /// the files hold, no two notes of the store share an id or a
    /// position.
    pub fn load_notes(&self, parsed: &Vec<NoteFile>, now: &str) -> (out: LoadOutcome)
        ensures
            out.notes.wf(),
            positions_sound(positions_of(out.notes@)),
            forall|i: int, j: int|
                0 <= i < j < out.notes@.len() ==> (#[trigger] out.notes@[i]).id != (
                #[trigger] out.notes@[j]).id && (out.notes@[i].position is Some
                    ==> out.notes@[i].position != out.notes@[j].position),
            out.notes@.len() + out.rejected@.len() == parsed@.len(),
            out.files@.len() == out.notes@.len(),
            forall|k: int|
                0 <= k < parsed@.len() ==> has_id(out.notes@, (#[trigger] parsed@[k]).note@.id),
            forall|j: int|
                0 <= j < out.rejected@.len() ==> file_notes(parsed@).contains(
                    (#[trigger] out.rejected@[j])@,
                ),
            load_outcome(
                parsed@,
                now@,
                out.notes@,
                views(out.files@),
                note_views(out.rewritten@),
                note_views(out.rejected@),
            ),
    {
        let (accepted, Ghost(draws)) = accept_notes(parsed, now);
        let ghost a = accepted@;
        proof {
            lemma_intake_parts(a, parsed@, parsed@.len() as int, now@);
        }
        let Accepted { notes, files, renamed: new_ids, rejected } = accepted;
        let mut store = notes;
        let mut rewritten = store.repair(now);
        let ghost displaced = note_views(rewritten@);
        proof {
            lemma_displaced_listed(a, parsed@, now@, store@, displaced);
            assert(a.renamed == views(new_ids@));
            assert(a.files == views(files@));
            assert(a.rejected == note_views(rejected@));
        }
        add_renamed(&store, &mut rewritten, &new_ids);
        proof {
            lemma_load_outcome(a, parsed@, draws, now@, store@, displaced, note_views(rewritten@));
            assert forall|i: int, j: int| 0 <= i < j < store@.len() implies (#[trigger] store@[i]).id
                != (#[trigger] store@[j]).id && (store@[i].position is Some ==> store@[i].position
                != store@[j].position) by {
                assert(positions_of(store@)[i] == store@[i].position);
                assert(positions_of(store@)[j] == store@[j].position);
            }
            lemma_loaded(a, parsed@, now@);
            lemma_loaded_notes(a, parsed@, now@);
            assert forall|k: int| 0 <= k < parsed@.len() implies has_id(
                store@,
                (#[trigger] parsed@[k]).note@.id,
            ) by {
                assert(file_notes(parsed@)[k].id == parsed@[k].note@.id);
            }
            assert forall|j: int| 0 <= j < rejected@.len() implies file_notes(parsed@).contains(
                (#[trigger] rejected@[j])@,
            ) by {
                assert(a.rejected[j] == rejected@[j]@);
            }
        }
        LoadOutcome { notes: store, files, rewritten, rejected }
    }
}

/// Whether note `n` is the note of a file as it was read, or is among the
/// notes that are to be written again.
#[verifier::opaque]
pub open spec fn settled(all: Seq<NoteView>, listed: Seq<NoteView>, n: NoteView) -> bool {
    all.contains(n) || listed.contains(n)
}

/// Whether a load comes to this where `draws` holds the ids that were
/// drawn: the notes are those of the intake with their positions
/// repaired, each with its file; the notes that were left out are those
/// that the intake left out; and the notes to be written again are those
/// that the repair displaced, then those that were given a new id.
#[verifier::opaque]
pub open spec fn loaded_with(
    fs: Seq<NoteFile>,
    draws: Seq<Seq<char>>,
    now: Seq<char>,
    notes: Seq<NoteView>,
    files: Seq<Seq<char>>,
    listed: Seq<NoteView>,
    rejected: Seq<NoteView>,
) -> bool {
    let taken = intake_of(fs, draws, now);
    &&& drawn_for(fs, draws, now)
    &&& notes == repaired_notes(taken.notes, now)
    &&& files == taken.files
    &&& rejected == taken.rejected
    &&& listed_after(notes, notes.filter(displaced_note(taken.notes)), listed, taken.renamed)
}

/// What a load comes to, file by file.
#[verifier::opaque]
pub open spec fn files_loaded(
    fs: Seq<NoteFile>,
    now: Seq<char>,
    notes: Seq<NoteView>,
    files: Seq<Seq<char>>,
    listed: Seq<NoteView>,
    rejected: Seq<NoteView>,
) -> bool {
    let all = file_notes(fs);
    let names = file_names(fs);
    // The id of every file is the id of a note.
    &&& forall|k: int| 0 <= k < fs.len() ==> has_id(notes, (#[trigger] all[k]).id)
    // The first file of an id keeps the id, and what the note says.
    &&& forall|k: int|
        0 <= k < fs.len() && first_with_id(all, k) ==> held_in(
            notes,
            files,
            #[trigger] all[k],
            names[k],
        )
    // Where its claim stands too, the note is as it was read, and is not
    // written again.
    &&& forall|k: int|
        0 <= k < fs.len() && first_with_id(all, k) && !contested(positions_of(all), k) ==> kept_in(
            notes,
            files,
            #[trigger] all[k],
            names[k],
        ) && !has_id(listed, all[k].id)
    // Every file was left out, or gave a note that holds its text and is
    // kept in it: under its id where the file is the first with that id,
    // else under a new random id; with its position where its claim stands.
    &&& forall|k: int|
        0 <= k < fs.len() ==> rejected.contains((#[trigger] fs[k]).note@) || made_of(
            notes,
            files,
            fs[k],
            now,
            first_with_id(all, k),
            !contested(positions_of(all), k),
        )
    // A note that was left out is the note of a file.
    &&& forall|j: int| 0 <= j < rejected.len() ==> all.contains(#[trigger] rejected[j])
}

/// What a load comes to, note by note.
#[verifier::opaque]
pub open spec fn notes_loaded(
    fs: Seq<NoteFile>,
    now: Seq<char>,
    notes: Seq<NoteView>,
    files: Seq<Seq<char>>,
    listed: Seq<NoteView>,
) -> bool {
    // Every note was made of a file, and is kept in it.
    &&& forall|j: int|
        0 <= j < notes.len() ==> stems_from(#[trigger] notes[j], files[j], fs, fs.len() as int, now)
    // What is to be written again is in the store, as it is there, and
    // counts as updated at `now`.
    &&& forall|j: int|
        0 <= j < listed.len() ==> has_id(notes, (#[trigger] listed[j]).id) && listed[j]
            == note_with(notes, listed[j].id) && listed[j].updated_at == now
    // Every other note is the note of a file, as it was read: so a note
    // with a new id is always written again.
    &&& forall|j: int| 0 <= j < notes.len() ==> settled(file_notes(fs), listed, #[trigger] notes[j])
}

/// What a load of the files `fs` at the time `now` comes to: the notes, the
/// name of the file of each, the notes that are to be written again, and
/// the notes that were left out.
///
/// What goes from each file to its note and from each note to its file
/// is unfolded only where `reveal` asks for it.
pub open spec fn load_outcome(
    fs: Seq<NoteFile>,
    now: Seq<char>,
    notes: Seq<NoteView>,
    files: Seq<Seq<char>>,
    listed: Seq<NoteView>,
    rejected: Seq<NoteView>,
) -> bool {
    let all = file_notes(fs);
    let names = file_names(fs);
    // No two notes share an id or a position.
    &&& distinct_ids(notes)
    &&& positions_sound(positions_of(notes))
    // Every file gave a note or was left out, and every note has its file.
    &&& notes.len() + rejected.len() == fs.len()
    &&& files.len() == notes.len()
    &&& files_loaded(fs, now, notes, files, listed, rejected)
    &&& notes_loaded(fs, now, notes, files, listed)
    // All of it is fixed by the ids that were drawn: the files are taken in
    // with them, in order, and the positions of what was taken in are
    // repaired.
    &&& exists|draws: Seq<Seq<char>>| #[trigger]
        loaded_with(fs, draws, now, notes, files, listed, rejected)
    // Where no two files have one id, only the positions are repaired.
    &&& distinct_ids(all) ==> notes == repaired_notes(all, now) && files == names && rejected.len()
        == 0 && listed == notes.filter(displaced_note(all))
}

/// A load of what a load made changes nothing. Where every file has an
/// id of its own and the positions are sound, as they are once the notes
/// of a load were written, a load at any later time gives the notes of
/// the files as they are, each for its file, writes no file again and
/// leaves no note out.
pub proof fn lemma_second_load_changes_nothing(
    fs: Seq<NoteFile>,
    later: Seq<char>,
    notes: Seq<NoteView>,
    files: Seq<Seq<char>>,
    listed: Seq<NoteView>,
    rejected: Seq<NoteView>,
)
    requires
        distinct_ids(file_notes(fs)),
        positions_sound(positions_of(file_notes(fs))),
        load_outcome(fs, later, notes, files, listed, rejected),
    ensures
        notes == file_notes(fs),
        files == file_names(fs),
        listed.len() == 0,
        rejected.len() == 0,
{
    let all = file_notes(fs);
    assert forall|i: int| 0 <= i < all.len() implies !repair_displaces(positions_of(all), i) by {
        crate::positions::lemma_sound_uncontested(positions_of(all), i);
    }
    assert(repaired_notes(all, later) =~= all);
    if listed.len() > 0 {
        notes.lemma_filter_pred(displaced_note(all), 0);
    }
}

/// A second load changes nothing. Where the files hold the notes that a
/// load left, each in the file that the load names for it, a load at any
/// later time gives the same notes in every field, each for the same
/// file, writes no file again and leaves no note out.
pub proof fn lemma_load_twice(
    first: Seq<NoteFile>,
    now: Seq<char>,
    notes: Seq<NoteView>,
    files: Seq<Seq<char>>,
    listed: Seq<NoteView>,
    rejected: Seq<NoteView>,
    second: Seq<NoteFile>,
    later: Seq<char>,
    notes_again: Seq<NoteView>,
    files_again: Seq<Seq<char>>,
    listed_again: Seq<NoteView>,
    rejected_again: Seq<NoteView>,
)
    requires
        load_outcome(first, now, notes, files, listed, rejected),
        file_notes(second) == notes,
        file_names(second) == files,
        load_outcome(second, later, notes_again, files_again, listed_again, rejected_again),
    ensures
        notes_again == notes,
        files_again == files,
        listed_again.len() == 0,
        rejected_again.len() == 0,
{
    lemma_second_load_changes_nothing(
        second,
        later,
        notes_again,
        files_again,
        listed_again,
        rejected_again,
    );
}

/// The notes that the repair displaced are notes of the store, and so are
/// the notes that were given a new id.
proof fn lemma_displaced_listed(
    a: Intake,
    fs: Seq<NoteFile>,
    now: Seq<char>,
    store: Seq<NoteView>,
    displaced: Seq<NoteView>,
)
    requires
        taken_in(a, fs, fs.len() as int, now),
        store == repaired_notes(a.notes, now),
        displaced == store.filter(displaced_note(a.notes)),
    ensures
        forall|j: int| 0 <= j < a.renamed.len() ==> has_id(store, #[trigger] a.renamed[j]),
        forall|j: int|
            0 <= j < displaced.len() ==> has_id(store, (#[trigger] displaced[j]).id)
                && displaced[j] == note_with(store, displaced[j].id),
{
    lemma_loaded(a, fs, now);
    lemma_loaded_notes(a, fs, now);
    lemma_intake_parts(a, fs, fs.len() as int, now);
    assert(distinct_ids(store)) by {
        assert forall|i: int, j: int| 0 <= i < j < store.len() implies (#[trigger] store[i]).id != (
        #[trigger] store[j]).id by {
            assert(a.notes[i].id != a.notes[j].id);
        }
    }
    assert forall|j: int| 0 <= j < displaced.len() implies has_id(
        store,
        (#[trigger] displaced[j]).id,
    ) && displaced[j] == note_with(store, displaced[j].id) by {
        lemma_filtered_member(store, displaced_note(a.notes), displaced, j);
    }
}

/// What a load hands back, from what was taken in and what was listed to
/// be written again.
proof fn lemma_load_outcome(
    a: Intake,
    fs: Seq<NoteFile>,
    draws: Seq<Seq<char>>,
    now: Seq<char>,
    store: Seq<NoteView>,
    displaced: Seq<NoteView>,
    listed: Seq<NoteView>,
)
    requires
        taken_in(a, fs, fs.len() as int, now),
        accounted(a, fs, fs.len() as int, now),
        drawn_for(fs, draws, now),
        a == intake_of(fs, draws, now),
        store == repaired_notes(a.notes, now),
        displaced == store.filter(displaced_note(a.notes)),
        listed_after(store, displaced, listed, a.renamed),
    ensures
        load_outcome(fs, now, store, a.files, listed, a.rejected),
{
    lemma_intake_parts(a, fs, fs.len() as int, now);
    assert(positions_sound(positions_of(store))) by {
        crate::store::lemma_repaired_positions(a.notes, now);
    }
    assert(distinct_ids(store)) by {
        assert forall|i: int, j: int| 0 <= i < j < store.len() implies (#[trigger] store[i]).id != (
        #[trigger] store[j]).id by {
            assert(a.notes[i].id != a.notes[j].id);
        }
    }
    assert(loaded_with(fs, draws, now, store, a.files, listed, a.rejected)) by {
        reveal(loaded_with);
    }
    lemma_files_loaded(a, fs, now, store, displaced, listed);
    lemma_notes_loaded(a, fs, now, store, displaced, listed);
    if distinct_ids(file_notes(fs)) {
        lemma_intake_exact(a, fs, now);
    }
}

/// What a load hands back, file by file.
proof fn lemma_files_loaded(
    a: Intake,
    fs: Seq<NoteFile>,
    now: Seq<char>,
    store: Seq<NoteView>,
    displaced: Seq<NoteView>,
    listed: Seq<NoteView>,
)
    requires
        taken_in(a, fs, fs.len() as int, now),
        accounted(a, fs, fs.len() as int, now),
        store == repaired_notes(a.notes, now),
        displaced == store.filter(displaced_note(a.notes)),
        listed_after(store, displaced, listed, a.renamed),
    ensures
        files_loaded(fs, now, store, a.files, listed, a.rejected),
{
    reveal(files_loaded);
    lemma_intake_parts(a, fs, fs.len() as int, now);
    lemma_every_file(a, fs, now);
    lemma_loaded(a, fs, now);
    lemma_loaded_notes(a, fs, now);
    lemma_listed_notes(a, fs, now, store, displaced, listed);
}

/// What a load hands back, note by note.
proof fn lemma_notes_loaded(
    a: Intake,
    fs: Seq<NoteFile>,
    now: Seq<char>,
    store: Seq<NoteView>,
    displaced: Seq<NoteView>,
    listed: Seq<NoteView>,
)
    requires
        taken_in(a, fs, fs.len() as int, now),
        store == repaired_notes(a.notes, now),
        displaced == store.filter(displaced_note(a.notes)),
        listed_after(store, displaced, listed, a.renamed),
    ensures
        notes_loaded(fs, now, store, a.files, listed),
{
    reveal(notes_loaded);
    lemma_intake_parts(a, fs, fs.len() as int, now);
    lemma_loaded(a, fs, now);
    lemma_loaded_notes(a, fs, now);
    lemma_listed_notes(a, fs, now, store, displaced, listed);
}

/// What holds of the notes that are to be written again.
proof fn lemma_listed_notes(
    a: Intake,
    fs: Seq<NoteFile>,
    now: Seq<char>,
    store: Seq<NoteView>,
    displaced: Seq<NoteView>,
    listed: Seq<NoteView>,
)
    requires
        loaded(a, fs, now),
        distinct_ids(a.notes),
        forall|j: int|
            0 <= j < a.notes.len() ==> came_in(
                file_notes(fs),
                a.renamed,
                fs.len() as int,
                #[trigger] a.notes[j],
            ),
        store == repaired_notes(a.notes, now),
        displaced == store.filter(displaced_note(a.notes)),
        listed_after(store, displaced, listed, a.renamed),
    ensures
        forall|k: int|
            0 <= k < fs.len() && first_with_id(file_notes(fs), k) && !contested(
                positions_of(file_notes(fs)),
                k,
            ) ==> !has_id(listed, (#[trigger] file_notes(fs)[k]).id),
        forall|j: int| 0 <= j < listed.len() ==> (#[trigger] listed[j]).updated_at == now,
        forall|j: int| 0 <= j < store.len() ==> settled(file_notes(fs), listed, #[trigger] store[j]),
{
    reveal(loaded);
    let all = file_notes(fs);
    assert forall|m: int| 0 <= m < listed.len() implies (displaced_note(a.notes)(
        #[trigger] listed[m],
    ) || a.renamed.contains(listed[m].id)) && listed[m].updated_at == now by {
        lemma_rewritten(a, store, displaced, listed, now, m);
    }
    assert forall|j: int| 0 <= j < store.len() implies settled(all, listed, #[trigger] store[j]) by {
        assert(came_in(all, a.renamed, fs.len() as int, a.notes[j]));
        lemma_listed(a, store, displaced, listed, all, fs.len() as int, j);
    }
    assert forall|k: int|
        0 <= k < fs.len() && first_with_id(all, k) && !contested(
            positions_of(all),
            k,
        ) implies !has_id(listed, (#[trigger] all[k]).id) by {
        if has_id(listed, all[k].id) {
            let m = choose|m: int| 0 <= m < listed.len() && (#[trigger] listed[m]).id == all[k].id;
            if displaced_note(a.notes)(listed[m]) {
                assert(displaced_note(a.notes)(all[k]));
            }
        }
    }
}

/// A note that is to be written again was displaced or given a new id,
/// and counts as updated at `now`.
proof fn lemma_rewritten(
    a: Intake,
    store: Seq<NoteView>,
    displaced: Seq<NoteView>,
    listed: Seq<NoteView>,
    now: Seq<char>,
    m: int,
)
    requires
        distinct_ids(a.notes),
        store == repaired_notes(a.notes, now),
        displaced == store.filter(displaced_note(a.notes)),
        forall|j: int|
            0 <= j < store.len() && (a.renamed.contains((#[trigger] store[j]).id)
                || repair_displaces(positions_of(a.notes), j)) ==> store[j].updated_at == now,
        listed.len() >= displaced.len(),
        forall|j: int| 0 <= j < displaced.len() ==> #[trigger] listed[j] == displaced[j],
        forall|j: int|
            displaced.len() <= j < listed.len() ==> a.renamed.contains((#[trigger] listed[j]).id),
        forall|j: int|
            0 <= j < listed.len() ==> has_id(store, (#[trigger] listed[j]).id) && listed[j]
                == note_with(store, listed[j].id),
        0 <= m < listed.len(),
    ensures
        displaced_note(a.notes)(listed[m]) || a.renamed.contains(listed[m].id),
        listed[m].updated_at == now,
{
    let c = choose|c: int| 0 <= c < store.len() && (#[trigger] store[c]).id == listed[m].id;
    assert(listed[m] == store[c]);
    if m < displaced.len() {
        store.lemma_filter_pred(displaced_note(a.notes), m);
        let i = choose|i: int|
            0 <= i < a.notes.len() && (#[trigger] a.notes[i]).id == listed[m].id
                && repair_displaces(positions_of(a.notes), i);
        assert(a.notes[c].id == store[c].id);
        assert(i == c);
    }
}

/// A note of the store that is not the note of a file as it was read is
/// among the notes that are to be written again.
proof fn lemma_listed(
    a: Intake,
    store: Seq<NoteView>,
    displaced: Seq<NoteView>,
    listed: Seq<NoteView>,
    all: Seq<NoteView>,
    k: int,
    j: int,
)
    requires
        distinct_ids(a.notes),
        store.len() == a.notes.len(),
        forall|i: int| 0 <= i < store.len() ==> (#[trigger] store[i]).id == a.notes[i].id,
        0 <= j < store.len(),
        !repair_displaces(positions_of(a.notes), j) ==> store[j] == a.notes[j],
        came_in(all, a.renamed, k, a.notes[j]),
        displaced == store.filter(displaced_note(a.notes)),
        listed.len() >= displaced.len(),
        forall|i: int| 0 <= i < displaced.len() ==> #[trigger] listed[i] == displaced[i],
        forall|i: int| 0 <= i < a.renamed.len() ==> has_id(listed, #[trigger] a.renamed[i]),
        forall|i: int|
            0 <= i < listed.len() ==> has_id(store, (#[trigger] listed[i]).id) && listed[i]
                == note_with(store, listed[i].id),
    ensures
        settled(all, listed, store[j]),
{
    reveal(settled);
    reveal(came_in);
    if repair_displaces(positions_of(a.notes), j) {
        assert(displaced_note(a.notes)(store[j]));
        store.lemma_filter_contains(displaced_note(a.notes), j);
        let m = choose|m: int| 0 <= m < displaced.len() && displaced[m] == store[j];
        assert(listed[m] == store[j]);
    } else if a.renamed.contains(store[j].id) {
        let r = choose|r: int| 0 <= r < a.renamed.len() && a.renamed[r] == store[j].id;
        assert(has_id(listed, a.renamed[r]));
        let m = choose|m: int| 0 <= m < listed.len() && (#[trigger] listed[m]).id == a.renamed[r];
        let c = choose|c: int| 0 <= c < store.len() && (#[trigger] store[c]).id == listed[m].id;
        assert(a.notes[c].id == a.notes[j].id);
        assert(c == j);
        assert(listed[m] == store[j]);
    }
}

/// Whether `listed` is `before` with, after it, a note of the store for
/// each of the ids that no note of `before` has.
pub open spec fn listed_after(
    store: Seq<NoteView>,
    before: Seq<NoteView>,
    listed: Seq<NoteView>,
    ids: Seq<Seq<char>>,
) -> bool {
    &&& listed.len() >= before.len()
    &&& forall|j: int| 0 <= j < before.len() ==> #[trigger] listed[j] == before[j]
    &&& forall|j: int|
        0 <= j < listed.len() ==> has_id(store, (#[trigger] listed[j]).id) && listed[j]
            == note_with(store, listed[j].id)
    &&& forall|j: int| 0 <= j < ids.len() ==> has_id(listed, #[trigger] ids[j])
    &&& forall|j: int| before.len() <= j < listed.len() ==> ids.contains((#[trigger] listed[j]).id)
    &&& ids.len() == 0 ==> listed == before
}

/// Adds to the notes that are to be written again those that were given
/// a new id and are not among them yet.
fn add_renamed(store: &NoteStore, rewritten: &mut Vec<Note>, renamed: &Vec<String>)
    requires
        store.wf(),
        forall|j: int| 0 <= j < renamed@.len() ==> has_id(store@, #[trigger] views(renamed@)[j]),
        forall|j: int|
            0 <= j < old(rewritten)@.len() ==> has_id(
                store@,
                (#[trigger] note_views(old(rewritten)@)[j]).id,
            ) && note_views(old(rewritten)@)[j] == note_with(
                store@,
                note_views(old(rewritten)@)[j].id,
            ),
    ensures
        listed_after(
            store@,
            note_views(old(rewritten)@),
            note_views(final(rewritten)@),
            views(renamed@),
        ),
{
    proof {
        assert forall|j: int| 0 <= j < renamed@.len() implies has_id(
            store@,
            (#[trigger] renamed@[j])@,
        ) by {
            assert(has_id(store@, views(renamed@)[j]));
        }
        assert forall|j: int| 0 <= j < rewritten@.len() implies has_id(
            store@,
            (#[trigger] rewritten@[j])@.id,
        ) && rewritten@[j]@ == note_with(store@, rewritten@[j]@.id) by {
            assert(note_views(rewritten@)[j] == rewritten@[j]@);
        }
    }
    let mut r: usize = 0;
    while r < renamed.len()
        invariant
            r <= renamed.len(),
            store.wf(),
            forall|j: int| 0 <= j < renamed@.len() ==> has_id(store@, (#[trigger] renamed@[j])@),
            forall|j: int|
                0 <= j < rewritten@.len() ==> has_id(store@, (#[trigger] rewritten@[j])@.id)
                    && rewritten@[j]@ == note_with(store@, rewritten@[j]@.id),
            rewritten@.len() >= old(rewritten)@.len(),
            forall|j: int|
                0 <= j < old(rewritten)@.len() ==> #[trigger] rewritten@[j] == old(rewritten)@[j],
            forall|j: int|
                0 <= j < r ==> has_id(note_views(rewritten@), (#[trigger] renamed@[j])@),
            forall|j: int|
                old(rewritten)@.len() <= j < rewritten@.len() ==> views(renamed@).contains(
                    (#[trigger] rewritten@[j])@.id,
                ),
            renamed@.len() == 0 ==> rewritten@ == old(rewritten)@,
        decreases renamed.len() - r,
    {
        let id = renamed[r].as_str();
        let mut listed = false;
        let mut m: usize = 0;
        while m < rewritten.len()
            invariant
                m <= rewritten.len(),
                listed == exists|c: int| 0 <= c < m && (#[trigger] rewritten@[c])@.id == id@,
            decreases rewritten.len() - m,
        {
            if crate::text::str_eq(rewritten[m].id.as_str(), id) {
                listed = true;
            }
            m += 1;
        }
        let ghost had = rewritten@;
        if !listed {
            match store.get(id) {
                Some(n) => {
                    rewritten.push(n);
                    assert(rewritten@[had.len() as int]@.id == id@);
                    assert(views(renamed@)[r as int] == id@);
                },
                None => {},
            }
        }
        proof {
            assert forall|j: int| 0 <= j < rewritten@.len() implies has_id(
                store@,
                (#[trigger] rewritten@[j])@.id,
            ) && rewritten@[j]@ == note_with(store@, rewritten@[j]@.id) by {
                if j < had.len() {
                    assert(rewritten@[j] == had[j]);
                }
            }
            let now_listed = note_views(rewritten@);
            assert forall|j: int| 0 <= j < r + 1 implies has_id(
                now_listed,
                (#[trigger] renamed@[j])@,
            ) by {
                if j < r {
                    let c = choose|c: int|
                        0 <= c < had.len() && (#[trigger] note_views(had)[c]).id == renamed@[j]@;
                    assert(now_listed[c].id == renamed@[j]@);
                } else if listed {
                    let c = choose|c: int| 0 <= c < had.len() && (#[trigger] had[c])@.id == id@;
                    assert(now_listed[c].id == renamed@[j]@);
                } else {
                    assert(now_listed[had.len() as int].id == renamed@[j]@);
                }
            }
        }
        r += 1;
    }
    proof {
        let before = note_views(old(rewritten)@);
        let after = note_views(rewritten@);
        assert forall|j: int| 0 <= j < before.len() implies #[trigger] after[j] == before[j] by {
            assert(rewritten@[j] == old(rewritten)@[j]);
        }
        assert forall|j: int| 0 <= j < after.len() implies has_id(store@, (#[trigger] after[j]).id)
            && after[j] == note_with(store@, after[j].id) by {
            assert(after[j] == rewritten@[j]@);
        }
        assert forall|j: int| 0 <= j < renamed@.len() implies has_id(
            after,
            #[trigger] views(renamed@)[j],
        ) by {
            assert(has_id(after, renamed@[j]@));
        }
        assert forall|j: int| before.len() <= j < after.len() implies views(renamed@).contains(
            (#[trigger] after[j]).id,
        ) by {
            assert(views(renamed@).contains(rewritten@[j]@.id));
        }
    }
}

/// What a selection of notes holds is held by the notes, under its id.
pub proof fn lemma_filtered_member(
    ns: Seq<NoteView>,
    p: spec_fn(NoteView) -> bool,
    picked: Seq<NoteView>,
    j: int,
)
    requires
        distinct_ids(ns),
        picked == ns.filter(p),
        0 <= j < picked.len(),
    ensures
        has_id(ns, picked[j].id),
        picked[j] == note_with(ns, picked[j].id),
{
    assert(picked.contains(picked[j]));
    ns.lemma_filter_contains_rev(p, picked[j]);
    let i = choose|i: int| 0 <= i < ns.len() && ns[i] == picked[j];
    assert(ns[i].id == picked[j].id);
    let k = choose|k: int| 0 <= k < ns.len() && (#[trigger] ns[k]).id == picked[j].id;
    assert(k == i);
}


/// The note that an imported file makes, or `None` where the file begins
/// with a fence and its metadata could not be read. The note gets the
/// id `id`. A plain file is titled by its name, or "Untitled" without
/// one, and counts as made at `now`.
pub open spec fn imported_note(
    content: Seq<char>,
    stem: Option<Seq<char>>,
    frontmatter: Option<FrontmatterView>,
    id: Seq<char>,
    now: Seq<char>,
) -> Option<NoteView> {
    if !occurs_at(content, fence(), 0) {
        Some(
            NoteView {
                id: id,
                title: match stem {
                    Some(s) => s,
                    None => "Untitled"@,
                },
                content: content,
                created_at: now,
                updated_at: now,
                tags: Seq::empty(),
                position: None,
            },
        )
    } else {
        match (import_parts(content), frontmatter) {
            (Some((_, body)), Some(f)) => Some(NoteView { id: id, ..note_of(f, body) }),
            _ => None,
        }
    }
}

/// Makes a note of a file that is imported. `frontmatter` is what was
/// read from the file's metadata block, `None` where that failed.
pub fn import_note(
    content: &str,
    file_stem: Option<&str>,
    frontmatter: Option<&NoteFrontmatter>,
    id: &str,
    now: &str,
) -> (r: Result<Note, BlinkError>)
    ensures
        match r {
            Ok(n) => imported_note(
                content@,
                match file_stem {
                    Some(s) => Some(s@),
                    None => None,
                },
                read_frontmatter(frontmatter),
                id@,
                now@,
            ) == Some(n@),
            Err(BlinkError::Serialization(m)) => imported_note(
                content@,
                match file_stem {
                    Some(s) => Some(s@),
                    None => None,
                },
                read_frontmatter(frontmatter),
                id@,
                now@,
            ) is None && m@ == if import_parts(content@) is None {
                "Invalid frontmatter format"@
            } else {
                "Failed to parse frontmatter"@
            },
            Err(_) => false,
        },
{
    match import_shape(content) {
        ImportShape::Plain => {
            let note = Note {
                id: id.to_owned(),
                title: match file_stem {
                    Some(s) => s.to_owned(),
                    None => "Untitled".to_owned(),
                },
                content: content.to_owned(),
                created_at: now.to_owned(),
                updated_at: now.to_owned(),
                tags: Vec::new(),
                position: None,
            };
            assert(views(note.tags@) =~= Seq::<Seq<char>>::empty());
            Ok(note)
        },
        ImportShape::Framed(parts) => match frontmatter {
            Some(f) => Ok(
                Note {
                    id: id.to_owned(),
                    title: copy_string(&f.title),
                    content: parts.body,
                    created_at: copy_string(&f.created_at),
                    updated_at: copy_string(&f.updated_at),
                    tags: copy_strings(&f.tags),
                    position: f.position,
                },
            ),
            None => Err(BlinkError::Serialization("Failed to parse frontmatter".to_owned())),
        },
        ImportShape::Malformed => Err(
            BlinkError::Serialization("Invalid frontmatter format".to_owned()),
        ),
    }
}

/// The name of the file to which a note is exported: made from its title,
/// or from its id where the title gives none.
pub fn export_file_name(note: &Note) -> (name: String)
    ensures
        name@ == crate::index::file_name_of(
            if export_name(note@.title).len() > 0 {
                export_name(note@.title)
            } else {
                note@.id
            },
        ),
{
    let safe = export_filename(note.title.as_str());
    if safe.as_str().is_empty() {
        crate::index::note_file_name(note.id.as_str())
    } else {
        crate::index::note_file_name(safe.as_str())
    }
}

/// The metadata block of an exported note: the note's own, with the name
/// made from the title in place of the id.
pub fn export_frontmatter(note: &Note) -> (out: NoteFrontmatter)
    ensures
        out@ == (FrontmatterView { id: export_name(note@.title), ..frontmatter_of(note@) }),
{
    let mut out = note.frontmatter();
    out.id = export_filename(note.title.as_str());
    out
}

} // verus!
