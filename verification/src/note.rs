//! Notes and the requests that make and change them.
use vstd::prelude::*;
use crate::text::{copy_string, copy_strings, same_strings, str_eq, views};

verus! {

/// A note: its text, and what is known about it.
#[derive(Debug)]
pub struct Note {
    pub id: String,
    pub title: String,
    pub content: String,
    pub created_at: String,
    pub updated_at: String,
    pub tags: Vec<String>,
    /// The note's place in the manual order, if it has one.
    pub position: Option<i32>,
}

/// What a new note is made from.
#[derive(Debug)]
pub struct CreateNoteRequest {
    pub title: String,
    pub content: String,
    pub tags: Vec<String>,
}

/// What to change in a note; what is `None` stays as it is.
#[derive(Debug)]
pub struct UpdateNoteRequest {
    pub title: Option<String>,
    pub content: Option<String>,
    pub tags: Option<Vec<String>>,
}

/// The metadata block at the head of a note's file: the note without its
/// content.
#[derive(Debug)]
pub struct NoteFrontmatter {
    pub id: String,
    pub title: String,
    pub created_at: String,
    pub updated_at: String,
    pub tags: Vec<String>,
    pub position: Option<i32>,
}

/// A note as a mathematical value.
pub struct NoteView {
    pub id: Seq<char>,
    pub title: Seq<char>,
    pub content: Seq<char>,
    pub created_at: Seq<char>,
    pub updated_at: Seq<char>,
    pub tags: Seq<Seq<char>>,
    pub position: Option<i32>,
}

/// A request for a new note as a mathematical value.
pub struct CreateView {
    pub title: Seq<char>,
    pub content: Seq<char>,
    pub tags: Seq<Seq<char>>,
}

/// A request for a change as a mathematical value.
pub struct UpdateView {
    pub title: Option<Seq<char>>,
    pub content: Option<Seq<char>>,
    pub tags: Option<Seq<Seq<char>>>,
}

/// A metadata block as a mathematical value.
pub struct FrontmatterView {
    pub id: Seq<char>,
    pub title: Seq<char>,
    pub created_at: Seq<char>,
    pub updated_at: Seq<char>,
    pub tags: Seq<Seq<char>>,
    pub position: Option<i32>,
}

impl View for Note {
    type V = NoteView;

    open spec fn view(&self) -> NoteView {
        NoteView {
            id: self.id@,
            title: self.title@,
            content: self.content@,
            created_at: self.created_at@,
            updated_at: self.updated_at@,
            tags: views(self.tags@),
            position: self.position,
        }
    }
}

impl View for CreateNoteRequest {
    type V = CreateView;

    open spec fn view(&self) -> CreateView {
        CreateView { title: self.title@, content: self.content@, tags: views(self.tags@) }
    }
}

impl View for UpdateNoteRequest {
    type V = UpdateView;

    open spec fn view(&self) -> UpdateView {
        UpdateView {
            title: match self.title {
                Some(t) => Some(t@),
                None => None,
            },
            content: match self.content {
                Some(c) => Some(c@),
                None => None,
            },
            tags: match self.tags {
                Some(t) => Some(views(t@)),
                None => None,
            },
        }
    }
}

impl View for NoteFrontmatter {
    type V = FrontmatterView;

    open spec fn view(&self) -> FrontmatterView {
        FrontmatterView {
            id: self.id@,
            title: self.title@,
            created_at: self.created_at@,
            updated_at: self.updated_at@,
            tags: views(self.tags@),
            position: self.position,
        }
    }
}

/// The views of a sequence of notes.
pub open spec fn note_views(ns: Seq<Note>) -> Seq<NoteView> {
    Seq::new(ns.len(), |i: int| ns[i]@)
}

/// The metadata of a note.
pub open spec fn frontmatter_of(n: NoteView) -> FrontmatterView {
    FrontmatterView {
        id: n.id,
        title: n.title,
        created_at: n.created_at,
        updated_at: n.updated_at,
        tags: n.tags,
        position: n.position,
    }
}

/// The note that a metadata block and a content make.
pub open spec fn note_of(f: FrontmatterView, content: Seq<char>) -> NoteView {
    NoteView {
        id: f.id,
        title: f.title,
        content: content,
        created_at: f.created_at,
        updated_at: f.updated_at,
        tags: f.tags,
        position: f.position,
    }
}

/// The note made from a request: `id`, `now` and `position` are decided
/// by the caller.
pub open spec fn created(req: CreateView, id: Seq<char>, now: Seq<char>, position: Option<i32>) -> NoteView {
    NoteView {
        id: id,
        title: req.title,
        content: req.content,
        created_at: now,
        updated_at: now,
        tags: req.tags,
        position: position,
    }
}

/// A note with a request's changes made at the time `now`: each field
/// that the request gives replaces the note's, and the note counts as
/// updated at `now`.
pub open spec fn updated(n: NoteView, req: UpdateView, now: Seq<char>) -> NoteView {
    NoteView {
        title: match req.title {
            Some(t) => t,
            None => n.title,
        },
        content: match req.content {
            Some(c) => c,
            None => n.content,
        },
        tags: match req.tags {
            Some(t) => t,
            None => n.tags,
        },
        updated_at: now,
        ..n
    }
}

/// Whether a request gives a title other than the note's.
pub open spec fn changes_title(n: NoteView, req: UpdateView) -> bool {
    req.title is Some && req.title->0 != n.title
}

/// Whether a request gives tags other than the note's.
pub open spec fn changes_tags(n: NoteView, req: UpdateView) -> bool {
    req.tags is Some && req.tags->0 != n.tags
}

impl Note {
    /// A copy of the note.
    pub fn copy(&self) -> (out: Note)
        ensures
            out@ == self@,
    {
        Note {
            id: copy_string(&self.id),
            title: copy_string(&self.title),
            content: copy_string(&self.content),
            created_at: copy_string(&self.created_at),
            updated_at: copy_string(&self.updated_at),
            tags: copy_strings(&self.tags),
            position: self.position,
        }
    }

    /// The note's metadata block.
    pub fn frontmatter(&self) -> (out: NoteFrontmatter)
        ensures
            out@ == frontmatter_of(self@),
    {
        NoteFrontmatter {
            id: copy_string(&self.id),
            title: copy_string(&self.title),
            created_at: copy_string(&self.created_at),
            updated_at: copy_string(&self.updated_at),
            tags: copy_strings(&self.tags),
            position: self.position,
        }
    }

    /// The note that a metadata block and a content make.
    pub fn from_frontmatter(frontmatter: &NoteFrontmatter, content: &str) -> (out: Note)
        ensures
            out@ == note_of(frontmatter@, content@),
    {
        Note {
            id: copy_string(&frontmatter.id),
            title: copy_string(&frontmatter.title),
            content: content.to_owned(),
            created_at: copy_string(&frontmatter.created_at),
            updated_at: copy_string(&frontmatter.updated_at),
            tags: copy_strings(&frontmatter.tags),
            position: frontmatter.position,
        }
    }

    /// The note made from a request.
    pub fn create(request: &CreateNoteRequest, id: &str, now: &str, position: Option<i32>) -> (out:
        Note)
        ensures
            out@ == created(request@, id@, now@, position),
    {
        Note {
            id: id.to_owned(),
            title: copy_string(&request.title),
            content: copy_string(&request.content),
            created_at: now.to_owned(),
            updated_at: now.to_owned(),
            tags: copy_strings(&request.tags),
            position,
        }
    }

    /// The note with a request's changes made at the time `now`.
    pub fn apply(&self, request: &UpdateNoteRequest, now: &str) -> (out: Note)
        ensures
            out@ == updated(self@, request@, now@),
    {
        Note {
            id: copy_string(&self.id),
            title: match &request.title {
                Some(t) => copy_string(t),
                None => copy_string(&self.title),
            },
            content: match &request.content {
                Some(c) => copy_string(c),
                None => copy_string(&self.content),
            },
            created_at: copy_string(&self.created_at),
            updated_at: now.to_owned(),
            tags: match &request.tags {
                Some(t) => copy_strings(t),
                None => copy_strings(&self.tags),
            },
            position: self.position,
        }
    }

    /// Whether a request gives a title other than the note's.
    pub fn title_changed(&self, request: &UpdateNoteRequest) -> (r: bool)
        ensures
            r == changes_title(self@, request@),
    {
        match &request.title {
            Some(t) => !str_eq(t.as_str(), self.title.as_str()),
            None => false,
        }
    }

    /// Whether a request gives tags other than the note's.
    pub fn tags_changed(&self, request: &UpdateNoteRequest) -> (r: bool)
        ensures
            r == changes_tags(self@, request@),
    {
        match &request.tags {
            Some(t) => !same_strings(t, &self.tags),
            None => false,
        }
    }
}

} // verus!
