//! The application menu: what its entries for the notes say, and what a
//! chosen entry asks for.
use vstd::prelude::*;
use crate::note::{Note, NoteView};
use crate::text::{chars_of, concat, copy_string, occurs_at, slice_of, starts_with, str_eq, string_of};
use crate::window::{
    first_of_note, CreateDetachedWindowRequest, RequestView, WindowRegistry, WindowView,
};

verus! {

/// What a chosen menu entry asks for.
#[derive(Debug)]
pub enum MenuCommand {
    Quit,
    Minimize,
    NewNote,
    ShowMainWindow,
    Paste,
    ReloadApp,
    RestartApp,
    ForceMainVisible,
    /// Open the note with this id in a window of its own.
    OpenNote(String),
    /// The entry asks for nothing that is decided here.
    Other,
}

/// A command as a mathematical value.
pub enum CommandView {
    Quit,
    Minimize,
    NewNote,
    ShowMainWindow,
    Paste,
    ReloadApp,
    RestartApp,
    ForceMainVisible,
    OpenNote(Seq<char>),
    Other,
}

impl View for MenuCommand {
    type V = CommandView;

    open spec fn view(&self) -> CommandView {
        match self {
            MenuCommand::Quit => CommandView::Quit,
            MenuCommand::Minimize => CommandView::Minimize,
            MenuCommand::NewNote => CommandView::NewNote,
            MenuCommand::ShowMainWindow => CommandView::ShowMainWindow,
            MenuCommand::Paste => CommandView::Paste,
            MenuCommand::ReloadApp => CommandView::ReloadApp,
            MenuCommand::RestartApp => CommandView::RestartApp,
            MenuCommand::ForceMainVisible => CommandView::ForceMainVisible,
            MenuCommand::OpenNote(id) => CommandView::OpenNote(id@),
            MenuCommand::Other => CommandView::Other,
        }
    }
}

/// The command that the entry with the id `menu_id` stands for. The
/// entries of the notes are named `open-note-` and the note's id.
pub open spec fn command_of(menu_id: Seq<char>) -> CommandView {
    if menu_id == "quit"@ {
        CommandView::Quit
    } else if menu_id == "minimize"@ {
        CommandView::Minimize
    } else if menu_id == "new-note"@ {
        CommandView::NewNote
    } else if menu_id == "show-main-window"@ {
        CommandView::ShowMainWindow
    } else if menu_id == "59"@ || menu_id == "paste"@ {
        CommandView::Paste
    } else if menu_id == "reload-app"@ {
        CommandView::ReloadApp
    } else if menu_id == "restart-app"@ {
        CommandView::RestartApp
    } else if menu_id == "force-main-visible"@ {
        CommandView::ForceMainVisible
    } else if occurs_at(menu_id, "open-note-"@, 0) {
        CommandView::OpenNote(menu_id.skip("open-note-"@.len() as int))
    } else {
        CommandView::Other
    }
}

/// The command that a chosen menu entry stands for.
pub fn menu_command(menu_id: &str) -> (command: MenuCommand)
    ensures
        command@ == command_of(menu_id@),
{
    if str_eq(menu_id, "quit") {
        MenuCommand::Quit
    } else if str_eq(menu_id, "minimize") {
        MenuCommand::Minimize
    } else if str_eq(menu_id, "new-note") {
        MenuCommand::NewNote
    } else if str_eq(menu_id, "show-main-window") {
        MenuCommand::ShowMainWindow
    } else if str_eq(menu_id, "59") || str_eq(menu_id, "paste") {
        MenuCommand::Paste
    } else if str_eq(menu_id, "reload-app") {
        MenuCommand::ReloadApp
    } else if str_eq(menu_id, "restart-app") {
        MenuCommand::RestartApp
    } else if str_eq(menu_id, "force-main-visible") {
        MenuCommand::ForceMainVisible
    } else if starts_with(menu_id, "open-note-") {
        let chars = chars_of(menu_id);
        let prefix = chars_of("open-note-");
        let id = slice_of(&chars, prefix.len(), chars.len());
        assert(id@ =~= menu_id@.skip("open-note-"@.len() as int));
        MenuCommand::OpenNote(string_of(&id))
    } else {
        MenuCommand::Other
    }
}

/// An entry of the notes menu.
#[derive(Debug)]
pub struct MenuEntry {
    pub id: String,
    pub title: String,
}

/// Whether a window is recorded for the note, under whatever label.
pub open spec fn is_open(ws: Seq<WindowView>, note_id: Seq<char>) -> bool {
    exists|i: int| 0 <= i < ws.len() && (#[trigger] ws[i]).note_id == note_id
}

/// The id of the menu entry of a note.
pub open spec fn entry_id(n: NoteView) -> Seq<char> {
    "open-note-"@ + n.id
}

/// What the menu shows for a note: its title, or "Untitled Note", after a
/// bullet where the note has a window and after two spaces where it has
/// none.
pub open spec fn entry_title(n: NoteView, open: bool) -> Seq<char> {
    (if open {
        "• "@
    } else {
        "  "@
    }) + (if n.title.len() == 0 {
        "Untitled Note"@
    } else {
        n.title
    })
}

/// The entries of the notes menu, one for each note, in the order in
/// which the notes are given.
pub fn note_menu_entries(notes: &Vec<Note>, windows: &WindowRegistry) -> (entries: Vec<MenuEntry>)
    ensures
        entries@.len() == notes@.len(),
        forall|i: int|
            0 <= i < notes@.len() ==> (#[trigger] entries@[i]).id@ == entry_id(notes@[i]@)
                && entries@[i].title@ == entry_title(
                notes@[i]@,
                is_open(windows@, notes@[i]@.id),
            ),
{
    let mut entries: Vec<MenuEntry> = Vec::new();
    let mut i: usize = 0;
    while i < notes.len()
        invariant
            i <= notes.len(),
            entries@.len() == i,
            forall|k: int|
                0 <= k < i ==> (#[trigger] entries@[k]).id@ == entry_id(notes@[k]@)
                    && entries@[k].title@ == entry_title(
                    notes@[k]@,
                    is_open(windows@, notes@[k]@.id),
                ),
        decreases notes.len() - i,
    {
        let note = &notes[i];
        let open = match windows.label_for_note(note.id.as_str()) {
            Some(_) => {
                proof {
                    let k = choose|k: int|
                        0 <= k < windows@.len() && first_of_note(windows@, note@.id, k);
                    assert(windows@[k].note_id == note@.id);
                }
                true
            },
            None => false,
        };
        let name = if note.title.as_str().is_empty() {
            "Untitled Note".to_owned()
        } else {
            copy_string(&note.title)
        };
        let title = if open {
            concat("• ", name.as_str())
        } else {
            concat("  ", name.as_str())
        };
        entries.push(MenuEntry { id: concat("open-note-", note.id.as_str()), title });
        i += 1;
    }
    entries
}

/// What opening a note from the menu comes to.
#[derive(Debug)]
pub enum OpenNote {
    /// The note has a window: bring the one with this label to the front.
    Focus(String),
    /// The note has no window: make one from this request.
    Create(CreateDetachedWindowRequest),
}

/// The request for a window of a note with nothing asked of its geometry.
pub open spec fn plain_request(note_id: Seq<char>) -> RequestView {
    RequestView { note_id: note_id, x: None, y: None, width: None, height: None }
}

/// Decides what opening a note from the menu comes to.
pub fn open_note(windows: &WindowRegistry, note_id: &str) -> (action: OpenNote)
    ensures
        match action {
            OpenNote::Focus(label) => exists|i: int|
                0 <= i < windows@.len() && first_of_note(windows@, note_id@, i) && (
                #[trigger] windows@[i]).window_label == label@,
            OpenNote::Create(request) => !is_open(windows@, note_id@) && request@ == plain_request(
                note_id@,
            ),
        },
{
    match windows.label_for_note(note_id) {
        Some(label) => OpenNote::Focus(label),
        None => OpenNote::Create(
            CreateDetachedWindowRequest {
                note_id: note_id.to_owned(),
                x: None,
                y: None,
                width: None,
                height: None,
            },
        ),
    }
}

/// The index, counted from zero, of the note that the deploy key with the
/// digit `digit` stands for; the keys are those from 1 to 9.
pub fn deploy_index(digit: u8) -> (index: Option<u8>)
    ensures
        index == if 1 <= digit <= 9 {
            Some((digit - 1) as u8)
        } else {
            None
        },
{
    if 1 <= digit && digit <= 9 {
        Some(digit - 1)
    } else {
        None
    }
}

} // verus!
