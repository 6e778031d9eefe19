//! The workspace: what is remembered of each note's window between runs,
//! and which note each key of the number grid deploys.
use vstd::prelude::*;
use crate::text::{copy_string, str_eq};
use crate::window::{
    note_label, CreateDetachedWindowRequest, DetachedWindow, RequestView, WindowView,
    DEFAULT_HEIGHT, DEFAULT_ORIGIN, DEFAULT_WIDTH, FULL_OPACITY,
};

verus! {

/// How many columns the number grid has.
pub const GRID_COLUMNS: u8 = 3;

/// The distance between two columns of the grid, in pixels.
pub const GRID_COLUMN_STEP: i32 = 1320;

/// The distance between two rows of the grid, in pixels.
pub const GRID_ROW_STEP: i32 = 420;

/// The distance of the grid from the screen's edge, in pixels.
pub const GRID_PADDING: i32 = 100;

/// What is remembered of a note's window.
#[derive(Debug)]
pub struct WindowState {
    pub note_id: String,
    /// The key of the number grid that deploys the note, from 1 to 9.
    pub grid_position: Option<u8>,
    /// Where the user put the window.
    pub custom_position: Option<(i32, i32)>,
    pub size: (u32, u32),
    pub last_focused: String,
    pub is_detached: bool,
    pub always_on_top: bool,
    pub opacity: u8,
}

/// A window state as a mathematical value.
pub struct StateView {
    pub note_id: Seq<char>,
    pub grid_position: Option<u8>,
    pub custom_position: Option<(i32, i32)>,
    pub size: (u32, u32),
    pub last_focused: Seq<char>,
    pub is_detached: bool,
    pub always_on_top: bool,
    pub opacity: u8,
}

impl View for WindowState {
    type V = StateView;

    open spec fn view(&self) -> StateView {
        StateView {
            note_id: self.note_id@,
            grid_position: self.grid_position,
            custom_position: self.custom_position,
            size: self.size,
            last_focused: self.last_focused@,
            is_detached: self.is_detached,
            always_on_top: self.always_on_top,
            opacity: self.opacity,
        }
    }
}

/// The state of a window that is opened at the time `now`: at the given
/// place where both coordinates are given, with the given size or the
/// default one.
pub open spec fn opened_state(
    note_id: Seq<char>,
    x: Option<i32>,
    y: Option<i32>,
    width: Option<u32>,
    height: Option<u32>,
    grid_position: Option<u8>,
    now: Seq<char>,
) -> StateView {
    StateView {
        note_id: note_id,
        grid_position: grid_position,
        custom_position: match (x, y) {
            (Some(a), Some(b)) => Some((a, b)),
            _ => None,
        },
        size: (
            match width {
                Some(w) => w,
                None => DEFAULT_WIDTH,
            },
            match height {
                Some(h) => h,
                None => DEFAULT_HEIGHT,
            },
        ),
        last_focused: now,
        is_detached: true,
        always_on_top: false,
        opacity: FULL_OPACITY,
    }
}

/// The record of the window that a state leads to: at the place the user
/// chose, or at the default origin.
pub open spec fn window_of_state(s: StateView) -> WindowView {
    WindowView {
        note_id: s.note_id,
        window_label: note_label(s.note_id),
        position: match s.custom_position {
            Some(p) => p,
            None => (DEFAULT_ORIGIN, DEFAULT_ORIGIN),
        },
        size: s.size,
        always_on_top: s.always_on_top,
        opacity: s.opacity,
        is_shaded: false,
        original_height: Some(s.size.1),
    }
}

impl WindowState {
    /// A copy of the state.
    pub fn copy(&self) -> (out: WindowState)
        ensures
            out@ == self@,
    {
        WindowState {
            note_id: copy_string(&self.note_id),
            grid_position: self.grid_position,
            custom_position: self.custom_position,
            size: self.size,
            last_focused: copy_string(&self.last_focused),
            is_detached: self.is_detached,
            always_on_top: self.always_on_top,
            opacity: self.opacity,
        }
    }

    /// The state of no window in particular, at the time `now`.
    pub fn default_at(now: &str) -> (out: WindowState)
        ensures
            out@ == (StateView {
                note_id: Seq::empty(),
                grid_position: None,
                custom_position: None,
                size: (DEFAULT_WIDTH, DEFAULT_HEIGHT),
                last_focused: now@,
                is_detached: false,
                always_on_top: false,
                opacity: FULL_OPACITY,
            }),
    {
        WindowState {
            note_id: String::new(),
            grid_position: None,
            custom_position: None,
            size: (DEFAULT_WIDTH, DEFAULT_HEIGHT),
            last_focused: now.to_owned(),
            is_detached: false,
            always_on_top: false,
            opacity: FULL_OPACITY,
        }
    }

    /// The state of a window that is opened at the time `now`.
    pub fn opened(
        note_id: &str,
        x: Option<i32>,
        y: Option<i32>,
        width: Option<u32>,
        height: Option<u32>,
        grid_position: Option<u8>,
        now: &str,
    ) -> (out: WindowState)
        ensures
            out@ == opened_state(note_id@, x, y, width, height, grid_position, now@),
    {
        WindowState {
            note_id: note_id.to_owned(),
            grid_position,
            custom_position: match (x, y) {
                (Some(a), Some(b)) => Some((a, b)),
                _ => None,
            },
            size: (
                match width {
                    Some(w) => w,
                    None => DEFAULT_WIDTH,
                },
                match height {
                    Some(h) => h,
                    None => DEFAULT_HEIGHT,
                },
            ),
            last_focused: now.to_owned(),
            is_detached: true,
            always_on_top: false,
            opacity: FULL_OPACITY,
        }
    }

    /// The record of the window that the state leads to.
    pub fn window(&self) -> (out: DetachedWindow)
        ensures
            out@ == window_of_state(self@),
    {
        DetachedWindow {
            note_id: copy_string(&self.note_id),
            window_label: crate::window::window_label_for(self.note_id.as_str()),
            position: match self.custom_position {
                Some(p) => p,
                None => (DEFAULT_ORIGIN, DEFAULT_ORIGIN),
            },
            size: self.size,
            always_on_top: self.always_on_top,
            opacity: self.opacity,
            is_shaded: false,
            original_height: Some(self.size.1),
        }
    }
}

/// Where on the screen the window of a grid key goes: the keys fill a
/// grid of three columns, row by row, from the upper left.
pub open spec fn grid_coordinates(grid_position: u8) -> (i32, i32) {
    (
        (GRID_PADDING + ((grid_position - 1) % 3) * GRID_COLUMN_STEP) as i32,
        (GRID_PADDING + ((grid_position - 1) / 3) * GRID_ROW_STEP) as i32,
    )
}

/// Where on the screen the window of a grid key goes.
pub fn calculate_grid_coordinates(grid_position: u8) -> (r: (i32, i32))
    requires
        grid_position >= 1,
    ensures
        r == grid_coordinates(grid_position),
{
    let col: i32 = ((grid_position - 1) % GRID_COLUMNS) as i32;
    let row: i32 = ((grid_position - 1) / GRID_COLUMNS) as i32;
    (GRID_PADDING + col * GRID_COLUMN_STEP, GRID_PADDING + row * GRID_ROW_STEP)
}

/// The views of a sequence of states.
pub open spec fn state_views(ss: Seq<WindowState>) -> Seq<StateView> {
    Seq::new(ss.len(), |i: int| ss[i]@)
}

/// No two states belong to the same note.
pub open spec fn distinct_states(ss: Seq<StateView>) -> bool {
    forall|i: int, j: int|
        0 <= i < j < ss.len() ==> (#[trigger] ss[i]).note_id != (#[trigger] ss[j]).note_id
}

/// Whether a state is kept for the note.
pub open spec fn has_state(ss: Seq<StateView>, note_id: Seq<char>) -> bool {
    exists|i: int| 0 <= i < ss.len() && (#[trigger] ss[i]).note_id == note_id
}

/// The state kept for the note.
pub open spec fn state_of(ss: Seq<StateView>, note_id: Seq<char>) -> StateView {
    ss[choose|i: int| 0 <= i < ss.len() && (#[trigger] ss[i]).note_id == note_id]
}

/// The states with `s` put under its note: in place of the state that the
/// note had, or at the end.
pub open spec fn with_state(ss: Seq<StateView>, s: StateView) -> Seq<StateView> {
    if has_state(ss, s.note_id) {
        Seq::new(
            ss.len(),
            |i: int|
                if ss[i].note_id == s.note_id {
                    s
                } else {
                    ss[i]
                },
        )
    } else {
        ss.push(s)
    }
}

/// The states with `change` made to the state of the note, if it has one.
pub open spec fn with_change(
    ss: Seq<StateView>,
    note_id: Seq<char>,
    change: spec_fn(StateView) -> StateView,
) -> Seq<StateView> {
    Seq::new(
        ss.len(),
        |i: int|
            if ss[i].note_id == note_id {
                change(ss[i])
            } else {
                ss[i]
            },
    )
}

/// A state after its window was closed.
pub open spec fn closing() -> spec_fn(StateView) -> StateView {
    |s: StateView| StateView { is_detached: false, ..s }
}

/// A state after its window was brought to the front at `now`.
pub open spec fn focusing(now: Seq<char>) -> spec_fn(StateView) -> StateView {
    |s: StateView| StateView { last_focused: now, ..s }
}

/// A state after the user put its window at `p`.
pub open spec fn placing(p: (i32, i32)) -> spec_fn(StateView) -> StateView {
    |s: StateView| StateView { custom_position: Some(p), ..s }
}

/// A state after its note was given the grid key `key`.
pub open spec fn keying(key: u8) -> spec_fn(StateView) -> StateView {
    |s: StateView| StateView { grid_position: Some(key), ..s }
}

/// The grid after `key` was given to the note: the note has that key and
/// no other, and every other key deploys what it did.
pub open spec fn assigned(grid: Map<u8, Seq<char>>, note_id: Seq<char>, key: u8) -> Map<
    u8,
    Seq<char>,
> {
    Map::new(
        |k: u8| k == key || (grid.contains_key(k) && grid[k] != note_id),
        |k: u8|
            if k == key {
                note_id
            } else {
                grid[k]
            },
    )
}

/// The workspace as a mathematical value.
pub struct WorkspaceView {
    pub name: Seq<char>,
    pub created_at: Seq<char>,
    pub last_accessed: Seq<char>,
    pub notes_directory: Seq<char>,
    pub window_states: Seq<StateView>,
    pub grid_assignments: Map<u8, Seq<char>>,
}

/// The workspace.
pub struct WorkspaceState {
    name: String,
    created_at: String,
    last_accessed: String,
    notes_directory: String,
    window_states: Vec<WindowState>,
    /// For each key, the note that it deploys.
    slots: Vec<Option<String>>,
}

/// The grid that the slots stand for.
pub open spec fn grid_of(slots: Seq<Option<String>>) -> Map<u8, Seq<char>> {
    Map::new(|k: u8| slots[k as int] is Some, |k: u8| slots[k as int]->0@)
}

impl View for WorkspaceState {
    type V = WorkspaceView;

    closed spec fn view(&self) -> WorkspaceView {
        WorkspaceView {
            name: self.name@,
            created_at: self.created_at@,
            last_accessed: self.last_accessed@,
            notes_directory: self.notes_directory@,
            window_states: state_views(self.window_states@),
            grid_assignments: grid_of(self.slots@),
        }
    }
}

impl WorkspaceState {
    /// The invariant of a workspace: one state for each note at most.
    pub closed spec fn wf(&self) -> bool {
        &&& distinct_states(state_views(self.window_states@))
        &&& self.slots@.len() == 256
    }

    /// The workspace of a new installation, made at the time `now`.
    pub fn new(notes_directory: &str, now: &str) -> (out: WorkspaceState)
        ensures
            out.wf(),
            out@ == (WorkspaceView {
                name: "Default"@,
                created_at: now@,
                last_accessed: now@,
                notes_directory: notes_directory@,
                window_states: Seq::empty(),
                grid_assignments: Map::empty(),
            }),
    {
        let mut slots: Vec<Option<String>> = Vec::new();
        let mut k: usize = 0;
        while k < 256
            invariant
                k <= 256,
                slots@.len() == k,
                forall|j: int| 0 <= j < k ==> slots@[j] is None,
            decreases 256 - k,
        {
            slots.push(None);
            k += 1;
        }
        let out = WorkspaceState {
            name: "Default".to_owned(),
            created_at: now.to_owned(),
            last_accessed: now.to_owned(),
            notes_directory: notes_directory.to_owned(),
            window_states: Vec::new(),
            slots,
        };
        assert(out@.window_states =~= Seq::<StateView>::empty());
        assert(out@.grid_assignments =~= Map::<u8, Seq<char>>::empty());
        out
    }

    /// The name of the workspace.
    pub fn name(&self) -> (r: String)
        ensures
            r@ == self@.name,
    {
        copy_string(&self.name)
    }

    /// When the workspace was made.
    pub fn created_at(&self) -> (r: String)
        ensures
            r@ == self@.created_at,
    {
        copy_string(&self.created_at)
    }

    /// When the workspace was last used.
    pub fn last_accessed(&self) -> (r: String)
        ensures
            r@ == self@.last_accessed,
    {
        copy_string(&self.last_accessed)
    }

    /// The notes directory of the workspace.
    pub fn notes_directory(&self) -> (r: String)
        ensures
            r@ == self@.notes_directory,
    {
        copy_string(&self.notes_directory)
    }

    /// A copy of every state that is kept.
    pub fn window_states(&self) -> (out: Vec<WindowState>)
        ensures
            state_views(out@) == self@.window_states,
    {
        let mut out: Vec<WindowState> = Vec::new();
        let mut i: usize = 0;
        while i < self.window_states.len()
            invariant
                i <= self.window_states.len(),
                out@.len() == i,
                forall|j: int| 0 <= j < i ==> out@[j]@ == self.window_states@[j]@,
            decreases self.window_states.len() - i,
        {
            out.push(self.window_states[i].copy());
            i += 1;
        }
        assert(state_views(out@) =~= self@.window_states);
        out
    }

    fn index_of(&self, note_id: &str) -> (r: Option<usize>)
        ensures
            match r {
                Some(i) => i < self@.window_states.len() && self@.window_states[i as int].note_id
                    == note_id@,
                None => !has_state(self@.window_states, note_id@),
            },
    {
        let mut i: usize = 0;
        while i < self.window_states.len()
            invariant
                i <= self.window_states.len(),
                forall|j: int| 0 <= j < i ==> (#[trigger] self@.window_states[j]).note_id != note_id@,
            decreases self.window_states.len() - i,
        {
            if str_eq(self.window_states[i].note_id.as_str(), note_id) {
                return Some(i);
            }
            i += 1;
        }
        None
    }

    /// The state that is kept for a note.
    pub fn load_window_state(&self, note_id: &str) -> (r: Option<WindowState>)
        requires
            self.wf(),
        ensures
            match r {
                Some(s) => has_state(self@.window_states, note_id@) && s@ == state_of(
                    self@.window_states,
                    note_id@,
                ),
                None => !has_state(self@.window_states, note_id@),
            },
    {
        match self.index_of(note_id) {
            Some(i) => {
                proof {
                    let k = choose|k: int|
                        0 <= k < self@.window_states.len() && (
                        #[trigger] self@.window_states[k]).note_id == note_id@;
                    assert(k == i);
                }
                Some(self.window_states[i].copy())
            },
            None => None,
        }
    }

    /// Keeps a state under its note, in place of the one kept before. The
    /// workspace counts as used at `now`.
    pub fn save_window_state(&mut self, window_state: WindowState, now: &str)
        requires
            old(self).wf(),
        ensures
            final(self).wf(),
            final(self)@ == (WorkspaceView {
                window_states: with_state(old(self)@.window_states, window_state@),
                last_accessed: now@,
                ..old(self)@
            }),
    {
        let ghost before = self@.window_states;
        match self.index_of(window_state.note_id.as_str()) {
            Some(i) => {
                self.window_states.set(i, window_state);
                assert(self@.window_states =~= with_state(before, window_state@));
            },
            None => {
                self.window_states.push(window_state);
                assert(self@.window_states =~= before.push(window_state@));
            },
        }
        self.last_accessed = now.to_owned();
    }

    /// Makes a change to the state of a note, if one is kept.
    fn change(
        &mut self,
        note_id: &str,
        changed: Option<WindowState>,
        Ghost(f): Ghost<spec_fn(StateView) -> StateView>,
    )
        requires
            old(self).wf(),
            match changed {
                Some(s) => has_state(old(self)@.window_states, note_id@) && s@ == f(
                    state_of(old(self)@.window_states, note_id@),
                ) && s@.note_id == note_id@,
                None => !has_state(old(self)@.window_states, note_id@),
            },
        ensures
            final(self).wf(),
            final(self)@ == (WorkspaceView {
                window_states: with_change(old(self)@.window_states, note_id@, f),
                ..old(self)@
            }),
    {
        let ghost before = self@.window_states;
        match changed {
            Some(s) => match self.index_of(note_id) {
                Some(i) => {
                    proof {
                        let k = choose|k: int|
                            0 <= k < before.len() && (#[trigger] before[k]).note_id == note_id@;
                        assert(k == i);
                    }
                    self.window_states.set(i, s);
                    assert(self@.window_states =~= with_change(before, note_id@, f));
                },
                None => {},
            },
            None => {
                assert(self@.window_states =~= with_change(before, note_id@, f));
            },
        }
    }

    /// Takes note that the window of a note was closed.
    pub fn mark_closed(&mut self, note_id: &str)
        requires
            old(self).wf(),
        ensures
            final(self).wf(),
            final(self)@ == (WorkspaceView {
                window_states: with_change(old(self)@.window_states, note_id@, closing()),
                ..old(self)@
            }),
    {
        let changed = match self.load_window_state(note_id) {
            Some(mut s) => {
                s.is_detached = false;
                Some(s)
            },
            None => None,
        };
        self.change(note_id, changed, Ghost(closing()));
    }

    /// Takes note that the window of a note was brought to the front at
    /// the time `now`.
    pub fn mark_focused(&mut self, note_id: &str, now: &str)
        requires
            old(self).wf(),
        ensures
            final(self).wf(),
            final(self)@ == (WorkspaceView {
                window_states: with_change(old(self)@.window_states, note_id@, focusing(now@)),
                ..old(self)@
            }),
    {
        let changed = match self.load_window_state(note_id) {
            Some(mut s) => {
                s.last_focused = now.to_owned();
                Some(s)
            },
            None => None,
        };
        self.change(note_id, changed, Ghost(focusing(now@)));
    }

    /// Takes note of where the user put the window of a note.
    pub fn update_window_position(&mut self, note_id: &str, x: i32, y: i32)
        requires
            old(self).wf(),
        ensures
            final(self).wf(),
            final(self)@ == (WorkspaceView {
                window_states: with_change(old(self)@.window_states, note_id@, placing((x, y))),
                ..old(self)@
            }),
    {
        let changed = match self.load_window_state(note_id) {
            Some(mut s) => {
                s.custom_position = Some((x, y));
                Some(s)
            },
            None => None,
        };
        self.change(note_id, changed, Ghost(placing((x, y))));
    }

    /// The states of the windows that were open when the workspace was
    /// saved: the windows to open again.
    pub fn detached_states(&self) -> (out: Vec<WindowState>)
        ensures
            state_views(out@) == self@.window_states.filter(|s: StateView| s.is_detached),
    {
        let ghost all = self@.window_states;
        let ghost p = |s: StateView| s.is_detached;
        let mut out: Vec<WindowState> = Vec::new();
        let mut i: usize = 0;
        proof {
            reveal(Seq::filter);
            assert(all.take(0).filter(p) =~= Seq::<StateView>::empty());
            assert(state_views(out@) =~= Seq::<StateView>::empty());
        }
        while i < self.window_states.len()
            invariant
                i <= self.window_states.len(),
                all == self@.window_states,
                p == (|s: StateView| s.is_detached),
                state_views(out@) == all.take(i as int).filter(p),
            decreases self.window_states.len() - i,
        {
            proof {
                all.lemma_take_succ_push(i as int);
                all.take(i as int).lemma_filter_push(all[i as int], p);
            }
            if self.window_states[i].is_detached {
                let ghost before = state_views(out@);
                out.push(self.window_states[i].copy());
                assert(state_views(out@) =~= before.push(all[i as int]));
            }
            i += 1;
        }
        proof {
            all.lemma_take_len();
        }
        out
    }

    /// Gives a key of the number grid to a note. The note loses any key it
    /// had, the key loses the note it deployed, and the note's window
    /// state, if one is kept, records the key.
    pub fn assign_grid_position(&mut self, note_id: &str, grid_position: u8)
        requires
            old(self).wf(),
        ensures
            final(self).wf(),
            final(self)@ == (WorkspaceView {
                grid_assignments: assigned(old(self)@.grid_assignments, note_id@, grid_position),
                window_states: with_change(
                    old(self)@.window_states,
                    note_id@,
                    keying(grid_position),
                ),
                ..old(self)@
            }),
    {
        let ghost before = self.slots@;
        let mut k: usize = 0;
        while k < 256
            invariant
                k <= 256,
                before.len() == 256,
                self.slots@.len() == 256,
                self.name == old(self).name,
                self.created_at == old(self).created_at,
                self.last_accessed == old(self).last_accessed,
                self.notes_directory == old(self).notes_directory,
                self.window_states == old(self).window_states,
                forall|j: int|
                    0 <= j < k ==> #[trigger] self.slots@[j] == if before[j] is Some
                        && before[j]->0@ == note_id@ {
                        None
                    } else {
                        before[j]
                    },
                forall|j: int| k <= j < 256 ==> #[trigger] self.slots@[j] == before[j],
            decreases 256 - k,
        {
            let clear = match &self.slots[k] {
                Some(id) => str_eq(id.as_str(), note_id),
                None => false,
            };
            if clear {
                self.slots.set(k, None);
            }
            k += 1;
        }
        self.slots.set(grid_position as usize, Some(note_id.to_owned()));
        proof {
            assert(grid_of(self.slots@) =~= assigned(grid_of(before), note_id@, grid_position));
        }
        let changed = match self.load_window_state(note_id) {
            Some(mut s) => {
                s.grid_position = Some(grid_position);
                Some(s)
            },
            None => None,
        };
        self.change(note_id, changed, Ghost(keying(grid_position)));
    }

    /// The note that a key of the number grid deploys.
    pub fn get_grid_assignment(&self, grid_position: u8) -> (r: Option<String>)
        requires
            self.wf(),
        ensures
            match r {
                Some(id) => self@.grid_assignments.contains_key(grid_position) && id@
                    == self@.grid_assignments[grid_position],
                None => !self@.grid_assignments.contains_key(grid_position),
            },
    {
        match &self.slots[grid_position as usize] {
            Some(id) => Some(copy_string(id)),
            None => None,
        }
    }
}


/// Width of a window that a grid key deploys.
pub const DEPLOYED_WIDTH: u32 = 600;

/// Height of a window that a grid key deploys.
pub const DEPLOYED_HEIGHT: u32 = 400;

/// The request that deploys a note at the place of a grid key.
pub fn deploy_request(note_id: &str, grid_position: u8) -> (request: CreateDetachedWindowRequest)
    requires
        grid_position >= 1,
    ensures
        request@ == (RequestView {
            note_id: note_id@,
            x: Some(grid_coordinates(grid_position).0),
            y: Some(grid_coordinates(grid_position).1),
            width: Some(DEPLOYED_WIDTH),
            height: Some(DEPLOYED_HEIGHT),
        }),
{
    let (x, y) = calculate_grid_coordinates(grid_position);
    CreateDetachedWindowRequest {
        note_id: note_id.to_owned(),
        x: Some(x),
        y: Some(y),
        width: Some(DEPLOYED_WIDTH),
        height: Some(DEPLOYED_HEIGHT),
    }
}

} // verus!
