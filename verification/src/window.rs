//! Records of detached windows: one floating window per note, found again
//! by its label. Coordinates and sizes are whole logical pixels.
use vstd::prelude::*;
use crate::error::BlinkError;
use crate::text::{
    chars_of, concat, copy_string, holds_string, occurs_at, slice_of, starts_with, str_eq,
    string_of, views,
};
use crate::trusted::{percent_encode, percent_encoded};

verus! {

/// Width given to a window when neither the request nor a saved record has one.
pub const DEFAULT_WIDTH: u32 = 800;

/// Height given to a window when neither the request nor a saved record has one.
pub const DEFAULT_HEIGHT: u32 = 600;

/// Where the first window goes when nothing says otherwise.
pub const DEFAULT_ORIGIN: i32 = 100;

/// How far a window is moved, on both axes, to get out of another's way,
/// and how far apart windows placed by default are.
pub const CASCADE_STEP: i32 = 30;

/// Two windows closer than this on both axes count as overlapping.
pub const OVERLAP_THRESHOLD: i32 = 50;

/// Height of a shaded window: its title bar alone.
pub const SHADED_HEIGHT: u32 = 48;

/// Opacity of a new window, in percent.
pub const FULL_OPACITY: u8 = 100;

/// What is recorded of one open floating window.
#[derive(Debug)]
pub struct DetachedWindow {
    pub note_id: String,
    pub window_label: String,
    pub position: (i32, i32),
    pub size: (u32, u32),
    pub always_on_top: bool,
    pub opacity: u8,
    pub is_shaded: bool,
    pub original_height: Option<u32>,
}

/// A request to open a window for a note; what is left out is decided here.
#[derive(Debug)]
pub struct CreateDetachedWindowRequest {
    pub note_id: String,
    pub x: Option<i32>,
    pub y: Option<i32>,
    pub width: Option<u32>,
    pub height: Option<u32>,
}

/// A window record as a mathematical value.
pub struct WindowView {
    pub note_id: Seq<char>,
    pub window_label: Seq<char>,
    pub position: (i32, i32),
    pub size: (u32, u32),
    pub always_on_top: bool,
    pub opacity: u8,
    pub is_shaded: bool,
    pub original_height: Option<u32>,
}

/// A request as a mathematical value.
pub struct RequestView {
    pub note_id: Seq<char>,
    pub x: Option<i32>,
    pub y: Option<i32>,
    pub width: Option<u32>,
    pub height: Option<u32>,
}

impl View for DetachedWindow {
    type V = WindowView;

    open spec fn view(&self) -> WindowView {
        WindowView {
            note_id: self.note_id@,
            window_label: self.window_label@,
            position: self.position,
            size: self.size,
            always_on_top: self.always_on_top,
            opacity: self.opacity,
            is_shaded: self.is_shaded,
            original_height: self.original_height,
        }
    }
}

impl View for CreateDetachedWindowRequest {
    type V = RequestView;

    open spec fn view(&self) -> RequestView {
        RequestView {
            note_id: self.note_id@,
            x: self.x,
            y: self.y,
            width: self.width,
            height: self.height,
        }
    }
}

impl DetachedWindow {
    /// A copy of the record.
    pub fn copy(&self) -> (out: DetachedWindow)
        ensures
            out@ == self@,
    {
        DetachedWindow {
            note_id: copy_string(&self.note_id),
            window_label: copy_string(&self.window_label),
            position: self.position,
            size: self.size,
            always_on_top: self.always_on_top,
            opacity: self.opacity,
            is_shaded: self.is_shaded,
            original_height: self.original_height,
        }
    }
}

/// The views of a sequence of records.
pub open spec fn window_views(ws: Seq<DetachedWindow>) -> Seq<WindowView> {
    Seq::new(ws.len(), |i: int| ws[i]@)
}

/// The label of the window that shows a note.
pub open spec fn note_label(note_id: Seq<char>) -> Seq<char> {
    "note-"@ + note_id
}

/// Whether a label is that of a note's window.
pub open spec fn is_note_label(label: Seq<char>) -> bool {
    occurs_at(label, "note-"@, 0)
}

/// Whether a label is that of a window made while a note is dragged.
pub open spec fn is_hybrid_label(label: Seq<char>) -> bool {
    occurs_at(label, "hybrid-drag-"@, 0)
}

/// Whether a label is that of a drag preview.
pub open spec fn is_ghost_label(label: Seq<char>) -> bool {
    occurs_at(label, "drag-ghost"@, 0)
}

/// The label of the window that shows a note.
pub fn window_label_for(note_id: &str) -> (label: String)
    ensures
        label@ == note_label(note_id@),
{
    concat("note-", note_id)
}

/// Whether a label is that of a note's window.
pub fn note_window_label(label: &str) -> (r: bool)
    ensures
        r == is_note_label(label@),
{
    starts_with(label, "note-")
}

/// Whether a label is that of a window made while a note is dragged.
pub fn hybrid_window_label(label: &str) -> (r: bool)
    ensures
        r == is_hybrid_label(label@),
{
    starts_with(label, "hybrid-drag-")
}

/// Whether a label is that of a drag preview.
pub fn ghost_window_label(label: &str) -> (r: bool)
    ensures
        r == is_ghost_label(label@),
{
    starts_with(label, "drag-ghost")
}

/// `v`, held to the range of `i32`.
pub open spec fn clamped(v: int) -> i32 {
    if v > i32::MAX {
        i32::MAX
    } else if v < i32::MIN {
        i32::MIN
    } else {
        v as i32
    }
}

fn clamp(v: i128) -> (r: i32)
    ensures
        r == clamped(v as int),
{
    if v > i32::MAX as i128 {
        i32::MAX
    } else if v < i32::MIN as i128 {
        i32::MIN
    } else {
        v as i32
    }
}

/// Whether two positions are closer than the overlap threshold on both axes.
pub open spec fn too_close(a: (i32, i32), b: (i32, i32)) -> bool {
    &&& -OVERLAP_THRESHOLD < a.0 - b.0 < OVERLAP_THRESHOLD
    &&& -OVERLAP_THRESHOLD < a.1 - b.1 < OVERLAP_THRESHOLD
}

fn close(a: (i32, i32), b: (i32, i32)) -> (r: bool)
    ensures
        r == too_close(a, b),
{
    let dx: i64 = a.0 as i64 - b.0 as i64;
    let dy: i64 = a.1 as i64 - b.1 as i64;
    let t: i64 = OVERLAP_THRESHOLD as i64;
    -t < dx && dx < t && -t < dy && dy < t
}

/// Whether some recorded window is too close to the position `p`.
pub open spec fn crowded(ws: Seq<WindowView>, p: (i32, i32)) -> bool {
    exists|i: int| 0 <= i < ws.len() && too_close((#[trigger] ws[i]).position, p)
}

/// Whether a note's own window is among the records.
pub open spec fn has_note_window(ws: Seq<WindowView>, note_id: Seq<char>) -> bool {
    exists|i: int|
        0 <= i < ws.len() && is_note_label((#[trigger] ws[i]).window_label) && ws[i].note_id
            == note_id
}

/// The size of a new window: what the request asks for, else what was
/// saved for the note, else the default.
pub open spec fn chosen_size(req: RequestView, saved: Option<WindowView>) -> (u32, u32) {
    (
        match (req.width, saved) {
            (Some(w), _) => w,
            (None, Some(s)) => s.size.0,
            (None, None) => DEFAULT_WIDTH,
        },
        match (req.height, saved) {
            (Some(h), _) => h,
            (None, Some(s)) => s.size.1,
            (None, None) => DEFAULT_HEIGHT,
        },
    )
}

/// The position a new window is first given: the requested one when both
/// coordinates are given, else the saved one, else the default origin moved
/// by one cascade step for each window already recorded.
pub open spec fn chosen_position(req: RequestView, saved: Option<WindowView>, open: nat) -> (
    i32,
    i32,
) {
    match (req.x, req.y, saved) {
        (Some(x), Some(y), _) => (x, y),
        (_, _, Some(s)) => s.position,
        _ => (
            clamped(DEFAULT_ORIGIN + open * CASCADE_STEP),
            clamped(DEFAULT_ORIGIN + open * CASCADE_STEP),
        ),
    }
}

/// The first recorded window that is too close to the position `p`, if
/// any.
pub open spec fn crowding(ws: Seq<WindowView>, p: (i32, i32)) -> Option<int>
    decreases ws.len(),
{
    if ws.len() == 0 {
        None
    } else {
        match crowding(ws.drop_last(), p) {
            Some(i) => Some(i),
            None => if too_close(ws.last().position, p) {
                Some(ws.len() - 1)
            } else {
                None
            },
        }
    }
}

/// `crowding` finds the first window that is too close, and finds one
/// wherever there is one.
pub proof fn lemma_crowding(ws: Seq<WindowView>, p: (i32, i32))
    ensures
        match crowding(ws, p) {
            Some(i) => 0 <= i < ws.len() && too_close(ws[i].position, p) && forall|j: int|
                0 <= j < i ==> !too_close((#[trigger] ws[j]).position, p),
            None => !crowded(ws, p),
        },
    decreases ws.len(),
{
    if ws.len() > 0 {
        lemma_crowding(ws.drop_last(), p);
        match crowding(ws.drop_last(), p) {
            Some(i) => {
                assert(ws[i] == ws.drop_last()[i]);
                assert forall|j: int| 0 <= j < i implies !too_close(
                    (#[trigger] ws[j]).position,
                    p,
                ) by {
                    assert(ws[j] == ws.drop_last()[j]);
                }
            },
            None => {
                assert forall|j: int| 0 <= j < ws.len() - 1 implies !too_close(
                    (#[trigger] ws[j]).position,
                    p,
                ) by {
                    assert(ws[j] == ws.drop_last()[j]);
                }
            },
        }
    }
}

/// The position a new window ends at. Where the first choice is too close
/// to a recorded window, the new window goes one cascade step beyond that
/// window on both axes, so that the two do not lie on top of each other.
pub open spec fn settled_position(ws: Seq<WindowView>, p: (i32, i32)) -> (i32, i32) {
    match crowding(ws, p) {
        Some(i) => (
            clamped(ws[i].position.0 + CASCADE_STEP),
            clamped(ws[i].position.1 + CASCADE_STEP),
        ),
        None => p,
    }
}

/// The record of the window that a request leads to.
pub open spec fn planned_window(
    req: RequestView,
    ws: Seq<WindowView>,
    saved: Option<WindowView>,
) -> WindowView {
    WindowView {
        note_id: req.note_id,
        window_label: note_label(req.note_id),
        position: settled_position(ws, chosen_position(req, saved, ws.len())),
        size: chosen_size(req, saved),
        always_on_top: false,
        opacity: FULL_OPACITY,
        is_shaded: false,
        original_height: None,
    }
}

/// The saved record, if any, as a mathematical value.
pub open spec fn saved_view(saved: Option<&DetachedWindow>) -> Option<WindowView> {
    match saved {
        Some(s) => Some(s@),
        None => None,
    }
}

/// The windows that are recorded as open, each under its own label.
pub struct WindowRegistry {
    windows: Vec<DetachedWindow>,
}

impl View for WindowRegistry {
    type V = Seq<WindowView>;

    closed spec fn view(&self) -> Seq<WindowView> {
        window_views(self.windows@)
    }
}

/// No two records carry the same label.
pub open spec fn distinct_labels(ws: Seq<WindowView>) -> bool {
    forall|i: int, j: int|
        0 <= i < j < ws.len() ==> (#[trigger] ws[i]).window_label != (#[trigger] ws[j]).window_label
}

/// Whether a record with the label is present.
pub open spec fn has_label(ws: Seq<WindowView>, label: Seq<char>) -> bool {
    exists|i: int| 0 <= i < ws.len() && (#[trigger] ws[i]).window_label == label
}

/// The record with the label.
pub open spec fn record_of(ws: Seq<WindowView>, label: Seq<char>) -> WindowView {
    ws[choose|i: int| 0 <= i < ws.len() && (#[trigger] ws[i]).window_label == label]
}

/// The records with `w` put under its label: in place of the record that
/// had the label, or at the end.
pub open spec fn with_record(ws: Seq<WindowView>, w: WindowView) -> Seq<WindowView> {
    if has_label(ws, w.window_label) {
        Seq::new(
            ws.len(),
            |i: int|
                if ws[i].window_label == w.window_label {
                    w
                } else {
                    ws[i]
                },
        )
    } else {
        ws.push(w)
    }
}

impl WindowRegistry {
    /// The invariant of a registry: labels are distinct.
    pub open spec fn wf(&self) -> bool {
        distinct_labels(self@)
    }

    /// A registry without records.
    pub fn new() -> (out: WindowRegistry)
        ensures
            out.wf(),
            out@ == Seq::<WindowView>::empty(),
    {
        let out = WindowRegistry { windows: Vec::new() };
        assert(out@ =~= Seq::<WindowView>::empty());
        out
    }

    /// How many windows are recorded.
    pub fn len(&self) -> (n: usize)
        ensures
            n == self@.len(),
    {
        self.windows.len()
    }

    /// The index of the record under `label`.
    fn index_of(&self, label: &str) -> (r: Option<usize>)
        ensures
            match r {
                Some(i) => i < self@.len() && self@[i as int].window_label == label@,
                None => !has_label(self@, label@),
            },
    {
        let mut i: usize = 0;
        while i < self.windows.len()
            invariant
                i <= self.windows.len(),
                forall|j: int| 0 <= j < i ==> (#[trigger] self@[j]).window_label != label@,
            decreases self.windows.len() - i,
        {
            if str_eq(self.windows[i].window_label.as_str(), label) {
                return Some(i);
            }
            i += 1;
        }
        None
    }

    /// Whether a window is recorded under `label`.
    pub fn contains(&self, label: &str) -> (r: bool)
        ensures
            r == has_label(self@, label@),
    {
        self.index_of(label).is_some()
    }

    /// The record under `label`, if there is one.
    pub fn get(&self, label: &str) -> (r: Option<DetachedWindow>)
        requires
            self.wf(),
        ensures
            match r {
                Some(w) => has_label(self@, label@) && w@ == record_of(self@, label@),
                None => !has_label(self@, label@),
            },
    {
        match self.index_of(label) {
            Some(i) => {
                proof {
                    let k = choose|k: int|
                        0 <= k < self@.len() && (#[trigger] self@[k]).window_label == label@;
                    assert(k == i);
                }
                Some(self.windows[i].copy())
            },
            None => None,
        }
    }

    /// A copy of every record, in the order in which they were recorded.
    pub fn records(&self) -> (out: Vec<DetachedWindow>)
        ensures
            window_views(out@) == self@,
    {
        let mut out: Vec<DetachedWindow> = Vec::new();
        let mut i: usize = 0;
        while i < self.windows.len()
            invariant
                i <= self.windows.len(),
                out@.len() == i,
                forall|j: int| 0 <= j < i ==> out@[j]@ == self.windows@[j]@,
            decreases self.windows.len() - i,
        {
            out.push(self.windows[i].copy());
            i += 1;
        }
        assert(window_views(out@) =~= self@);
        out
    }

    /// Records a window under its label, in place of any record that had it.
    pub fn insert(&mut self, window: DetachedWindow)
        requires
            old(self).wf(),
        ensures
            final(self).wf(),
            final(self)@ == with_record(old(self)@, window@),
            has_label(final(self)@, window@.window_label),
    {
        match self.index_of(window.window_label.as_str()) {
            Some(i) => {
                let ghost before = self@;
                self.windows.set(i, window);
                assert(self@ =~= with_record(before, window@));
                assert(self@[i as int].window_label == window@.window_label);
            },
            None => {
                let ghost before = self@;
                self.windows.push(window);
                assert(self@ =~= before.push(window@));
                assert(self@[before.len() as int].window_label == window@.window_label);
            },
        }
    }

    /// Keeps the records whose flag is set.
    fn keep(&mut self, flags: &Vec<bool>, Ghost(p): Ghost<spec_fn(WindowView) -> bool>)
        requires
            old(self).wf(),
            flags@.len() == old(self)@.len(),
            forall|i: int| 0 <= i < flags@.len() ==> flags@[i] == p(#[trigger] old(self)@[i]),
        ensures
            final(self).wf(),
            final(self)@ == old(self)@.filter(p),
    {
        let ghost all = self@;
        let mut kept: Vec<DetachedWindow> = Vec::new();
        let mut i: usize = 0;
        proof {
            reveal(Seq::filter);
            assert(all.take(0).filter(p) =~= Seq::<WindowView>::empty());
            assert(window_views(kept@) =~= Seq::<WindowView>::empty());
        }
        while i < self.windows.len()
            invariant
                i <= self.windows.len(),
                flags@.len() == self.windows.len(),
                all == self@,
                forall|j: int| 0 <= j < flags@.len() ==> flags@[j] == p(#[trigger] all[j]),
                window_views(kept@) == all.take(i as int).filter(p),
            decreases self.windows.len() - i,
        {
            proof {
                all.lemma_take_succ_push(i as int);
                all.take(i as int).lemma_filter_push(all[i as int], p);
            }
            if flags[i] {
                let ghost before = window_views(kept@);
                kept.push(self.windows[i].copy());
                assert(window_views(kept@) =~= before.push(all[i as int]));
            }
            i += 1;
        }
        proof {
            all.lemma_take_len();
            lemma_filter_distinct(all, p);
        }
        self.windows = kept;
    }

    /// The labels of the records, in order.
    pub fn labels(&self) -> (out: Vec<String>)
        ensures
            views(out@) == labels_of(self@),
            out@.len() == self@.len(),
    {
        let mut out: Vec<String> = Vec::new();
        let mut i: usize = 0;
        while i < self.windows.len()
            invariant
                i <= self.windows.len(),
                out@.len() == i,
                forall|j: int| 0 <= j < i ==> out@[j]@ == self@[j].window_label,
            decreases self.windows.len() - i,
        {
            out.push(copy_string(&self.windows[i].window_label));
            i += 1;
        }
        assert(views(out@) =~= labels_of(self@));
        out
    }

    /// For each record, whether its label is among `live`.
    fn live_flags(&self, live: &Vec<String>) -> (flags: Vec<bool>)
        ensures
            flags@.len() == self@.len(),
            forall|j: int|
                0 <= j < flags@.len() ==> flags@[j] == views(live@).contains(
                    (#[trigger] self@[j]).window_label,
                ),
    {
        let mut flags: Vec<bool> = Vec::new();
        let mut i: usize = 0;
        while i < self.windows.len()
            invariant
                i <= self.windows.len(),
                flags@.len() == i,
                forall|j: int|
                    0 <= j < i ==> flags@[j] == views(live@).contains(
                        (#[trigger] self@[j]).window_label,
                    ),
            decreases self.windows.len() - i,
        {
            flags.push(holds_string(live, self.windows[i].window_label.as_str()));
            i += 1;
        }
        flags
    }

    /// Takes the record under `label` out, and hands it back.
    pub fn remove(&mut self, label: &str) -> (r: Option<DetachedWindow>)
        requires
            old(self).wf(),
        ensures
            final(self).wf(),
            final(self)@ == old(self)@.filter(other_label(label@)),
            !has_label(final(self)@, label@),
            match r {
                Some(w) => has_label(old(self)@, label@) && w@ == record_of(old(self)@, label@),
                None => !has_label(old(self)@, label@) && final(self)@ == old(self)@,
            },
    {
        let found = self.get(label);
        let ghost p = other_label(label@);
        let mut flags: Vec<bool> = Vec::new();
        let mut i: usize = 0;
        while i < self.windows.len()
            invariant
                i <= self.windows.len(),
                flags@.len() == i,
                p == other_label(label@),
                forall|j: int| 0 <= j < i ==> flags@[j] == p(#[trigger] self@[j]),
            decreases self.windows.len() - i,
        {
            flags.push(!str_eq(self.windows[i].window_label.as_str(), label));
            i += 1;
        }
        let ghost before = self@;
        self.keep(&flags, Ghost(p));
        proof {
            lemma_without_label(before, label@);
        }
        found
    }

    /// Forgets every record, and says how many there were.
    pub fn clear(&mut self) -> (count: usize)
        ensures
            final(self).wf(),
            final(self)@ == Seq::<WindowView>::empty(),
            count == old(self)@.len(),
    {
        let count = self.windows.len();
        self.windows = Vec::new();
        assert(self@ =~= Seq::<WindowView>::empty());
        count
    }

    /// Whether the note's own window is recorded.
    pub fn has_window_for(&self, note_id: &str) -> (r: bool)
        ensures
            r == has_note_window(self@, note_id@),
    {
        let mut i: usize = 0;
        while i < self.windows.len()
            invariant
                i <= self.windows.len(),
                forall|j: int|
                    0 <= j < i ==> !(is_note_label((#[trigger] self@[j]).window_label)
                        && self@[j].note_id == note_id@),
            decreases self.windows.len() - i,
        {
            if note_window_label(self.windows[i].window_label.as_str()) && str_eq(
                self.windows[i].note_id.as_str(),
                note_id,
            ) {
                assert(is_note_label(self@[i as int].window_label));
                return true;
            }
            i += 1;
        }
        false
    }

    /// The place of the first recorded window that is too close to `p`,
    /// if any.
    pub fn crowding_window(&self, p: (i32, i32)) -> (r: Option<(i32, i32)>)
        ensures
            r == match crowding(self@, p) {
                Some(i) => Some(self@[i].position),
                None => None,
            },
    {
        let mut i: usize = 0;
        while i < self.windows.len()
            invariant
                i <= self.windows.len(),
                forall|j: int| 0 <= j < i ==> !too_close((#[trigger] self@[j]).position, p),
            decreases self.windows.len() - i,
        {
            if close(self.windows[i].position, p) {
                proof {
                    assert(too_close(self@[i as int].position, p));
                    lemma_crowding(self@, p);
                }
                return Some(self.windows[i].position);
            }
            i += 1;
        }
        proof {
            lemma_crowding(self@, p);
        }
        None
    }

    /// Whether some recorded window is too close to `p`.
    pub fn is_crowded(&self, p: (i32, i32)) -> (r: bool)
        ensures
            r == crowded(self@, p),
    {
        proof {
            lemma_crowding(self@, p);
        }
        self.crowding_window(p).is_some()
    }

    /// Decides what window a request leads to, without recording it.
    ///
    /// The note must exist, and must not have a window of its own yet. The
    /// geometry comes from the request, else from the record saved for the
    /// note, else from the defaults; a window that would sit on top of a
    /// recorded one goes one cascade step beyond that one.
    pub fn plan_window(
        &self,
        request: &CreateDetachedWindowRequest,
        note_exists: bool,
        saved: Option<&DetachedWindow>,
    ) -> (r: Result<DetachedWindow, BlinkError>)
        ensures
            match r {
                Ok(w) => note_exists && !has_note_window(self@, request@.note_id) && w@
                    == planned_window(request@, self@, saved_view(saved)),
                Err(BlinkError::NotFound(m)) => !note_exists && m@ == "Note not found"@,
                Err(BlinkError::Conflict(m)) => note_exists && has_note_window(
                    self@,
                    request@.note_id,
                ) && m@ == "Window already exists for this note"@,
                Err(_) => false,
            },
    {
        if !note_exists {
            return Err(BlinkError::NotFound("Note not found".to_owned()));
        }
        if self.has_window_for(request.note_id.as_str()) {
            return Err(BlinkError::Conflict("Window already exists for this note".to_owned()));
        }
        let width = match (request.width, saved) {
            (Some(w), _) => w,
            (None, Some(s)) => s.size.0,
            (None, None) => DEFAULT_WIDTH,
        };
        let height = match (request.height, saved) {
            (Some(h), _) => h,
            (None, Some(s)) => s.size.1,
            (None, None) => DEFAULT_HEIGHT,
        };
        let first = match (request.x, request.y, saved) {
            (Some(x), Some(y), _) => (x, y),
            (_, _, Some(s)) => s.position,
            _ => {
                let c = clamp(
                    DEFAULT_ORIGIN as i128 + (self.windows.len() as i128) * (CASCADE_STEP as i128),
                );
                (c, c)
            },
        };
        let position = match self.crowding_window(first) {
            Some(other) => (
                clamp(other.0 as i128 + CASCADE_STEP as i128),
                clamp(other.1 as i128 + CASCADE_STEP as i128),
            ),
            None => first,
        };
        Ok(
            DetachedWindow {
                note_id: copy_string(&request.note_id),
                window_label: window_label_for(request.note_id.as_str()),
                position,
                size: (width, height),
                always_on_top: false,
                opacity: FULL_OPACITY,
                is_shaded: false,
                original_height: None,
            },
        )
    }

    /// Plans the window for a request and records it.
    pub fn create_detached_window(
        &mut self,
        request: &CreateDetachedWindowRequest,
        note_exists: bool,
        saved: Option<&DetachedWindow>,
    ) -> (r: Result<DetachedWindow, BlinkError>)
        requires
            old(self).wf(),
        ensures
            final(self).wf(),
            match r {
                Ok(w) => note_exists && !has_note_window(old(self)@, request@.note_id) && w@
                    == planned_window(request@, old(self)@, saved_view(saved)) && final(self)@
                    == with_record(old(self)@, w@),
                Err(BlinkError::NotFound(m)) => !note_exists && final(self)@ == old(self)@ && m@
                    == "Note not found"@,
                Err(BlinkError::Conflict(m)) => note_exists && has_note_window(
                    old(self)@,
                    request@.note_id,
                ) && final(self)@ == old(self)@ && m@ == "Window already exists for this note"@,
                Err(_) => false,
            },
    {
        match self.plan_window(request, note_exists, saved) {
            Ok(w) => {
                self.insert(w.copy());
                Ok(w)
            },
            Err(e) => Err(e),
        }
    }

    /// The label of the first record that belongs to the note.
    pub fn label_for_note(&self, note_id: &str) -> (r: Option<String>)
        ensures
            match r {
                Some(l) => exists|i: int|
                    0 <= i < self@.len() && first_of_note(self@, note_id@, i) && (
                    #[trigger] self@[i]).window_label == l@,
                None => forall|i: int|
                    0 <= i < self@.len() ==> (#[trigger] self@[i]).note_id != note_id@,
            },
    {
        let mut i: usize = 0;
        while i < self.windows.len()
            invariant
                i <= self.windows.len(),
                forall|j: int| 0 <= j < i ==> (#[trigger] self@[j]).note_id != note_id@,
            decreases self.windows.len() - i,
        {
            if str_eq(self.windows[i].note_id.as_str(), note_id) {
                assert(first_of_note(self@, note_id@, i as int));
                return Some(copy_string(&self.windows[i].window_label));
            }
            i += 1;
        }
        None
    }

    /// The label of the note's own window, if it is recorded: the window to
    /// bring to the front when the note is asked for again.
    pub fn focus_target(&self, note_id: &str) -> (r: Option<String>)
        ensures
            r is Some == has_note_window(self@, note_id@),
            match r {
                Some(l) => exists|i: int|
                    0 <= i < self@.len() && is_note_label((#[trigger] self@[i]).window_label)
                        && self@[i].note_id == note_id@ && self@[i].window_label == l@,
                None => true,
            },
    {
        let mut i: usize = 0;
        while i < self.windows.len()
            invariant
                i <= self.windows.len(),
                forall|j: int|
                    0 <= j < i ==> !(is_note_label((#[trigger] self@[j]).window_label)
                        && self@[j].note_id == note_id@),
            decreases self.windows.len() - i,
        {
            if note_window_label(self.windows[i].window_label.as_str()) && str_eq(
                self.windows[i].note_id.as_str(),
                note_id,
            ) {
                assert(is_note_label(self@[i as int].window_label));
                return Some(copy_string(&self.windows[i].window_label));
            }
            i += 1;
        }
        None
    }

    /// Closes the note's window in the records: the first record of the note
    /// is taken out and its label handed back, so that the window itself can
    /// be closed.
    pub fn close_detached_window(&mut self, note_id: &str) -> (r: Option<String>)
        requires
            old(self).wf(),
        ensures
            final(self).wf(),
            note_closed(old(self)@, note_id@, r, final(self)@),
    {
        match self.label_for_note(note_id) {
            Some(label) => {
                let _ = self.remove(label.as_str());
                Some(label)
            },
            None => None,
        }
    }

    /// Makes room for a step of showing all windows: where the step makes
    /// the window of a note again, the record of the window that is gone
    /// is taken out first, as when the window is closed, so that the new
    /// window can be recorded. Any other step leaves the records as they
    /// are.
    pub fn clear_for(&mut self, action: &WindowAction) -> (r: Option<String>)
        requires
            old(self).wf(),
        ensures
            final(self).wf(),
            match action@ {
                ActionView::Recreate(request) => note_closed(
                    old(self)@,
                    request.note_id,
                    r,
                    final(self)@,
                ),
                _ => r is None && final(self)@ == old(self)@,
            },
    {
        match action {
            WindowAction::Recreate(request) => self.close_detached_window(
                request.note_id.as_str(),
            ),
            _ => None,
        }
    }

    /// How the shade of the window under `label` is to be toggled: the
    /// height to give the window on screen, if any, and whether the record
    /// is to change before the window does. A window is recorded as shaded
    /// before it is made small; a height that is given back is recorded
    /// only once the window has it.
    pub fn plan_shade(&self, label: &str) -> (r: Result<ShadePlan, BlinkError>)
        requires
            self.wf(),
        ensures
            match r {
                Ok(plan) => has_label(self@, label@) && plan.resize_height == shade_height(
                    record_of(self@, label@),
                ) && plan.record_first == !record_of(self@, label@).is_shaded,
                Err(BlinkError::NotFound(m)) => !has_label(self@, label@) && m@
                    == "Window data not found for "@ + label@,
                Err(_) => false,
            },
    {
        match self.index_of(label) {
            Some(i) => {
                proof {
                    let k = choose|k: int|
                        0 <= k < self@.len() && (#[trigger] self@[k]).window_label == label@;
                    assert(k == i);
                }
                let w = &self.windows[i];
                let resize_height = if w.is_shaded {
                    w.original_height
                } else {
                    Some(SHADED_HEIGHT)
                };
                Ok(ShadePlan { resize_height, record_first: !w.is_shaded })
            },
            None => Err(BlinkError::NotFound(concat("Window data not found for ", label))),
        }
    }

    /// Forgets the note's own window after the windowing system destroyed it.
    pub fn cleanup_destroyed_window(&mut self, note_id: &str) -> (removed: bool)
        requires
            old(self).wf(),
        ensures
            final(self).wf(),
            removed == has_label(old(self)@, note_label(note_id@)),
            final(self)@ == old(self)@.filter(other_label(note_label(note_id@))),
    {
        let label = window_label_for(note_id);
        self.remove(label.as_str()).is_some()
    }

    /// Replaces the record under `label` by `changed`, which keeps the label.
    fn replace_at(&mut self, i: usize, changed: DetachedWindow)
        requires
            old(self).wf(),
            i < old(self)@.len(),
            changed@.window_label == old(self)@[i as int].window_label,
        ensures
            final(self).wf(),
            final(self)@ == old(self)@.update(i as int, changed@),
    {
        let ghost before = self@;
        self.windows.set(i, changed);
        assert(self@ =~= before.update(i as int, changed@));
    }

    /// Records a new position for the window under `label`.
    pub fn update_position(&mut self, label: &str, x: i32, y: i32) -> (found: bool)
        requires
            old(self).wf(),
        ensures
            final(self).wf(),
            found == has_label(old(self)@, label@),
            final(self)@ == moved(old(self)@, label@, (x, y)),
    {
        match self.index_of(label) {
            Some(i) => {
                let mut w = self.windows[i].copy();
                w.position = (x, y);
                let ghost before = self@;
                self.replace_at(i, w);
                assert(self@ =~= moved(before, label@, (x, y)));
                true
            },
            None => {
                assert(self@ =~= moved(self@, label@, (x, y)));
                false
            },
        }
    }

    /// Records a new size for the window under `label`.
    pub fn update_size(&mut self, label: &str, width: u32, height: u32) -> (found: bool)
        requires
            old(self).wf(),
        ensures
            final(self).wf(),
            found == has_label(old(self)@, label@),
            final(self)@ == resized(old(self)@, label@, (width, height)),
    {
        match self.index_of(label) {
            Some(i) => {
                let mut w = self.windows[i].copy();
                w.size = (width, height);
                let ghost before = self@;
                self.replace_at(i, w);
                assert(self@ =~= resized(before, label@, (width, height)));
                true
            },
            None => {
                assert(self@ =~= resized(self@, label@, (width, height)));
                false
            },
        }
    }

    /// Shades the window under `label`, or restores it when it is shaded.
    /// `current_height` is the height that the window has on screen.
    pub fn toggle_shade(&mut self, label: &str, current_height: u32) -> (r: Result<
        ShadeOutcome,
        BlinkError,
    >)
        requires
            old(self).wf(),
        ensures
            final(self).wf(),
            match r {
                Ok(o) => has_label(old(self)@, label@) && final(self)@ == shaded(
                    old(self)@,
                    label@,
                    current_height,
                ) && o.is_shaded == shade_toggled(
                    record_of(old(self)@, label@),
                    current_height,
                ).is_shaded && o.resize_height == shade_height(record_of(old(self)@, label@)),
                Err(BlinkError::NotFound(m)) => !has_label(old(self)@, label@) && final(self)@
                    == old(self)@ && m@ == "Window data not found for "@ + label@,
                Err(_) => false,
            },
    {
        match self.index_of(label) {
            Some(i) => {
                proof {
                    let k = choose|k: int|
                        0 <= k < self@.len() && (#[trigger] self@[k]).window_label == label@;
                    assert(k == i);
                }
                let mut w = self.windows[i].copy();
                let resize_height = if w.is_shaded {
                    w.original_height
                } else {
                    Some(SHADED_HEIGHT)
                };
                if w.is_shaded {
                    match w.original_height {
                        Some(h) => {
                            w.is_shaded = false;
                            w.original_height = None;
                            w.size = (w.size.0, h);
                        },
                        None => {},
                    }
                } else {
                    w.original_height = Some(current_height);
                    w.is_shaded = true;
                }
                let is_shaded = w.is_shaded;
                let ghost before = self@;
                self.replace_at(i, w);
                assert(self@ =~= shaded(before, label@, current_height));
                Ok(ShadeOutcome { is_shaded, resize_height })
            },
            None => Err(BlinkError::NotFound(concat("Window data not found for ", label))),
        }
    }

    /// Compares the records with the windows that exist, changing nothing.
    pub fn window_state_truth(&self, live: &Vec<String>) -> (t: WindowTruth)
        ensures
            views(t.consistent@) == labels_of(self@).filter(label_in(views(live@))),
            views(t.orphaned@) == labels_of(self@).filter(label_not_in(views(live@))),
            views(t.stale_hybrids@) == labels_of(self@).filter(hybrid_label()),
            views(t.untracked@) == views(live@).filter(untracked_label(self@)),
    {
        let labels = self.labels();
        let mut in_live: Vec<bool> = Vec::new();
        let mut not_live: Vec<bool> = Vec::new();
        let mut hybrid: Vec<bool> = Vec::new();
        let mut i: usize = 0;
        while i < labels.len()
            invariant
                i <= labels.len(),
                in_live@.len() == i,
                not_live@.len() == i,
                hybrid@.len() == i,
                forall|j: int|
                    0 <= j < i ==> in_live@[j] == label_in(views(live@))(
                        #[trigger] views(labels@)[j],
                    ),
                forall|j: int|
                    0 <= j < i ==> not_live@[j] == label_not_in(views(live@))(
                        #[trigger] views(labels@)[j],
                    ),
                forall|j: int|
                    0 <= j < i ==> hybrid@[j] == hybrid_label()(#[trigger] views(labels@)[j]),
            decreases labels.len() - i,
        {
            let present = holds_string(live, labels[i].as_str());
            in_live.push(present);
            not_live.push(!present);
            hybrid.push(hybrid_window_label(labels[i].as_str()));
            i += 1;
        }
        let mut wanted: Vec<bool> = Vec::new();
        let mut k: usize = 0;
        while k < live.len()
            invariant
                k <= live.len(),
                wanted@.len() == k,
                forall|j: int|
                    0 <= j < k ==> wanted@[j] == untracked_label(self@)(
                        #[trigger] views(live@)[j],
                    ),
            decreases live.len() - k,
        {
            let l = live[k].as_str();
            wanted.push(
                !self.contains(l) && (note_window_label(l) || hybrid_window_label(l)),
            );
            k += 1;
        }
        WindowTruth {
            consistent: keep_strings(&labels, &in_live, Ghost(label_in(views(live@)))),
            orphaned: keep_strings(&labels, &not_live, Ghost(label_not_in(views(live@)))),
            stale_hybrids: keep_strings(&labels, &hybrid, Ghost(hybrid_label())),
            untracked: keep_strings(live, &wanted, Ghost(untracked_label(self@))),
        }
    }

    /// Drops every record whose window does not exist any more, and says
    /// how many were dropped.
    pub fn cleanup_stale_windows(&mut self, live: &Vec<String>) -> (removed: usize)
        requires
            old(self).wf(),
        ensures
            final(self).wf(),
            final(self)@ == old(self)@.filter(recorded_live(views(live@))),
            removed == old(self)@.len() - final(self)@.len(),
    {
        let flags = self.live_flags(live);
        let before = self.windows.len();
        let ghost p = recorded_live(views(live@));
        proof {
            self@.lemma_filter_len(p);
        }
        self.keep(&flags, Ghost(p));
        before - self.windows.len()
    }

    /// One reconciliation pass: what the comparison with the live windows
    /// finds, and the records of windows that are gone dropped.
    pub fn reconcile(&mut self, live: &Vec<String>) -> (t: WindowTruth)
        requires
            old(self).wf(),
        ensures
            final(self).wf(),
            final(self)@ == old(self)@.filter(recorded_live(views(live@))),
            views(t.consistent@) == labels_of(old(self)@).filter(label_in(views(live@))),
            views(t.orphaned@) == labels_of(old(self)@).filter(label_not_in(views(live@))),
            views(t.stale_hybrids@) == labels_of(old(self)@).filter(hybrid_label()),
            views(t.untracked@) == views(live@).filter(untracked_label(old(self)@)),
    {
        let t = self.window_state_truth(live);
        let _ = self.cleanup_stale_windows(live);
        t
    }

    /// The records whose window has to be made again: those that are not
    /// live, but for the windows made while dragging.
    pub fn windows_to_recreate(&self, live: &Vec<String>) -> (out: Vec<DetachedWindow>)
        ensures
            window_views(out@) == self@.filter(missing_window(views(live@))),
    {
        let ghost p = missing_window(views(live@));
        let ghost all = self@;
        let mut out: Vec<DetachedWindow> = Vec::new();
        let mut i: usize = 0;
        proof {
            reveal(Seq::filter);
            assert(all.take(0).filter(p) =~= Seq::<WindowView>::empty());
            assert(window_views(out@) =~= Seq::<WindowView>::empty());
        }
        while i < self.windows.len()
            invariant
                i <= self.windows.len(),
                all == self@,
                p == missing_window(views(live@)),
                window_views(out@) == all.take(i as int).filter(p),
            decreases self.windows.len() - i,
        {
            proof {
                all.lemma_take_succ_push(i as int);
                all.take(i as int).lemma_filter_push(all[i as int], p);
            }
            let l = self.windows[i].window_label.as_str();
            if !hybrid_window_label(l) && !holds_string(live, l) {
                let ghost before = window_views(out@);
                out.push(self.windows[i].copy());
                assert(window_views(out@) =~= before.push(all[i as int]));
            }
            i += 1;
        }
        proof {
            all.lemma_take_len();
        }
        out
    }

    /// Drops the records of windows made while dragging, and hands their
    /// labels back.
    pub fn remove_hybrid_records(&mut self) -> (labels: Vec<String>)
        requires
            old(self).wf(),
        ensures
            final(self).wf(),
            final(self)@ == old(self)@.filter(lasting_window()),
            views(labels@) == labels_of(old(self)@).filter(hybrid_label()),
    {
        let all = self.labels();
        let mut hybrid: Vec<bool> = Vec::new();
        let mut lasting: Vec<bool> = Vec::new();
        let mut i: usize = 0;
        while i < all.len()
            invariant
                i <= all.len(),
                all@.len() == self@.len(),
                views(all@) == labels_of(self@),
                hybrid@.len() == i,
                lasting@.len() == i,
                forall|j: int|
                    0 <= j < i ==> hybrid@[j] == hybrid_label()(#[trigger] views(all@)[j]),
                forall|j: int| 0 <= j < i ==> lasting@[j] == lasting_window()(#[trigger] self@[j]),
            decreases all.len() - i,
        {
            let h = hybrid_window_label(all[i].as_str());
            assert(views(all@)[i as int] == self@[i as int].window_label);
            hybrid.push(h);
            lasting.push(!h);
            i += 1;
        }
        self.keep(&lasting, Ghost(lasting_window()));
        keep_strings(&all, &hybrid, Ghost(hybrid_label()))
    }

    /// Brings the records in line with the windows that exist when the
    /// application shows itself again: records without a window are
    /// dropped, and the labels of the windows that exist but are hidden
    /// are handed back, to be shown.
    pub fn restore_detached_windows(&mut self, live: &Vec<LiveWindow>) -> (to_show: Vec<String>)
        requires
            old(self).wf(),
        ensures
            final(self).wf(),
            final(self)@ == old(self)@.filter(recorded_live(live_labels(live@))),
            views(to_show@) == labels_of(old(self)@).filter(hidden_label(live@)),
    {
        let all = self.labels();
        let mut present: Vec<bool> = Vec::new();
        let mut hidden: Vec<bool> = Vec::new();
        let mut i: usize = 0;
        while i < all.len()
            invariant
                i <= all.len(),
                all@.len() == self@.len(),
                views(all@) == labels_of(self@),
                present@.len() == i,
                hidden@.len() == i,
                forall|j: int|
                    0 <= j < i ==> present@[j] == recorded_live(live_labels(live@))(
                        #[trigger] self@[j],
                    ),
                forall|j: int|
                    0 <= j < i ==> hidden@[j] == hidden_label(live@)(#[trigger] views(all@)[j]),
            decreases all.len() - i,
        {
            let (is_live, is_hidden) = seen(live, all[i].as_str());
            assert(views(all@)[i as int] == self@[i as int].window_label);
            present.push(is_live);
            hidden.push(is_hidden);
            i += 1;
        }
        self.keep(&present, Ghost(recorded_live(live_labels(live@))));
        keep_strings(&all, &hidden, Ghost(hidden_label(live@)))
    }

    /// What to do with each window when all windows are shown or hidden at
    /// once. With the main window visible everything is hidden: one `Hide`
    /// for each record whose window exists. Otherwise everything is shown:
    /// for each record a `Show` where the window exists, and a `Recreate`
    /// with the recorded geometry where it does not.
    pub fn plan_toggle(&self, main_visible: bool, live: &Vec<String>) -> (actions: Vec<
        WindowAction,
    >)
        ensures
            action_views(actions@) == toggle_actions(self@, main_visible, views(live@)),
    {
        let ghost wanted = toggle_actions(self@, main_visible, views(live@));
        let ghost all = self@;
        let mut actions: Vec<WindowAction> = Vec::new();
        let mut i: usize = 0;
        proof {
            reveal(Seq::filter);
            assert(all.take(0).filter(recorded_live(views(live@))) =~= Seq::<WindowView>::empty());
            assert(action_views(actions@) =~= toggle_actions(
                all.take(0),
                main_visible,
                views(live@),
            ));
        }
        while i < self.windows.len()
            invariant
                i <= self.windows.len(),
                all == self@,
                action_views(actions@) == toggle_actions(
                    all.take(i as int),
                    main_visible,
                    views(live@),
                ),
            decreases self.windows.len() - i,
        {
            let w = &self.windows[i];
            let is_live = holds_string(live, w.window_label.as_str());
            let ghost before = action_views(actions@);
            proof {
                all.lemma_take_succ_push(i as int);
                all.take(i as int).lemma_filter_push(all[i as int], recorded_live(views(live@)));
            }
            if main_visible {
                if is_live {
                    actions.push(WindowAction::Hide(copy_string(&w.window_label)));
                    assert(action_views(actions@) =~= before.push(
                        ActionView::Hide(all[i as int].window_label),
                    ));
                }
            } else if is_live {
                actions.push(WindowAction::Show(copy_string(&w.window_label)));
                assert(action_views(actions@) =~= before.push(
                    ActionView::Show(all[i as int].window_label),
                ));
            } else {
                actions.push(
                    WindowAction::Recreate(
                        CreateDetachedWindowRequest {
                            note_id: copy_string(&w.note_id),
                            x: Some(w.position.0),
                            y: Some(w.position.1),
                            width: Some(w.size.0),
                            height: Some(w.size.1),
                        },
                    ),
                );
                assert(action_views(actions@) =~= before.push(
                    ActionView::Recreate(request_for(all[i as int])),
                ));
            }
            assert(action_views(actions@) =~= toggle_actions(
                all.take(i + 1),
                main_visible,
                views(live@),
            ));
            i += 1;
        }
        proof {
            all.lemma_take_len();
        }
        actions
    }
}

/// The labels of the records, in order.
pub open spec fn labels_of(ws: Seq<WindowView>) -> Seq<Seq<char>> {
    Seq::new(ws.len(), |i: int| ws[i].window_label)
}

/// Records under another label than `label`.
pub open spec fn other_label(label: Seq<char>) -> spec_fn(WindowView) -> bool {
    |w: WindowView| w.window_label != label
}

/// Records whose window is among the live ones.
pub open spec fn recorded_live(live: Seq<Seq<char>>) -> spec_fn(WindowView) -> bool {
    |w: WindowView| live.contains(w.window_label)
}

/// Records that are to last: not those of windows made while dragging.
pub open spec fn lasting_window() -> spec_fn(WindowView) -> bool {
    |w: WindowView| !is_hybrid_label(w.window_label)
}

/// Records that are to last and whose window is not among the live ones.
pub open spec fn missing_window(live: Seq<Seq<char>>) -> spec_fn(WindowView) -> bool {
    |w: WindowView| !is_hybrid_label(w.window_label) && !live.contains(w.window_label)
}

/// Labels among `list`.
pub open spec fn label_in(list: Seq<Seq<char>>) -> spec_fn(Seq<char>) -> bool {
    |l: Seq<char>| list.contains(l)
}

/// Labels not among `list`.
pub open spec fn label_not_in(list: Seq<Seq<char>>) -> spec_fn(Seq<char>) -> bool {
    |l: Seq<char>| !list.contains(l)
}

/// Labels of windows made while dragging.
pub open spec fn hybrid_label() -> spec_fn(Seq<char>) -> bool {
    |l: Seq<char>| is_hybrid_label(l)
}

/// Labels that look like a note's or a dragged window's and are not recorded.
pub open spec fn untracked_label(ws: Seq<WindowView>) -> spec_fn(Seq<char>) -> bool {
    |l: Seq<char>| !has_label(ws, l) && (is_note_label(l) || is_hybrid_label(l))
}

/// Whether the first record of the note stands at index `i`.
pub open spec fn first_of_note(ws: Seq<WindowView>, note_id: Seq<char>, i: int) -> bool {
    &&& 0 <= i < ws.len()
    &&& ws[i].note_id == note_id
    &&& forall|j: int| 0 <= j < i ==> (#[trigger] ws[j]).note_id != note_id
}

/// Whether `r` and the records `after` are what closing the window of a
/// note comes to: the first record of the note is taken out and its label
/// handed back; without such a record nothing changes.
pub open spec fn note_closed(
    before: Seq<WindowView>,
    note_id: Seq<char>,
    r: Option<String>,
    after: Seq<WindowView>,
) -> bool {
    match r {
        Some(l) => (exists|i: int|
            0 <= i < before.len() && first_of_note(before, note_id, i) && (
            #[trigger] before[i]).window_label == l@) && after == before.filter(other_label(l@)),
        None => after == before && forall|i: int|
            0 <= i < before.len() ==> (#[trigger] before[i]).note_id != note_id,
    }
}

/// The records with the position of the one under `label` set to `p`.
pub open spec fn moved(ws: Seq<WindowView>, label: Seq<char>, p: (i32, i32)) -> Seq<WindowView> {
    Seq::new(
        ws.len(),
        |i: int|
            if ws[i].window_label == label {
                WindowView { position: p, ..ws[i] }
            } else {
                ws[i]
            },
    )
}

/// The records with the size of the one under `label` set to `size`.
pub open spec fn resized(ws: Seq<WindowView>, label: Seq<char>, size: (u32, u32)) -> Seq<
    WindowView,
> {
    Seq::new(
        ws.len(),
        |i: int|
            if ws[i].window_label == label {
                WindowView { size: size, ..ws[i] }
            } else {
                ws[i]
            },
    )
}

/// A record after its shade was toggled. Shading remembers the height the
/// window has on screen; restoring gives that height back to the record. A
/// shaded record that remembers no height stays as it is.
pub open spec fn shade_toggled(w: WindowView, current_height: u32) -> WindowView {
    if w.is_shaded {
        match w.original_height {
            Some(h) => WindowView {
                is_shaded: false,
                original_height: None,
                size: (w.size.0, h),
                ..w
            },
            None => w,
        }
    } else {
        WindowView { is_shaded: true, original_height: Some(current_height), ..w }
    }
}

/// The height to give the window on screen when the shade of its record is
/// toggled, if any.
pub open spec fn shade_height(w: WindowView) -> Option<u32> {
    if w.is_shaded {
        w.original_height
    } else {
        Some(SHADED_HEIGHT)
    }
}

/// The records with the shade of the one under `label` toggled.
pub open spec fn shaded(ws: Seq<WindowView>, label: Seq<char>, current_height: u32) -> Seq<
    WindowView,
> {
    Seq::new(
        ws.len(),
        |i: int|
            if ws[i].window_label == label {
                shade_toggled(ws[i], current_height)
            } else {
                ws[i]
            },
    )
}

/// How a shade is to be toggled: the height to give the window on screen,
/// if any, and whether the record changes before the window does.
#[derive(Debug)]
pub struct ShadePlan {
    pub resize_height: Option<u32>,
    pub record_first: bool,
}

/// What toggling a shade leads to: the new state, and the height to give
/// the window on screen.
#[derive(Debug)]
pub struct ShadeOutcome {
    pub is_shaded: bool,
    pub resize_height: Option<u32>,
}

/// What a comparison of the records with the live windows finds.
#[derive(Debug)]
pub struct WindowTruth {
    /// Labels that are recorded and live.
    pub consistent: Vec<String>,
    /// Labels of live windows that look like a note's or a dragged window's
    /// and are not recorded.
    pub untracked: Vec<String>,
    /// Labels that are recorded and not live.
    pub orphaned: Vec<String>,
    /// Recorded labels of windows made while dragging.
    pub stale_hybrids: Vec<String>,
}

/// A window that exists, as the windowing system reports it.
#[derive(Debug)]
pub struct LiveWindow {
    pub label: String,
    pub visible: bool,
}

/// A live window as a mathematical value.
pub struct LiveView {
    pub label: Seq<char>,
    pub visible: bool,
}

impl View for LiveWindow {
    type V = LiveView;

    open spec fn view(&self) -> LiveView {
        LiveView { label: self.label@, visible: self.visible }
    }
}

/// The labels of the live windows.
pub open spec fn live_labels(live: Seq<LiveWindow>) -> Seq<Seq<char>> {
    Seq::new(live.len(), |i: int| live[i]@.label)
}

/// Labels of live windows that are hidden.
pub open spec fn hidden_label(live: Seq<LiveWindow>) -> spec_fn(Seq<char>) -> bool {
    |l: Seq<char>|
        exists|k: int| 0 <= k < live.len() && (#[trigger] live[k])@.label == l && !live[k].visible
}

/// Whether a label is among the live windows, and whether it is there hidden.
fn seen(live: &Vec<LiveWindow>, label: &str) -> (r: (bool, bool))
    ensures
        r.0 == live_labels(live@).contains(label@),
        r.1 == hidden_label(live@)(label@),
{
    let mut found = false;
    let mut hidden = false;
    let mut i: usize = 0;
    while i < live.len()
        invariant
            i <= live.len(),
            found == exists|k: int| 0 <= k < i && (#[trigger] live@[k])@.label == label@,
            hidden == exists|k: int|
                0 <= k < i && (#[trigger] live@[k])@.label == label@ && !live@[k].visible,
        decreases live.len() - i,
    {
        if str_eq(live[i].label.as_str(), label) {
            found = true;
            if !live[i].visible {
                hidden = true;
            }
        }
        i += 1;
    }
    proof {
        if found {
            let k = choose|k: int| 0 <= k < live@.len() && (#[trigger] live@[k])@.label == label@;
            assert(live_labels(live@)[k] == label@);
        }
        if live_labels(live@).contains(label@) {
            let k = choose|k: int|
                0 <= k < live_labels(live@).len() && live_labels(live@)[k] == label@;
            assert(live@[k]@.label == label@);
        }
    }
    (found, hidden)
}

/// One step to take on a window.
#[derive(Debug)]
pub enum WindowAction {
    /// Hide the window with this label.
    Hide(String),
    /// Show the window with this label.
    Show(String),
    /// Make the window again from this request.
    Recreate(CreateDetachedWindowRequest),
}

/// A step as a mathematical value.
pub enum ActionView {
    Hide(Seq<char>),
    Show(Seq<char>),
    Recreate(RequestView),
}

impl View for WindowAction {
    type V = ActionView;

    open spec fn view(&self) -> ActionView {
        match self {
            WindowAction::Hide(l) => ActionView::Hide(l@),
            WindowAction::Show(l) => ActionView::Show(l@),
            WindowAction::Recreate(r) => ActionView::Recreate(r@),
        }
    }
}

/// The views of a sequence of steps.
pub open spec fn action_views(actions: Seq<WindowAction>) -> Seq<ActionView> {
    Seq::new(actions.len(), |i: int| actions[i]@)
}

/// The request that makes a recorded window again as it was.
pub open spec fn request_for(w: WindowView) -> RequestView {
    RequestView {
        note_id: w.note_id,
        x: Some(w.position.0),
        y: Some(w.position.1),
        width: Some(w.size.0),
        height: Some(w.size.1),
    }
}

/// The steps of showing or hiding all windows at once.
pub open spec fn toggle_actions(ws: Seq<WindowView>, main_visible: bool, live: Seq<Seq<char>>) -> Seq<
    ActionView,
> {
    if main_visible {
        let hide = ws.filter(recorded_live(live));
        Seq::new(hide.len(), |i: int| ActionView::Hide(hide[i].window_label))
    } else {
        Seq::new(
            ws.len(),
            |i: int|
                if live.contains(ws[i].window_label) {
                    ActionView::Show(ws[i].window_label)
                } else {
                    ActionView::Recreate(request_for(ws[i]))
                },
        )
    }
}

/// Keeping part of the records keeps their labels distinct.
pub proof fn lemma_filter_distinct(ws: Seq<WindowView>, p: spec_fn(WindowView) -> bool)
    requires
        distinct_labels(ws),
    ensures
        distinct_labels(ws.filter(p)),
    decreases ws.len(),
{
    reveal(Seq::filter);
    if ws.len() > 0 {
        let rest = ws.drop_last();
        lemma_filter_distinct(rest, p);
        let f = rest.filter(p);
        if p(ws.last()) {
            let g = f.push(ws.last());
            assert forall|i: int, j: int| 0 <= i < j < g.len() implies (#[trigger] g[i]).window_label
                != (#[trigger] g[j]).window_label by {
                if j == f.len() {
                    assert(f.contains(f[i]));
                    rest.lemma_filter_contains_rev(p, f[i]);
                    let k = choose|k: int| 0 <= k < rest.len() && rest[k] == f[i];
                    assert(ws[k] == f[i]);
                }
            }
        }
    }
}

/// Without the record under a label, no record has the label; and where
/// none had it, nothing changes.
pub proof fn lemma_without_label(ws: Seq<WindowView>, label: Seq<char>)
    ensures
        !has_label(ws.filter(other_label(label)), label),
        !has_label(ws, label) ==> ws.filter(other_label(label)) == ws,
    decreases ws.len(),
{
    reveal(Seq::filter);
    let p = other_label(label);
    if ws.len() > 0 {
        let rest = ws.drop_last();
        lemma_without_label(rest, label);
        if !has_label(ws, label) {
            assert forall|i: int| 0 <= i < rest.len() implies (#[trigger] rest[i]).window_label
                != label by {
                assert(ws[i].window_label != label);
            }
            assert(!has_label(rest, label));
            assert(ws.last().window_label != label);
            assert(rest.push(ws.last()) =~= ws);
        }
    }
}

/// Keeps the strings whose flag is set.
fn keep_strings(list: &Vec<String>, flags: &Vec<bool>, Ghost(p): Ghost<spec_fn(Seq<char>) -> bool>) -> (out:
    Vec<String>)
    requires
        flags@.len() == list@.len(),
        forall|i: int| 0 <= i < flags@.len() ==> flags@[i] == p(#[trigger] views(list@)[i]),
    ensures
        views(out@) == views(list@).filter(p),
{
    let ghost all = views(list@);
    let mut out: Vec<String> = Vec::new();
    let mut i: usize = 0;
    proof {
        reveal(Seq::filter);
        assert(all.take(0).filter(p) =~= Seq::<Seq<char>>::empty());
        assert(views(out@) =~= Seq::<Seq<char>>::empty());
    }
    while i < list.len()
        invariant
            i <= list.len(),
            flags@.len() == list@.len(),
            all == views(list@),
            forall|j: int| 0 <= j < flags@.len() ==> flags@[j] == p(#[trigger] all[j]),
            views(out@) == all.take(i as int).filter(p),
        decreases list.len() - i,
    {
        proof {
            all.lemma_take_succ_push(i as int);
            all.take(i as int).lemma_filter_push(all[i as int], p);
        }
        if flags[i] {
            let ghost before = views(out@);
            out.push(copy_string(&list[i]));
            assert(views(out@) =~= before.push(all[i as int]));
        }
        i += 1;
    }
    proof {
        all.lemma_take_len();
    }
    out
}

/// Marks a toggle of all windows as begun, unless one is under way: a
/// second request while one runs is dropped, not queued.
pub fn begin_toggle(in_progress: &mut bool) -> (started: bool)
    ensures
        started == !*old(in_progress),
        *final(in_progress),
{
    if *in_progress {
        false
    } else {
        *in_progress = true;
        true
    }
}

/// Marks the toggle of all windows as done.
pub fn end_toggle(in_progress: &mut bool)
    ensures
        !*final(in_progress),
{
    *in_progress = false;
}


/// The records that a list of records stands for: each record under its
/// label, a later record in place of an earlier one with the same label.
pub open spec fn registered(ws: Seq<WindowView>) -> Seq<WindowView>
    decreases ws.len(),
{
    if ws.len() == 0 {
        Seq::empty()
    } else {
        with_record(registered(ws.drop_last()), ws.last())
    }
}

/// The registry of the records that were saved.
pub fn registry_from(records: &Vec<DetachedWindow>) -> (out: WindowRegistry)
    ensures
        out.wf(),
        out@ == registered(window_views(records@)),
{
    let ghost all = window_views(records@);
    let mut out = WindowRegistry::new();
    let mut i: usize = 0;
    assert(all.take(0) =~= Seq::<WindowView>::empty());
    while i < records.len()
        invariant
            i <= records.len(),
            all == window_views(records@),
            out.wf(),
            out@ == registered(all.take(i as int)),
        decreases records.len() - i,
    {
        proof {
            assert(all.take(i + 1).drop_last() =~= all.take(i as int));
            assert(all.take(i + 1).last() == all[i as int]);
        }
        out.insert(records[i].copy());
        i += 1;
    }
    proof {
        all.lemma_take_len();
    }
    out
}

/// The label of the window that follows the mouse while a note is dragged.
pub fn hybrid_label_for(note_id: &str) -> (label: String)
    ensures
        label@ == "hybrid-drag-"@ + note_id@,
{
    concat("hybrid-drag-", note_id)
}

/// The page that a note's window shows.
pub fn window_url(note_id: &str) -> (url: String)
    ensures
        url@ == "index.html?note="@ + note_id@,
{
    concat("index.html?note=", note_id)
}

/// The title of a note's window.
pub fn window_title(note_id: &str) -> (title: String)
    ensures
        title@ == "Note - "@ + note_id@,
{
    concat("Note - ", note_id)
}

/// The page that a drag preview shows, for a title that is
/// percent-encoded already.
pub fn drag_ghost_url_for(encoded_title: &str) -> (url: String)
    ensures
        url@ == "index.html?ghost=true&title="@ + encoded_title@,
{
    concat("index.html?ghost=true&title=", encoded_title)
}

/// The page that a drag preview shows: the note's title goes into the
/// address percent-encoded.
pub fn drag_ghost_url(note_title: &str) -> (url: String)
    ensures
        url@ == "index.html?ghost=true&title="@ + percent_encoded(note_title@),
{
    let encoded = percent_encode(note_title);
    drag_ghost_url_for(encoded.as_str())
}

/// The record of a dragged window that stays where it was dropped and
/// from then on shows the note as a detached window. It keeps its label.
pub open spec fn adopted(
    label: Seq<char>,
    note_id: Seq<char>,
    position: (i32, i32),
    size: (u32, u32),
) -> WindowView {
    WindowView {
        note_id: note_id,
        window_label: label,
        position: position,
        size: size,
        always_on_top: false,
        opacity: FULL_OPACITY,
        is_shaded: false,
        original_height: None,
    }
}

/// Records a dragged window as the detached window of its note.
pub fn adopt_hybrid_window(
    registry: &mut WindowRegistry,
    label: &str,
    note_id: &str,
    position: (i32, i32),
    size: (u32, u32),
) -> (window: DetachedWindow)
    requires
        old(registry).wf(),
    ensures
        final(registry).wf(),
        window@ == adopted(label@, note_id@, position, size),
        final(registry)@ == with_record(old(registry)@, window@),
{
    let window = DetachedWindow {
        note_id: note_id.to_owned(),
        window_label: label.to_owned(),
        position,
        size,
        always_on_top: false,
        opacity: FULL_OPACITY,
        is_shaded: false,
        original_height: None,
    };
    registry.insert(window.copy());
    window
}

/// The live windows to bring back to the main screen: all but the main
/// window itself.
pub fn windows_to_gather(live: &Vec<String>) -> (out: Vec<String>)
    ensures
        views(out@) == views(live@).filter(|l: Seq<char>| l != "main"@),
{
    let ghost p = |l: Seq<char>| l != "main"@;
    let mut flags: Vec<bool> = Vec::new();
    let mut i: usize = 0;
    while i < live.len()
        invariant
            i <= live.len(),
            flags@.len() == i,
            p == (|l: Seq<char>| l != "main"@),
            forall|j: int| 0 <= j < i ==> flags@[j] == p(#[trigger] views(live@)[j]),
        decreases live.len() - i,
    {
        flags.push(!str_eq(live[i].as_str(), "main"));
        i += 1;
    }
    keep_strings(live, &flags, Ghost(p))
}

/// Above this height the main window counts as open, not shaded.
pub const MAIN_SHADED_LIMIT: u32 = 50;

/// What toggling the shade of the main window comes to.
#[derive(Debug)]
pub struct MainShade {
    /// Whether the window is shaded afterwards.
    pub is_shaded: bool,
    /// The height to give the window.
    pub resize_height: u32,
    /// The height to remember in the settings, where the window is shaded.
    pub remember_height: Option<u32>,
}

/// Toggles the shade of the main window, which has the height
/// `current_height` on screen; `configured_height` is the height that the
/// settings remember. A window no higher than the limit is shaded and is
/// restored to the remembered height. Any other window is shaded, and
/// its height remembered.
pub fn plan_main_shade(current_height: u32, configured_height: u32) -> (plan: MainShade)
    ensures
        plan.is_shaded == (current_height > MAIN_SHADED_LIMIT),
        plan.resize_height == if current_height > MAIN_SHADED_LIMIT {
            SHADED_HEIGHT
        } else {
            configured_height
        },
        plan.remember_height == if current_height > MAIN_SHADED_LIMIT {
            Some(current_height)
        } else {
            None
        },
{
    if current_height <= MAIN_SHADED_LIMIT {
        MainShade { is_shaded: false, resize_height: configured_height, remember_height: None }
    } else {
        MainShade {
            is_shaded: true,
            resize_height: SHADED_HEIGHT,
            remember_height: Some(current_height),
        }
    }
}

/// A record for a note with nothing known but its id.
pub open spec fn blank_window(note_id: Seq<char>) -> WindowView {
    WindowView {
        note_id: note_id,
        window_label: note_label(note_id),
        position: (DEFAULT_ORIGIN, DEFAULT_ORIGIN),
        size: (DEFAULT_WIDTH, DEFAULT_HEIGHT),
        always_on_top: false,
        opacity: FULL_OPACITY,
        is_shaded: false,
        original_height: None,
    }
}

/// The record to save for a note whose window was moved: the saved one
/// with the new position, or a new one where none was saved.
pub fn save_window_position(saved: Option<&DetachedWindow>, note_id: &str, x: i32, y: i32) -> (out:
    DetachedWindow)
    ensures
        out@ == match saved {
            Some(s) => WindowView { position: (x, y), ..s@ },
            None => WindowView { position: (x, y), ..blank_window(note_id@) },
        },
{
    match saved {
        Some(s) => {
            let mut w = s.copy();
            w.position = (x, y);
            w
        },
        None => DetachedWindow {
            note_id: note_id.to_owned(),
            window_label: window_label_for(note_id),
            position: (x, y),
            size: (DEFAULT_WIDTH, DEFAULT_HEIGHT),
            always_on_top: false,
            opacity: FULL_OPACITY,
            is_shaded: false,
            original_height: None,
        },
    }
}

/// The record to save for a note whose window was resized: the saved one
/// with the new size, or a new one where none was saved.
pub fn save_window_size(saved: Option<&DetachedWindow>, note_id: &str, width: u32, height: u32) -> (out:
    DetachedWindow)
    ensures
        out@ == match saved {
            Some(s) => WindowView { size: (width, height), ..s@ },
            None => WindowView { size: (width, height), ..blank_window(note_id@) },
        },
{
    match saved {
        Some(s) => {
            let mut w = s.copy();
            w.size = (width, height);
            w
        },
        None => DetachedWindow {
            note_id: note_id.to_owned(),
            window_label: window_label_for(note_id),
            position: (DEFAULT_ORIGIN, DEFAULT_ORIGIN),
            size: (width, height),
            always_on_top: false,
            opacity: FULL_OPACITY,
            is_shaded: false,
            original_height: None,
        },
    }
}


/// The note that a label speaks of: what follows `note-` in the label of
/// a note's window, or `hybrid-drag-` in that of a dragged window. Other
/// labels speak of no note.
pub open spec fn note_of_label(label: Seq<char>) -> Option<Seq<char>> {
    if is_note_label(label) {
        Some(label.skip("note-"@.len() as int))
    } else if is_hybrid_label(label) {
        Some(label.skip("hybrid-drag-"@.len() as int))
    } else {
        None
    }
}

/// The note that a label speaks of: the note to which a live window
/// without a record belongs, if the window is taken into the records.
pub fn label_note_id(label: &str) -> (r: Option<String>)
    ensures
        match r {
            Some(id) => note_of_label(label@) == Some(id@),
            None => note_of_label(label@) is None,
        },
{
    let chars = chars_of(label);
    if note_window_label(label) {
        let prefix = chars_of("note-");
        let id = slice_of(&chars, prefix.len(), chars.len());
        assert(id@ =~= label@.skip("note-"@.len() as int));
        Some(string_of(&id))
    } else if hybrid_window_label(label) {
        let prefix = chars_of("hybrid-drag-");
        let id = slice_of(&chars, prefix.len(), chars.len());
        assert(id@ =~= label@.skip("hybrid-drag-"@.len() as int));
        Some(string_of(&id))
    } else {
        None
    }
}

} // verus!
