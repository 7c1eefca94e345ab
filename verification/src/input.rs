//! Input state for one interactive session: which keys and mouse buttons
//! are held, the mouse position, the positions the mouse visited during the
//! current frame, and the drag in progress.
//!
//! Reading events from the terminal is not done here; the surrounding
//! program collects the pending events of a frame into plain
//! [`InputEvent`] values and hands them to [`Input::process_frame_events`],
//! which folds them into the state exactly as [`run_events`] describes.

use vstd::prelude::*;

verus! {

/// A key, as far as this toy tells keys apart.
#[derive(Clone, Copy, Debug, PartialEq, Eq, Structural)]
pub enum KeyCode {
    Char(char),
    Enter,
    Esc,
    Other,
}

/// A mouse button.
#[derive(Clone, Copy, Debug, PartialEq, Eq, Structural)]
pub enum MouseButton {
    Left,
    Right,
    Middle,
}

/// Whether a key event reports a press or a release.
#[derive(Clone, Copy, Debug, PartialEq, Eq, Structural)]
pub enum KeyEventKind {
    Press,
    Repeat,
    Release,
}

/// What a mouse event reports. Moves and scrolls carry no button here;
/// they still update the tracked mouse position.
#[derive(Clone, Copy, Debug, PartialEq, Eq, Structural)]
pub enum MouseEventKind {
    Down(MouseButton),
    Up(MouseButton),
    Drag(MouseButton),
    Other,
}

/// One terminal event, reduced to what the input state reads from it.
#[derive(Clone, Copy, Debug, PartialEq, Eq, Structural)]
pub enum InputEvent {
    Key(KeyCode, KeyEventKind),
    Mouse(u16, u16, MouseEventKind),
    Other,
}

/// A mouse position seen during the current frame, together with the
/// button that went down or dragged at that position, if any.
#[derive(Clone, Copy, Debug, PartialEq, Eq, Structural)]
pub struct FrameMouse {
    pub x: u16,
    pub y: u16,
    pub active_button: Option<MouseButton>,
}

/// The drag reported by the latest event of the current frame: how far the
/// mouse moved since the previous drag step, and with which button.
#[derive(Clone, Copy, Debug, PartialEq, Eq, Structural)]
pub struct MouseDrag {
    pub offset_x: i16,
    pub offset_y: i16,
    pub button: MouseButton,
}

/// An axis-aligned rectangle of terminal cells.
#[derive(Clone, Copy, Debug, PartialEq, Eq, Structural)]
pub struct Rect {
    pub x: i16,
    pub y: i16,
    pub width: u16,
    pub height: u16,
}

/// What it means for a point to lie in a rectangle.
pub open spec fn rect_contains(r: Rect, px: int, py: int) -> bool {
    &&& r.x <= px < r.x + r.width
    &&& r.y <= py < r.y + r.height
}

impl Rect {
    pub fn contains(&self, px: i16, py: i16) -> (c: bool)
        requires
            self.width <= i16::MAX,
            self.height <= i16::MAX,
            self.x + self.width <= i16::MAX,
            self.y + self.height <= i16::MAX,
        ensures
            c == rect_contains(*self, px as int, py as int),
    {
        px >= self.x
            && px < self.x + self.width as i16
            && py >= self.y
            && py < self.y + self.height as i16
    }
}

/// The input state as the contracts speak of it: the vectors of held keys
/// and buttons become sequences.
pub ghost struct InputModel {
    pub mouse_x: u16,
    pub mouse_y: u16,
    pub frame_mouses: Seq<FrameMouse>,
    pub drag_start_x: u16,
    pub drag_start_y: u16,
    pub keys_pressed: Seq<KeyCode>,
    pub mouse_buttons_pressed: Seq<MouseButton>,
    pub mouse_drag: Option<MouseDrag>,
}

/// Held keys and buttons form sets; the vectors keep each entry once.
pub struct Input {
    pub mouse_x: u16,
    pub mouse_y: u16,

    pub frame_mouses: Vec<FrameMouse>,

    pub drag_start_x: u16,
    pub drag_start_y: u16,

    pub keys_pressed: Vec<KeyCode>,
    pub mouse_buttons_pressed: Vec<MouseButton>,
    pub mouse_drag: Option<MouseDrag>,
}

impl View for Input {
    type V = InputModel;

    open spec fn view(&self) -> InputModel {
        InputModel {
            mouse_x: self.mouse_x,
            mouse_y: self.mouse_y,
            frame_mouses: self.frame_mouses@,
            drag_start_x: self.drag_start_x,
            drag_start_y: self.drag_start_y,
            keys_pressed: self.keys_pressed@,
            mouse_buttons_pressed: self.mouse_buttons_pressed@,
            mouse_drag: self.mouse_drag,
        }
    }
}

/// Adding to a set kept as a sequence: nothing changes when the element is
/// already there.
pub open spec fn seq_set_insert<T>(s: Seq<T>, x: T) -> Seq<T> {
    if s.contains(x) {
        s
    } else {
        s.push(x)
    }
}

/// Removing from a set kept as a sequence keeps exactly the entries that
/// differ from the removed element, in their order.
pub open spec fn seq_set_remove<T>(s: Seq<T>, x: T) -> Seq<T> {
    s.filter(|y: T| y != x)
}

fn vec_contains_key(v: &Vec<KeyCode>, k: KeyCode) -> (c: bool)
    ensures
        c == v@.contains(k),
{
    let mut i: usize = 0;
    while i < v.len()
        invariant
            0 <= i <= v@.len(),
            forall|j: int| 0 <= j < i ==> v@[j] != k,
        decreases v@.len() - i,
    {
        if v[i] == k {
            return true;
        }
        i += 1;
    }
    false
}

fn vec_contains_button(v: &Vec<MouseButton>, b: MouseButton) -> (c: bool)
    ensures
        c == v@.contains(b),
{
    let mut i: usize = 0;
    while i < v.len()
        invariant
            0 <= i <= v@.len(),
            forall|j: int| 0 <= j < i ==> v@[j] != b,
        decreases v@.len() - i,
    {
        if v[i] == b {
            return true;
        }
        i += 1;
    }
    false
}

fn vec_insert_key(v: &mut Vec<KeyCode>, k: KeyCode)
    ensures
        final(v)@ == seq_set_insert(old(v)@, k),
{
    if !vec_contains_key(v, k) {
        v.push(k);
    }
}

fn vec_insert_button(v: &mut Vec<MouseButton>, b: MouseButton)
    ensures
        final(v)@ == seq_set_insert(old(v)@, b),
{
    if !vec_contains_button(v, b) {
        v.push(b);
    }
}

fn vec_remove_key(v: &mut Vec<KeyCode>, k: KeyCode)
    ensures
        final(v)@ == seq_set_remove(old(v)@, k),
{
    let mut out: Vec<KeyCode> = Vec::new();
    let mut i: usize = 0;
    proof {
        reveal(Seq::filter);
    }
    while i < v.len()
        invariant
            0 <= i <= v@.len(),
            out@ == seq_set_remove(v@.take(i as int), k),
        decreases v@.len() - i,
    {
        proof {
            reveal(Seq::filter);
            assert(v@.take(i + 1).drop_last() =~= v@.take(i as int));
            assert(v@.take(i + 1).last() == v@[i as int]);
        }
        if v[i] != k {
            out.push(v[i]);
        }
        i += 1;
    }
    proof {
        assert(v@.take(v@.len() as int) =~= v@);
    }
    *v = out;
}

fn vec_remove_button(v: &mut Vec<MouseButton>, b: MouseButton)
    ensures
        final(v)@ == seq_set_remove(old(v)@, b),
{
    let mut out: Vec<MouseButton> = Vec::new();
    let mut i: usize = 0;
    proof {
        reveal(Seq::filter);
    }
    while i < v.len()
        invariant
            0 <= i <= v@.len(),
            out@ == seq_set_remove(v@.take(i as int), b),
        decreases v@.len() - i,
    {
        proof {
            reveal(Seq::filter);
            assert(v@.take(i + 1).drop_last() =~= v@.take(i as int));
            assert(v@.take(i + 1).last() == v@[i as int]);
        }
        if v[i] != b {
            out.push(v[i]);
        }
        i += 1;
    }
    proof {
        assert(v@.take(v@.len() as int) =~= v@);
    }
    *v = out;
}

/// Whether an event's coordinates stay clear of `i16` truncation.
pub open spec fn event_coords_ok(e: InputEvent) -> bool {
    match e {
        InputEvent::Mouse(col, row, _) => col <= 32767 && row <= 32767,
        _ => true,
    }
}

/// The state a frame starts from: the previous frame's drag and mouse
/// trail are gone, everything else is kept.
pub open spec fn begin_frame(s: InputModel) -> InputModel {
    InputModel { frame_mouses: Seq::<FrameMouse>::empty(), mouse_drag: None::<MouseDrag>, ..s }
}

/// How one event changes the state. The two extra values carry the drag
/// origin of the current frame: a drag's offset is measured from it, and a
/// button press resets it only while no drag is underway.
pub open spec fn step_event(s: InputModel, fdx: u16, fdy: u16, e: InputEvent) -> (
    InputModel,
    u16,
    u16,
) {
    match e {
        InputEvent::Key(code, kind) => match kind {
            KeyEventKind::Press => (
                InputModel { keys_pressed: seq_set_insert(s.keys_pressed, code), ..s },
                fdx,
                fdy,
            ),
            KeyEventKind::Release => (
                InputModel { keys_pressed: seq_set_remove(s.keys_pressed, code), ..s },
                fdx,
                fdy,
            ),
            KeyEventKind::Repeat => (s, fdx, fdy),
        },
        InputEvent::Mouse(col, row, kind) => match kind {
            MouseEventKind::Down(b) => (
                InputModel {
                    mouse_x: col,
                    mouse_y: row,
                    frame_mouses: s.frame_mouses.push(
                        FrameMouse { x: col, y: row, active_button: Some(b) },
                    ),
                    drag_start_x: col,
                    drag_start_y: row,
                    mouse_buttons_pressed: seq_set_insert(s.mouse_buttons_pressed, b),
                    ..s
                },
                if s.mouse_drag is None {
                    col
                } else {
                    fdx
                },
                if s.mouse_drag is None {
                    row
                } else {
                    fdy
                },
            ),
            MouseEventKind::Up(b) => (
                InputModel {
                    mouse_x: col,
                    mouse_y: row,
                    frame_mouses: s.frame_mouses.push(
                        FrameMouse { x: col, y: row, active_button: None::<MouseButton> },
                    ),
                    mouse_buttons_pressed: seq_set_remove(s.mouse_buttons_pressed, b),
                    mouse_drag: None::<MouseDrag>,
                    ..s
                },
                fdx,
                fdy,
            ),
            MouseEventKind::Drag(b) => (
                InputModel {
                    mouse_x: col,
                    mouse_y: row,
                    frame_mouses: s.frame_mouses.push(
                        FrameMouse { x: col, y: row, active_button: Some(b) },
                    ),
                    drag_start_x: col,
                    drag_start_y: row,
                    mouse_drag: Some(
                        MouseDrag {
                            offset_x: (col - fdx) as i16,
                            offset_y: (row - fdy) as i16,
                            button: b,
                        },
                    ),
                    ..s
                },
                col,
                row,
            ),
            MouseEventKind::Other => (
                InputModel {
                    mouse_x: col,
                    mouse_y: row,
                    frame_mouses: s.frame_mouses.push(
                        FrameMouse { x: col, y: row, active_button: None::<MouseButton> },
                    ),
                    ..s
                },
                fdx,
                fdy,
            ),
        },
        InputEvent::Other => (s, fdx, fdy),
    }
}

/// Folding a frame's events into the state, oldest first.
pub open spec fn run_events(s: InputModel, fdx: u16, fdy: u16, events: Seq<InputEvent>) -> (
    InputModel,
    u16,
    u16,
)
    decreases events.len(),
{
    if events.len() == 0 {
        (s, fdx, fdy)
    } else {
        let prev = run_events(s, fdx, fdy, events.drop_last());
        step_event(prev.0, prev.1, prev.2, events.last())
    }
}

impl Input {
    /// No keys, no buttons, mouse at the origin.
    pub fn new() -> (inp: Self)
        ensures
            inp@ == (InputModel {
                mouse_x: 0,
                mouse_y: 0,
                frame_mouses: Seq::<FrameMouse>::empty(),
                drag_start_x: 0,
                drag_start_y: 0,
                keys_pressed: Seq::<KeyCode>::empty(),
                mouse_buttons_pressed: Seq::<MouseButton>::empty(),
                mouse_drag: None::<MouseDrag>,
            }),
    {
        let inp = Self {
            mouse_x: 0,
            mouse_y: 0,

            frame_mouses: Vec::new(),

            drag_start_x: 0,
            drag_start_y: 0,

            keys_pressed: Vec::new(),
            mouse_buttons_pressed: Vec::new(),
            mouse_drag: None,
        };
        proof {
            assert(inp@.frame_mouses =~= Seq::<FrameMouse>::empty());
            assert(inp@.keys_pressed =~= Seq::<KeyCode>::empty());
            assert(inp@.mouse_buttons_pressed =~= Seq::<MouseButton>::empty());
        }
        inp
    }

    /// One frame of event processing: the drag and the per-frame mouse
    /// positions are cleared, then every pending event is folded into the
    /// state, exactly as [`run_events`] describes.
    pub fn process_frame_events(&mut self, events: &Vec<InputEvent>)
        requires
            old(self).drag_start_x <= 32767,
            old(self).drag_start_y <= 32767,
            forall|i: int| 0 <= i < events@.len() ==> event_coords_ok(#[trigger] events@[i]),
        ensures
            final(self)@ == run_events(
                begin_frame(old(self)@),
                old(self).drag_start_x,
                old(self).drag_start_y,
                events@,
            ).0,
    {
        let ghost s0 = begin_frame(old(self)@);
        let ghost fdx0 = old(self).drag_start_x;
        let ghost fdy0 = old(self).drag_start_y;

        self.mouse_drag = None;
        self.frame_mouses = Vec::new();

        let mut frame_drag_start_x = self.drag_start_x;
        let mut frame_drag_start_y = self.drag_start_y;

        proof {
            assert(self@.frame_mouses =~= Seq::<FrameMouse>::empty());
            assert(self@ == s0);
        }

        let mut i: usize = 0;
        while i < events.len()
            invariant
                0 <= i <= events@.len(),
                forall|j: int| 0 <= j < events@.len() ==> event_coords_ok(#[trigger] events@[j]),
                frame_drag_start_x <= 32767,
                frame_drag_start_y <= 32767,
                self@ == run_events(s0, fdx0, fdy0, events@.take(i as int)).0,
                frame_drag_start_x == run_events(s0, fdx0, fdy0, events@.take(i as int)).1,
                frame_drag_start_y == run_events(s0, fdx0, fdy0, events@.take(i as int)).2,
            decreases events@.len() - i,
        {
            proof {
                assert(events@.take(i + 1).drop_last() =~= events@.take(i as int));
                assert(events@.take(i + 1).last() == events@[i as int]);
            }
            let e = events[i];
            match e {
                InputEvent::Key(code, kind) => match kind {
                    KeyEventKind::Press => {
                        vec_insert_key(&mut self.keys_pressed, code);
                    },
                    KeyEventKind::Release => {
                        vec_remove_key(&mut self.keys_pressed, code);
                    },
                    KeyEventKind::Repeat => {},
                },
                InputEvent::Mouse(col, row, kind) => {
                    self.mouse_x = col;
                    self.mouse_y = row;

                    let mut frame_mouse = FrameMouse { x: col, y: row, active_button: None };

                    match kind {
                        MouseEventKind::Down(b) => {
                            vec_insert_button(&mut self.mouse_buttons_pressed, b);

                            self.drag_start_x = col;
                            self.drag_start_y = row;

                            if self.mouse_drag.is_none() {
                                frame_drag_start_x = self.drag_start_x;
                                frame_drag_start_y = self.drag_start_y;
                            }

                            frame_mouse.active_button = Some(b);
                        },
                        MouseEventKind::Up(b) => {
                            vec_remove_button(&mut self.mouse_buttons_pressed, b);

                            self.mouse_drag = None;
                        },
                        MouseEventKind::Drag(b) => {
                            self.mouse_drag = Some(
                                MouseDrag {
                                    offset_x: col as i16 - frame_drag_start_x as i16,
                                    offset_y: row as i16 - frame_drag_start_y as i16,
                                    button: b,
                                },
                            );

                            self.drag_start_x = col;
                            self.drag_start_y = row;

                            frame_drag_start_x = col;
                            frame_drag_start_y = row;

                            frame_mouse.active_button = Some(b);
                        },
                        MouseEventKind::Other => {},
                    }

                    self.frame_mouses.push(frame_mouse);
                },
                InputEvent::Other => {},
            }
            i += 1;
        }
        proof {
            assert(events@.take(events@.len() as int) =~= events@);
        }
    }

    pub fn is_key_down(&self, key: KeyCode) -> (d: bool)
        ensures
            d == self.keys_pressed@.contains(key),
    {
        vec_contains_key(&self.keys_pressed, key)
    }

    pub fn is_mouse_button_down_in(&self, button: MouseButton, rect: Rect) -> (d: bool)
        requires
            self.mouse_x <= i16::MAX,
            self.mouse_y <= i16::MAX,
            rect.width <= i16::MAX,
            rect.height <= i16::MAX,
            rect.x + rect.width <= i16::MAX,
            rect.y + rect.height <= i16::MAX,
        ensures
            d == (self.mouse_buttons_pressed@.contains(button) && rect_contains(
                rect,
                self.mouse_x as int,
                self.mouse_y as int,
            )),
    {
        vec_contains_button(&self.mouse_buttons_pressed, button)
            && rect.contains(self.mouse_x as i16, self.mouse_y as i16)
    }
}

} // verus!
