//! Poll-based input state: which keys and mouse buttons are down, when they
//! went down, and whether quitting was asked for in the current update.
use vstd::prelude::*;

verus! {

/// Number of keyboard scan codes tracked.
pub const NUM_SCAN_CODES: usize = 512;

/// Number of mouse buttons tracked.
pub const NUM_MOUSE_BUTTONS: usize = 8;

/// A button and the update in which it last changed.
#[derive(Clone, Copy, Debug, PartialEq, Eq, Structural)]
pub enum ButtonState {
    Up(u64),
    Down(u64),
}

/// A single condition on one key, one mouse button or the quit request.
#[derive(Clone, Copy, Debug, PartialEq, Eq, Structural)]
pub enum Signal {
    KeyHold(u32),
    KeyTrigger(u32),
    ButtonHold(u8),
    ButtonTrigger(u8),
    QuitTrigger,
}

/// A condition on the input of the current update: nothing, one signal, or
/// any or all of several signals.
#[derive(Clone, Debug)]
pub enum Gesture {
    NoGesture,
    KeyHold(u32),
    KeyTrigger(u32),
    ButtonHold(u8),
    ButtonTrigger(u8),
    AnyOf(Vec<Signal>),
    AllOf(Vec<Signal>),
    QuitTrigger,
}

/// One event from the windowing backend.
#[derive(Clone, Copy, Debug, PartialEq, Eq)]
pub enum InputEvent {
    Quit,
    KeyDown(u32),
    KeyUp(u32),
    ButtonDown(u8),
    ButtonUp(u8),
    MouseMotion(i32, i32),
}

/// Direction of one axis of a four-gesture analog: `1`, `-1` or `0`.
#[derive(Clone, Copy, Debug, PartialEq, Eq, Structural)]
pub struct AxisDirections {
    pub x: i8,
    pub y: i8,
}

/// Input state, advanced once per update from the events of that update.
pub struct GameController {
    current_update_index: u64,
    keyboard_state: Vec<ButtonState>,
    mouse_state: Vec<ButtonState>,
    quit_requested_index: u64,
    mouse_enabled: bool,
    mouse_rel: (i64, i64),
}

pub open spec fn is_down(s: ButtonState) -> bool {
    s is Down
}

/// The update in which a button last changed.
pub open spec fn stamp(s: ButtonState) -> u64 {
    match s {
        ButtonState::Up(i) => i,
        ButtonState::Down(i) => i,
    }
}

proof fn lemma_key_after_stamp(events: Seq<InputEvent>, c: int, s: ButtonState, now: u64)
    ensures
        stamp(key_after(events, c, s, now)) == stamp(s) || stamp(key_after(events, c, s, now)) == now,
    decreases events.len(),
{
    if events.len() > 0 {
        lemma_key_after_stamp(events.drop_last(), c, s, now);
    }
}

proof fn lemma_button_after_stamp(events: Seq<InputEvent>, b: int, s: ButtonState, now: u64)
    ensures
        stamp(button_after(events, b, s, now)) == stamp(s) || stamp(button_after(events, b, s, now))
            == now,
    decreases events.len(),
{
    if events.len() > 0 {
        lemma_button_after_stamp(events.drop_last(), b, s, now);
    }
}

pub open spec fn went_down_at(s: ButtonState, index: u64) -> bool {
    s == ButtonState::Down(index)
}

impl GameController {
    pub closed spec fn update_index(self) -> u64 {
        self.current_update_index
    }

    pub closed spec fn keys(self) -> Seq<ButtonState> {
        self.keyboard_state@
    }

    pub closed spec fn buttons(self) -> Seq<ButtonState> {
        self.mouse_state@
    }

    pub closed spec fn quit_index(self) -> u64 {
        self.quit_requested_index
    }

    pub closed spec fn mouse_on(self) -> bool {
        self.mouse_enabled
    }

    pub closed spec fn motion(self) -> (i64, i64) {
        self.mouse_rel
    }

    /// One state per tracked key and button, and no recorded update index
    /// later than the current update.
    pub open spec fn wf(self) -> bool {
        &&& self.keys().len() == NUM_SCAN_CODES
        &&& self.buttons().len() == NUM_MOUSE_BUTTONS
        &&& self.quit_index() <= self.update_index()
        &&& forall|c: int| 0 <= c < self.keys().len() ==> stamp(#[trigger] self.keys()[c]) <= self.update_index()
        &&& forall|b: int|
            0 <= b < self.buttons().len() ==> stamp(#[trigger] self.buttons()[b]) <= self.update_index()
    }

    /// Whether signal `g` holds for the current update.
    pub open spec fn signal_on(self, g: Signal) -> bool {
        match g {
            Signal::QuitTrigger => self.quit_index() == self.update_index(),
            Signal::KeyHold(c) => (c as int) < self.keys().len() && is_down(self.keys()[c as int]),
            Signal::KeyTrigger(c) => (c as int) < self.keys().len() && went_down_at(
                self.keys()[c as int],
                self.update_index(),
            ),
            Signal::ButtonHold(b) => (b as int) < self.buttons().len() && is_down(
                self.buttons()[b as int],
            ),
            Signal::ButtonTrigger(b) => (b as int) < self.buttons().len() && went_down_at(
                self.buttons()[b as int],
                self.update_index(),
            ),
        }
    }

    /// Whether `g` holds for the current update.
    pub open spec fn active(self, g: Gesture) -> bool {
        match g {
            Gesture::NoGesture => false,
            Gesture::QuitTrigger => self.signal_on(Signal::QuitTrigger),
            Gesture::KeyHold(c) => self.signal_on(Signal::KeyHold(c)),
            Gesture::KeyTrigger(c) => self.signal_on(Signal::KeyTrigger(c)),
            Gesture::ButtonHold(b) => self.signal_on(Signal::ButtonHold(b)),
            Gesture::ButtonTrigger(b) => self.signal_on(Signal::ButtonTrigger(b)),
            Gesture::AnyOf(subs) => exists|i: int|
                0 <= i < subs@.len() && #[trigger] self.signal_on(subs@[i]),
            Gesture::AllOf(subs) => forall|i: int|
                0 <= i < subs@.len() ==> #[trigger] self.signal_on(subs@[i]),
        }
    }

    /// All keys and buttons up, no quit request, mouse enabled.
    pub fn new() -> (r: Self)
        ensures
            r.wf(),
            r.update_index() == 1,
            r.quit_index() == 0,
            r.mouse_on(),
            r.motion() == (0i64, 0i64),
            forall|c: int| 0 <= c < NUM_SCAN_CODES ==> #[trigger] r.keys()[c] == ButtonState::Up(0),
            forall|b: int| 0 <= b < NUM_MOUSE_BUTTONS ==> #[trigger] r.buttons()[b] == ButtonState::Up(0),
    {
        let mut keys: Vec<ButtonState> = Vec::new();
        let mut i: usize = 0;
        while i < NUM_SCAN_CODES
            invariant
                i <= NUM_SCAN_CODES,
                keys@.len() == i,
                forall|c: int| 0 <= c < i ==> #[trigger] keys@[c] == ButtonState::Up(0),
            decreases NUM_SCAN_CODES - i,
        {
            keys.push(ButtonState::Up(0));
            i = i + 1;
        }
        let mut buttons: Vec<ButtonState> = Vec::new();
        let mut j: usize = 0;
        while j < NUM_MOUSE_BUTTONS
            invariant
                j <= NUM_MOUSE_BUTTONS,
                buttons@.len() == j,
                forall|b: int| 0 <= b < j ==> #[trigger] buttons@[b] == ButtonState::Up(0),
            decreases NUM_MOUSE_BUTTONS - j,
        {
            buttons.push(ButtonState::Up(0));
            j = j + 1;
        }
        GameController {
            current_update_index: 1,
            keyboard_state: keys,
            mouse_state: buttons,
            quit_requested_index: 0,
            mouse_enabled: true,
            mouse_rel: (0, 0),
        }
    }

    /// Turns relative mouse motion on or off.
    pub fn set_mouse_enabled(&mut self, enable: bool)
        ensures
            final(self).mouse_on() == enable,
            final(self).update_index() == old(self).update_index(),
            final(self).keys() == old(self).keys(),
            final(self).buttons() == old(self).buttons(),
            final(self).quit_index() == old(self).quit_index(),
            final(self).motion() == old(self).motion(),
            final(self).wf() == old(self).wf(),
    {
        self.mouse_enabled = enable;
    }

    /// The mouse motion of the current update, `y` pointing up; zero while
    /// the mouse is disabled.
    pub fn mouse_motion(&self) -> (r: (i64, i64))
        ensures
            r == self.motion(),
    {
        self.mouse_rel
    }

    /// Starts a new update and applies its events in order: a key or button
    /// that goes down or up records the new update index, a quit event
    /// records it as the quit index, and the last motion event sets the
    /// mouse motion. Codes outside the tracked range are ignored.
    pub fn update(&mut self, events: &Vec<InputEvent>)
        requires
            old(self).wf(),
            old(self).update_index() < u64::MAX,
        ensures
            final(self).wf(),
            final(self).update_index() == old(self).update_index() + 1,
            final(self).mouse_on() == old(self).mouse_on(),
            forall|c: int|
                0 <= c < NUM_SCAN_CODES ==> #[trigger] final(self).keys()[c] == key_after(
                    events@,
                    c,
                    old(self).keys()[c],
                    final(self).update_index(),
                ),
            forall|b: int|
                0 <= b < NUM_MOUSE_BUTTONS ==> #[trigger] final(self).buttons()[b] == button_after(
                    events@,
                    b,
                    old(self).buttons()[b],
                    final(self).update_index(),
                ),
            final(self).quit_index() == if has_quit(events@) {
                final(self).update_index()
            } else {
                old(self).quit_index()
            },
            final(self).motion() == motion_after(events@, old(self).mouse_on()),
    {
        self.current_update_index = self.current_update_index + 1;
        self.mouse_rel = (0, 0);
        let now = self.current_update_index;
        let ghost k0 = self.keyboard_state@;
        let ghost b0 = self.mouse_state@;
        let ghost q0 = self.quit_requested_index;
        let mut i: usize = 0;
        while i < events.len()
            invariant
                i <= events@.len(),
                now == self.current_update_index,
                self.keyboard_state@.len() == NUM_SCAN_CODES,
                self.mouse_state@.len() == NUM_MOUSE_BUTTONS,
                self.mouse_enabled == old(self).mouse_enabled,
                forall|c: int|
                    0 <= c < NUM_SCAN_CODES ==> #[trigger] self.keyboard_state@[c] == key_after(
                        events@.subrange(0, i as int),
                        c,
                        k0[c],
                        now,
                    ),
                forall|b: int|
                    0 <= b < NUM_MOUSE_BUTTONS ==> #[trigger] self.mouse_state@[b] == button_after(
                        events@.subrange(0, i as int),
                        b,
                        b0[b],
                        now,
                    ),
                self.quit_requested_index == if has_quit(events@.subrange(0, i as int)) {
                    now
                } else {
                    q0
                },
                self.mouse_rel == motion_after(events@.subrange(0, i as int), self.mouse_enabled),
            decreases events@.len() - i,
        {
            let ghost prefix = events@.subrange(0, i as int);
            proof {
                assert(events@.subrange(0, i + 1).drop_last() =~= prefix);
                assert(events@.subrange(0, i + 1).last() == events@[i as int]);
            }
            match events[i] {
                InputEvent::Quit => {
                    self.quit_requested_index = now;
                },
                InputEvent::KeyDown(code) => {
                    if (code as usize) < NUM_SCAN_CODES {
                        self.keyboard_state.set(code as usize, ButtonState::Down(now));
                    }
                },
                InputEvent::KeyUp(code) => {
                    if (code as usize) < NUM_SCAN_CODES {
                        self.keyboard_state.set(code as usize, ButtonState::Up(now));
                    }
                },
                InputEvent::ButtonDown(b) => {
                    if (b as usize) < NUM_MOUSE_BUTTONS {
                        self.mouse_state.set(b as usize, ButtonState::Down(now));
                    }
                },
                InputEvent::ButtonUp(b) => {
                    if (b as usize) < NUM_MOUSE_BUTTONS {
                        self.mouse_state.set(b as usize, ButtonState::Up(now));
                    }
                },
                InputEvent::MouseMotion(xrel, yrel) => {
                    if self.mouse_enabled {
                        self.mouse_rel = (xrel as i64, -(yrel as i64));
                    } else {
                        self.mouse_rel = (0, 0);
                    }
                },
            }
            i = i + 1;
        }
        proof {
            assert(events@.subrange(0, events@.len() as int) =~= events@);
            assert forall|c: int| 0 <= c < self.keys().len() implies stamp(#[trigger] self.keys()[c]) <= self.update_index() by {
                lemma_key_after_stamp(events@, c, k0[c], now);
            }
            assert forall|b: int| 0 <= b < self.buttons().len() implies stamp(#[trigger] self.buttons()[b]) <= self.update_index() by {
                lemma_button_after_stamp(events@, b, b0[b], now);
            }
        }
    }

    /// Whether `signal` holds for the current update.
    pub fn poll_signal(&self, signal: Signal) -> (r: bool)
        requires
            self.wf(),
        ensures
            r == self.signal_on(signal),
    {
        match signal {
            Signal::QuitTrigger => self.quit_requested_index == self.current_update_index,
            Signal::KeyHold(code) => {
                if (code as usize) < self.keyboard_state.len() {
                    match self.keyboard_state[code as usize] {
                        ButtonState::Down(_) => true,
                        ButtonState::Up(_) => false,
                    }
                } else {
                    false
                }
            },
            Signal::KeyTrigger(code) => {
                if (code as usize) < self.keyboard_state.len() {
                    match self.keyboard_state[code as usize] {
                        ButtonState::Down(index) => index == self.current_update_index,
                        ButtonState::Up(_) => false,
                    }
                } else {
                    false
                }
            },
            Signal::ButtonHold(b) => {
                if (b as usize) < self.mouse_state.len() {
                    match self.mouse_state[b as usize] {
                        ButtonState::Down(_) => true,
                        ButtonState::Up(_) => false,
                    }
                } else {
                    false
                }
            },
            Signal::ButtonTrigger(b) => {
                if (b as usize) < self.mouse_state.len() {
                    match self.mouse_state[b as usize] {
                        ButtonState::Down(index) => index == self.current_update_index,
                        ButtonState::Up(_) => false,
                    }
                } else {
                    false
                }
            },
        }
    }

    /// Whether `gesture` holds for the current update.
    pub fn poll_gesture(&self, gesture: &Gesture) -> (r: bool)
        requires
            self.wf(),
        ensures
            r == self.active(*gesture),
    {
        match gesture {
            Gesture::NoGesture => false,
            Gesture::QuitTrigger => self.poll_signal(Signal::QuitTrigger),
            Gesture::KeyHold(code) => self.poll_signal(Signal::KeyHold(*code)),
            Gesture::KeyTrigger(code) => self.poll_signal(Signal::KeyTrigger(*code)),
            Gesture::ButtonHold(b) => self.poll_signal(Signal::ButtonHold(*b)),
            Gesture::ButtonTrigger(b) => self.poll_signal(Signal::ButtonTrigger(*b)),
            Gesture::AnyOf(subs) => {
                let mut i: usize = 0;
                while i < subs.len()
                    invariant
                        self.wf(),
                        *gesture == Gesture::AnyOf(*subs),
                        i <= subs@.len(),
                        forall|j: int| 0 <= j < i ==> !#[trigger] self.signal_on(subs@[j]),
                    decreases subs@.len() - i,
                {
                    if self.poll_signal(subs[i]) {
                        proof {
                            assert(self.signal_on(subs@[i as int]));
                            assert(gesture->AnyOf_0@[i as int] == subs@[i as int]);
                            assert(self.active(*gesture));
                        }
                        return true;
                    }
                    i = i + 1;
                }
                false
            },
            Gesture::AllOf(subs) => {
                let mut i: usize = 0;
                while i < subs.len()
                    invariant
                        self.wf(),
                        *gesture == Gesture::AllOf(*subs),
                        i <= subs@.len(),
                        forall|j: int| 0 <= j < i ==> #[trigger] self.signal_on(subs@[j]),
                    decreases subs@.len() - i,
                {
                    if !self.poll_signal(subs[i]) {
                        proof {
                            assert(!self.signal_on(subs@[i as int]));
                            assert(gesture->AllOf_0@[i as int] == subs@[i as int]);
                            assert(!self.active(*gesture));
                        }
                        return false;
                    }
                    i = i + 1;
                }
                true
            },
        }
    }

    /// Axis directions of an analog made of four gestures: on each axis the
    /// positive gesture wins, then the negative one, else the axis is idle.
    pub fn poll_axes(
        &self,
        x_positive: &Gesture,
        x_negative: &Gesture,
        y_positive: &Gesture,
        y_negative: &Gesture,
    ) -> (r: AxisDirections)
        requires
            self.wf(),
        ensures
            r.x == axis(self.active(*x_positive), self.active(*x_negative)),
            r.y == axis(self.active(*y_positive), self.active(*y_negative)),
    {
        let x = if self.poll_gesture(x_positive) {
            1i8
        } else if self.poll_gesture(x_negative) {
            -1i8
        } else {
            0i8
        };
        let y = if self.poll_gesture(y_positive) {
            1i8
        } else if self.poll_gesture(y_negative) {
            -1i8
        } else {
            0i8
        };
        AxisDirections { x, y }
    }
}

pub open spec fn axis(positive: bool, negative: bool) -> i8 {
    if positive {
        1i8
    } else if negative {
        -1i8
    } else {
        0i8
    }
}

/// State of key `c` after `events`, starting from `s`, in update `now`.
pub open spec fn key_after(events: Seq<InputEvent>, c: int, s: ButtonState, now: u64) -> ButtonState
    decreases events.len(),
{
    if events.len() == 0 {
        s
    } else {
        let before = key_after(events.drop_last(), c, s, now);
        match events.last() {
            InputEvent::KeyDown(code) => if code as int == c {
                ButtonState::Down(now)
            } else {
                before
            },
            InputEvent::KeyUp(code) => if code as int == c {
                ButtonState::Up(now)
            } else {
                before
            },
            _ => before,
        }
    }
}

/// State of mouse button `b` after `events`, starting from `s`, in update
/// `now`.
pub open spec fn button_after(events: Seq<InputEvent>, b: int, s: ButtonState, now: u64) -> ButtonState
    decreases events.len(),
{
    if events.len() == 0 {
        s
    } else {
        let before = button_after(events.drop_last(), b, s, now);
        match events.last() {
            InputEvent::ButtonDown(x) => if x as int == b {
                ButtonState::Down(now)
            } else {
                before
            },
            InputEvent::ButtonUp(x) => if x as int == b {
                ButtonState::Up(now)
            } else {
                before
            },
            _ => before,
        }
    }
}

pub open spec fn has_quit(events: Seq<InputEvent>) -> bool {
    exists|i: int| 0 <= i < events.len() && #[trigger] events[i] == InputEvent::Quit
}

/// Mouse motion after `events`: the last motion event decides, flipped so
/// that `y` points up; zero while disabled.
pub open spec fn motion_after(events: Seq<InputEvent>, enabled: bool) -> (i64, i64)
    decreases events.len(),
{
    if events.len() == 0 {
        (0, 0)
    } else {
        match events.last() {
            InputEvent::MouseMotion(x, y) => if enabled {
                (x as i64, (-y) as i64)
            } else {
                (0, 0)
            },
            _ => motion_after(events.drop_last(), enabled),
        }
    }
}

} // verus!
