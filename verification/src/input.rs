use vstd::prelude::*;

verus! {

/// State of one button, kept for rising edge detection.
#[derive(Clone, Copy, Debug, PartialEq, Eq, Structural)]
pub struct ButtonState {
    was_pressed: bool,
    /// true if last input update changed button state from released to pressed
    just_pressed: bool,
}

/// The keys that the input state follows; any other key is `Other`.
#[derive(Clone, Copy, Debug, PartialEq, Eq, Structural)]
pub enum Key {
    KeyW,
    KeyA,
    KeyS,
    KeyD,
    Space,
    ShiftLeft,
    ControlLeft,
    KeyQ,
    KeyR,
    KeyI,
    KeyO,
    KeyP,
    Escape,
    Equal,
    Other,
}

/// Direction asked for by the movement keys: each component is -1, 0 or 1; `slow` when the
/// slow-down key is held.
#[derive(Clone, Copy, Debug, PartialEq, Eq, Structural)]
pub struct MoveIntent {
    pub x: i8,
    pub y: i8,
    pub z: i8,
    pub slow: bool,
}

impl ButtonState {
    pub closed spec fn pressed(&self) -> bool {
        self.was_pressed
    }

    pub closed spec fn rising(&self) -> bool {
        self.just_pressed
    }

    /// The state after an update to `pressed`.
    pub closed spec fn updated(self, pressed: bool) -> ButtonState {
        ButtonState { just_pressed: pressed && !self.was_pressed, was_pressed: pressed }
    }

    /// A released button.
    pub fn new() -> (r: Self)
        ensures
            !r.pressed(),
            !r.rising(),
    {
        Self { was_pressed: false, just_pressed: false }
    }

    /// The state after an update to `pressed`.
    fn next_state(self, pressed: bool) -> (r: ButtonState)
        ensures
            r == self.updated(pressed),
    {
        ButtonState { just_pressed: pressed && !self.was_pressed, was_pressed: pressed }
    }

    /// Updates state and return new just_pressed
    pub fn update_state(&mut self, pressed: bool) -> (r: bool)
        ensures
            r == (pressed && !old(self).pressed()),
            final(self).rising() == r,
            final(self).pressed() == pressed,
            *final(self) == old(self).updated(pressed),
    {
        self.just_pressed = pressed && !self.was_pressed;
        self.was_pressed = pressed;
        self.just_pressed
    }

    /// Whether the last update pressed the button.
    pub fn get_just_pressed(&self) -> (r: bool)
        ensures
            r == self.rising(),
    {
        self.just_pressed
    }

    /// Whether the button is held.
    pub fn get_was_pressed(&self) -> (r: bool)
        ensures
            r == self.pressed(),
    {
        self.was_pressed
    }

    /// get button_down and reset it (kinda like an Option::take() actually)
    pub fn consume_button_down(&mut self) -> (r: bool)
        ensures
            r == old(self).rising(),
            !final(self).rising(),
            final(self).pressed() == old(self).pressed(),
    {
        if self.just_pressed {
            self.just_pressed = false;
            true
        } else {
            false
        }
    }
}

impl ButtonState {
    /// An update records whether the button is held, and reports a press exactly when the
    /// button was released before.
    pub proof fn law_update(b: ButtonState, pressed: bool)
        ensures
            b.updated(pressed).pressed() == pressed,
            b.updated(pressed).rising() == (pressed && !b.pressed()),
    {
    }

    /// A press is reported once: the update that presses a released button reports it, and
    /// further updates while the button stays held do not.
    pub proof fn law_press_reported_once(b: ButtonState)
        ensures
            b.updated(false).updated(true).rising(),
            !b.updated(true).updated(true).rising(),
            !b.updated(false).rising(),
    {
    }
}

impl Default for ButtonState {
    fn default() -> (r: Self)
        ensures
            !r.pressed(),
            !r.rising(),
    {
        Self::new()
    }
}

/// Whether a key is held.
#[derive(PartialEq, Eq, Clone, Copy, Debug, Structural)]
pub enum KeyState {
    Pressed,
    Released,
}

impl Default for KeyState {
    fn default() -> (r: Self)
        ensures
            r == KeyState::Released,
    {
        KeyState::Released
    }
}

/// Input state is stored as a ButtonState (for rising edge detection)
#[derive(Clone, Copy, Debug)]
pub struct InputState {
    pub w: ButtonState,
    pub a: ButtonState,
    pub s: ButtonState,
    pub d: ButtonState,
    pub space: ButtonState,
    pub lshift: ButtonState,
    pub lctrl: ButtonState,
    pub q: ButtonState,
    pub r: ButtonState,
    pub i: ButtonState,
    pub o: ButtonState,
    pub p: ButtonState,
    pub escape: ButtonState,
    pub equal: ButtonState,
    pub lmb: ButtonState,
}

impl InputState {
    /// The button that follows `key`, if any.
    pub open spec fn button(&self, key: Key) -> Option<ButtonState> {
        match key {
            Key::KeyW => Some(self.w),
            Key::KeyA => Some(self.a),
            Key::KeyS => Some(self.s),
            Key::KeyD => Some(self.d),
            Key::Space => Some(self.space),
            Key::ShiftLeft => Some(self.lshift),
            Key::ControlLeft => Some(self.lctrl),
            Key::KeyQ => Some(self.q),
            Key::KeyR => Some(self.r),
            Key::KeyI => Some(self.i),
            Key::KeyO => Some(self.o),
            Key::KeyP => Some(self.p),
            Key::Escape => Some(self.escape),
            Key::Equal => Some(self.equal),
            Key::Other => None,
        }
    }

    /// Every button released.
    pub fn new() -> (r: Self)
        ensures
            forall|k: Key| #[trigger] r.button(k) matches Some(b) ==> !b.pressed() && !b.rising(),
            !r.lmb.pressed() && !r.lmb.rising(),
    {
        InputState {
            w: ButtonState::new(),
            a: ButtonState::new(),
            s: ButtonState::new(),
            d: ButtonState::new(),
            space: ButtonState::new(),
            lshift: ButtonState::new(),
            lctrl: ButtonState::new(),
            q: ButtonState::new(),
            r: ButtonState::new(),
            i: ButtonState::new(),
            o: ButtonState::new(),
            p: ButtonState::new(),
            escape: ButtonState::new(),
            equal: ButtonState::new(),
            lmb: ButtonState::new(),
        }
    }

    /// update key state
    pub fn handle_keyboard_input(&mut self, key_code: Key, pressed: bool)
        ensures
            final(self).w == (if key_code == Key::KeyW { old(self).w.updated(pressed) } else { old(self).w }),
            final(self).a == (if key_code == Key::KeyA { old(self).a.updated(pressed) } else { old(self).a }),
            final(self).s == (if key_code == Key::KeyS { old(self).s.updated(pressed) } else { old(self).s }),
            final(self).d == (if key_code == Key::KeyD { old(self).d.updated(pressed) } else { old(self).d }),
            final(self).space == (if key_code == Key::Space { old(self).space.updated(pressed) } else { old(self).space }),
            final(self).lshift == (if key_code == Key::ShiftLeft { old(self).lshift.updated(pressed) } else { old(self).lshift }),
            final(self).lctrl == (if key_code == Key::ControlLeft { old(self).lctrl.updated(pressed) } else { old(self).lctrl }),
            final(self).q == (if key_code == Key::KeyQ { old(self).q.updated(pressed) } else { old(self).q }),
            final(self).r == (if key_code == Key::KeyR { old(self).r.updated(pressed) } else { old(self).r }),
            final(self).i == (if key_code == Key::KeyI { old(self).i.updated(pressed) } else { old(self).i }),
            final(self).o == (if key_code == Key::KeyO { old(self).o.updated(pressed) } else { old(self).o }),
            final(self).p == (if key_code == Key::KeyP { old(self).p.updated(pressed) } else { old(self).p }),
            final(self).escape == (if key_code == Key::Escape { old(self).escape.updated(pressed) } else { old(self).escape }),
            final(self).equal == (if key_code == Key::Equal { old(self).equal.updated(pressed) } else { old(self).equal }),
            final(self).lmb == old(self).lmb,
    {
        match key_code {
            Key::KeyW => {
                self.w = self.w.next_state(pressed);
            },
            Key::KeyA => {
                self.a = self.a.next_state(pressed);
            },
            Key::KeyS => {
                self.s = self.s.next_state(pressed);
            },
            Key::KeyD => {
                self.d = self.d.next_state(pressed);
            },
            Key::Space => {
                self.space = self.space.next_state(pressed);
            },
            Key::ShiftLeft => {
                self.lshift = self.lshift.next_state(pressed);
            },
            Key::ControlLeft => {
                self.lctrl = self.lctrl.next_state(pressed);
            },
            Key::KeyQ => {
                self.q = self.q.next_state(pressed);
            },
            Key::KeyR => {
                self.r = self.r.next_state(pressed);
            },
            Key::KeyI => {
                self.i = self.i.next_state(pressed);
            },
            Key::KeyO => {
                self.o = self.o.next_state(pressed);
            },
            Key::KeyP => {
                self.p = self.p.next_state(pressed);
            },
            Key::Escape => {
                self.escape = self.escape.next_state(pressed);
            },
            Key::Equal => {
                self.equal = self.equal.next_state(pressed);
            },
            Key::Other => {},
        }
    }

    /// The direction the held keys ask for (FPS movement): W forward (-z) over S backwards,
    /// A left (-x) over D right, Space up over left Shift down; left Control slows down.
    pub fn move_intent(&self) -> (r: MoveIntent)
        ensures
            r.z == (if self.w.pressed() {
                -1i8
            } else if self.s.pressed() {
                1i8
            } else {
                0i8
            }),
            r.x == (if self.a.pressed() {
                -1i8
            } else if self.d.pressed() {
                1i8
            } else {
                0i8
            }),
            r.y == (if self.space.pressed() {
                1i8
            } else if self.lshift.pressed() {
                -1i8
            } else {
                0i8
            }),
            r.slow == self.lctrl.pressed(),
    {
        let z: i8 = if self.w.was_pressed {
            -1
        } else if self.s.was_pressed {
            1
        } else {
            0
        };
        let x: i8 = if self.a.was_pressed {
            -1
        } else if self.d.was_pressed {
            1
        } else {
            0
        };
        let y: i8 = if self.space.was_pressed {
            1
        } else if self.lshift.was_pressed {
            -1
        } else {
            0
        };
        MoveIntent { x, y, z, slow: self.lctrl.was_pressed }
    }
}

impl Default for InputState {
    fn default() -> (r: Self)
        ensures
            forall|k: Key| #[trigger] r.button(k) matches Some(b) ==> !b.pressed() && !b.rising(),
            !r.lmb.pressed() && !r.lmb.rising(),
    {
        Self::new()
    }
}

} // verus!
