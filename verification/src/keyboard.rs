//! Keyboard state: per-key down/up now and at the previous frame, giving the
//! four queries down, up, just-pressed and just-released.
//!
//! Keys are identified by their scancode index; the table covers
//! [`KEY_COUNT`] codes, which is what the window layer's scancodes fit in.

use vstd::prelude::*;

verus! {

/// How many key codes the table tracks.
pub const KEY_COUNT: usize = 512;

/// One key: whether it is held now and whether it was held when the previous
/// frame ended.
#[derive(Clone, Copy, Debug, PartialEq, Eq, Structural)]
pub struct KeyState {
    pub was_down: bool,
    pub is_down: bool,
}

impl KeyState {
    pub fn new() -> (k: KeyState)
        ensures
            k == (KeyState { was_down: false, is_down: false }),
    {
        KeyState { was_down: false, is_down: false }
    }
}

/// The whole keyboard: one state per key code.
pub struct Keyboard {
    pub keys: Vec<KeyState>,
}

impl Keyboard {
    /// The table always covers exactly the key-code range.
    pub open spec fn wf(self) -> bool {
        self.keys@.len() == KEY_COUNT
    }

    pub fn new() -> (k: Keyboard)
        ensures
            k.wf(),
            forall|i: int|
                0 <= i < KEY_COUNT ==> k.keys@[i] == (KeyState {
                    was_down: false,
                    is_down: false,
                }),
    {
        let mut keys: Vec<KeyState> = Vec::new();
        let mut i: usize = 0;
        while i < KEY_COUNT
            invariant
                i <= KEY_COUNT,
                keys@.len() == i,
                forall|j: int|
                    0 <= j < i ==> keys@[j] == (KeyState { was_down: false, is_down: false }),
            decreases KEY_COUNT - i,
        {
            keys.push(KeyState::new());
            i = i + 1;
        }
        Keyboard { keys }
    }

    /// Whether the key is held this frame.
    pub fn down(&self, key: usize) -> (r: bool)
        requires
            self.wf(),
            key < KEY_COUNT,
        ensures
            r == self.keys@[key as int].is_down,
    {
        self.keys[key].is_down
    }

    /// Whether the key is released this frame.
    pub fn up(&self, key: usize) -> (r: bool)
        requires
            self.wf(),
            key < KEY_COUNT,
        ensures
            r == !self.keys@[key as int].is_down,
    {
        !self.keys[key].is_down
    }

    /// Whether the key went down this frame (up before, down now).
    pub fn press(&self, key: usize) -> (r: bool)
        requires
            self.wf(),
            key < KEY_COUNT,
        ensures
            r == (!self.keys@[key as int].was_down && self.keys@[key as int].is_down),
    {
        !self.keys[key].was_down && self.keys[key].is_down
    }

    /// Whether the key came up this frame (down before, up now).
    pub fn pressed(&self, key: usize) -> (r: bool)
        requires
            self.wf(),
            key < KEY_COUNT,
        ensures
            r == (self.keys@[key as int].was_down && !self.keys@[key as int].is_down),
    {
        self.keys[key].was_down && !self.keys[key].is_down
    }

    /// Records that the key is now held.
    pub fn set_down(&mut self, key: usize)
        requires
            old(self).wf(),
            key < KEY_COUNT,
        ensures
            final(self).wf(),
            final(self).keys@ == old(self).keys@.update(
                key as int,
                KeyState { is_down: true, ..old(self).keys@[key as int] },
            ),
    {
        let was = self.keys[key].was_down;
        let updated = KeyState { was_down: was, is_down: true };
        self.keys[key] = updated;
    }

    /// Records that the key is now released.
    pub fn set_up(&mut self, key: usize)
        requires
            old(self).wf(),
            key < KEY_COUNT,
        ensures
            final(self).wf(),
            final(self).keys@ == old(self).keys@.update(
                key as int,
                KeyState { is_down: false, ..old(self).keys@[key as int] },
            ),
    {
        let was = self.keys[key].was_down;
        let updated = KeyState { was_down: was, is_down: false };
        self.keys[key] = updated;
    }

    /// Rolls the frame over: what is held now becomes what was held.
    pub fn update(&mut self)
        requires
            old(self).wf(),
        ensures
            final(self).wf(),
            forall|i: int|
                0 <= i < KEY_COUNT ==> final(self).keys@[i] == (KeyState {
                    was_down: old(self).keys@[i].is_down,
                    is_down: old(self).keys@[i].is_down,
                }),
    {
        let mut i: usize = 0;
        while i < self.keys.len()
            invariant
                self.keys@.len() == KEY_COUNT,
                i <= KEY_COUNT,
                forall|j: int|
                    0 <= j < i ==> self.keys@[j] == (KeyState {
                        was_down: old(self).keys@[j].is_down,
                        is_down: old(self).keys@[j].is_down,
                    }),
                forall|j: int| i <= j < KEY_COUNT ==> self.keys@[j] == old(self).keys@[j],
            decreases KEY_COUNT - i,
        {
            let now = self.keys[i].is_down;
            let updated = KeyState { was_down: now, is_down: now };
            self.keys[i] = updated;
            i = i + 1;
        }
    }
}

} // verus!
