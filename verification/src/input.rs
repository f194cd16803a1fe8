//! Keyboard and mouse-button state, frame by frame.
//!
//! Key codes and mouse buttons are named by integers that the caller
//! chooses. The operating system may report a held key again and again
//! (key repeat) before it reports the release, so a key stays held until
//! its release arrives, and "just pressed" fires only on the transition.
use vstd::prelude::*;
use std::collections::HashSet;
use crate::search::contains_u32;

verus! {

broadcast use vstd::std_specs::hash::group_hash_axioms;

/// A key code.
pub type KeyCode = u32;

/// A mouse button.
pub type MouseButton = u32;

/// What is known of one kind of button (keys, or mouse buttons).
pub struct ButtonsView {
    /// The buttons down now.
    pub held: Set<u32>,
    /// The buttons that went down during this frame, in order.
    pub pressed: Seq<u32>,
    /// The buttons that were released during this frame, in order.
    pub released: Seq<u32>,
}

/// No button down, no event this frame.
pub open spec fn spec_idle() -> ButtonsView {
    ButtonsView { held: Set::empty(), pressed: Seq::empty(), released: Seq::empty() }
}

/// `s` after a press of `b`: a button already down is left as it is.
pub open spec fn spec_press(s: ButtonsView, b: u32) -> ButtonsView {
    if s.held.contains(b) {
        s
    } else {
        ButtonsView { held: s.held.insert(b), pressed: s.pressed.push(b), released: s.released }
    }
}

/// `s` after a release of `b`.
pub open spec fn spec_release(s: ButtonsView, b: u32) -> ButtonsView {
    ButtonsView { held: s.held.remove(b), pressed: s.pressed, released: s.released.push(b) }
}

/// `s` after an event on `b`, a press when `is_pressed`, else a release.
pub open spec fn spec_handle(s: ButtonsView, b: u32, is_pressed: bool) -> ButtonsView {
    if is_pressed {
        spec_press(s, b)
    } else {
        spec_release(s, b)
    }
}

/// `s` at the start of the next frame: the buttons stay down, this frame's
/// events are forgotten.
pub open spec fn spec_flush(s: ButtonsView) -> ButtonsView {
    ButtonsView { held: s.held, pressed: Seq::empty(), released: Seq::empty() }
}

/// The state of one kind of button.
struct Buttons {
    held: HashSet<u32>,
    pressed: Vec<u32>,
    released: Vec<u32>,
}

impl View for Buttons {
    type V = ButtonsView;

    closed spec fn view(&self) -> ButtonsView {
        ButtonsView { held: self.held@, pressed: self.pressed@, released: self.released@ }
    }
}

impl Buttons {
    fn new() -> (r: Self)
        ensures
            r@ == spec_idle(),
    {
        Buttons { held: HashSet::new(), pressed: Vec::new(), released: Vec::new() }
    }

    fn handle(&mut self, b: u32, is_pressed: bool)
        ensures
            final(self)@ == spec_handle(old(self)@, b, is_pressed),
    {
        let ghost s = self@;
        if is_pressed {
            if self.held.insert(b) {
                self.pressed.push(b);
            } else {
                assert(self.held@ =~= s.held);
            }
        } else {
            self.held.remove(&b);
            self.released.push(b);
        }
    }

    fn flush(&mut self)
        ensures
            final(self)@ == spec_flush(old(self)@),
    {
        self.pressed.clear();
        self.released.clear();
    }
}

/// Keyboard and mouse-button state.
pub struct InputHandler {
    keys: Buttons,
    mouse: Buttons,
}

impl InputHandler {
    /// The keys.
    pub closed spec fn keys(&self) -> ButtonsView {
        self.keys@
    }

    /// The mouse buttons.
    pub closed spec fn mouse_buttons(&self) -> ButtonsView {
        self.mouse@
    }

    /// No key or button down, no event this frame.
    pub fn new() -> (r: Self)
        ensures
            r.keys() == spec_idle(),
            r.mouse_buttons() == spec_idle(),
    {
        InputHandler { keys: Buttons::new(), mouse: Buttons::new() }
    }

    /// Records that key `code` went down (`is_pressed`) or up.
    pub fn handle_key(&mut self, code: KeyCode, is_pressed: bool)
        ensures
            final(self).keys() == spec_handle(old(self).keys(), code, is_pressed),
            final(self).mouse_buttons() == old(self).mouse_buttons(),
    {
        self.keys.handle(code, is_pressed);
    }

    /// Records that mouse button `button` went down (`is_pressed`) or up.
    pub fn handle_mouse_key(&mut self, button: MouseButton, is_pressed: bool)
        ensures
            final(self).mouse_buttons() == spec_handle(old(self).mouse_buttons(), button, is_pressed),
            final(self).keys() == old(self).keys(),
    {
        self.mouse.handle(button, is_pressed);
    }

    /// Whether key `code` is down.
    pub fn is_key_held(&self, code: KeyCode) -> (r: bool)
        ensures
            r == self.keys().held.contains(code),
    {
        self.keys.held.contains(&code)
    }

    /// Whether key `code` went from up to down during this frame.
    pub fn was_key_just_pressed(&self, code: KeyCode) -> (r: bool)
        ensures
            r == self.keys().pressed.contains(code),
    {
        contains_u32(&self.keys.pressed, code)
    }

    /// Whether key `code` was released during this frame.
    pub fn was_key_released(&self, code: KeyCode) -> (r: bool)
        ensures
            r == self.keys().released.contains(code),
    {
        contains_u32(&self.keys.released, code)
    }

    /// Ends the frame: what is down stays down, this frame's events are
    /// forgotten. Called once per frame, after the game logic has read them.
    pub fn flush(&mut self)
        ensures
            final(self).keys() == spec_flush(old(self).keys()),
            final(self).mouse_buttons() == spec_flush(old(self).mouse_buttons()),
    {
        self.keys.flush();
        self.mouse.flush();
    }
}

impl Default for InputHandler {
    fn default() -> (r: Self)
        ensures
            r.keys() == spec_idle(),
            r.mouse_buttons() == spec_idle(),
    {
        InputHandler::new()
    }
}

} // verus!
