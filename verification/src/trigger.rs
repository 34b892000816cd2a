//! The signal that asks for a new maze.

use vstd::prelude::*;

verus! {

/// A key of the keyboard, as far as the generator tells keys apart.
#[derive(Clone, Copy, Debug, PartialEq, Eq, Structural)]
pub enum Key {
    KeyR,
    Other,
}

/// What happened to a key.
#[derive(Clone, Copy, Debug, PartialEq, Eq, Structural)]
pub enum KeyState {
    Pressed,
    Released,
}

/// A keyboard event.
#[derive(Clone, Copy, Debug, PartialEq, Eq, Structural)]
pub struct KeyEvent {
    pub key: Key,
    pub state: KeyState,
}

impl KeyEvent {
    /// The event that asks for a new maze: the R key going down.
    pub open spec fn is_restart(self) -> bool {
        self.key == Key::KeyR && self.state == KeyState::Pressed
    }
}

/// Whether one of the events asks for a new maze.
pub fn should_restart(events: &Vec<KeyEvent>) -> (restart: bool)
    ensures
        restart == exists|i: int| 0 <= i < events@.len() && (#[trigger] events@[i]).is_restart(),
{
    let mut i: usize = 0;
    while i < events.len()
        invariant
            i <= events.len(),
            forall|j: int| 0 <= j < i ==> !(#[trigger] events@[j]).is_restart(),
        decreases events.len() - i,
    {
        if events[i].key == Key::KeyR && events[i].state == KeyState::Pressed {
            return true;
        }
        i += 1;
    }
    false
}

} // verus!
