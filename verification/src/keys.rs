use vstd::prelude::*;

verus! {

/// A key as the terminal reports it, reduced to what the dialogs react to.
#[derive(Clone, Copy, PartialEq, Eq, Debug, Structural)]
pub enum Key {
    Char(char),
    Enter,
    Tab,
    Up,
    Down,
    Left,
    Right,
    Esc,
    Other,
}

/// A key event: the key, the Ctrl and Shift modifiers, and whether it is a
/// press (repeats and releases are ignored).
#[derive(Clone, Copy, PartialEq, Eq, Debug, Structural)]
pub struct KeyPress {
    pub code: Key,
    pub ctrl: bool,
    pub shift: bool,
    pub press: bool,
}

} // verus!
