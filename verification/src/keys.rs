//! Key presses as the terminal reports them, as plain values.
use vstd::prelude::*;

verus! {

/// The key itself.
#[derive(Debug, Clone, Copy, PartialEq, Eq, Structural)]
pub enum Key {
    Char(char),
    Enter,
    Esc,
    Tab,
    Backspace,
    Up,
    Down,
    Left,
    Right,
    PageUp,
    PageDown,
    Home,
    End,
    Delete,
    Other,
}

/// A key with the modifiers held down with it. `other` covers every modifier besides
/// control, shift and alt.
#[derive(Debug, Clone, Copy, PartialEq, Eq, Structural)]
pub struct KeyPress {
    pub key: Key,
    pub ctrl: bool,
    pub shift: bool,
    pub alt: bool,
    pub other: bool,
}

impl KeyPress {
    /// No modifier at all is held.
    pub open spec fn plain_spec(&self) -> bool {
        !self.ctrl && !self.shift && !self.alt && !self.other
    }

    /// Shift alone is held.
    pub open spec fn shift_only_spec(&self) -> bool {
        !self.ctrl && self.shift && !self.alt && !self.other
    }

    /// Control alone is held.
    pub open spec fn ctrl_only_spec(&self) -> bool {
        self.ctrl && !self.shift && !self.alt && !self.other
    }

    #[verifier::when_used_as_spec(plain_spec)]
    pub fn plain(&self) -> (r: bool)
        ensures
            r == self.plain_spec(),
    {
        !self.ctrl && !self.shift && !self.alt && !self.other
    }

    #[verifier::when_used_as_spec(shift_only_spec)]
    pub fn shift_only(&self) -> (r: bool)
        ensures
            r == self.shift_only_spec(),
    {
        !self.ctrl && self.shift && !self.alt && !self.other
    }

    #[verifier::when_used_as_spec(ctrl_only_spec)]
    pub fn ctrl_only(&self) -> (r: bool)
        ensures
            r == self.ctrl_only_spec(),
    {
        self.ctrl && !self.shift && !self.alt && !self.other
    }
}

} // verus!
