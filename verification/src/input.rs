//! Terminal input and screen geometry as plain values.
//!
//! The event loop reads keys and mouse events from the terminal and hands
//! them to the library in these shapes; every decision taken on them is made
//! here, where it can be checked.

use vstd::prelude::*;

verus! {

/// A key, as the terminal reports it.
#[derive(Debug, Clone, Copy, PartialEq, Eq, Structural)]
pub enum KeyCode {
    Backspace,
    Enter,
    Left,
    Right,
    Up,
    Down,
    Home,
    End,
    PageUp,
    PageDown,
    Tab,
    BackTab,
    Delete,
    Insert,
    F(u8),
    Char(char),
    Null,
    Esc,
    /// Anything else the terminal can send (media keys, lone modifiers).
    Other,
}

/// One key event: which key, whether Control was held, and whether this is
/// a press (terminals that report releases send those too).
#[derive(Debug, Clone, Copy, PartialEq, Eq, Structural)]
pub struct KeyEvent {
    pub code: KeyCode,
    pub control: bool,
    pub press: bool,
}

impl KeyEvent {
    /// A plain press of `code`, no modifiers.
    pub fn new(code: KeyCode) -> (k: KeyEvent)
        ensures
            k == (KeyEvent { code, control: false, press: true }),
    {
        KeyEvent { code, control: false, press: true }
    }
}

#[derive(Debug, Clone, Copy, PartialEq, Eq, Structural)]
pub enum MouseButton {
    Left,
    Right,
    Middle,
}

#[derive(Debug, Clone, Copy, PartialEq, Eq, Structural)]
pub enum MouseKind {
    Down(MouseButton),
    Up(MouseButton),
    Drag(MouseButton),
    Moved,
    ScrollDown,
    ScrollUp,
    ScrollLeft,
    ScrollRight,
}

/// A mouse event at a screen cell.
#[derive(Debug, Clone, Copy, PartialEq, Eq, Structural)]
pub struct MouseEvent {
    pub kind: MouseKind,
    pub column: u16,
    pub row: u16,
}

/// Anything the terminal can report.
#[derive(Debug, Clone, Copy, PartialEq, Eq, Structural)]
pub enum Event {
    Key(KeyEvent),
    Mouse(MouseEvent),
    Resize(u16, u16),
    /// Focus changes, pastes and the like: nothing here reacts to them.
    Other,
}

/// A rectangle of screen cells.
#[derive(Debug, Clone, Copy, Default, PartialEq, Eq, Structural)]
pub struct Rect {
    pub x: u16,
    pub y: u16,
    pub width: u16,
    pub height: u16,
}

impl Rect {
    pub fn new(x: u16, y: u16, width: u16, height: u16) -> (r: Rect)
        ensures
            r == (Rect { x, y, width, height }),
    {
        Rect { x, y, width, height }
    }

    /// Whether the rectangle lies on a `u16` screen: its far edges are
    /// addressable.
    pub open spec fn fits(self) -> bool {
        &&& self.x + self.width <= u16::MAX
        &&& self.y + self.height <= u16::MAX
    }

    /// Whether the cell at `col`, `row` lies inside.
    pub open spec fn holds(self, col: int, row: int) -> bool {
        &&& self.width > 0
        &&& self.height > 0
        &&& self.x <= col < self.x + self.width
        &&& self.y <= row < self.y + self.height
    }
}

} // verus!
