//! The key-glyph table: each key token maps to a display symbol and a text
//! label.

use vstd::prelude::*;

verus! {

/// One renderable key token.
#[derive(Debug, Clone, Copy, PartialEq, Eq)]
pub enum KeyGlyph {
    Ctrl,
    Shift,
    Alt,
    Super,
    Tab,
    Enter,
    Escape,
    Backspace,
    Left,
    Right,
    Up,
    Down,
    Arrows,
    Plus,
    Minus,
    Space,
}

impl KeyGlyph {
    /// The display symbol of this key token.
    pub open spec fn symbol(self) -> Seq<char> {
        match self {
            KeyGlyph::Ctrl => "\u{2303}"@,
            KeyGlyph::Shift => "\u{21e7}"@,
            KeyGlyph::Alt => "\u{2387}"@,
            KeyGlyph::Super => "\u{2318}"@,
            KeyGlyph::Tab => "\u{21e5}"@,
            KeyGlyph::Enter => "\u{21b5}"@,
            KeyGlyph::Escape => "\u{238b}"@,
            KeyGlyph::Backspace => "\u{232b}"@,
            KeyGlyph::Left => "\u{2190}"@,
            KeyGlyph::Right => "\u{2192}"@,
            KeyGlyph::Up => "\u{2191}"@,
            KeyGlyph::Down => "\u{2193}"@,
            KeyGlyph::Arrows => "\u{2195}\u{2194}"@,
            KeyGlyph::Plus => "+"@,
            KeyGlyph::Minus => "\u{2212}"@,
            KeyGlyph::Space => "\u{2423}"@,
        }
    }

    /// The text label of this key token.
    pub open spec fn label_text(self) -> Seq<char> {
        match self {
            KeyGlyph::Ctrl => "Ctrl"@,
            KeyGlyph::Shift => "Shift"@,
            KeyGlyph::Alt => "Alt"@,
            KeyGlyph::Super => "Super"@,
            KeyGlyph::Tab => "Tab"@,
            KeyGlyph::Enter => "Enter"@,
            KeyGlyph::Escape => "Esc"@,
            KeyGlyph::Backspace => "Backspace"@,
            KeyGlyph::Left => "Left"@,
            KeyGlyph::Right => "Right"@,
            KeyGlyph::Up => "Up"@,
            KeyGlyph::Down => "Down"@,
            KeyGlyph::Arrows => "Arrows"@,
            KeyGlyph::Plus => "Plus"@,
            KeyGlyph::Minus => "Minus"@,
            KeyGlyph::Space => "Space"@,
        }
    }

    /// Maps the token to its visual symbol.
    pub fn as_str(self) -> (r: &'static str)
        ensures
            r@ == self.symbol(),
    {
        match self {
            KeyGlyph::Ctrl => "\u{2303}",
            KeyGlyph::Shift => "\u{21e7}",
            KeyGlyph::Alt => "\u{2387}",
            KeyGlyph::Super => "\u{2318}",
            KeyGlyph::Tab => "\u{21e5}",
            KeyGlyph::Enter => "\u{21b5}",
            KeyGlyph::Escape => "\u{238b}",
            KeyGlyph::Backspace => "\u{232b}",
            KeyGlyph::Left => "\u{2190}",
            KeyGlyph::Right => "\u{2192}",
            KeyGlyph::Up => "\u{2191}",
            KeyGlyph::Down => "\u{2193}",
            KeyGlyph::Arrows => "\u{2195}\u{2194}",
            KeyGlyph::Plus => "+",
            KeyGlyph::Minus => "\u{2212}",
            KeyGlyph::Space => "\u{2423}",
        }
    }

    /// Maps the token to its text label.
    pub fn label(self) -> (r: &'static str)
        ensures
            r@ == self.label_text(),
    {
        match self {
            KeyGlyph::Ctrl => "Ctrl",
            KeyGlyph::Shift => "Shift",
            KeyGlyph::Alt => "Alt",
            KeyGlyph::Super => "Super",
            KeyGlyph::Tab => "Tab",
            KeyGlyph::Enter => "Enter",
            KeyGlyph::Escape => "Esc",
            KeyGlyph::Backspace => "Backspace",
            KeyGlyph::Left => "Left",
            KeyGlyph::Right => "Right",
            KeyGlyph::Up => "Up",
            KeyGlyph::Down => "Down",
            KeyGlyph::Arrows => "Arrows",
            KeyGlyph::Plus => "Plus",
            KeyGlyph::Minus => "Minus",
            KeyGlyph::Space => "Space",
        }
    }
}

} // verus!
