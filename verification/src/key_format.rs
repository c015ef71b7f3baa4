//! Rendering of raw key-combination strings into glyph strings.
//!
//! A raw string such as `"Ctrl+Shift+Tab"` is rewritten token by token into
//! display symbols. The rewrite is an ordered chain of textual replacements;
//! order matters — modifiers with a trailing plus go first, the plural
//! `Arrows` before the singular `Arrow`, and bare modifier names last.

use vstd::prelude::*;

use crate::key_glyphs::KeyGlyph;
use crate::text::chars_string;
use crate::text::replace_chars;
use crate::text::replace_seq;
use crate::text::str_chars;

verus! {

/// The rewrite chain applied to a raw key string, one replacement at a
/// time, in order.
pub open spec fn pretty_of(s: Seq<char>) -> Seq<char> {
    let s = replace_seq(s, "Ctrl+"@, KeyGlyph::Ctrl.symbol());
    let s = replace_seq(s, "Shift+"@, KeyGlyph::Shift.symbol());
    let s = replace_seq(s, "Alt+"@, KeyGlyph::Alt.symbol());
    let s = replace_seq(s, "Super+"@, KeyGlyph::Super.symbol());
    let s = replace_seq(s, "Tab"@, KeyGlyph::Tab.symbol());
    let s = replace_seq(s, "Enter"@, KeyGlyph::Enter.symbol());
    let s = replace_seq(s, "Esc"@, KeyGlyph::Escape.symbol());
    let s = replace_seq(s, "Escape"@, KeyGlyph::Escape.symbol());
    let s = replace_seq(s, "Backspace"@, KeyGlyph::Backspace.symbol());
    let s = replace_seq(s, "Arrows"@, KeyGlyph::Arrows.symbol());
    let s = replace_seq(s, "Arrow"@, KeyGlyph::Arrows.symbol());
    let s = replace_seq(s, "Left"@, KeyGlyph::Left.symbol());
    let s = replace_seq(s, "Right"@, KeyGlyph::Right.symbol());
    let s = replace_seq(s, "Up"@, KeyGlyph::Up.symbol());
    let s = replace_seq(s, "Down"@, KeyGlyph::Down.symbol());
    let s = replace_seq(s, "Plus"@, KeyGlyph::Plus.symbol());
    let s = replace_seq(s, "Minus"@, KeyGlyph::Minus.symbol());
    let s = replace_seq(s, "Space"@, KeyGlyph::Space.symbol());
    let s = replace_seq(s, "Ctrl"@, KeyGlyph::Ctrl.symbol());
    let s = replace_seq(s, "Shift"@, KeyGlyph::Shift.symbol());
    let s = replace_seq(s, "Alt"@, KeyGlyph::Alt.symbol());
    let s = replace_seq(s, "Super"@, KeyGlyph::Super.symbol());
    s
}

/// Applies one replacement rule: the token by the glyph's symbol.
fn apply_rule(cur: Vec<char>, token: &str, glyph: KeyGlyph) -> (r: Vec<char>)
    requires
        token@.len() > 0,
    ensures
        r@ == replace_seq(cur@, token@, glyph.symbol()),
{
    let pat = str_chars(token);
    let rep = str_chars(glyph.as_str());
    replace_chars(&cur, &pat, &rep)
}

/// Rewrites a raw key-combination string into its glyph form.
pub fn pretty_keys(raw: &str) -> (r: String)
    ensures
        r@ == pretty_of(raw@),
{
    proof {
        reveal_strlit("Ctrl+");
        reveal_strlit("Shift+");
        reveal_strlit("Alt+");
        reveal_strlit("Super+");
        reveal_strlit("Tab");
        reveal_strlit("Enter");
        reveal_strlit("Esc");
        reveal_strlit("Escape");
        reveal_strlit("Backspace");
        reveal_strlit("Arrows");
        reveal_strlit("Arrow");
        reveal_strlit("Left");
        reveal_strlit("Right");
        reveal_strlit("Up");
        reveal_strlit("Down");
        reveal_strlit("Plus");
        reveal_strlit("Minus");
        reveal_strlit("Space");
        reveal_strlit("Ctrl");
        reveal_strlit("Shift");
        reveal_strlit("Alt");
        reveal_strlit("Super");
    }
    let c = str_chars(raw);
    let c = apply_rule(c, "Ctrl+", KeyGlyph::Ctrl);
    let c = apply_rule(c, "Shift+", KeyGlyph::Shift);
    let c = apply_rule(c, "Alt+", KeyGlyph::Alt);
    let c = apply_rule(c, "Super+", KeyGlyph::Super);
    let c = apply_rule(c, "Tab", KeyGlyph::Tab);
    let c = apply_rule(c, "Enter", KeyGlyph::Enter);
    let c = apply_rule(c, "Esc", KeyGlyph::Escape);
    let c = apply_rule(c, "Escape", KeyGlyph::Escape);
    let c = apply_rule(c, "Backspace", KeyGlyph::Backspace);
    let c = apply_rule(c, "Arrows", KeyGlyph::Arrows);
    let c = apply_rule(c, "Arrow", KeyGlyph::Arrows);
    let c = apply_rule(c, "Left", KeyGlyph::Left);
    let c = apply_rule(c, "Right", KeyGlyph::Right);
    let c = apply_rule(c, "Up", KeyGlyph::Up);
    let c = apply_rule(c, "Down", KeyGlyph::Down);
    let c = apply_rule(c, "Plus", KeyGlyph::Plus);
    let c = apply_rule(c, "Minus", KeyGlyph::Minus);
    let c = apply_rule(c, "Space", KeyGlyph::Space);
    let c = apply_rule(c, "Ctrl", KeyGlyph::Ctrl);
    let c = apply_rule(c, "Shift", KeyGlyph::Shift);
    let c = apply_rule(c, "Alt", KeyGlyph::Alt);
    let c = apply_rule(c, "Super", KeyGlyph::Super);
    chars_string(&c)
}

} // verus!
