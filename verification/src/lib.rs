//! OrbitKeys core library.
//!
//! The heart of the crate is a focus tracker: a state machine over two
//! compositor window protocols — a discovery protocol that announces windows
//! and reports their application identity, and a state protocol that reports
//! per-window state bits such as "activated". The two protocols number their
//! objects independently; the tracker maintains the live correlation between
//! the two identifier spaces and emits one notification per genuine focus
//! change. A smaller companion, the shortcut resolver, maps an application
//! identity to the path of a shortcut document through an exact-then-fuzzy
//! lookup over a normalized index.

pub mod focus_tracker;
pub mod key_format;
pub mod key_glyphs;
pub mod shortcut_resolver;
pub mod text;
pub mod ui_logic;
