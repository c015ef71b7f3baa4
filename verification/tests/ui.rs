use orbitkeys::key_format::pretty_keys;
use orbitkeys::key_glyphs::KeyGlyph;
use orbitkeys::ui_logic::ShortcutEntry;
use orbitkeys::ui_logic::ellipsize;
use orbitkeys::ui_logic::filter_items;
use orbitkeys::ui_logic::group_items;
use orbitkeys::ui_logic::grouped_columns;
use orbitkeys::ui_logic::next_focus_target;
use orbitkeys::ui_logic::no_wrap_spaces;
use orbitkeys::ui_logic::shortcuts_to_items;

fn item(k: &str, d: &str, c: &str) -> (String, String, String) {
    (k.to_string(), d.to_string(), c.to_string())
}

#[test]
fn glyph_symbols() {
    assert_eq!(KeyGlyph::Ctrl.as_str(), "\u{2303}");
    assert_eq!(KeyGlyph::Super.as_str(), "\u{2318}");
    assert_eq!(KeyGlyph::Arrows.as_str(), "\u{2195}\u{2194}");
    assert_eq!(KeyGlyph::Space.as_str(), "\u{2423}");
}

#[test]
fn glyph_labels() {
    assert_eq!(KeyGlyph::Ctrl.label(), "Ctrl");
    assert_eq!(KeyGlyph::Escape.label(), "Esc");
    assert_eq!(KeyGlyph::Backspace.label(), "Backspace");
}

#[test]
fn pretty_keys_rewrites_modifier_chains() {
    assert_eq!(pretty_keys("Ctrl+Shift+Tab"), "\u{2303}\u{21e7}\u{21e5}");
    assert_eq!(pretty_keys("Super+Enter"), "\u{2318}\u{21b5}");
}

#[test]
fn pretty_keys_rewrites_standalone_tokens() {
    assert_eq!(pretty_keys("Left"), "\u{2190}");
    assert_eq!(pretty_keys("Arrows"), "\u{2195}\u{2194}");
    assert_eq!(pretty_keys("Arrow"), "\u{2195}\u{2194}");
    assert_eq!(pretty_keys("Space"), "\u{2423}");
}

#[test]
fn pretty_keys_rewrites_bare_modifiers_last() {
    assert_eq!(pretty_keys("Ctrl"), "\u{2303}");
    assert_eq!(pretty_keys("Shift"), "\u{21e7}");
}

#[test]
fn pretty_keys_leaves_unknown_text_alone() {
    assert_eq!(pretty_keys("F5"), "F5");
    assert_eq!(pretty_keys(""), "");
}

#[test]
fn pretty_keys_esc_rule_runs_before_escape() {
    // "Esc" is replaced first, so the longer word loses its prefix
    assert_eq!(pretty_keys("Esc"), "\u{238b}");
    assert_eq!(pretty_keys("Escape"), "\u{238b}ape");
}

#[test]
fn ellipsize_keeps_short_text() {
    assert_eq!(ellipsize("hello", 10), "hello");
    assert_eq!(ellipsize("  hi  ", 10), "hi");
}

#[test]
fn ellipsize_truncates_with_ellipsis() {
    assert_eq!(ellipsize("hello world", 5), "hell\u{2026}");
    assert_eq!(ellipsize("abcdef", 6), "abcdef");
    assert_eq!(ellipsize("abcdefg", 6), "abcde\u{2026}");
}

#[test]
fn ellipsize_zero_budget_is_empty() {
    assert_eq!(ellipsize("anything", 0), "");
}

#[test]
fn no_wrap_replaces_spaces() {
    assert_eq!(no_wrap_spaces("a b c"), "a\u{a0}b\u{a0}c");
    assert_eq!(no_wrap_spaces("none"), "none");
}

#[test]
fn empty_search_keeps_everything() {
    let items = vec![item("Ctrl+C", "Copy", "Edit"), item("Ctrl+V", "Paste", "Edit")];
    let r = filter_items(&items, "   ");
    assert_eq!(r.len(), 2);
}

#[test]
fn search_matches_any_field_case_insensitively() {
    let items = vec![
        item("Ctrl+C", "Copy", "Edit"),
        item("Ctrl+T", "New tab", "Tabs"),
        item("F11", "Fullscreen", "View"),
    ];
    let by_keys = filter_items(&items, "ctrl");
    assert_eq!(by_keys.len(), 2);
    let by_desc = filter_items(&items, "COPY");
    assert_eq!(by_desc.len(), 1);
    assert_eq!(by_desc[0].1, "Copy");
    let by_cat = filter_items(&items, "view");
    assert_eq!(by_cat.len(), 1);
    assert_eq!(by_cat[0].0, "F11");
    let none = filter_items(&items, "zzz");
    assert_eq!(none.len(), 0);
}

#[test]
fn entries_get_default_category() {
    let entries = vec![
        ShortcutEntry {
            keys: "Ctrl+C".to_string(),
            desc: "Copy".to_string(),
            category: Some("Edit".to_string()),
        },
        ShortcutEntry {
            keys: "F1".to_string(),
            desc: "Help".to_string(),
            category: None,
        },
    ];
    let items = shortcuts_to_items(entries);
    assert_eq!(items[0], item("Ctrl+C", "Copy", "Edit"));
    assert_eq!(items[1], item("F1", "Help", "General"));
}

#[test]
fn focus_target_accepts_a_new_identity() {
    let r = next_focus_target(&" firefox ".to_string(), "xyz.fonzi.orbitkeys", &None);
    assert_eq!(r, Some("firefox".to_string()));
}

#[test]
fn focus_target_ignores_own_window_and_placeholder() {
    let own = "xyz.fonzi.orbitkeys";
    assert_eq!(next_focus_target(&own.to_string(), own, &None), None);
    assert_eq!(next_focus_target(&"unknown".to_string(), own, &None), None);
    assert_eq!(next_focus_target(&"   ".to_string(), own, &None), None);
}

#[test]
fn focus_target_ignores_repeat_of_current_target() {
    let last = Some("firefox".to_string());
    assert_eq!(next_focus_target(&"firefox".to_string(), "own", &last), None);
    assert_eq!(
        next_focus_target(&"editor".to_string(), "own", &last),
        Some("editor".to_string())
    );
}

#[test]
fn grouping_sorts_categories_and_keeps_item_order() {
    let items = vec![
        item("Ctrl+T", "New tab", "Tabs"),
        item("Ctrl+C", "Copy", "Edit"),
        item("Ctrl+W", "Close tab", "Tabs"),
        item("F1", "Help", "General"),
    ];
    let groups = group_items(&items);
    assert_eq!(groups.len(), 3);
    assert_eq!(groups[0].0, "Edit");
    assert_eq!(groups[1].0, "General");
    assert_eq!(groups[2].0, "Tabs");
    assert_eq!(
        groups[2].1,
        vec![
            ("Ctrl+T".to_string(), "New tab".to_string()),
            ("Ctrl+W".to_string(), "Close tab".to_string())
        ]
    );
}

#[test]
fn columns_are_distributed_round_robin() {
    let items = vec![
        item("1", "x", "A"),
        item("2", "x", "B"),
        item("3", "x", "C"),
        item("4", "x", "D"),
        item("5", "x", "E"),
    ];
    let groups = group_items(&items);
    let cols = grouped_columns(&groups, 2);
    assert_eq!(cols.len(), 2);
    let names0: Vec<&str> = cols[0].iter().map(|g| g.0.as_str()).collect();
    let names1: Vec<&str> = cols[1].iter().map(|g| g.0.as_str()).collect();
    assert_eq!(names0, vec!["A", "C", "E"]);
    assert_eq!(names1, vec!["B", "D"]);
}

#[test]
fn more_columns_than_groups_leaves_empty_columns() {
    let items = vec![item("1", "x", "A")];
    let groups = group_items(&items);
    let cols = grouped_columns(&groups, 5);
    assert_eq!(cols.len(), 5);
    assert_eq!(cols[0].len(), 1);
    assert!(cols[1].is_empty() && cols[4].is_empty());
}
