use orbitkeys::shortcut_resolver::DocMeta;
use orbitkeys::shortcut_resolver::DocumentRecord;
use orbitkeys::shortcut_resolver::ShortcutResolver;

fn plain_doc(stem: &str, path: &str) -> DocumentRecord {
    DocumentRecord {
        stem: stem.to_string(),
        path: path.to_string(),
        meta: None,
    }
}

fn doc_with_ids(stem: &str, path: &str, app_id: Option<&str>, aliases: &[&str]) -> DocumentRecord {
    DocumentRecord {
        stem: stem.to_string(),
        path: path.to_string(),
        meta: Some(DocMeta {
            app_id: app_id.map(|s| s.to_string()),
            app_ids: aliases.iter().map(|s| s.to_string()).collect(),
        }),
    }
}

#[test]
fn exact_match_wins_over_fuzzy() {
    let docs = vec![plain_doc("firefox", "A"), plain_doc("fire", "B")];
    let r = ShortcutResolver::new(&docs);
    assert_eq!(r.resolve("firefox"), Some("A".to_string()));
}

#[test]
fn fuzzy_tie_break_takes_sorted_first_key() {
    let docs = vec![plain_doc("code", "A"), plain_doc("vscode", "B")];
    let r = ShortcutResolver::new(&docs);
    // both "code" and "vscode" are substrings of the query; "code" sorts first
    assert_eq!(r.resolve("vscode-insiders"), Some("A".to_string()));
}

#[test]
fn fuzzy_tie_break_is_independent_of_insertion_order() {
    let docs = vec![plain_doc("vscode", "B"), plain_doc("code", "A")];
    let r = ShortcutResolver::new(&docs);
    assert_eq!(r.resolve("vscode-insiders"), Some("A".to_string()));
}

#[test]
fn fuzzy_matches_in_both_directions() {
    let docs = vec![plain_doc("org.gnome.nautilus", "N")];
    let r = ShortcutResolver::new(&docs);
    // the key contains the query
    assert_eq!(r.resolve("nautilus"), Some("N".to_string()));
    let docs = vec![plain_doc("term", "T")];
    let r = ShortcutResolver::new(&docs);
    // the query contains the key
    assert_eq!(r.resolve("xterm-256color"), Some("T".to_string()));
}

#[test]
fn normalization_trims_and_lowercases() {
    let docs = vec![plain_doc("firefox", "A")];
    let r = ShortcutResolver::new(&docs);
    assert_eq!(r.resolve("  FireFox "), r.resolve("firefox"));
    assert_eq!(r.resolve("  FireFox "), Some("A".to_string()));
}

#[test]
fn no_match_yields_none() {
    let docs = vec![plain_doc("alpha", "A")];
    let r = ShortcutResolver::new(&docs);
    assert_eq!(r.resolve("zzz"), None);
    let empty: Vec<DocumentRecord> = Vec::new();
    let r = ShortcutResolver::new(&empty);
    assert_eq!(r.resolve("anything"), None);
}

#[test]
fn malformed_document_contributes_filename_key_only() {
    let docs = vec![
        plain_doc("broken", "B"),
        doc_with_ids("good", "G", Some("org.good.App"), &["goodapp"]),
    ];
    let r = ShortcutResolver::new(&docs);
    // the malformed file is still reachable through its filename stem
    assert_eq!(r.resolve("broken"), Some("B".to_string()));
    // the well-formed file is indexed fully: stem, primary identity, alias
    assert_eq!(r.resolve("good"), Some("G".to_string()));
    assert_eq!(r.resolve("org.good.app"), Some("G".to_string()));
    assert_eq!(r.resolve("goodapp"), Some("G".to_string()));
}

#[test]
fn later_documents_overwrite_earlier_keys() {
    let docs = vec![plain_doc("app", "first"), plain_doc("app", "second")];
    let r = ShortcutResolver::new(&docs);
    assert_eq!(r.resolve("app"), Some("second".to_string()));
}

#[test]
fn metadata_keys_are_normalized() {
    let docs = vec![doc_with_ids("x", "P", Some("  My.App  "), &[" OTHER "])];
    let r = ShortcutResolver::new(&docs);
    assert_eq!(r.resolve("my.app"), Some("P".to_string()));
    assert_eq!(r.resolve("other"), Some("P".to_string()));
}

#[test]
fn rebuild_replaces_the_index() {
    let mut r = ShortcutResolver::new(&vec![plain_doc("old", "O")]);
    r.rebuild_index(&vec![plain_doc("new", "N")]);
    assert_eq!(r.resolve("old"), None);
    assert_eq!(r.resolve("new"), Some("N".to_string()));
}

#[test]
fn empty_query_fuzzy_matches_sorted_first_key() {
    // an empty normalized query is contained in every key: the sorted-first
    // key decides
    let docs = vec![plain_doc("beta", "B"), plain_doc("alpha", "A")];
    let r = ShortcutResolver::new(&docs);
    assert_eq!(r.resolve("   "), Some("A".to_string()));
}
