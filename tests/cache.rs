use csslsrs::service::LanguageService;
use csslsrs::store::{DocumentStore, TextDocumentItem};

fn document(uri: &str, version: i32, text: &str) -> TextDocumentItem {
    TextDocumentItem {
        uri: uri.to_string(),
        language_id: "css".to_string(),
        version,
        text: text.to_string(),
    }
}

#[test]
fn same_version_is_served_from_the_cache() {
    let mut ls = LanguageService::default();
    ls.get_folding_ranges(document("file:///a.css", 1, "a {\n}\n"));
    ls.get_document_colors(document("file:///a.css", 1, "a {\n}\n"));
    assert_eq!(ls.builds(), 1);
}

#[test]
fn cached_text_wins_while_the_version_is_unchanged() {
    let mut ls = LanguageService::default();
    assert_eq!(ls.get_folding_ranges(document("file:///a.css", 1, "a {\n}\n")).len(), 1);
    assert_eq!(ls.get_folding_ranges(document("file:///a.css", 1, "a {}\n")).len(), 1);
    assert_eq!(ls.builds(), 1);
}

#[test]
fn new_version_rebuilds_the_entry() {
    let mut ls = LanguageService::default();
    assert_eq!(ls.get_folding_ranges(document("file:///a.css", 1, "a {\n}\n")).len(), 1);
    assert!(ls.get_folding_ranges(document("file:///a.css", 2, "a {}\n")).is_empty());
    assert_eq!(ls.builds(), 2);
    assert!(ls.get_folding_ranges(document("file:///a.css", 1, "a {}\n")).is_empty());
    assert_eq!(ls.builds(), 3);
}

#[test]
fn documents_are_cached_apart() {
    let mut ls = LanguageService::default();
    ls.get_folding_ranges(document("file:///a.css", 1, "a {\n}\n"));
    ls.get_folding_ranges(document("file:///b.css", 1, "b {}\n"));
    assert_eq!(ls.builds(), 2);
    assert_eq!(ls.get_folding_ranges(document("file:///a.css", 1, "")).len(), 1);
    assert_eq!(ls.builds(), 2);
}

#[test]
fn closing_a_document_drops_its_entry() {
    let mut ls = LanguageService::default();
    ls.get_folding_ranges(document("file:///a.css", 1, "a {\n}\n"));
    ls.close_document("file:///a.css");
    ls.close_document("file:///never-opened.css");
    assert!(ls.get_folding_ranges(document("file:///a.css", 1, "a {}\n")).is_empty());
    assert_eq!(ls.builds(), 2);
}

#[test]
fn store_keeps_the_entry_of_the_current_version() {
    let mut store = DocumentStore::default();
    let entry = store.get_or_update_document(document("file:///a.css", 3, "a\nb"));
    assert_eq!(entry.document.version, 3);
    assert_eq!(entry.line_index.line_count(), 2);
    let entry = store.get_or_update_document(document("file:///a.css", 4, "a"));
    assert_eq!(entry.document.text, "a");
    assert_eq!(entry.line_index.line_count(), 1);
    assert_eq!(store.builds(), 2);
    store.remove("file:///a.css");
    let entry = store.get_or_update_document(document("file:///a.css", 4, "a\n\n"));
    assert_eq!(entry.line_index.line_count(), 3);
    assert_eq!(DocumentStore::new().builds(), 0);
}
