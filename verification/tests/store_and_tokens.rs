use jjmagit_language_server::page_writer::PageWriter;
use jjmagit_language_server::semantic_token::get;
use jjmagit_language_server::semantic_token::get_or_default;
use jjmagit_language_server::semantic_token::legend;
use jjmagit_language_server::semantic_token::try_get;
use jjmagit_language_server::store::update_document;
use jjmagit_language_server::store::DocumentStore;

fn page_with_text(text: &str) -> jjmagit_language_server::page_writer::Page {
    let mut out = PageWriter::new();
    out.write(text);
    out.finish()
}

#[test]
fn store_upsert_get_remove() {
    let mut store = DocumentStore::new();
    assert!(store.get("file:///r/.control/status.page").is_none());
    let changed = update_document(
        &mut store,
        String::from("file:///r/.control/status.page"),
        String::from("live"),
        page_with_text("fresh"),
    );
    assert!(changed);
    let entry = store.get("file:///r/.control/status.page").unwrap();
    assert_eq!(entry.1.text, "live");
    assert_eq!(entry.2.text, "fresh");
    store.remove("file:///r/.control/status.page");
    assert!(store.get("file:///r/.control/status.page").is_none());
}

#[test]
fn update_reports_agreement() {
    let mut store = DocumentStore::new();
    let changed = update_document(
        &mut store,
        String::from("u"),
        String::from("same"),
        page_with_text("same"),
    );
    assert!(!changed);
}

#[test]
fn later_regeneration_wins_wholesale() {
    // Two sequential change notifications for one URI: whichever result is
    // stored last is the state observed, never a mix of the two.
    let mut store = DocumentStore::new();
    update_document(
        &mut store,
        String::from("u"),
        String::from("first live"),
        page_with_text("first page"),
    );
    update_document(
        &mut store,
        String::from("u"),
        String::from("second live"),
        page_with_text("second page"),
    );
    let entry = store.get("u").unwrap();
    assert_eq!(entry.1.text, "second live");
    assert_eq!(entry.2.text, "second page");
    let mut count = 0;
    for d in &store.docs {
        if d.0 == "u" {
            count += 1;
        }
    }
    assert_eq!(count, 1);
}

#[test]
fn store_keeps_other_documents() {
    let mut store = DocumentStore::new();
    update_document(&mut store, String::from("a"), String::from("ta"), page_with_text("pa"));
    update_document(&mut store, String::from("b"), String::from("tb"), page_with_text("pb"));
    update_document(&mut store, String::from("a"), String::from("ta2"), page_with_text("pa2"));
    assert_eq!(store.get("b").unwrap().2.text, "pb");
    assert_eq!(store.get("a").unwrap().2.text, "pa2");
}

#[test]
fn token_table_lookup() {
    assert_eq!(try_get("function"), Some(0));
    assert_eq!(try_get("variable"), Some(1));
    assert_eq!(try_get("access-denied"), Some(2));
    assert_eq!(try_get("added"), Some(3));
    assert_eq!(try_get("change_id"), Some(12));
    assert_eq!(try_get("summary"), Some(77));
    assert_eq!(try_get("no-such-scope"), None);
    assert_eq!(get("added"), 3);
    assert_eq!(get_or_default("added"), 3);
    // The deletion and copy labels are distinct table entries of their own.
    assert_eq!(get_or_default("deleted"), 78);
    assert_eq!(get_or_default("created"), 79);
    // An unknown scope falls back to token 0 rather than failing the render.
    assert_eq!(get_or_default("no-such-scope"), 0);
}

#[test]
fn token_table_shape() {
    let table = legend();
    assert_eq!(table.len(), 80);
    assert_eq!(table[0], "function");
    assert_eq!(table[12], "change_id");
    assert_eq!(table[77], "summary");
    assert_eq!(table[78], "deleted");
    assert_eq!(table[79], "created");
    for (i, name) in table.iter().enumerate() {
        assert_eq!(try_get(name), Some(i as u32));
    }
}
