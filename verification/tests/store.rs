use semantic_index::embedding_index::{EmbeddedFile, EmbeddingIndex};
use semantic_index::indexing::IndexingEntrySet;
use semantic_index::persist::PersistEvent;
use semantic_index::query::QueryError;
use semantic_index::store::{Database, DeletionRange, RangeEnd};
use semantic_index::worktree::MTime;

fn record(path: &str, text: &str) -> EmbeddedFile<Vec<f32>> {
    EmbeddedFile {
        path: path.to_string(),
        mtime: Some(MTime::from_seconds_and_nanos(1, 0)),
        chunks: Vec::new(),
        text: text.to_string(),
    }
}

fn store_with(keys: &[&str]) -> Database<Vec<f32>> {
    let mut db = Database::new();
    for key in keys {
        db.put(key.to_string(), record(key, ""));
    }
    db
}

fn keys_of(db: &Database<Vec<f32>>) -> Vec<String> {
    (0..db.len()).map(|i| db.row(i).key.clone()).collect()
}

#[test]
fn put_keeps_key_order() {
    let db = store_with(&["m", "a", "z", "c"]);
    assert_eq!(keys_of(&db), vec!["a", "c", "m", "z"]);
    assert_eq!(db.len(), 4);
}

#[test]
fn put_replaces_the_record_under_its_key() {
    let mut db = store_with(&["a", "b"]);
    db.put("a".to_string(), record("a", "new text"));
    assert_eq!(db.len(), 2);
    assert_eq!(db.get("a").unwrap().text, "new text");
    assert_eq!(db.get("b").unwrap().text, "");
}

#[test]
fn get_finds_only_what_was_put() {
    let db = store_with(&["a", "c"]);
    assert!(db.get("a").is_some());
    assert!(db.get("b").is_none());
    assert!(db.get("").is_none());
    assert!(db.get("d").is_none());
    assert!(Database::<Vec<f32>>::new().get("a").is_none());
}

#[test]
fn unbounded_range_deletes_from_its_start_on() {
    let mut db = store_with(&["a", "l", "m", "ma", "z"]);
    let deleted =
        db.delete_range(&DeletionRange { start: "m".to_string(), end: RangeEnd::Unbounded });
    assert_eq!(deleted, 3);
    assert_eq!(keys_of(&db), vec!["a", "l"]);
}

#[test]
fn unbounded_range_starting_between_keys() {
    let mut db = store_with(&["a", "l", "n", "z"]);
    let deleted = db.delete_range(&DeletionRange::from_key("m".to_string()));
    assert_eq!(deleted, 2);
    assert_eq!(keys_of(&db), vec!["a", "l"]);
}

#[test]
fn closed_range_includes_both_ends() {
    let mut db = store_with(&["a", "b", "c", "d", "e"]);
    let deleted = db.delete_range(&DeletionRange {
        start: "b".to_string(),
        end: RangeEnd::Included("d".to_string()),
    });
    assert_eq!(deleted, 3);
    assert_eq!(keys_of(&db), vec!["a", "e"]);
}

#[test]
fn single_key_range_deletes_one_record() {
    let mut db = store_with(&["x", "xa", "y"]);
    assert_eq!(db.delete_range(&DeletionRange::single("x".to_string())), 1);
    assert_eq!(keys_of(&db), vec!["xa", "y"]);
    assert_eq!(db.delete_range(&DeletionRange::single("x".to_string())), 0);
    assert_eq!(keys_of(&db), vec!["xa", "y"]);
}

#[test]
fn range_that_ends_before_it_starts_deletes_nothing() {
    let mut db = store_with(&["a", "b", "c"]);
    let deleted = db.delete_range(&DeletionRange {
        start: "c".to_string(),
        end: RangeEnd::Included("a".to_string()),
    });
    assert_eq!(deleted, 0);
    assert_eq!(db.len(), 3);
}

#[test]
fn range_contains_its_keys() {
    let closed =
        DeletionRange { start: "b".to_string(), end: RangeEnd::Included("d".to_string()) };
    assert!(!closed.contains("a"));
    assert!(closed.contains("b"));
    assert!(closed.contains("c"));
    assert!(closed.contains("d"));
    assert!(!closed.contains("da"));
    let open = DeletionRange::from_key("m".to_string());
    assert!(!open.contains("l"));
    assert!(open.contains("m"));
    assert!(open.contains("zzz"));
}

#[test]
fn events_are_applied_in_their_order() {
    let mut index: EmbeddingIndex<Vec<f32>> = EmbeddingIndex::new(Database::new());
    let mut registry = IndexingEntrySet::new();
    let first = registry.insert(1);
    let second = registry.insert(2);
    index.persist_embeddings(
        vec![
            PersistEvent::Save(record("a", "one"), first),
            PersistEvent::Delete(DeletionRange::single("a".to_string())),
            PersistEvent::Save(record("b", "two"), second),
        ],
        &mut registry,
    );
    assert_eq!(index.paths(), vec!["b".to_string()]);
    assert!(registry.is_empty());

    let third = registry.insert(3);
    index.persist_embeddings(
        vec![
            PersistEvent::Delete(DeletionRange::single("a".to_string())),
            PersistEvent::Save(record("a", "one"), third),
        ],
        &mut registry,
    );
    assert_eq!(index.paths(), vec!["a".to_string(), "b".to_string()]);
}

#[test]
fn saved_file_is_stored_under_the_key_of_its_path() {
    let mut index: EmbeddingIndex<Vec<f32>> = EmbeddingIndex::new(Database::new());
    let mut registry = IndexingEntrySet::new();
    let handle = registry.insert(4);
    index.save_embedded_file(record("dir/file.rs", "text"), handle, &mut registry);
    assert_eq!(index.db().row(0).key, "dir\0file.rs");
    assert_eq!(index.db().row(0).file.path, "dir/file.rs");
    assert!(!registry.contains(4));
    index.delete_entry_range(&DeletionRange::from_key("dir\0".to_string()));
    assert!(index.paths().is_empty());
}

#[test]
fn query_for_unknown_path_fails() {
    let index: EmbeddingIndex<Vec<f32>> = EmbeddingIndex::new(store_with(&["a"]));
    assert_eq!(index.chunks_for_path("b"), Err(QueryError::NoSuchPath));
    assert_eq!(QueryError::NoSuchPath.message(), "no such path");
    assert!(index.chunks_for_path("a").unwrap().is_empty());
}
