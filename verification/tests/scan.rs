use semantic_index::embedding_index::{EmbeddedFile, EmbeddingIndex};
use semantic_index::indexing::IndexingEntrySet;
use semantic_index::keys::db_key_for_path;
use semantic_index::persist::PersistEvent;
use semantic_index::scan::ScanEntries;
use semantic_index::store::{Database, DeletionRange, RangeEnd};
use semantic_index::worktree::{Entry, EntryKind, MTime, PathChange, Snapshot, UpdatedEntry};

fn mtime(seconds: u64) -> Option<MTime> {
    Some(MTime::from_seconds_and_nanos(seconds, 0))
}

fn file(id: u64, path: &str, seconds: u64) -> Entry {
    Entry { id, kind: EntryKind::File, path: path.to_string(), mtime: mtime(seconds) }
}

fn dir(id: u64, path: &str) -> Entry {
    Entry { id, kind: EntryKind::Dir, path: path.to_string(), mtime: None }
}

fn record(path: &str, seconds: u64) -> EmbeddedFile<Vec<f32>> {
    EmbeddedFile { path: path.to_string(), mtime: mtime(seconds), chunks: Vec::new(), text: String::new() }
}

fn index_with(records: Vec<EmbeddedFile<Vec<f32>>>) -> EmbeddingIndex<Vec<f32>> {
    let mut db = Database::new();
    for record in records {
        db.put(db_key_for_path(&record.path), record);
    }
    EmbeddingIndex::new(db)
}

fn updated_paths(scan: &ScanEntries) -> Vec<String> {
    scan.updated_entries.iter().map(|(entry, _)| entry.path.clone()).collect()
}

fn closed(start: &str, end: &str) -> DeletionRange {
    DeletionRange { start: start.to_string(), end: RangeEnd::Included(end.to_string()) }
}

fn open_ended(start: &str) -> DeletionRange {
    DeletionRange { start: start.to_string(), end: RangeEnd::Unbounded }
}

/// Applies what a scan found as a pass that goes through: the ranges are
/// deleted, then every file that was handed out is saved.
fn complete_pass(
    index: &mut EmbeddingIndex<Vec<f32>>,
    scan: ScanEntries,
    registry: &mut IndexingEntrySet,
) {
    let mut events = Vec::new();
    for range in scan.deleted_entry_ranges {
        events.push(PersistEvent::Delete(range));
    }
    for (entry, handle) in scan.updated_entries {
        let saved = EmbeddedFile {
            path: entry.path,
            mtime: entry.mtime,
            chunks: Vec::new(),
            text: String::new(),
        };
        events.push(PersistEvent::Save(saved, handle));
    }
    index.persist_embeddings(events, registry);
}

#[test]
fn sorted_merge_finds_new_changed_and_stale() {
    let index = index_with(vec![record("a", 1), record("c", 1), record("e", 1)]);
    let worktree = Snapshot { entries: vec![file(1, "b", 1), file(2, "c", 1), file(3, "d", 1)] };
    let mut registry = IndexingEntrySet::new();
    let scan = index.scan_entries(&worktree, &mut registry);
    assert_eq!(updated_paths(&scan), vec!["b".to_string(), "d".to_string()]);
    assert_eq!(scan.deleted_entry_ranges, vec![closed("a", "a"), open_ended("e")]);
    assert!(scan.deleted_entry_ranges.iter().any(|range| range.contains("a")));
    assert!(scan.deleted_entry_ranges.iter().any(|range| range.contains("e")));
    assert!(!scan.deleted_entry_ranges.iter().any(|range| range.contains("c")));
}

#[test]
fn changed_modification_token_is_rescanned() {
    let index = index_with(vec![record("a", 1), record("b", 1)]);
    let worktree = Snapshot { entries: vec![file(1, "a", 1), file(2, "b", 2)] };
    let mut registry = IndexingEntrySet::new();
    let scan = index.scan_entries(&worktree, &mut registry);
    assert_eq!(updated_paths(&scan), vec!["b".to_string()]);
    assert!(scan.deleted_entry_ranges.is_empty());
    assert_eq!(scan.updated_entries[0].1.entry_id, 2);
}

#[test]
fn second_scan_of_unchanged_tree_finds_nothing() {
    let mut index = index_with(vec![record("a", 1), record("c", 1), record("e", 1)]);
    let worktree = Snapshot {
        entries: vec![file(1, "b", 1), file(2, "c", 7), dir(9, "d"), file(3, "d/x", 1)],
    };
    let mut registry = IndexingEntrySet::new();
    let first = index.scan_entries(&worktree, &mut registry);
    assert_eq!(first.updated_entries.len(), 3);
    complete_pass(&mut index, first, &mut registry);
    assert!(registry.is_empty());
    let second = index.scan_entries(&worktree, &mut registry);
    assert!(second.updated_entries.is_empty());
    assert!(second.deleted_entry_ranges.is_empty());
    assert!(registry.is_empty());
    assert_eq!(index.paths(), vec!["b".to_string(), "c".to_string(), "d/x".to_string()]);
}

#[test]
fn stale_run_is_extended_over_new_files() {
    // "a" and "c" are stale, "b" is new and lies between them: one range
    // from "a" to "c" is emitted when "d" is matched.
    let index = index_with(vec![record("a", 1), record("c", 1), record("d", 1)]);
    let worktree = Snapshot { entries: vec![file(1, "b", 1), file(2, "d", 1)] };
    let mut registry = IndexingEntrySet::new();
    let scan = index.scan_entries(&worktree, &mut registry);
    assert_eq!(updated_paths(&scan), vec!["b".to_string()]);
    assert_eq!(scan.deleted_entry_ranges, vec![closed("a", "c")]);
}

#[test]
fn open_run_at_the_end_is_not_emitted() {
    let index = index_with(vec![record("a", 1)]);
    let worktree = Snapshot { entries: vec![file(1, "b", 1)] };
    let mut registry = IndexingEntrySet::new();
    let scan = index.scan_entries(&worktree, &mut registry);
    assert_eq!(updated_paths(&scan), vec!["b".to_string()]);
    assert!(scan.deleted_entry_ranges.is_empty());
}

#[test]
fn rows_left_over_are_deleted_by_one_range_without_end() {
    let index = index_with(vec![record("a", 1), record("m", 1), record("z", 1)]);
    let worktree = Snapshot { entries: vec![file(1, "a", 1)] };
    let mut registry = IndexingEntrySet::new();
    let scan = index.scan_entries(&worktree, &mut registry);
    assert!(scan.updated_entries.is_empty());
    assert_eq!(scan.deleted_entry_ranges, vec![open_ended("m")]);
}

#[test]
fn empty_tree_deletes_everything() {
    let index = index_with(vec![record("a", 1), record("b", 1)]);
    let worktree = Snapshot { entries: Vec::new() };
    let mut registry = IndexingEntrySet::new();
    let scan = index.scan_entries(&worktree, &mut registry);
    assert!(scan.updated_entries.is_empty());
    assert_eq!(scan.deleted_entry_ranges, vec![open_ended("a")]);
}

#[test]
fn empty_store_indexes_every_file() {
    let index = index_with(Vec::new());
    let worktree = Snapshot { entries: vec![dir(1, "a"), file(2, "a/x", 1), file(3, "b", 1)] };
    let mut registry = IndexingEntrySet::new();
    let scan = index.scan_entries(&worktree, &mut registry);
    assert_eq!(updated_paths(&scan), vec!["a/x".to_string(), "b".to_string()]);
    assert!(scan.deleted_entry_ranges.is_empty());
}

#[test]
fn file_without_record_is_indexed_even_without_modification_token() {
    let index = index_with(Vec::new());
    let mut entry = file(1, "a", 0);
    entry.mtime = None;
    let worktree = Snapshot { entries: vec![entry] };
    let mut registry = IndexingEntrySet::new();
    let scan = index.scan_entries(&worktree, &mut registry);
    assert_eq!(updated_paths(&scan), vec!["a".to_string()]);
}

#[test]
fn equal_absent_tokens_are_not_rescanned() {
    let mut stored = record("a", 0);
    stored.mtime = None;
    let index = index_with(vec![stored]);
    let mut entry = file(1, "a", 0);
    entry.mtime = None;
    let worktree = Snapshot { entries: vec![entry] };
    let mut registry = IndexingEntrySet::new();
    let scan = index.scan_entries(&worktree, &mut registry);
    assert!(scan.updated_entries.is_empty());
}

#[test]
fn keys_compare_with_separators_replaced() {
    // "a/b" sorts before "a.txt" as a key, though not as a path string.
    let index = index_with(vec![record("a/b", 1), record("a.txt", 1)]);
    assert_eq!(index.paths(), vec!["a/b".to_string(), "a.txt".to_string()]);
    let worktree = Snapshot { entries: vec![dir(1, "a"), file(2, "a/b", 1), file(3, "a.txt", 1)] };
    let mut registry = IndexingEntrySet::new();
    let scan = index.scan_entries(&worktree, &mut registry);
    assert!(scan.updated_entries.is_empty());
    assert!(scan.deleted_entry_ranges.is_empty());
}

#[test]
fn unsorted_snapshot_breaks_the_merge() {
    // The files must stand in the order of their keys. Here they do not:
    // the record of "a" is deleted and "a" is indexed anew, though nothing
    // changed.
    let index = index_with(vec![record("a", 1), record("c", 1)]);
    let worktree = Snapshot { entries: vec![file(1, "c", 1), file(2, "a", 1)] };
    let mut registry = IndexingEntrySet::new();
    let scan = index.scan_entries(&worktree, &mut registry);
    assert_eq!(updated_paths(&scan), vec!["a".to_string()]);
    assert_eq!(scan.deleted_entry_ranges, vec![closed("a", "a")]);
}

#[test]
fn full_scan_registers_each_updated_entry_once() {
    let index = index_with(vec![record("b", 1)]);
    let worktree = Snapshot { entries: vec![file(10, "a", 1), file(11, "b", 1), file(12, "c", 1)] };
    let mut registry = IndexingEntrySet::new();
    let scan = index.scan_entries(&worktree, &mut registry);
    assert_eq!(registry.len(), 2);
    assert!(registry.contains(10));
    assert!(!registry.contains(11));
    assert!(registry.contains(12));
    let ids: Vec<u64> = scan.updated_entries.iter().map(|(_, handle)| handle.entry_id).collect();
    assert_eq!(ids, vec![10, 12]);
}

#[test]
fn back_to_back_scans_do_not_overlap() {
    let mut index = index_with(Vec::new());
    let worktree = Snapshot { entries: vec![file(1, "a", 1), file(2, "b", 1)] };
    let mut registry = IndexingEntrySet::new();
    let first = index.scan_entries(&worktree, &mut registry);
    assert_eq!(registry.len(), 2);
    complete_pass(&mut index, first, &mut registry);
    assert!(registry.is_empty());
    let changed = Snapshot { entries: vec![file(1, "a", 2), file(2, "b", 1)] };
    let second = index.scan_entries(&changed, &mut registry);
    assert_eq!(second.updated_entries.len(), 1);
    assert_eq!(registry.len(), 1);
    assert!(registry.contains(1));
}

#[test]
fn removed_change_gives_single_key_range() {
    let index = index_with(vec![record("x", 1)]);
    let worktree = Snapshot { entries: Vec::new() };
    let changes =
        vec![UpdatedEntry { path: "x".to_string(), entry_id: 5, change: PathChange::Removed }];
    let mut registry = IndexingEntrySet::new();
    let scan = index.scan_updated_entries(&worktree, &changes, &mut registry);
    assert!(scan.updated_entries.is_empty());
    assert_eq!(scan.deleted_entry_ranges, vec![closed("x", "x")]);
    assert!(registry.is_empty());
}

#[test]
fn removed_change_uses_the_key_of_the_path() {
    let index = index_with(Vec::new());
    let worktree = Snapshot { entries: Vec::new() };
    let changes =
        vec![UpdatedEntry { path: "d/x".to_string(), entry_id: 5, change: PathChange::Removed }];
    let mut registry = IndexingEntrySet::new();
    let scan = index.scan_updated_entries(&worktree, &changes, &mut registry);
    assert_eq!(scan.deleted_entry_ranges, vec![closed("d\0x", "d\0x")]);
}

#[test]
fn incremental_scan_follows_the_change_kinds() {
    let index = index_with(Vec::new());
    let worktree = Snapshot {
        entries: vec![dir(1, "d"), file(2, "d/a", 1), file(3, "d/b", 1), file(4, "e", 1)],
    };
    let change = |path: &str, entry_id: u64, change: PathChange| UpdatedEntry {
        path: path.to_string(),
        entry_id,
        change,
    };
    let changes = vec![
        change("d/a", 2, PathChange::Added),
        change("d", 1, PathChange::Updated),
        change("gone", 7, PathChange::Removed),
        change("e", 4, PathChange::Loaded),
        change("d/b", 3, PathChange::AddedOrUpdated),
        change("missing", 8, PathChange::Updated),
        change("e", 4, PathChange::Updated),
    ];
    let mut registry = IndexingEntrySet::new();
    let scan = index.scan_updated_entries(&worktree, &changes, &mut registry);
    assert_eq!(updated_paths(&scan), vec!["d/a".to_string(), "d/b".to_string(), "e".to_string()]);
    assert_eq!(scan.deleted_entry_ranges, vec![closed("gone", "gone")]);
    assert_eq!(registry.len(), 3);
    assert!(registry.contains(2) && registry.contains(3) && registry.contains(4));
}
