use semantic_index::indexing::{IndexingEntryHandle, IndexingEntrySet};

#[test]
fn registry_is_a_set_of_entries() {
    let mut registry = IndexingEntrySet::new();
    assert!(registry.is_empty());
    assert_eq!(registry.len(), 0);
    let first = registry.insert(7);
    let again = registry.insert(7);
    let other = registry.insert(9);
    assert_eq!(first, IndexingEntryHandle { entry_id: 7 });
    assert_eq!(registry.len(), 2);
    assert!(registry.contains(7) && registry.contains(9));
    assert!(!registry.contains(8));
    registry.release(first);
    assert_eq!(registry.len(), 1);
    assert!(!registry.contains(7));
    registry.release(again);
    assert_eq!(registry.len(), 1);
    registry.release(other);
    assert!(registry.is_empty());
}
