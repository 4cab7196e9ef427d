use semantic_index::keys::{compare_keys, db_key_for_path, KeyOrder};

#[test]
fn db_key_replaces_separators() {
    assert_eq!(db_key_for_path("a/b/c.txt"), "a\0b\0c.txt");
    assert_eq!(db_key_for_path("plain"), "plain");
    assert_eq!(db_key_for_path(""), "");
}

#[test]
fn keys_compare_bytewise() {
    assert_eq!(compare_keys("a", "b"), KeyOrder::Less);
    assert_eq!(compare_keys("b", "a"), KeyOrder::Greater);
    assert_eq!(compare_keys("a", "a"), KeyOrder::Equal);
    assert_eq!(compare_keys("a", "ab"), KeyOrder::Less);
    assert_eq!(compare_keys("", "a"), KeyOrder::Less);
}
