use waldb::mem_table::{byte_seq_cmp, MemTable};

#[test]
fn memtable_overwrite_returns_the_prior_value() {
    let mut t = MemTable::new();
    assert_eq!(t.set(b"k", b"v1"), None);
    assert_eq!(t.set(b"k", b"v2"), Some(b"v1".to_vec()));
    assert_eq!(t.get(b"k"), Some(b"v2".to_vec()));
}

#[test]
fn memtable_get_set_contains() {
    let mut t = MemTable::new();
    assert!(t.get(b"a").is_none());
    assert!(!t.contains(b"a"));
    t.set(b"b", b"2");
    t.set(b"a", b"1");
    t.set(b"c", b"3");
    assert_eq!(t.get(b"a"), Some(b"1".to_vec()));
    assert_eq!(t.get(b"b"), Some(b"2".to_vec()));
    assert_eq!(t.get(b"c"), Some(b"3".to_vec()));
    assert!(t.contains(b"b"));
    assert!(!t.contains(b"d"));
}

#[test]
fn memtable_remove_takes_the_value_out() {
    let mut t = MemTable::new();
    t.set(b"a", b"1");
    t.set(b"b", b"2");
    assert_eq!(t.remove(b"a"), Some(b"1".to_vec()));
    assert!(t.get(b"a").is_none());
    assert_eq!(t.get(b"b"), Some(b"2".to_vec()));
    assert_eq!(t.remove(b"a"), None);
}

#[test]
fn memtable_holds_empty_keys_and_values() {
    let mut t = MemTable::new();
    t.set(b"", b"empty key");
    t.set(b"empty value", b"");
    assert_eq!(t.get(b""), Some(b"empty key".to_vec()));
    assert_eq!(t.get(b"empty value"), Some(b"".to_vec()));
}

#[test]
fn byte_strings_compare_lexicographically() {
    assert_eq!(byte_seq_cmp(b"", b""), 0);
    assert_eq!(byte_seq_cmp(b"a", b"a"), 0);
    assert_eq!(byte_seq_cmp(b"a", b"b"), -1);
    assert_eq!(byte_seq_cmp(b"b", b"a"), 1);
    assert_eq!(byte_seq_cmp(b"a", b"ab"), -1);
    assert_eq!(byte_seq_cmp(b"ab", b"a"), 1);
    assert_eq!(byte_seq_cmp(&[0xFF], &[0x00, 0x00]), 1);
}
