use waldb::db::{Db, DbError};
use waldb::vfs::Vfs;
use waldb::wal::WalError;

#[test]
fn test_db_basic() {
    let mut db = Db::create(Vec::new()).unwrap();
    assert!(db.get(b"non-exists key").is_none());
    db.set(b"key1", b"val1");
    assert_eq!(db.get(b"key1"), Some(b"val1".to_vec()));
    db.set(b"key1", b"val2");
}

#[test]
fn db_overwrite_is_visible() {
    let mut db = Db::create(Vec::new()).unwrap();
    assert!(db.get(b"k").is_none());
    db.set(b"k", b"v1");
    assert_eq!(db.get(b"k"), Some(b"v1".to_vec()));
    db.set(b"k", b"v2");
    assert_eq!(db.get(b"k"), Some(b"v2".to_vec()));
}

#[test]
fn db_reopen_replays_the_log() {
    let mut db = Db::create(Vec::new()).unwrap();
    db.set(b"a", b"1");
    db.set(b"b", b"2");
    let log = db.take_pending();
    let db = Db::create(log).unwrap();
    assert_eq!(db.get(b"a"), Some(b"1".to_vec()));
    assert_eq!(db.get(b"b"), Some(b"2".to_vec()));
}

#[test]
fn db_reopen_keeps_the_last_value_per_key() {
    let mut db = Db::create(Vec::new()).unwrap();
    db.set(b"k", b"v1");
    db.set(b"k", b"v2");
    let log = db.take_pending();
    let db = Db::create(log).unwrap();
    assert_eq!(db.get(b"k"), Some(b"v2".to_vec()));
}

#[test]
fn db_tolerates_a_torn_tail() {
    let mut db = Db::create(Vec::new()).unwrap();
    db.set(b"a", b"1");
    db.set(b"b", b"2");
    let log = db.take_pending();
    // cut into the second payload's record: the first write survives
    let cut = log.len() - 1;
    let db = Db::create(log[..cut].to_vec()).unwrap();
    assert_eq!(db.get(b"a"), Some(b"1".to_vec()));
    assert!(db.get(b"b").is_none());
}

#[test]
fn db_rejects_interior_corruption() {
    let mut db = Db::create(Vec::new()).unwrap();
    db.set(b"a", b"1");
    db.set(b"b", b"2");
    let mut log = db.take_pending();
    // flip a payload bit of the first record
    log[7] ^= 1;
    assert!(matches!(
        Db::create(log),
        Err(DbError::WalError(WalError::CrcMismatch))
    ));
}

#[test]
fn db_take_pending_hands_out_only_new_bytes() {
    let mut db = Db::create(Vec::new()).unwrap();
    db.set(b"a", b"1");
    let first = db.take_pending();
    assert!(!first.is_empty());
    db.set(b"b", b"2");
    let second = db.take_pending();
    assert!(!second.is_empty());
    let mut whole = first.clone();
    whole.extend_from_slice(&second);
    // the two hand-offs together are a log that replays both writes
    let db = Db::create(whole).unwrap();
    assert_eq!(db.get(b"a"), Some(b"1".to_vec()));
    assert_eq!(db.get(b"b"), Some(b"2".to_vec()));
}

#[test]
fn vfs_handle_keeps_its_base() {
    let vfs = Vfs::new(String::from("test-db"));
    assert_eq!(vfs.base().as_str(), "test-db");
    let copy = vfs.clone();
    assert_eq!(copy.base().as_str(), "test-db");
}
