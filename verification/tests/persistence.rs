//! The log format, the persistence pipeline, and recovery.

use pathkvs::store::Database;

/// Build a persistent database, apply the writes, and return it with its
/// accumulated log bytes.
fn persisted(writes: &[(&[u8], &[u8])]) -> (Database, Vec<u8>) {
    let (mut db, consumed) = Database::from_log_bytes(&[]);
    assert_eq!(consumed, 0);
    let mut log: Vec<u8> = Vec::new();
    for (k, v) in writes {
        db.write(k, v);
        let mut pending = db.pending_log_bytes();
        log.append(&mut pending);
        db.mark_persisted();
    }
    (db, log)
}

#[test]
fn record_encoding_is_exact() {
    let (_, log) = persisted(&[(b"a", b"b")]);
    // seconds u64, nanoseconds u32, kv_count u32, then k_len "a" v_len "b";
    // the timestamp is wall-clock, so compare everything after it.
    assert_eq!(log.len(), 12 + 4 + 4 + 1 + 4 + 1);
    assert_eq!(
        &log[12..],
        &[1, 0, 0, 0, 1, 0, 0, 0, 97, 1, 0, 0, 0, 98][..]
    );
}

#[test]
fn empty_commit_encodes_zero_count() {
    let (mut db, _) = Database::from_log_bytes(&[]);
    let tx = db.start_writes();
    tx.commit(&mut db).unwrap();
    let pending = db.pending_log_bytes();
    assert_eq!(pending.len(), 16);
    assert_eq!(&pending[12..16], &[0, 0, 0, 0][..]);
}

#[test]
fn recovery_round_trip() {
    let (db, log) = persisted(&[(b"k1", b"v1"), (b"k2", b"v2"), (b"k1", b"v3")]);
    let (rec, consumed) = Database::from_log_bytes(&log);
    assert_eq!(consumed, log.len());
    assert_eq!(rec.read(b"k1"), db.read(b"k1"));
    assert_eq!(rec.read(b"k2"), db.read(b"k2"));
    assert_eq!(rec.read(b"k1"), b"v3".to_vec());
    assert_eq!(rec.list(b"", b""), db.list(b"", b""));
}

#[test]
fn recovery_applies_deletions() {
    let (_, log) = persisted(&[(b"k", b"v"), (b"k", b"")]);
    let (rec, _) = Database::from_log_bytes(&log);
    assert_eq!(rec.read(b"k"), Vec::<u8>::new());
    assert!(rec.list(b"", b"").is_empty());
}

#[test]
fn recovery_truncates_torn_tail() {
    let (_, mut log) = persisted(&[(b"key", b"value")]);
    let whole = log.len();
    // Eleven junk bytes: not even a full timestamp, certainly no record.
    log.extend_from_slice(&[0xde, 0xad, 0xbe, 0xef, 1, 2, 3, 4, 5, 6, 7]);
    let (rec, consumed) = Database::from_log_bytes(&log);
    assert_eq!(consumed, whole);
    assert_eq!(rec.read(b"key"), b"value".to_vec());
    assert_eq!(rec.list(b"", b""), vec![b"key".to_vec()]);
}

#[test]
fn recovery_rejects_bad_nanoseconds() {
    // A timestamp whose nanosecond field is a full second is a torn tail.
    let mut log: Vec<u8> = Vec::new();
    log.extend_from_slice(&0u64.to_le_bytes());
    log.extend_from_slice(&1_000_000_000u32.to_le_bytes());
    log.extend_from_slice(&0u32.to_le_bytes());
    let (rec, consumed) = Database::from_log_bytes(&log);
    assert_eq!(consumed, 0);
    assert!(rec.list(b"", b"").is_empty());
}

#[test]
fn recovery_is_idempotent() {
    let (_, mut log) = persisted(&[(b"a", b"1"), (b"b", b"2")]);
    log.extend_from_slice(&[9, 9, 9]);
    let (db1, c1) = Database::from_log_bytes(&log);
    // First open truncates the file to `c1`; the second open reads that.
    log.truncate(c1);
    let (db2, c2) = Database::from_log_bytes(&log);
    assert_eq!(c2, c1);
    assert_eq!(db1.read(b"a"), db2.read(b"a"));
    assert_eq!(db1.read(b"b"), db2.read(b"b"));
    assert_eq!(db1.list(b"", b""), db2.list(b"", b""));
}

#[test]
fn pending_drains_once() {
    let (mut db, _) = Database::from_log_bytes(&[]);
    db.write(b"k", b"v");
    let first = db.pending_log_bytes();
    assert!(!first.is_empty());
    db.mark_persisted();
    let second = db.pending_log_bytes();
    assert!(second.is_empty());
}

#[test]
fn duplicate_keys_in_one_record_last_wins() {
    // A hand-built record with the same key twice: the later entry wins, as
    // an unordered change-set serialization may repeat keys.
    let mut log: Vec<u8> = Vec::new();
    log.extend_from_slice(&7u64.to_le_bytes());
    log.extend_from_slice(&0u32.to_le_bytes());
    log.extend_from_slice(&2u32.to_le_bytes());
    for (k, v) in [(b"k", b"1"), (b"k", b"2")] {
        log.extend_from_slice(&1u32.to_le_bytes());
        log.extend_from_slice(k);
        log.extend_from_slice(&1u32.to_le_bytes());
        log.extend_from_slice(v);
    }
    let (db, consumed) = Database::from_log_bytes(&log);
    assert_eq!(consumed, log.len());
    assert_eq!(db.read(b"k"), b"2".to_vec());
}
