//! End-to-end behavior of the store: reads, writes, range queries,
//! optimistic transactions, and time travel.

use pathkvs::changes::Timestamp;
use pathkvs::error::TransactionError;
use pathkvs::store::{Database, DatabaseWriteSyncMode};

#[test]
fn basic_write_read() {
    let mut db = Database::memory();
    db.write(b"k", b"v");
    assert_eq!(db.read(b"k"), b"v".to_vec());
    assert_eq!(db.len(b"k"), 1);
}

#[test]
fn missing_key_reads_empty() {
    let db = Database::memory();
    assert_eq!(db.read(b"nope"), Vec::<u8>::new());
    assert_eq!(db.len(b"nope"), 0);
}

#[test]
fn empty_key_is_reserved() {
    let mut db = Database::memory();
    db.write(b"", b"v");
    assert_eq!(db.read(b""), Vec::<u8>::new());
    assert_eq!(db.len(b""), 0);
    assert_eq!(db.count(b"", b""), 0);
}

#[test]
fn delete_via_empty_value() {
    let mut db = Database::memory();
    db.write(b"k", b"v");
    db.write(b"k", b"");
    assert_eq!(db.read(b"k"), Vec::<u8>::new());
    let keys = db.list(b"", b"");
    assert!(!keys.contains(&b"k".to_vec()));
    assert_eq!(db.count(b"", b""), 0);
}

#[test]
fn overwrite_takes_newest() {
    let mut db = Database::memory();
    db.write(b"k", b"one");
    db.write(b"k", b"two");
    assert_eq!(db.read(b"k"), b"two".to_vec());
}

#[test]
fn prefix_suffix_lists() {
    let mut db = Database::memory();
    db.write(b"abc-1", b"x");
    db.write(b"abc-2", b"y");
    db.write(b"zzz", b"q");
    assert_eq!(db.list(b"abc", b""), vec![b"abc-1".to_vec(), b"abc-2".to_vec()]);
    assert_eq!(db.list(b"", b"-2"), vec![b"abc-2".to_vec()]);
    assert_eq!(db.list(b"abc", b"-2"), vec![b"abc-2".to_vec()]);
    assert_eq!(db.list(b"abc", b"-1"), vec![b"abc-1".to_vec()]);
}

#[test]
fn overlapping_prefix_suffix_does_not_match() {
    let mut db = Database::memory();
    db.write(b"abc", b"x");
    // The key is long enough for either alone but not both without overlap.
    assert_eq!(db.count(b"ab", b"bc"), 0);
    assert_eq!(db.count(b"ab", b"c"), 1);
}

#[test]
fn count_list_scan_agree() {
    let mut db = Database::memory();
    db.write(b"user:1", b"a");
    db.write(b"user:2", b"b");
    db.write(b"other", b"c");
    let keys = db.list(b"user:", b"");
    let pairs = db.scan(b"user:", b"");
    assert_eq!(db.count(b"user:", b"") as usize, keys.len());
    assert_eq!(pairs.len(), keys.len());
    for (i, (k, _)) in pairs.iter().enumerate() {
        assert_eq!(*k, keys[i]);
    }
    assert_eq!(
        pairs,
        vec![(b"user:1".to_vec(), b"a".to_vec()), (b"user:2".to_vec(), b"b".to_vec())]
    );
}

#[test]
fn scan_results_sorted() {
    let mut db = Database::memory();
    db.write(b"b", b"2");
    db.write(b"a", b"1");
    db.write(b"c", b"3");
    assert_eq!(
        db.list(b"", b""),
        vec![b"a".to_vec(), b"b".to_vec(), b"c".to_vec()]
    );
}

#[test]
fn occ_read_conflict() {
    let mut db = Database::memory();
    let mut t1 = db.start_writes();
    assert_eq!(t1.read(&db, b"k"), Vec::<u8>::new());
    db.write(b"k", b"v");
    t1.write(b"other", b"z");
    match t1.commit(&mut db) {
        Err(TransactionError::Conflict) => {}
        _ => panic!("expected a conflict"),
    }
    // The conflicting transaction left no trace.
    assert_eq!(db.read(b"other"), Vec::<u8>::new());
}

#[test]
fn occ_disjoint_no_conflict() {
    let mut db = Database::memory();
    let mut t1 = db.start_writes();
    let _ = t1.read(&db, b"a");
    db.write(b"b", b"x");
    t1.write(b"c", b"y");
    assert!(t1.commit(&mut db).is_ok());
    assert_eq!(db.read(b"c"), b"y".to_vec());
    assert_eq!(db.read(b"b"), b"x".to_vec());
}

#[test]
fn occ_scan_witness_conflict() {
    let mut db = Database::memory();
    let mut t1 = db.start_writes();
    assert!(t1.list(&db, b"u", b"").is_empty());
    db.write(b"user:1", b"x");
    t1.write(b"w", b"1");
    match t1.commit(&mut db) {
        Err(TransactionError::Conflict) => {}
        _ => panic!("expected a conflict"),
    }
}

#[test]
fn occ_scan_witness_disjoint_commit() {
    let mut db = Database::memory();
    let mut t1 = db.start_writes();
    assert!(t1.list(&db, b"u", b"").is_empty());
    db.write(b"other", b"x");
    t1.write(b"w", b"1");
    assert!(t1.commit(&mut db).is_ok());
}

#[test]
fn write_only_transactions_never_conflict() {
    let mut db = Database::memory();
    let mut t1 = db.start_writes();
    let mut t2 = db.start_writes();
    t1.write(b"k", b"from-t1");
    t2.write(b"k", b"from-t2");
    assert!(t1.commit(&mut db).is_ok());
    assert!(t2.commit(&mut db).is_ok());
    assert_eq!(db.read(b"k"), b"from-t2".to_vec());
}

#[test]
fn transaction_reads_its_own_writes() {
    let mut db = Database::memory();
    db.write(b"k", b"old");
    let mut tx = db.start_writes();
    tx.write(b"k", b"new");
    assert_eq!(tx.read(&db, b"k"), b"new".to_vec());
    assert_eq!(tx.len(&db, b"k"), 3);
    let pairs = tx.scan(&db, b"", b"");
    assert_eq!(pairs, vec![(b"k".to_vec(), b"new".to_vec())]);
    tx.rollback();
    assert_eq!(db.read(b"k"), b"old".to_vec());
}

#[test]
fn transaction_scan_hides_own_deletion() {
    let mut db = Database::memory();
    db.write(b"k", b"v");
    let mut tx = db.start_writes();
    tx.write(b"k", b"");
    assert!(tx.list(&db, b"", b"").is_empty());
    assert_eq!(tx.count(&db, b"", b""), 0);
}

#[test]
fn snapshot_pins_state() {
    let mut db = Database::memory();
    db.write(b"k", b"v1");
    {
        let snap = db.snapshot();
        assert_eq!(snap.read(b"k"), b"v1".to_vec());
        assert_eq!(snap.len(b"k"), 2);
        assert_eq!(snap.count(b"", b""), 1);
        assert_eq!(snap.list(b"", b""), vec![b"k".to_vec()]);
        assert_eq!(snap.scan(b"", b""), vec![(b"k".to_vec(), b"v1".to_vec())]);
    }
    db.write(b"k", b"v2");
    assert_eq!(db.read(b"k"), b"v2".to_vec());
}

#[test]
fn time_travel_snapshot() {
    // Two records with fixed, distinct timestamps; recovery keeps them.
    let mut log: Vec<u8> = Vec::new();
    for (secs, value) in [(100u64, b"v1"), (200u64, b"v2")] {
        log.extend_from_slice(&secs.to_le_bytes());
        log.extend_from_slice(&0u32.to_le_bytes());
        log.extend_from_slice(&1u32.to_le_bytes());
        log.extend_from_slice(&1u32.to_le_bytes());
        log.push(b'k');
        log.extend_from_slice(&2u32.to_le_bytes());
        log.extend_from_slice(value);
    }
    let (db, _) = Database::from_log_bytes(&log);
    assert_eq!(db.read(b"k"), b"v2".to_vec());
    // At or after the second commit: the newest state.
    let now = db.past_unix_time_snapshot_with(Timestamp::new(250, 0));
    assert_eq!(now.read(b"k"), b"v2".to_vec());
    // Between the commits: the first one.
    let mid = db.past_unix_time_snapshot_with(Timestamp::new(150, 0));
    assert_eq!(mid.read(b"k"), b"v1".to_vec());
    // Exactly at the first commit: included.
    let at = db.past_unix_time_snapshot_with(Timestamp::new(100, 0));
    assert_eq!(at.read(b"k"), b"v1".to_vec());
    // Before any commit: an empty view.
    let old = db.past_unix_time_snapshot_with(Timestamp::new(50, 0));
    assert_eq!(old.read(b"k"), Vec::<u8>::new());
}

#[test]
fn timestamps_compare() {
    let a = Timestamp::new(1, 500);
    let b = Timestamp::new(1, 600);
    let c = Timestamp::new(2, 0);
    assert!(a.le(&b));
    assert!(!b.le(&a));
    assert!(b.le(&c));
    assert!(a.le(&a));
}

#[test]
fn sync_mode_default_and_builder() {
    assert_eq!(DatabaseWriteSyncMode::default(), DatabaseWriteSyncMode::Sync);
    // A memory database has no log, so the sync mode stays put.
    let db = Database::memory().write_sync_mode(DatabaseWriteSyncMode::Cached);
    assert_eq!(db.sync, DatabaseWriteSyncMode::Sync);
    let (pdb, _) = Database::from_log_bytes(&[]);
    let pdb = pdb.write_sync_mode(DatabaseWriteSyncMode::Flush);
    assert_eq!(pdb.sync, DatabaseWriteSyncMode::Flush);
}

#[test]
fn commit_timestamps_are_wall_clock() {
    let mut db = Database::memory();
    let t = db.write(b"k", b"v");
    // Nanoseconds never reach a full second, and the clock is past the epoch.
    assert!(t.nanos < 1_000_000_000);
    assert!(t.secs > 0);
}
