//! End-to-end behaviour of the store: mutations, reads, rotation and
//! recovery, driven through the public interface with the log bytes kept
//! in memory the way the shell would keep them on disk.

use mintdb::db::Database;
use mintdb::key::SeqNo;
use mintdb::memtable::MemTable;
use mintdb::sstable::manager::SSTableManager;
use mintdb::wal::WalRecord;
use mintdb::StoreError;

fn fresh_db() -> Database {
    let (mgr, _plan) = SSTableManager::bootstrap();
    Database::open(&Vec::new(), mgr).expect("fresh store must open")
}

fn b(s: &str) -> Vec<u8> {
    s.as_bytes().to_vec()
}

#[test]
fn put_delete_get_round() {
    // fresh store; put a=1, put b=2, delete a
    let mut db = fresh_db();
    let mut wal_file: Vec<u8> = Vec::new();
    wal_file.extend_from_slice(&db.put(b("a"), b("1")).unwrap());
    wal_file.extend_from_slice(&db.put(b("b"), b("2")).unwrap());
    wal_file.extend_from_slice(&db.delete(b("a")).unwrap());

    assert_eq!(db.get(&b("a")), None);
    assert_eq!(db.get(&b("b")), Some(b("2")));

    // the log holds the three records in order
    let records = db.debug_replay_wal();
    assert_eq!(records.len(), 3);
    assert!(matches!(&records[0], WalRecord::Put { key, val } if key.user_key() == &b("a") && val == &b("1")));
    assert!(matches!(&records[1], WalRecord::Put { key, val } if key.user_key() == &b("b") && val == &b("2")));
    assert!(matches!(&records[2], WalRecord::Delete { key } if key.user_key() == &b("a")));
}

#[test]
fn overwrite_keeps_freshest() {
    let mut db = fresh_db();
    db.put(b("k"), b("v1")).unwrap();
    db.put(b("k"), b("v2")).unwrap();
    assert_eq!(db.get(&b("k")), Some(b("v2")));

    // both versions sit in the active table under the same user key with
    // consecutive sequence numbers, the fresher one sorted first
    let versions = db.active_table().iter_by_user_key(&b("k"));
    assert_eq!(versions.len(), 2);
    let s_first = versions[0].key.seqno().get();
    let s_second = versions[1].key.seqno().get();
    assert_eq!(s_first, s_second + 1);
}

#[test]
fn crash_recovery_restores_acknowledged_writes() {
    // write, "crash" (drop the store), reopen from the persisted log bytes
    let mut db = fresh_db();
    let mut wal_file: Vec<u8> = Vec::new();
    wal_file.extend_from_slice(&db.put(b("x"), b("X")).unwrap());
    let seq_x = match &db.debug_replay_wal()[0] {
        WalRecord::Put { key, .. } => key.seqno().get(),
        _ => panic!("expected a put record"),
    };
    drop(db);

    let (mgr, _plan) = SSTableManager::bootstrap();
    let mut db2 = Database::open(&wal_file, mgr).expect("reopen after crash");
    assert_eq!(db2.get(&b("x")), Some(b("X")));

    // the next mutation is sequenced strictly after everything replayed
    db2.put(b("y"), b("Y")).unwrap();
    let records = db2.debug_replay_wal();
    let seq_y = match &records[1] {
        WalRecord::Put { key, .. } => key.seqno().get(),
        _ => panic!("expected a put record"),
    };
    assert!(seq_y > seq_x);
}

#[test]
fn replaying_twice_gives_the_same_view() {
    let mut db = fresh_db();
    let mut wal_file: Vec<u8> = Vec::new();
    wal_file.extend_from_slice(&db.put(b("a"), b("1")).unwrap());
    wal_file.extend_from_slice(&db.delete(b("a")).unwrap());
    wal_file.extend_from_slice(&db.put(b("b"), b("2")).unwrap());

    let (m1, _) = SSTableManager::bootstrap();
    let db1 = Database::open(&wal_file, m1).unwrap();
    let (m2, _) = SSTableManager::bootstrap();
    let db2 = Database::open(&wal_file, m2).unwrap();
    for k in ["a", "b", "c"] {
        assert_eq!(db1.get(&b(k)), db2.get(&b(k)));
        assert_eq!(db1.get(&b(k)), db.get(&b(k)));
    }
    assert_eq!(db1.debug_replay_wal().len(), db2.debug_replay_wal().len());
}

#[test]
fn rotation_freezes_full_tables() {
    // values of 20 KiB cross the 64 KiB freeze threshold every few puts
    let mut db = fresh_db();
    let big = vec![7u8; 20 * 1024];
    for i in 0..8u8 {
        db.put(vec![i], big.clone()).unwrap();
    }
    // the fourth put crosses the 64 KiB table threshold; from then on the
    // log, never truncated, stays over its own threshold, so every further
    // put rotates the table as well
    assert_eq!(db.frozen_count(), 5);
    // every inserted key still reads from the in-memory tiers
    for i in 0..8u8 {
        assert_eq!(db.get(&vec![i]), Some(big.clone()));
    }
}

#[test]
fn sequence_numbers_are_gapless_within_a_run() {
    let mut db = fresh_db();
    db.put(b("a"), b("1")).unwrap();
    db.put(b("b"), b("2")).unwrap();
    db.delete(b("a")).unwrap();
    let records = db.debug_replay_wal();
    let seqs: Vec<u64> = records.iter().map(|r| r.key().seqno().get()).collect();
    assert_eq!(seqs, vec![1, 2, 3]);
}

#[test]
fn open_refuses_corrupt_log() {
    // a frame that announces more bytes than the file holds
    let bad = vec![200u8, 0, 0, 0, 1, 2, 3];
    let (mgr, _) = SSTableManager::bootstrap();
    match Database::open(&bad, mgr) {
        Err(StoreError::TruncatedFrame) => {}
        other => panic!("expected a truncated-frame error, got {:?}", other.is_ok()),
    }
}

#[test]
fn open_refuses_undecodable_record() {
    // a well-framed body that is not a record
    let bad = vec![1u8, 0, 0, 0, 99u8];
    let (mgr, _) = SSTableManager::bootstrap();
    match Database::open(&bad, mgr) {
        Err(StoreError::CorruptRecord) => {}
        other => panic!("expected a corrupt-record error, got {:?}", other.is_ok()),
    }
}

#[test]
fn memtable_latest_version_wins() {
    let mut mt = MemTable::new();
    mt.put(mintdb::key::Key::new(b("k"), SeqNo(1)), b("old"));
    mt.put(mintdb::key::Key::new(b("k"), SeqNo(2)), b("new"));
    match mt.get_latest(&b("k")) {
        Some(mintdb::Value::Data(d)) => assert_eq!(d, b("new")),
        _ => panic!("expected the fresh value"),
    }
    assert_eq!(mt.len(), 2);
}

#[test]
fn memtable_freeze_empties_the_table() {
    let mut mt = MemTable::new();
    mt.put(mintdb::key::Key::new(b("k"), SeqNo(1)), b("v"));
    let frozen = mt.freeze();
    assert_eq!(mt.len(), 0);
    assert_eq!(mt.size(), 0);
    assert_eq!(frozen.len(), 1);
    match frozen.get_latest(&b("k")) {
        Some(mintdb::Value::Data(d)) => assert_eq!(d, b("v")),
        _ => panic!("expected the frozen value"),
    }
}

#[test]
fn memtable_size_estimate_tracks_payloads() {
    let mut mt = MemTable::new();
    mt.put(mintdb::key::Key::new(b("key"), SeqNo(1)), b("12345"));
    assert_eq!(mt.size(), 3 + 5);
    // same internal key: replacement adjusts by the payload delta
    mt.put(mintdb::key::Key::new(b("key"), SeqNo(1)), b("12"));
    assert_eq!(mt.size(), 3 + 2);
    mt.delete(mintdb::key::Key::new(b("key"), SeqNo(2)));
    assert_eq!(mt.size(), (3 + 2) + 3);
}
