//! The byte formats: round trips for every record kind, the framed log
//! codec, the manifest replay, the sorted-table layout, and file naming.

use mintdb::framed::{read_all_framed, read_framed, write_framed};
use mintdb::key::{Key, SeqNo};
use mintdb::memtable::MemTable;
use mintdb::sstable::manager::{
    calculate_sstable_size, format_file_name, FileNo, OpenMode, SSTableManager, BASE_LEVEL_SIZE,
    MANIFEST_FILE_EXT, SSTABLE_MAGIC,
};
use mintdb::sstable::manifest::{FileMeta, Manifest, ManifestRecord};
use mintdb::sstable::sstable::{index_block_size, BlockMeta, SSTableFooter};
use mintdb::sstable::Level;
use mintdb::value::{Value, ValueType};
use mintdb::wal::WalRecord;
use mintdb::StoreError;

fn b(s: &str) -> Vec<u8> {
    s.as_bytes().to_vec()
}

#[test]
fn key_round_trip() {
    let k = Key::new(b("user-key"), SeqNo(42));
    let bytes = k.encode_to_bytes();
    assert_eq!(bytes.len(), 4 + 8 + 8);
    let (k2, next) = Key::decode_from(&bytes, 0).expect("key must decode");
    assert_eq!(next, bytes.len());
    assert!(k.key_eq(&k2));
    assert_eq!(k2.user_key(), &b("user-key"));
    assert_eq!(k2.seqno().get(), 42);
}

#[test]
fn key_order_inverts_seqno() {
    // ascending by user key, then descending by sequence number
    let a5 = Key::new(b("a"), SeqNo(5));
    let a3 = Key::new(b("a"), SeqNo(3));
    let b1 = Key::new(b("b"), SeqNo(1));
    assert!(a5.lt(&a3));
    assert!(!a3.lt(&a5));
    assert!(a5.lt(&b1));
    assert!(a3.lt(&b1));
    assert!(!b1.lt(&a5));
    // a proper prefix sorts before its extensions
    let ab = Key::new(b("ab"), SeqNo(9));
    assert!(a3.lt(&ab));
}

#[test]
fn value_round_trip() {
    let v = Value::Data(b("payload"));
    let mut buf: Vec<u8> = Vec::new();
    v.encode_into(&mut buf);
    let (v2, next) = Value::decode_from(&buf, 0).expect("value must decode");
    assert_eq!(next, buf.len());
    match v2 {
        Value::Data(d) => assert_eq!(d, b("payload")),
        Value::Tombstone => panic!("expected data"),
    }

    let t = Value::Tombstone;
    let mut buf2: Vec<u8> = Vec::new();
    t.encode_into(&mut buf2);
    assert_eq!(buf2, vec![1u8]);
    let (t2, _) = Value::decode_from(&buf2, 0).unwrap();
    assert!(matches!(t2, Value::Tombstone));
}

#[test]
fn value_type_tags() {
    assert_eq!(ValueType::Data.as_u8(), 0);
    assert_eq!(ValueType::Tombstone.as_u8(), 1);
    assert!(matches!(ValueType::from_u8(0), Some(ValueType::Data)));
    assert!(matches!(ValueType::from_u8(1), Some(ValueType::Tombstone)));
    assert!(ValueType::from_u8(2).is_none());
}

#[test]
fn wal_record_round_trip() {
    let put = WalRecord::Put { key: Key::new(b("k"), SeqNo(7)), val: b("v") };
    let mut body: Vec<u8> = Vec::new();
    put.encode_into(&mut body);
    let put2 = WalRecord::decode(&body).expect("put must decode");
    assert!(matches!(&put2, WalRecord::Put { key, val } if key.seqno().get() == 7 && val == &b("v")));

    let del = WalRecord::Delete { key: Key::new(b("k"), SeqNo(8)) };
    let mut body2: Vec<u8> = Vec::new();
    del.encode_into(&mut body2);
    let del2 = WalRecord::decode(&body2).expect("delete must decode");
    assert!(matches!(&del2, WalRecord::Delete { key } if key.seqno().get() == 8));
}

#[test]
fn framed_stream_round_trip() {
    let mut stream: Vec<u8> = Vec::new();
    let w1 = write_framed(&mut stream, &b("one")).unwrap();
    assert_eq!(w1, 4 + 3);
    write_framed(&mut stream, &b("two!")).unwrap();
    let bodies = read_all_framed(&stream).unwrap();
    assert_eq!(bodies, vec![b("one"), b("two!")]);

    let (first, next) = read_framed(&stream, 0).unwrap();
    assert_eq!(first, b("one"));
    let (second, end) = read_framed(&stream, next).unwrap();
    assert_eq!(second, b("two!"));
    assert!(matches!(read_framed(&stream, end), Err(StoreError::EndOfInput)));
}

#[test]
fn framed_stream_rejects_truncation() {
    let mut stream: Vec<u8> = Vec::new();
    write_framed(&mut stream, &b("body")).unwrap();
    stream.pop();
    assert!(matches!(read_all_framed(&stream), Err(StoreError::TruncatedFrame)));
}

#[test]
fn manifest_record_round_trips() {
    let mut m = Manifest::new();
    let (_, alloc) = m.alloc_file_number();
    let records = vec![
        ManifestRecord::Snapshot(m.duplicate()),
        ManifestRecord::CreateFile {
            level: Level(0),
            file_meta: FileMeta {
                file_number: 3,
                file_size: 128,
                smallest_key: b("a"),
                largest_key: b("z"),
            },
        },
        ManifestRecord::DeleteFile { level: Level(0), file_number: 3 },
        ManifestRecord::SetLastSeqNo(SeqNo(11)),
        alloc,
    ];
    for rec in records {
        let mut body: Vec<u8> = Vec::new();
        rec.encode_into(&mut body);
        let rec2 = ManifestRecord::decode(&body).expect("record must decode");
        let mut body2: Vec<u8> = Vec::new();
        rec2.encode_into(&mut body2);
        assert_eq!(body, body2);
    }
}

#[test]
fn manifest_replay_applies_deltas_in_order() {
    let mut log: Vec<u8> = Vec::new();
    let mut m = Manifest::new();
    // snapshot, a created file, a raised commit point, an allocation
    let mut body: Vec<u8> = Vec::new();
    ManifestRecord::Snapshot(m.duplicate()).encode_into(&mut body);
    write_framed(&mut log, &body).unwrap();
    let create = ManifestRecord::CreateFile {
        level: Level(0),
        file_meta: FileMeta {
            file_number: 0,
            file_size: 64,
            smallest_key: b("a"),
            largest_key: b("m"),
        },
    };
    let mut body2: Vec<u8> = Vec::new();
    create.encode_into(&mut body2);
    write_framed(&mut log, &body2).unwrap();
    let mut body3: Vec<u8> = Vec::new();
    ManifestRecord::SetLastSeqNo(SeqNo(9)).encode_into(&mut body3);
    write_framed(&mut log, &body3).unwrap();

    let loaded = Manifest::load_from_bytes(&log).expect("manifest must replay");
    assert_eq!(loaded.last_committed_sequence_number.get(), 9);
    let files = loaded.files_of(&Level(0));
    assert_eq!(files.len(), 1);
    assert_eq!(files[0].file_number, 0);
    assert_eq!(files[0].smallest_key, b("a"));

    // applying the same records to an in-memory catalog agrees
    m.apply(create).unwrap();
    m.apply(ManifestRecord::SetLastSeqNo(SeqNo(9))).unwrap();
    let files2 = m.files_of(&Level(0));
    assert_eq!(files2.len(), 1);
    assert_eq!(files2[0].file_number, files[0].file_number);
}

#[test]
fn manifest_set_last_seqno_takes_the_maximum() {
    let mut m = Manifest::new();
    m.apply(ManifestRecord::SetLastSeqNo(SeqNo(9))).unwrap();
    m.apply(ManifestRecord::SetLastSeqNo(SeqNo(4))).unwrap();
    assert_eq!(m.last_committed_sequence_number.get(), 9);
}

#[test]
fn manifest_alloc_raises_next_file_number() {
    let mut m = Manifest::new();
    m.apply(ManifestRecord::AllocFileNumber(FileNo(5))).unwrap();
    assert_eq!(m.next_file_number.0, 6);
    m.apply(ManifestRecord::AllocFileNumber(FileNo(2))).unwrap();
    assert_eq!(m.next_file_number.0, 6);
}

#[test]
fn replay_from_latest_snapshot_discards_history() {
    // two logs that differ before the snapshot replay to the same catalog
    let older = ManifestRecord::CreateFile {
        level: Level(0),
        file_meta: FileMeta {
            file_number: 0,
            file_size: 1,
            smallest_key: b("x"),
            largest_key: b("y"),
        },
    };
    let snap_state = {
        let mut m = Manifest::new();
        m.apply(ManifestRecord::SetLastSeqNo(SeqNo(5))).unwrap();
        m
    };
    let newer = ManifestRecord::SetLastSeqNo(SeqNo(7));

    let mut log_with_history: Vec<u8> = Vec::new();
    let mut body: Vec<u8> = Vec::new();
    older.encode_into(&mut body);
    write_framed(&mut log_with_history, &body).unwrap();
    let mut log_without_history: Vec<u8> = Vec::new();
    for log in [&mut log_with_history, &mut log_without_history] {
        let mut b1: Vec<u8> = Vec::new();
        ManifestRecord::Snapshot(snap_state.duplicate()).encode_into(&mut b1);
        write_framed(log, &b1).unwrap();
        let mut b2: Vec<u8> = Vec::new();
        newer.encode_into(&mut b2);
        write_framed(log, &b2).unwrap();
    }

    let m1 = Manifest::load_from_bytes(&log_with_history).unwrap();
    let m2 = Manifest::load_from_bytes(&log_without_history).unwrap();
    assert_eq!(m1.last_committed_sequence_number.get(), 7);
    assert_eq!(m2.last_committed_sequence_number.get(), 7);
    assert_eq!(m1.next_file_number.0, m2.next_file_number.0);
    assert_eq!(m1.files_of(&Level(0)).len(), 0);
    assert_eq!(m2.files_of(&Level(0)).len(), 0);
}

#[test]
fn manifest_load_rejects_garbage() {
    let mut log: Vec<u8> = Vec::new();
    write_framed(&mut log, &vec![42u8, 1, 2]).unwrap();
    assert!(matches!(Manifest::load_from_bytes(&log), Err(StoreError::CorruptRecord)));
}

#[test]
fn bootstrap_writes_the_initial_catalog() {
    let (mgr, plan) = SSTableManager::bootstrap();
    assert_eq!(plan.manifest_file_name, "000000.manifest");
    assert_eq!(mgr.last_committed_sequence_number().get(), 0);
    // the snapshot frame parses back to the initial catalog
    let loaded = Manifest::load_from_bytes(&plan.snapshot_frame).expect("snapshot must parse");
    assert_eq!(loaded.next_file_number.0, 1);
    assert_eq!(loaded.last_committed_sequence_number.get(), 0);
    assert_eq!(loaded.files_of(&Level(0)).len(), 0);
    assert_eq!(loaded.max_level().0, 0);
}

#[test]
fn open_mode_judges_the_directory() {
    assert_eq!(SSTableManager::open_mode(true, true), Ok(OpenMode::Load));
    assert_eq!(SSTableManager::open_mode(true, false), Ok(OpenMode::Load));
    assert_eq!(SSTableManager::open_mode(false, true), Ok(OpenMode::Bootstrap));
    assert_eq!(
        SSTableManager::open_mode(false, false),
        Err(StoreError::InconsistentState)
    );
}

#[test]
fn flush_writes_wellformed_tables() {
    // fill a table past one block and flush it
    let mut mt = MemTable::new();
    let payload = vec![9u8; 5000];
    for i in 0..10u8 {
        mt.put(Key::new(vec![i], SeqNo(i as u64 + 1)), payload.clone());
    }
    let frozen = mt.freeze();
    let (mut mgr, _plan) = SSTableManager::bootstrap();
    let files = mgr.flush_memtable(&frozen).expect("flush must succeed");
    assert_eq!(files.len(), 1);
    let f = &files[0];
    assert_eq!(f.file_no.0, 1);
    assert_eq!(f.file_name, "000001.sstable");
    assert_eq!(f.first_entry, 0);
    assert_eq!(f.end_entry, 10);

    // the file parses: footer magic, index bounds
    let bytes = &f.bytes;
    assert!(bytes.len() >= 32);
    let footer = SSTableFooter::decode_from(bytes, bytes.len() - 32);
    assert_eq!(footer.magic, SSTABLE_MAGIC);
    assert_eq!(footer.index_offset + footer.index_size + 32, bytes.len() as u64);
    assert_eq!(f.meta.file_size, bytes.len() as u64);
    assert_eq!(f.meta.file_number, 1);
    assert_eq!(f.meta.smallest_key, Key::new(vec![0u8], SeqNo(1)).encode_to_bytes());
    assert_eq!(f.meta.largest_key, Key::new(vec![9u8], SeqNo(10)).encode_to_bytes());

    // the creation is recorded in the catalog
    let level0 = mgr.iter_level(&Level(0));
    assert_eq!(level0.len(), 1);
    assert_eq!(level0[0].file_number, 1);

    // its frames decode to the records of the protocol
    let alloc = ManifestRecord::decode(&read_all_framed(&f.alloc_frame).unwrap()[0]).unwrap();
    assert!(matches!(alloc, ManifestRecord::AllocFileNumber(FileNo(1))));
    let create = ManifestRecord::decode(&read_all_framed(&f.create_frame).unwrap()[0]).unwrap();
    assert!(matches!(create, ManifestRecord::CreateFile { level: Level(0), .. }));
}

#[test]
fn flush_of_two_frozen_tables_records_two_files() {
    let (mut mgr, _plan) = SSTableManager::bootstrap();
    let payload = vec![3u8; 40000];
    for round in 0..2u8 {
        let mut mt = MemTable::new();
        mt.put(Key::new(vec![round], SeqNo(round as u64 + 1)), payload.clone());
        mt.put(Key::new(vec![round, 1], SeqNo(round as u64 + 10)), payload.clone());
        let frozen = mt.freeze();
        let files = mgr.flush_memtable(&frozen).expect("flush must succeed");
        assert_eq!(files.len(), 1);
    }
    assert_eq!(mgr.iter_level(&Level(0)).len(), 2);
}

#[test]
fn empty_frozen_table_flushes_to_nothing() {
    let mut mt = MemTable::new();
    let frozen = mt.freeze();
    let (mut mgr, _plan) = SSTableManager::bootstrap();
    let files = mgr.flush_memtable(&frozen).expect("empty flush must succeed");
    assert_eq!(files.len(), 0);
    assert_eq!(mgr.iter_level(&Level(0)).len(), 0);
}

#[test]
fn index_block_size_counts_entries() {
    let metas = vec![
        BlockMeta { last_key: Key::new(b("ab"), SeqNo(1)), offset: 0, size: 100 },
        BlockMeta { last_key: Key::new(b("cdef"), SeqNo(2)), offset: 100, size: 50 },
    ];
    // a 32-bit count, then per block its encoded last key plus offset and size
    assert_eq!(index_block_size(&metas), 4 + (4 + 2 + 8 + 12) + (4 + 4 + 8 + 12));
}

#[test]
fn sequence_counter_hands_out_and_skips() {
    let mut s = SeqNo(5);
    let cur = s.next();
    assert_eq!(cur.get(), 5);
    assert_eq!(s.get(), 6);
    s.skip(4);
    assert_eq!(s.get(), 10);
}

#[test]
fn key_helpers_cover_the_version_range() {
    let (lo, hi) = Key::range_by_user_key(b("k"));
    assert_eq!(lo.seqno().get(), u64::MAX);
    assert_eq!(hi.seqno().get(), 0);
    let any = Key::new(b("k"), SeqNo(17));
    assert!(lo.lt(&any) || lo.key_eq(&any));
    assert!(any.lt(&hi) || any.key_eq(&hi));
    assert_eq!(any.encoded_len(), 4 + 1 + 8);
    let moved = any.with_seqno(SeqNo(3));
    assert_eq!(moved.user_key(), any.user_key());
    assert_eq!(moved.seqno().get(), 3);
}

#[test]
fn footer_round_trip() {
    let f = SSTableFooter {
        index_offset: 12345,
        index_size: 678,
        reserved1: 0,
        reserved2: 0,
        magic: SSTABLE_MAGIC,
    };
    let mut buf: Vec<u8> = Vec::new();
    f.encode_into(&mut buf);
    assert_eq!(buf.len(), 32);
    let f2 = SSTableFooter::decode_from(&buf, 0);
    assert_eq!(f, f2);
}

#[test]
fn file_names_are_zero_padded_decimal() {
    assert_eq!(format_file_name(FileNo(0), MANIFEST_FILE_EXT), "000000.manifest");
    assert_eq!(format_file_name(FileNo(7), "sstable"), "000007.sstable");
    assert_eq!(format_file_name(FileNo(123456), "sstable"), "123456.sstable");
    assert_eq!(format_file_name(FileNo(9876543), "sstable"), "9876543.sstable");
}

#[test]
fn level_budgets_grow_tenfold() {
    assert_eq!(calculate_sstable_size(&Level(0)), BASE_LEVEL_SIZE);
    assert_eq!(calculate_sstable_size(&Level(1)), BASE_LEVEL_SIZE * 10);
    assert_eq!(calculate_sstable_size(&Level(3)), BASE_LEVEL_SIZE * 1000);
}

#[test]
fn wal_counters_track_appends() {
    let mut wal = mintdb::wal::Wal::new();
    assert_eq!(wal.len(), 0);
    let frame = wal
        .append(WalRecord::Put { key: Key::new(b("k"), SeqNo(1)), val: b("v") })
        .unwrap();
    assert_eq!(wal.len(), 1);
    assert_eq!(wal.size(), frame.len() as u64);
    assert!(!wal.should_compact());
    let replayed = wal.replay();
    assert_eq!(replayed.len(), 1);
    wal.clear();
    assert_eq!(wal.len(), 0);
    assert_eq!(wal.size(), 0);
}

#[test]
fn wal_open_parses_its_own_frames() {
    let mut wal = mintdb::wal::Wal::new();
    let mut file: Vec<u8> = Vec::new();
    file.extend_from_slice(
        &wal.append(WalRecord::Put { key: Key::new(b("a"), SeqNo(1)), val: b("1") }).unwrap(),
    );
    file.extend_from_slice(
        &wal.append(WalRecord::Delete { key: Key::new(b("a"), SeqNo(2)) }).unwrap(),
    );
    let wal2 = mintdb::wal::Wal::open(&file).expect("own frames must parse");
    assert_eq!(wal2.len(), 2);
    assert_eq!(wal2.size(), file.len() as u64);
}
