//! The database facade: the write path, the read path, and recovery.
//!
//! A database composes the write-ahead log, the active table, the queue of
//! frozen tables and the catalog manager.  Every mutation is assigned the
//! next sequence number, logged, and only then inserted into the active
//! table; the caller must write and fsync the returned log frame before
//! acknowledging the mutation.  A read searches the active table first,
//! then the frozen tables newest first; the first version of the user key
//! found is the freshest, by the inverted sequence-number order.

use vstd::prelude::*;

use crate::framed::{frame_enc, frame_len};
use crate::key::{Key, KeyV, SeqNo};
use crate::memtable::{
    entries_insert, entries_size, entry_weight, first_with_user_key, lemma_entries_size_nonneg,
    lemma_insert_latest, lemma_insert_membership, lemma_insert_size, Active, EntryV, Frozen,
    MemTable, MEMTABLE_MAX_SIZE,
};
use crate::sstable::manager::SSTableManager;
use crate::value::{Value, ValueV};
use crate::wal::{
    wal_record_enc, wal_record_key, wal_record_wf, wal_size_of, Wal, WalRecord, WalRecordV,
    WAL_MAX_SIZE,
};
use crate::StoreError;

verus! {

/// The table entry a logged mutation produces: puts carry data, deletes a
/// tombstone.
pub open spec fn record_entry(r: WalRecordV) -> EntryV {
    match r {
        WalRecordV::Put { key, val } => EntryV { key, value: ValueV::Data(val) },
        WalRecordV::Delete { key } => EntryV { key, value: ValueV::Tombstone },
    }
}

/// The in-memory tiers a replay builds: the frozen tables, oldest first,
/// and the active table.
#[verifier::ext_equal]
pub struct TierState {
    pub imm: Seq<Seq<EntryV>>,
    pub table: Seq<EntryV>,
}

/// One replay step: a record below the committed sequence number is
/// skipped; any other is inserted into the active table, which freezes
/// when it crosses the threshold.
pub open spec fn replay_step(st: TierState, r: WalRecordV, committed: u64) -> TierState {
    if wal_record_key(r).seqno < committed {
        st
    } else {
        let t2 = entries_insert(st.table, record_entry(r));
        if entries_size(t2) >= MEMTABLE_MAX_SIZE {
            TierState { imm: st.imm.push(t2), table: Seq::empty() }
        } else {
            TierState { imm: st.imm, table: t2 }
        }
    }
}

/// Replaying a record stream onto empty tiers.
pub open spec fn replay(records: Seq<WalRecordV>, committed: u64) -> TierState
    decreases records.len(),
{
    if records.len() == 0 {
        TierState { imm: Seq::empty(), table: Seq::empty() }
    } else {
        replay_step(replay(records.drop_last(), committed), records.last(), committed)
    }
}

/// The largest sequence number among the records, at least `committed`.
pub open spec fn wal_max_seqno(records: Seq<WalRecordV>, committed: u64) -> u64
    decreases records.len(),
{
    if records.len() == 0 {
        committed
    } else {
        let rest = wal_max_seqno(records.drop_last(), committed);
        if wal_record_key(records.last()).seqno > rest {
            wal_record_key(records.last()).seqno
        } else {
            rest
        }
    }
}

/// The freshest version of `u` in the frozen tables, newest table first.
pub open spec fn frozen_lookup(ts: Seq<Seq<EntryV>>, u: Seq<u8>) -> Option<ValueV>
    decreases ts.len(),
{
    if ts.len() == 0 {
        None
    } else {
        match first_with_user_key(ts.last(), u) {
            Some(e) => Some(e.value),
            None => frozen_lookup(ts.drop_last(), u),
        }
    }
}

/// The freshest version of `u` across the tiers: the active table first,
/// then the frozen tables newest first.
pub open spec fn tier_lookup(st: TierState, u: Seq<u8>) -> Option<ValueV> {
    match first_with_user_key(st.table, u) {
        Some(e) => Some(e.value),
        None => frozen_lookup(st.imm, u),
    }
}

/// The value the log stream itself assigns to `u`: that of the last record
/// for `u` at or above the committed sequence number.
pub open spec fn wal_map(records: Seq<WalRecordV>, committed: u64, u: Seq<u8>) -> Option<ValueV>
    decreases records.len(),
{
    if records.len() == 0 {
        None
    } else {
        let r = records.last();
        if wal_record_key(r).user_key == u && wal_record_key(r).seqno >= committed {
            Some(record_entry(r).value)
        } else {
            wal_map(records.drop_last(), committed, u)
        }
    }
}

/// Record sequence numbers strictly increase along the log.
pub open spec fn wal_seqnos_increasing(records: Seq<WalRecordV>) -> bool {
    forall|i: int, j: int|
        0 <= i < j < records.len() ==> wal_record_key(#[trigger] records[i]).seqno < wal_record_key(
            #[trigger] records[j],
        ).seqno
}

/// Every entry of every tier carries a sequence number below `b`.
pub open spec fn tiers_below(st: TierState, b: int) -> bool {
    (forall|i: int|
        0 <= i < st.table.len() ==> (#[trigger] st.table[i]).key.seqno < b) && (forall|t: int, i: int|
        0 <= t < st.imm.len() && 0 <= i < st.imm[t].len() ==> (#[trigger] st.imm[t][i]).key.seqno
            < b)
}

/// The sum of the user-key and payload lengths of the records: what they
/// can contribute to table size estimates.
pub open spec fn records_weight(records: Seq<WalRecordV>) -> int
    decreases records.len(),
{
    if records.len() == 0 {
        0
    } else {
        entry_weight(record_entry(records[0])) + records_weight(records.drop_first())
    }
}

/// A record stream never outweighs its framed byte size.
pub proof fn lemma_records_weight_le_size(records: Seq<WalRecordV>)
    ensures
        0 <= records_weight(records) <= wal_size_of(records),
    decreases records.len(),
{
    if records.len() > 0 {
        lemma_records_weight_le_size(records.drop_first());
        assert(entry_weight(record_entry(records[0])) <= frame_len(wal_record_enc(records[0])))
            by {
            match records[0] {
                WalRecordV::Put { key, val } => {
                    assert(wal_record_enc(records[0]).len() == 17 + key.user_key.len()
                        + val.len());
                },
                WalRecordV::Delete { key } => {
                    assert(wal_record_enc(records[0]).len() == 13 + key.user_key.len());
                },
            }
        }
    }
}

/// The embedded key-value store.
pub struct Database {
    table: MemTable<Active>,
    imm_tables: Vec<MemTable<Frozen>>,
    wal: Wal,
    seqno: SeqNo,
    sstables: SSTableManager,
}

impl Database {
    /// The frozen-tier views, oldest first.
    pub closed spec fn imm_views(self) -> Seq<Seq<EntryV>> {
        self.imm_tables@.map_values(|t: MemTable<Frozen>| t@)
    }

    /// The in-memory tiers of the store.
    pub closed spec fn tiers(self) -> TierState {
        TierState { imm: self.imm_views(), table: self.table@ }
    }

    /// The records of the write-ahead log, oldest first.
    pub closed spec fn wal_view(self) -> Seq<WalRecordV> {
        self.wal@
    }

    /// The last committed sequence number of the catalog.
    pub closed spec fn committed(self) -> u64 {
        self.sstables@.last_committed_sequence_number
    }

    /// The next sequence number the store will assign.
    pub closed spec fn next_seqno(self) -> u64 {
        self.seqno.0
    }

    /// The value the store holds for user key `u`: the freshest version
    /// across the in-memory tiers.  A tombstone means the key is deleted.
    pub closed spec fn kv(self, u: Seq<u8>) -> Option<ValueV> {
        tier_lookup(self.tiers(), u)
    }

    /// The store agrees with its own log: for every user key, the tiers
    /// hold exactly what replaying the log records would give.
    pub closed spec fn wal_consistent(self) -> bool {
        forall|u: Seq<u8>| #[trigger] self.kv(u) == wal_map(self.wal_view(), self.committed(), u)
    }

    /// Well-formedness: the tables are sorted with true size estimates,
    /// the log counters agree with its records, the catalog is sound, and
    /// the next sequence number is fresh — strictly above every sequence
    /// number in any tier or log record, and at least the committed one.
    pub closed spec fn wf(self) -> bool {
        &&& self.table.wf()
        &&& (forall|t: int| 0 <= t < self.imm_tables@.len() ==> (#[trigger] self.imm_tables@[t]).wf())
        &&& self.wal.wf()
        &&& self.sstables.wf()
        &&& tiers_below(self.tiers(), self.seqno.0 as int)
        &&& (forall|i: int|
            0 <= i < self.wal@.len() ==> wal_record_key(#[trigger] self.wal@[i]).seqno
                < self.seqno.0)
        &&& self.committed() <= self.seqno.0
    }

    /// Opens the store from the bytes of its write-ahead log and the
    /// already-opened catalog manager.  The log is replayed: records below
    /// the committed sequence number are skipped, the rest rebuild the
    /// in-memory tiers, and the next sequence number is set strictly above
    /// everything seen.  A log that does not parse refuses to open.
    pub fn open(wal_bytes: &Vec<u8>, sstables: SSTableManager) -> (r: Result<
        Database,
        StoreError,
    >)
        requires
            sstables.wf(),
        ensures
            match r {
                Ok(db) => {
                    &&& db.wf()
                    &&& crate::wal::wal_parse(wal_bytes@) == Some(db.wal_view())
                    &&& db.committed() == sstables@.last_committed_sequence_number
                    &&& db.tiers() == replay(db.wal_view(), db.committed())
                    &&& db.next_seqno() == wal_max_seqno(db.wal_view(), db.committed()) + 1
                },
                Err(e) => {
                    &&& (crate::wal::wal_parse(wal_bytes@) is None || (
                    crate::wal::wal_parse(wal_bytes@) matches Some(rs) && wal_max_seqno(
                        rs,
                        sstables@.last_committed_sequence_number,
                    ) == u64::MAX))
                    &&& (crate::wal::wal_parse(wal_bytes@) is None ==> (e
                        == StoreError::TruncatedFrame || e == StoreError::CorruptRecord))
                    &&& (crate::wal::wal_parse(wal_bytes@) is Some ==> e
                        == StoreError::LimitExceeded)
                },
            },
    {
        let wal = match Wal::open(wal_bytes) {
            Ok(w) => w,
            Err(e) => {
                return Err(e);
            },
        };
        let replay_records = wal.replay();
        let ghost records = wal@;
        proof {
            assert(replay_records@.map_values(|rec: WalRecord| rec@) == records);
        }
        let wal_byte_len: usize = wal_bytes.len();
        let committed = sstables.last_committed_sequence_number();
        let mut table: MemTable<Active> = MemTable::new();
        let mut imm_tables: Vec<MemTable<Frozen>> = Vec::new();
        let mut max_seqno: SeqNo = committed;
        let ghost total_weight = records_weight(records);
        proof {
            lemma_records_weight_le_size(records);
            assert(records.take(0) =~= Seq::<WalRecordV>::empty());
            assert(records.skip(0) =~= records);
            assert(imm_tables@.map_values(|t: MemTable<Frozen>| t@)
                =~= Seq::<Seq<EntryV>>::empty());
        }
        let n = replay_records.len();
        let mut i: usize = 0;
        while i < n
            invariant
                i <= n,
                n == replay_records@.len(),
                records == replay_records@.map_values(|rec: WalRecord| rec@),
                records.len() == n,
                table.wf(),
                forall|t: int|
                    0 <= t < imm_tables@.len() ==> (#[trigger] imm_tables@[t]).wf(),
                (TierState {
                    imm: imm_tables@.map_values(|t: MemTable<Frozen>| t@),
                    table: table@,
                }) == replay(records.take(i as int), committed.0),
                max_seqno.0 == wal_max_seqno(records.take(i as int), committed.0),
                committed.0 <= max_seqno.0,
                entries_size(table@) + records_weight(records.skip(i as int)) <= records_weight(
                    records,
                ),
                records_weight(records) <= wal_size_of(records),
                wal_size_of(records) <= wal_byte_len,
                tiers_below(
                    (TierState {
                        imm: imm_tables@.map_values(|t: MemTable<Frozen>| t@),
                        table: table@,
                    }),
                    max_seqno.0 + 1,
                ),
            decreases n - i,
        {
            let ghost pre_state = TierState {
                imm: imm_tables@.map_values(|t: MemTable<Frozen>| t@),
                table: table@,
            };
            proof {
                assert(records.take(i + 1).drop_last() =~= records.take(i as int));
                assert(records.take(i + 1).last() == records[i as int]);
                assert(records.skip(i as int)[0] == records[i as int]);
                assert(records.skip(i as int).drop_first() =~= records.skip(i + 1));
                lemma_records_weight_le_size(records.skip(i + 1));
                assert(replay_records@[i as int]@ == records[i as int]);
            }
            let record = replay_records[i].duplicate();
            let seq_of_record = record.key().seqno();
            if seq_of_record.0 < committed.0 {
                // below the committed prefix: already durable in a table file
                proof {
                    assert(replay(records.take(i + 1), committed.0) == pre_state);
                }
            } else {
                if seq_of_record.0 > max_seqno.0 {
                    max_seqno = seq_of_record;
                }
                let ghost t0 = table@;
                let ghost e = record_entry(records[i as int]);
                proof {
                    table.lemma_wf_sorted();
                    lemma_entries_size_nonneg(t0);
                    lemma_insert_size(t0, e);
                    assert(entry_weight(e) == records_weight(records.skip(i as int))
                        - records_weight(records.skip(i + 1)));
                    lemma_records_weight_le_size(records.skip(i as int));
                }
                match record {
                    WalRecord::Put { key, val } => {
                        table.put(key, val);
                    },
                    WalRecord::Delete { key } => {
                        table.delete(key);
                    },
                }
                proof {
                    assert(table@ == entries_insert(t0, e));
                    assert forall|j: int| 0 <= j < table@.len() implies (
                    #[trigger] table@[j]).key.seqno < max_seqno.0 + 1 by {
                        lemma_insert_membership(t0, e, j);
                    }
                }
                if table.should_freeze() {
                    let frozen = table.freeze();
                    let ghost prev_imm = imm_tables@.map_values(|t: MemTable<Frozen>| t@);
                    let ghost fv = frozen@;
                    imm_tables.push(frozen);
                    proof {
                        assert(imm_tables@.map_values(|t: MemTable<Frozen>| t@) =~= prev_imm.push(
                            fv,
                        ));
                        assert(table@ =~= Seq::<EntryV>::empty());
                        assert(replay(records.take(i + 1), committed.0) =~= TierState {
                            imm: imm_tables@.map_values(|t: MemTable<Frozen>| t@),
                            table: table@,
                        });
                    }
                } else {
                    proof {
                        assert(replay(records.take(i + 1), committed.0) =~= TierState {
                            imm: imm_tables@.map_values(|t: MemTable<Frozen>| t@),
                            table: table@,
                        });
                    }
                }
            }
            i = i + 1;
        }
        proof {
            assert(records.take(n as int) =~= records);
            assert(records.skip(n as int) =~= Seq::<WalRecordV>::empty());
        }
        if max_seqno.0 == u64::MAX {
            return Err(StoreError::LimitExceeded);
        }
        let seqno = SeqNo(max_seqno.0 + 1);
        let db = Database { table, imm_tables, wal, seqno, sstables };
        proof {
            assert(db.tiers() =~= replay(records, committed.0));
            lemma_wal_records_below(records, committed.0);
        }
        Ok(db)
    }
}

impl Database {
    /// Whether a put of this key and value stays within every machine and
    /// format limit: the sequence counter, the table size estimate, the
    /// frame format, and the log counters.
    pub open spec fn put_fits(self, uk: Seq<u8>, v: Seq<u8>) -> bool {
        &&& self.next_seqno() < u64::MAX
        &&& entries_size(self.tiers().table) + uk.len() + v.len() <= usize::MAX
        &&& self.wal_append_fits(
            WalRecordV::Put { key: KeyV { user_key: uk, seqno: self.next_seqno() }, val: v },
        )
    }

    /// Whether a delete of this key stays within every limit.
    pub open spec fn delete_fits(self, uk: Seq<u8>) -> bool {
        &&& self.next_seqno() < u64::MAX
        &&& entries_size(self.tiers().table) + uk.len() <= usize::MAX
        &&& self.wal_append_fits(
            WalRecordV::Delete { key: KeyV { user_key: uk, seqno: self.next_seqno() } },
        )
    }

    pub closed spec fn wal_append_fits(self, r: WalRecordV) -> bool {
        self.wal.append_fits(r)
    }

    /// The record a successful put appends.
    pub open spec fn put_record(self, uk: Seq<u8>, v: Seq<u8>) -> WalRecordV {
        WalRecordV::Put { key: KeyV { user_key: uk, seqno: self.next_seqno() }, val: v }
    }

    /// The record a successful delete appends.
    pub open spec fn delete_record(self, uk: Seq<u8>) -> WalRecordV {
        WalRecordV::Delete { key: KeyV { user_key: uk, seqno: self.next_seqno() } }
    }

    /// Stores `val` under `user_key`.  The mutation is assigned the next
    /// sequence number and logged; the returned frame must be written to
    /// the log file and fsynced before the mutation is acknowledged.  On
    /// any limit error nothing changes.
    pub fn put(&mut self, user_key: Vec<u8>, val: Vec<u8>) -> (r: Result<Vec<u8>, StoreError>)
        requires
            old(self).wf(),
        ensures
            final(self).wf(),
            old(self).put_fits(user_key@, val@) <==> r is Ok,
            match r {
                Ok(frame) => {
                    &&& final(self).kv(user_key@) == Some(ValueV::Data(val@))
                    &&& forall|u: Seq<u8>|
                        u != user_key@ ==> #[trigger] final(self).kv(u) == old(self).kv(u)
                    &&& final(self).wal_view() == old(self).wal_view().push(
                        old(self).put_record(user_key@, val@),
                    )
                    &&& final(self).next_seqno() == old(self).next_seqno() + 1
                    &&& final(self).committed() == old(self).committed()
                    &&& frame@ == frame_enc(wal_record_enc(old(self).put_record(user_key@, val@)))
                    &&& (old(self).wal_consistent() ==> final(self).wal_consistent())
                    &&& (wal_seqnos_increasing(old(self).wal_view()) ==> wal_seqnos_increasing(
                        final(self).wal_view(),
                    ))
                    &&& ({
                        let t2 = entries_insert(
                            old(self).tiers().table,
                            record_entry(old(self).put_record(user_key@, val@)),
                        );
                        if entries_size(t2) >= MEMTABLE_MAX_SIZE || wal_size_of(
                            final(self).wal_view(),
                        ) > WAL_MAX_SIZE {
                            final(self).tiers() == (TierState {
                                imm: old(self).tiers().imm.push(t2),
                                table: Seq::<EntryV>::empty(),
                            })
                        } else {
                            final(self).tiers() == (TierState {
                                imm: old(self).tiers().imm,
                                table: t2,
                            })
                        }
                    })
                },
                Err(e) => *final(self) == *old(self) && e == if !(wal_record_wf(
                    old(self).put_record(user_key@, val@),
                ) && crate::framed::frame_fits(
                    wal_record_enc(old(self).put_record(user_key@, val@)),
                )) {
                    StoreError::FrameTooLarge
                } else {
                    StoreError::LimitExceeded
                },
            },
    {
        let ghost rv = old(self).put_record(user_key@, val@);
        proof {
            assert(wal_record_enc(rv).len() == 17 + user_key@.len() + val@.len());
        }
        if user_key.len() as u64 > u32::MAX as u64 || val.len() as u64 > u32::MAX as u64 {
            return Err(StoreError::FrameTooLarge);
        }
        if 17u64 as u128 + user_key.len() as u128 + val.len() as u128 > u32::MAX as u128 {
            return Err(StoreError::FrameTooLarge);
        }
        if 21u64 as u128 + user_key.len() as u128 + val.len() as u128 > usize::MAX as u128 {
            return Err(StoreError::FrameTooLarge);
        }
        if self.seqno.0 == u64::MAX {
            return Err(StoreError::LimitExceeded);
        }
        let tsize = self.table.size();
        if tsize as u128 + user_key.len() as u128 + val.len() as u128 > usize::MAX as u128 {
            return Err(StoreError::LimitExceeded);
        }
        if self.wal.size() as u128 + 21u64 as u128 + user_key.len() as u128 + val.len() as u128
            > u64::MAX as u128 {
            return Err(StoreError::LimitExceeded);
        }
        if self.wal.len() == usize::MAX {
            return Err(StoreError::LimitExceeded);
        }
        let seq = self.seqno.next();
        let key = Key::new(user_key, seq);
        let record = WalRecord::Put {
            key: key.duplicate(),
            val: crate::codec::clone_bytes(&val),
        };
        let frame = match self.wal.append(record) {
            Ok(f) => f,
            Err(_) => {
                proof {
                    assert(false);
                }
                return Err(StoreError::LimitExceeded);
            },
        };
        let ghost t0 = self.table@;
        let ghost e = record_entry(rv);
        proof {
            self.table.lemma_wf_sorted();
        }
        self.table.put(key, val);
        proof {
            self.commit_mutation_proof(*old(self), rv, t0);
        }
        self.maybe_rotate_memtable();
        Ok(frame)
    }

    /// Deletes `user_key` by storing a tombstone under the next sequence
    /// number.  The returned frame must be written and fsynced before the
    /// deletion is acknowledged.
    pub fn delete(&mut self, user_key: Vec<u8>) -> (r: Result<Vec<u8>, StoreError>)
        requires
            old(self).wf(),
        ensures
            final(self).wf(),
            old(self).delete_fits(user_key@) <==> r is Ok,
            match r {
                Ok(frame) => {
                    &&& final(self).kv(user_key@) == Some(ValueV::Tombstone)
                    &&& forall|u: Seq<u8>|
                        u != user_key@ ==> #[trigger] final(self).kv(u) == old(self).kv(u)
                    &&& final(self).wal_view() == old(self).wal_view().push(
                        old(self).delete_record(user_key@),
                    )
                    &&& final(self).next_seqno() == old(self).next_seqno() + 1
                    &&& final(self).committed() == old(self).committed()
                    &&& frame@ == frame_enc(wal_record_enc(old(self).delete_record(user_key@)))
                    &&& (old(self).wal_consistent() ==> final(self).wal_consistent())
                    &&& (wal_seqnos_increasing(old(self).wal_view()) ==> wal_seqnos_increasing(
                        final(self).wal_view(),
                    ))
                    &&& ({
                        let t2 = entries_insert(
                            old(self).tiers().table,
                            record_entry(old(self).delete_record(user_key@)),
                        );
                        if entries_size(t2) >= MEMTABLE_MAX_SIZE || wal_size_of(
                            final(self).wal_view(),
                        ) > WAL_MAX_SIZE {
                            final(self).tiers() == (TierState {
                                imm: old(self).tiers().imm.push(t2),
                                table: Seq::<EntryV>::empty(),
                            })
                        } else {
                            final(self).tiers() == (TierState {
                                imm: old(self).tiers().imm,
                                table: t2,
                            })
                        }
                    })
                },
                Err(e) => *final(self) == *old(self) && e == if !(wal_record_wf(
                    old(self).delete_record(user_key@),
                ) && crate::framed::frame_fits(
                    wal_record_enc(old(self).delete_record(user_key@)),
                )) {
                    StoreError::FrameTooLarge
                } else {
                    StoreError::LimitExceeded
                },
            },
    {
        let ghost rv = old(self).delete_record(user_key@);
        proof {
            assert(wal_record_enc(rv).len() == 13 + user_key@.len());
        }
        if user_key.len() as u64 > u32::MAX as u64 {
            return Err(StoreError::FrameTooLarge);
        }
        if 13u64 as u128 + user_key.len() as u128 > u32::MAX as u128 {
            return Err(StoreError::FrameTooLarge);
        }
        if 17u64 as u128 + user_key.len() as u128 > usize::MAX as u128 {
            return Err(StoreError::FrameTooLarge);
        }
        if self.seqno.0 == u64::MAX {
            return Err(StoreError::LimitExceeded);
        }
        let tsize = self.table.size();
        if tsize as u128 + user_key.len() as u128 > usize::MAX as u128 {
            return Err(StoreError::LimitExceeded);
        }
        if self.wal.size() as u128 + 17u64 as u128 + user_key.len() as u128 > u64::MAX as u128 {
            return Err(StoreError::LimitExceeded);
        }
        if self.wal.len() == usize::MAX {
            return Err(StoreError::LimitExceeded);
        }
        let seq = self.seqno.next();
        let key = Key::new(user_key, seq);
        let record = WalRecord::Delete { key: key.duplicate() };
        let frame = match self.wal.append(record) {
            Ok(f) => f,
            Err(_) => {
                proof {
                    assert(false);
                }
                return Err(StoreError::LimitExceeded);
            },
        };
        let ghost t0 = self.table@;
        proof {
            self.table.lemma_wf_sorted();
        }
        self.table.delete(key);
        proof {
            self.commit_mutation_proof(*old(self), rv, t0);
        }
        self.maybe_rotate_memtable();
        Ok(frame)
    }

    /// The shared argument that a freshly sequenced mutation, logged and
    /// inserted, leaves the store well-formed, updates its own user key,
    /// preserves every other, and keeps the store in step with its log.
    proof fn commit_mutation_proof(&self, pre: Database, rv: WalRecordV, t0: Seq<EntryV>)
        requires
            pre.wf(),
            self.table@ == entries_insert(t0, record_entry(rv)),
            t0 == pre.table@,
            self.imm_tables@ == pre.imm_tables@,
            self.wal@ == pre.wal@.push(rv),
            self.wal.wf(),
            self.sstables == pre.sstables,
            self.seqno.0 == pre.seqno.0 + 1,
            wal_record_key(rv).seqno == pre.seqno.0,
            self.table.wf(),
        ensures
            self.wf(),
            self.kv(wal_record_key(rv).user_key) == Some(record_entry(rv).value),
            forall|u: Seq<u8>|
                u != wal_record_key(rv).user_key ==> #[trigger] self.kv(u) == pre.kv(u),
            pre.wal_consistent() ==> self.wal_consistent(),
            wal_seqnos_increasing(pre.wal_view()) ==> wal_seqnos_increasing(self.wal_view()),
            self.tiers() == (TierState {
                imm: pre.tiers().imm,
                table: entries_insert(pre.tiers().table, record_entry(rv)),
            }),
    {
        let e = record_entry(rv);
        let k = wal_record_key(rv).user_key;
        pre.table.lemma_wf_sorted();
        assert forall|u: Seq<u8>| true implies #[trigger] self.kv(u) == (if u == k {
            Some(e.value)
        } else {
            pre.kv(u)
        }) by {
            lemma_insert_latest(t0, e, u);
            assert(self.imm_views() =~= pre.imm_views());
        }
        // well-formedness: every new entry is the fresh one or an old one
        assert forall|j: int| 0 <= j < self.table@.len() implies (
        #[trigger] self.table@[j]).key.seqno < self.seqno.0 by {
            lemma_insert_membership(t0, e, j);
        }
        assert(tiers_below(self.tiers(), self.seqno.0 as int)) by {
            assert(self.imm_views() =~= pre.imm_views());
        }
        assert(forall|i: int|
            0 <= i < self.wal@.len() ==> wal_record_key(#[trigger] self.wal@[i]).seqno
                < self.seqno.0) by {
            assert(forall|i: int|
                0 <= i < pre.wal@.len() ==> self.wal@[i] == #[trigger] pre.wal@[i]);
            assert(self.wal@.last() == rv);
        }
        if wal_seqnos_increasing(pre.wal_view()) {
            assert forall|i: int, j: int|
                0 <= i < j < self.wal@.len() implies wal_record_key(
                #[trigger] self.wal@[i],
            ).seqno < wal_record_key(#[trigger] self.wal@[j]).seqno by {
                if j < pre.wal@.len() {
                    assert(self.wal@[i] == pre.wal@[i] && self.wal@[j] == pre.wal@[j]);
                } else {
                    assert(self.wal@[j] == rv);
                    assert(self.wal@[i] == pre.wal@[i]);
                }
            }
        }
        // the store stays in step with its log
        if pre.wal_consistent() {
            assert forall|u: Seq<u8>| true implies #[trigger] self.kv(u) == wal_map(
                self.wal_view(),
                self.committed(),
                u,
            ) by {
                assert(self.wal_view().last() == rv);
                assert(self.wal_view().drop_last() =~= pre.wal_view());
                assert(wal_record_key(rv).seqno >= self.committed());
                if u != k {
                    assert(pre.kv(u) == wal_map(pre.wal_view(), pre.committed(), u));
                }
            }
        }
        assert(self.tiers() =~= (TierState {
            imm: pre.tiers().imm,
            table: entries_insert(pre.tiers().table, record_entry(rv)),
        }));
    }

    /// Freezes the active table when it or the log has outgrown its
    /// threshold: the active table becomes empty and a frozen table holding
    /// exactly its old entries joins the back of the queue; no entry is
    /// lost or double-counted, and readers see the same data before and
    /// after.  The log is never truncated here.
    fn maybe_rotate_memtable(&mut self)
        requires
            old(self).wf(),
        ensures
            final(self).wf(),
            forall|u: Seq<u8>| #[trigger] final(self).kv(u) == old(self).kv(u),
            final(self).wal_view() == old(self).wal_view(),
            final(self).next_seqno() == old(self).next_seqno(),
            final(self).committed() == old(self).committed(),
            old(self).wal_consistent() ==> final(self).wal_consistent(),
            if entries_size(old(self).tiers().table) >= MEMTABLE_MAX_SIZE || wal_size_of(
                old(self).wal_view(),
            ) > WAL_MAX_SIZE {
                final(self).tiers() == (TierState {
                    imm: old(self).tiers().imm.push(old(self).tiers().table),
                    table: Seq::<EntryV>::empty(),
                })
            } else {
                final(self).tiers() == old(self).tiers()
            },
    {
        if self.table.should_freeze() || self.wal.should_compact() {
            let frozen = self.table.freeze();
            let ghost prev_imm = self.imm_views();
            let ghost fv = frozen@;
            self.imm_tables.push(frozen);
            proof {
                assert(self.imm_views() =~= prev_imm.push(fv));
                assert forall|u: Seq<u8>| true implies #[trigger] self.kv(u) == old(self).kv(u) by {
                    lemma_freeze_transparent(prev_imm, fv, u);
                    assert(self.table@ =~= Seq::<EntryV>::empty());
                }
                assert(self.tiers() =~= (TierState {
                    imm: old(self).tiers().imm.push(old(self).tiers().table),
                    table: Seq::<EntryV>::empty(),
                }));
            }
        }
    }

    /// Looks up the freshest version of `user_key`: the active table
    /// first, then the frozen tables newest first.  A tombstone, like an
    /// absent key, reads as not found.
    pub fn get(&self, user_key: &Vec<u8>) -> (r: Option<Vec<u8>>)
        ensures
            match self.kv(user_key@) {
                Some(ValueV::Data(d)) => r matches Some(b) && b@ == d,
                Some(ValueV::Tombstone) => r is None,
                None => r is None,
            },
    {
        match self.table.get_latest(user_key) {
            Some(Value::Data(d)) => {
                return Some(d);
            },
            Some(Value::Tombstone) => {
                return None;
            },
            None => {
            },
        }
        let ghost views = self.imm_views();
        let mut i: usize = self.imm_tables.len();
        proof {
            assert(views.take(views.len() as int) =~= views);
        }
        while i > 0
            invariant
                i <= self.imm_tables@.len(),
                views == self.imm_views(),
                views.len() == self.imm_tables@.len(),
                first_with_user_key(self.tiers().table, user_key@) is None,
                frozen_lookup(views, user_key@) == frozen_lookup(views.take(i as int), user_key@),
            decreases i,
        {
            i = i - 1;
            proof {
                assert(views.take(i + 1).last() == views[i as int]);
                assert(views.take(i + 1).drop_last() =~= views.take(i as int));
                assert(self.imm_tables@[i as int]@ == views[i as int]);
            }
            match self.imm_tables[i].get_latest(user_key) {
                Some(Value::Data(d)) => {
                    return Some(d);
                },
                Some(Value::Tombstone) => {
                    return None;
                },
                None => {
                },
            }
        }
        proof {
            assert(views.take(0) =~= Seq::<Seq<EntryV>>::empty());
        }
        None
    }

    /// Whether the active table or the log has reached its rotation
    /// threshold.
    pub fn should_freeze_memtable(&self) -> (r: bool)
        requires
            self.wf(),
        ensures
            r == (entries_size(self.tiers().table) >= MEMTABLE_MAX_SIZE || wal_size_of(
                self.wal_view(),
            ) > WAL_MAX_SIZE),
    {
        self.table.should_freeze() || self.wal.should_compact()
    }

    /// The decoded records of the write-ahead log, oldest first.
    pub fn debug_replay_wal(&self) -> (r: Vec<WalRecord>)
        ensures
            r@.map_values(|rec: WalRecord| rec@) == self.wal_view(),
    {
        self.wal.replay()
    }

    /// The active in-memory table.
    pub fn active_table(&self) -> (r: &MemTable<Active>)
        ensures
            r@ == self.tiers().table,
    {
        &self.table
    }

    /// The number of frozen tables awaiting flush.
    pub fn frozen_count(&self) -> (r: usize)
        ensures
            r == self.tiers().imm.len(),
    {
        self.imm_tables.len()
    }
}

/// Freezing is invisible to readers: looking the key up in the frozen
/// queue with the old active table pushed on its back gives what the old
/// active table and queue gave.
proof fn lemma_freeze_transparent(imm: Seq<Seq<EntryV>>, t: Seq<EntryV>, u: Seq<u8>)
    ensures
        tier_lookup((TierState { imm: imm.push(t), table: Seq::empty() }), u) == tier_lookup(
            (TierState { imm, table: t }),
            u,
        ),
{
    assert(first_with_user_key(Seq::<EntryV>::empty(), u) is None);
    assert(imm.push(t).last() == t);
    assert(imm.push(t).drop_last() =~= imm);
}

/// The active table a replay builds is sorted.
proof fn lemma_replay_sorted(records: Seq<WalRecordV>, committed: u64)
    ensures
        crate::memtable::entries_sorted(replay(records, committed).table),
    decreases records.len(),
{
    if records.len() > 0 {
        lemma_replay_sorted(records.drop_last(), committed);
        let st = replay(records.drop_last(), committed);
        let r = records.last();
        if wal_record_key(r).seqno >= committed {
            crate::memtable::lemma_insert_sorted(st.table, record_entry(r));
        }
    }
}

/// If every record's sequence number is below `b`, so is every entry's in
/// the replayed tiers.
proof fn lemma_replay_entries_bound(records: Seq<WalRecordV>, committed: u64, b: int)
    requires
        forall|j: int| 0 <= j < records.len() ==> wal_record_key(#[trigger] records[j]).seqno < b,
    ensures
        tiers_below(replay(records, committed), b),
    decreases records.len(),
{
    if records.len() > 0 {
        assert(forall|j: int|
            0 <= j < records.len() - 1 ==> records.drop_last()[j] == #[trigger] records[j]);
        assert forall|j: int|
            0 <= j < records.drop_last().len() implies wal_record_key(
            #[trigger] records.drop_last()[j],
        ).seqno < b by {
            assert(records.drop_last()[j] == records[j]);
        }
        lemma_replay_entries_bound(records.drop_last(), committed, b);
        let st = replay(records.drop_last(), committed);
        let r = records.last();
        let st2 = replay(records, committed);
        if wal_record_key(r).seqno < committed {
        } else {
            let t2 = entries_insert(st.table, record_entry(r));
            assert forall|j: int| 0 <= j < t2.len() implies (#[trigger] t2[j]).key.seqno < b by {
                lemma_insert_membership(st.table, record_entry(r), j);
            }
            if entries_size(t2) >= MEMTABLE_MAX_SIZE {
                assert forall|t: int, i: int|
                    0 <= t < st2.imm.len() && 0 <= i < st2.imm[t].len() implies (
                #[trigger] st2.imm[t][i]).key.seqno < b by {
                    if t < st.imm.len() {
                        assert(st2.imm[t] == st.imm[t]);
                    } else {
                        assert(st2.imm[t] == t2);
                    }
                }
            }
        }
    }
}

/// The heart of crash recovery: replaying a log whose sequence numbers
/// strictly increase yields, for every user key, exactly what the log
/// itself assigns to it — the value of the last record for that key at or
/// above the committed sequence number.
pub proof fn lemma_replay_matches_wal(records: Seq<WalRecordV>, committed: u64, u: Seq<u8>)
    requires
        wal_seqnos_increasing(records),
    ensures
        tier_lookup(replay(records, committed), u) == wal_map(records, committed, u),
    decreases records.len(),
{
    if records.len() == 0 {
        assert(first_with_user_key(Seq::<EntryV>::empty(), u) is None);
    } else {
        let rest = records.drop_last();
        let r = records.last();
        assert(forall|j: int| 0 <= j < rest.len() ==> rest[j] == #[trigger] records[j]);
        assert forall|i: int, j: int| 0 <= i < j < rest.len() implies wal_record_key(
            #[trigger] rest[i],
        ).seqno < wal_record_key(#[trigger] rest[j]).seqno by {
            assert(rest[i] == records[i] && rest[j] == records[j]);
        }
        lemma_replay_matches_wal(rest, committed, u);
        let st = replay(rest, committed);
        let st2 = replay(records, committed);
        if wal_record_key(r).seqno < committed {
            assert(st2 == st);
        } else {
            assert forall|j: int|
                0 <= j < rest.len() implies wal_record_key(#[trigger] rest[j]).seqno
                < wal_record_key(r).seqno as int by {
                assert(rest[j] == records[j]);
            }
            lemma_replay_entries_bound(rest, committed, wal_record_key(r).seqno as int);
            lemma_replay_sorted(rest, committed);
            let e = record_entry(r);
            let t2 = entries_insert(st.table, e);
            lemma_insert_latest(st.table, e, u);
            if entries_size(t2) >= MEMTABLE_MAX_SIZE {
                lemma_freeze_transparent(st.imm, t2, u);
                assert(st2 == (TierState { imm: st.imm.push(t2), table: Seq::empty() }));
                assert(tier_lookup(st2, u) == tier_lookup(
                    (TierState { imm: st.imm, table: t2 }),
                    u,
                ));
            } else {
                assert(st2 == (TierState { imm: st.imm, table: t2 }));
            }
            if u == wal_record_key(r).user_key {
                assert(first_with_user_key(t2, u) == Some(e));
            } else {
                assert(first_with_user_key(t2, u) == first_with_user_key(st.table, u));
            }
        }
    }
}

/// A freshly opened store is in step with its log, provided the log's
/// sequence numbers strictly increase — as they do in every log this
/// store writes.
pub proof fn lemma_open_consistent(db: Database)
    requires
        db.wf(),
        db.tiers() == replay(db.wal_view(), db.committed()),
        wal_seqnos_increasing(db.wal_view()),
    ensures
        db.wal_consistent(),
{
    assert forall|u: Seq<u8>| true implies #[trigger] db.kv(u) == wal_map(
        db.wal_view(),
        db.committed(),
        u,
    ) by {
        lemma_replay_matches_wal(db.wal_view(), db.committed(), u);
    }
}

/// Crash recovery: two stores in step with the same log and the same
/// committed sequence number agree on every user key.  In particular, a
/// store reopened from the log a crashed store had durably written sees
/// exactly the acknowledged mutations.
pub proof fn lemma_crash_recovery(db1: Database, db2: Database, u: Seq<u8>)
    requires
        db1.wal_consistent(),
        db2.wal_consistent(),
        db2.wal_view() == db1.wal_view(),
        db2.committed() == db1.committed(),
    ensures
        db2.kv(u) == db1.kv(u),
{
}

/// Replaying a log is idempotent: a store built by replaying a log keeps
/// that log unchanged on disk, so a store built by replaying it again —
/// from the state the first one persists — holds the very same tiers and
/// the same view of every user key.
pub proof fn lemma_replay_idempotent(db1: Database, db2: Database, u: Seq<u8>)
    requires
        db1.tiers() == replay(db1.wal_view(), db1.committed()),
        db2.tiers() == replay(db2.wal_view(), db2.committed()),
        db2.wal_view() == db1.wal_view(),
        db2.committed() == db1.committed(),
    ensures
        db2.tiers() == db1.tiers(),
        db2.kv(u) == db1.kv(u),
{
}

/// Every log record's sequence number is at most the stream's maximum:
/// together with the contract of `open`, the next sequence number of a
/// freshly opened store strictly exceeds every sequence number in the log
/// and the committed one in the catalog.
pub proof fn lemma_wal_records_below(records: Seq<WalRecordV>, committed: u64)
    ensures
        forall|i: int|
            0 <= i < records.len() ==> wal_record_key(#[trigger] records[i]).seqno <= wal_max_seqno(
                records,
                committed,
            ),
        committed <= wal_max_seqno(records, committed),
    decreases records.len(),
{
    if records.len() > 0 {
        lemma_wal_records_below(records.drop_last(), committed);
        assert forall|i: int|
            0 <= i < records.len() implies wal_record_key(#[trigger] records[i]).seqno
            <= wal_max_seqno(records, committed) by {
            if i < records.len() - 1 {
                assert(records[i] == records.drop_last()[i]);
            } else {
                assert(records[i] == records.last());
            }
        }
    }
}

} // verus!
