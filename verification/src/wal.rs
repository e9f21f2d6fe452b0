//! The write-ahead log.
//!
//! Every mutation is appended to the log as one frame before it becomes
//! visible in the in-memory tables.  This module holds the verified record
//! codec and the in-memory account of the log — its decoded records, its
//! byte size and its record count; the file itself, with its fsync and its
//! advisory lock, lives with the caller, which appends exactly the frame
//! bytes this module hands out.

use vstd::prelude::*;

use crate::framed::{
    frame_enc, frame_fits, frame_len, frames_dec, lemma_frames_dec_total_len, read_all_framed,
    write_framed,
};
use crate::key::{key_dec, key_enc, key_enc_len, key_wf, lemma_key_round_trip, Key, KeyV};
use crate::codec::{clone_bytes, push_bytes};
use crate::StoreError;

verus! {

/// The log compacts once its size exceeds this many bytes.
pub const WAL_MAX_SIZE: u64 = 65536;

/// One logged mutation.
#[derive(Debug)]
pub enum WalRecord {
    Put { key: Key, val: Vec<u8> },
    Delete { key: Key },
}

/// The mathematical content of a logged mutation.
#[verifier::ext_equal]
pub enum WalRecordV {
    Put { key: KeyV, val: Seq<u8> },
    Delete { key: KeyV },
}

impl View for WalRecord {
    type V = WalRecordV;

    open spec fn view(&self) -> WalRecordV {
        match self {
            WalRecord::Put { key, val } => WalRecordV::Put { key: key@, val: val@ },
            WalRecord::Delete { key } => WalRecordV::Delete { key: key@ },
        }
    }
}

/// The internal key a logged mutation is about.
pub open spec fn wal_record_key(r: WalRecordV) -> KeyV {
    match r {
        WalRecordV::Put { key, .. } => key,
        WalRecordV::Delete { key } => key,
    }
}

/// A record is encodable when its key and its payload fit the format's
/// 32-bit length prefixes.
pub open spec fn wal_record_wf(r: WalRecordV) -> bool {
    match r {
        WalRecordV::Put { key, val } => key_wf(key) && val.len() <= u32::MAX,
        WalRecordV::Delete { key } => key_wf(key),
    }
}

/// The frame-body encoding of a record: a tag byte, the internal key, and
/// for a put the raw payload prefixed by its 32-bit length.
pub open spec fn wal_record_enc(r: WalRecordV) -> Seq<u8> {
    match r {
        WalRecordV::Put { key, val } => seq![0u8] + key_enc(key) + crate::codec::u32_le(
            val.len() as u32,
        ) + val,
        WalRecordV::Delete { key } => seq![1u8] + key_enc(key),
    }
}

/// Decoding a record from one whole frame body: every byte of the body must
/// be accounted for.
pub open spec fn wal_record_dec(b: Seq<u8>) -> Option<WalRecordV> {
    if b.len() < 1 {
        None
    } else if b[0] == 0 {
        match key_dec(b, 1) {
            None => None,
            Some((key, pos)) => {
                if pos + 4 > b.len() {
                    None
                } else {
                    let vlen = crate::codec::u32_from_le(b.subrange(pos, pos + 4)) as int;
                    if pos + 4 + vlen != b.len() {
                        None
                    } else {
                        Some(WalRecordV::Put { key, val: b.subrange(pos + 4, b.len() as int) })
                    }
                }
            },
        }
    } else if b[0] == 1 {
        match key_dec(b, 1) {
            None => None,
            Some((key, pos)) => {
                if pos != b.len() {
                    None
                } else {
                    Some(WalRecordV::Delete { key })
                }
            },
        }
    } else {
        None
    }
}

/// Decoding an encoded record restores it.
pub proof fn lemma_wal_record_round_trip(r: WalRecordV)
    requires
        wal_record_wf(r),
    ensures
        wal_record_dec(wal_record_enc(r)) == Some(r),
{
    let b = wal_record_enc(r);
    match r {
        WalRecordV::Put { key, val } => {
            let kl = key_enc_len(key);
            assert(b[0] == 0);
            assert(b.subrange(1, 1 + kl) =~= key_enc(key));
            lemma_key_round_trip(b, 1, key);
            crate::codec::lemma_u32_le_round_trip(val.len() as u32);
            assert(b.subrange(1 + kl, 1 + kl + 4) =~= crate::codec::u32_le(val.len() as u32));
            assert(b.subrange(1 + kl + 4, b.len() as int) =~= val);
            assert(wal_record_dec(b).unwrap() =~= r);
        },
        WalRecordV::Delete { key } => {
            let kl = key_enc_len(key);
            assert(b[0] == 1);
            assert(b.subrange(1, 1 + kl) =~= key_enc(key));
            lemma_key_round_trip(b, 1, key);
            assert(wal_record_dec(b).unwrap() =~= r);
        },
    }
}

impl WalRecord {
    /// The internal key this mutation is about.
    pub fn key(&self) -> (r: &Key)
        ensures
            r@ == wal_record_key(self@),
    {
        match self {
            WalRecord::Put { key, .. } => key,
            WalRecord::Delete { key } => key,
        }
    }

    /// A fresh record with the same contents.
    pub fn duplicate(&self) -> (r: WalRecord)
        ensures
            r@ == self@,
    {
        match self {
            WalRecord::Put { key, val } => WalRecord::Put {
                key: key.duplicate(),
                val: clone_bytes(val),
            },
            WalRecord::Delete { key } => WalRecord::Delete { key: key.duplicate() },
        }
    }

    /// Appends the frame-body encoding of this record to `buf`.
    pub fn encode_into(&self, buf: &mut Vec<u8>)
        requires
            wal_record_wf(self@),
        ensures
            final(buf)@ == old(buf)@ + wal_record_enc(self@),
    {
        match self {
            WalRecord::Put { key, val } => {
                buf.push(0);
                key.encode_into(buf);
                crate::codec::push_u32_le(buf, val.len() as u32);
                push_bytes(buf, val);
                assert(buf@ =~= old(buf)@ + wal_record_enc(self@));
            },
            WalRecord::Delete { key } => {
                buf.push(1);
                key.encode_into(buf);
                assert(buf@ =~= old(buf)@ + wal_record_enc(self@));
            },
        }
    }

    /// Decodes a record from one whole frame body.
    pub fn decode(body: &Vec<u8>) -> (r: Result<WalRecord, StoreError>)
        ensures
            match r {
                Ok(rec) => wal_record_dec(body@) == Some(rec@),
                Err(e) => wal_record_dec(body@) is None && e == StoreError::CorruptRecord,
            },
    {
        if body.len() < 1 {
            return Err(StoreError::CorruptRecord);
        }
        let tag = body[0];
        if tag == 0 {
            let (key, pos) = match Key::decode_from(body.as_slice(), 1) {
                Ok(p) => p,
                Err(_) => {
                    return Err(StoreError::CorruptRecord);
                },
            };
            if body.len() - pos < 4 {
                return Err(StoreError::CorruptRecord);
            }
            let vlen = crate::codec::read_u32_le(body.as_slice(), pos) as usize;
            if body.len() - pos - 4 != vlen {
                return Err(StoreError::CorruptRecord);
            }
            let mut val: Vec<u8> = Vec::new();
            crate::codec::push_range(&mut val, body.as_slice(), pos + 4, body.len());
            let rec = WalRecord::Put { key, val };
            assert(wal_record_dec(body@).unwrap() =~= rec@);
            Ok(rec)
        } else if tag == 1 {
            let (key, pos) = match Key::decode_from(body.as_slice(), 1) {
                Ok(p) => p,
                Err(_) => {
                    return Err(StoreError::CorruptRecord);
                },
            };
            if pos != body.len() {
                return Err(StoreError::CorruptRecord);
            }
            let rec = WalRecord::Delete { key };
            assert(wal_record_dec(body@).unwrap() =~= rec@);
            Ok(rec)
        } else {
            Err(StoreError::CorruptRecord)
        }
    }
}

/// The total byte size of a record stream once framed.
pub open spec fn wal_size_of(records: Seq<WalRecordV>) -> int
    decreases records.len(),
{
    if records.len() == 0 {
        0
    } else {
        frame_len(wal_record_enc(records[0])) + wal_size_of(records.drop_first())
    }
}

pub proof fn lemma_wal_size_of_push(records: Seq<WalRecordV>, r: WalRecordV)
    ensures
        wal_size_of(records.push(r)) == wal_size_of(records) + frame_len(wal_record_enc(r)),
    decreases records.len(),
{
    reveal_with_fuel(wal_size_of, 3);
    let p = records.push(r);
    if records.len() == 0 {
        assert(p[0] == r);
        assert(p.drop_first() =~= Seq::<WalRecordV>::empty());
        assert(wal_size_of(p) == frame_len(wal_record_enc(p[0])) + wal_size_of(p.drop_first()));
    } else {
        assert(p.drop_first() =~= records.drop_first().push(r));
        assert(p[0] == records[0]);
        lemma_wal_size_of_push(records.drop_first(), r);
    }
}

/// The parse of a whole log image: the decoded records, or nothing if a
/// frame is truncated or a body does not decode.
pub open spec fn wal_parse(bytes: Seq<u8>) -> Option<Seq<WalRecordV>> {
    match frames_dec(bytes, 0) {
        None => None,
        Some(bodies) => {
            if forall|i: int| 0 <= i < bodies.len() ==> wal_record_dec(#[trigger] bodies[i]) is Some {
                Some(Seq::new(bodies.len(), |i: int| wal_record_dec(bodies[i]).unwrap()))
            } else {
                None
            }
        },
    }
}

/// The in-memory account of the on-disk log: its records in order, the byte
/// size of the file, and the record count.
pub struct Wal {
    records: Vec<WalRecord>,
    size: u64,
    len: usize,
}

impl View for Wal {
    type V = Seq<WalRecordV>;

    closed spec fn view(&self) -> Seq<WalRecordV> {
        self.records@.map_values(|r: WalRecord| r@)
    }
}

impl Wal {
    /// The counters agree with the records and every record is encodable.
    pub closed spec fn wf(&self) -> bool {
        self.size as int == wal_size_of(self@) && self.len == self@.len() && forall|i: int|
            0 <= i < self@.len() ==> wal_record_wf(#[trigger] self@[i])
    }

    /// Opens the log from the bytes of its file, decoding every frame.  The
    /// whole image must parse: a truncated frame or an undecodable body
    /// refuses the log.
    pub fn open(bytes: &Vec<u8>) -> (r: Result<Wal, StoreError>)
        ensures
            match r {
                Ok(w) => wal_parse(bytes@) == Some(w@) && w.wf() && wal_size_of(w@)
                    == bytes@.len(),
                Err(e) => wal_parse(bytes@) is None && (e == StoreError::TruncatedFrame || e
                    == StoreError::CorruptRecord),
            },
    {
        let bodies = match read_all_framed(bytes.as_slice()) {
            Ok(b) => b,
            Err(e) => {
                return Err(e);
            },
        };
        let ghost bvs = bodies@.map_values(|v: Vec<u8>| v@);
        let mut records: Vec<WalRecord> = Vec::new();
        let mut i: usize = 0;
        while i < bodies.len()
            invariant
                i <= bodies@.len(),
                bvs == bodies@.map_values(|v: Vec<u8>| v@),
                frames_dec(bytes@, 0) == Some(bvs),
                records@.len() == i,
                forall|j: int| 0 <= j < i ==> wal_record_dec(#[trigger] bvs[j]) is Some,
                forall|j: int|
                    0 <= j < i ==> (#[trigger] records@[j])@ == wal_record_dec(bvs[j]).unwrap(),
            decreases bodies@.len() - i,
        {
            let rec = match WalRecord::decode(&bodies[i]) {
                Ok(rec) => rec,
                Err(e) => {
                    proof {
                        assert(wal_record_dec(bvs[i as int]) is None);
                    }
                    return Err(e);
                },
            };
            records.push(rec);
            i = i + 1;
        }
        let ghost rvs = records@.map_values(|r: WalRecord| r@);
        proof {
            assert(rvs =~= Seq::new(bvs.len(), |i: int| wal_record_dec(bvs[i]).unwrap()));
            lemma_frames_dec_total_len(bytes@, 0, bvs);
            lemma_wal_records_size(bvs, rvs);
            assert forall|j: int| 0 <= j < rvs.len() implies wal_record_wf(#[trigger] rvs[j]) by {
                lemma_wal_record_dec_wf(bvs[j]);
            }
        }
        let size = bytes.len() as u64;
        let len = records.len();
        Ok(Wal { records, size, len })
    }

    /// An empty log.
    pub fn new() -> (w: Wal)
        ensures
            w.wf(),
            w@ == Seq::<WalRecordV>::empty(),
    {
        let w = Wal { records: Vec::new(), size: 0, len: 0 };
        proof {
            assert(w@ =~= Seq::<WalRecordV>::empty());
        }
        w
    }

    /// Whether the log has outgrown its compaction threshold.
    pub fn should_compact(&self) -> (r: bool)
        requires
            self.wf(),
        ensures
            r == (wal_size_of(self@) > WAL_MAX_SIZE),
    {
        self.size > WAL_MAX_SIZE
    }

    /// The number of records in the log.
    pub fn len(&self) -> (r: usize)
        ensures
            r == self@.len(),
    {
        self.records.len()
    }

    /// The byte size of the log file.
    pub fn size(&self) -> (r: u64)
        requires
            self.wf(),
        ensures
            r == wal_size_of(self@),
    {
        self.size
    }

    /// Whether appending `record` stays within the format's and the
    /// counters' limits.
    pub open spec fn append_fits(self, record: WalRecordV) -> bool {
        wal_record_wf(record) && frame_fits(wal_record_enc(record)) && wal_size_of(self@)
            + frame_len(wal_record_enc(record)) <= u64::MAX && self@.len() + 1 <= usize::MAX
    }

    /// Records the append of `record` and returns the frame bytes the
    /// caller must write and fsync before acknowledging the mutation.
    pub fn append(&mut self, record: WalRecord) -> (r: Result<Vec<u8>, StoreError>)
        requires
            old(self).wf(),
        ensures
            final(self).wf(),
            old(self).append_fits(record@) <==> r is Ok,
            match r {
                Ok(frame) => final(self)@ == old(self)@.push(record@) && frame@ == frame_enc(
                    wal_record_enc(record@),
                ),
                Err(e) => *final(self) == *old(self) && (e == StoreError::FrameTooLarge || e
                    == StoreError::LimitExceeded),
            },
    {
        proof {
            lemma_wal_size_of_push(self@, record@);
        }
        let wf_rec = match &record {
            WalRecord::Put { key, val } => key.user_key().len() as u64 <= u32::MAX as u64
                && val.len() as u64 <= u32::MAX as u64,
            WalRecord::Delete { key } => key.user_key().len() as u64 <= u32::MAX as u64,
        };
        if !wf_rec {
            return Err(StoreError::FrameTooLarge);
        }
        let mut body: Vec<u8> = Vec::new();
        record.encode_into(&mut body);
        let mut frame: Vec<u8> = Vec::new();
        let written = match write_framed(&mut frame, &body) {
            Ok(w) => w,
            Err(e) => {
                return Err(e);
            },
        };
        if self.size > u64::MAX - written as u64 {
            return Err(StoreError::LimitExceeded);
        }
        if self.len == usize::MAX {
            return Err(StoreError::LimitExceeded);
        }
        let ghost rv = record@;
        self.size = self.size + written as u64;
        self.len = self.len + 1;
        self.records.push(record);
        proof {
            assert(self@ =~= old(self)@.push(rv));
        }
        Ok(frame)
    }

    /// The decoded records of the log, oldest first.
    pub fn replay(&self) -> (r: Vec<WalRecord>)
        ensures
            r@.map_values(|rec: WalRecord| rec@) == self@,
    {
        let mut r: Vec<WalRecord> = Vec::new();
        let mut i: usize = 0;
        while i < self.records.len()
            invariant
                i <= self.records@.len(),
                self@ == self.records@.map_values(|rec: WalRecord| rec@),
                self@.len() == self.records@.len(),
                r@.map_values(|rec: WalRecord| rec@) =~= self@.subrange(0, i as int),
            decreases self.records@.len() - i,
        {
            let ghost prev = r@.map_values(|rec: WalRecord| rec@);
            let d = self.records[i].duplicate();
            let ghost dv = d@;
            r.push(d);
            i = i + 1;
            proof {
                assert(r@.map_values(|rec: WalRecord| rec@) =~= prev.push(dv));
                assert(dv == self@[i - 1]);
                assert(prev.push(dv) =~= self@.subrange(0, i as int));
            }
        }
        proof {
            assert(self@.subrange(0, self@.len() as int) =~= self@);
        }
        r
    }

    /// Forgets every record: the caller truncates the file to match.
    pub fn clear(&mut self)
        ensures
            final(self).wf(),
            final(self)@ == Seq::<WalRecordV>::empty(),
    {
        self.records = Vec::new();
        self.size = 0;
        self.len = 0;
        proof {
            assert(self@ =~= Seq::<WalRecordV>::empty());
        }
    }
}

/// A decoded record stream occupies exactly the bytes its frames account
/// for.
proof fn lemma_wal_records_size(bodies: Seq<Seq<u8>>, records: Seq<WalRecordV>)
    requires
        records.len() == bodies.len(),
        forall|i: int| 0 <= i < bodies.len() ==> wal_record_dec(#[trigger] bodies[i]) is Some,
        forall|i: int|
            0 <= i < bodies.len() ==> #[trigger] records[i] == wal_record_dec(bodies[i]).unwrap(),
    ensures
        wal_size_of(records) == crate::framed::frames_total_len(bodies),
    decreases bodies.len(),
{
    if bodies.len() > 0 {
        lemma_wal_record_dec_len(bodies[0]);
        assert(records[0] == wal_record_dec(bodies[0]).unwrap());
        assert(forall|i: int|
            0 <= i < bodies.drop_first().len() ==> #[trigger] bodies.drop_first()[i] == bodies[i
                + 1]);
        assert(forall|i: int|
            0 <= i < records.drop_first().len() ==> #[trigger] records.drop_first()[i] == records[i
                + 1]);
        lemma_wal_records_size(bodies.drop_first(), records.drop_first());
    }
}

/// A body that decodes was consumed whole: the record's encoding length is
/// the body's length.
proof fn lemma_wal_record_dec_len(b: Seq<u8>)
    requires
        wal_record_dec(b) is Some,
    ensures
        wal_record_enc(wal_record_dec(b).unwrap()).len() == b.len(),
{
    let r = wal_record_dec(b).unwrap();
    match r {
        WalRecordV::Put { key, val } => {
        },
        WalRecordV::Delete { key } => {
        },
    }
}

/// A record that decodes is encodable.
proof fn lemma_wal_record_dec_wf(b: Seq<u8>)
    requires
        wal_record_dec(b) is Some,
    ensures
        wal_record_wf(wal_record_dec(b).unwrap()),
{
}

} // verus!
