//! The sorted-table manager: file numbering and the flush of frozen tables
//! into level-0 table files, recorded in the manifest.
//!
//! The manager owns the in-memory catalog.  Opening probes the `CURRENT`
//! pointer: present, the named manifest is replayed; absent over an empty
//! manifests directory, a fresh catalog is bootstrapped; absent over a
//! non-empty one, the store is corrupt and refuses to open.  All file I/O
//! stays with the caller: the manager decides, and hands out the exact
//! bytes to write.

use vstd::prelude::*;

use crate::framed::{frame_enc, frame_fits, write_framed};
use crate::key::SeqNo;
use crate::memtable::{Entry, Frozen, MemTable};
use crate::sstable::manifest::{
    lemma_create_file_level_count, lemma_level0_present, level_files, manifest_apply,
    manifest_record_enc, manifest_wf, record_applies, record_wf, FileMeta, FileMetaV, Manifest,
    ManifestRecord, ManifestRecordV, ManifestV,
};
use crate::sstable::sstable::{entry_fits, BlockMeta, BLOCK_SIZE};
use crate::sstable::Level;
use crate::value::Value;
use crate::StoreError;

verus! {

/// A file number: the store-wide identity of a table or manifest file.
#[derive(Debug, Clone, Copy, PartialEq, Eq, Hash, Structural)]
pub struct FileNo(pub u64);

/// The magic constant that closes every sorted-table file.
pub const SSTABLE_MAGIC: u32 = 0xDEAD_BEEF;

/// The byte budget of a level-0 table file.
pub const BASE_LEVEL_SIZE: u64 = 67108864;

/// Each level's file-size budget grows by this factor per level.
pub const SIZE_RATIO: u64 = 10;

/// `SIZE_RATIO` raised to the power `e`.
pub open spec fn pow_size_ratio(e: nat) -> int
    decreases e,
{
    if e == 0 {
        1
    } else {
        SIZE_RATIO * pow_size_ratio((e - 1) as nat)
    }
}

/// The file-size budget of a level: 64 MiB at level 0, tenfold per level
/// above it.  Levels past 11 would overflow the 64-bit budget arithmetic.
pub fn calculate_sstable_size(level: &Level) -> (r: u64)
    requires
        level.0 <= 11,
    ensures
        r == BASE_LEVEL_SIZE * pow_size_ratio(level.0 as nat),
{
    let mut e: u32 = 0;
    let mut acc: u64 = BASE_LEVEL_SIZE;
    while e < level.0
        invariant
            e <= level.0 <= 11,
            acc == BASE_LEVEL_SIZE * pow_size_ratio(e as nat),
        decreases level.0 - e,
    {
        proof {
            lemma_pow_size_ratio_step(e as nat);
            lemma_pow_size_ratio_mono_le(e as nat, 10);
            lemma_pow_size_ratio_ten();
        }
        acc = acc * SIZE_RATIO;
        e = e + 1;
    }
    acc
}

proof fn lemma_pow_size_ratio_step(e: nat)
    ensures
        pow_size_ratio(e + 1) == pow_size_ratio(e) * SIZE_RATIO,
    decreases e,
{
    if e > 0 {
        lemma_pow_size_ratio_step((e - 1) as nat);
    }
}

proof fn lemma_pow_size_ratio_mono_le(a: nat, b: nat)
    requires
        a <= b,
    ensures
        1 <= pow_size_ratio(a) <= pow_size_ratio(b),
    decreases b,
{
    if a == b {
        lemma_pow_size_ratio_pos(a);
    } else {
        lemma_pow_size_ratio_mono_le(a, (b - 1) as nat);
        lemma_pow_size_ratio_step((b - 1) as nat);
    }
}

proof fn lemma_pow_size_ratio_pos(e: nat)
    ensures
        pow_size_ratio(e) >= 1,
    decreases e,
{
    if e > 0 {
        lemma_pow_size_ratio_pos((e - 1) as nat);
    }
}

proof fn lemma_pow_size_ratio_ten()
    ensures
        pow_size_ratio(10) == 10000000000,
{
    reveal_with_fuel(pow_size_ratio, 12);
}

/// The name of the catalog pointer file.
pub const CURRENT_FILE_NAME: &'static str = "CURRENT";

/// The extension of manifest files.
pub const MANIFEST_FILE_EXT: &'static str = "manifest";

/// The extension of sorted-table files.
pub const SSTABLE_FILE_EXT: &'static str = "sstable";

/// The decimal digit characters of `n`, most significant first.
pub open spec fn dec_digits(n: u64) -> Seq<char>
    decreases n,
{
    if n < 10 {
        seq![digit_char(n)]
    } else {
        dec_digits(n / 10).push(digit_char(n % 10))
    }
}

/// The character of one decimal digit.
pub open spec fn digit_char(d: u64) -> char {
    if d == 0 {
        '0'
    } else if d == 1 {
        '1'
    } else if d == 2 {
        '2'
    } else if d == 3 {
        '3'
    } else if d == 4 {
        '4'
    } else if d == 5 {
        '5'
    } else if d == 6 {
        '6'
    } else if d == 7 {
        '7'
    } else if d == 8 {
        '8'
    } else {
        '9'
    }
}

/// `k` zero characters.
pub open spec fn zero_pad(k: int) -> Seq<char>
    decreases k,
{
    if k <= 0 {
        Seq::empty()
    } else {
        seq!['0'] + zero_pad(k - 1)
    }
}

/// A file's name: its number in decimal, zero-padded to at least six
/// digits, a dot, and the extension.
pub open spec fn file_name_chars(n: u64, ext: Seq<char>) -> Seq<char> {
    zero_pad(6 - dec_digits(n).len()) + dec_digits(n) + seq!['.'] + ext
}

proof fn lemma_zero_pad_snoc(k: int)
    requires
        k >= 0,
    ensures
        zero_pad(k + 1) == zero_pad(k) + seq!['0'],
    decreases k,
{
    if k == 0 {
        reveal_with_fuel(zero_pad, 3);
        assert(zero_pad(1) =~= Seq::<char>::empty() + seq!['0']);
        assert(zero_pad(0) + seq!['0'] =~= Seq::<char>::empty() + seq!['0']);
    } else {
        lemma_zero_pad_snoc(k - 1);
        assert(seq!['0'] + (zero_pad(k - 1) + seq!['0']) =~= (seq!['0'] + zero_pad(k - 1))
            + seq!['0']);
    }
}

/// Appends the one-character string of a decimal digit.
fn push_digit(s: &mut String, d: u64)
    requires
        d < 10,
    ensures
        final(s)@ == old(s)@ + seq![digit_char(d)],
{
    if d == 0 {
        proof {
            reveal_strlit("0");
        }
        s.append("0");
    } else if d == 1 {
        proof {
            reveal_strlit("1");
        }
        s.append("1");
    } else if d == 2 {
        proof {
            reveal_strlit("2");
        }
        s.append("2");
    } else if d == 3 {
        proof {
            reveal_strlit("3");
        }
        s.append("3");
    } else if d == 4 {
        proof {
            reveal_strlit("4");
        }
        s.append("4");
    } else if d == 5 {
        proof {
            reveal_strlit("5");
        }
        s.append("5");
    } else if d == 6 {
        proof {
            reveal_strlit("6");
        }
        s.append("6");
    } else if d == 7 {
        proof {
            reveal_strlit("7");
        }
        s.append("7");
    } else if d == 8 {
        proof {
            reveal_strlit("8");
        }
        s.append("8");
    } else {
        proof {
            reveal_strlit("9");
        }
        s.append("9");
    }
    assert(s@ =~= old(s)@ + seq![digit_char(d)]);
}

/// Appends the decimal digits of `n`, most significant first.
fn push_digits(s: &mut String, n: u64)
    ensures
        final(s)@ == old(s)@ + dec_digits(n),
    decreases n,
{
    if n < 10 {
        push_digit(s, n);
    } else {
        push_digits(s, n / 10);
        push_digit(s, n % 10);
        assert(s@ =~= old(s)@ + dec_digits(n)) by {
            assert(dec_digits(n) == dec_digits(n / 10).push(digit_char(n % 10)));
            assert(dec_digits(n / 10).push(digit_char(n % 10)) =~= dec_digits(n / 10) + seq![
                digit_char(n % 10),
            ]);
        }
    }
}

/// The number of decimal digits of `n`.
fn count_digits(n: u64) -> (r: u64)
    ensures
        r == dec_digits(n).len(),
        1 <= r <= 20,
{
    proof {
        lemma_dec_digits_len_bound(n);
    }
    let mut m = n;
    let mut cnt: u64 = 1;
    while m >= 10
        invariant
            1 <= cnt <= 20,
            dec_digits(n).len() == dec_digits(m).len() + cnt - 1,
            dec_digits(n).len() <= 20,
        decreases m,
    {
        proof {
            lemma_dec_digits_len(m);
            lemma_dec_digits_len_bound(m);
            lemma_dec_digits_len_bound(m / 10);
        }
        m = m / 10;
        cnt = cnt + 1;
    }
    cnt
}

proof fn lemma_dec_digits_len(m: u64)
    requires
        m >= 10,
    ensures
        dec_digits(m).len() == dec_digits(m / 10).len() + 1,
{
}

proof fn lemma_dec_digits_len_bound(n: u64)
    ensures
        1 <= dec_digits(n).len() <= 20,
{
    reveal_with_fuel(pow10, 21);
    assert(pow10(20) == 100000000000000000000);
    lemma_dec_digits_len_small(n, 20);
}

/// A number below 10^k has at most k digits.
proof fn lemma_dec_digits_len_small(n: u64, k: int)
    requires
        1 <= k,
        n < pow10(k as nat),
    ensures
        dec_digits(n).len() <= k,
    decreases k,
{
    if n < 10 {
    } else {
        assert(n / 10 < pow10((k - 1) as nat)) by {
            assert(pow10(k as nat) == 10 * pow10((k - 1) as nat));
        }
        lemma_dec_digits_len_small(n / 10, k - 1);
    }
}

/// Ten raised to the power `e`.
pub open spec fn pow10(e: nat) -> int
    decreases e,
{
    if e == 0 {
        1
    } else {
        10 * pow10((e - 1) as nat)
    }
}

/// The file name of `id` with extension `ext`: six-digit zero-padded
/// decimal, a dot, the extension.
pub fn format_file_name(id: FileNo, ext: &str) -> (r: String)
    ensures
        r@ == file_name_chars(id.0, ext@),
{
    let mut s = String::new();
    let cnt = count_digits(id.0);
    let mut k: u64 = 0;
    let pad: u64 = if cnt < 6 {
        6 - cnt
    } else {
        0
    };
    proof {
        assert(s@ + zero_pad(0) =~= s@);
    }
    while k < pad
        invariant
            k <= pad,
            pad == if dec_digits(id.0).len() < 6 {
                6 - dec_digits(id.0).len()
            } else {
                0int
            },
            s@ == zero_pad(k as int),
        decreases pad - k,
    {
        proof {
            reveal_strlit("0");
            lemma_zero_pad_snoc(k as int);
        }
        s.append("0");
        k = k + 1;
    }
    push_digits(&mut s, id.0);
    proof {
        reveal_strlit(".");
    }
    s.append(".");
    s.append(ext);
    proof {
        assert(s@ =~= file_name_chars(id.0, ext@)) by {
            assert(zero_pad(6 - dec_digits(id.0).len()) == zero_pad(pad as int)) by {
                lemma_dec_digits_len_bound(id.0);
            }
        }
    }
    s
}

/// What an opening store must do, judged from what is on disk.
#[derive(Debug, Clone, Copy, PartialEq, Eq, Structural)]
pub enum OpenMode {
    /// No catalog yet: create one and point `CURRENT` at it.
    Bootstrap,
    /// `CURRENT` names the live manifest: replay it.
    Load,
}

/// The write plan of a bootstrap: the caller creates `CURRENT` with
/// `current_content`, fsyncs it, then creates the named manifest file and
/// appends `snapshot_frame` to it, fsynced.
pub struct BootstrapPlan {
    pub manifest_file_name: String,
    pub snapshot_frame: Vec<u8>,
}

/// Owner of the catalog: hands out file numbers, records flushes, and
/// rebuilds its state from the manifest log.
pub struct SSTableManager {
    active_manifest: Manifest,
}

impl View for SSTableManager {
    type V = ManifestV;

    closed spec fn view(&self) -> ManifestV {
        self.active_manifest@
    }
}

impl SSTableManager {
    /// The manager's catalog is well-formed.
    pub open spec fn wf(&self) -> bool {
        manifest_wf(self@)
    }

    /// Judges the state of the manifests directory: `CURRENT` present
    /// means load; absent over an empty directory means bootstrap; absent
    /// over a non-empty one is corruption and refuses the store.
    pub fn open_mode(current_exists: bool, manifests_dir_empty: bool) -> (r: Result<
        OpenMode,
        StoreError,
    >)
        ensures
            current_exists ==> r == Ok::<OpenMode, StoreError>(OpenMode::Load),
            !current_exists && manifests_dir_empty ==> r == Ok::<OpenMode, StoreError>(
                OpenMode::Bootstrap,
            ),
            !current_exists && !manifests_dir_empty ==> r == Err::<OpenMode, StoreError>(
                StoreError::InconsistentState,
            ),
    {
        if current_exists {
            Ok(OpenMode::Load)
        } else if manifests_dir_empty {
            Ok(OpenMode::Bootstrap)
        } else {
            Err(StoreError::InconsistentState)
        }
    }

    /// A fresh catalog for an empty store: allocates the manifest's own
    /// file number and hands back the name to write into `CURRENT` and the
    /// snapshot frame to append to the new manifest file.
    pub fn bootstrap() -> (r: (SSTableManager, BootstrapPlan))
        ensures
            r.0.wf(),
            r.0@ == (ManifestV {
                next_file_number: 1,
                ..crate::sstable::manifest::manifest_init()
            }),
            r.1.manifest_file_name@ == file_name_chars(0, MANIFEST_FILE_EXT@),
            r.1.snapshot_frame@ == frame_enc(
                manifest_record_enc(ManifestRecordV::Snapshot(r.0@)),
            ),
    {
        let mut manifest = Manifest::new();
        let (initial_id, _alloc_record) = manifest.alloc_file_number();
        let manifest_file_name = format_file_name(initial_id, MANIFEST_FILE_EXT);
        let snapshot = ManifestRecord::Snapshot(manifest.duplicate());
        let mut body: Vec<u8> = Vec::new();
        snapshot.encode_into(&mut body);
        let mut snapshot_frame: Vec<u8> = Vec::new();
        proof {
            lemma_snapshot_body_fits(manifest@);
        }
        let written = write_framed(&mut snapshot_frame, &body);
        proof {
            assert(written is Ok);
        }
        (
            SSTableManager { active_manifest: manifest },
            BootstrapPlan { manifest_file_name, snapshot_frame },
        )
    }

    /// Rebuilds the manager from the bytes of the manifest file that
    /// `CURRENT` names.
    pub fn open_existing(manifest_bytes: &Vec<u8>) -> (r: Result<SSTableManager, StoreError>)
        ensures
            match r {
                Ok(m) => crate::sstable::manifest::manifest_load(manifest_bytes@) == Some(m@)
                    && m.wf(),
                Err(_) => crate::sstable::manifest::manifest_load(manifest_bytes@) is None,
            },
    {
        let manifest = match Manifest::load_from_bytes(manifest_bytes) {
            Ok(m) => m,
            Err(e) => {
                return Err(e);
            },
        };
        Ok(SSTableManager { active_manifest: manifest })
    }

    /// The last sequence number the catalog records as committed.
    pub fn last_committed_sequence_number(&self) -> (r: SeqNo)
        ensures
            r.0 == self@.last_committed_sequence_number,
    {
        self.active_manifest.last_committed_sequence_number
    }

    /// Applies `record` to the catalog and returns the frame bytes the
    /// caller must append to the manifest file and fsync to make the delta
    /// durable.
    pub fn append_record(&mut self, record: ManifestRecord) -> (r: Result<Vec<u8>, StoreError>)
        requires
            old(self).wf(),
            record_wf(record@),
        ensures
            final(self).wf() || *final(self) == *old(self),
            (record_applies(old(self)@, record@) && frame_fits(manifest_record_enc(record@)))
                <==> r is Ok,
            match r {
                Ok(frame) => final(self)@ == manifest_apply(old(self)@, record@) && final(self).wf()
                    && frame@ == frame_enc(manifest_record_enc(record@)),
                Err(e) => *final(self) == *old(self) && (e == StoreError::LimitExceeded || e
                    == StoreError::FrameTooLarge),
            },
    {
        let mut body: Vec<u8> = Vec::new();
        record.encode_into(&mut body);
        let mut frame: Vec<u8> = Vec::new();
        match write_framed(&mut frame, &body) {
            Ok(_) => {
            },
            Err(e) => {
                return Err(e);
            },
        }
        match self.active_manifest.apply(record) {
            Ok(()) => Ok(frame),
            Err(e) => Err(e),
        }
    }

    /// Hands out the next file number and returns it with the frame bytes
    /// of the allocation record, which the caller must append to the
    /// manifest and fsync before creating any file under that number.
    pub fn alloc_file_number(&mut self) -> (r: Result<(FileNo, Vec<u8>), StoreError>)
        requires
            old(self).wf(),
        ensures
            final(self).wf() || *final(self) == *old(self),
            (old(self)@.next_file_number < u64::MAX) <==> r is Ok,
            match r {
                Ok((no, frame)) => no.0 == old(self)@.next_file_number && final(self)@ == (
                ManifestV { next_file_number: (old(self)@.next_file_number + 1) as u64, ..old(
                    self,
                )@ }) && final(self).wf() && frame@ == frame_enc(
                    manifest_record_enc(ManifestRecordV::AllocFileNumber(no.0)),
                ),
                Err(e) => *final(self) == *old(self) && e == StoreError::LimitExceeded,
            },
    {
        if self.active_manifest.next_file_number.0 == u64::MAX {
            return Err(StoreError::LimitExceeded);
        }
        let ghost m0 = self@;
        let (fileno, record) = self.active_manifest.alloc_file_number();
        let mut body: Vec<u8> = Vec::new();
        record.encode_into(&mut body);
        let mut frame: Vec<u8> = Vec::new();
        let written = write_framed(&mut frame, &body);
        proof {
            assert(manifest_record_enc(ManifestRecordV::AllocFileNumber(fileno.0)).len() == 9);
            assert(written is Ok);
            assert(self@ =~= (ManifestV { next_file_number: (m0.next_file_number + 1) as u64, ..m0 }));
        }
        Ok((fileno, frame))
    }

    /// The highest level with a catalog entry.
    pub fn max_level(&self) -> (r: Level)
        requires
            self.wf(),
        ensures
            r.0 == self@.levels[self@.levels.len() - 1].level,
    {
        self.active_manifest.max_level()
    }

    /// The files of `level`, in file-number order.
    pub fn iter_level(&self, level: &Level) -> (r: Vec<FileMeta>)
        requires
            self.wf(),
        ensures
            r@.map_values(|f: FileMeta| f@) == crate::sstable::manifest::level_files(
                self@,
                level.0,
            ),
    {
        self.active_manifest.files_of(level)
    }

    /// Whether a flush of the entries `es` is owed success: every entry
    /// fits the block format, the key bounds of any file's catalog record
    /// fit one frame, and the catalog has headroom for one allocation and
    /// one level-0 entry per entry (a flush never creates more files than
    /// entries).
    pub open spec fn flush_fits(self, es: Seq<crate::memtable::EntryV>) -> bool {
        flush_fits_m(self@, es)
    }

    /// Turns a frozen table into one or more level-0 table files, splitting
    /// at the per-level byte budget, and records every allocation and file
    /// creation in the catalog.  Nothing is written here: the caller
    /// performs the returned plan in order, fsyncing as each step demands.
    /// On any error the catalog is left untouched.
    #[verifier::rlimit(100)]
    pub fn flush_memtable(&mut self, frozen: &MemTable<Frozen>) -> (r: Result<
        Vec<SstableFile>,
        StoreError,
    >)
        requires
            old(self).wf(),
        ensures
            old(self).flush_fits(frozen@) ==> r is Ok,
            (exists|j: int|
                0 <= j < frozen@.len() && !entry_fits(#[trigger] frozen@[j])) <==> r == Err::<
                Vec<SstableFile>,
                StoreError,
            >(StoreError::EntryTooLarge),
            match r {
                Ok(files) => {
                    &&& final(self).wf()
                    &&& final(self)@ == flush_manifest(old(self)@, flush_items(files@))
                    &&& final(self)@.last_committed_sequence_number == old(
                        self,
                    )@.last_committed_sequence_number
                    &&& (files@.len() == 0 <==> frozen@.len() == 0)
                    &&& (forall|k: int|
                        0 <= k < files@.len() ==> sstable_file_ok(#[trigger] files@[k], frozen@))
                    &&& (files@.len() > 0 ==> files@[0].first_entry == 0 && files@.last().end_entry
                        == frozen@.len())
                    &&& (forall|k: int|
                        0 < k < files@.len() ==> (#[trigger] files@[k]).first_entry == files@[k
                            - 1].end_entry)
                    &&& (forall|k: int|
                        0 <= k < files@.len() - 1 ==> (#[trigger] files@[k]).bytes@.len()
                            >= BASE_LEVEL_SIZE)
                },
                Err(e) => *final(self) == *old(self) && (e == StoreError::EntryTooLarge || e
                    == StoreError::LimitExceeded || e == StoreError::FrameTooLarge),
            },
    {
        let entries = frozen.entries();
        let ghost es = frozen@;
        let n = entries.len();
        let mut j: usize = 0;
        while j < n
            invariant
                j <= n,
                n == es.len(),
                es == frozen@,
                es == entries@.map_values(|e: Entry| e@),
                es.len() == entries@.len(),
                forall|t: int| 0 <= t < j ==> entry_fits(#[trigger] es[t]),
            decreases n - j,
        {
            proof {
                assert(entries@[j as int]@ == es[j as int]);
            }
            let klen = entries[j].key.user_key().len();
            let plen = entries[j].value.payload_len();
            let elen: u128 = 12u128 + klen as u128 + (match &entries[j].value {
                Value::Data(_) => 5u128 + plen as u128,
                Value::Tombstone => 1u128,
            });
            proof {
                assert(elen as int == crate::sstable::sstable::entry_enc_len(es[j as int]));
                assert(entry_fits(es[j as int]) <==> elen as int + BLOCK_SIZE as int
                    <= u32::MAX);
            }
            if elen + BLOCK_SIZE as u128 > u32::MAX as u128 {
                proof {
                    assert(!entry_fits(frozen@[j as int]));
                }
                return Err(StoreError::EntryTooLarge);
            }
            j = j + 1;
        }
        if n == 0 {
            let files: Vec<SstableFile> = Vec::new();
            proof {
                reveal(flush_manifest);
                assert(flush_items(files@) =~= Seq::<(u64, FileMetaV)>::empty());
            }
            return Ok(files);
        }
        let ghost m0 = self@;
        let mut m = self.active_manifest.duplicate();
        let mut out: Vec<SstableFile> = Vec::new();
        if m.next_file_number.0 == u64::MAX {
            // unreachable when the flush is owed success: the catalog would
            // lack headroom for even one allocation
            proof {
                assert(!old(self).flush_fits(es));
            }
            return Err(StoreError::LimitExceeded);
        }
        let (mut file_no, first_alloc_rec) = m.alloc_file_number();
        let mut alloc_frame: Vec<u8> = Vec::new();
        {
            let mut body: Vec<u8> = Vec::new();
            first_alloc_rec.encode_into(&mut body);
            let w = write_framed(&mut alloc_frame, &body);
            proof {
                assert(manifest_record_enc(ManifestRecordV::AllocFileNumber(file_no.0)).len()
                    == 9);
                assert(w is Ok);
            }
        }
        let mut data: Vec<u8> = Vec::new();
        let mut block: Vec<u8> = Vec::new();
        let mut metas: Vec<BlockMeta> = Vec::new();
        let mut index_acc: u64 = 4;
        let mut file_start: usize = 0;
        let mut i: usize = 0;
        proof {
            assert(es.subrange(0, 0) =~= Seq::<crate::memtable::EntryV>::empty());
            assert(data@ + block@ =~= crate::sstable::sstable::entries_enc(es.subrange(0, 0)));
            assert(metas@.map_values(|mm: BlockMeta| mm@).len() == 0);
            assert(index_enc_of(metas@) == 4) by {
                assert(metas@.map_values(|mm: BlockMeta| mm@) =~= Seq::<
                    crate::sstable::sstable::BlockMetaV,
                >::empty());
            }
            assert(flush_items(out@) =~= Seq::<(u64, FileMetaV)>::empty());
            reveal(flush_manifest);
            assert(flush_manifest(m0, flush_items(out@)) == m0);
        }
        while i < n
            invariant
                i <= n,
                n == es.len(),
                n >= 1,
                es == frozen@,
                es == entries@.map_values(|e: Entry| e@),
                es.len() == entries@.len(),
                forall|t: int| 0 <= t < frozen@.len() ==> entry_fits(#[trigger] frozen@[t]),
                m0 == old(self)@,
                flush_loop_inv(
                    m,
                    out@,
                    data@,
                    block@,
                    metas@,
                    index_acc,
                    file_start as int,
                    file_no,
                    alloc_frame@,
                    es,
                    m0,
                    i as int,
                ),
            decreases n - i,
        {
            match flush_step(
                &mut m,
                &mut out,
                &mut data,
                &mut block,
                &mut metas,
                &mut index_acc,
                &mut file_start,
                &mut file_no,
                &mut alloc_frame,
                entries,
                i,
                Ghost(es),
                Ghost(m0),
            ) {
                Ok(()) => {
                },
                Err(e) => {
                    proof {
                        assert(!old(self).flush_fits(es));
                    }
                    return Err(e);
                },
            }
            i = i + 1;
        }
        if file_start < n {
            if block.len() > 0 {
                let bm = BlockMeta {
                    last_key: entries[n - 1].key.duplicate(),
                    offset: data.len() as u64,
                    size: block.len() as u32,
                };
                let ghost bmv = bm@;
                let ghost metas0 = metas@.map_values(|mm: BlockMeta| mm@);
                let key_len = entries[n - 1].key.encoded_len();
                proof {
                    assert(entries@[n - 1]@ == es[n - 1]);
                    assert(entry_fits(es[n - 1]));
                }
                metas.push(bm);
                crate::codec::push_bytes(&mut data, &block);
                block = Vec::new();
                proof {
                    assert(metas@.map_values(|mm: BlockMeta| mm@) =~= metas0.push(bmv));
                    assert(data@ + block@ =~= data@);
                }
            }
            proof {
                assert(data@ =~= crate::sstable::sstable::entries_enc(
                    es.subrange(file_start as int, n as int),
                ));
                assert(entries@[file_start as int]@ == es[file_start as int]);
                assert(entries@[n - 1]@ == es[n - 1]);
                assert(entry_fits(es[file_start as int]));
                assert(entry_fits(es[n - 1]));
                assert(crate::key::key_wf(es[file_start as int].key));
                assert(crate::key::key_wf(es[n - 1].key));
            }
            let ghost pre_out = out@;
            let ghost pre_count = level_files(m@, 0).len();
            match emit_file(
                &mut m,
                &mut out,
                data,
                &metas,
                file_no,
                alloc_frame,
                entries[file_start].key.encode_to_bytes(),
                entries[n - 1].key.encode_to_bytes(),
                file_start,
                n,
                Ghost(es),
                Ghost(m0),
            ) {
                Ok(()) => {
                },
                Err(e) => {
                    // unreachable when the flush is owed success
                    proof {
                        if old(self).flush_fits(es) {
                            assert(33 + 2 * crate::key::key_enc_len(es[file_start as int].key)
                                <= u32::MAX);
                            assert(33 + 2 * crate::key::key_enc_len(es[n - 1].key) <= u32::MAX);
                            assert(pre_count < u32::MAX);
                            assert(false);
                        }
                    }
                    return Err(e);
                },
            }
            proof {
                // every file but this final one was closed at the budget
                assert forall|k: int|
                    0 <= k < out@.len() - 1 implies (#[trigger] out@[k]).bytes@.len()
                    >= BASE_LEVEL_SIZE by {
                    assert(out@[k] == pre_out[k]);
                }
            }
        } else {
            proof {
                lemma_alloc_noop(m@, file_no.0);
            }
        }
        self.active_manifest = m;
        Ok(out)
    }
}

/// Whether one planned file is sound with respect to the frozen table it
/// came from: a well-formed table file whose data region holds exactly its
/// slice of the entries, a catalog entry that matches it, and the frames
/// that make it durable.
#[verifier::opaque]
pub open spec fn sstable_file_ok(f: SstableFile, es: Seq<crate::memtable::EntryV>) -> bool {
    &&& crate::sstable::sstable::sstable_wf(f.bytes@)
    &&& f.first_entry < f.end_entry <= es.len()
    &&& crate::sstable::sstable::data_region(f.bytes@) == crate::sstable::sstable::entries_enc(
        es.subrange(f.first_entry as int, f.end_entry as int),
    )
    &&& f.meta@.file_number == f.file_no.0
    &&& f.meta@.file_size == f.bytes@.len()
    &&& f.meta@.smallest_key == crate::key::key_enc(es[f.first_entry as int].key)
    &&& f.meta@.largest_key == crate::key::key_enc(es[f.end_entry - 1].key)
    &&& crate::sstable::manifest::file_meta_wf(f.meta@)
    &&& f.alloc_frame@ == frame_enc(
        manifest_record_enc(ManifestRecordV::AllocFileNumber(f.file_no.0)),
    )
    &&& f.create_frame@ == frame_enc(
        manifest_record_enc(
            ManifestRecordV::CreateFile { level: 0, file_meta: f.meta@ },
        ),
    )
    &&& f.file_name@ == file_name_chars(f.file_no.0, SSTABLE_FILE_EXT@)
}

/// The catalog items of a file plan: each file's number and catalog entry.
pub open spec fn flush_items(files: Seq<SstableFile>) -> Seq<(u64, FileMetaV)> {
    files.map_values(|f: SstableFile| (f.file_no.0, f.meta@))
}

/// The index length of a block-meta vector, as the builder tracks it.
pub open spec fn index_enc_of(metas: Seq<BlockMeta>) -> int {
    crate::sstable::sstable::index_len(metas.map_values(|mm: BlockMeta| mm@))
}

/// An allocation record for a number the catalog has already moved past is
/// a no-op.
proof fn lemma_alloc_noop(m: ManifestV, no: u64)
    requires
        m.next_file_number == no + 1,
    ensures
        manifest_apply(m, ManifestRecordV::AllocFileNumber(no)) == m,
{
    assert(manifest_apply(m, ManifestRecordV::AllocFileNumber(no)) =~= m);
}

/// Whether a flush of the entries `es` onto the catalog `m` is owed
/// success; `SSTableManager::flush_fits` in terms of the catalog value.
pub open spec fn flush_fits_m(m: ManifestV, es: Seq<crate::memtable::EntryV>) -> bool {
    &&& (forall|j: int| 0 <= j < es.len() ==> entry_fits(#[trigger] es[j]))
    &&& (forall|j: int|
        0 <= j < es.len() ==> 33 + 2 * crate::key::key_enc_len((#[trigger] es[j]).key)
            <= u32::MAX)
    &&& m.next_file_number + es.len() < u64::MAX
    &&& level_files(m, 0).len() + es.len() < u32::MAX
}

/// The working state of a flush between two entries: the catalog carries
/// the files planned so far plus the pending allocation, the open file\'s
/// data and block hold exactly the entries since `file_start`, the index
/// accumulator and block metadata agree, and every closed file was closed
/// at the budget.
spec fn flush_loop_inv(
    m: Manifest,
    out: Seq<SstableFile>,
    data: Seq<u8>,
    block: Seq<u8>,
    metas: Seq<BlockMeta>,
    index_acc: u64,
    file_start: int,
    file_no: FileNo,
    alloc_frame: Seq<u8>,
    es: Seq<crate::memtable::EntryV>,
    m0: ManifestV,
    i: int,
) -> bool {
    &&& 0 <= file_start <= i <= es.len()
    &&& (forall|t: int| 0 <= t < es.len() ==> entry_fits(#[trigger] es[t]))
    &&& manifest_wf(m@)
    &&& m@ == manifest_apply(
        flush_manifest(m0, flush_items(out)),
        ManifestRecordV::AllocFileNumber(file_no.0),
    )
    &&& m@.last_committed_sequence_number == m0.last_committed_sequence_number
    &&& (file_start < es.len() ==> alloc_frame == frame_enc(
        manifest_record_enc(ManifestRecordV::AllocFileNumber(file_no.0)),
    ))
    &&& data + block == crate::sstable::sstable::entries_enc(es.subrange(file_start, i))
    &&& block.len() < BLOCK_SIZE
    &&& index_acc == index_enc_of(metas)
    &&& index_acc <= 4 + metas.len() * 0x1_0000_0010
    &&& metas.len() * (crate::sstable::sstable::BLOCK_SIZE as int) <= data.len()
    &&& data.len() < BASE_LEVEL_SIZE
    &&& m@.next_file_number == file_no.0 + 1
    &&& out.len() <= file_start
    &&& m@.next_file_number <= m0.next_file_number + out.len() + 1
    &&& level_files(m@, 0).len() <= level_files(m0, 0).len() + out.len()
    &&& (forall|k: int| 0 <= k < out.len() ==> (#[trigger] out[k]).bytes@.len() >= BASE_LEVEL_SIZE)
    &&& (forall|k: int|
        0 <= k < metas.len() ==> crate::key::key_wf((#[trigger] metas[k])@.last_key)
            && metas[k]@.offset + metas[k]@.size <= data.len())
    &&& (forall|k: int| 0 <= k < out.len() ==> sstable_file_ok(#[trigger] out[k], es))
    &&& (out.len() > 0 ==> out[0].first_entry == 0 && out.last().end_entry == file_start)
    &&& (out.len() == 0 ==> file_start == 0)
    &&& (forall|k: int|
        0 < k < out.len() ==> (#[trigger] out[k]).first_entry == out[k - 1].end_entry)
    &&& (file_start == es.len() ==> manifest_apply(
        flush_manifest(m0, flush_items(out)),
        ManifestRecordV::AllocFileNumber(file_no.0),
    ) == flush_manifest(m0, flush_items(out)))
}

/// The state of a flush at the moment a full block has closed and the
/// projected file size has reached the budget: everything the file close
/// needs to know.
spec fn flush_close_pre(
    m: Manifest,
    out: Seq<SstableFile>,
    data: Seq<u8>,
    metas: Seq<BlockMeta>,
    index_acc: u64,
    file_start: int,
    file_no: FileNo,
    alloc_frame: Seq<u8>,
    es: Seq<crate::memtable::EntryV>,
    m0: ManifestV,
    i: int,
) -> bool {
    &&& 0 <= file_start <= i < es.len()
    &&& (forall|t: int| 0 <= t < es.len() ==> entry_fits(#[trigger] es[t]))
    &&& manifest_wf(m@)
    &&& m@ == manifest_apply(
        flush_manifest(m0, flush_items(out)),
        ManifestRecordV::AllocFileNumber(file_no.0),
    )
    &&& m@.last_committed_sequence_number == m0.last_committed_sequence_number
    &&& m@.next_file_number == file_no.0 + 1
    &&& m@.next_file_number <= m0.next_file_number + out.len() + 1
    &&& level_files(m@, 0).len() <= level_files(m0, 0).len() + out.len()
    &&& alloc_frame == frame_enc(
        manifest_record_enc(ManifestRecordV::AllocFileNumber(file_no.0)),
    )
    &&& data == crate::sstable::sstable::entries_enc(es.subrange(file_start, i + 1))
    &&& index_acc == index_enc_of(metas)
    &&& metas.len() * (crate::sstable::sstable::BLOCK_SIZE as int) <= data.len()
    &&& data.len() < BASE_LEVEL_SIZE + 0x1_0000_0000
    &&& data.len() + index_acc + 32 >= BASE_LEVEL_SIZE
    &&& (forall|k: int|
        0 <= k < metas.len() ==> crate::key::key_wf((#[trigger] metas[k])@.last_key)
            && metas[k]@.offset + metas[k]@.size <= data.len())
    &&& out.len() <= file_start
    &&& (forall|k: int| 0 <= k < out.len() ==> (#[trigger] out[k]).bytes@.len() >= BASE_LEVEL_SIZE)
    &&& (forall|k: int| 0 <= k < out.len() ==> sstable_file_ok(#[trigger] out[k], es))
    &&& (out.len() > 0 ==> out[0].first_entry == 0 && out.last().end_entry == file_start)
    &&& (out.len() == 0 ==> file_start == 0)
    &&& (forall|k: int|
        0 < k < out.len() ==> (#[trigger] out[k]).first_entry == out[k - 1].end_entry)
}

/// Closes the open file at entry `i`: emits it into the plan and, if
/// entries remain, allocates the next file number.
#[verifier::rlimit(100)]
fn close_file(
    m: &mut Manifest,
    out: &mut Vec<SstableFile>,
    data: &mut Vec<u8>,
    metas: &mut Vec<BlockMeta>,
    index_acc: &mut u64,
    file_start: &mut usize,
    file_no: &mut FileNo,
    alloc_frame: &mut Vec<u8>,
    entries: &Vec<Entry>,
    i: usize,
    es: Ghost<Seq<crate::memtable::EntryV>>,
    m0: Ghost<ManifestV>,
) -> (r: Result<(), StoreError>)
    requires
        flush_close_pre(
            *old(m),
            old(out)@,
            old(data)@,
            old(metas)@,
            *old(index_acc),
            *old(file_start) as int,
            *old(file_no),
            old(alloc_frame)@,
            es@,
            m0@,
            i as int,
        ),
        es@ == entries@.map_values(|e: Entry| e@),
        es@.len() == entries@.len(),
        i < entries@.len(),
    ensures
        match r {
            Ok(()) => flush_loop_inv(
                *final(m),
                final(out)@,
                final(data)@,
                Seq::<u8>::empty(),
                final(metas)@,
                *final(index_acc),
                *final(file_start) as int,
                *final(file_no),
                final(alloc_frame)@,
                es@,
                m0@,
                i + 1,
            ) && *final(file_start) == i + 1,
            Err(e) => (e == StoreError::LimitExceeded || e == StoreError::FrameTooLarge)
                && !flush_fits_m(m0@, es@),
        },
{
    let n = entries.len();
    let end_entry = i + 1;
    let fs = *file_start;
    proof {
        assert(entries@[fs as int]@ == es@[fs as int]);
        assert(entries@[i as int]@ == es@[i as int]);
        assert(entry_fits(es@[fs as int]));
        assert(entry_fits(es@[i as int]));
        assert(crate::key::key_wf(es@[fs as int].key));
        assert(crate::key::key_wf(es@[i as int].key));
    }
    let ghost pre_count = level_files(m@, 0).len();
    let mut file_data: Vec<u8> = Vec::new();
    core::mem::swap(&mut file_data, data);
    let mut frame0: Vec<u8> = Vec::new();
    core::mem::swap(&mut frame0, alloc_frame);
    match emit_file(
        m,
        out,
        file_data,
        metas,
        *file_no,
        frame0,
        entries[fs].key.encode_to_bytes(),
        entries[i].key.encode_to_bytes(),
        fs,
        end_entry,
        Ghost(es@),
        Ghost(m0@),
    ) {
        Ok(()) => {
        },
        Err(e) => {
            // unreachable when the flush is owed success: the key bounds
            // fit one frame and the level-0 count has headroom
            proof {
                if flush_fits_m(m0@, es@) {
                    assert(33 + 2 * crate::key::key_enc_len(es@[fs as int].key) <= u32::MAX);
                    assert(33 + 2 * crate::key::key_enc_len(es@[i as int].key) <= u32::MAX);
                    assert(pre_count < u32::MAX);
                    assert(false);
                }
            }
            return Err(e);
        },
    }
    proof {
        assert(out@.last().bytes@.len() >= BASE_LEVEL_SIZE);
        assert forall|k: int|
            0 <= k < out@.len() implies (#[trigger] out@[k]).bytes@.len() >= BASE_LEVEL_SIZE by {
            if k < out@.len() - 1 {
                assert(out@[k] == old(out)@[k]);
            }
        }
    }
    *metas = Vec::new();
    *index_acc = 4;
    *file_start = end_entry;
    proof {
        assert(data@ =~= Seq::<u8>::empty());
        assert(data@ + Seq::<u8>::empty() =~= crate::sstable::sstable::entries_enc(
            es@.subrange(*file_start as int, i + 1),
        )) by {
            assert(es@.subrange(end_entry as int, i + 1) =~= Seq::<
                crate::memtable::EntryV,
            >::empty());
        }
        assert(metas@.map_values(|mm: BlockMeta| mm@) =~= Seq::<
            crate::sstable::sstable::BlockMetaV,
        >::empty());
        assert(index_enc_of(metas@) == 4);
    }
    if i + 1 < entries.len() {
        if m.next_file_number.0 == u64::MAX {
            // unreachable when the flush is owed success: at most one
            // number is allocated per entry
            proof {
                assert(out@.len() <= i + 1);
                assert(!flush_fits_m(m0@, es@));
            }
            return Err(StoreError::LimitExceeded);
        }
        let (no2, rec2) = m.alloc_file_number();
        *file_no = no2;
        let mut body2: Vec<u8> = Vec::new();
        rec2.encode_into(&mut body2);
        let w2 = write_framed(alloc_frame, &body2);
        proof {
            assert(manifest_record_enc(ManifestRecordV::AllocFileNumber(no2.0)).len() == 9);
            assert(w2 is Ok);
            assert(alloc_frame@ =~= frame_enc(
                manifest_record_enc(ManifestRecordV::AllocFileNumber(no2.0)),
            ));
            assert(m@ =~= manifest_apply(
                flush_manifest(m0@, flush_items(out@)),
                ManifestRecordV::AllocFileNumber(no2.0),
            ));
        }
    } else {
        // the last entry closed the file: nothing remains
        proof {
            lemma_alloc_noop(m@, (*file_no).0);
        }
    }
    Ok(())
}

/// One step of a flush: packs entry `i` into the open block, closes the
/// block when it is full, and closes the file — emitting it into the plan
/// and allocating the next number — when the projected file size reaches
/// the budget.
#[verifier::rlimit(100)]
fn flush_step(
    m: &mut Manifest,
    out: &mut Vec<SstableFile>,
    data: &mut Vec<u8>,
    block: &mut Vec<u8>,
    metas: &mut Vec<BlockMeta>,
    index_acc: &mut u64,
    file_start: &mut usize,
    file_no: &mut FileNo,
    alloc_frame: &mut Vec<u8>,
    entries: &Vec<Entry>,
    i: usize,
    es: Ghost<Seq<crate::memtable::EntryV>>,
    m0: Ghost<ManifestV>,
) -> (r: Result<(), StoreError>)
    requires
        flush_loop_inv(
            *old(m),
            old(out)@,
            old(data)@,
            old(block)@,
            old(metas)@,
            *old(index_acc),
            *old(file_start) as int,
            *old(file_no),
            old(alloc_frame)@,
            es@,
            m0@,
            i as int,
        ),
        i < es@.len(),
        es@ == entries@.map_values(|e: Entry| e@),
        es@.len() == entries@.len(),
    ensures
        match r {
            Ok(()) => flush_loop_inv(
                *final(m),
                final(out)@,
                final(data)@,
                final(block)@,
                final(metas)@,
                *final(index_acc),
                *final(file_start) as int,
                *final(file_no),
                final(alloc_frame)@,
                es@,
                m0@,
                i + 1,
            ),
            Err(e) => (e == StoreError::LimitExceeded || e == StoreError::FrameTooLarge)
                && !flush_fits_m(m0@, es@),
        },
{
    let n = entries.len();
    proof {
        assert(entries@[i as int]@ == es@[i as int]);
        assert(entry_fits(es@[i as int]));
    }
    let ghost block0 = block@;
    entries[i].key.encode_into(block);
    entries[i].value.encode_into(block);
    proof {
        assert(block@ =~= block0 + crate::sstable::sstable::entry_enc(es@[i as int]));
        lemma_entries_enc_snoc(es@, *file_start as int, i as int);
        assert(data@ + block@ =~= crate::sstable::sstable::entries_enc(
            es@.subrange(*file_start as int, i + 1),
        ));
    }
    if block.len() >= BLOCK_SIZE {
        let bm = BlockMeta {
            last_key: entries[i].key.duplicate(),
            offset: data.len() as u64,
            size: block.len() as u32,
        };
        let ghost bmv = bm@;
        let ghost metas0 = metas@.map_values(|mm: BlockMeta| mm@);
        let key_len = entries[i].key.encoded_len();
        metas.push(bm);
        *index_acc = *index_acc + (key_len as u64 + 12);
        crate::codec::push_bytes(data, block);
        *block = Vec::new();
        proof {
            let mm2 = metas@.map_values(|mm: BlockMeta| mm@);
            assert(mm2 =~= metas0.push(bmv));
            assert(mm2.drop_last() =~= metas0);
            assert(mm2.last() == bmv);
            assert(crate::sstable::sstable::index_entries_enc(mm2)
                == crate::sstable::sstable::index_entries_enc(metas0)
                + crate::sstable::sstable::index_entry_enc(bmv));
            assert(data@ + block@ =~= data@);
            assert(data@ + block@ =~= crate::sstable::sstable::entries_enc(
                es@.subrange(*file_start as int, i + 1),
            ));
            assert(data@ =~= crate::sstable::sstable::entries_enc(
                es@.subrange(*file_start as int, i + 1),
            ));
        }
        if data.len() as u64 + *index_acc + 32 >= BASE_LEVEL_SIZE {
            match close_file(
                m,
                out,
                data,
                metas,
                index_acc,
                file_start,
                file_no,
                alloc_frame,
                entries,
                i,
                es,
                m0,
            ) {
                Ok(()) => {
                    proof {
                        assert(block@ =~= Seq::<u8>::empty());
                    }
                },
                Err(e) => {
                    return Err(e);
                },
            }
        }
    }
    Ok(())
}

/// Closes one planned file: finalizes its bytes, builds its catalog entry/// Closes one planned file: finalizes its bytes, builds its catalog entry
/// and frames, applies the allocation and creation to the working catalog,
/// and appends the plan entry.
#[verifier::rlimit(100)]
fn emit_file(
    m: &mut Manifest,
    out: &mut Vec<SstableFile>,
    data: Vec<u8>,
    metas: &Vec<BlockMeta>,
    file_no: FileNo,
    alloc_frame: Vec<u8>,
    smallest_key: Vec<u8>,
    largest_key: Vec<u8>,
    first_entry: usize,
    end_entry: usize,
    es: Ghost<Seq<crate::memtable::EntryV>>,
    m0: Ghost<ManifestV>,
) -> (r: Result<(), StoreError>)
    requires
        manifest_wf(old(m)@),
        old(m)@ == manifest_apply(
            flush_manifest(m0@, flush_items(old(out)@)),
            ManifestRecordV::AllocFileNumber(file_no.0),
        ),
        old(m)@.last_committed_sequence_number == m0@.last_committed_sequence_number,
        forall|k: int|
            0 <= k < metas@.len() ==> crate::key::key_wf((#[trigger] metas@[k])@.last_key)
                && metas@[k]@.offset + metas@[k]@.size <= data@.len(),
        metas@.len() * (crate::sstable::sstable::BLOCK_SIZE as int) <= data@.len() + (
        crate::sstable::sstable::BLOCK_SIZE as int),
        data@.len() < BASE_LEVEL_SIZE + 0x1_0000_0000,
        first_entry < end_entry <= es@.len(),
        data@ == crate::sstable::sstable::entries_enc(
            es@.subrange(first_entry as int, end_entry as int),
        ),
        smallest_key@ == crate::key::key_enc(es@[first_entry as int].key),
        largest_key@ == crate::key::key_enc(es@[end_entry - 1].key),
        crate::key::key_wf(es@[first_entry as int].key),
        crate::key::key_wf(es@[end_entry - 1].key),
        crate::key::key_enc_len(es@[first_entry as int].key) <= u32::MAX,
        crate::key::key_enc_len(es@[end_entry - 1].key) <= u32::MAX,
        alloc_frame@ == frame_enc(
            manifest_record_enc(ManifestRecordV::AllocFileNumber(file_no.0)),
        ),
        forall|k: int| 0 <= k < old(out)@.len() ==> sstable_file_ok(#[trigger] old(out)@[k], es@),
        old(out)@.len() > 0 ==> old(out)@[0].first_entry == 0 && old(out)@.last().end_entry
            == first_entry,
        old(out)@.len() == 0 ==> first_entry == 0,
        forall|k: int|
            0 < k < old(out)@.len() ==> (#[trigger] old(out)@[k]).first_entry == old(out)@[k
                - 1].end_entry,
    ensures
        match r {
            Ok(()) => {
                &&& manifest_wf(final(m)@)
                &&& final(m)@ == flush_manifest(m0@, flush_items(final(out)@))
                &&& final(m)@.next_file_number == old(m)@.next_file_number
                &&& final(m)@.last_committed_sequence_number
                    == m0@.last_committed_sequence_number
                &&& level_files(final(m)@, 0).len() <= level_files(old(m)@, 0).len() + 1
                &&& final(out)@.len() == old(out)@.len() + 1
                &&& (forall|k: int|
                    0 <= k < old(out)@.len() ==> final(out)@[k] == #[trigger] old(out)@[k])
                &&& final(out)@.last().bytes@.len() == data@.len()
                    + crate::sstable::sstable::index_enc(
                    metas@.map_values(|mm: BlockMeta| mm@),
                ).len() + 32
                &&& (forall|k: int|
                    0 <= k < final(out)@.len() ==> sstable_file_ok(#[trigger] final(out)@[k], es@))
                &&& final(out)@[0].first_entry == 0
                &&& final(out)@.last().end_entry == end_entry
                &&& (forall|k: int|
                    0 < k < final(out)@.len() ==> (#[trigger] final(out)@[k]).first_entry
                        == final(out)@[k - 1].end_entry)
            },
            Err(e) => *final(m) == *old(m) && final(out)@ == old(out)@ && (e
                == StoreError::LimitExceeded || e == StoreError::FrameTooLarge),
        },
        (33 + smallest_key@.len() + largest_key@.len() <= u32::MAX && level_files(
            old(m)@,
            0,
        ).len() < u32::MAX) ==> r is Ok,
{
    proof {
        assert(metas@.len() <= u32::MAX) by (nonlinear_arith)
            requires
                metas@.len() * (crate::sstable::sstable::BLOCK_SIZE as int) <= data@.len() + (
                crate::sstable::sstable::BLOCK_SIZE as int),
                data@.len() < BASE_LEVEL_SIZE + 0x1_0000_0000,
                crate::sstable::sstable::BLOCK_SIZE == 16384,
                BASE_LEVEL_SIZE == 67108864,
        ;
    }
    let ghost dv = data@;
    let bytes = crate::sstable::sstable::finalize_sstable(data, metas);
    let meta = FileMeta {
        file_number: file_no.0,
        file_size: bytes.len() as u64,
        smallest_key,
        largest_key,
    };
    let create_rec = ManifestRecord::CreateFile { level: Level(0), file_meta: meta.duplicate() };
    let ghost create_rv = create_rec@;
    proof {
        assert(crate::sstable::manifest::file_meta_wf(meta@));
    }
    let mut body: Vec<u8> = Vec::new();
    create_rec.encode_into(&mut body);
    let mut create_frame: Vec<u8> = Vec::new();
    proof {
        assert(manifest_record_enc(create_rv).len() == 29 + smallest_key@.len()
            + largest_key@.len());
    }
    match write_framed(&mut create_frame, &body) {
        Ok(_) => {
        },
        Err(e) => {
            // only a create record whose key bounds overflow the frame
            // format can land here
            proof {
                assert(!(33 + smallest_key@.len() + largest_key@.len() <= u32::MAX));
            }
            return Err(e);
        },
    }
    let ghost m_before = m@;
    proof {
        lemma_level0_present(m_before);
    }
    match m.apply(create_rec) {
        Ok(()) => {
        },
        Err(e) => {
            // only a level-0 file count at the 32-bit limit can land here
            proof {
                assert(!(level_files(m_before, 0).len() < u32::MAX));
            }
            return Err(e);
        },
    }
    proof {
        lemma_create_file_level_count(m_before, 0, meta@);
    }
    let file_name = format_file_name(file_no, SSTABLE_FILE_EXT);
    let ghost prev_items = flush_items(out@);
    let f = SstableFile {
        file_no,
        file_name,
        alloc_frame,
        bytes,
        meta,
        create_frame,
        first_entry,
        end_entry,
    };
    let ghost fv = f;
    out.push(f);
    proof {
        reveal(sstable_file_ok);
        assert(flush_items(out@) =~= prev_items.push((file_no.0, fv.meta@)));
        lemma_flush_manifest_snoc(m0@, flush_items(old(out)@), (file_no.0, fv.meta@));
        assert(forall|k: int|
            0 <= k < old(out)@.len() ==> out@[k] == #[trigger] old(out)@[k]);
        assert(out@.last() == fv);
        assert(sstable_file_ok(fv, es@));
    }
    Ok(())
}


/// One planned sorted-table file of a flush: the caller appends
/// `alloc_frame` to the manifest and fsyncs it, creates the named file with
/// exactly `bytes`, fsyncs it, then appends `create_frame` to the manifest
/// and fsyncs again.  The file holds the frozen table's entries from
/// `first_entry` (inclusive) to `end_entry` (exclusive).
pub struct SstableFile {
    pub file_no: FileNo,
    pub file_name: String,
    pub alloc_frame: Vec<u8>,
    pub bytes: Vec<u8>,
    pub meta: FileMeta,
    pub create_frame: Vec<u8>,
    pub first_entry: usize,
    pub end_entry: usize,
}

/// The catalog after a flush: per file, the allocation of its number and
/// then its level-0 entry, in order.
#[verifier::opaque]
pub open spec fn flush_manifest(m: ManifestV, items: Seq<(u64, FileMetaV)>) -> ManifestV
    decreases items.len(),
{
    if items.len() == 0 {
        m
    } else {
        let m1 = manifest_apply(m, ManifestRecordV::AllocFileNumber(items[0].0));
        let m2 = manifest_apply(
            m1,
            ManifestRecordV::CreateFile { level: 0, file_meta: items[0].1 },
        );
        flush_manifest(m2, items.drop_first())
    }
}

proof fn lemma_flush_manifest_snoc(m: ManifestV, items: Seq<(u64, FileMetaV)>, it: (u64, FileMetaV))
    ensures
        flush_manifest(m, items.push(it)) == manifest_apply(
            manifest_apply(
                flush_manifest(m, items),
                ManifestRecordV::AllocFileNumber(it.0),
            ),
            ManifestRecordV::CreateFile { level: 0, file_meta: it.1 },
        ),
    decreases items.len(),
{
    reveal(flush_manifest);
    let p = items.push(it);
    if items.len() == 0 {
        assert(p[0] == it);
        assert(p.drop_first() =~= Seq::<(u64, FileMetaV)>::empty());
        assert(flush_manifest(m, items) == m);
        let m1 = manifest_apply(m, ManifestRecordV::AllocFileNumber(it.0));
        let m2 = manifest_apply(m1, ManifestRecordV::CreateFile { level: 0, file_meta: it.1 });
        assert(flush_manifest(m2, p.drop_first()) == m2);
    } else {
        assert(p[0] == items[0]);
        assert(p.drop_first() =~= items.drop_first().push(it));
        lemma_flush_manifest_snoc(
            manifest_apply(
                manifest_apply(m, ManifestRecordV::AllocFileNumber(items[0].0)),
                ManifestRecordV::CreateFile { level: 0, file_meta: items[0].1 },
            ),
            items.drop_first(),
            it,
        );
    }
}

/// The concatenated entry encodings of a prefix, extended by one entry.
proof fn lemma_entries_enc_snoc(es: Seq<crate::memtable::EntryV>, a: int, i: int)
    requires
        0 <= a <= i < es.len(),
    ensures
        crate::sstable::sstable::entries_enc(es.subrange(a, i + 1))
            == crate::sstable::sstable::entries_enc(es.subrange(a, i))
            + crate::sstable::sstable::entry_enc(es[i]),
{
    let p = es.subrange(a, i + 1);
    assert(p.drop_last() =~= es.subrange(a, i));
    assert(p.last() == es[i]);
}

/// A snapshot of a well-formed catalog always fits one frame: its encoding
/// is far below the 32-bit frame limit for any catalog this store builds.
proof fn lemma_snapshot_body_fits(m: ManifestV)
    requires
        manifest_wf(m),
        m.levels == crate::sstable::manifest::manifest_init().levels,
    ensures
        frame_fits(manifest_record_enc(ManifestRecordV::Snapshot(m))),
{
    let e = manifest_record_enc(ManifestRecordV::Snapshot(m));
    let ls = m.levels;
    assert(crate::sstable::manifest::levels_enc(ls) == crate::sstable::manifest::level_enc(ls[0])
        + crate::sstable::manifest::levels_enc(ls.drop_first()));
    assert(ls.drop_first().len() == 0);
    assert(ls[0].files.len() == 0);
    assert(crate::sstable::manifest::files_enc(ls[0].files).len() == 0);
}

} // verus!

