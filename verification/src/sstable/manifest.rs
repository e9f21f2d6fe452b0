//! The manifest: the durable catalog of the store.
//!
//! The catalog is an append-only log of deltas over a small state — the
//! next file number to allocate, the last committed sequence number, and
//! the set of live table files per level.  Applying the records of the log
//! in order rebuilds the state; a `Snapshot` record resets it wholesale, so
//! everything before the latest snapshot is dead weight, which is what
//! makes compaction of the log sound.

use vstd::prelude::*;

use crate::codec::{
    clone_bytes, push_bytes, push_range, push_u32_le, push_u64_le, read_u32_le, read_u64_le,
    u32_from_le, u32_le, u64_from_le, u64_le,
};
use crate::framed::{frames_dec, read_all_framed};
use crate::key::SeqNo;
use crate::sstable::manager::FileNo;
use crate::sstable::Level;
use crate::StoreError;

verus! {

/// What the catalog records of one table file.
#[derive(Debug)]
pub struct FileMeta {
    pub file_number: u64,
    pub file_size: u64,
    pub smallest_key: Vec<u8>,
    pub largest_key: Vec<u8>,
}

/// The mathematical content of a file's catalog entry.
#[verifier::ext_equal]
pub struct FileMetaV {
    pub file_number: u64,
    pub file_size: u64,
    pub smallest_key: Seq<u8>,
    pub largest_key: Seq<u8>,
}

impl View for FileMeta {
    type V = FileMetaV;

    open spec fn view(&self) -> FileMetaV {
        FileMetaV {
            file_number: self.file_number,
            file_size: self.file_size,
            smallest_key: self.smallest_key@,
            largest_key: self.largest_key@,
        }
    }
}

impl FileMeta {
    /// A fresh catalog entry with the same contents.
    pub fn duplicate(&self) -> (r: FileMeta)
        ensures
            r@ == self@,
    {
        FileMeta {
            file_number: self.file_number,
            file_size: self.file_size,
            smallest_key: clone_bytes(&self.smallest_key),
            largest_key: clone_bytes(&self.largest_key),
        }
    }
}

/// The live files of one level.
#[derive(Debug)]
pub struct LevelMeta {
    pub level: Level,
    pub files: Vec<FileMeta>,
}

/// The mathematical content of a level's catalog entry.
#[verifier::ext_equal]
pub struct LevelMetaV {
    pub level: u32,
    pub files: Seq<FileMetaV>,
}

impl View for LevelMeta {
    type V = LevelMetaV;

    open spec fn view(&self) -> LevelMetaV {
        LevelMetaV { level: self.level.0, files: self.files@.map_values(|f: FileMeta| f@) }
    }
}

/// A file entry's key bounds fit the format's 32-bit length prefixes.
pub open spec fn file_meta_wf(f: FileMetaV) -> bool {
    f.smallest_key.len() <= u32::MAX && f.largest_key.len() <= u32::MAX
}

/// Files strictly sorted by file number (which makes numbers unique).
pub open spec fn files_sorted(fs: Seq<FileMetaV>) -> bool {
    forall|i: int, j: int|
        0 <= i < j < fs.len() ==> (#[trigger] fs[i]).file_number < (#[trigger] fs[j]).file_number
}

pub open spec fn level_meta_wf(l: LevelMetaV) -> bool {
    files_sorted(l.files) && l.files.len() <= u32::MAX && forall|i: int|
        0 <= i < l.files.len() ==> file_meta_wf(#[trigger] l.files[i])
}

/// Levels strictly sorted by level number, with level 0 always present.
pub open spec fn levels_sorted(ls: Seq<LevelMetaV>) -> bool {
    forall|i: int, j: int|
        0 <= i < j < ls.len() ==> (#[trigger] ls[i]).level < (#[trigger] ls[j]).level
}

pub open spec fn manifest_wf(m: ManifestV) -> bool {
    levels_sorted(m.levels) && m.levels.len() <= u32::MAX && m.levels.len() >= 1
        && m.levels[0].level == 0 && forall|i: int|
        0 <= i < m.levels.len() ==> level_meta_wf(#[trigger] m.levels[i])
}

/// The mathematical content of the catalog.
#[verifier::ext_equal]
pub struct ManifestV {
    pub next_file_number: u64,
    pub last_committed_sequence_number: u64,
    pub levels: Seq<LevelMetaV>,
}

/// The catalog state: the next file number to allocate, the last committed
/// sequence number, and the live files of each level.
#[derive(Debug)]
pub struct Manifest {
    pub next_file_number: FileNo,
    pub last_committed_sequence_number: SeqNo,
    pub levels: Vec<LevelMeta>,
}

impl View for Manifest {
    type V = ManifestV;

    open spec fn view(&self) -> ManifestV {
        ManifestV {
            next_file_number: self.next_file_number.0,
            last_committed_sequence_number: self.last_committed_sequence_number.0,
            levels: self.levels@.map_values(|l: LevelMeta| l@),
        }
    }
}

/// One catalog delta.
#[derive(Debug)]
pub enum ManifestRecord {
    /// Replaces the whole catalog state.
    Snapshot(Manifest),
    /// Adds a file to a level.
    CreateFile { level: Level, file_meta: FileMeta },
    /// Removes a file from a level.
    DeleteFile { level: Level, file_number: u64 },
    /// Raises the last committed sequence number.
    SetLastSeqNo(SeqNo),
    /// Records that a file number was handed out: raises the next file
    /// number past it.
    AllocFileNumber(FileNo),
}

/// The mathematical content of a catalog delta.
#[verifier::ext_equal]
pub enum ManifestRecordV {
    Snapshot(ManifestV),
    CreateFile { level: u32, file_meta: FileMetaV },
    DeleteFile { level: u32, file_number: u64 },
    SetLastSeqNo(u64),
    AllocFileNumber(u64),
}

impl View for ManifestRecord {
    type V = ManifestRecordV;

    open spec fn view(&self) -> ManifestRecordV {
        match self {
            ManifestRecord::Snapshot(m) => ManifestRecordV::Snapshot(m@),
            ManifestRecord::CreateFile { level, file_meta } => ManifestRecordV::CreateFile {
                level: level.0,
                file_meta: file_meta@,
            },
            ManifestRecord::DeleteFile { level, file_number } => ManifestRecordV::DeleteFile {
                level: level.0,
                file_number: *file_number,
            },
            ManifestRecord::SetLastSeqNo(s) => ManifestRecordV::SetLastSeqNo(s.0),
            ManifestRecord::AllocFileNumber(f) => ManifestRecordV::AllocFileNumber(f.0),
        }
    }
}

/// A record is applicable when it cannot push a counter past its limit and
/// a carried snapshot is itself a well-formed catalog.
pub open spec fn record_wf(r: ManifestRecordV) -> bool {
    match r {
        ManifestRecordV::Snapshot(m) => manifest_wf(m),
        ManifestRecordV::CreateFile { file_meta, .. } => file_meta_wf(file_meta),
        ManifestRecordV::DeleteFile { .. } => true,
        ManifestRecordV::SetLastSeqNo(_) => true,
        ManifestRecordV::AllocFileNumber(f) => f < u64::MAX,
    }
}

/// Whether a delta can be applied to `m` without pushing a collection past
/// the 32-bit counts of the on-disk format.
pub open spec fn record_applies(m: ManifestV, r: ManifestRecordV) -> bool {
    record_wf(r) && match r {
        ManifestRecordV::CreateFile { level, .. } => level_files(m, level).len() < u32::MAX && (
        levels_find(m.levels, level) is Some || m.levels.len() < u32::MAX),
        ManifestRecordV::DeleteFile { level, .. } => levels_find(m.levels, level) is Some
            || m.levels.len() < u32::MAX,
        _ => true,
    }
}

/// Sorted insertion of a file entry into a level's files; an entry under
/// the same file number is replaced.
pub open spec fn files_insert(fs: Seq<FileMetaV>, f: FileMetaV) -> Seq<FileMetaV>
    decreases fs.len(),
{
    if fs.len() == 0 {
        seq![f]
    } else if f.file_number < fs[0].file_number {
        seq![f] + fs
    } else if f.file_number == fs[0].file_number {
        seq![f] + fs.drop_first()
    } else {
        seq![fs[0]] + files_insert(fs.drop_first(), f)
    }
}

/// Removal of the file entry under `n`, if present.
pub open spec fn files_remove(fs: Seq<FileMetaV>, n: u64) -> Seq<FileMetaV>
    decreases fs.len(),
{
    if fs.len() == 0 {
        fs
    } else if fs[0].file_number == n {
        fs.drop_first()
    } else {
        seq![fs[0]] + files_remove(fs.drop_first(), n)
    }
}

/// The level entry for `level`, if present.
pub open spec fn levels_find(ls: Seq<LevelMetaV>, level: u32) -> Option<LevelMetaV>
    decreases ls.len(),
{
    if ls.len() == 0 {
        None
    } else if ls[0].level == level {
        Some(ls[0])
    } else {
        levels_find(ls.drop_first(), level)
    }
}

/// Replaces the entry of `level` by `l`, inserting it sorted if absent.
pub open spec fn levels_update(ls: Seq<LevelMetaV>, l: LevelMetaV) -> Seq<LevelMetaV>
    decreases ls.len(),
{
    if ls.len() == 0 {
        seq![l]
    } else if l.level < ls[0].level {
        seq![l] + ls
    } else if l.level == ls[0].level {
        seq![l] + ls.drop_first()
    } else {
        seq![ls[0]] + levels_update(ls.drop_first(), l)
    }
}

/// The files of `level`, or none if the level has no entry yet.
pub open spec fn level_files(m: ManifestV, level: u32) -> Seq<FileMetaV> {
    match levels_find(m.levels, level) {
        Some(l) => l.files,
        None => Seq::empty(),
    }
}

/// Applying one delta to the catalog state.
pub open spec fn manifest_apply(m: ManifestV, r: ManifestRecordV) -> ManifestV {
    match r {
        ManifestRecordV::Snapshot(m2) => m2,
        ManifestRecordV::CreateFile { level, file_meta } => ManifestV {
            levels: levels_update(
                m.levels,
                LevelMetaV { level, files: files_insert(level_files(m, level), file_meta) },
            ),
            ..m
        },
        ManifestRecordV::DeleteFile { level, file_number } => ManifestV {
            levels: levels_update(
                m.levels,
                LevelMetaV { level, files: files_remove(level_files(m, level), file_number) },
            ),
            ..m
        },
        ManifestRecordV::SetLastSeqNo(s) => ManifestV {
            last_committed_sequence_number: if s > m.last_committed_sequence_number {
                s
            } else {
                m.last_committed_sequence_number
            },
            ..m
        },
        ManifestRecordV::AllocFileNumber(f) => ManifestV {
            next_file_number: if f + 1 > m.next_file_number {
                (f + 1) as u64
            } else {
                m.next_file_number
            },
            ..m
        },
    }
}

/// Applying a stream of deltas in order.
pub open spec fn manifest_apply_all(m: ManifestV, rs: Seq<ManifestRecordV>) -> ManifestV
    decreases rs.len(),
{
    if rs.len() == 0 {
        m
    } else {
        manifest_apply_all(manifest_apply(m, rs[0]), rs.drop_first())
    }
}

/// The catalog of a fresh store: nothing allocated, nothing committed, an
/// empty level 0.
pub open spec fn manifest_init() -> ManifestV {
    ManifestV {
        next_file_number: 0,
        last_committed_sequence_number: 0,
        levels: seq![LevelMetaV { level: 0, files: Seq::empty() }],
    }
}

/// Everything before a snapshot is irrelevant: applying a delta stream that
/// opens with a snapshot yields the same catalog from any starting state.
/// This is what lets the manifest log be compacted down to its most recent
/// snapshot and the deltas after it.
pub proof fn lemma_snapshot_resets(
    m1: ManifestV,
    m2: ManifestV,
    s: ManifestV,
    rest: Seq<ManifestRecordV>,
)
    ensures
        manifest_apply_all(m1, seq![ManifestRecordV::Snapshot(s)] + rest) == manifest_apply_all(
            m2,
            seq![ManifestRecordV::Snapshot(s)] + rest,
        ),
        manifest_apply_all(m1, seq![ManifestRecordV::Snapshot(s)] + rest) == manifest_apply_all(
            s,
            rest,
        ),
{
    let rs = seq![ManifestRecordV::Snapshot(s)] + rest;
    assert(rs[0] == ManifestRecordV::Snapshot(s));
    assert(rs.drop_first() =~= rest);
    assert(manifest_apply(m1, rs[0]) == s);
    assert(manifest_apply(m2, rs[0]) == s);
}

/// Applying a well-formed delta preserves the catalog's well-formedness.
pub proof fn lemma_apply_wf(m: ManifestV, r: ManifestRecordV)
    requires
        manifest_wf(m),
        record_applies(m, r),
    ensures
        manifest_wf(manifest_apply(m, r)),
{
    match r {
        ManifestRecordV::Snapshot(_) => {
        },
        ManifestRecordV::CreateFile { level, file_meta } => {
            lemma_level_files_wf(m, level);
            lemma_files_insert_wf(level_files(m, level), file_meta);
            lemma_levels_update_wf(
                m.levels,
                LevelMetaV { level, files: files_insert(level_files(m, level), file_meta) },
            );
        },
        ManifestRecordV::DeleteFile { level, file_number } => {
            lemma_level_files_wf(m, level);
            lemma_files_remove_wf(level_files(m, level), file_number);
            lemma_levels_update_wf(
                m.levels,
                LevelMetaV { level, files: files_remove(level_files(m, level), file_number) },
            );
        },
        ManifestRecordV::SetLastSeqNo(_) => {
        },
        ManifestRecordV::AllocFileNumber(_) => {
        },
    }
}

/// The files of any level of a well-formed catalog are themselves
/// well-formed.
pub proof fn lemma_level_files_wf(m: ManifestV, level: u32)
    requires
        manifest_wf(m),
    ensures
        level_meta_wf(LevelMetaV { level, files: level_files(m, level) }),
{
    lemma_levels_find_wf(m.levels, level);
}

proof fn lemma_levels_find_wf(ls: Seq<LevelMetaV>, level: u32)
    requires
        forall|i: int| 0 <= i < ls.len() ==> level_meta_wf(#[trigger] ls[i]),
    ensures
        match levels_find(ls, level) {
            Some(l) => level_meta_wf(l) && l.level == level,
            None => true,
        },
    decreases ls.len(),
{
    if ls.len() > 0 && ls[0].level != level {
        assert(forall|i: int|
            0 <= i < ls.drop_first().len() ==> #[trigger] ls.drop_first()[i] == ls[i + 1]);
        lemma_levels_find_wf(ls.drop_first(), level);
    }
}

proof fn lemma_files_insert_wf(fs: Seq<FileMetaV>, f: FileMetaV)
    requires
        files_sorted(fs),
        forall|i: int| 0 <= i < fs.len() ==> file_meta_wf(#[trigger] fs[i]),
        fs.len() <= u32::MAX,
        file_meta_wf(f),
    ensures
        files_sorted(files_insert(fs, f)),
        forall|i: int|
            0 <= i < files_insert(fs, f).len() ==> file_meta_wf(#[trigger] files_insert(fs, f)[i]),
        files_insert(fs, f).len() <= fs.len() + 1,
    decreases fs.len(),
{
    let r = files_insert(fs, f);
    if fs.len() == 0 {
    } else if f.file_number < fs[0].file_number {
        assert(forall|j: int| 1 <= j < r.len() ==> r[j] == fs[j - 1]);
    } else if f.file_number == fs[0].file_number {
        assert(forall|j: int| 1 <= j < r.len() ==> r[j] == fs[j]);
    } else {
        assert(forall|i: int|
            0 <= i < fs.drop_first().len() ==> #[trigger] fs.drop_first()[i] == fs[i + 1]);
        lemma_files_insert_wf(fs.drop_first(), f);
        let t = files_insert(fs.drop_first(), f);
        assert(forall|j: int| 1 <= j < r.len() ==> r[j] == t[j - 1]);
        assert forall|j: int| 1 <= j < r.len() implies r[0].file_number < (
        #[trigger] r[j]).file_number by {
            lemma_files_insert_membership(fs.drop_first(), f, j - 1);
        }
    }
}

proof fn lemma_files_insert_membership(fs: Seq<FileMetaV>, f: FileMetaV, j: int)
    requires
        0 <= j < files_insert(fs, f).len(),
    ensures
        files_insert(fs, f)[j] == f || exists|i: int|
            0 <= i < fs.len() && fs[i] == #[trigger] files_insert(fs, f)[j],
        files_insert(fs, f)[j].file_number == f.file_number || exists|i: int|
            0 <= i < fs.len() && (#[trigger] fs[i]).file_number == files_insert(
                fs,
                f,
            )[j].file_number,
    decreases fs.len(),
{
    let r = files_insert(fs, f);
    if fs.len() == 0 {
    } else if f.file_number < fs[0].file_number {
        if j >= 1 {
            assert(fs[j - 1] == r[j]);
        }
    } else if f.file_number == fs[0].file_number {
        if j >= 1 {
            assert(fs[j] == r[j]);
        }
    } else {
        if j == 0 {
            assert(fs[0] == r[0]);
        } else {
            lemma_files_insert_membership(fs.drop_first(), f, j - 1);
            let t = files_insert(fs.drop_first(), f);
            assert(r[j] == t[j - 1]);
            if t[j - 1] != f {
                let i = choose|i: int|
                    0 <= i < fs.drop_first().len() && fs.drop_first()[i] == t[j - 1];
                assert(fs[i + 1] == r[j]);
            }
        }
    }
}

proof fn lemma_files_remove_wf(fs: Seq<FileMetaV>, n: u64)
    requires
        files_sorted(fs),
        forall|i: int| 0 <= i < fs.len() ==> file_meta_wf(#[trigger] fs[i]),
        fs.len() <= u32::MAX,
    ensures
        files_sorted(files_remove(fs, n)),
        forall|i: int|
            0 <= i < files_remove(fs, n).len() ==> file_meta_wf(#[trigger] files_remove(fs, n)[i]),
        files_remove(fs, n).len() <= fs.len(),
    decreases fs.len(),
{
    let r = files_remove(fs, n);
    if fs.len() == 0 {
    } else if fs[0].file_number == n {
        assert(forall|i: int|
            0 <= i < fs.drop_first().len() ==> #[trigger] fs.drop_first()[i] == fs[i + 1]);
    } else {
        assert(forall|i: int|
            0 <= i < fs.drop_first().len() ==> #[trigger] fs.drop_first()[i] == fs[i + 1]);
        lemma_files_remove_wf(fs.drop_first(), n);
        let t = files_remove(fs.drop_first(), n);
        assert(forall|j: int| 1 <= j < r.len() ==> r[j] == t[j - 1]);
        assert forall|j: int| 1 <= j < r.len() implies r[0].file_number < (
        #[trigger] r[j]).file_number by {
            lemma_files_remove_membership(fs.drop_first(), n, j - 1);
        }
    }
}

proof fn lemma_files_remove_membership(fs: Seq<FileMetaV>, n: u64, j: int)
    requires
        0 <= j < files_remove(fs, n).len(),
    ensures
        exists|i: int| 0 <= i < fs.len() && fs[i] == #[trigger] files_remove(fs, n)[j],
    decreases fs.len(),
{
    let r = files_remove(fs, n);
    if fs.len() == 0 {
    } else if fs[0].file_number == n {
        assert(fs[j + 1] == r[j]);
    } else {
        if j == 0 {
            assert(fs[0] == r[0]);
        } else {
            lemma_files_remove_membership(fs.drop_first(), n, j - 1);
            let t = files_remove(fs.drop_first(), n);
            let i = choose|i: int| 0 <= i < fs.drop_first().len() && fs.drop_first()[i] == t[j - 1];
            assert(fs[i + 1] == r[j]);
        }
    }
}

proof fn lemma_levels_update_wf(ls: Seq<LevelMetaV>, l: LevelMetaV)
    requires
        levels_sorted(ls),
        forall|i: int| 0 <= i < ls.len() ==> level_meta_wf(#[trigger] ls[i]),
        ls.len() <= u32::MAX,
        level_meta_wf(l),
        l.files.len() <= u32::MAX,
    ensures
        levels_sorted(levels_update(ls, l)),
        forall|i: int|
            0 <= i < levels_update(ls, l).len() ==> level_meta_wf(
                #[trigger] levels_update(ls, l)[i],
            ),
        levels_find(ls, l.level) is Some ==> levels_update(ls, l).len() == ls.len(),
        levels_find(ls, l.level) is None ==> levels_update(ls, l).len() == ls.len() + 1,
        ls.len() > 0 && (ls[0].level == 0 || l.level == 0) ==> levels_update(ls, l).len() > 0
            && levels_update(ls, l)[0].level == 0,
        ls.len() == 0 ==> levels_update(ls, l) == seq![l],
    decreases ls.len(),
{
    let r = levels_update(ls, l);
    if ls.len() == 0 {
    } else if l.level < ls[0].level {
        assert(forall|j: int| 1 <= j < r.len() ==> r[j] == ls[j - 1]);
        assert(forall|i: int| 0 <= i < ls.len() ==> (#[trigger] ls[i]).level != l.level);
        lemma_levels_find_absent(ls, l.level);
    } else if l.level == ls[0].level {
        assert(forall|j: int| 1 <= j < r.len() ==> r[j] == ls[j]);
    } else {
        assert(forall|i: int|
            0 <= i < ls.drop_first().len() ==> #[trigger] ls.drop_first()[i] == ls[i + 1]);
        lemma_levels_update_wf(ls.drop_first(), l);
        let t = levels_update(ls.drop_first(), l);
        assert(forall|j: int| 1 <= j < r.len() ==> r[j] == t[j - 1]);
        assert forall|j: int| 1 <= j < r.len() implies r[0].level < (#[trigger] r[j]).level by {
            lemma_levels_update_membership(ls.drop_first(), l, j - 1);
        }
        assert(r[0] == ls[0]);
    }
}

proof fn lemma_levels_find_absent(ls: Seq<LevelMetaV>, level: u32)
    requires
        forall|i: int| 0 <= i < ls.len() ==> (#[trigger] ls[i]).level != level,
    ensures
        levels_find(ls, level) is None,
    decreases ls.len(),
{
    if ls.len() > 0 {
        assert(forall|i: int|
            0 <= i < ls.drop_first().len() ==> #[trigger] ls.drop_first()[i] == ls[i + 1]);
        lemma_levels_find_absent(ls.drop_first(), level);
    }
}

/// The byte encoding of one file entry: file number, file size, then the
/// two length-prefixed key bounds, all little-endian.
pub open spec fn file_enc(f: FileMetaV) -> Seq<u8> {
    u64_le(f.file_number) + u64_le(f.file_size) + u32_le(f.smallest_key.len() as u32)
        + f.smallest_key + u32_le(f.largest_key.len() as u32) + f.largest_key
}

pub open spec fn file_enc_len(f: FileMetaV) -> int {
    24 + f.smallest_key.len() as int + f.largest_key.len() as int
}

pub open spec fn file_dec(b: Seq<u8>, pos: int) -> Option<(FileMetaV, int)> {
    if pos + 24 > b.len() {
        None
    } else {
        let file_number = u64_from_le(b.subrange(pos, pos + 8));
        let file_size = u64_from_le(b.subrange(pos + 8, pos + 16));
        let sklen = u32_from_le(b.subrange(pos + 16, pos + 20)) as int;
        if pos + 20 + sklen + 4 > b.len() {
            None
        } else {
            let sk = b.subrange(pos + 20, pos + 20 + sklen);
            let lklen = u32_from_le(b.subrange(pos + 20 + sklen, pos + 24 + sklen)) as int;
            if pos + 24 + sklen + lklen > b.len() {
                None
            } else {
                let lk = b.subrange(pos + 24 + sklen, pos + 24 + sklen + lklen);
                Some(
                    (
                        FileMetaV { file_number, file_size, smallest_key: sk, largest_key: lk },
                        pos + 24 + sklen + lklen,
                    ),
                )
            }
        }
    }
}

/// The concatenated encodings of a run of file entries.
pub open spec fn files_enc(fs: Seq<FileMetaV>) -> Seq<u8>
    decreases fs.len(),
{
    if fs.len() == 0 {
        Seq::empty()
    } else {
        file_enc(fs[0]) + files_enc(fs.drop_first())
    }
}

/// Decoding `n` file entries whose numbers must strictly ascend from past
/// `lo`: the decoder validates the catalog's ordering as it reads.
pub open spec fn files_dec(b: Seq<u8>, pos: int, n: nat, lo: int) -> Option<(Seq<FileMetaV>, int)>
    decreases n,
{
    if n == 0 {
        Some((Seq::empty(), pos))
    } else {
        match file_dec(b, pos) {
            None => None,
            Some((f, p2)) => {
                if f.file_number <= lo {
                    None
                } else {
                    match files_dec(b, p2, (n - 1) as nat, f.file_number as int) {
                        None => None,
                        Some((rest, end)) => Some((seq![f] + rest, end)),
                    }
                }
            },
        }
    }
}

pub open spec fn level_enc(l: LevelMetaV) -> Seq<u8> {
    u32_le(l.level) + u32_le(l.files.len() as u32) + files_enc(l.files)
}

pub open spec fn level_dec(b: Seq<u8>, pos: int) -> Option<(LevelMetaV, int)> {
    if pos + 8 > b.len() {
        None
    } else {
        let level = u32_from_le(b.subrange(pos, pos + 4));
        let n = u32_from_le(b.subrange(pos + 4, pos + 8));
        match files_dec(b, pos + 8, n as nat, -1) {
            None => None,
            Some((files, end)) => Some((LevelMetaV { level, files }, end)),
        }
    }
}

pub open spec fn levels_enc(ls: Seq<LevelMetaV>) -> Seq<u8>
    decreases ls.len(),
{
    if ls.len() == 0 {
        Seq::empty()
    } else {
        level_enc(ls[0]) + levels_enc(ls.drop_first())
    }
}

pub open spec fn levels_dec(b: Seq<u8>, pos: int, n: nat, lo: int) -> Option<
    (Seq<LevelMetaV>, int),
>
    decreases n,
{
    if n == 0 {
        Some((Seq::empty(), pos))
    } else {
        match level_dec(b, pos) {
            None => None,
            Some((l, p2)) => {
                if l.level <= lo {
                    None
                } else {
                    match levels_dec(b, p2, (n - 1) as nat, l.level as int) {
                        None => None,
                        Some((rest, end)) => Some((seq![l] + rest, end)),
                    }
                }
            },
        }
    }
}

/// The byte encoding of the whole catalog state.
pub open spec fn manifest_enc(m: ManifestV) -> Seq<u8> {
    u64_le(m.next_file_number) + u64_le(m.last_committed_sequence_number) + u32_le(
        m.levels.len() as u32,
    ) + levels_enc(m.levels)
}

pub open spec fn manifest_dec(b: Seq<u8>, pos: int) -> Option<(ManifestV, int)> {
    if pos + 20 > b.len() {
        None
    } else {
        let next_file_number = u64_from_le(b.subrange(pos, pos + 8));
        let last = u64_from_le(b.subrange(pos + 8, pos + 16));
        let n = u32_from_le(b.subrange(pos + 16, pos + 20));
        match levels_dec(b, pos + 20, n as nat, -1) {
            None => None,
            Some((levels, end)) => {
                if levels.len() >= 1 && levels[0].level == 0 {
                    Some(
                        (
                            ManifestV {
                                next_file_number,
                                last_committed_sequence_number: last,
                                levels,
                            },
                            end,
                        ),
                    )
                } else {
                    None
                }
            },
        }
    }
}

/// The frame-body encoding of a catalog delta: a tag byte, then the delta's
/// fields.
pub open spec fn manifest_record_enc(r: ManifestRecordV) -> Seq<u8> {
    match r {
        ManifestRecordV::Snapshot(m) => seq![0u8] + manifest_enc(m),
        ManifestRecordV::CreateFile { level, file_meta } => seq![1u8] + u32_le(level) + file_enc(
            file_meta,
        ),
        ManifestRecordV::DeleteFile { level, file_number } => seq![2u8] + u32_le(level) + u64_le(
            file_number,
        ),
        ManifestRecordV::SetLastSeqNo(s) => seq![3u8] + u64_le(s),
        ManifestRecordV::AllocFileNumber(f) => seq![4u8] + u64_le(f),
    }
}

/// Decoding a catalog delta from one whole frame body.  Every byte must be
/// accounted for, and only well-formed deltas decode.
pub open spec fn manifest_record_dec(b: Seq<u8>) -> Option<ManifestRecordV> {
    if b.len() < 1 {
        None
    } else if b[0] == 0 {
        match manifest_dec(b, 1) {
            Some((m, end)) => if end == b.len() {
                Some(ManifestRecordV::Snapshot(m))
            } else {
                None
            },
            None => None,
        }
    } else if b[0] == 1 {
        if b.len() < 5 {
            None
        } else {
            let level = u32_from_le(b.subrange(1, 5));
            match file_dec(b, 5) {
                Some((f, end)) => if end == b.len() {
                    Some(ManifestRecordV::CreateFile { level, file_meta: f })
                } else {
                    None
                },
                None => None,
            }
        }
    } else if b[0] == 2 {
        if b.len() != 13 {
            None
        } else {
            Some(
                ManifestRecordV::DeleteFile {
                    level: u32_from_le(b.subrange(1, 5)),
                    file_number: u64_from_le(b.subrange(5, 13)),
                },
            )
        }
    } else if b[0] == 3 {
        if b.len() != 9 {
            None
        } else {
            Some(ManifestRecordV::SetLastSeqNo(u64_from_le(b.subrange(1, 9))))
        }
    } else if b[0] == 4 {
        if b.len() != 9 {
            None
        } else {
            let f = u64_from_le(b.subrange(1, 9));
            if f < u64::MAX {
                Some(ManifestRecordV::AllocFileNumber(f))
            } else {
                None
            }
        }
    } else {
        None
    }
}

/// Decoding an encoded file entry out of any surrounding buffer restores
/// it.
pub proof fn lemma_file_round_trip(b: Seq<u8>, pos: int, f: FileMetaV)
    requires
        file_meta_wf(f),
        0 <= pos,
        pos + file_enc_len(f) <= b.len(),
        b.subrange(pos, pos + file_enc_len(f)) == file_enc(f),
    ensures
        file_dec(b, pos) == Some((f, pos + file_enc_len(f))),
{
    let e = file_enc(f);
    let el = file_enc_len(f);
    let skl = f.smallest_key.len() as int;
    let lkl = f.largest_key.len() as int;
    crate::codec::lemma_u64_le_round_trip(f.file_number);
    crate::codec::lemma_u64_le_round_trip(f.file_size);
    crate::codec::lemma_u32_le_round_trip(f.smallest_key.len() as u32);
    crate::codec::lemma_u32_le_round_trip(f.largest_key.len() as u32);
    assert(b.subrange(pos, pos + 8) =~= u64_le(f.file_number)) by {
        assert(forall|j: int|
            0 <= j < 8 ==> #[trigger] b.subrange(pos, pos + 8)[j] == b.subrange(pos, pos + el)[j]);
    }
    assert(b.subrange(pos + 8, pos + 16) =~= u64_le(f.file_size)) by {
        assert(forall|j: int|
            0 <= j < 8 ==> #[trigger] b.subrange(pos + 8, pos + 16)[j] == b.subrange(
                pos,
                pos + el,
            )[j + 8]);
    }
    assert(b.subrange(pos + 16, pos + 20) =~= u32_le(f.smallest_key.len() as u32)) by {
        assert(forall|j: int|
            0 <= j < 4 ==> #[trigger] b.subrange(pos + 16, pos + 20)[j] == b.subrange(
                pos,
                pos + el,
            )[j + 16]);
    }
    assert(b.subrange(pos + 20, pos + 20 + skl) =~= f.smallest_key) by {
        assert(forall|j: int|
            0 <= j < skl ==> #[trigger] b.subrange(pos + 20, pos + 20 + skl)[j] == b.subrange(
                pos,
                pos + el,
            )[j + 20]);
    }
    assert(b.subrange(pos + 20 + skl, pos + 24 + skl) =~= u32_le(f.largest_key.len() as u32)) by {
        assert(forall|j: int|
            0 <= j < 4 ==> #[trigger] b.subrange(pos + 20 + skl, pos + 24 + skl)[j] == b.subrange(
                pos,
                pos + el,
            )[j + 20 + skl]);
    }
    assert(b.subrange(pos + 24 + skl, pos + 24 + skl + lkl) =~= f.largest_key) by {
        assert(forall|j: int|
            0 <= j < lkl ==> #[trigger] b.subrange(pos + 24 + skl, pos + 24 + skl + lkl)[j]
                == b.subrange(pos, pos + el)[j + 24 + skl]);
    }
    assert(file_dec(b, pos).unwrap().0 =~= f);
}

/// Decoding an encoded run of file entries restores it, provided the run
/// is strictly ascending past `lo`.
pub proof fn lemma_files_round_trip(b: Seq<u8>, pos: int, fs: Seq<FileMetaV>, lo: int)
    requires
        forall|i: int| 0 <= i < fs.len() ==> file_meta_wf(#[trigger] fs[i]),
        files_sorted(fs),
        fs.len() > 0 ==> fs[0].file_number as int > lo,
        0 <= pos,
        pos + files_enc(fs).len() <= b.len(),
        b.subrange(pos, pos + files_enc(fs).len() as int) == files_enc(fs),
    ensures
        files_dec(b, pos, fs.len() as nat, lo) == Some((fs, pos + files_enc(fs).len())),
    decreases fs.len(),
{
    if fs.len() == 0 {
    } else {
        let f0 = fs[0];
        let el = file_enc_len(f0);
        let total = files_enc(fs).len() as int;
        assert(files_enc(fs) == file_enc(f0) + files_enc(fs.drop_first()));
        assert(el == file_enc(f0).len());
        assert(b.subrange(pos, pos + el) =~= file_enc(f0)) by {
            assert(forall|j: int|
                0 <= j < el ==> #[trigger] b.subrange(pos, pos + el)[j] == b.subrange(
                    pos,
                    pos + total,
                )[j]);
        }
        lemma_file_round_trip(b, pos, f0);
        assert(b.subrange(pos + el, pos + total) =~= files_enc(fs.drop_first())) by {
            assert(forall|j: int|
                0 <= j < total - el ==> #[trigger] b.subrange(pos + el, pos + total)[j]
                    == b.subrange(pos, pos + total)[j + el]);
        }
        assert(forall|i: int|
            0 <= i < fs.drop_first().len() ==> #[trigger] fs.drop_first()[i] == fs[i + 1]);
        lemma_files_round_trip(b, pos + el, fs.drop_first(), f0.file_number as int);
        assert(seq![f0] + fs.drop_first() =~= fs);
    }
}

/// Decoding an encoded level entry restores it.
pub proof fn lemma_level_round_trip(b: Seq<u8>, pos: int, l: LevelMetaV)
    requires
        level_meta_wf(l),
        0 <= pos,
        pos + level_enc(l).len() <= b.len(),
        b.subrange(pos, pos + level_enc(l).len() as int) == level_enc(l),
    ensures
        level_dec(b, pos) == Some((l, pos + level_enc(l).len())),
{
    let total = level_enc(l).len() as int;
    let fl = files_enc(l.files).len() as int;
    crate::codec::lemma_u32_le_round_trip(l.level);
    crate::codec::lemma_u32_le_round_trip(l.files.len() as u32);
    assert(b.subrange(pos, pos + 4) =~= u32_le(l.level)) by {
        assert(forall|j: int|
            0 <= j < 4 ==> #[trigger] b.subrange(pos, pos + 4)[j] == b.subrange(
                pos,
                pos + total,
            )[j]);
    }
    assert(b.subrange(pos + 4, pos + 8) =~= u32_le(l.files.len() as u32)) by {
        assert(forall|j: int|
            0 <= j < 4 ==> #[trigger] b.subrange(pos + 4, pos + 8)[j] == b.subrange(
                pos,
                pos + total,
            )[j + 4]);
    }
    assert(b.subrange(pos + 8, pos + 8 + fl) =~= files_enc(l.files)) by {
        assert(forall|j: int|
            0 <= j < fl ==> #[trigger] b.subrange(pos + 8, pos + 8 + fl)[j] == b.subrange(
                pos,
                pos + total,
            )[j + 8]);
    }
    lemma_files_round_trip(b, pos + 8, l.files, -1);
}

/// Decoding an encoded run of level entries restores it.
pub proof fn lemma_levels_round_trip(b: Seq<u8>, pos: int, ls: Seq<LevelMetaV>, lo: int)
    requires
        forall|i: int| 0 <= i < ls.len() ==> level_meta_wf(#[trigger] ls[i]),
        levels_sorted(ls),
        ls.len() > 0 ==> ls[0].level as int > lo,
        0 <= pos,
        pos + levels_enc(ls).len() <= b.len(),
        b.subrange(pos, pos + levels_enc(ls).len() as int) == levels_enc(ls),
    ensures
        levels_dec(b, pos, ls.len() as nat, lo) == Some((ls, pos + levels_enc(ls).len())),
    decreases ls.len(),
{
    if ls.len() == 0 {
    } else {
        let l0 = ls[0];
        let el = level_enc(l0).len() as int;
        let total = levels_enc(ls).len() as int;
        assert(levels_enc(ls) == level_enc(l0) + levels_enc(ls.drop_first()));
        assert(b.subrange(pos, pos + el) =~= level_enc(l0)) by {
            assert(forall|j: int|
                0 <= j < el ==> #[trigger] b.subrange(pos, pos + el)[j] == b.subrange(
                    pos,
                    pos + total,
                )[j]);
        }
        lemma_level_round_trip(b, pos, l0);
        assert(b.subrange(pos + el, pos + total) =~= levels_enc(ls.drop_first())) by {
            assert(forall|j: int|
                0 <= j < total - el ==> #[trigger] b.subrange(pos + el, pos + total)[j]
                    == b.subrange(pos, pos + total)[j + el]);
        }
        assert(forall|i: int|
            0 <= i < ls.drop_first().len() ==> #[trigger] ls.drop_first()[i] == ls[i + 1]);
        lemma_levels_round_trip(b, pos + el, ls.drop_first(), l0.level as int);
        assert(seq![l0] + ls.drop_first() =~= ls);
    }
}

/// Decoding an encoded catalog state restores it.
pub proof fn lemma_manifest_round_trip(b: Seq<u8>, pos: int, m: ManifestV)
    requires
        manifest_wf(m),
        0 <= pos,
        pos + manifest_enc(m).len() <= b.len(),
        b.subrange(pos, pos + manifest_enc(m).len() as int) == manifest_enc(m),
    ensures
        manifest_dec(b, pos) == Some((m, pos + manifest_enc(m).len())),
{
    let total = manifest_enc(m).len() as int;
    let ll = levels_enc(m.levels).len() as int;
    crate::codec::lemma_u64_le_round_trip(m.next_file_number);
    crate::codec::lemma_u64_le_round_trip(m.last_committed_sequence_number);
    crate::codec::lemma_u32_le_round_trip(m.levels.len() as u32);
    assert(b.subrange(pos, pos + 8) =~= u64_le(m.next_file_number)) by {
        assert(forall|j: int|
            0 <= j < 8 ==> #[trigger] b.subrange(pos, pos + 8)[j] == b.subrange(
                pos,
                pos + total,
            )[j]);
    }
    assert(b.subrange(pos + 8, pos + 16) =~= u64_le(m.last_committed_sequence_number)) by {
        assert(forall|j: int|
            0 <= j < 8 ==> #[trigger] b.subrange(pos + 8, pos + 16)[j] == b.subrange(
                pos,
                pos + total,
            )[j + 8]);
    }
    assert(b.subrange(pos + 16, pos + 20) =~= u32_le(m.levels.len() as u32)) by {
        assert(forall|j: int|
            0 <= j < 4 ==> #[trigger] b.subrange(pos + 16, pos + 20)[j] == b.subrange(
                pos,
                pos + total,
            )[j + 16]);
    }
    assert(b.subrange(pos + 20, pos + 20 + ll) =~= levels_enc(m.levels)) by {
        assert(forall|j: int|
            0 <= j < ll ==> #[trigger] b.subrange(pos + 20, pos + 20 + ll)[j] == b.subrange(
                pos,
                pos + total,
            )[j + 20]);
    }
    lemma_levels_round_trip(b, pos + 20, m.levels, -1);
    assert(manifest_dec(b, pos).unwrap().0 =~= m);
}

/// Decoding an encoded catalog delta restores it: the round-trip law for
/// every record kind.
pub proof fn lemma_manifest_record_round_trip(r: ManifestRecordV)
    requires
        record_wf(r),
    ensures
        manifest_record_dec(manifest_record_enc(r)) == Some(r),
{
    let b = manifest_record_enc(r);
    match r {
        ManifestRecordV::Snapshot(m) => {
            assert(b[0] == 0);
            assert(b.subrange(1, 1 + manifest_enc(m).len() as int) =~= manifest_enc(m));
            lemma_manifest_round_trip(b, 1, m);
        },
        ManifestRecordV::CreateFile { level, file_meta } => {
            assert(b[0] == 1);
            crate::codec::lemma_u32_le_round_trip(level);
            assert(b.subrange(1, 5) =~= u32_le(level));
            assert(b.subrange(5, 5 + file_enc_len(file_meta)) =~= file_enc(file_meta));
            lemma_file_round_trip(b, 5, file_meta);
            assert(manifest_record_dec(b).unwrap() =~= r);
        },
        ManifestRecordV::DeleteFile { level, file_number } => {
            assert(b[0] == 2);
            crate::codec::lemma_u32_le_round_trip(level);
            crate::codec::lemma_u64_le_round_trip(file_number);
            assert(b.subrange(1, 5) =~= u32_le(level));
            assert(b.subrange(5, 13) =~= u64_le(file_number));
        },
        ManifestRecordV::SetLastSeqNo(s) => {
            assert(b[0] == 3);
            crate::codec::lemma_u64_le_round_trip(s);
            assert(b.subrange(1, 9) =~= u64_le(s));
        },
        ManifestRecordV::AllocFileNumber(f) => {
            assert(b[0] == 4);
            crate::codec::lemma_u64_le_round_trip(f);
            assert(b.subrange(1, 9) =~= u64_le(f));
        },
    }
}

/// A decoded run of file entries is well-formed: sorted past `lo`, every
/// entry encodable, exactly `n` entries.
pub proof fn lemma_files_dec_wf(b: Seq<u8>, pos: int, n: nat, lo: int)
    requires
        0 <= pos,
        files_dec(b, pos, n, lo) is Some,
    ensures
        ({
            let (fs, end) = files_dec(b, pos, n, lo).unwrap();
            fs.len() == n && files_sorted(fs) && (forall|i: int|
                0 <= i < fs.len() ==> file_meta_wf(#[trigger] fs[i])) && (forall|i: int|
                0 <= i < fs.len() ==> (#[trigger] fs[i]).file_number as int > lo) && pos <= end
        }),
    decreases n,
{
    if n != 0 {
        let (f, p2) = file_dec(b, pos).unwrap();
        lemma_files_dec_wf(b, p2, (n - 1) as nat, f.file_number as int);
        let (rest, end) = files_dec(b, p2, (n - 1) as nat, f.file_number as int).unwrap();
        let fs = files_dec(b, pos, n, lo).unwrap().0;
        assert(fs == seq![f] + rest);
        assert(fs[0] == f);
        assert(file_meta_wf(f));
        assert(forall|i: int| 1 <= i < fs.len() ==> #[trigger] fs[i] == rest[i - 1]);
        assert forall|i: int| 0 <= i < fs.len() implies file_meta_wf(#[trigger] fs[i]) by {
            if i > 0 {
                assert(fs[i] == rest[i - 1]);
                assert(file_meta_wf(rest[i - 1]));
            }
        }
        assert forall|i: int, j: int| 0 <= i < j < fs.len() implies (
        #[trigger] fs[i]).file_number < (#[trigger] fs[j]).file_number by {
            if i == 0 {
                assert(fs[j] == rest[j - 1]);
                assert(rest[j - 1].file_number as int > f.file_number as int);
            } else {
                assert(fs[i] == rest[i - 1] && fs[j] == rest[j - 1]);
            }
        }
    }
}

/// A decoded run of level entries is well-formed.
pub proof fn lemma_levels_dec_wf(b: Seq<u8>, pos: int, n: nat, lo: int)
    requires
        0 <= pos,
        levels_dec(b, pos, n, lo) is Some,
    ensures
        ({
            let (ls, end) = levels_dec(b, pos, n, lo).unwrap();
            ls.len() == n && levels_sorted(ls) && (forall|i: int|
                0 <= i < ls.len() ==> level_meta_wf(#[trigger] ls[i])) && (forall|i: int|
                0 <= i < ls.len() ==> (#[trigger] ls[i]).level as int > lo) && pos <= end
        }),
    decreases n,
{
    if n != 0 {
        let (l, p2) = level_dec(b, pos).unwrap();
        let fn_count = u32_from_le(b.subrange(pos + 4, pos + 8));
        lemma_files_dec_wf(b, pos + 8, fn_count as nat, -1);
        assert(level_meta_wf(l));
        assert(0 <= p2);
        lemma_levels_dec_wf(b, p2, (n - 1) as nat, l.level as int);
        let (rest, end) = levels_dec(b, p2, (n - 1) as nat, l.level as int).unwrap();
        let ls = levels_dec(b, pos, n, lo).unwrap().0;
        assert(ls == seq![l] + rest);
        assert(ls[0] == l);
        assert(forall|i: int| 1 <= i < ls.len() ==> #[trigger] ls[i] == rest[i - 1]);
        assert forall|i: int| 0 <= i < ls.len() implies level_meta_wf(#[trigger] ls[i]) by {
            if i > 0 {
                assert(ls[i] == rest[i - 1]);
                assert(level_meta_wf(rest[i - 1]));
            }
        }
        assert forall|i: int, j: int| 0 <= i < j < ls.len() implies (#[trigger] ls[i]).level < (
        #[trigger] ls[j]).level by {
            if i == 0 {
                assert(ls[j] == rest[j - 1]);
                assert(rest[j - 1].level as int > l.level as int);
            } else {
                assert(ls[i] == rest[i - 1] && ls[j] == rest[j - 1]);
            }
        }
    }
}

/// A decoded catalog state is well-formed.
pub proof fn lemma_manifest_dec_wf(b: Seq<u8>, pos: int)
    requires
        0 <= pos,
        manifest_dec(b, pos) is Some,
    ensures
        manifest_wf(manifest_dec(b, pos).unwrap().0),
{
    let n = u32_from_le(b.subrange(pos + 16, pos + 20));
    lemma_levels_dec_wf(b, pos + 20, n as nat, -1);
}

/// A decoded catalog delta is well-formed.
pub proof fn lemma_manifest_record_dec_wf(b: Seq<u8>)
    requires
        manifest_record_dec(b) is Some,
    ensures
        record_wf(manifest_record_dec(b).unwrap()),
{
    if b.len() >= 1 && b[0] == 0 {
        lemma_manifest_dec_wf(b, 1);
    }
}

/// If no entry before position `i` carries level `level`, a hit at `i` is
/// the result of the whole search, and a run scanned to its end without a
/// hit holds no such level.
proof fn lemma_levels_find_from(ls: Seq<LevelMetaV>, level: u32, i: int)
    requires
        0 <= i <= ls.len(),
        forall|j: int| 0 <= j < i ==> (#[trigger] ls[j]).level != level,
    ensures
        i < ls.len() && ls[i].level == level ==> levels_find(ls, level) == Some(ls[i]),
        i == ls.len() ==> levels_find(ls, level) is None,
    decreases ls.len(),
{
    if ls.len() == 0 {
    } else if i == 0 {
    } else {
        assert(forall|j: int|
            0 <= j < i - 1 ==> (#[trigger] ls.drop_first()[j]) == ls[j + 1]);
        lemma_levels_find_from(ls.drop_first(), level, i - 1);
        if i < ls.len() {
            assert(ls.drop_first()[i - 1] == ls[i]);
        }
    }
}

/// Positional account of the sorted level update: if everything before `i`
/// sorts below `l` and position `i` (if present) does not, the update
/// replaces at `i` or enters at `i`.
proof fn lemma_levels_update_at(ls: Seq<LevelMetaV>, l: LevelMetaV, i: int)
    requires
        levels_sorted(ls),
        0 <= i <= ls.len(),
        forall|j: int| 0 <= j < i ==> (#[trigger] ls[j]).level < l.level,
        i < ls.len() ==> ls[i].level >= l.level,
    ensures
        levels_update(ls, l) == if i < ls.len() && ls[i].level == l.level {
            ls.update(i, l)
        } else {
            ls.insert(i, l)
        },
    decreases ls.len(),
{
    if ls.len() == 0 {
        assert(levels_update(ls, l) =~= ls.insert(0, l));
    } else if i == 0 {
        if ls[0].level == l.level {
            assert(seq![l] + ls.drop_first() =~= ls.update(0, l));
        } else {
            assert(l.level < ls[0].level);
            assert(seq![l] + ls =~= ls.insert(0, l));
        }
    } else {
        assert(ls[0].level < l.level);
        assert(forall|j: int|
            0 <= j < i - 1 ==> (#[trigger] ls.drop_first()[j]) == ls[j + 1]);
        lemma_levels_update_at(ls.drop_first(), l, i - 1);
        if i < ls.len() {
            assert(ls.drop_first()[i - 1] == ls[i]);
        }
        if i < ls.len() && ls[i].level == l.level {
            assert(seq![ls[0]] + ls.drop_first().update(i - 1, l) =~= ls.update(i, l));
        } else {
            assert(seq![ls[0]] + ls.drop_first().insert(i - 1, l) =~= ls.insert(i, l));
        }
    }
}

/// Positional account of sorted file insertion.
proof fn lemma_files_insert_at(fs: Seq<FileMetaV>, f: FileMetaV, i: int)
    requires
        files_sorted(fs),
        0 <= i <= fs.len(),
        forall|j: int| 0 <= j < i ==> (#[trigger] fs[j]).file_number < f.file_number,
        i < fs.len() ==> fs[i].file_number >= f.file_number,
    ensures
        files_insert(fs, f) == if i < fs.len() && fs[i].file_number == f.file_number {
            fs.update(i, f)
        } else {
            fs.insert(i, f)
        },
    decreases fs.len(),
{
    if fs.len() == 0 {
        assert(files_insert(fs, f) =~= fs.insert(0, f));
    } else if i == 0 {
        if fs[0].file_number == f.file_number {
            assert(seq![f] + fs.drop_first() =~= fs.update(0, f));
        } else {
            assert(seq![f] + fs =~= fs.insert(0, f));
        }
    } else {
        assert(fs[0].file_number < f.file_number);
        assert(forall|j: int|
            0 <= j < i - 1 ==> (#[trigger] fs.drop_first()[j]) == fs[j + 1]);
        lemma_files_insert_at(fs.drop_first(), f, i - 1);
        if i < fs.len() {
            assert(fs.drop_first()[i - 1] == fs[i]);
        }
        if i < fs.len() && fs[i].file_number == f.file_number {
            assert(seq![fs[0]] + fs.drop_first().update(i - 1, f) =~= fs.update(i, f));
        } else {
            assert(seq![fs[0]] + fs.drop_first().insert(i - 1, f) =~= fs.insert(i, f));
        }
    }
}

/// Positional account of file removal: a first hit at `i` removes position
/// `i`; no hit anywhere leaves the run unchanged.
proof fn lemma_files_remove_at(fs: Seq<FileMetaV>, n: u64, i: int)
    requires
        0 <= i <= fs.len(),
        forall|j: int| 0 <= j < i ==> (#[trigger] fs[j]).file_number != n,
    ensures
        i < fs.len() && fs[i].file_number == n ==> files_remove(fs, n) == fs.remove(i),
        i == fs.len() ==> files_remove(fs, n) == fs,
    decreases fs.len(),
{
    if fs.len() == 0 {
    } else if i == 0 {
        if fs[0].file_number == n {
            assert(fs.drop_first() =~= fs.remove(0));
        }
    } else {
        assert(forall|j: int|
            0 <= j < i - 1 ==> (#[trigger] fs.drop_first()[j]) == fs[j + 1]);
        lemma_files_remove_at(fs.drop_first(), n, i - 1);
        if i < fs.len() {
            assert(fs.drop_first()[i - 1] == fs[i]);
            if fs[i].file_number == n {
                assert(seq![fs[0]] + fs.drop_first().remove(i - 1) =~= fs.remove(i));
            }
        } else {
            assert(seq![fs[0]] + fs.drop_first() =~= fs);
        }
    }
}

/// Sorted insertion of a file entry into a sorted vector.
fn insert_file(files: &mut Vec<FileMeta>, f: FileMeta)
    requires
        files_sorted(old(files)@.map_values(|x: FileMeta| x@)),
    ensures
        final(files)@.map_values(|x: FileMeta| x@) == files_insert(
            old(files)@.map_values(|x: FileMeta| x@),
            f@,
        ),
{
    let ghost s = files@.map_values(|x: FileMeta| x@);
    let ghost fv = f@;
    let mut i: usize = 0;
    while i < files.len() && files[i].file_number < f.file_number
        invariant
            i <= files@.len(),
            s == files@.map_values(|x: FileMeta| x@),
            s.len() == files@.len(),
            fv == f@,
            forall|j: int| 0 <= j < i ==> (#[trigger] s[j]).file_number < fv.file_number,
        decreases files@.len() - i,
    {
        i = i + 1;
    }
    proof {
        lemma_files_insert_at(s, fv, i as int);
    }
    if i < files.len() && files[i].file_number == f.file_number {
        files.set(i, f);
        proof {
            assert(files@.map_values(|x: FileMeta| x@) =~= s.update(i as int, fv));
        }
    } else {
        files.insert(i, f);
        proof {
            assert(files@.map_values(|x: FileMeta| x@) =~= s.insert(i as int, fv));
        }
    }
}

/// Removal of the file entry under `n` from a vector, if present.
fn remove_file(files: &mut Vec<FileMeta>, n: u64)
    ensures
        final(files)@.map_values(|x: FileMeta| x@) == files_remove(
            old(files)@.map_values(|x: FileMeta| x@),
            n,
        ),
{
    let ghost s = files@.map_values(|x: FileMeta| x@);
    let mut i: usize = 0;
    while i < files.len()
        invariant
            i <= files@.len(),
            files@ == old(files)@,
            s == files@.map_values(|x: FileMeta| x@),
            s.len() == files@.len(),
            forall|j: int| 0 <= j < i ==> (#[trigger] s[j]).file_number != n,
        decreases files@.len() - i,
    {
        if files[i].file_number == n {
            proof {
                lemma_files_remove_at(s, n, i as int);
            }
            files.remove(i);
            proof {
                assert(files@.map_values(|x: FileMeta| x@) =~= s.remove(i as int));
            }
            return;
        }
        i = i + 1;
    }
    proof {
        lemma_files_remove_at(s, n, s.len() as int);
    }
}

impl Manifest {
    /// The catalog of a fresh store: level 0 present and empty.
    pub fn new() -> (m: Manifest)
        ensures
            m@ == manifest_init(),
            manifest_wf(m@),
    {
        let mut levels: Vec<LevelMeta> = Vec::new();
        levels.push(LevelMeta { level: Level(0), files: Vec::new() });
        let m = Manifest {
            next_file_number: FileNo(0),
            last_committed_sequence_number: SeqNo(0),
            levels,
        };
        proof {
            assert(m@.levels =~= manifest_init().levels) by {
                assert(m@.levels[0].files =~= Seq::<FileMetaV>::empty());
                assert(m@.levels[0] =~= manifest_init().levels[0]);
            }
            assert(m@ =~= manifest_init());
        }
        m
    }

    /// Hands out the next file number, advancing the counter, and returns
    /// the delta that must be logged to make the allocation durable.
    pub fn alloc_file_number(&mut self) -> (r: (FileNo, ManifestRecord))
        requires
            old(self)@.next_file_number < u64::MAX,
        ensures
            final(self)@ == (ManifestV {
                next_file_number: (old(self)@.next_file_number + 1) as u64,
                ..old(self)@
            }),
            r.0.0 == old(self)@.next_file_number,
            r.1@ == ManifestRecordV::AllocFileNumber(old(self)@.next_file_number),
            record_wf(r.1@),
    {
        let id = self.next_file_number;
        self.next_file_number = FileNo(id.0 + 1);
        proof {
            assert(self@ =~= (ManifestV {
                next_file_number: (old(self)@.next_file_number + 1) as u64,
                ..old(self)@
            }));
        }
        (id, ManifestRecord::AllocFileNumber(id))
    }

    /// The highest level that has a catalog entry.
    pub fn max_level(&self) -> (r: Level)
        requires
            manifest_wf(self@),
        ensures
            r.0 == self@.levels[self@.levels.len() - 1].level,
            forall|i: int| 0 <= i < self@.levels.len() ==> (#[trigger] self@.levels[i]).level <= r.0,
    {
        let last = self.levels.len() - 1;
        self.levels[last].level
    }

    /// The files of `level`, in file-number order; empty if the level has
    /// no entry.
    pub fn files_of(&self, level: &Level) -> (r: Vec<FileMeta>)
        requires
            manifest_wf(self@),
        ensures
            r@.map_values(|f: FileMeta| f@) == level_files(self@, level.0),
    {
        let ghost ls = self@.levels;
        let mut i: usize = 0;
        while i < self.levels.len()
            invariant
                i <= self.levels@.len(),
                ls == self@.levels,
                ls.len() == self.levels@.len(),
                ls == self.levels@.map_values(|l: LevelMeta| l@),
                forall|j: int| 0 <= j < i ==> (#[trigger] ls[j]).level != level.0,
            decreases self.levels@.len() - i,
        {
            if self.levels[i].level.0 == level.0 {
                proof {
                    lemma_levels_find_from(ls, level.0, i as int);
                }
                let src = &self.levels[i].files;
                let mut r: Vec<FileMeta> = Vec::new();
                let mut j: usize = 0;
                while j < src.len()
                    invariant
                        j <= src@.len(),
                        r@.map_values(|f: FileMeta| f@) =~= src@.map_values(
                            |f: FileMeta| f@,
                        ).subrange(0, j as int),
                    decreases src@.len() - j,
                {
                    let ghost prev = r@.map_values(|f: FileMeta| f@);
                    let d = src[j].duplicate();
                    let ghost dv = d@;
                    r.push(d);
                    j = j + 1;
                    proof {
                        assert(r@.map_values(|f: FileMeta| f@) =~= prev.push(dv));
                        assert(prev.push(dv) =~= src@.map_values(|f: FileMeta| f@).subrange(
                            0,
                            j as int,
                        ));
                    }
                }
                proof {
                    assert(src@.map_values(|f: FileMeta| f@).subrange(
                        0,
                        src@.len() as int,
                    ) =~= src@.map_values(|f: FileMeta| f@));
                    assert(ls[i as int].files == src@.map_values(|f: FileMeta| f@));
                }
                return r;
            }
            i = i + 1;
        }
        proof {
            lemma_levels_find_from(ls, level.0, ls.len() as int);
        }
        Vec::new()
    }

    /// A fresh catalog with the same contents.
    pub fn duplicate(&self) -> (r: Manifest)
        ensures
            r@ == self@,
    {
        let mut levels: Vec<LevelMeta> = Vec::new();
        let mut i: usize = 0;
        while i < self.levels.len()
            invariant
                i <= self.levels@.len(),
                levels@.map_values(|l: LevelMeta| l@) =~= self.levels@.map_values(
                    |l: LevelMeta| l@,
                ).subrange(0, i as int),
            decreases self.levels@.len() - i,
        {
            let src = &self.levels[i];
            let mut files: Vec<FileMeta> = Vec::new();
            let mut j: usize = 0;
            while j < src.files.len()
                invariant
                    j <= src.files@.len(),
                    files@.map_values(|f: FileMeta| f@) =~= src.files@.map_values(
                        |f: FileMeta| f@,
                    ).subrange(0, j as int),
                decreases src.files@.len() - j,
            {
                let ghost prev = files@.map_values(|f: FileMeta| f@);
                let d = src.files[j].duplicate();
                let ghost dv = d@;
                files.push(d);
                j = j + 1;
                proof {
                    assert(files@.map_values(|f: FileMeta| f@) =~= prev.push(dv));
                    assert(prev.push(dv) =~= src.files@.map_values(|f: FileMeta| f@).subrange(
                        0,
                        j as int,
                    ));
                }
            }
            proof {
                assert(src.files@.map_values(|f: FileMeta| f@).subrange(
                    0,
                    src.files@.len() as int,
                ) =~= src.files@.map_values(|f: FileMeta| f@));
            }
            let ghost prev = levels@.map_values(|l: LevelMeta| l@);
            let lm = LevelMeta { level: src.level, files };
            let ghost lv = lm@;
            levels.push(lm);
            i = i + 1;
            proof {
                assert(lv == self.levels@.map_values(|l: LevelMeta| l@)[i - 1]);
                assert(levels@.map_values(|l: LevelMeta| l@) =~= prev.push(lv));
                assert(prev.push(lv) =~= self.levels@.map_values(|l: LevelMeta| l@).subrange(
                    0,
                    i as int,
                ));
            }
        }
        proof {
            assert(self.levels@.map_values(|l: LevelMeta| l@).subrange(
                0,
                self.levels@.len() as int,
            ) =~= self.levels@.map_values(|l: LevelMeta| l@));
        }
        let r = Manifest {
            next_file_number: self.next_file_number,
            last_committed_sequence_number: self.last_committed_sequence_number,
            levels,
        };
        proof {
            assert(r@ =~= self@);
        }
        r
    }

    /// Applies one delta to the in-memory catalog.  Fails, leaving the
    /// catalog unchanged, exactly when the delta would push a collection
    /// past the on-disk format's 32-bit counts.
    pub fn apply(&mut self, record: ManifestRecord) -> (r: Result<(), StoreError>)
        requires
            manifest_wf(old(self)@),
            record_wf(record@),
        ensures
            record_applies(old(self)@, record@) <==> r is Ok,
            match r {
                Ok(()) => final(self)@ == manifest_apply(old(self)@, record@) && manifest_wf(
                    final(self)@,
                ),
                Err(e) => *final(self) == *old(self) && e == StoreError::LimitExceeded,
            },
    {
        let ghost m0 = self@;
        let ghost rv = record@;
        proof {
            lemma_apply_wf_conditional(m0, rv);
        }
        match record {
            ManifestRecord::Snapshot(m2) => {
                *self = m2;
                Ok(())
            },
            ManifestRecord::SetLastSeqNo(s) => {
                if s.0 > self.last_committed_sequence_number.0 {
                    self.last_committed_sequence_number = s;
                }
                proof {
                    assert(self@ =~= manifest_apply(m0, rv));
                }
                Ok(())
            },
            ManifestRecord::AllocFileNumber(f) => {
                if f.0 >= self.next_file_number.0 {
                    self.next_file_number = FileNo(f.0 + 1);
                }
                proof {
                    assert(self@ =~= manifest_apply(m0, rv));
                }
                Ok(())
            },
            ManifestRecord::CreateFile { level, file_meta } => {
                let i = self.find_level_position(&level);
                let ghost ls = m0.levels;
                if i < self.levels.len() && self.levels[i].level.0 == level.0 {
                    proof {
                        lemma_levels_find_from(ls, level.0, i as int);
                    }
                    if self.levels[i].files.len() as u64 >= u32::MAX as u64 {
                        return Err(StoreError::LimitExceeded);
                    }
                    let mut lm = self.levels.remove(i);
                    insert_file(&mut lm.files, file_meta);
                    let ghost lv = lm@;
                    self.levels.insert(i, lm);
                    proof {
                        lemma_levels_update_at(ls, lv, i as int);
                        assert(self@.levels =~= ls.update(i as int, lv));
                        assert(self@ =~= manifest_apply(m0, rv));
                    }
                } else {
                    proof {
                        if i < self.levels.len() {
                            assert forall|j: int| 0 <= j < ls.len() implies (
                            #[trigger] ls[j]).level != level.0 by {
                                if j > i {
                                    assert(ls[i as int].level < ls[j].level);
                                }
                            }
                            lemma_levels_find_from(ls, level.0, ls.len() as int);
                        } else {
                            lemma_levels_find_from(ls, level.0, ls.len() as int);
                        }
                    }
                    if self.levels.len() as u64 >= u32::MAX as u64 {
                        return Err(StoreError::LimitExceeded);
                    }
                    let mut files: Vec<FileMeta> = Vec::new();
                    insert_file(&mut files, file_meta);
                    let lm = LevelMeta { level, files };
                    let ghost lv = lm@;
                    self.levels.insert(i, lm);
                    proof {
                        assert(lv.files =~= files_insert(Seq::<FileMetaV>::empty(), rv->CreateFile_file_meta));
                        lemma_levels_update_at(ls, lv, i as int);
                        assert(self@.levels =~= ls.insert(i as int, lv));
                        assert(self@ =~= manifest_apply(m0, rv));
                    }
                }
                Ok(())
            },
            ManifestRecord::DeleteFile { level, file_number } => {
                let i = self.find_level_position(&level);
                let ghost ls = m0.levels;
                if i < self.levels.len() && self.levels[i].level.0 == level.0 {
                    proof {
                        lemma_levels_find_from(ls, level.0, i as int);
                    }
                    let mut lm = self.levels.remove(i);
                    remove_file(&mut lm.files, file_number);
                    let ghost lv = lm@;
                    self.levels.insert(i, lm);
                    proof {
                        lemma_levels_update_at(ls, lv, i as int);
                        assert(self@.levels =~= ls.update(i as int, lv));
                        assert(self@ =~= manifest_apply(m0, rv));
                    }
                } else {
                    proof {
                        if i < self.levels.len() {
                            assert forall|j: int| 0 <= j < ls.len() implies (
                            #[trigger] ls[j]).level != level.0 by {
                                if j > i {
                                    assert(ls[i as int].level < ls[j].level);
                                }
                            }
                        }
                        lemma_levels_find_from(ls, level.0, ls.len() as int);
                    }
                    if self.levels.len() as u64 >= u32::MAX as u64 {
                        return Err(StoreError::LimitExceeded);
                    }
                    let lm = LevelMeta { level, files: Vec::new() };
                    let ghost lv = lm@;
                    self.levels.insert(i, lm);
                    proof {
                        assert(lv.files =~= files_remove(Seq::<FileMetaV>::empty(), file_number));
                        lemma_levels_update_at(ls, lv, i as int);
                        assert(self@.levels =~= ls.insert(i as int, lv));
                        assert(self@ =~= manifest_apply(m0, rv));
                    }
                }
                Ok(())
            },
        }
    }

    /// The position of the first level entry at or above `level`.
    fn find_level_position(&self, level: &Level) -> (i: usize)
        requires
            manifest_wf(self@),
        ensures
            i <= self@.levels.len(),
            forall|j: int| 0 <= j < i ==> (#[trigger] self@.levels[j]).level < level.0,
            i < self@.levels.len() ==> self@.levels[i as int].level >= level.0,
    {
        let mut i: usize = 0;
        while i < self.levels.len() && self.levels[i].level.0 < level.0
            invariant
                i <= self.levels@.len(),
                self@.levels.len() == self.levels@.len(),
                self@.levels == self.levels@.map_values(|l: LevelMeta| l@),
                forall|j: int| 0 <= j < i ==> (#[trigger] self@.levels[j]).level < level.0,
            decreases self.levels@.len() - i,
        {
            i = i + 1;
        }
        i
    }
}

/// The concatenated file encodings of a prefix, extended by one entry.
proof fn lemma_files_enc_snoc(fs: Seq<FileMetaV>, i: int)
    requires
        1 <= i <= fs.len(),
    ensures
        files_enc(fs.subrange(0, i)) == files_enc(fs.subrange(0, i - 1)) + file_enc(fs[i - 1]),
    decreases i,
{
    let p = fs.subrange(0, i);
    let q = fs.subrange(0, i - 1);
    if i == 1 {
        assert(p.drop_first() =~= Seq::<FileMetaV>::empty());
        assert(q =~= Seq::<FileMetaV>::empty());
        assert(files_enc(p) == file_enc(p[0]) + files_enc(p.drop_first()));
        assert(file_enc(fs[0]) + Seq::<u8>::empty() =~= Seq::<u8>::empty() + file_enc(fs[0]));
        assert(files_enc(q) == Seq::<u8>::empty());
    } else {
        lemma_files_enc_snoc(fs.drop_first(), i - 1);
        assert(p.drop_first() =~= fs.drop_first().subrange(0, i - 1));
        assert(q.drop_first() =~= fs.drop_first().subrange(0, i - 2));
        assert(fs.drop_first()[i - 2] == fs[i - 1]);
        assert(p[0] == fs[0] && q[0] == fs[0]);
        assert(files_enc(p) == file_enc(fs[0]) + files_enc(fs.drop_first().subrange(0, i - 1)));
        assert(files_enc(q) == file_enc(fs[0]) + files_enc(fs.drop_first().subrange(0, i - 2)));
        assert(file_enc(fs[0]) + (files_enc(fs.drop_first().subrange(0, i - 2)) + file_enc(
            fs[i - 1],
        )) =~= (file_enc(fs[0]) + files_enc(fs.drop_first().subrange(0, i - 2))) + file_enc(
            fs[i - 1],
        ));
    }
}

/// The concatenated level encodings of a prefix, extended by one entry.
proof fn lemma_levels_enc_snoc(ls: Seq<LevelMetaV>, i: int)
    requires
        1 <= i <= ls.len(),
    ensures
        levels_enc(ls.subrange(0, i)) == levels_enc(ls.subrange(0, i - 1)) + level_enc(ls[i - 1]),
    decreases i,
{
    let p = ls.subrange(0, i);
    let q = ls.subrange(0, i - 1);
    if i == 1 {
        assert(p.drop_first() =~= Seq::<LevelMetaV>::empty());
        assert(q =~= Seq::<LevelMetaV>::empty());
        assert(levels_enc(p) == level_enc(p[0]) + levels_enc(p.drop_first()));
        assert(level_enc(ls[0]) + Seq::<u8>::empty() =~= Seq::<u8>::empty() + level_enc(ls[0]));
        assert(levels_enc(q) == Seq::<u8>::empty());
    } else {
        lemma_levels_enc_snoc(ls.drop_first(), i - 1);
        assert(p.drop_first() =~= ls.drop_first().subrange(0, i - 1));
        assert(q.drop_first() =~= ls.drop_first().subrange(0, i - 2));
        assert(ls.drop_first()[i - 2] == ls[i - 1]);
        assert(p[0] == ls[0] && q[0] == ls[0]);
        assert(levels_enc(p) == level_enc(ls[0]) + levels_enc(ls.drop_first().subrange(0, i - 1)));
        assert(levels_enc(q) == level_enc(ls[0]) + levels_enc(ls.drop_first().subrange(0, i - 2)));
        assert(level_enc(ls[0]) + (levels_enc(ls.drop_first().subrange(0, i - 2)) + level_enc(
            ls[i - 1],
        )) =~= (level_enc(ls[0]) + levels_enc(ls.drop_first().subrange(0, i - 2))) + level_enc(
            ls[i - 1],
        ));
    }
}

impl FileMeta {
    /// Appends the byte encoding of this entry to `buf`.
    pub fn encode_into(&self, buf: &mut Vec<u8>)
        requires
            file_meta_wf(self@),
        ensures
            final(buf)@ == old(buf)@ + file_enc(self@),
    {
        push_u64_le(buf, self.file_number);
        push_u64_le(buf, self.file_size);
        push_u32_le(buf, self.smallest_key.len() as u32);
        push_bytes(buf, &self.smallest_key);
        push_u32_le(buf, self.largest_key.len() as u32);
        push_bytes(buf, &self.largest_key);
        assert(buf@ =~= old(buf)@ + file_enc(self@));
    }

    /// Decodes a file entry at position `pos` of `buf`.
    pub fn decode_from(buf: &[u8], pos: usize) -> (r: Result<(FileMeta, usize), StoreError>)
        requires
            pos <= buf@.len(),
        ensures
            match r {
                Ok((f, next)) => file_dec(buf@, pos as int) == Some((f@, next as int)) && next
                    <= buf@.len(),
                Err(e) => file_dec(buf@, pos as int) is None && e == StoreError::CorruptRecord,
            },
    {
        if buf.len() - pos < 24 {
            return Err(StoreError::CorruptRecord);
        }
        let file_number = read_u64_le(buf, pos);
        let file_size = read_u64_le(buf, pos + 8);
        let sklen = read_u32_le(buf, pos + 16) as usize;
        if buf.len() - pos - 24 < sklen {
            return Err(StoreError::CorruptRecord);
        }
        let mut smallest_key: Vec<u8> = Vec::new();
        push_range(&mut smallest_key, buf, pos + 20, pos + 20 + sklen);
        let lklen = read_u32_le(buf, pos + 20 + sklen) as usize;
        assert(buf@.subrange(pos + 20 + sklen, pos + 20 + sklen + 4) =~= buf@.subrange(
            pos + 20 + sklen,
            pos as int + 24 + sklen as int,
        ));
        if buf.len() - pos - 24 - sklen < lklen {
            return Err(StoreError::CorruptRecord);
        }
        let mut largest_key: Vec<u8> = Vec::new();
        push_range(&mut largest_key, buf, pos + 24 + sklen, pos + 24 + sklen + lklen);
        let f = FileMeta { file_number, file_size, smallest_key, largest_key };
        assert(file_dec(buf@, pos as int).unwrap().0 =~= f@);
        Ok((f, pos + 24 + sklen + lklen))
    }
}

/// Appends the encodings of all entries of `files` to `buf`.
fn encode_files(buf: &mut Vec<u8>, files: &Vec<FileMeta>)
    requires
        forall|i: int|
            0 <= i < files@.len() ==> file_meta_wf((#[trigger] files@[i])@),
    ensures
        final(buf)@ == old(buf)@ + files_enc(files@.map_values(|f: FileMeta| f@)),
{
    let ghost fs = files@.map_values(|f: FileMeta| f@);
    let mut i: usize = 0;
    proof {
        assert(fs.subrange(0, 0) =~= Seq::<FileMetaV>::empty());
    }
    while i < files.len()
        invariant
            i <= files@.len(),
            fs == files@.map_values(|f: FileMeta| f@),
            fs.len() == files@.len(),
            forall|j: int| 0 <= j < fs.len() ==> file_meta_wf(#[trigger] fs[j]),
            buf@ == old(buf)@ + files_enc(fs.subrange(0, i as int)),
        decreases files@.len() - i,
    {
        proof {
            assert(files@[i as int]@ == fs[i as int]);
        }
        files[i].encode_into(buf);
        i = i + 1;
        proof {
            lemma_files_enc_snoc(fs, i as int);
        }
    }
    proof {
        assert(fs.subrange(0, fs.len() as int) =~= fs);
    }
}

impl LevelMeta {
    /// Appends the byte encoding of this level entry to `buf`.
    pub fn encode_into(&self, buf: &mut Vec<u8>)
        requires
            level_meta_wf(self@),
        ensures
            final(buf)@ == old(buf)@ + level_enc(self@),
    {
        push_u32_le(buf, self.level.0);
        push_u32_le(buf, self.files.len() as u32);
        proof {
            assert(forall|i: int|
                0 <= i < self.files@.len() ==> (#[trigger] self.files@[i])@ == self@.files[i]);
        }
        encode_files(buf, &self.files);
        assert(buf@ =~= old(buf)@ + level_enc(self@));
    }
}

/// Decodes `n` file entries with strictly ascending file numbers starting
/// at position `pos`.
fn decode_files(buf: &[u8], pos: usize, n: u32) -> (r: Result<(Vec<FileMeta>, usize), StoreError>)
    requires
        pos <= buf@.len(),
    ensures
        match r {
            Ok((fs, end)) => files_dec(buf@, pos as int, n as nat, -1) == Some(
                (fs@.map_values(|f: FileMeta| f@), end as int),
            ) && end <= buf@.len(),
            Err(e) => files_dec(buf@, pos as int, n as nat, -1) is None && e
                == StoreError::CorruptRecord,
        },
{
    let mut fs: Vec<FileMeta> = Vec::new();
    let mut p = pos;
    let mut i: u32 = 0;
    let mut lo: i128 = -1;
    while i < n
        invariant
            i <= n,
            p <= buf@.len(),
            -1 <= lo < 0x1_0000_0000_0000_0000,
            match files_dec(buf@, p as int, (n - i) as nat, lo as int) {
                Some((rest, end)) => files_dec(buf@, pos as int, n as nat, -1) == Some(
                    (fs@.map_values(|f: FileMeta| f@) + rest, end),
                ),
                None => files_dec(buf@, pos as int, n as nat, -1) is None,
            },
        decreases n - i,
    {
        let ghost prev = fs@.map_values(|f: FileMeta| f@);
        let (f, p2) = match FileMeta::decode_from(buf, p) {
            Ok(x) => x,
            Err(e) => {
                return Err(e);
            },
        };
        if f.file_number as i128 <= lo {
            return Err(StoreError::CorruptRecord);
        }
        let ghost fv = f@;
        let fnum = f.file_number;
        fs.push(f);
        proof {
            assert(fs@.map_values(|x: FileMeta| x@) =~= prev.push(fv));
            match files_dec(buf@, p2 as int, (n - i - 1) as nat, fv.file_number as int) {
                Some((rest2, end)) => {
                    assert(files_dec(buf@, p as int, (n - i) as nat, lo as int) == Some(
                        (seq![fv] + rest2, end),
                    ));
                    assert(prev + (seq![fv] + rest2) =~= (prev + seq![fv]) + rest2);
                    assert(prev.push(fv) =~= prev + seq![fv]);
                },
                None => {
                    assert(files_dec(buf@, p as int, (n - i) as nat, lo as int) is None);
                },
            }
        }
        lo = fnum as i128;
        p = p2;
        i = i + 1;
    }
    proof {
        assert(files_dec(buf@, p as int, 0, lo as int) == Some(
            (Seq::<FileMetaV>::empty(), p as int),
        ));
        assert(fs@.map_values(|f: FileMeta| f@) + Seq::<FileMetaV>::empty() =~= fs@.map_values(
            |f: FileMeta| f@,
        ));
    }
    Ok((fs, p))
}

/// Decodes one level entry at position `pos`.
fn decode_level(buf: &[u8], pos: usize) -> (r: Result<(LevelMeta, usize), StoreError>)
    requires
        pos <= buf@.len(),
    ensures
        match r {
            Ok((l, next)) => level_dec(buf@, pos as int) == Some((l@, next as int)) && next
                <= buf@.len(),
            Err(e) => level_dec(buf@, pos as int) is None && e == StoreError::CorruptRecord,
        },
{
    if buf.len() - pos < 8 {
        return Err(StoreError::CorruptRecord);
    }
    let level = read_u32_le(buf, pos);
    let n = read_u32_le(buf, pos + 4);
    assert(buf@.subrange(pos + 4, pos + 4 + 4) =~= buf@.subrange(pos + 4, pos as int + 8));
    let (files, end) = match decode_files(buf, pos + 8, n) {
        Ok(x) => x,
        Err(e) => {
            return Err(e);
        },
    };
    let l = LevelMeta { level: Level(level), files };
    assert(level_dec(buf@, pos as int).unwrap().0 =~= l@);
    Ok((l, end))
}

impl Manifest {
    /// Appends the byte encoding of the whole catalog state to `buf`.
    pub fn encode_into(&self, buf: &mut Vec<u8>)
        requires
            manifest_wf(self@),
        ensures
            final(buf)@ == old(buf)@ + manifest_enc(self@),
    {
        push_u64_le(buf, self.next_file_number.0);
        push_u64_le(buf, self.last_committed_sequence_number.0);
        push_u32_le(buf, self.levels.len() as u32);
        let ghost ls = self@.levels;
        let ghost mid = buf@;
        let mut i: usize = 0;
        proof {
            assert(ls.subrange(0, 0) =~= Seq::<LevelMetaV>::empty());
            assert(mid + levels_enc(ls.subrange(0, 0)) =~= mid);
        }
        while i < self.levels.len()
            invariant
                i <= self.levels@.len(),
                ls == self@.levels,
                ls == self.levels@.map_values(|l: LevelMeta| l@),
                ls.len() == self.levels@.len(),
                forall|j: int| 0 <= j < ls.len() ==> level_meta_wf(#[trigger] ls[j]),
                buf@ == mid + levels_enc(ls.subrange(0, i as int)),
            decreases self.levels@.len() - i,
        {
            proof {
                assert(self.levels@[i as int]@ == ls[i as int]);
            }
            self.levels[i].encode_into(buf);
            i = i + 1;
            proof {
                lemma_levels_enc_snoc(ls, i as int);
            }
        }
        proof {
            assert(ls.subrange(0, ls.len() as int) =~= ls);
            assert(buf@ =~= old(buf)@ + manifest_enc(self@));
        }
    }

    /// Decodes a catalog state at position `pos` of `buf`.
    pub fn decode_from(buf: &[u8], pos: usize) -> (r: Result<(Manifest, usize), StoreError>)
        requires
            pos <= buf@.len(),
        ensures
            match r {
                Ok((m, next)) => manifest_dec(buf@, pos as int) == Some((m@, next as int)) && next
                    <= buf@.len() && manifest_wf(m@),
                Err(e) => manifest_dec(buf@, pos as int) is None && e == StoreError::CorruptRecord,
            },
    {
        if buf.len() - pos < 20 {
            return Err(StoreError::CorruptRecord);
        }
        let next_file_number = read_u64_le(buf, pos);
        let last = read_u64_le(buf, pos + 8);
        let n = read_u32_le(buf, pos + 16);
        assert(buf@.subrange(pos + 8, pos + 8 + 8) =~= buf@.subrange(pos + 8, pos as int + 16));
        assert(buf@.subrange(pos + 16, pos + 16 + 4) =~= buf@.subrange(pos + 16, pos as int + 20));
        let mut levels: Vec<LevelMeta> = Vec::new();
        let mut p = pos + 20;
        let mut i: u32 = 0;
        let mut lo: i128 = -1;
        while i < n
            invariant
                i <= n,
                p <= buf@.len(),
                -1 <= lo < 0x1_0000_0000,
                pos + 20 <= buf@.len(),
                n == u32_from_le(buf@.subrange(pos + 16, pos as int + 20)),
                match levels_dec(buf@, p as int, (n - i) as nat, lo as int) {
                    Some((rest, end)) => levels_dec(buf@, pos + 20, n as nat, -1) == Some(
                        (levels@.map_values(|l: LevelMeta| l@) + rest, end),
                    ),
                    None => levels_dec(buf@, pos + 20, n as nat, -1) is None,
                },
            decreases n - i,
        {
            let ghost prev = levels@.map_values(|l: LevelMeta| l@);
            let (l, p2) = match decode_level(buf, p) {
                Ok(x) => x,
                Err(e) => {
                    proof {
                        assert(levels_dec(buf@, p as int, (n - i) as nat, lo as int) is None);
                        assert(manifest_dec(buf@, pos as int) is None);
                    }
                    return Err(e);
                },
            };
            if l.level.0 as i128 <= lo {
                proof {
                    assert(levels_dec(buf@, p as int, (n - i) as nat, lo as int) is None);
                    assert(manifest_dec(buf@, pos as int) is None);
                }
                return Err(StoreError::CorruptRecord);
            }
            let ghost lv = l@;
            let lvl = l.level.0;
            levels.push(l);
            proof {
                assert(levels@.map_values(|x: LevelMeta| x@) =~= prev.push(lv));
                match levels_dec(buf@, p2 as int, (n - i - 1) as nat, lv.level as int) {
                    Some((rest2, end)) => {
                        assert(levels_dec(buf@, p as int, (n - i) as nat, lo as int) == Some(
                            (seq![lv] + rest2, end),
                        ));
                        assert(prev + (seq![lv] + rest2) =~= (prev + seq![lv]) + rest2);
                        assert(prev.push(lv) =~= prev + seq![lv]);
                    },
                    None => {
                        assert(levels_dec(buf@, p as int, (n - i) as nat, lo as int) is None);
                    },
                }
            }
            lo = lvl as i128;
            p = p2;
            i = i + 1;
        }
        proof {
            assert(levels_dec(buf@, p as int, 0, lo as int) == Some(
                (Seq::<LevelMetaV>::empty(), p as int),
            ));
            assert(levels@.map_values(|l: LevelMeta| l@) + Seq::<LevelMetaV>::empty()
                =~= levels@.map_values(|l: LevelMeta| l@));
        }
        if levels.len() == 0 {
            proof {
                assert(manifest_dec(buf@, pos as int) is None);
            }
            return Err(StoreError::CorruptRecord);
        }
        if levels[0].level.0 != 0 {
            proof {
                assert(levels@.map_values(|l: LevelMeta| l@)[0].level != 0);
                assert(manifest_dec(buf@, pos as int) is None);
            }
            return Err(StoreError::CorruptRecord);
        }
        let m = Manifest {
            next_file_number: FileNo(next_file_number),
            last_committed_sequence_number: SeqNo(last),
            levels,
        };
        proof {
            assert(manifest_dec(buf@, pos as int).unwrap().0 =~= m@);
            lemma_manifest_dec_wf(buf@, pos as int);
        }
        Ok((m, p))
    }
}

impl ManifestRecord {
    /// Appends the frame-body encoding of this delta to `buf`.
    pub fn encode_into(&self, buf: &mut Vec<u8>)
        requires
            record_wf(self@),
        ensures
            final(buf)@ == old(buf)@ + manifest_record_enc(self@),
    {
        match self {
            ManifestRecord::Snapshot(m) => {
                buf.push(0);
                m.encode_into(buf);
                assert(buf@ =~= old(buf)@ + manifest_record_enc(self@));
            },
            ManifestRecord::CreateFile { level, file_meta } => {
                buf.push(1);
                push_u32_le(buf, level.0);
                file_meta.encode_into(buf);
                assert(buf@ =~= old(buf)@ + manifest_record_enc(self@));
            },
            ManifestRecord::DeleteFile { level, file_number } => {
                buf.push(2);
                push_u32_le(buf, level.0);
                push_u64_le(buf, *file_number);
                assert(buf@ =~= old(buf)@ + manifest_record_enc(self@));
            },
            ManifestRecord::SetLastSeqNo(s) => {
                buf.push(3);
                push_u64_le(buf, s.0);
                assert(buf@ =~= old(buf)@ + manifest_record_enc(self@));
            },
            ManifestRecord::AllocFileNumber(f) => {
                buf.push(4);
                push_u64_le(buf, f.0);
                assert(buf@ =~= old(buf)@ + manifest_record_enc(self@));
            },
        }
    }

    /// Decodes a delta from one whole frame body.
    pub fn decode(body: &Vec<u8>) -> (r: Result<ManifestRecord, StoreError>)
        ensures
            match r {
                Ok(rec) => manifest_record_dec(body@) == Some(rec@) && record_wf(rec@),
                Err(e) => manifest_record_dec(body@) is None && e == StoreError::CorruptRecord,
            },
    {
        if body.len() < 1 {
            return Err(StoreError::CorruptRecord);
        }
        let tag = body[0];
        if tag == 0 {
            let (m, end) = match Manifest::decode_from(body.as_slice(), 1) {
                Ok(x) => x,
                Err(e) => {
                    return Err(e);
                },
            };
            if end != body.len() {
                return Err(StoreError::CorruptRecord);
            }
            Ok(ManifestRecord::Snapshot(m))
        } else if tag == 1 {
            if body.len() < 5 {
                return Err(StoreError::CorruptRecord);
            }
            let level = read_u32_le(body.as_slice(), 1);
            let (f, end) = match FileMeta::decode_from(body.as_slice(), 5) {
                Ok(x) => x,
                Err(e) => {
                    return Err(e);
                },
            };
            if end != body.len() {
                return Err(StoreError::CorruptRecord);
            }
            assert(body@.subrange(1int, 1int + 4) =~= body@.subrange(1, 5));
            Ok(ManifestRecord::CreateFile { level: Level(level), file_meta: f })
        } else if tag == 2 {
            if body.len() != 13 {
                return Err(StoreError::CorruptRecord);
            }
            let level = read_u32_le(body.as_slice(), 1);
            let file_number = read_u64_le(body.as_slice(), 5);
            assert(body@.subrange(1int, 1int + 4) =~= body@.subrange(1, 5));
            assert(body@.subrange(5int, 5int + 8) =~= body@.subrange(5, 13));
            Ok(ManifestRecord::DeleteFile { level: Level(level), file_number })
        } else if tag == 3 {
            if body.len() != 9 {
                return Err(StoreError::CorruptRecord);
            }
            let s = read_u64_le(body.as_slice(), 1);
            assert(body@.subrange(1int, 1int + 8) =~= body@.subrange(1, 9));
            Ok(ManifestRecord::SetLastSeqNo(SeqNo(s)))
        } else if tag == 4 {
            if body.len() != 9 {
                return Err(StoreError::CorruptRecord);
            }
            let f = read_u64_le(body.as_slice(), 1);
            assert(body@.subrange(1int, 1int + 8) =~= body@.subrange(1, 9));
            if f == u64::MAX {
                return Err(StoreError::CorruptRecord);
            }
            Ok(ManifestRecord::AllocFileNumber(FileNo(f)))
        } else {
            Err(StoreError::CorruptRecord)
        }
    }
}

/// The replay of decoded frame bodies over a catalog state.
pub open spec fn manifest_replay(m: ManifestV, bodies: Seq<Seq<u8>>) -> Option<ManifestV>
    decreases bodies.len(),
{
    if bodies.len() == 0 {
        Some(m)
    } else {
        match manifest_record_dec(bodies[0]) {
            None => None,
            Some(r) => {
                if record_applies(m, r) {
                    manifest_replay(manifest_apply(m, r), bodies.drop_first())
                } else {
                    None
                }
            },
        }
    }
}

/// The catalog a manifest file's bytes rebuild: every frame decoded and
/// applied in order, starting from the fresh catalog.
pub open spec fn manifest_load(bytes: Seq<u8>) -> Option<ManifestV> {
    match frames_dec(bytes, 0) {
        None => None,
        Some(bodies) => manifest_replay(manifest_init(), bodies),
    }
}

impl Manifest {
    /// Rebuilds the catalog from the bytes of a manifest file by replaying
    /// every record.  Refuses the file if a frame is truncated, a body does
    /// not decode, or a record cannot be applied.
    #[verifier::rlimit(50)]
    pub fn load_from_bytes(bytes: &Vec<u8>) -> (r: Result<Manifest, StoreError>)
        ensures
            match r {
                Ok(m) => manifest_load(bytes@) == Some(m@) && manifest_wf(m@),
                Err(e) => manifest_load(bytes@) is None && (e == StoreError::TruncatedFrame || e
                    == StoreError::CorruptRecord || e == StoreError::LimitExceeded),
            },
    {
        let bodies = match read_all_framed(bytes.as_slice()) {
            Ok(b) => b,
            Err(e) => {
                return Err(e);
            },
        };
        let ghost bvs = bodies@.map_values(|v: Vec<u8>| v@);
        let mut m = Manifest::new();
        let mut i: usize = 0;
        proof {
            assert(bvs.skip(0) =~= bvs);
        }
        while i < bodies.len()
            invariant
                i <= bodies@.len(),
                bvs == bodies@.map_values(|v: Vec<u8>| v@),
                bvs.len() == bodies@.len(),
                frames_dec(bytes@, 0) == Some(bvs),
                manifest_wf(m@),
                manifest_replay(manifest_init(), bvs) == manifest_replay(m@, bvs.skip(i as int)),
            decreases bodies@.len() - i,
        {
            let ghost mv = m@;
            proof {
                assert(bvs.skip(i as int)[0] == bvs[i as int]);
                assert(bvs.skip(i as int).drop_first() =~= bvs.skip(i + 1));
            }
            let rec = match ManifestRecord::decode(&bodies[i]) {
                Ok(rec) => rec,
                Err(e) => {
                    proof {
                        assert(manifest_record_dec(bvs[i as int]) is None);
                        assert(manifest_replay(mv, bvs.skip(i as int)) is None);
                    }
                    return Err(e);
                },
            };
            let ghost rv = rec@;
            match m.apply(rec) {
                Ok(()) => {
                },
                Err(e) => {
                    proof {
                        assert(!record_applies(mv, rv));
                        assert(manifest_replay(mv, bvs.skip(i as int)) is None);
                    }
                    return Err(e);
                },
            }
            i = i + 1;
        }
        proof {
            assert(bvs.skip(bvs.len() as int) =~= Seq::<Seq<u8>>::empty());
            assert(manifest_replay(m@, Seq::<Seq<u8>>::empty()) == Some(m@));
        }
        Ok(m)
    }
}

/// A well-formed catalog always has a level-0 entry to find.
pub proof fn lemma_level0_present(m: ManifestV)
    requires
        manifest_wf(m),
    ensures
        levels_find(m.levels, 0) is Some,
{
    assert(m.levels[0].level == 0);
}

/// After an update, the updated level is the one found.
proof fn lemma_levels_update_find(ls: Seq<LevelMetaV>, l: LevelMetaV)
    ensures
        levels_find(levels_update(ls, l), l.level) == Some(l),
    decreases ls.len(),
{
    let r = levels_update(ls, l);
    if ls.len() == 0 {
        assert(r[0] == l);
    } else if l.level < ls[0].level {
        assert(r[0] == l);
    } else if l.level == ls[0].level {
        assert(r[0] == l);
    } else {
        assert(r[0] == ls[0]);
        assert(ls[0].level != l.level);
        lemma_levels_update_find(ls.drop_first(), l);
        assert(r.drop_first() =~= levels_update(ls.drop_first(), l));
    }
}

/// Creating a file grows its level's file count by at most one and leaves
/// the committed sequence number and the next file number alone.
pub proof fn lemma_create_file_level_count(m: ManifestV, level: u32, f: FileMetaV)
    requires
        manifest_wf(m),
    ensures
        level_files(manifest_apply(m, ManifestRecordV::CreateFile { level, file_meta: f }), level)
            .len() <= level_files(m, level).len() + 1,
{
    let files2 = files_insert(level_files(m, level), f);
    let l2 = LevelMetaV { level, files: files2 };
    let m2 = manifest_apply(m, ManifestRecordV::CreateFile { level, file_meta: f });
    lemma_levels_update_find(m.levels, l2);
    assert(level_files(m2, level) == files2);
    lemma_files_insert_len(level_files(m, level), f);
}

/// Sorted insertion grows a run by at most one entry.
proof fn lemma_files_insert_len(fs: Seq<FileMetaV>, f: FileMetaV)
    ensures
        files_insert(fs, f).len() <= fs.len() + 1,
    decreases fs.len(),
{
    if fs.len() > 0 && !(f.file_number < fs[0].file_number) && f.file_number != fs[0].file_number {
        lemma_files_insert_len(fs.drop_first(), f);
    }
}

/// The applicability check of a well-formed record is exactly the count
/// checks the executable apply performs.
proof fn lemma_apply_wf_conditional(m: ManifestV, r: ManifestRecordV)
    requires
        manifest_wf(m),
        record_wf(r),
    ensures
        record_applies(m, r) ==> manifest_wf(manifest_apply(m, r)),
{
    if record_applies(m, r) {
        lemma_apply_wf(m, r);
    }
}

proof fn lemma_levels_update_membership(ls: Seq<LevelMetaV>, l: LevelMetaV, j: int)
    requires
        0 <= j < levels_update(ls, l).len(),
    ensures
        levels_update(ls, l)[j] == l || exists|i: int|
            0 <= i < ls.len() && ls[i] == #[trigger] levels_update(ls, l)[j],
    decreases ls.len(),
{
    let r = levels_update(ls, l);
    if ls.len() == 0 {
    } else if l.level < ls[0].level {
        if j >= 1 {
            assert(ls[j - 1] == r[j]);
        }
    } else if l.level == ls[0].level {
        if j >= 1 {
            assert(ls[j] == r[j]);
        }
    } else {
        if j == 0 {
            assert(ls[0] == r[0]);
        } else {
            lemma_levels_update_membership(ls.drop_first(), l, j - 1);
            let t = levels_update(ls.drop_first(), l);
            assert(r[j] == t[j - 1]);
            if t[j - 1] != l {
                let i = choose|i: int|
                    0 <= i < ls.drop_first().len() && ls.drop_first()[i] == t[j - 1];
                assert(ls[i + 1] == r[j]);
            }
        }
    }
}

} // verus!
