//! The on-disk layout of a sorted-table file.
//!
//! A file is a run of data blocks — packed `(internal key, value)` entries
//! in sorted order — followed by one index block and a fixed 32-byte
//! footer that ends in a magic constant.  The index lists, for each data
//! block, the last internal key it holds, its byte offset and its size.
//! A reader validates the magic before trusting anything else.

use vstd::prelude::*;

use crate::codec::{
    push_u32_le, push_u64_le, read_u32_le, read_u64_le, u32_from_le, u32_le, u64_from_le, u64_le,
};
use crate::key::{key_dec, key_enc, key_enc_len, key_wf, lemma_key_round_trip, Key, KeyV};
use crate::memtable::EntryV;
use crate::sstable::manager::SSTABLE_MAGIC;
use crate::value::{value_enc, value_enc_len, value_wf};

verus! {

/// A data block closes once it reaches this many bytes.
pub const BLOCK_SIZE: usize = 16384;

/// The byte size of the fixed footer.
pub const FOOTER_SIZE: usize = 32;

/// What the index records of one data block.
#[derive(Debug)]
pub struct BlockMeta {
    pub last_key: Key,
    pub offset: u64,
    pub size: u32,
}

/// The mathematical content of an index entry.
#[verifier::ext_equal]
pub struct BlockMetaV {
    pub last_key: KeyV,
    pub offset: u64,
    pub size: u32,
}

impl View for BlockMeta {
    type V = BlockMetaV;

    open spec fn view(&self) -> BlockMetaV {
        BlockMetaV { last_key: self.last_key@, offset: self.offset, size: self.size }
    }
}

/// The fixed trailer of every sorted-table file.
#[derive(Debug, Clone, Copy, PartialEq, Eq, Structural)]
pub struct SSTableFooter {
    pub index_offset: u64,
    pub index_size: u64,
    pub reserved1: u64,
    pub reserved2: u32,
    pub magic: u32,
}

/// The byte encoding of the footer, little-endian throughout.
pub open spec fn footer_enc(f: SSTableFooter) -> Seq<u8> {
    u64_le(f.index_offset) + u64_le(f.index_size) + u64_le(f.reserved1) + u32_le(f.reserved2)
        + u32_le(f.magic)
}

/// Decoding the 32 footer bytes at position `pos`.
pub open spec fn footer_dec(b: Seq<u8>, pos: int) -> SSTableFooter
    recommends
        0 <= pos,
        pos + 32 <= b.len(),
{
    SSTableFooter {
        index_offset: u64_from_le(b.subrange(pos, pos + 8)),
        index_size: u64_from_le(b.subrange(pos + 8, pos + 16)),
        reserved1: u64_from_le(b.subrange(pos + 16, pos + 24)),
        reserved2: u32_from_le(b.subrange(pos + 24, pos + 28)),
        magic: u32_from_le(b.subrange(pos + 28, pos + 32)),
    }
}

/// Decoding an encoded footer out of any surrounding buffer restores it.
pub proof fn lemma_footer_round_trip(b: Seq<u8>, pos: int, f: SSTableFooter)
    requires
        0 <= pos,
        pos + 32 <= b.len(),
        b.subrange(pos, pos + 32) == footer_enc(f),
    ensures
        footer_dec(b, pos) == f,
{
    crate::codec::lemma_u64_le_round_trip(f.index_offset);
    crate::codec::lemma_u64_le_round_trip(f.index_size);
    crate::codec::lemma_u64_le_round_trip(f.reserved1);
    crate::codec::lemma_u32_le_round_trip(f.reserved2);
    crate::codec::lemma_u32_le_round_trip(f.magic);
    assert(b.subrange(pos, pos + 8) =~= u64_le(f.index_offset)) by {
        assert(forall|j: int|
            0 <= j < 8 ==> #[trigger] b.subrange(pos, pos + 8)[j] == b.subrange(pos, pos + 32)[j]);
    }
    assert(b.subrange(pos + 8, pos + 16) =~= u64_le(f.index_size)) by {
        assert(forall|j: int|
            0 <= j < 8 ==> #[trigger] b.subrange(pos + 8, pos + 16)[j] == b.subrange(
                pos,
                pos + 32,
            )[j + 8]);
    }
    assert(b.subrange(pos + 16, pos + 24) =~= u64_le(f.reserved1)) by {
        assert(forall|j: int|
            0 <= j < 8 ==> #[trigger] b.subrange(pos + 16, pos + 24)[j] == b.subrange(
                pos,
                pos + 32,
            )[j + 16]);
    }
    assert(b.subrange(pos + 24, pos + 28) =~= u32_le(f.reserved2)) by {
        assert(forall|j: int|
            0 <= j < 4 ==> #[trigger] b.subrange(pos + 24, pos + 28)[j] == b.subrange(
                pos,
                pos + 32,
            )[j + 24]);
    }
    assert(b.subrange(pos + 28, pos + 32) =~= u32_le(f.magic)) by {
        assert(forall|j: int|
            0 <= j < 4 ==> #[trigger] b.subrange(pos + 28, pos + 32)[j] == b.subrange(
                pos,
                pos + 32,
            )[j + 28]);
    }
}

impl SSTableFooter {
    /// Appends the 32-byte encoding of this footer to `buf`.
    pub fn encode_into(&self, buf: &mut Vec<u8>)
        ensures
            final(buf)@ == old(buf)@ + footer_enc(*self),
            footer_enc(*self).len() == 32,
    {
        push_u64_le(buf, self.index_offset);
        push_u64_le(buf, self.index_size);
        push_u64_le(buf, self.reserved1);
        push_u32_le(buf, self.reserved2);
        push_u32_le(buf, self.magic);
        assert(buf@ =~= old(buf)@ + footer_enc(*self));
    }

    /// Decodes the footer at position `pos` of `buf`.
    pub fn decode_from(buf: &[u8], pos: usize) -> (r: SSTableFooter)
        requires
            pos + 32 <= buf@.len(),
        ensures
            r == footer_dec(buf@, pos as int),
    {
        let len = buf.len();
        proof {
            assert(pos + 32 <= len);
        }
        let index_offset = read_u64_le(buf, pos);
        let index_size = read_u64_le(buf, pos + 8);
        let reserved1 = read_u64_le(buf, pos + 16);
        let reserved2 = read_u32_le(buf, pos + 24);
        let magic = read_u32_le(buf, pos + 28);
        proof {
            assert(buf@.subrange(pos + 8, pos + 8 + 8) =~= buf@.subrange(pos + 8, pos as int + 16));
            assert(buf@.subrange(pos + 16, pos + 16 + 8) =~= buf@.subrange(
                pos + 16,
                pos as int + 24,
            ));
            assert(buf@.subrange(pos + 24, pos + 24 + 4) =~= buf@.subrange(
                pos + 24,
                pos as int + 28,
            ));
            assert(buf@.subrange(pos + 28, pos + 28 + 4) =~= buf@.subrange(
                pos + 28,
                pos as int + 32,
            ));
        }
        SSTableFooter { index_offset, index_size, reserved1, reserved2, magic }
    }
}

/// The byte encoding of one table entry: its key, then its value.
pub open spec fn entry_enc(e: EntryV) -> Seq<u8> {
    key_enc(e.key) + value_enc(e.value)
}

pub open spec fn entry_enc_len(e: EntryV) -> int {
    key_enc_len(e.key) + value_enc_len(e.value)
}

/// An entry fits the block format when its encoding, together with any
/// partially filled block it may land in, stays within the 32-bit block
/// size field.
pub open spec fn entry_fits(e: EntryV) -> bool {
    key_wf(e.key) && value_wf(e.value) && entry_enc_len(e) + BLOCK_SIZE <= u32::MAX
}

/// The concatenated encodings of a run of entries.
pub open spec fn entries_enc(es: Seq<EntryV>) -> Seq<u8>
    decreases es.len(),
{
    if es.len() == 0 {
        Seq::empty()
    } else {
        entries_enc(es.drop_last()) + entry_enc(es.last())
    }
}

/// The byte encoding of one index entry: the block's last key, its offset
/// and its size.
pub open spec fn index_entry_enc(m: BlockMetaV) -> Seq<u8> {
    key_enc(m.last_key) + u64_le(m.offset) + u32_le(m.size)
}

/// The byte encoding of the index block: the block count, then one entry
/// per block in file order.
pub open spec fn index_entries_enc(metas: Seq<BlockMetaV>) -> Seq<u8>
    decreases metas.len(),
{
    if metas.len() == 0 {
        Seq::empty()
    } else {
        index_entries_enc(metas.drop_last()) + index_entry_enc(metas.last())
    }
}

pub open spec fn index_enc(metas: Seq<BlockMetaV>) -> Seq<u8> {
    u32_le(metas.len() as u32) + index_entries_enc(metas)
}

/// Decoding `n` index entries at position `pos`.
pub open spec fn index_entries_dec(b: Seq<u8>, pos: int, n: nat) -> Option<(Seq<BlockMetaV>, int)>
    decreases n,
{
    if n == 0 {
        Some((Seq::empty(), pos))
    } else {
        match key_dec(b, pos) {
            None => None,
            Some((k, p2)) => {
                if p2 + 12 > b.len() {
                    None
                } else {
                    let m = BlockMetaV {
                        last_key: k,
                        offset: u64_from_le(b.subrange(p2, p2 + 8)),
                        size: u32_from_le(b.subrange(p2 + 8, p2 + 12)),
                    };
                    match index_entries_dec(b, p2 + 12, (n - 1) as nat) {
                        None => None,
                        Some((rest, end)) => Some((seq![m] + rest, end)),
                    }
                }
            },
        }
    }
}

/// Decoding the index block at position `pos`.
pub open spec fn index_dec(b: Seq<u8>, pos: int) -> Option<(Seq<BlockMetaV>, int)> {
    if pos < 0 || pos + 4 > b.len() {
        None
    } else {
        let n = u32_from_le(b.subrange(pos, pos + 4));
        index_entries_dec(b, pos + 4, n as nat)
    }
}

/// A well-formed sorted-table file, as a reader would check it: at least a
/// footer, the right magic, an index block that parses and ends where the
/// footer begins, and every data block inside `[0, index_offset)`.
pub open spec fn sstable_wf(b: Seq<u8>) -> bool {
    &&& b.len() >= 32
    &&& {
        let f = footer_dec(b, b.len() - 32);
        &&& f.magic == SSTABLE_MAGIC
        &&& f.index_offset + f.index_size + 32 == b.len()
        &&& match index_dec(b, f.index_offset as int) {
            Some((metas, end)) => end == f.index_offset + f.index_size && (forall|i: int|
                0 <= i < metas.len() ==> (#[trigger] metas[i]).offset + metas[i].size
                    <= f.index_offset),
            None => false,
        }
    }
}

/// The data region of a well-formed file: everything before the index.
pub open spec fn data_region(b: Seq<u8>) -> Seq<u8>
    recommends
        sstable_wf(b),
{
    b.subrange(0, footer_dec(b, b.len() - 32).index_offset as int)
}

/// The index entries of a well-formed file.
pub open spec fn index_of(b: Seq<u8>) -> Seq<BlockMetaV>
    recommends
        sstable_wf(b),
{
    index_dec(b, footer_dec(b, b.len() - 32).index_offset as int).unwrap().0
}

/// The byte size of the index block over these blocks: a 32-bit count,
/// then each block's last key, offset and size.
pub open spec fn index_len(metas: Seq<BlockMetaV>) -> int {
    index_enc(metas).len() as int
}

/// The length of the index block for the given block run.
pub fn index_block_size(entries: &Vec<BlockMeta>) -> (r: usize)
    requires
        forall|i: int| 0 <= i < entries@.len() ==> key_wf((#[trigger] entries@[i])@.last_key),
        index_len(entries@.map_values(|m: BlockMeta| m@)) <= usize::MAX,
    ensures
        r == index_len(entries@.map_values(|m: BlockMeta| m@)),
{
    let ghost metas = entries@.map_values(|m: BlockMeta| m@);
    let mut acc: usize = 4;
    let mut i: usize = 0;
    proof {
        assert(metas.subrange(0, 0) =~= Seq::<BlockMetaV>::empty());
        lemma_index_entries_len_nonneg(metas);
    }
    while i < entries.len()
        invariant
            i <= entries@.len(),
            metas == entries@.map_values(|m: BlockMeta| m@),
            metas.len() == entries@.len(),
            forall|j: int| 0 <= j < metas.len() ==> key_wf((#[trigger] metas[j]).last_key),
            acc == 4 + index_entries_enc(metas.subrange(0, i as int)).len(),
            index_len(metas) <= usize::MAX,
        decreases entries@.len() - i,
    {
        proof {
            lemma_index_entries_enc_snoc(metas, i + 1);
            assert(metas.subrange(0, metas.len() as int) =~= metas);
            lemma_index_entries_prefix_le(metas, i + 1);
        }
        acc = acc + (entries[i].last_key.encoded_len() + 12);
        i = i + 1;
    }
    proof {
        assert(metas.subrange(0, metas.len() as int) =~= metas);
    }
    acc
}

proof fn lemma_index_entries_len_nonneg(metas: Seq<BlockMetaV>)
    ensures
        index_entries_enc(metas).len() >= 0,
{
}

/// A prefix of the index never outweighs the whole.
proof fn lemma_index_entries_prefix_le(metas: Seq<BlockMetaV>, i: int)
    requires
        0 <= i <= metas.len(),
    ensures
        index_entries_enc(metas.subrange(0, i)).len() <= index_entries_enc(metas).len(),
    decreases metas.len() - i,
{
    if i == metas.len() {
        assert(metas.subrange(0, i) =~= metas);
    } else {
        lemma_index_entries_enc_snoc(metas, i + 1);
        lemma_index_entries_prefix_le(metas, i + 1);
    }
}

/// The encoded index entries of a prefix, extended by one entry.
pub proof fn lemma_index_entries_enc_snoc(metas: Seq<BlockMetaV>, i: int)
    requires
        1 <= i <= metas.len(),
    ensures
        index_entries_enc(metas.subrange(0, i)) == index_entries_enc(metas.subrange(0, i - 1))
            + index_entry_enc(metas[i - 1]),
{
    let p = metas.subrange(0, i);
    assert(p.drop_last() =~= metas.subrange(0, i - 1));
    assert(p.last() == metas[i - 1]);
}

/// Decoding an encoded index-entry run restores it.
proof fn lemma_index_entries_round_trip(b: Seq<u8>, pos: int, metas: Seq<BlockMetaV>)
    requires
        forall|i: int| 0 <= i < metas.len() ==> key_wf((#[trigger] metas[i]).last_key),
        0 <= pos,
        pos + index_entries_enc(metas).len() <= b.len(),
        b.subrange(pos, pos + index_entries_enc(metas).len() as int) == index_entries_enc(metas),
    ensures
        index_entries_dec(b, pos, metas.len() as nat) == Some(
            (metas, pos + index_entries_enc(metas).len()),
        ),
    decreases metas.len(),
{
    if metas.len() == 0 {
    } else {
        // peel the first entry off the front: the run encodes as
        // head ++ rest, where head is the first index entry
        let m0 = metas[0];
        let hd = index_entry_enc(m0);
        let kl = key_enc_len(m0.last_key);
        let total = index_entries_enc(metas).len() as int;
        lemma_index_entries_front(metas);
        assert(index_entries_enc(metas) == hd + index_entries_enc(metas.drop_first()));
        assert(b.subrange(pos, pos + hd.len() as int) =~= hd) by {
            assert(forall|j: int|
                0 <= j < hd.len() ==> #[trigger] b.subrange(pos, pos + hd.len() as int)[j]
                    == b.subrange(pos, pos + total)[j]);
        }
        assert(b.subrange(pos, pos + kl) =~= key_enc(m0.last_key)) by {
            assert(forall|j: int|
                0 <= j < kl ==> #[trigger] b.subrange(pos, pos + kl)[j] == b.subrange(
                    pos,
                    pos + hd.len() as int,
                )[j]);
        }
        lemma_key_round_trip(b, pos, m0.last_key);
        crate::codec::lemma_u64_le_round_trip(m0.offset);
        crate::codec::lemma_u32_le_round_trip(m0.size);
        assert(b.subrange(pos + kl, pos + kl + 8) =~= u64_le(m0.offset)) by {
            assert(forall|j: int|
                0 <= j < 8 ==> #[trigger] b.subrange(pos + kl, pos + kl + 8)[j] == b.subrange(
                    pos,
                    pos + hd.len() as int,
                )[j + kl]);
        }
        assert(b.subrange(pos + kl + 8, pos + kl + 12) =~= u32_le(m0.size)) by {
            assert(forall|j: int|
                0 <= j < 4 ==> #[trigger] b.subrange(pos + kl + 8, pos + kl + 12)[j] == b.subrange(
                    pos,
                    pos + hd.len() as int,
                )[j + kl + 8]);
        }
        assert(b.subrange(pos + hd.len() as int, pos + total) =~= index_entries_enc(
            metas.drop_first(),
        )) by {
            assert(forall|j: int|
                0 <= j < total - hd.len() ==> #[trigger] b.subrange(
                    pos + hd.len() as int,
                    pos + total,
                )[j] == b.subrange(pos, pos + total)[j + hd.len()]);
        }
        assert(forall|i: int|
            0 <= i < metas.drop_first().len() ==> #[trigger] metas.drop_first()[i] == metas[i
                + 1]);
        lemma_index_entries_round_trip(b, pos + hd.len() as int, metas.drop_first());
        let dec = index_entries_dec(b, pos, metas.len() as nat);
        assert(dec is Some);
        assert(dec.unwrap().0 =~= metas) by {
            assert(dec.unwrap().0 == seq![
                BlockMetaV {
                    last_key: m0.last_key,
                    offset: m0.offset,
                    size: m0.size,
                },
            ] + metas.drop_first());
            assert((BlockMetaV { last_key: m0.last_key, offset: m0.offset, size: m0.size })
                =~= m0);
        }
    }
}

/// The index-entry run also encodes head-first.
proof fn lemma_index_entries_front(metas: Seq<BlockMetaV>)
    requires
        metas.len() > 0,
    ensures
        index_entries_enc(metas) == index_entry_enc(metas[0]) + index_entries_enc(
            metas.drop_first(),
        ),
    decreases metas.len(),
{
    if metas.len() == 1 {
        assert(metas.drop_last() =~= Seq::<BlockMetaV>::empty());
        assert(metas.drop_first() =~= Seq::<BlockMetaV>::empty());
        assert(metas.last() == metas[0]);
        assert(Seq::<u8>::empty() + index_entry_enc(metas[0]) =~= index_entry_enc(metas[0])
            + Seq::<u8>::empty());
    } else {
        lemma_index_entries_front(metas.drop_last());
        assert(metas.drop_last()[0] == metas[0]);
        assert(metas.drop_last().drop_first() =~= metas.drop_first().drop_last());
        assert(metas.drop_first().last() == metas.last());
        assert((index_entry_enc(metas[0]) + index_entries_enc(metas.drop_first().drop_last()))
            + index_entry_enc(metas.last()) =~= index_entry_enc(metas[0]) + (index_entries_enc(
            metas.drop_first().drop_last(),
        ) + index_entry_enc(metas.last())));
    }
}

/// Appends the index block for `metas` to `buf`.
fn encode_index(buf: &mut Vec<u8>, metas: &Vec<BlockMeta>)
    requires
        forall|i: int| 0 <= i < metas@.len() ==> key_wf((#[trigger] metas@[i])@.last_key),
        metas@.len() <= u32::MAX,
    ensures
        final(buf)@ == old(buf)@ + index_enc(metas@.map_values(|m: BlockMeta| m@)),
{
    let ghost ms = metas@.map_values(|m: BlockMeta| m@);
    push_u32_le(buf, metas.len() as u32);
    let ghost mid = buf@;
    let mut i: usize = 0;
    proof {
        assert(ms.subrange(0, 0) =~= Seq::<BlockMetaV>::empty());
        assert(mid + index_entries_enc(ms.subrange(0, 0)) =~= mid);
    }
    while i < metas.len()
        invariant
            i <= metas@.len(),
            ms == metas@.map_values(|m: BlockMeta| m@),
            ms.len() == metas@.len(),
            forall|j: int| 0 <= j < ms.len() ==> key_wf((#[trigger] ms[j]).last_key),
            buf@ == mid + index_entries_enc(ms.subrange(0, i as int)),
        decreases metas@.len() - i,
    {
        proof {
            assert(metas@[i as int]@ == ms[i as int]);
        }
        metas[i].last_key.encode_into(buf);
        push_u64_le(buf, metas[i].offset);
        push_u32_le(buf, metas[i].size);
        i = i + 1;
        proof {
            lemma_index_entries_enc_snoc(ms, i as int);
            assert(buf@ =~= mid + index_entries_enc(ms.subrange(0, i as int)));
        }
    }
    proof {
        assert(ms.subrange(0, ms.len() as int) =~= ms);
        assert(buf@ =~= old(buf)@ + index_enc(ms));
    }
}

/// Closes a file: appends the index block and the footer to the written
/// data, yielding a complete, well-formed sorted-table file.
#[verifier::rlimit(100)]
pub fn finalize_sstable(data: Vec<u8>, metas: &Vec<BlockMeta>) -> (bytes: Vec<u8>)
    requires
        forall|i: int| 0 <= i < metas@.len() ==> key_wf((#[trigger] metas@[i])@.last_key),
        metas@.len() <= u32::MAX,
        forall|i: int|
            0 <= i < metas@.len() ==> (#[trigger] metas@[i])@.offset + metas@[i]@.size
                <= data@.len(),
    ensures
        sstable_wf(bytes@),
        data_region(bytes@) == data@,
        index_of(bytes@) == metas@.map_values(|m: BlockMeta| m@),
        bytes@ == data@ + index_enc(metas@.map_values(|m: BlockMeta| m@)) + footer_enc(
            (SSTableFooter {
                index_offset: data@.len() as u64,
                index_size: index_enc(metas@.map_values(|m: BlockMeta| m@)).len() as u64,
                reserved1: 0,
                reserved2: 0,
                magic: SSTABLE_MAGIC,
            }),
        ),
{
    let ghost ms = metas@.map_values(|m: BlockMeta| m@);
    let ghost dv = data@;
    let index_offset = data.len();
    let mut bytes = data;
    encode_index(&mut bytes, metas);
    let index_size = bytes.len() - index_offset;
    let footer = SSTableFooter {
        index_offset: index_offset as u64,
        index_size: index_size as u64,
        reserved1: 0,
        reserved2: 0,
        magic: SSTABLE_MAGIC,
    };
    footer.encode_into(&mut bytes);
    proof {
        let b = bytes@;
        let dlen = index_offset as int;
        let ilen = index_enc(ms).len() as int;
        assert(b.len() == dlen + ilen + 32);
        assert(b.subrange(dlen + ilen, b.len() as int) =~= footer_enc(footer));
        lemma_footer_round_trip(b, dlen + ilen, footer);
        assert(footer_dec(b, b.len() - 32) == footer);
        assert(b.subrange(dlen, dlen + ilen) =~= index_enc(ms));
        assert(b.subrange(dlen, dlen + 4) =~= u32_le(ms.len() as u32)) by {
            assert(forall|j: int|
                0 <= j < 4 ==> #[trigger] b.subrange(dlen, dlen + 4)[j] == b.subrange(
                    dlen,
                    dlen + ilen,
                )[j]);
        }
        crate::codec::lemma_u32_le_round_trip(ms.len() as u32);
        assert(b.subrange(dlen + 4, dlen + ilen) =~= index_entries_enc(ms)) by {
            assert(forall|j: int|
                0 <= j < ilen - 4 ==> #[trigger] b.subrange(dlen + 4, dlen + ilen)[j]
                    == b.subrange(dlen, dlen + ilen)[j + 4]);
        }
        lemma_index_entries_round_trip(b, dlen + 4, ms);
        assert(index_dec(b, dlen) == Some((ms, dlen + ilen)));
        assert(sstable_wf(b));
        assert(data_region(b) =~= dv);
    }
    bytes
}

} // verus!
