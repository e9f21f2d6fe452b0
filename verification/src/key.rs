//! Sequence numbers and internal keys.
//!
//! An internal key pairs an opaque user key with the sequence number of the
//! mutation that wrote it.  Internal keys order ascending by user key and,
//! within one user key, *descending* by sequence number, so that a forward
//! scan meets the freshest version of a user key first.

use vstd::prelude::*;

use crate::codec::{
    clone_bytes, push_bytes, push_range, push_u32_le, push_u64_le, read_u32_le, read_u64_le,
    u32_from_le, u32_le, u64_from_le, u64_le,
};
use crate::StoreError;

verus! {

/// A monotonically increasing 64-bit mutation counter.
#[derive(Debug, Clone, Copy, PartialEq, Eq, Hash, Structural)]
pub struct SeqNo(pub u64);

impl SeqNo {
    /// Returns the current number and advances the counter past it.
    pub fn next(&mut self) -> (cur: SeqNo)
        requires
            old(self).0 < u64::MAX,
        ensures
            cur == *old(self),
            final(self).0 == old(self).0 + 1,
    {
        let cur = SeqNo(self.0);
        self.0 = self.0 + 1;
        cur
    }

    /// Advances the counter by `n` without yielding the numbers in between.
    pub fn skip(&mut self, n: u64)
        requires
            old(self).0 + n <= u64::MAX,
        ensures
            final(self).0 == old(self).0 + n,
    {
        self.0 = self.0 + n;
    }

    /// The raw counter value.
    pub fn get(&self) -> (r: u64)
        ensures
            r == self.0,
    {
        self.0
    }
}

/// The mathematical content of an internal key.
#[verifier::ext_equal]
pub struct KeyV {
    pub user_key: Seq<u8>,
    pub seqno: u64,
}

/// Strict lexicographic order on byte strings, compared as unsigned bytes;
/// a proper prefix sorts before its extensions.
pub open spec fn lex_lt(a: Seq<u8>, b: Seq<u8>) -> bool
    decreases a.len(),
{
    if b.len() == 0 {
        false
    } else if a.len() == 0 {
        true
    } else if a[0] < b[0] {
        true
    } else if a[0] > b[0] {
        false
    } else {
        lex_lt(a.drop_first(), b.drop_first())
    }
}

/// Strict order on internal keys: ascending by user key, then descending by
/// sequence number.
pub open spec fn key_lt(a: KeyV, b: KeyV) -> bool {
    lex_lt(a.user_key, b.user_key) || (a.user_key == b.user_key && a.seqno > b.seqno)
}

pub proof fn lemma_lex_lt_irrefl(a: Seq<u8>)
    ensures
        !lex_lt(a, a),
    decreases a.len(),
{
    if a.len() > 0 {
        lemma_lex_lt_irrefl(a.drop_first());
    }
}

pub proof fn lemma_lex_lt_trans(a: Seq<u8>, b: Seq<u8>, c: Seq<u8>)
    requires
        lex_lt(a, b),
        lex_lt(b, c),
    ensures
        lex_lt(a, c),
    decreases a.len(),
{
    if a.len() > 0 {
        if a[0] == b[0] && b[0] == c[0] {
            lemma_lex_lt_trans(a.drop_first(), b.drop_first(), c.drop_first());
        }
    }
}

/// Any two byte strings are ordered one way, the other way, or equal.
pub proof fn lemma_lex_lt_connected(a: Seq<u8>, b: Seq<u8>)
    ensures
        lex_lt(a, b) || lex_lt(b, a) || a == b,
    decreases a.len(),
{
    if a.len() == 0 && b.len() == 0 {
        assert(a =~= b);
    } else if a.len() > 0 && b.len() > 0 {
        if a[0] == b[0] {
            lemma_lex_lt_connected(a.drop_first(), b.drop_first());
            if !lex_lt(a, b) && !lex_lt(b, a) {
                assert(a.drop_first() == b.drop_first());
                assert(a =~= b) by {
                    assert(a.len() == b.len());
                    assert(forall|j: int|
                        1 <= j < a.len() ==> #[trigger] a[j] == a.drop_first()[j - 1]
                            && #[trigger] b[j] == b.drop_first()[j - 1]);
                }
            }
        }
    }
}

pub proof fn lemma_key_lt_irrefl(a: KeyV)
    ensures
        !key_lt(a, a),
{
    lemma_lex_lt_irrefl(a.user_key);
}

pub proof fn lemma_key_lt_trans(a: KeyV, b: KeyV, c: KeyV)
    requires
        key_lt(a, b),
        key_lt(b, c),
    ensures
        key_lt(a, c),
{
    if lex_lt(a.user_key, b.user_key) && lex_lt(b.user_key, c.user_key) {
        lemma_lex_lt_trans(a.user_key, b.user_key, c.user_key);
    }
}

/// Any two internal keys are ordered one way, the other way, or equal.
pub proof fn lemma_key_lt_connected(a: KeyV, b: KeyV)
    ensures
        key_lt(a, b) || key_lt(b, a) || a == b,
{
    lemma_lex_lt_connected(a.user_key, b.user_key);
    if !key_lt(a, b) && !key_lt(b, a) && a.user_key == b.user_key && a.seqno == b.seqno {
        assert(a =~= b);
    }
}

/// The load-bearing ordering law of the store: `(u1, s1)` sorts strictly
/// before `(u2, s2)` exactly when `u1` is lexicographically below `u2`, or
/// the user keys agree and `s1` is the *larger* sequence number.  The order
/// is a strict total order.
pub proof fn lemma_internal_key_order(u1: Seq<u8>, s1: u64, u2: Seq<u8>, s2: u64)
    ensures
        key_lt(KeyV { user_key: u1, seqno: s1 }, KeyV { user_key: u2, seqno: s2 }) <==> (lex_lt(
            u1,
            u2,
        ) || (u1 == u2 && s1 > s2)),
        !key_lt(KeyV { user_key: u1, seqno: s1 }, KeyV { user_key: u1, seqno: s1 }),
        key_lt(KeyV { user_key: u1, seqno: s1 }, KeyV { user_key: u2, seqno: s2 }) || key_lt(
            KeyV { user_key: u2, seqno: s2 },
            KeyV { user_key: u1, seqno: s1 },
        ) || (u1 == u2 && s1 == s2),
{
    lemma_key_lt_irrefl(KeyV { user_key: u1, seqno: s1 });
    lemma_key_lt_connected(KeyV { user_key: u1, seqno: s1 }, KeyV { user_key: u2, seqno: s2 });
}

/// If two byte strings agree on their first `i` bytes, their order is the
/// order of their tails from position `i` on.
pub proof fn lemma_lex_lt_skip(a: Seq<u8>, b: Seq<u8>, i: int)
    requires
        0 <= i <= a.len(),
        i <= b.len(),
        forall|j: int| 0 <= j < i ==> a[j] == b[j],
    ensures
        lex_lt(a, b) == lex_lt(a.skip(i), b.skip(i)),
    decreases i,
{
    if i == 0 {
        assert(a.skip(0) =~= a);
        assert(b.skip(0) =~= b);
    } else {
        assert(a[0] == b[0]);
        let a1 = a.drop_first();
        let b1 = b.drop_first();
        assert(forall|j: int| 0 <= j < i - 1 ==> #[trigger] a1[j] == b1[j]) by {
            assert(forall|j: int|
                0 <= j < i - 1 ==> #[trigger] a1[j] == a[j + 1] && #[trigger] b1[j] == b[j + 1]);
        }
        lemma_lex_lt_skip(a1, b1, i - 1);
        assert(a1.skip(i - 1) =~= a.skip(i));
        assert(b1.skip(i - 1) =~= b.skip(i));
    }
}

/// An internal key: a user key together with the sequence number of the
/// mutation that produced this version of it.
#[derive(Debug)]
pub struct Key {
    user_key: Vec<u8>,
    seqno: SeqNo,
}

impl View for Key {
    type V = KeyV;

    closed spec fn view(&self) -> KeyV {
        KeyV { user_key: self.user_key@, seqno: self.seqno.0 }
    }
}

/// A key is encodable when its user key fits the 32-bit length prefix of the
/// on-disk formats.
pub open spec fn key_wf(k: KeyV) -> bool {
    k.user_key.len() <= u32::MAX
}

/// The byte encoding of an internal key: 32-bit user-key length, the user
/// key, then the raw 64-bit sequence number, all little-endian.
pub open spec fn key_enc(k: KeyV) -> Seq<u8> {
    u32_le(k.user_key.len() as u32) + k.user_key + u64_le(k.seqno)
}

pub open spec fn key_enc_len(k: KeyV) -> int {
    12 + k.user_key.len() as int
}

/// Decoding an internal key at position `pos`: the decoded key and the
/// position just past it, or nothing if the bytes do not reach.
pub open spec fn key_dec(b: Seq<u8>, pos: int) -> Option<(KeyV, int)> {
    if pos + 4 > b.len() {
        None
    } else {
        let klen = u32_from_le(b.subrange(pos, pos + 4)) as int;
        if pos + 4 + klen + 8 > b.len() {
            None
        } else {
            Some(
                (
                    KeyV {
                        user_key: b.subrange(pos + 4, pos + 4 + klen),
                        seqno: u64_from_le(b.subrange(pos + 4 + klen, pos + 4 + klen + 8)),
                    },
                    pos + 4 + klen + 8,
                ),
            )
        }
    }
}

/// Decoding an encoded key out of any surrounding buffer restores the key.
pub proof fn lemma_key_round_trip(b: Seq<u8>, pos: int, k: KeyV)
    requires
        key_wf(k),
        0 <= pos,
        pos + key_enc_len(k) <= b.len(),
        b.subrange(pos, pos + key_enc_len(k)) == key_enc(k),
    ensures
        key_dec(b, pos) == Some((k, pos + key_enc_len(k))),
{
    let e = key_enc(k);
    let klen = k.user_key.len() as int;
    crate::codec::lemma_u32_le_round_trip(k.user_key.len() as u32);
    crate::codec::lemma_u64_le_round_trip(k.seqno);
    assert(b.subrange(pos, pos + 4) =~= e.subrange(0, 4));
    assert(e.subrange(0, 4) =~= u32_le(k.user_key.len() as u32));
    assert(u32_from_le(b.subrange(pos, pos + 4)) as int == klen);
    assert(b.subrange(pos + 4, pos + 4 + klen) =~= e.subrange(4, 4 + klen));
    assert(e.subrange(4, 4 + klen) =~= k.user_key);
    assert(b.subrange(pos + 4 + klen, pos + 4 + klen + 8) =~= e.subrange(4 + klen, 12 + klen));
    assert(e.subrange(4 + klen, 12 + klen) =~= u64_le(k.seqno));
    let d = key_dec(b, pos);
    assert(d is Some);
    assert(d.unwrap().0 =~= k);
}

impl Key {
    pub fn new(user_key: Vec<u8>, seqno: SeqNo) -> (k: Key)
        ensures
            k@ == (KeyV { user_key: user_key@, seqno: seqno.0 }),
    {
        Key { user_key, seqno }
    }

    /// The key that sorts before every version of `user_key`.
    pub fn min_seqno(user_key: Vec<u8>) -> (k: Key)
        ensures
            k@ == (KeyV { user_key: user_key@, seqno: u64::MAX }),
    {
        Key { user_key, seqno: SeqNo(u64::MAX) }
    }

    /// The key that sorts after every version of `user_key`.
    pub fn max_seqno(user_key: Vec<u8>) -> (k: Key)
        ensures
            k@ == (KeyV { user_key: user_key@, seqno: 0 }),
    {
        Key { user_key, seqno: SeqNo(0) }
    }

    /// The inclusive bounds that every version of `user_key` sorts
    /// between: the highest sequence number first, the lowest last.
    pub fn range_by_user_key(user_key: Vec<u8>) -> (r: (Key, Key))
        ensures
            r.0@ == (KeyV { user_key: user_key@, seqno: u64::MAX }),
            r.1@ == (KeyV { user_key: user_key@, seqno: 0 }),
    {
        let lo = Key::min_seqno(clone_bytes(&user_key));
        let hi = Key::max_seqno(user_key);
        (lo, hi)
    }

    /// The same user key under another sequence number.
    pub fn with_seqno(&self, seqno: SeqNo) -> (k: Key)
        ensures
            k@ == (KeyV { user_key: self@.user_key, seqno: seqno.0 }),
    {
        Key { user_key: clone_bytes(&self.user_key), seqno }
    }

    pub fn user_key(&self) -> (r: &Vec<u8>)
        ensures
            r@ == self@.user_key,
    {
        &self.user_key
    }

    pub fn seqno(&self) -> (r: SeqNo)
        ensures
            r.0 == self@.seqno,
    {
        self.seqno
    }

    /// A fresh key with the same contents.
    pub fn duplicate(&self) -> (k: Key)
        ensures
            k@ == self@,
    {
        Key { user_key: clone_bytes(&self.user_key), seqno: self.seqno }
    }

    /// The length of this key's byte encoding.
    pub fn encoded_len(&self) -> (r: usize)
        requires
            self@.user_key.len() + 12 <= usize::MAX,
        ensures
            r == key_enc_len(self@),
    {
        4 + self.user_key.len() + 8
    }

    /// Appends the byte encoding of this key to `buf`.
    pub fn encode_into(&self, buf: &mut Vec<u8>)
        requires
            key_wf(self@),
        ensures
            final(buf)@ == old(buf)@ + key_enc(self@),
    {
        push_u32_le(buf, self.user_key.len() as u32);
        push_bytes(buf, &self.user_key);
        push_u64_le(buf, self.seqno.0);
        assert(buf@ =~= old(buf)@ + key_enc(self@));
    }

    /// The byte encoding of this key as a fresh vector.
    pub fn encode_to_bytes(&self) -> (r: Vec<u8>)
        requires
            key_wf(self@),
        ensures
            r@ == key_enc(self@),
    {
        let mut buf: Vec<u8> = Vec::new();
        self.encode_into(&mut buf);
        buf
    }

    /// Decodes an internal key at position `pos` of `buf`, returning the key
    /// and the position just past it.
    pub fn decode_from(buf: &[u8], pos: usize) -> (r: Result<(Key, usize), StoreError>)
        requires
            pos <= buf@.len(),
        ensures
            match r {
                Ok((k, next)) => key_dec(buf@, pos as int) == Some((k@, next as int)) && next
                    <= buf@.len(),
                Err(e) => key_dec(buf@, pos as int) is None && e == StoreError::CorruptRecord,
            },
    {
        if buf.len() - pos < 4 {
            return Err(StoreError::CorruptRecord);
        }
        let klen = read_u32_le(buf, pos) as usize;
        if buf.len() - pos - 4 < 8 || buf.len() - pos - 4 - 8 < klen {
            return Err(StoreError::CorruptRecord);
        }
        let mut user_key: Vec<u8> = Vec::new();
        push_range(&mut user_key, buf, pos + 4, pos + 4 + klen);
        let seqno = read_u64_le(buf, pos + 4 + klen);
        assert(buf@.subrange(pos + 4 + klen, pos + 4 + klen + 8) =~= buf@.subrange(
            pos + 4 + klen,
            pos as int + 4 + klen as int + 8,
        ));
        Ok((Key { user_key, seqno: SeqNo(seqno) }, pos + 4 + klen + 8))
    }

    /// Whether `self` sorts strictly before `other` in internal-key order.
    pub fn lt(&self, other: &Key) -> (r: bool)
        ensures
            r == key_lt(self@, other@),
    {
        let a = &self.user_key;
        let b = &other.user_key;
        let n = if a.len() < b.len() {
            a.len()
        } else {
            b.len()
        };
        let mut i: usize = 0;
        while i < n
            invariant
                a@ == self@.user_key,
                b@ == other@.user_key,
                n == if a@.len() < b@.len() {
                    a@.len()
                } else {
                    b@.len()
                },
                i <= n,
                forall|j: int| 0 <= j < i ==> #[trigger] a@[j] == b@[j],
            decreases n - i,
        {
            if a[i] < b[i] {
                proof {
                    lemma_lex_lt_skip(a@, b@, i as int);
                    assert(a@.skip(i as int)[0] == a@[i as int]);
                    assert(b@.skip(i as int)[0] == b@[i as int]);
                    assert(lex_lt(a@.skip(i as int), b@.skip(i as int)));
                }
                return true;
            }
            if a[i] > b[i] {
                proof {
                    lemma_lex_lt_skip(a@, b@, i as int);
                    assert(a@.skip(i as int)[0] == a@[i as int]);
                    assert(b@.skip(i as int)[0] == b@[i as int]);
                    assert(!lex_lt(a@.skip(i as int), b@.skip(i as int)));
                    assert(a@[i as int] != b@[i as int]);
                    assert(a@ != b@);
                }
                return false;
            }
            i = i + 1;
        }
        proof {
            lemma_lex_lt_skip(a@, b@, n as int);
            assert(a@.skip(n as int).len() == a@.len() - n);
            assert(b@.skip(n as int).len() == b@.len() - n);
        }
        if a.len() < b.len() {
            proof {
                assert(lex_lt(a@.skip(n as int), b@.skip(n as int)));
            }
            return true;
        }
        if a.len() > b.len() {
            proof {
                assert(!lex_lt(a@.skip(n as int), b@.skip(n as int)));
                assert(a@.len() != b@.len());
                assert(a@ != b@);
            }
            return false;
        }
        proof {
            assert(a@ =~= b@);
            assert(!lex_lt(a@.skip(n as int), b@.skip(n as int)));
        }
        self.seqno.0 > other.seqno.0
    }

    /// Whether `self` and `other` are the same internal key.
    pub fn key_eq(&self, other: &Key) -> (r: bool)
        ensures
            r == (self@ == other@),
    {
        if self.seqno.0 != other.seqno.0 {
            return false;
        }
        let r = crate::codec::bytes_eq(&self.user_key, &other.user_key);
        proof {
            if r {
                assert(self@ =~= other@);
            }
        }
        r
    }
}

} // verus!
