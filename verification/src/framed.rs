//! The framed log codec shared by the write-ahead log and the manifest.
//!
//! Each frame is a little-endian 32-bit body length followed by that many
//! body bytes.  Reading stops cleanly at the end of the input when it falls
//! on a frame boundary; input that ends inside a frame is an error.

use vstd::prelude::*;

use crate::codec::{push_bytes, push_range, push_u32_le, read_u32_le, u32_from_le, u32_le};
use crate::StoreError;

verus! {

/// The byte encoding of one frame.
pub open spec fn frame_enc(body: Seq<u8>) -> Seq<u8> {
    u32_le(body.len() as u32) + body
}

/// The number of bytes one frame occupies.
pub open spec fn frame_len(body: Seq<u8>) -> int {
    4 + body.len() as int
}

/// Whether a body can be framed: its length must fit the 32-bit prefix and
/// the whole frame must be addressable.
pub open spec fn frame_fits(body: Seq<u8>) -> bool {
    body.len() <= u32::MAX && 4 + body.len() <= usize::MAX
}

/// The byte encoding of a sequence of frames.
pub open spec fn frames_enc(bodies: Seq<Seq<u8>>) -> Seq<u8>
    decreases bodies.len(),
{
    if bodies.len() == 0 {
        Seq::empty()
    } else {
        frame_enc(bodies[0]) + frames_enc(bodies.drop_first())
    }
}

/// Whether every body of a sequence can be framed.
pub open spec fn frames_wf(bodies: Seq<Seq<u8>>) -> bool {
    forall|i: int| 0 <= i < bodies.len() ==> frame_fits(#[trigger] bodies[i])
}

/// The total number of bytes a sequence of frames occupies.
pub open spec fn frames_total_len(bodies: Seq<Seq<u8>>) -> int
    decreases bodies.len(),
{
    if bodies.len() == 0 {
        0
    } else {
        frame_len(bodies[0]) + frames_total_len(bodies.drop_first())
    }
}

/// Decoding one frame at position `pos`: the body and the position just
/// past it, or nothing if the input ends inside the frame.
pub open spec fn frame_dec(b: Seq<u8>, pos: int) -> Option<(Seq<u8>, int)> {
    if pos + 4 > b.len() {
        None
    } else {
        let l = u32_from_le(b.subrange(pos, pos + 4)) as int;
        if pos + 4 + l > b.len() {
            None
        } else {
            Some((b.subrange(pos + 4, pos + 4 + l), pos + 4 + l))
        }
    }
}

/// Decoding all frames from position `pos` to the end of the input, or
/// nothing if the input ends inside a frame.
pub open spec fn frames_dec(b: Seq<u8>, pos: int) -> Option<Seq<Seq<u8>>>
    decreases b.len() - pos,
{
    if pos >= b.len() {
        if pos == b.len() {
            Some(Seq::empty())
        } else {
            None
        }
    } else {
        match frame_dec(b, pos) {
            None => None,
            Some((body, next)) => match frames_dec(b, next) {
                None => None,
                Some(rest) => Some(seq![body] + rest),
            },
        }
    }
}

/// Decoding a stream of encoded frames that reaches exactly to the end of
/// the input restores the bodies.
pub proof fn lemma_frames_round_trip(b: Seq<u8>, pos: int, bodies: Seq<Seq<u8>>)
    requires
        frames_wf(bodies),
        0 <= pos,
        b.len() == pos + frames_enc(bodies).len(),
        b.subrange(pos, b.len() as int) == frames_enc(bodies),
    ensures
        frames_dec(b, pos) == Some(bodies),
    decreases bodies.len(),
{
    reveal_with_fuel(frames_dec, 2);
    if bodies.len() == 0 {
        assert(frames_enc(bodies).len() == 0);
    } else {
        let b0 = bodies[0];
        let e = frames_enc(bodies);
        let l0 = b0.len() as int;
        assert(frame_fits(bodies[0]));
        assert(e == frame_enc(b0) + frames_enc(bodies.drop_first()));
        crate::codec::lemma_u32_le_round_trip(b0.len() as u32);
        assert(b.subrange(pos, pos + 4) =~= u32_le(b0.len() as u32)) by {
            assert(forall|j: int|
                0 <= j < 4 ==> #[trigger] b.subrange(pos, pos + 4)[j] == b.subrange(
                    pos,
                    b.len() as int,
                )[j]);
        }
        assert(u32_from_le(b.subrange(pos, pos + 4)) as int == l0);
        assert(b.subrange(pos + 4, pos + 4 + l0) =~= b0) by {
            assert(forall|j: int|
                0 <= j < l0 ==> #[trigger] b.subrange(pos + 4, pos + 4 + l0)[j] == b.subrange(
                    pos,
                    b.len() as int,
                )[j + 4]);
        }
        assert(frame_dec(b, pos) == Some((b0, pos + 4 + l0)));
        assert(b.subrange(pos + 4 + l0, b.len() as int) =~= frames_enc(bodies.drop_first())) by {
            assert(forall|j: int|
                0 <= j < b.len() - (pos + 4 + l0) ==> #[trigger] b.subrange(
                    pos + 4 + l0,
                    b.len() as int,
                )[j] == b.subrange(pos, b.len() as int)[j + 4 + l0]);
        }
        lemma_frames_round_trip(b, pos + 4 + l0, bodies.drop_first());
        assert(frames_dec(b, pos) == Some(seq![b0] + bodies.drop_first()));
        assert(seq![b0] + bodies.drop_first() =~= bodies);
    }
}

/// A fully decoded input was consumed exactly: the frames account for every
/// byte from `pos` to the end.
pub proof fn lemma_frames_dec_total_len(b: Seq<u8>, pos: int, bodies: Seq<Seq<u8>>)
    requires
        0 <= pos <= b.len(),
        frames_dec(b, pos) == Some(bodies),
    ensures
        frames_total_len(bodies) == b.len() - pos,
        forall|i: int| 0 <= i < bodies.len() ==> (#[trigger] bodies[i]).len() <= u32::MAX,
    decreases b.len() - pos,
{
    if pos == b.len() {
        assert(bodies.len() == 0);
    } else {
        let (body, next) = frame_dec(b, pos).unwrap();
        let rest = frames_dec(b, next).unwrap();
        lemma_frames_dec_total_len(b, next, rest);
        assert(bodies == seq![body] + rest);
        assert(bodies[0] == body);
        assert(bodies.drop_first() =~= rest);
        assert(body.len() <= u32::MAX) by {
            assert(body.len() == u32_from_le(b.subrange(pos, pos + 4)));
        }
        assert(forall|i: int| 0 <= i < bodies.len() ==> (#[trigger] bodies[i]).len() <= u32::MAX)
            by {
            assert(forall|i: int| 1 <= i < bodies.len() ==> bodies[i] == #[trigger] rest[i - 1]);
        }
    }
}

/// Appends one frame holding `body` to `out`.
pub fn write_framed(out: &mut Vec<u8>, body: &Vec<u8>) -> (r: Result<usize, StoreError>)
    ensures
        frame_fits(body@) <==> r is Ok,
        match r {
            Ok(n) => n == frame_len(body@) && final(out)@ == old(out)@ + frame_enc(body@),
            Err(e) => e == StoreError::FrameTooLarge && final(out)@ == old(out)@,
        },
{
    if body.len() as u64 > u32::MAX as u64 || body.len() > usize::MAX - 4 {
        return Err(StoreError::FrameTooLarge);
    }
    push_u32_le(out, body.len() as u32);
    push_bytes(out, body);
    assert(out@ =~= old(out)@ + frame_enc(body@));
    Ok(4 + body.len())
}

/// Reads the frame at position `pos`, returning its body and the position
/// just past it.  At the end of the input, at a frame boundary, the result
/// is `EndOfInput`; an input that ends inside the frame is `TruncatedFrame`.
pub fn read_framed(buf: &[u8], pos: usize) -> (r: Result<(Vec<u8>, usize), StoreError>)
    requires
        pos <= buf@.len(),
    ensures
        match r {
            Ok((body, next)) => frame_dec(buf@, pos as int) == Some((body@, next as int)) && next
                <= buf@.len() && pos < next,
            Err(e) => if pos == buf@.len() {
                e == StoreError::EndOfInput
            } else {
                e == StoreError::TruncatedFrame && frame_dec(buf@, pos as int) is None
            },
        },
{
    if pos == buf.len() {
        return Err(StoreError::EndOfInput);
    }
    if buf.len() - pos < 4 {
        return Err(StoreError::TruncatedFrame);
    }
    let l = read_u32_le(buf, pos) as usize;
    if buf.len() - pos - 4 < l {
        return Err(StoreError::TruncatedFrame);
    }
    let mut body: Vec<u8> = Vec::new();
    push_range(&mut body, buf, pos + 4, pos + 4 + l);
    Ok((body, pos + 4 + l))
}

/// Reads every frame of `buf` to its end, or reports the truncation.
pub fn read_all_framed(buf: &[u8]) -> (r: Result<Vec<Vec<u8>>, StoreError>)
    ensures
        match r {
            Ok(bodies) => frames_dec(buf@, 0) == Some(
                bodies@.map_values(|v: Vec<u8>| v@),
            ),
            Err(e) => frames_dec(buf@, 0) is None && e == StoreError::TruncatedFrame,
        },
{
    let mut res: Vec<Vec<u8>> = Vec::new();
    let mut pos: usize = 0;
    loop
        invariant
            pos <= buf@.len(),
            match frames_dec(buf@, pos as int) {
                Some(rest) => frames_dec(buf@, 0) == Some(
                    res@.map_values(|v: Vec<u8>| v@) + rest,
                ),
                None => frames_dec(buf@, 0) is None,
            },
        decreases buf@.len() - pos,
    {
        let ghost prev = res@.map_values(|v: Vec<u8>| v@);
        match read_framed(buf, pos) {
            Ok((body, next)) => {
                let ghost bv = body@;
                res.push(body);
                proof {
                    assert(res@.map_values(|v: Vec<u8>| v@) =~= prev + seq![bv]);
                    match frames_dec(buf@, next as int) {
                        Some(rest2) => {
                            assert(frames_dec(buf@, pos as int) == Some(seq![bv] + rest2));
                            assert(prev + (seq![bv] + rest2) =~= (prev + seq![bv]) + rest2);
                        },
                        None => {
                            assert(frames_dec(buf@, pos as int) is None);
                        },
                    }
                }
                pos = next;
            },
            Err(e) => {
                if e == StoreError::EndOfInput {
                    proof {
                        assert(frames_dec(buf@, pos as int) == Some(Seq::<Seq<u8>>::empty()));
                        assert(res@.map_values(|v: Vec<u8>| v@) + Seq::<Seq<u8>>::empty()
                            =~= res@.map_values(|v: Vec<u8>| v@));
                    }
                    return Ok(res);
                }
                return Err(StoreError::TruncatedFrame);
            },
        }
    }
}

} // verus!
