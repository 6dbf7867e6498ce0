//! The frame decoder: turns a byte stream into a sequence of validated data
//! blocks.  A frame is a little-endian `u64` length, the masked checksum of
//! the 8 length bytes, the data bytes, and the masked checksum of the data.
//! A clean end of stream is a frame boundary with zero bytes left; anything
//! shorter than a whole frame is a truncation, and a checksum mismatch ends
//! the session because later frame boundaries cannot be trusted.

use vstd::prelude::*;
use vstd::bytes::*;
use vstd::slice::slice_subrange;
use vstd::slice::slice_to_vec;

use crate::checksum::lemma_crc_detects_byte_change;
use crate::checksum::masked_crc32c;
use crate::checksum::masked_of;
use crate::error::ChecksumSite;
use crate::error::DecodeError;

verus! {

/// What one decoding step says of the head of the stream `s`: a clean end
/// (`Ok(None)`), a data block together with the count of bytes its frame
/// occupies (`Ok(Some(..))`), or a terminal error.
pub open spec fn spec_next_frame(s: Seq<u8>) -> Result<Option<(Seq<u8>, int)>, DecodeError> {
    if s.len() == 0 {
        Ok(None)
    } else if s.len() < 8 {
        Err(DecodeError::Truncated)
    } else {
        let len_bytes = s.subrange(0, 8);
        let l = spec_u64_from_le_bytes(len_bytes) as int;
        if s.len() < 12 {
            Err(DecodeError::Truncated)
        } else if spec_u32_from_le_bytes(s.subrange(8, 12)) != masked_of(len_bytes) {
            Err(DecodeError::ChecksumMismatch(ChecksumSite::Length))
        } else if s.len() < 16 + l {
            Err(DecodeError::Truncated)
        } else if spec_u32_from_le_bytes(s.subrange(12 + l, 16 + l))
            != masked_of(s.subrange(12, 12 + l)) {
            Err(DecodeError::ChecksumMismatch(ChecksumSite::Data))
        } else {
            Ok(Some((s.subrange(12, 12 + l), 16 + l)))
        }
    }
}

/// A decoded block is at most its frame's size smaller than the stream, and a
/// frame occupies at least 16 bytes.
pub proof fn lemma_next_frame_bounds(s: Seq<u8>)
    ensures
        spec_next_frame(s) matches Ok(Some((d, n))) ==> 16 <= n <= s.len() && d.len() == n - 16,
{
}

/// All the data blocks of the stream `s`, or the error on which decoding
/// halts.
pub open spec fn spec_frames(s: Seq<u8>) -> Result<Seq<Seq<u8>>, DecodeError>
    decreases s.len(),
{
    match spec_next_frame(s) {
        Err(e) => Err(e),
        Ok(None) => Ok(Seq::empty()),
        Ok(Some((d, n))) => {
            // the guard always holds; it makes the recursion visibly well founded
            if 0 < n <= s.len() {
                match spec_frames(s.skip(n)) {
                    Err(e) => Err(e),
                    Ok(rest) => Ok(seq![d] + rest),
                }
            } else {
                Ok(Seq::empty())
            }
        },
    }
}

/// One decoding step followed by the rest of the stream.
pub proof fn lemma_frames_unfold(s: Seq<u8>, d: Seq<u8>, n: int)
    requires
        spec_next_frame(s) == Ok::<Option<(Seq<u8>, int)>, DecodeError>(Some((d, n))),
    ensures
        16 <= n <= s.len(),
        spec_frames(s) == match spec_frames(s.skip(n)) {
            Ok(rest) => Ok::<Seq<Seq<u8>>, DecodeError>(seq![d] + rest),
            Err(e) => Err::<Seq<Seq<u8>>, DecodeError>(e),
        },
{
    lemma_next_frame_bounds(s);
}

/// The byte encoding of one frame around the data block `d`.
pub open spec fn spec_frame_bytes(d: Seq<u8>) -> Seq<u8>
    recommends
        d.len() <= u64::MAX,
{
    let len_bytes = spec_u64_to_le_bytes(d.len() as u64);
    len_bytes + spec_u32_to_le_bytes(masked_of(len_bytes)) + d
        + spec_u32_to_le_bytes(masked_of(d))
}

/// Encodes one data block as a frame: length, length checksum, data, data
/// checksum.
pub fn encode_frame(data: &[u8]) -> (r: Vec<u8>)
    ensures
        r@ == spec_frame_bytes(data@),
{
    let mut out = u64_to_le_bytes(data.len() as u64);
    let ghost len_bytes = out@;
    let lc = masked_crc32c(out.as_slice());
    let mut lcb = u32_to_le_bytes(lc);
    out.append(&mut lcb);
    let mut dv = slice_to_vec(data);
    out.append(&mut dv);
    let dc = masked_crc32c(data);
    let mut dcb = u32_to_le_bytes(dc);
    out.append(&mut dcb);
    proof {
        assert(out@ =~= len_bytes + spec_u32_to_le_bytes(masked_of(len_bytes)) + data@
            + spec_u32_to_le_bytes(masked_of(data@)));
    }
    out
}

/// The byte encoding of a whole stream of data blocks, one frame each.
pub open spec fn spec_stream_bytes(ds: Seq<Seq<u8>>) -> Seq<u8>
    decreases ds.len(),
{
    if ds.len() == 0 {
        Seq::empty()
    } else {
        spec_frame_bytes(ds[0]) + spec_stream_bytes(ds.skip(1))
    }
}

/// Every block's length fits the frame's 64-bit length field.
pub open spec fn valid_blocks(ds: Seq<Seq<u8>>) -> bool {
    forall|k: int| 0 <= k < ds.len() ==> #[trigger] ds[k].len() <= u64::MAX
}

/// `j` is an offset at which a frame ends and the next one (or the clean end
/// of the stream) begins.
pub open spec fn is_boundary(ds: Seq<Seq<u8>>, j: int) -> bool
    decreases ds.len(),
{
    j == 0 || (ds.len() > 0 && j >= spec_frame_bytes(ds[0]).len()
        && is_boundary(ds.skip(1), j - spec_frame_bytes(ds[0]).len()))
}

/// Round trip, one step: a frame around `d` at the head of a stream decodes
/// to exactly `d` and consumes exactly the frame's bytes.
pub proof fn lemma_frame_round_trip(d: Seq<u8>, rest: Seq<u8>)
    requires
        d.len() <= u64::MAX,
    ensures
        spec_next_frame(spec_frame_bytes(d) + rest)
            == Ok::<Option<(Seq<u8>, int)>, DecodeError>(Some((d, 16 + d.len() as int))),
{
    lemma_auto_spec_u64_to_from_le_bytes();
    lemma_auto_spec_u32_to_from_le_bytes();
    let len_bytes = spec_u64_to_le_bytes(d.len() as u64);
    let lcb = spec_u32_to_le_bytes(masked_of(len_bytes));
    let dcb = spec_u32_to_le_bytes(masked_of(d));
    let l = d.len() as int;
    let s = spec_frame_bytes(d) + rest;
    assert(s.len() == 16 + l + rest.len());
    assert(s.subrange(0, 8) =~= len_bytes);
    assert(spec_u64_from_le_bytes(s.subrange(0, 8)) == d.len() as u64);
    assert(s.subrange(8, 12) =~= lcb);
    assert(spec_u32_from_le_bytes(s.subrange(8, 12)) == masked_of(len_bytes));
    assert(s.subrange(12, 12 + l) =~= d);
    assert(s.subrange(12 + l, 16 + l) =~= dcb);
    assert(spec_u32_from_le_bytes(s.subrange(12 + l, 16 + l)) == masked_of(d));
}

/// Round trip, whole stream: encoding a sequence of data blocks frame by
/// frame and decoding the result yields back exactly those blocks.
pub proof fn lemma_stream_round_trip(ds: Seq<Seq<u8>>)
    requires
        valid_blocks(ds),
    ensures
        spec_frames(spec_stream_bytes(ds)) == Ok::<Seq<Seq<u8>>, DecodeError>(ds),
    decreases ds.len(),
{
    if ds.len() == 0 {
        assert(spec_stream_bytes(ds).len() == 0);
        assert(Seq::<Seq<u8>>::empty() =~= ds);
    } else {
        let s = spec_stream_bytes(ds);
        let n0 = 16 + ds[0].len() as int;
        let tail = spec_stream_bytes(ds.skip(1));
        lemma_auto_spec_u64_to_from_le_bytes();
        lemma_auto_spec_u32_to_from_le_bytes();
        assert(spec_frame_bytes(ds[0]).len() == n0);
        lemma_frame_round_trip(ds[0], tail);
        lemma_frames_unfold(s, ds[0], n0);
        assert(s.skip(n0) =~= tail);
        assert(valid_blocks(ds.skip(1)));
        lemma_stream_round_trip(ds.skip(1));
        assert(seq![ds[0]] + ds.skip(1) =~= ds);
    }
}

/// Round trip, one block: a single encoded frame decodes to the one-block
/// stream holding exactly the data that was encoded.
pub proof fn lemma_round_trip(d: Seq<u8>)
    requires
        d.len() <= u64::MAX,
    ensures
        spec_frames(spec_frame_bytes(d)) == Ok::<Seq<Seq<u8>>, DecodeError>(seq![d]),
{
    lemma_stream_round_trip(seq![d]);
    assert(seq![d].skip(1) =~= Seq::<Seq<u8>>::empty());
    assert(spec_stream_bytes(seq![d])
        == spec_frame_bytes(d) + spec_stream_bytes(Seq::<Seq<u8>>::empty()));
    assert(spec_frame_bytes(d) + Seq::<u8>::empty() =~= spec_frame_bytes(d));
}

proof fn lemma_truncated_frame(d: Seq<u8>, j: int)
    requires
        d.len() <= u64::MAX,
        0 < j < spec_frame_bytes(d).len(),
    ensures
        spec_next_frame(spec_frame_bytes(d).take(j))
            == Err::<Option<(Seq<u8>, int)>, DecodeError>(DecodeError::Truncated),
{
    lemma_auto_spec_u64_to_from_le_bytes();
    lemma_auto_spec_u32_to_from_le_bytes();
    let len_bytes = spec_u64_to_le_bytes(d.len() as u64);
    let lcb = spec_u32_to_le_bytes(masked_of(len_bytes));
    let l = d.len() as int;
    let s = spec_frame_bytes(d);
    let t = s.take(j);
    assert(s.len() == 16 + l);
    assert(t.len() == j);
    if j < 8 {
    } else {
        assert(t.subrange(0, 8) =~= len_bytes);
        assert(spec_u64_from_le_bytes(t.subrange(0, 8)) == d.len() as u64);
        if j >= 12 {
            assert(t.subrange(8, 12) =~= lcb);
            assert(spec_u32_from_le_bytes(t.subrange(8, 12)) == masked_of(len_bytes));
            assert(t.len() < 16 + l);
        }
    }
}

/// A stream of well-formed frames cut at an offset strictly between two
/// frame boundaries decodes to `Truncated`: a partial frame is never yielded
/// as data.
pub proof fn lemma_truncated_stream(ds: Seq<Seq<u8>>, j: int)
    requires
        valid_blocks(ds),
        0 <= j < spec_stream_bytes(ds).len(),
        !is_boundary(ds, j),
    ensures
        spec_frames(spec_stream_bytes(ds).take(j))
            == Err::<Seq<Seq<u8>>, DecodeError>(DecodeError::Truncated),
    decreases ds.len(),
{
    let s = spec_stream_bytes(ds);
    let f0 = spec_frame_bytes(ds[0]);
    let n0 = f0.len() as int;
    let tail = spec_stream_bytes(ds.skip(1));
    lemma_auto_spec_u64_to_from_le_bytes();
    lemma_auto_spec_u32_to_from_le_bytes();
    assert(n0 == 16 + ds[0].len());
    if j < n0 {
        assert(s.take(j) =~= f0.take(j));
        lemma_truncated_frame(ds[0], j);
    } else {
        assert(s.take(j) =~= f0 + tail.take(j - n0));
        lemma_frame_round_trip(ds[0], tail.take(j - n0));
        lemma_frames_unfold(s.take(j), ds[0], n0);
        assert(s.take(j).skip(n0) =~= tail.take(j - n0));
        assert(valid_blocks(ds.skip(1)));
        lemma_truncated_stream(ds.skip(1), j - n0);
    }
}

/// Corrupting one byte of a frame's length-checksum field or of its data
/// field (a single flipped bit included) never passes silently: decoding the
/// corrupted frame fails with a checksum mismatch naming the guilty field.
pub proof fn lemma_corruption_detected(d: Seq<u8>, s2: Seq<u8>, p: int)
    requires
        d.len() <= u64::MAX,
        s2.len() == spec_frame_bytes(d).len(),
        8 <= p < 12 + d.len(),
        s2[p] != spec_frame_bytes(d)[p],
        forall|q: int| 0 <= q < s2.len() && q != p ==> s2[q] == spec_frame_bytes(d)[q],
    ensures
        8 <= p < 12 ==> spec_next_frame(s2) == Err::<Option<(Seq<u8>, int)>, DecodeError>(
            DecodeError::ChecksumMismatch(ChecksumSite::Length)),
        12 <= p ==> spec_next_frame(s2) == Err::<Option<(Seq<u8>, int)>, DecodeError>(
            DecodeError::ChecksumMismatch(ChecksumSite::Data)),
{
    lemma_auto_spec_u64_to_from_le_bytes();
    lemma_auto_spec_u32_to_from_le_bytes();
    let s1 = spec_frame_bytes(d);
    let len_bytes = spec_u64_to_le_bytes(d.len() as u64);
    let lcb = spec_u32_to_le_bytes(masked_of(len_bytes));
    let dcb = spec_u32_to_le_bytes(masked_of(d));
    let l = d.len() as int;
    assert(s1.len() == 16 + l);
    assert(s2.subrange(0, 8) =~= len_bytes);
    assert(spec_u64_from_le_bytes(s2.subrange(0, 8)) == d.len() as u64);
    if p < 12 {
        let c2 = spec_u32_from_le_bytes(s2.subrange(8, 12));
        if c2 == masked_of(len_bytes) {
            assert(s1.subrange(8, 12) =~= lcb);
            assert(spec_u32_to_le_bytes(c2) == s2.subrange(8, 12));
            assert(s2.subrange(8, 12)[p - 8] == s2[p]);
            assert(lcb[p - 8] == s1[p]);
            assert(false);
        }
    } else {
        assert(s2.subrange(8, 12) =~= lcb);
        assert(spec_u32_from_le_bytes(s2.subrange(8, 12)) == masked_of(len_bytes));
        let data2 = s2.subrange(12, 12 + l);
        assert(s1.subrange(12, 12 + l) =~= d);
        assert(data2[p - 12] == s2[p]);
        assert(d[p - 12] == s1[p]);
        assert(forall|k: int| 0 <= k < l && k != p - 12 ==> data2[k] == d[k]);
        lemma_crc_detects_byte_change(d, data2, p - 12);
        assert(s2.subrange(12 + l, 16 + l) =~= dcb);
        assert(spec_u32_from_le_bytes(s2.subrange(12 + l, 16 + l)) == masked_of(d));
    }
}

/// The pull-based cursor over a byte stream: each call of `next_block`
/// produces the next validated data block, a clean end, or a terminal error.
pub struct FrameDecoder {
    bytes: Vec<u8>,
    pos: usize,
}

impl FrameDecoder {
    /// The cursor never stands past the end of the stream.
    pub closed spec fn wf(self) -> bool {
        self.pos <= self.bytes.len()
    }

    /// The bytes not yet consumed.
    pub closed spec fn remaining(self) -> Seq<u8> {
        self.bytes@.skip(self.pos as int)
    }

    /// Starts decoding at the beginning of the stream.
    pub fn new(bytes: Vec<u8>) -> (r: Self)
        ensures
            r.wf(),
            r.remaining() == bytes@,
    {
        let r = FrameDecoder { bytes, pos: 0 };
        proof {
            assert(r.remaining() =~= r.bytes@);
        }
        r
    }

    /// Decodes the next frame.  On success the cursor advances past the
    /// frame; a clean end and every error leave it where it stood.
    pub fn next_block(&mut self) -> (r: Result<Option<Vec<u8>>, DecodeError>)
        requires
            old(self).wf(),
        ensures
            final(self).wf(),
            match spec_next_frame(old(self).remaining()) {
                Ok(None) => (r matches Ok(None))
                    && final(self).remaining() == old(self).remaining(),
                Ok(Some((d, n))) => (r matches Ok(Some(v)) && v@ == d)
                    && final(self).remaining() == old(self).remaining().skip(n),
                Err(e) => (r matches Err(e2) && e2 == e)
                    && final(self).remaining() == old(self).remaining(),
            },
    {
        let ghost rem = self.remaining();
        let pos = self.pos;
        let sl = self.bytes.as_slice();
        let rem_len = sl.len() - pos;
        if rem_len == 0 {
            return Ok(None);
        }
        if rem_len < 12 {
            return Err(DecodeError::Truncated);
        }
        let len_slice = slice_subrange(sl, pos, pos + 8);
        proof {
            assert(len_slice@ =~= rem.subrange(0, 8));
        }
        let l = u64_from_le_bytes(len_slice);
        let lc_slice = slice_subrange(sl, pos + 8, pos + 12);
        proof {
            assert(lc_slice@ =~= rem.subrange(8, 12));
        }
        let stored_lc = u32_from_le_bytes(lc_slice);
        let computed_lc = masked_crc32c(len_slice);
        if stored_lc != computed_lc {
            return Err(DecodeError::ChecksumMismatch(ChecksumSite::Length));
        }
        let avail = rem_len - 12;
        if (avail as u64) < l {
            return Err(DecodeError::Truncated);
        }
        let l_us = l as usize;
        if avail - l_us < 4 {
            return Err(DecodeError::Truncated);
        }
        let data_slice = slice_subrange(sl, pos + 12, pos + 12 + l_us);
        proof {
            assert(data_slice@ =~= rem.subrange(12, 12 + l as int));
        }
        let dc_slice = slice_subrange(sl, pos + 12 + l_us, pos + 16 + l_us);
        proof {
            assert(dc_slice@ =~= rem.subrange(12 + l as int, 16 + l as int));
        }
        let stored_dc = u32_from_le_bytes(dc_slice);
        let computed_dc = masked_crc32c(data_slice);
        if stored_dc != computed_dc {
            return Err(DecodeError::ChecksumMismatch(ChecksumSite::Data));
        }
        let out = slice_to_vec(data_slice);
        self.pos = pos + 16 + l_us;
        proof {
            assert(self.remaining() =~= rem.skip(16 + l as int));
        }
        Ok(Some(out))
    }
}

/// Decodes every frame of `bytes` in order, or reports the error on which
/// decoding halts.
pub fn decode_blocks(bytes: &[u8]) -> (r: Result<Vec<Vec<u8>>, DecodeError>)
    ensures
        match spec_frames(bytes@) {
            Ok(ds) => r matches Ok(v) && v.deep_view() == ds,
            Err(e) => r matches Err(e2) && e2 == e,
        },
{
    let ghost orig = bytes@;
    let mut dec = FrameDecoder::new(slice_to_vec(bytes));
    let mut out: Vec<Vec<u8>> = Vec::new();
    proof {
        assert(out.deep_view() =~= Seq::<Seq<u8>>::empty());
        if let Ok(rest) = spec_frames(orig) {
            assert(Seq::<Seq<u8>>::empty() + rest =~= rest);
        }
    }
    loop
        invariant
            orig == bytes@,
            dec.wf(),
            spec_frames(orig) == match spec_frames(dec.remaining()) {
                Ok(rest) => Ok::<Seq<Seq<u8>>, DecodeError>(out.deep_view() + rest),
                Err(e) => Err::<Seq<Seq<u8>>, DecodeError>(e),
            },
        decreases dec.remaining().len(),
    {
        let ghost rem = dec.remaining();
        let ghost done = out.deep_view();
        match dec.next_block() {
            Ok(None) => {
                proof {
                    assert(spec_frames(rem) == Ok::<Seq<Seq<u8>>, DecodeError>(Seq::empty()));
                    assert(done + Seq::<Seq<u8>>::empty() =~= done);
                }
                return Ok(out);
            },
            Ok(Some(d)) => {
                proof {
                    if let Ok(Some((dd, n))) = spec_next_frame(rem) {
                        lemma_frames_unfold(rem, dd, n);
                    }
                    assert(d.deep_view() =~= d@);
                }
                let ghost dv = d.deep_view();
                out.push(d);
                proof {
                    assert(out.deep_view() =~= done.push(dv));
                    if let Ok(Some((dd, n))) = spec_next_frame(rem) {
                        if let Ok(rest) = spec_frames(rem.skip(n)) {
                            assert(done.push(dv) + rest =~= done + (seq![dd] + rest));
                        }
                    }
                }
            },
            Err(e) => {
                proof {
                    if let Err(se) = spec_next_frame(rem) {
                        assert(spec_frames(rem) == Err::<Seq<Seq<u8>>, DecodeError>(se));
                    }
                }
                return Err(e);
            },
        }
    }
}

} // verus!
