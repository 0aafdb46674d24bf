//! The whole-buffer literal-run codec: a leading-one length header followed
//! by the raw bytes. Its header starts with a one bit, so it can never be
//! confused with a match token, whose leading-zero header starts with a zero.

use vstd::prelude::*;

use crate::head::{lo_encode_spec, lo_head_len, leading_size_spec, Head, HeadType, LeadingOne};

verus! {

/// The serialized form of a literal run: its length as a leading-one head,
/// then the bytes themselves.
pub open spec fn packed_encoding(data: Seq<u8>) -> Seq<u8> {
    lo_encode_spec(data.len() as u64) + data
}

pub struct PackedBits;

impl PackedBits {
    /// How many bytes the serialized run takes: the header plus the payload.
    pub fn measure(data: &[u8]) -> (r: usize)
        requires
            data@.len() + 10 <= usize::MAX,
        ensures
            r == packed_encoding(data@).len(),
            r == leading_size_spec(data@.len() as u64) + data@.len(),
    {
        proof {
            <LeadingOne as HeadType>::lemma_round_trip(data@.len() as u64);
        }
        let byte_count = data.len();
        Head::<LeadingOne>::measure(&(byte_count as u64)) + byte_count
    }

    /// Appends the serialized run and says how many bytes it wrote.
    pub fn compress(data: &[u8], out: &mut Vec<u8>) -> (r: usize)
        requires
            data@.len() + 10 <= usize::MAX,
        ensures
            final(out)@ == old(out)@ + packed_encoding(data@),
            r == packed_encoding(data@).len(),
    {
        proof {
            <LeadingOne as HeadType>::lemma_round_trip(data@.len() as u64);
        }
        let byte_count = data.len();
        let cursor = Head::<LeadingOne>::compress(&(byte_count as u64), out);
        out.extend_from_slice(data);
        cursor + byte_count
    }

    /// A fresh buffer of the length the header at `at` announces, for
    /// `extract` to fill.
    pub fn prepare(buffer: &[u8], at: usize) -> (r: Vec<u8>)
        requires
            at <= buffer@.len(),
            1 <= lo_head_len(buffer@.skip(at as int)) <= 10,
            at + lo_head_len(buffer@.skip(at as int)) <= buffer@.len(),
            <LeadingOne as HeadType>::decode_spec(
                buffer@.subrange(at as int, at + lo_head_len(buffer@.skip(at as int))),
            ) <= usize::MAX,
        ensures
            r@.len() == <LeadingOne as HeadType>::decode_spec(
                buffer@.subrange(at as int, at + lo_head_len(buffer@.skip(at as int))),
            ),
            forall|m: int| 0 <= m < r@.len() ==> r@[m] == 0,
    {
        let mut byte_count: u64 = 0;
        Head::<LeadingOne>::extract(buffer, at, &mut byte_count);
        let r: Vec<u8> = vec![0; byte_count as usize];
        r
    }

    /// Reads the run at `at`: replaces `data` with its payload bytes and
    /// says how many bytes of the buffer the run spanned. The whole run must
    /// lie in the buffer; callers check the header first.
    pub fn extract(buffer: &[u8], at: usize, data: &mut Vec<u8>) -> (r: usize)
        requires
            at <= buffer@.len(),
            1 <= lo_head_len(buffer@.skip(at as int)) <= 10,
            at + lo_head_len(buffer@.skip(at as int)) <= buffer@.len(),
            at + lo_head_len(buffer@.skip(at as int)) + <LeadingOne as HeadType>::decode_spec(
                buffer@.subrange(at as int, at + lo_head_len(buffer@.skip(at as int))),
            ) <= buffer@.len(),
        ensures
            ({
                let h = lo_head_len(buffer@.skip(at as int));
                let len = <LeadingOne as HeadType>::decode_spec(
                    buffer@.subrange(at as int, at + h),
                );
                &&& final(data)@ == buffer@.subrange(at + h, at + h + len)
                &&& r == h + len
            }),
    {
        let blen = buffer.len();
        let mut byte_count: u64 = 0;
        let cursor = Head::<LeadingOne>::extract(buffer, at, &mut byte_count);
        proof {
            assert(byte_count <= blen);
        }
        let len = byte_count as usize;
        let mut payload: Vec<u8> = Vec::new();
        let mut j: usize = 0;
        while j < len
            invariant
                j <= len,
                at + cursor + len <= blen,
                blen == buffer@.len(),
                payload@ =~= buffer@.subrange(at + cursor, at + cursor + j),
            decreases len - j,
        {
            payload.push(buffer[at + cursor + j]);
            proof {
                assert(payload@ =~= buffer@.subrange(at + cursor, at + cursor + j + 1));
            }
            j = j + 1;
        }
        *data = payload;
        cursor + len
    }
}

} // verus!
