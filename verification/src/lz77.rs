//! The LZ77 codecs. A stream is a concatenation of literal-run frames and
//! match frames. In the head discipline a literal frame is a leading-one
//! length header and its bytes, a match frame two leading-zero heads giving
//! distance and count: the first bit of a frame tells the two apart. The
//! decompressor rebuilds the output by appending literal bytes and copying
//! match spans from what it has already written, byte by byte, so a span may
//! overlap its own output.

use vstd::prelude::*;

use crate::head::{
    lo_head_len, lz_head_len, take_lo, take_lz, Head, HeadType, LeadingOne, LeadingZero,
};
use crate::match_layout::{match_encoding, Match, MatchLayout, MatchLayoutTrait};
use crate::packed_bits::{packed_encoding, PackedBits};
use crate::suffix_array::{bucket_seq, in_domain, U8Bucket};
use crate::suffix_reference::SuffixReference;

verus! {

/// Why extraction gave up: the stream is not a whole, well-formed
/// concatenation of frames — a truncated head or payload, a distance of
/// zero or past the output written so far, or a length the output could
/// not hold.
#[derive(Clone, Copy, Debug, PartialEq, Eq, Structural)]
pub enum ExtractError {
    MalformedStream,
}

/// The bytes a match token adds: `count` bytes copied one by one from
/// `left` before the end of the history `hist`, each copy allowed to read
/// what an earlier copy of the same token wrote.
pub open spec fn expand(hist: Seq<u8>, left: int, count: int) -> Seq<u8>
    decreases count,
{
    if count <= 0 {
        Seq::empty()
    } else {
        let prev = expand(hist, left, count - 1);
        prev.push((hist + prev)[hist.len() - left + count - 1])
    }
}

/// A match token adds exactly `count` bytes.
pub proof fn lemma_expand_len(hist: Seq<u8>, left: int, count: int)
    ensures
        expand(hist, left, count).len() == (if count <= 0 { 0int } else { count }),
    decreases count,
{
    if count > 0 {
        lemma_expand_len(hist, left, count - 1);
    }
}

/// Where the text already repeats itself, the copy reproduces it: if the
/// `count` bytes at `i` equal those `left` earlier, expanding over the text
/// before `i` yields exactly the text at `i`.
pub proof fn lemma_expand_window(s: Seq<u8>, i: int, left: int, count: int)
    requires
        0 < left <= i,
        0 <= count,
        i + count <= s.len(),
        forall|k: int| 0 <= k < count ==> #[trigger] s[i - left + k] == s[i + k],
    ensures
        expand(s.take(i), left, count) == s.subrange(i, i + count),
    decreases count,
{
    if count == 0 {
        assert(expand(s.take(i), left, 0) =~= s.subrange(i, i));
    } else {
        lemma_expand_window(s, i, left, count - 1);
        let hist = s.take(i);
        let prev = expand(hist, left, count - 1);
        assert(hist + prev =~= s.take(i + count - 1));
        assert((hist + prev)[i - left + count - 1] == s[i - left + count - 1]);
        assert(s[i - left + count - 1] == s[i + count - 1]);
        assert(prev.push(s[i + count - 1]) =~= s.subrange(i, i + count));
    }
}

/// What a head-discipline stream decodes to, on top of the output `acc`
/// written so far: nothing more when it ends; otherwise one frame, told by
/// its first bit, and the rest on top of the grown output. A truncated head
/// or payload, a distance of zero or past the output, or a count the output
/// cannot hold is malformed.
pub open spec fn decode_frames(stream: Seq<u8>, acc: Seq<u8>) -> Option<Seq<u8>>
    decreases stream.len(),
{
    if stream.len() == 0 {
        Some(acc)
    } else if stream[0] < 0x80 {
        match take_lz(stream) {
            None => None,
            Some(first) => match take_lz(stream.skip(first.1)) {
                None => None,
                Some(second) => {
                    let left = first.0;
                    let count = second.0;
                    if left < 1 || left > acc.len() || count > usize::MAX - acc.len() {
                        None
                    } else if first.1 + second.1 > stream.len() {
                        None
                    } else {
                        decode_frames(
                            stream.skip(first.1 + second.1),
                            acc + expand(acc, left, count),
                        )
                    }
                },
            },
        }
    } else {
        match take_lo(stream) {
            None => None,
            Some(first) => {
                let len = first.0;
                if len < 0 || stream.len() < first.1 + len {
                    None
                } else {
                    decode_frames(stream.skip(first.1 + len), acc + stream.subrange(first.1, first.1 + len))
                }
            },
        }
    }
}

/// A head's announced length, read from a prefix where it comes to an end,
/// is the same over any continuation.
proof fn lemma_lz_head_len_extend(a: Seq<u8>, b: Seq<u8>)
    requires
        lz_head_len(a) < 8 * a.len(),
    ensures
        lz_head_len(a + b) == lz_head_len(a),
    decreases a.len(),
{
    assert((a + b)[0] == a[0]);
    if crate::head::lz8(a[0]) == 8 {
        assert((a + b).skip(1) =~= a.skip(1) + b);
        lemma_lz_head_len_extend(a.skip(1), b);
    }
}

/// As above, for leading-one heads.
proof fn lemma_lo_head_len_extend(a: Seq<u8>, b: Seq<u8>)
    requires
        lo_head_len(a) < 8 * a.len(),
    ensures
        lo_head_len(a + b) == lo_head_len(a),
    decreases a.len(),
{
    assert((a + b)[0] == a[0]);
    if crate::head::lo8(a[0]) == 8 {
        assert((a + b).skip(1) =~= a.skip(1) + b);
        lemma_lo_head_len_extend(a.skip(1), b);
    }
}

/// Prepending a literal frame to a stream appends its payload to the
/// output: the frame decodes first, the rest goes on from there.
pub proof fn lemma_decode_literal(payload: Seq<u8>, rest: Seq<u8>, acc: Seq<u8>)
    requires
        payload.len() <= usize::MAX,
    ensures
        decode_frames(packed_encoding(payload) + rest, acc) == decode_frames(
            rest,
            acc + payload,
        ),
{
    let len = payload.len() as u64;
    <LeadingOne as HeadType>::lemma_round_trip(len);
    let e = crate::head::lo_encode_spec(len);
    let h = e.len() as int;
    let s = packed_encoding(payload) + rest;
    assert(s =~= e + (payload + rest));
    assert(s[0] == e[0]);
    assert(lo_head_len(e) == h);
    lemma_lo_head_len_extend(e, payload + rest);
    assert(lo_head_len(s) == h);
    assert(s[0] >= 0x80) by {
        if crate::head::lo8(s[0]) == 0 {
            assert(lo_head_len(e) == 0);
        }
    }
    assert(s.subrange(0, h) =~= e);
    assert(take_lo(s) == Some((len as int, h)));
    assert(s.len() >= h + len);
    assert(s.subrange(h, h + len) =~= payload);
    assert(s.skip(h + len) =~= rest);
}

/// Prepending a match frame to a stream appends its expansion to the
/// output, as above.
pub proof fn lemma_decode_match(left: int, count: int, rest: Seq<u8>, acc: Seq<u8>)
    requires
        1 <= left <= acc.len(),
        0 <= count <= usize::MAX - acc.len(),
        left <= usize::MAX,
        acc.len() <= usize::MAX,
    ensures
        decode_frames(match_encoding(left, count) + rest, acc) == decode_frames(
            rest,
            acc + expand(acc, left, count),
        ),
{
    <LeadingZero as HeadType>::lemma_round_trip(left as u64);
    <LeadingZero as HeadType>::lemma_round_trip(count as u64);
    let e1 = crate::head::lz_encode_spec(left as u64);
    let e2 = crate::head::lz_encode_spec(count as u64);
    let h1 = e1.len() as int;
    let h2 = e2.len() as int;
    let s = match_encoding(left, count) + rest;
    assert(s =~= e1 + (e2 + rest));
    assert(s[0] == e1[0]);
    lemma_lz_head_len_extend(e1, e2 + rest);
    assert(lz_head_len(s) == h1);
    assert(s[0] < 0x80) by {
        if crate::head::lz8(s[0]) == 0 {
            assert(lz_head_len(e1) == 0);
        }
    }
    assert(s.subrange(0, h1) =~= e1);
    assert(take_lz(s) == Some((left, h1)));
    let t = s.skip(h1);
    assert(t =~= e2 + rest);
    assert(t[0] == e2[0]);
    lemma_lz_head_len_extend(e2, rest);
    assert(lz_head_len(t) == h2);
    assert(t.subrange(0, h2) =~= e2);
    assert(take_lz(t) == Some((count, h2)));
    assert(s.skip(h1 + h2) =~= rest);
}

/// The stream discriminator: in the head discipline every literal frame
/// opens with a one bit and every match frame with a zero bit, so the first
/// bit of a frame settles its kind. (In the two-byte token discipline the
/// rule is the mirror image: a literal header is the length less one, at
/// most 127, and `MatchLayoutTrait::write` promises a set top bit.)
pub proof fn lemma_frame_discriminator(payload: Seq<u8>, left: int, count: int)
    requires
        payload.len() <= usize::MAX,
        0 <= left <= usize::MAX,
        0 <= count <= usize::MAX,
    ensures
        packed_encoding(payload)[0] >= 0x80,
        match_encoding(left, count)[0] < 0x80,
{
    <LeadingOne as HeadType>::lemma_round_trip(payload.len() as u64);
    let e = crate::head::lo_encode_spec(payload.len() as u64);
    assert(packed_encoding(payload)[0] == e[0]);
    if crate::head::lo8(e[0]) == 0 {
        assert(lo_head_len(e) == 0);
    }
    <LeadingZero as HeadType>::lemma_round_trip(left as u64);
    let f = crate::head::lz_encode_spec(left as u64);
    assert(match_encoding(left, count)[0] == f[0]);
    if crate::head::lz8(f[0]) == 0 {
        assert(lz_head_len(f) == 0);
    }
}

pub struct LZ77;

impl LZ77 {
    /// Compresses `data` into a head-discipline stream: a single pass with
    /// the back-reference index; at each position, the precomputed best
    /// prior match is taken when its token plus the pending literal costs
    /// less than packing the whole span as a literal. What comes out decodes
    /// to `data` exactly; an empty input gives an empty stream; and a match
    /// frame is emitted only where a back reference exists: an input of
    /// pairwise distinct elements comes out as one literal frame.
    #[verifier::rlimit(100)]
    pub fn compress(data: &[u8]) -> (out: Vec<u8>)
        requires
            data@.len() + 40 <= usize::MAX,
        ensures
            decode_frames(out@, Seq::empty()) == Some(data@),
            data@.len() == 0 ==> out@.len() == 0,
            pairwise_distinct(data@) && data@.len() > 0 ==> out@ == packed_encoding(data@),
    {
        let n = data.len();
        proof {
            assert(in_domain(U8Bucket, data@));
        }
        let suffix = SuffixReference::from_data(data, &U8Bucket);
        let ghost text = bucket_seq(U8Bucket, data@);

        let mut out: Vec<u8> = Vec::new();
        let mut head: usize = 0;
        let mut index: usize = 0;
        proof {
            assert forall|r: Seq<u8>| #[trigger] decode_frames(out@ + r, Seq::empty())
                == decode_frames(r, data@.take(head as int)) by {
                assert(out@ + r =~= r);
                assert(data@.take(0) =~= Seq::empty());
            }
        }
        while index < n
            invariant
                head <= index <= n,
                n == data@.len(),
                n + 40 <= usize::MAX,
                suffix.wf(),
                suffix.text_spec() == text,
                suffix.len_spec() == n,
                text == bucket_seq(U8Bucket, data@),
                head == 0 ==> out@.len() == 0,
                pairwise_distinct(data@) ==> head == 0,
                forall|r: Seq<u8>| #[trigger] decode_frames(out@ + r, Seq::empty())
                    == decode_frames(r, data@.take(head as int)),
            decreases n - index,
        {
            let backed = suffix.back(index);
            let mut step: usize = 1;
            if let Some(back) = backed {
                let match_ = Match { left: index - back.index, count: back.lcp };
                let m_stop = index + match_.count;

                let m_size = MatchLayout::measure(&match_);
                let mp_size = if head < index {
                    PackedBits::measure(&data[head..index])
                } else {
                    0
                };
                let p_size = PackedBits::measure(&data[head..m_stop]);

                if m_size + mp_size < p_size {
                    proof {
                        if pairwise_distinct(data@) {
                            assert(text[back.index + 0] == text[index + 0]);
                            assert(text[back.index as int] == data@[back.index as int]);
                            assert(text[index as int] == data@[index as int]);
                            assert(data@[back.index as int] == data@[index as int]);
                            assert(false);
                        }
                    }
                    let ghost out0 = out@;
                    let ghost lit = data@.subrange(head as int, index as int);
                    if head < index {
                        PackedBits::compress(&data[head..index], &mut out);
                    }
                    let ghost out1 = out@;
                    MatchLayout::compress(&match_, &mut out);
                    proof {
                        let acc0 = data@.take(head as int);
                        let acc1 = data@.take(index as int);
                        let acc2 = data@.take(m_stop as int);
                        let f2 = match_encoding(match_.left as int, match_.count as int);
                        assert(acc1 =~= acc0 + lit);
                        assert forall|k: int| 0 <= k < match_.count implies #[trigger] data@[
                            index - match_.left + k] == data@[index + k] by {
                            assert(text[back.index + k] == text[index + k]);
                        }
                        lemma_expand_window(data@, index as int, match_.left as int, match_.count as int);
                        assert(acc2 =~= acc1 + expand(acc1, match_.left as int, match_.count as int));
                        assert forall|r: Seq<u8>| #[trigger] decode_frames(out@ + r, Seq::empty())
                            == decode_frames(r, data@.take(m_stop as int)) by {
                            if head < index {
                                assert(out1 =~= out0 + packed_encoding(lit));
                                assert(out@ =~= out1 + f2);
                                assert(out@ + r =~= out0 + (packed_encoding(lit) + (f2 + r)));
                                assert(decode_frames(out@ + r, Seq::empty()) == decode_frames(
                                    packed_encoding(lit) + (f2 + r),
                                    acc0,
                                ));
                                lemma_decode_literal(lit, f2 + r, acc0);
                                lemma_decode_match(
                                    match_.left as int,
                                    match_.count as int,
                                    r,
                                    acc1,
                                );
                            } else {
                                assert(lit =~= Seq::<u8>::empty());
                                assert(acc1 =~= acc0);
                                assert(out@ =~= out0 + f2);
                                assert(out@ + r =~= out0 + (f2 + r));
                                assert(decode_frames(out@ + r, Seq::empty()) == decode_frames(
                                    f2 + r,
                                    acc0,
                                ));
                                lemma_decode_match(
                                    match_.left as int,
                                    match_.count as int,
                                    r,
                                    acc1,
                                );
                            }
                        }
                    }
                    head = m_stop;
                    step = match_.count;
                }
            }
            index = index + step;
        }

        if head < n {
            let ghost out0 = out@;
            let ghost lit = data@.subrange(head as int, n as int);
            PackedBits::compress(&data[head..n], &mut out);
            proof {
                let acc0 = data@.take(head as int);
                assert forall|r: Seq<u8>| #[trigger] decode_frames(out@ + r, Seq::empty())
                    == decode_frames(r, data@.take(n as int)) by {
                    assert(out@ + r =~= out0 + (packed_encoding(lit) + r));
                    assert(decode_frames(out@ + r, Seq::empty()) == decode_frames(
                        packed_encoding(lit) + r,
                        acc0,
                    ));
                    lemma_decode_literal(lit, r, acc0);
                    assert(acc0 + lit =~= data@.take(n as int));
                }
            }
            head = n;
        }

        proof {
            assert(out@ + Seq::<u8>::empty() =~= out@);
            assert(decode_frames(out@ + Seq::<u8>::empty(), Seq::empty()) == decode_frames(
                Seq::<u8>::empty(),
                data@.take(n as int),
            ));
            assert(data@.take(n as int) =~= data@);
        }
        out
    }

    /// Decompresses a head-discipline stream: frame by frame, literal bytes
    /// are appended and match spans copied byte by byte from the output so
    /// far. A malformed stream — a truncated head or payload, a distance of
    /// zero or past the output, or a count the output could not hold — is
    /// reported, never followed.
    #[verifier::rlimit(100)]
    pub fn extract(buffer: &[u8]) -> (r: Result<Vec<u8>, ExtractError>)
        ensures
            match r {
                Ok(v) => decode_frames(buffer@, Seq::empty()) == Some(v@),
                Err(_) => decode_frames(buffer@, Seq::empty()) is None,
            },
    {
        let n = buffer.len();
        let mut memory: Vec<u8> = Vec::new();
        let mut head: usize = 0;
        proof {
            assert(buffer@.skip(0) =~= buffer@);
        }
        while head < n
            invariant
                head <= n,
                n == buffer@.len(),
                decode_frames(buffer@, Seq::empty()) == decode_frames(
                    buffer@.skip(head as int),
                    memory@,
                ),
            decreases n - head,
        {
            let ghost stream = buffer@.skip(head as int);
            proof {
                assert(stream[0] == buffer@[head as int]);
            }
            if MatchLayout::check(buffer, head) {
                // A match frame: two leading-zero heads.
                let h1 = <LeadingZero as HeadType>::count(buffer, head);
                if h1 < 1 || h1 > 10 || h1 > n - head {
                    proof {
                        assert(take_lz(stream) is None);
                    }
                    return Err(ExtractError::MalformedStream);
                }
                let mut left64: u64 = 0;
                let s1 = Head::<LeadingZero>::extract(buffer, head, &mut left64);
                proof {
                    assert(stream.subrange(0, s1 as int) =~= buffer@.subrange(
                        head as int,
                        head + s1,
                    ));
                    assert(take_lz(stream) == Some((left64 as int, s1 as int)));
                }
                let at2 = head + s1;
                let ghost stream2 = buffer@.skip(at2 as int);
                proof {
                    assert(stream2 =~= stream.skip(s1 as int));
                }
                let h2 = <LeadingZero as HeadType>::count(buffer, at2);
                if h2 < 1 || h2 > 10 || h2 > n - at2 {
                    proof {
                        assert(take_lz(stream2) is None);
                    }
                    return Err(ExtractError::MalformedStream);
                }
                let mut count64: u64 = 0;
                let s2 = Head::<LeadingZero>::extract(buffer, at2, &mut count64);
                proof {
                    assert(stream2.subrange(0, s2 as int) =~= buffer@.subrange(
                        at2 as int,
                        at2 + s2,
                    ));
                    assert(take_lz(stream2) == Some((count64 as int, s2 as int)));
                }
                if left64 == 0 || left64 > memory.len() as u64 {
                    return Err(ExtractError::MalformedStream);
                }
                let room = usize::MAX - memory.len();
                if count64 > room as u64 {
                    return Err(ExtractError::MalformedStream);
                }
                let left = left64 as usize;
                let count = count64 as usize;
                let ghost acc = memory@;
                let back_start = memory.len() - left;
                let mut k: usize = 0;
                proof {
                    lemma_expand_len(acc, left as int, 0);
                }
                while k < count
                    invariant
                        k <= count,
                        count <= usize::MAX - acc.len(),
                        1 <= left <= acc.len(),
                        back_start == acc.len() - left,
                        memory@.len() == acc.len() + k,
                        memory@ =~= acc + expand(acc, left as int, k as int),
                    decreases count - k,
                {
                    proof {
                        lemma_expand_len(acc, left as int, k as int);
                        lemma_expand_len(acc, left as int, k + 1);
                    }
                    let b = memory[back_start + k];
                    memory.push(b);
                    proof {
                        assert(acc + expand(acc, left as int, k as int) =~= memory@.drop_last());
                        assert(memory@ =~= acc + expand(acc, left as int, k + 1));
                    }
                    k = k + 1;
                }
                head = at2 + s2;
                proof {
                    assert(memory@ =~= acc + expand(acc, left as int, count as int));
                    assert(decode_frames(stream, acc) == decode_frames(
                        stream.skip(s1 + s2),
                        acc + expand(acc, left as int, count as int),
                    ));
                    assert(buffer@.skip(head as int) =~= stream.skip(s1 + s2));
                }
            } else {
                // A literal frame: a leading-one head and its bytes.
                let h = <LeadingOne as HeadType>::count(buffer, head);
                if h < 1 || h > 10 || h > n - head {
                    proof {
                        assert(take_lo(stream) is None);
                    }
                    return Err(ExtractError::MalformedStream);
                }
                let mut len64: u64 = 0;
                let s1 = Head::<LeadingOne>::extract(buffer, head, &mut len64);
                proof {
                    assert(stream.subrange(0, s1 as int) =~= buffer@.subrange(
                        head as int,
                        head + s1,
                    ));
                    assert(take_lo(stream) == Some((len64 as int, s1 as int)));
                }
                if len64 > (n - head - s1) as u64 {
                    return Err(ExtractError::MalformedStream);
                }
                let ghost acc = memory@;
                let mut chunk = PackedBits::prepare(buffer, head);
                let read_size = PackedBits::extract(buffer, head, &mut chunk);
                memory.extend_from_slice(chunk.as_slice());
                proof {
                    assert(chunk@ =~= stream.subrange(s1 as int, s1 + len64));
                    assert(memory@ =~= acc + stream.subrange(s1 as int, s1 + len64));
                    assert(decode_frames(stream, acc) == decode_frames(
                        stream.skip(s1 + len64),
                        acc + stream.subrange(s1 as int, s1 + len64),
                    ));
                }
                head = head + read_size;
                proof {
                    assert(buffer@.skip(head as int) =~= stream.skip(s1 + len64));
                }
            }
        }
        proof {
            assert(buffer@.skip(n as int) =~= Seq::<u8>::empty());
        }
        Ok(memory)
    }
}

/// The pure-literal encoding of `data` in the two-byte token discipline:
/// full 128-byte runs, then whatever remains — what the compressor emits
/// when no match is ever worth a token.
pub open spec fn literal_chunks(data: Seq<u8>) -> Seq<u8>
    decreases data.len(),
{
    if data.len() == 0 {
        Seq::empty()
    } else if data.len() <= 128 {
        seq![(data.len() - 1) as u8] + data
    } else {
        seq![127u8] + data.take(128) + literal_chunks(data.skip(128))
    }
}

/// Appending up to one run's worth of bytes to whole runs appends one frame.
proof fn lemma_literal_chunks_snoc(p: Seq<u8>, t: Seq<u8>)
    requires
        p.len() % 128 == 0,
        1 <= t.len() <= 128,
    ensures
        literal_chunks(p + t) == literal_chunks(p) + seq![(t.len() - 1) as u8] + t,
    decreases p.len(),
{
    if p.len() == 0 {
        assert(p + t =~= t);
        assert(literal_chunks(p) + seq![(t.len() - 1) as u8] + t =~= seq![(t.len() - 1) as u8]
            + t);
    } else {
        assert((p + t).len() > 128);
        assert((p + t).take(128) =~= p.take(128));
        assert((p + t).skip(128) =~= p.skip(128) + t);
        assert(p.skip(128).len() % 128 == 0);
        lemma_literal_chunks_snoc(p.skip(128), t);
        if p.len() == 128 {
            assert(p.take(128) =~= p);
            assert(p.skip(128) =~= Seq::<u8>::empty());
            assert(p.skip(128) + t =~= t);
            assert(literal_chunks(p + t) =~= literal_chunks(p) + seq![(t.len() - 1) as u8] + t);
        } else {
            assert(literal_chunks(p + t) =~= literal_chunks(p) + seq![(t.len() - 1) as u8] + t);
        }
    }
}

/// Whether no element of `data` occurs twice.
pub open spec fn pairwise_distinct(s: Seq<u8>) -> bool {
    forall|i2: int, j2: int| 0 <= j2 < i2 < s.len() ==> s[j2] != s[i2]
}

/// Whether `data` repeats three consecutive bytes anywhere within a window
/// of `max_left`: the least a match token can ever cover.
pub open spec fn has_window_repeat(data: Seq<u8>, max_left: int) -> bool {
    exists|i: int, j: int|
        #![trigger data[i], data[j]]
        0 <= j < i && i + 3 <= data.len() && i - j <= max_left && data[j] == data[i] && data[j
            + 1] == data[i + 1] && data[j + 2] == data[i + 2]
}

/// What a stream of the fixed two-byte token discipline decodes to, on top
/// of the output `acc` written so far. A first byte with its top bit clear
/// is a literal-run header, the length less one; a set top bit opens a
/// two-byte match token of the layout `M`. A truncated frame, a distance
/// past the output, or a count the output cannot hold is malformed.
pub open spec fn decode_tokens<M: MatchLayoutTrait>(stream: Seq<u8>, acc: Seq<u8>) -> Option<
    Seq<u8>,
>
    decreases stream.len(),
{
    if stream.len() == 0 {
        Some(acc)
    } else if stream[0] < 0x80 {
        let len = stream[0] + 1;
        if stream.len() < 1 + len {
            None
        } else {
            decode_tokens::<M>(stream.skip(1 + len), acc + stream.subrange(1, 1 + len))
        }
    } else {
        if stream.len() < 2 {
            None
        } else {
            let token = M::read_spec(stream[0], stream[1]);
            if token.0 < 1 || token.0 > acc.len() || token.1 > usize::MAX - acc.len() {
                None
            } else {
                decode_tokens::<M>(stream.skip(2), acc + expand(acc, token.0, token.1))
            }
        }
    }
}

/// Prepending a literal frame to a token stream appends its payload to the
/// output.
pub proof fn lemma_token_literal<M: MatchLayoutTrait>(payload: Seq<u8>, rest: Seq<u8>, acc: Seq<u8>)
    requires
        1 <= payload.len() <= 128,
    ensures
        decode_tokens::<M>(seq![(payload.len() - 1) as u8] + payload + rest, acc)
            == decode_tokens::<M>(rest, acc + payload),
{
    let s = seq![(payload.len() - 1) as u8] + payload + rest;
    assert(s[0] == (payload.len() - 1) as u8);
    assert(s[0] < 0x80);
    assert(s[0] + 1 == payload.len());
    assert(s.subrange(1, 1 + payload.len() as int) =~= payload);
    assert(s.skip(1 + payload.len() as int) =~= rest);
}

/// Prepending a match token to a token stream appends its expansion to the
/// output.
pub proof fn lemma_token_match<M: MatchLayoutTrait>(b0: u8, b1: u8, rest: Seq<u8>, acc: Seq<u8>)
    requires
        b0 >= 0x80,
        1 <= M::read_spec(b0, b1).0 <= acc.len(),
        M::read_spec(b0, b1).1 <= usize::MAX - acc.len(),
    ensures
        decode_tokens::<M>(seq![b0, b1] + rest, acc) == decode_tokens::<M>(
            rest,
            acc + expand(acc, M::read_spec(b0, b1).0, M::read_spec(b0, b1).1),
        ),
{
    let s = seq![b0, b1] + rest;
    assert(s[0] == b0);
    assert(s[1] == b1);
    assert(s.skip(2) =~= rest);
}

/// Flushes a pending literal run: one header byte, the length less one with
/// the top bit clear, then the bytes; the run is emptied.
fn flush_literal(out: &mut Vec<u8>, lit: &mut Vec<u8>)
    requires
        1 <= old(lit)@.len() <= 128,
    ensures
        final(out)@ == old(out)@ + seq![(old(lit)@.len() - 1) as u8] + old(lit)@,
        final(out)@[old(out)@.len() as int] < 0x80,
        final(lit)@.len() == 0,
{
    let ghost base = out@;
    let header = (lit.len() - 1) as u8;
    out.push(header);
    out.extend_from_slice(lit.as_slice());
    lit.clear();
    proof {
        assert(out@ =~= base + seq![header] + old(lit)@);
    }
}

/// The longest run, up to `cap`, over which the bytes at `j` repeat at `i`.
fn match_length(data: &[u8], j: usize, i: usize, cap: usize) -> (l: usize)
    requires
        j < i,
        i <= data@.len(),
        i + cap <= data@.len(),
    ensures
        l <= cap,
        forall|k: int| 0 <= k < l ==> #[trigger] data@[j + k] == data@[i + k],
        l == cap || data@[j + l] != data@[i + l],
{
    let dn = data.len();
    let mut l: usize = 0;
    while l < cap && data[j + l] == data[i + l]
        invariant
            l <= cap,
            j < i <= dn,
            i + cap <= dn,
            dn == data@.len(),
            forall|k: int| 0 <= k < l ==> #[trigger] data@[j + k] == data@[i + k],
        decreases cap - l,
    {
        l = l + 1;
    }
    l
}

/// Compresses `data` into a stream of the two-byte token discipline of `M`:
/// at each position the sliding window, `M`'s greatest distance wide, is
/// searched for the longest repeat, capped at `M`'s greatest count; a repeat
/// of three or more bytes is emitted as a token, anything else joins the
/// pending literal run, flushed whenever it reaches 128 bytes. What comes
/// out decodes to `data` exactly; an empty input gives an empty stream; and
/// a match token is emitted only where the window repeats: an input with no
/// three-byte repeat within the window comes out as pure literal runs.
#[verifier::rlimit(100)]
pub fn stream_compress<M: MatchLayoutTrait>(data: &[u8]) -> (out: Vec<u8>)
    requires
        data@.len() + 2 <= usize::MAX,
    ensures
        decode_tokens::<M>(out@, Seq::empty()) == Some(data@),
        data@.len() == 0 ==> out@.len() == 0,
        (M::max_count_spec() < 3 || !has_window_repeat(data@, M::max_left_spec())) ==> out@
            == literal_chunks(data@),
{
    let max_left = M::max_left();
    let max_count = M::max_count();
    proof {
        M::lemma_layout_bounds(0, 0);
    }
    let n = data.len();
    let mut out: Vec<u8> = Vec::new();
    let mut lit: Vec<u8> = Vec::new();
    let mut i: usize = 0;
    proof {
        assert forall|r: Seq<u8>| #[trigger] decode_tokens::<M>(out@ + r, Seq::empty())
            == decode_tokens::<M>(r, data@.take(0)) by {
            assert(out@ + r =~= r);
            assert(data@.take(0) =~= Seq::empty());
        }
    }
    while i < n
        invariant
            i <= n,
            n == data@.len(),
            n + 2 <= usize::MAX,
            max_left == M::max_left_spec(),
            max_count == M::max_count_spec(),
            1 <= max_left <= 0x2000,
            1 <= max_count <= 0x100,
            lit@.len() <= 127,
            lit@.len() <= i,
            lit@ =~= data@.subrange(i - lit@.len(), i as int),
            i == 0 ==> out@.len() == 0,
            (M::max_count_spec() < 3 || !has_window_repeat(data@, M::max_left_spec())) ==> out@
                == literal_chunks(data@.take(i - lit@.len())) && (i - lit@.len()) % 128 == 0,
            forall|r: Seq<u8>| #[trigger] decode_tokens::<M>(out@ + r, Seq::empty())
                == decode_tokens::<M>(r, data@.take(i - lit@.len())),
        decreases n - i,
    {
        // Search the window for the longest repeat, earliest start winning.
        let window_start = if i > max_left {
            i - max_left
        } else {
            0
        };
        let cap = if max_count < n - i {
            max_count
        } else {
            n - i
        };
        let mut best_len: usize = 0;
        let mut best_dist: usize = 0;
        let mut j = window_start;
        while j < i
            invariant
                window_start <= j <= i,
                i < n,
                n == data@.len(),
                i + cap <= n,
                i >= window_start,
                i - window_start <= max_left,
                best_len <= cap,
                best_len > 0 ==> 1 <= best_dist <= max_left && best_dist <= i,
                best_len > 0 ==> forall|k: int|
                    0 <= k < best_len ==> #[trigger] data@[i - best_dist + k] == data@[i + k],
            decreases i - j,
        {
            let l = match_length(data, j, i, cap);
            if l > best_len {
                best_len = l;
                best_dist = i - j;
            }
            j = j + 1;
        }

        if best_len >= 3 && best_len <= max_count {
            proof {
                if M::max_count_spec() < 3 || !has_window_repeat(data@, M::max_left_spec()) {
                    let jw = i - best_dist;
                    assert(data@[i - best_dist + 0] == data@[i + 0]);
                    assert(data@[i - best_dist + 1] == data@[i + 1]);
                    assert(data@[i - best_dist + 2] == data@[i + 2]);
                    assert(data@[jw as int] == data@[i as int]);
                    assert(data@[jw + 1] == data@[i + 1]);
                    assert(data@[jw + 2] == data@[i + 2]);
                    assert(has_window_repeat(data@, M::max_left_spec()));
                    assert(false);
                }
            }
            let ghost out0 = out@;
            let ghost lit0 = lit@;
            let ghost acc0 = data@.take(i - lit@.len());
            let ghost acc1 = data@.take(i as int);
            let flushed = lit.len() > 0;
            if lit.len() > 0 {
                flush_literal(&mut out, &mut lit);
            }
            let ghost out1 = out@;
            let token = M::write(best_dist, best_len);
            out.push(token[0]);
            out.push(token[1]);
            proof {
                let acc2 = data@.take(i + best_len);
                assert(acc1 =~= acc0 + lit0);
                lemma_expand_window(data@, i as int, best_dist as int, best_len as int);
                assert(acc2 =~= acc1 + expand(acc1, best_dist as int, best_len as int));
                assert forall|r: Seq<u8>| #[trigger] decode_tokens::<M>(out@ + r, Seq::empty())
                    == decode_tokens::<M>(r, data@.take(i + best_len)) by {
                    let f2 = seq![token@[0], token@[1]];
                    assert(out@ =~= out1 + f2);
                    if flushed {
                        let f1 = seq![(lit0.len() - 1) as u8] + lit0;
                        assert(out1 =~= out0 + f1);
                        assert(out@ + r =~= out0 + (f1 + (f2 + r)));
                        assert(decode_tokens::<M>(out@ + r, Seq::empty()) == decode_tokens::<M>(
                            f1 + (f2 + r),
                            acc0,
                        ));
                        assert(f1 + (f2 + r) =~= seq![(lit0.len() - 1) as u8] + lit0 + (f2 + r));
                        lemma_token_literal::<M>(lit0, f2 + r, acc0);
                        lemma_token_match::<M>(token@[0], token@[1], r, acc1);
                    } else {
                        assert(lit0 =~= Seq::<u8>::empty());
                        assert(acc1 =~= acc0);
                        assert(out@ + r =~= out0 + (f2 + r));
                        assert(decode_tokens::<M>(out@ + r, Seq::empty()) == decode_tokens::<M>(
                            f2 + r,
                            acc0,
                        ));
                        lemma_token_match::<M>(token@[0], token@[1], r, acc1);
                    }
                }
            }
            i = i + best_len;
            proof {
                assert(lit@ =~= data@.subrange(i as int, i as int));
            }
        } else {
            lit.push(data[i]);
            i = i + 1;
            proof {
                assert(lit@ =~= data@.subrange(i - lit@.len(), i as int));
            }
            if lit.len() >= 128 {
                let ghost out0 = out@;
                let ghost lit0 = lit@;
                let ghost acc0 = data@.take(i - lit@.len());
                flush_literal(&mut out, &mut lit);
                proof {
                    assert forall|r: Seq<u8>| #[trigger] decode_tokens::<M>(out@ + r, Seq::empty())
                        == decode_tokens::<M>(r, data@.take(i as int)) by {
                        let f1 = seq![(lit0.len() - 1) as u8] + lit0;
                        assert(out@ =~= out0 + f1);
                        assert(out@ + r =~= out0 + (f1 + r));
                        assert(decode_tokens::<M>(out@ + r, Seq::empty()) == decode_tokens::<M>(
                            f1 + r,
                            acc0,
                        ));
                        assert(f1 + r =~= seq![(lit0.len() - 1) as u8] + lit0 + r);
                        lemma_token_literal::<M>(lit0, r, acc0);
                        assert(acc0 + lit0 =~= data@.take(i as int));
                    }
                    assert(lit@ =~= data@.subrange(i as int, i as int));
                    if M::max_count_spec() < 3 || !has_window_repeat(data@, M::max_left_spec()) {
                        lemma_literal_chunks_snoc(data@.take(i - 128), lit0);
                        assert(data@.take(i - 128) + lit0 =~= data@.take(i as int));
                        assert(out@ == literal_chunks(data@.take(i as int)));
                    }
                }
            }
        }
    }

    if lit.len() > 0 {
        let ghost out0 = out@;
        let ghost lit0 = lit@;
        let ghost acc0 = data@.take(n - lit@.len());
        flush_literal(&mut out, &mut lit);
        proof {
            assert forall|r: Seq<u8>| #[trigger] decode_tokens::<M>(out@ + r, Seq::empty())
                == decode_tokens::<M>(r, data@.take(n as int)) by {
                let f1 = seq![(lit0.len() - 1) as u8] + lit0;
                assert(out@ =~= out0 + f1);
                assert(out@ + r =~= out0 + (f1 + r));
                assert(decode_tokens::<M>(out@ + r, Seq::empty()) == decode_tokens::<M>(
                    f1 + r,
                    acc0,
                ));
                assert(f1 + r =~= seq![(lit0.len() - 1) as u8] + lit0 + r);
                lemma_token_literal::<M>(lit0, r, acc0);
                assert(acc0 + lit0 =~= data@.take(n as int));
            }
            if M::max_count_spec() < 3 || !has_window_repeat(data@, M::max_left_spec()) {
                lemma_literal_chunks_snoc(data@.take(n - lit0.len()), lit0);
                assert(data@.take(n - lit0.len()) + lit0 =~= data@.take(n as int));
                assert(out@ == literal_chunks(data@.take(n as int)));
            }
        }
    }

    proof {
        assert(out@ + Seq::<u8>::empty() =~= out@);
        assert(decode_tokens::<M>(out@ + Seq::<u8>::empty(), Seq::empty()) == decode_tokens::<M>(
            Seq::<u8>::empty(),
            data@.take(n as int),
        ));
        assert(data@.take(n as int) =~= data@);
        if M::max_count_spec() < 3 || !has_window_repeat(data@, M::max_left_spec()) {
            assert(out@ == literal_chunks(data@));
        }
    }
    out
}

/// Decompresses a stream of the two-byte token discipline of `M`, literal
/// runs appended and match spans copied byte by byte from the output so far.
/// A malformed stream — a truncated frame, a distance of zero or past the
/// output, or a count the output could not hold — is reported, never
/// followed.
#[verifier::rlimit(100)]
pub fn stream_extract<M: MatchLayoutTrait>(buffer: &[u8]) -> (r: Result<Vec<u8>, ExtractError>)
    ensures
        match r {
            Ok(v) => decode_tokens::<M>(buffer@, Seq::empty()) == Some(v@),
            Err(_) => decode_tokens::<M>(buffer@, Seq::empty()) is None,
        },
{
    let n = buffer.len();
    let mut memory: Vec<u8> = Vec::new();
    let mut head: usize = 0;
    proof {
        assert(buffer@.skip(0) =~= buffer@);
    }
    while head < n
        invariant
            head <= n,
            n == buffer@.len(),
            decode_tokens::<M>(buffer@, Seq::empty()) == decode_tokens::<M>(
                buffer@.skip(head as int),
                memory@,
            ),
        decreases n - head,
    {
        let ghost stream = buffer@.skip(head as int);
        proof {
            assert(stream[0] == buffer@[head as int]);
        }
        let b0 = buffer[head];
        if b0 < 0x80 {
            // A literal run: the header byte is the length less one.
            let len = b0 as usize + 1;
            if n - head - 1 < len {
                return Err(ExtractError::MalformedStream);
            }
            let ghost acc = memory@;
            let mut k: usize = 0;
            while k < len
                invariant
                    k <= len,
                    head + 1 + len <= n,
                    n == buffer@.len(),
                    memory@ =~= acc + buffer@.subrange(head + 1, head + 1 + k),
                decreases len - k,
            {
                memory.push(buffer[head + 1 + k]);
                proof {
                    assert(memory@ =~= acc + buffer@.subrange(head + 1, head + 1 + k + 1));
                }
                k = k + 1;
            }
            proof {
                assert(buffer@.subrange(head + 1, head + 1 + len) =~= stream.subrange(
                    1,
                    1 + len,
                ));
                assert(decode_tokens::<M>(stream, acc) == decode_tokens::<M>(
                    stream.skip(1 + len),
                    acc + stream.subrange(1, 1 + len),
                ));
            }
            head = head + 1 + len;
            proof {
                assert(buffer@.skip(head as int) =~= stream.skip(1 + len));
            }
        } else {
            // A match token: two bytes of the layout.
            if n - head < 2 {
                return Err(ExtractError::MalformedStream);
            }
            let token: [u8; 2] = [buffer[head], buffer[head + 1]];
            let m = M::read(&token);
            proof {
                M::lemma_layout_bounds(token@[0], token@[1]);
                assert(stream[1] == buffer@[head + 1]);
            }
            if m.left > memory.len() {
                return Err(ExtractError::MalformedStream);
            }
            let room = usize::MAX - memory.len();
            if m.count > room {
                return Err(ExtractError::MalformedStream);
            }
            let left = m.left;
            let count = m.count;
            let ghost acc = memory@;
            let back_start = memory.len() - left;
            let mut k: usize = 0;
            proof {
                lemma_expand_len(acc, left as int, 0);
            }
            while k < count
                invariant
                    k <= count,
                    count <= usize::MAX - acc.len(),
                    1 <= left <= acc.len(),
                    back_start == acc.len() - left,
                    memory@.len() == acc.len() + k,
                    memory@ =~= acc + expand(acc, left as int, k as int),
                decreases count - k,
            {
                proof {
                    lemma_expand_len(acc, left as int, k as int);
                    lemma_expand_len(acc, left as int, k + 1);
                }
                let b = memory[back_start + k];
                memory.push(b);
                proof {
                    assert(acc + expand(acc, left as int, k as int) =~= memory@.drop_last());
                    assert(memory@ =~= acc + expand(acc, left as int, k + 1));
                }
                k = k + 1;
            }
            proof {
                assert(memory@ =~= acc + expand(acc, left as int, count as int));
                assert(decode_tokens::<M>(stream, acc) == decode_tokens::<M>(
                    stream.skip(2),
                    acc + expand(acc, left as int, count as int),
                ));
            }
            head = head + 2;
            proof {
                assert(buffer@.skip(head as int) =~= stream.skip(2));
            }
        }
    }
    proof {
        assert(buffer@.skip(n as int) =~= Seq::<u8>::empty());
    }
    Ok(memory)
}

} // verus!
