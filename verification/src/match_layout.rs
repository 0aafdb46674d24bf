//! Back-reference tokens. The first form encodes a `(distance, count)` pair
//! as two leading-zero heads, distance first — its first bit is zero, which
//! tells it apart from a literal run's leading-one header. The second form
//! is a family of fixed two-byte layouts whose first bit is one, trading
//! distance bits against count bits, for streams whose literal runs carry a
//! zero first bit instead.

use vstd::prelude::*;

use crate::head::{
    lz_encode_spec, lz_head_len, leading_size_spec, take_lz, Head, HeadType, LeadingZero,
};

verus! {

/// A back reference: a distance to the left, and how many bytes to copy.
#[derive(Clone, Copy, Debug, PartialEq, Eq, Structural)]
pub struct Match {
    pub left: usize,
    pub count: usize,
}

/// The serialized form of a match token in the head discipline: the distance
/// and the count, each as a leading-zero head.
pub open spec fn match_encoding(left: int, count: int) -> Seq<u8> {
    lz_encode_spec(left as u64) + lz_encode_spec(count as u64)
}

pub struct MatchLayout;

impl MatchLayout {
    /// How many bytes the serialized token takes.
    pub fn measure(data: &Match) -> (r: usize)
        ensures
            r == match_encoding(data.left as int, data.count as int).len(),
            r == leading_size_spec(data.left as u64) + leading_size_spec(data.count as u64),
            2 <= r <= 20,
    {
        proof {
            <LeadingZero as HeadType>::lemma_round_trip(data.left as u64);
            <LeadingZero as HeadType>::lemma_round_trip(data.count as u64);
        }
        Head::<LeadingZero>::measure(&(data.left as u64)) + Head::<LeadingZero>::measure(
            &(data.count as u64),
        )
    }

    /// Appends the serialized token and says how many bytes it wrote.
    pub fn compress(data: &Match, out: &mut Vec<u8>) -> (r: usize)
        ensures
            final(out)@ == old(out)@ + match_encoding(data.left as int, data.count as int),
            r == match_encoding(data.left as int, data.count as int).len(),
    {
        let ghost base = out@;
        proof {
            <LeadingZero as HeadType>::lemma_round_trip(data.left as u64);
            <LeadingZero as HeadType>::lemma_round_trip(data.count as u64);
        }
        let mut cursor = Head::<LeadingZero>::compress(&(data.left as u64), out);
        cursor = cursor + Head::<LeadingZero>::compress(&(data.count as u64), out);
        proof {
            assert(out@ =~= base + match_encoding(data.left as int, data.count as int));
        }
        cursor
    }

    /// Whether a match token starts at `at`: its leading-zero head begins
    /// with a zero bit, a literal header with a one.
    pub fn check(buffer: &[u8], at: usize) -> (r: bool)
        ensures
            r == (at < buffer@.len() && buffer@[at as int] < 0x80),
    {
        at < buffer.len() && buffer[at] < 0x80
    }

    /// A fresh token for `extract` to fill.
    pub fn prepare(_buffer: &[u8]) -> (r: Match)
        ensures
            r.left == 0 && r.count == 0,
    {
        Match { left: 0, count: 0 }
    }

    /// Reads the token at `at`: fills `data` with the decoded distance and
    /// count and says how many bytes the token spanned. Both heads must lie
    /// whole in the buffer with values a `usize` can hold; callers check
    /// that first.
    pub fn extract(buffer: &[u8], at: usize, data: &mut Match) -> (r: usize)
        requires
            at <= buffer@.len(),
            take_lz(buffer@.skip(at as int)) is Some,
            take_lz(buffer@.skip(at as int))->Some_0.0 <= usize::MAX,
            ({
                let rest = buffer@.skip(at as int).skip(take_lz(buffer@.skip(at as int))->Some_0.1);
                &&& take_lz(rest) is Some
                &&& take_lz(rest)->Some_0.0 <= usize::MAX
            }),
        ensures
            ({
                let first = take_lz(buffer@.skip(at as int))->Some_0;
                let second = take_lz(buffer@.skip(at as int).skip(first.1))->Some_0;
                &&& final(data).left == first.0
                &&& final(data).count == second.0
                &&& r == first.1 + second.1
            }),
    {
        let blen = buffer.len();
        let ghost first = take_lz(buffer@.skip(at as int))->Some_0;
        let ghost rest = buffer@.skip(at as int).skip(first.1);
        proof {
            assert(at + first.1 <= blen);
        }
        let mut left: u64 = 0;
        let mut count: u64 = 0;
        let mut cursor = Head::<LeadingZero>::extract(buffer, at, &mut left);
        proof {
            assert(rest =~= buffer@.skip(at + cursor));
            assert(buffer@.subrange(at as int, at + cursor) =~= buffer@.skip(at as int).subrange(
                0,
                cursor as int,
            ));
            assert(rest.subrange(0, take_lz(rest)->Some_0.1) =~= buffer@.subrange(
                at + cursor,
                at + cursor + take_lz(rest)->Some_0.1,
            ));
        }
        cursor = cursor + Head::<LeadingZero>::extract(buffer, at + cursor, &mut count);
        data.left = left as usize;
        data.count = count as usize;
        cursor
    }
}

/// One fixed two-byte token layout: the first bit marks a match, the other
/// fifteen split between the distance (less one) and the count (less one).
pub trait MatchLayoutTrait {
    /// The largest encodable distance.
    spec fn max_left_spec() -> int;

    /// The largest encodable count.
    spec fn max_count_spec() -> int;

    /// What the two bytes of a token decode to: distance, then count.
    spec fn read_spec(b0: u8, b1: u8) -> (int, int);

    /// The layout's ranges are bounded and every token decodes within them.
    proof fn lemma_layout_bounds(b0: u8, b1: u8)
        ensures
            1 <= Self::max_left_spec() <= 0x2000,
            1 <= Self::max_count_spec() <= 0x100,
            1 <= Self::read_spec(b0, b1).0 <= Self::max_left_spec(),
            1 <= Self::read_spec(b0, b1).1 <= Self::max_count_spec(),
    ;

    fn max_left() -> (r: usize)
        ensures
            r == Self::max_left_spec(),
    ;

    fn max_count() -> (r: usize)
        ensures
            r == Self::max_count_spec(),
    ;

    /// Whether the two bytes are a match token: the first bit is one.
    fn check(buffer: &[u8; 2]) -> (r: bool)
        ensures
            r == (buffer@[0] >= 0x80),
    ;

    /// Encodes a token; the first byte's first bit is one.
    fn write(left: usize, count: usize) -> (r: [u8; 2])
        requires
            1 <= left <= Self::max_left_spec(),
            1 <= count <= Self::max_count_spec(),
        ensures
            r@[0] >= 0x80,
            Self::read_spec(r@[0], r@[1]) == (left as int, count as int),
    ;

    /// Decodes a token.
    fn read(buffer: &[u8; 2]) -> (m: Match)
        ensures
            (m.left as int, m.count as int) == Self::read_spec(buffer@[0], buffer@[1]),
    ;
}

/// Two count bits, thirteen distance bits: distances to 8192, counts to 4.
pub struct MatchLayoutC2L13;

impl MatchLayoutTrait for MatchLayoutC2L13 {
    open spec fn max_left_spec() -> int {
        8192
    }

    open spec fn max_count_spec() -> int {
        4
    }

    open spec fn read_spec(b0: u8, b1: u8) -> (int, int) {
        ((b0 as int % 0x20) * 0x100 + b1 + 1, (b0 as int / 0x20) % 4 + 1)
    }

    proof fn lemma_layout_bounds(b0: u8, b1: u8) {
    }

    fn max_left() -> (r: usize) {
        8192
    }

    fn max_count() -> (r: usize) {
        4
    }

    fn check(buffer: &[u8; 2]) -> (r: bool) {
        buffer[0] >= 0x80
    }

    fn write(left: usize, count: usize) -> (r: [u8; 2]) {
        let b0 = (0x80 + (count - 1) * 0x20 + (left - 1) / 0x100) as u8;
        let b1 = ((left - 1) % 0x100) as u8;
        [b0, b1]
    }

    fn read(buffer: &[u8; 2]) -> (m: Match) {
        let left = (buffer[0] as usize % 0x20) * 0x100 + buffer[1] as usize + 1;
        let count = (buffer[0] as usize / 0x20) % 4 + 1;
        Match { left, count }
    }
}

/// Three count bits, twelve distance bits: distances to 4096, counts to 8.
pub struct MatchLayoutC3L12;

impl MatchLayoutTrait for MatchLayoutC3L12 {
    open spec fn max_left_spec() -> int {
        4096
    }

    open spec fn max_count_spec() -> int {
        8
    }

    open spec fn read_spec(b0: u8, b1: u8) -> (int, int) {
        ((b0 as int % 0x10) * 0x100 + b1 + 1, (b0 as int / 0x10) % 8 + 1)
    }

    proof fn lemma_layout_bounds(b0: u8, b1: u8) {
    }

    fn max_left() -> (r: usize) {
        4096
    }

    fn max_count() -> (r: usize) {
        8
    }

    fn check(buffer: &[u8; 2]) -> (r: bool) {
        buffer[0] >= 0x80
    }

    fn write(left: usize, count: usize) -> (r: [u8; 2]) {
        let b0 = (0x80 + (count - 1) * 0x10 + (left - 1) / 0x100) as u8;
        let b1 = ((left - 1) % 0x100) as u8;
        [b0, b1]
    }

    fn read(buffer: &[u8; 2]) -> (m: Match) {
        let left = (buffer[0] as usize % 0x10) * 0x100 + buffer[1] as usize + 1;
        let count = (buffer[0] as usize / 0x10) % 8 + 1;
        Match { left, count }
    }
}

/// Four count bits, eleven distance bits: distances to 2048, counts to 16.
pub struct MatchLayoutC4L11;

impl MatchLayoutTrait for MatchLayoutC4L11 {
    open spec fn max_left_spec() -> int {
        2048
    }

    open spec fn max_count_spec() -> int {
        16
    }

    open spec fn read_spec(b0: u8, b1: u8) -> (int, int) {
        ((b0 as int % 0x08) * 0x100 + b1 + 1, (b0 as int / 0x08) % 16 + 1)
    }

    proof fn lemma_layout_bounds(b0: u8, b1: u8) {
    }

    fn max_left() -> (r: usize) {
        2048
    }

    fn max_count() -> (r: usize) {
        16
    }

    fn check(buffer: &[u8; 2]) -> (r: bool) {
        buffer[0] >= 0x80
    }

    fn write(left: usize, count: usize) -> (r: [u8; 2]) {
        let b0 = (0x80 + (count - 1) * 0x08 + (left - 1) / 0x100) as u8;
        let b1 = ((left - 1) % 0x100) as u8;
        [b0, b1]
    }

    fn read(buffer: &[u8; 2]) -> (m: Match) {
        let left = (buffer[0] as usize % 0x08) * 0x100 + buffer[1] as usize + 1;
        let count = (buffer[0] as usize / 0x08) % 16 + 1;
        Match { left, count }
    }
}

/// Seven distance bits in the first byte, eight count bits in the second:
/// distances to 128, counts to 256.
pub struct MatchLayoutL7C8;

impl MatchLayoutTrait for MatchLayoutL7C8 {
    open spec fn max_left_spec() -> int {
        128
    }

    open spec fn max_count_spec() -> int {
        256
    }

    open spec fn read_spec(b0: u8, b1: u8) -> (int, int) {
        (b0 as int % 0x80 + 1, b1 + 1)
    }

    proof fn lemma_layout_bounds(b0: u8, b1: u8) {
    }

    fn max_left() -> (r: usize) {
        128
    }

    fn max_count() -> (r: usize) {
        256
    }

    fn check(buffer: &[u8; 2]) -> (r: bool) {
        buffer[0] >= 0x80
    }

    fn write(left: usize, count: usize) -> (r: [u8; 2]) {
        let b0 = (0x80 + (left - 1)) as u8;
        let b1 = (count - 1) as u8;
        [b0, b1]
    }

    fn read(buffer: &[u8; 2]) -> (m: Match) {
        let left = buffer[0] as usize % 0x80 + 1;
        let count = buffer[1] as usize + 1;
        Match { left, count }
    }
}

} // verus!
