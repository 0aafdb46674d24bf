//! Self-delimiting variable-length integer codecs. The first byte's leading
//! bit pattern tells the total byte count; the payload follows in big-endian
//! order. Three disciplines share this module: `LeadingZero` (a run of zero
//! bits, then a one), `LeadingOne` (its dual), and `Common` (UTF-8-like: a
//! run of one bits whose length is one less than the byte count).

use vstd::prelude::*;

verus! {

/// 256 to the `k`.
pub open spec fn pow256(k: nat) -> int
    decreases k,
{
    if k == 0 {
        1
    } else {
        256 * pow256((k - 1) as nat)
    }
}

/// The `n` big-endian bytes of `v` (modulo 256 to the `n`).
pub open spec fn be_bytes(v: int, n: nat) -> Seq<u8>
    decreases n,
{
    if n == 0 {
        Seq::empty()
    } else {
        be_bytes(v / 256, (n - 1) as nat).push((v % 256) as u8)
    }
}

/// The value that `bytes` spell in big-endian order.
pub open spec fn be_value(bytes: Seq<u8>) -> int
    decreases bytes.len(),
{
    if bytes.len() == 0 {
        0
    } else {
        be_value(bytes.drop_last()) * 256 + bytes.last()
    }
}

/// The powers of 256 up to the eighth, spelled out.
pub proof fn lemma_pow256_values()
    ensures
        pow256(0) == 1,
        pow256(1) == 0x100,
        pow256(2) == 0x10000,
        pow256(3) == 0x1000000,
        pow256(4) == 0x100000000,
        pow256(5) == 0x10000000000,
        pow256(6) == 0x1000000000000,
        pow256(7) == 0x100000000000000,
        pow256(8) == 0x10000000000000000,
{
    assert(pow256(0) == 1);
    assert(pow256(1) == 0x100);
    assert(pow256(2) == 0x10000);
    assert(pow256(3) == 0x1000000);
    assert(pow256(4) == 0x100000000);
    assert(pow256(5) == 0x10000000000);
    assert(pow256(6) == 0x1000000000000);
    assert(pow256(7) == 0x100000000000000);
    assert(pow256(8) == 0x10000000000000000);
}

/// A value below 256 to the `n` is spelled by its `n` big-endian bytes and
/// read back unchanged.
pub proof fn lemma_be_bytes_value(v: int, n: nat)
    requires
        0 <= v < pow256(n),
    ensures
        be_bytes(v, n).len() == n,
        be_value(be_bytes(v, n)) == v,
    decreases n,
{
    if n == 0 {
    } else {
        assert(pow256(n) == 256 * pow256((n - 1) as nat));
        assert(v / 256 < pow256((n - 1) as nat)) by (nonlinear_arith)
            requires
                0 <= v < 256 * pow256((n - 1) as nat),
        ;
        lemma_be_bytes_value(v / 256, (n - 1) as nat);
        let b = be_bytes(v, n);
        assert(b.drop_last() =~= be_bytes(v / 256, (n - 1) as nat));
        assert(b.last() == (v % 256) as u8);
    }
}

/// What `n` bytes can spell is below 256 to the `n`.
pub proof fn lemma_be_value_bound(bytes: Seq<u8>)
    ensures
        0 <= be_value(bytes) < pow256(bytes.len()),
    decreases bytes.len(),
{
    if bytes.len() == 0 {
    } else {
        lemma_be_value_bound(bytes.drop_last());
        assert(pow256(bytes.len()) == 256 * pow256((bytes.len() - 1) as nat));
        assert(be_value(bytes.drop_last()) * 256 + bytes.last() < pow256(bytes.len()))
            by (nonlinear_arith)
            requires
                0 <= be_value(bytes.drop_last()) < pow256((bytes.len() - 1) as nat),
                0 <= bytes.last() < 256,
                pow256(bytes.len()) == 256 * pow256((bytes.len() - 1) as nat),
        ;
    }
}

/// Appends the `k` big-endian bytes of `v`.
fn push_be(out: &mut Vec<u8>, v: u64, k: usize)
    requires
        k <= 8,
        (v as int) < pow256(k as nat),
    ensures
        final(out)@ == old(out)@ + be_bytes(v as int, k as nat),
{
    let ghost base = out@;
    let mut tmp: Vec<u8> = Vec::new();
    let mut w: u64 = v;
    let mut j: usize = 0;
    while j < k
        invariant
            j <= k,
            k <= 8,
            tmp@.len() == j,
            be_bytes(v as int, k as nat) =~= be_bytes(w as int, (k - j) as nat) + tmp@.reverse(),
        decreases k - j,
    {
        let ghost before = tmp@;
        let ghost wb = w as int;
        tmp.push((w % 256) as u8);
        w = w / 256;
        proof {
            assert(be_bytes(wb, (k - j) as nat) =~= be_bytes(wb / 256, (k - j - 1) as nat).push(
                (wb % 256) as u8,
            ));
            assert(tmp@.reverse() =~= seq![(wb % 256) as u8] + before.reverse());
            assert(be_bytes(v as int, k as nat) =~= be_bytes(w as int, (k - (j + 1)) as nat)
                + tmp@.reverse());
        }
        j = j + 1;
    }
    proof {
        assert(be_bytes(v as int, k as nat) =~= tmp@.reverse());
    }
    while j > 0
        invariant
            j <= k,
            tmp@.len() == k,
            be_bytes(v as int, k as nat) =~= tmp@.reverse(),
            out@ =~= base + be_bytes(v as int, k as nat).take(k - j),
        decreases j,
    {
        j = j - 1;
        out.push(tmp[j]);
        proof {
            assert(tmp@.reverse()[k - j - 1] == tmp@[j as int]);
            assert(out@ =~= base + be_bytes(v as int, k as nat).take(k - j));
        }
    }
    proof {
        assert(be_bytes(v as int, k as nat).take(k as int) =~= be_bytes(v as int, k as nat));
        assert(out@ =~= base + be_bytes(v as int, k as nat));
    }
}

/// Reads `k` big-endian bytes starting at `at`.
fn be_read(buffer: &[u8], at: usize, k: usize) -> (r: u64)
    requires
        k <= 8,
        at + k <= buffer@.len(),
    ensures
        r == be_value(buffer@.subrange(at as int, at + k)),
{
    let len = buffer.len();
    let mut acc: u64 = 0;
    let mut j: usize = 0;
    while j < k
        invariant
            j <= k,
            k <= 8,
            at + k <= len,
            len == buffer@.len(),
            acc == be_value(buffer@.subrange(at as int, at + j)),
            acc < pow256(j as nat),
        decreases k - j,
    {
        proof {
            lemma_pow256_values();
            assert(pow256((j + 1) as nat) == 256 * pow256(j as nat));
            assert(acc * 256 + buffer@[at + j] < pow256((j + 1) as nat)) by (nonlinear_arith)
                requires
                    0 <= acc < pow256(j as nat),
                    0 <= buffer@[at + j] < 256,
                    pow256((j + 1) as nat) == 256 * pow256(j as nat),
            ;
            assert(pow256(j as nat) <= pow256(8)) by {
                lemma_pow256_monotone(j as nat, 8);
            }
        }
        let b = buffer[at + j];
        let ghost before = buffer@.subrange(at as int, at + j);
        acc = acc * 256 + (b as u64);
        proof {
            assert(buffer@.subrange(at as int, at + j + 1).drop_last() =~= before);
            assert(buffer@.subrange(at as int, at + j + 1).last() == buffer@[at + j]);
        }
        j = j + 1;
    }
    acc
}

/// Powers of 256 do not shrink as the exponent grows.
proof fn lemma_pow256_monotone(a: nat, b: nat)
    requires
        a <= b,
    ensures
        pow256(a) <= pow256(b),
        pow256(a) >= 1,
    decreases b,
{
    if a < b {
        lemma_pow256_monotone(a, (b - 1) as nat);
        assert(pow256(b) == 256 * pow256((b - 1) as nat));
        assert(256 * pow256((b - 1) as nat) >= pow256((b - 1) as nat)) by (nonlinear_arith)
            requires
                pow256((b - 1) as nat) >= 1,
        ;
    } else if a == 0 {
    } else {
        lemma_pow256_monotone((a - 1) as nat, (b - 1) as nat);
        assert(pow256(b) == 256 * pow256((b - 1) as nat));
        assert(256 * pow256((b - 1) as nat) >= 1) by (nonlinear_arith)
            requires
                pow256((b - 1) as nat) >= 1,
        ;
    }
}

/// Leading zero bits of one byte.
pub open spec fn lz8(b: u8) -> int {
    if b >= 0x80 {
        0
    } else if b >= 0x40 {
        1
    } else if b >= 0x20 {
        2
    } else if b >= 0x10 {
        3
    } else if b >= 0x08 {
        4
    } else if b >= 0x04 {
        5
    } else if b >= 0x02 {
        6
    } else if b >= 0x01 {
        7
    } else {
        8
    }
}

/// Leading one bits of one byte.
pub open spec fn lo8(b: u8) -> int {
    if b < 0x80 {
        0
    } else if b < 0xC0 {
        1
    } else if b < 0xE0 {
        2
    } else if b < 0xF0 {
        3
    } else if b < 0xF8 {
        4
    } else if b < 0xFC {
        5
    } else if b < 0xFE {
        6
    } else if b < 0xFF {
        7
    } else {
        8
    }
}

/// Leading zero bits of one byte, counted by range tests.
fn count_lz8(b: u8) -> (r: usize)
    ensures
        r == lz8(b),
{
    if b >= 0x80 {
        0
    } else if b >= 0x40 {
        1
    } else if b >= 0x20 {
        2
    } else if b >= 0x10 {
        3
    } else if b >= 0x08 {
        4
    } else if b >= 0x04 {
        5
    } else if b >= 0x02 {
        6
    } else if b >= 0x01 {
        7
    } else {
        8
    }
}

/// Leading one bits of one byte, counted by range tests.
fn count_lo8(b: u8) -> (r: usize)
    ensures
        r == lo8(b),
{
    if b < 0x80 {
        0
    } else if b < 0xC0 {
        1
    } else if b < 0xE0 {
        2
    } else if b < 0xF0 {
        3
    } else if b < 0xF8 {
        4
    } else if b < 0xFC {
        5
    } else if b < 0xFE {
        6
    } else if b < 0xFF {
        7
    } else {
        8
    }
}

/// The byte count of `v` under the leading-zero and leading-one disciplines.
pub open spec fn leading_size_spec(v: u64) -> int {
    if v <= 0x3F {
        1
    } else if v <= 0x1FFF {
        2
    } else if v <= 0xFFFFF {
        3
    } else if v <= 0x7FFFFFF {
        4
    } else if v <= 0x3FFFFFFFF {
        5
    } else if v <= 0x1FFFFFFFFFF {
        6
    } else if v <= 0xFFFFFFFFFFFF {
        7
    } else if v <= 0x7FFFFFFFFFFFFF {
        8
    } else if v <= 0x3FFFFFFFFFFFFFFF {
        9
    } else {
        10
    }
}

/// The byte count a head of leading zeros announces: the zero bits before
/// the first one bit, read across bytes.
pub open spec fn lz_head_len(bytes: Seq<u8>) -> int
    decreases bytes.len(),
{
    if bytes.len() == 0 {
        0
    } else {
        let z = lz8(bytes[0]);
        if z < 8 {
            z
        } else {
            8 + lz_head_len(bytes.skip(1))
        }
    }
}

/// The byte count a head of leading ones announces.
pub open spec fn lo_head_len(bytes: Seq<u8>) -> int
    decreases bytes.len(),
{
    if bytes.len() == 0 {
        0
    } else {
        let o = lo8(bytes[0]);
        if o < 8 {
            o
        } else {
            8 + lo_head_len(bytes.skip(1))
        }
    }
}

/// An announced byte count is never negative.
pub proof fn lemma_lz_head_len_nonneg(bytes: Seq<u8>)
    ensures
        lz_head_len(bytes) >= 0,
    decreases bytes.len(),
{
    if bytes.len() > 0 && lz8(bytes[0]) == 8 {
        lemma_lz_head_len_nonneg(bytes.skip(1));
    }
}

/// An announced byte count is never negative.
pub proof fn lemma_lo_head_len_nonneg(bytes: Seq<u8>)
    ensures
        lo_head_len(bytes) >= 0,
    decreases bytes.len(),
{
    if bytes.len() > 0 && lo8(bytes[0]) == 8 {
        lemma_lo_head_len_nonneg(bytes.skip(1));
    }
}

/// The payload a leading-zero or leading-one head carries: the tag bits of
/// the first byte (and, for byte counts past eight, the second) masked off,
/// the rest read in big-endian order; ten-byte heads keep their last eight
/// bytes. The two disciplines share their masks.
pub open spec fn leading_decode_spec(bytes: Seq<u8>) -> int {
    let s = bytes.len();
    if s == 1 {
        bytes[0] as int % 0x40
    } else if s == 2 {
        (bytes[0] as int % 0x20) * 0x100 + be_value(bytes.skip(1))
    } else if s == 3 {
        (bytes[0] as int % 0x10) * 0x10000 + be_value(bytes.skip(1))
    } else if s == 4 {
        (bytes[0] as int % 0x08) * 0x1000000 + be_value(bytes.skip(1))
    } else if s == 5 {
        (bytes[0] as int % 0x04) * 0x100000000 + be_value(bytes.skip(1))
    } else if s == 6 {
        (bytes[0] as int % 0x02) * 0x10000000000 + be_value(bytes.skip(1))
    } else if s == 7 {
        be_value(bytes.skip(1))
    } else if s == 8 {
        (bytes[1] as int % 0x80) * 0x1000000000000 + be_value(bytes.skip(2))
    } else if s == 9 {
        (bytes[1] as int % 0x40) * 0x100000000000000 + be_value(bytes.skip(2))
    } else if s == 10 {
        be_value(bytes.skip(2))
    } else {
        0
    }
}

/// The encoding of `v` under the leading-zero discipline: after the zero-bit
/// run and its closing one bit, the payload in big-endian order.
pub open spec fn lz_encode_spec(v: u64) -> Seq<u8> {
    if v <= 0x3F {
        seq![(0x40 + v as int) as u8]
    } else if v <= 0x1FFF {
        seq![(0x20 + v as int / 0x100) as u8] + be_bytes(v as int % 0x100, 1)
    } else if v <= 0xFFFFF {
        seq![(0x10 + v as int / 0x10000) as u8] + be_bytes(v as int % 0x10000, 2)
    } else if v <= 0x7FFFFFF {
        seq![(0x08 + v as int / 0x1000000) as u8] + be_bytes(v as int % 0x1000000, 3)
    } else if v <= 0x3FFFFFFFF {
        seq![(0x04 + v as int / 0x100000000) as u8] + be_bytes(v as int % 0x100000000, 4)
    } else if v <= 0x1FFFFFFFFFF {
        seq![(0x02 + v as int / 0x10000000000) as u8] + be_bytes(v as int % 0x10000000000, 5)
    } else if v <= 0xFFFFFFFFFFFF {
        seq![0x01u8] + be_bytes(v as int, 6)
    } else if v <= 0x7FFFFFFFFFFFFF {
        seq![0x00u8, (0x80 + v as int / 0x1000000000000) as u8] + be_bytes(
            v as int % 0x1000000000000,
            6,
        )
    } else if v <= 0x3FFFFFFFFFFFFFFF {
        seq![0x00u8, (0x40 + v as int / 0x100000000000000) as u8] + be_bytes(
            v as int % 0x100000000000000,
            7,
        )
    } else {
        seq![0x00u8, 0x20u8] + be_bytes(v as int, 8)
    }
}

/// The encoding of `v` under the leading-one discipline: after the one-bit
/// run and its closing zero bit, the payload in big-endian order.
pub open spec fn lo_encode_spec(v: u64) -> Seq<u8> {
    if v <= 0x3F {
        seq![(0x80 + v as int) as u8]
    } else if v <= 0x1FFF {
        seq![(0xC0 + v as int / 0x100) as u8] + be_bytes(v as int % 0x100, 1)
    } else if v <= 0xFFFFF {
        seq![(0xE0 + v as int / 0x10000) as u8] + be_bytes(v as int % 0x10000, 2)
    } else if v <= 0x7FFFFFF {
        seq![(0xF0 + v as int / 0x1000000) as u8] + be_bytes(v as int % 0x1000000, 3)
    } else if v <= 0x3FFFFFFFF {
        seq![(0xF8 + v as int / 0x100000000) as u8] + be_bytes(v as int % 0x100000000, 4)
    } else if v <= 0x1FFFFFFFFFF {
        seq![(0xFC + v as int / 0x10000000000) as u8] + be_bytes(v as int % 0x10000000000, 5)
    } else if v <= 0xFFFFFFFFFFFF {
        seq![0xFEu8] + be_bytes(v as int, 6)
    } else if v <= 0x7FFFFFFFFFFFFF {
        seq![0xFFu8, (v as int / 0x1000000000000) as u8] + be_bytes(v as int % 0x1000000000000, 6)
    } else if v <= 0x3FFFFFFFFFFFFFFF {
        seq![0xFFu8, (0x80 + v as int / 0x100000000000000) as u8] + be_bytes(
            v as int % 0x100000000000000,
            7,
        )
    } else {
        seq![0xFFu8, 0xC0u8] + be_bytes(v as int, 8)
    }
}

/// The byte count of `v` under the common, UTF-8-like discipline.
pub open spec fn common_size_spec(v: u64) -> int {
    if v <= 0x7F {
        1
    } else if v <= 0x3FFF {
        2
    } else if v <= 0x1FFFFF {
        3
    } else if v <= 0xFFFFFFF {
        4
    } else if v <= 0x7FFFFFFFF {
        5
    } else if v <= 0x3FFFFFFFFFF {
        6
    } else if v <= 0x1FFFFFFFFFFFF {
        7
    } else if v <= 0xFFFFFFFFFFFFFF {
        8
    } else {
        9
    }
}

/// The byte count a common head announces: one more than the first byte's
/// leading one bits; a first byte of all ones means the full nine.
pub open spec fn common_head_len(bytes: Seq<u8>) -> int {
    if bytes.len() == 0 {
        1
    } else {
        let o = lo8(bytes[0]);
        if o >= 8 {
            9
        } else {
            1 + o
        }
    }
}

/// The payload a common head carries.
pub open spec fn common_decode_spec(bytes: Seq<u8>) -> int {
    let s = bytes.len();
    if s == 1 {
        bytes[0] as int % 0x80
    } else if s == 2 {
        (bytes[0] as int % 0x40) * 0x100 + be_value(bytes.skip(1))
    } else if s == 3 {
        (bytes[0] as int % 0x20) * 0x10000 + be_value(bytes.skip(1))
    } else if s == 4 {
        (bytes[0] as int % 0x10) * 0x1000000 + be_value(bytes.skip(1))
    } else if s == 5 {
        (bytes[0] as int % 0x08) * 0x100000000 + be_value(bytes.skip(1))
    } else if s == 6 {
        (bytes[0] as int % 0x04) * 0x10000000000 + be_value(bytes.skip(1))
    } else if s == 7 {
        (bytes[0] as int % 0x02) * 0x1000000000000 + be_value(bytes.skip(1))
    } else if s == 8 {
        be_value(bytes.skip(1))
    } else if s == 9 {
        be_value(bytes.skip(1))
    } else {
        0
    }
}

/// The encoding of `v` under the common discipline.
pub open spec fn common_encode_spec(v: u64) -> Seq<u8> {
    if v <= 0x7F {
        seq![v as u8]
    } else if v <= 0x3FFF {
        seq![(0x80 + v as int / 0x100) as u8] + be_bytes(v as int % 0x100, 1)
    } else if v <= 0x1FFFFF {
        seq![(0xC0 + v as int / 0x10000) as u8] + be_bytes(v as int % 0x10000, 2)
    } else if v <= 0xFFFFFFF {
        seq![(0xE0 + v as int / 0x1000000) as u8] + be_bytes(v as int % 0x1000000, 3)
    } else if v <= 0x7FFFFFFFF {
        seq![(0xF0 + v as int / 0x100000000) as u8] + be_bytes(v as int % 0x100000000, 4)
    } else if v <= 0x3FFFFFFFFFF {
        seq![(0xF8 + v as int / 0x10000000000) as u8] + be_bytes(v as int % 0x10000000000, 5)
    } else if v <= 0x1FFFFFFFFFFFF {
        seq![(0xFC + v as int / 0x1000000000000) as u8] + be_bytes(v as int % 0x1000000000000, 6)
    } else if v <= 0xFFFFFFFFFFFFFF {
        seq![0xFEu8] + be_bytes(v as int, 7)
    } else {
        seq![0xFFu8] + be_bytes(v as int, 8)
    }
}

/// One self-delimiting head discipline: how many bytes a value takes, what
/// its encoding is, how a head's byte count is read off its leading bits,
/// and what payload a head of a given byte count carries.
pub trait HeadType {
    /// Byte count of the encoding of `byte_count`.
    spec fn size_spec(byte_count: u64) -> int;

    /// Byte count announced by the leading bits of `bytes`.
    spec fn head_len_spec(bytes: Seq<u8>) -> int;

    /// The encoded head.
    spec fn encode_spec(byte_count: u64) -> Seq<u8>;

    /// The payload of a whole head.
    spec fn decode_spec(bytes: Seq<u8>) -> int;

    /// Decoding inverts encoding: the encoding's length and announced byte
    /// count are `size_spec`, and its payload is the value again.
    proof fn lemma_round_trip(byte_count: u64)
        ensures
            1 <= Self::size_spec(byte_count) <= 10,
            Self::encode_spec(byte_count).len() == Self::size_spec(byte_count),
            Self::head_len_spec(Self::encode_spec(byte_count)) == Self::size_spec(byte_count),
            Self::decode_spec(Self::encode_spec(byte_count)) == byte_count,
    ;

    fn size(byte_count: u64) -> (r: usize)
        ensures
            r == Self::size_spec(byte_count),
    ;

    /// Reads the announced byte count at `at`; a count past any decodable
    /// head is reported as more than ten without being summed to the end.
    fn count(buffer: &[u8], at: usize) -> (r: usize)
        requires
            at <= buffer@.len(),
        ensures
            Self::head_len_spec(buffer@.skip(at as int)) <= 10 ==> r == Self::head_len_spec(
                buffer@.skip(at as int),
            ),
            (r > 10) == (Self::head_len_spec(buffer@.skip(at as int)) > 10),
    ;

    /// Appends the encoding of `byte_count`.
    fn mark(byte_count: u64, out: &mut Vec<u8>)
        ensures
            final(out)@ == old(out)@ + Self::encode_spec(byte_count),
    ;

    /// Reads the payload of the head of `head_size` bytes at `at`.
    fn mask(buffer: &[u8], at: usize, head_size: usize) -> (r: u64)
        requires
            1 <= head_size <= 10,
            at + head_size <= buffer@.len(),
        ensures
            r as int == Self::decode_spec(buffer@.subrange(at as int, at + head_size)),
    ;
}

/// The shared size table of the leading-zero and leading-one heads.
fn leading_size(byte_count: u64) -> (r: usize)
    ensures
        r == leading_size_spec(byte_count),
{
    if byte_count <= 0x3F {
        1
    } else if byte_count <= 0x1FFF {
        2
    } else if byte_count <= 0xFFFFF {
        3
    } else if byte_count <= 0x7FFFFFF {
        4
    } else if byte_count <= 0x3FFFFFFFF {
        5
    } else if byte_count <= 0x1FFFFFFFFFF {
        6
    } else if byte_count <= 0xFFFFFFFFFFFF {
        7
    } else if byte_count <= 0x7FFFFFFFFFFFFF {
        8
    } else if byte_count <= 0x3FFFFFFFFFFFFFFF {
        9
    } else {
        10
    }
}

/// Sums leading zero bits from `at` on; a sum past ten stops early, since no
/// decodable head is that long.
fn leading_count_zeros(buffer: &[u8], at: usize) -> (r: usize)
    requires
        at <= buffer@.len(),
    ensures
        lz_head_len(buffer@.skip(at as int)) <= 10 ==> r == lz_head_len(buffer@.skip(at as int)),
        (r > 10) == (lz_head_len(buffer@.skip(at as int)) > 10),
{
    let len = buffer.len();
    let mut total: usize = 0;
    let mut i: usize = at;
    while i < len && total < 11
        invariant
            at <= i <= len,
            len == buffer@.len(),
            total == 8 * (i - at),
            lz_head_len(buffer@.skip(at as int)) == total + lz_head_len(buffer@.skip(i as int)),
        decreases len - i,
    {
        let z = count_lz8(buffer[i]);
        proof {
            assert(buffer@.skip(i as int)[0] == buffer@[i as int]);
            assert(buffer@.skip(i as int).skip(1) =~= buffer@.skip(i as int + 1));
        }
        if z < 8 {
            proof {
                assert(lz_head_len(buffer@.skip(i as int)) == z);
            }
            return total + z;
        }
        total = total + 8;
        i = i + 1;
    }
    proof {
        if i == len {
            assert(buffer@.skip(i as int) =~= Seq::empty());
        } else {
            lemma_lz_head_len_nonneg(buffer@.skip(i as int));
        }
    }
    total
}

/// Sums leading one bits from `at` on, stopping past ten as above.
fn leading_count_ones(buffer: &[u8], at: usize) -> (r: usize)
    requires
        at <= buffer@.len(),
    ensures
        lo_head_len(buffer@.skip(at as int)) <= 10 ==> r == lo_head_len(buffer@.skip(at as int)),
        (r > 10) == (lo_head_len(buffer@.skip(at as int)) > 10),
{
    let len = buffer.len();
    let mut total: usize = 0;
    let mut i: usize = at;
    while i < len && total < 11
        invariant
            at <= i <= len,
            len == buffer@.len(),
            total == 8 * (i - at),
            lo_head_len(buffer@.skip(at as int)) == total + lo_head_len(buffer@.skip(i as int)),
        decreases len - i,
    {
        let o = count_lo8(buffer[i]);
        proof {
            assert(buffer@.skip(i as int)[0] == buffer@[i as int]);
            assert(buffer@.skip(i as int).skip(1) =~= buffer@.skip(i as int + 1));
        }
        if o < 8 {
            proof {
                assert(lo_head_len(buffer@.skip(i as int)) == o);
            }
            return total + o;
        }
        total = total + 8;
        i = i + 1;
    }
    proof {
        if i == len {
            assert(buffer@.skip(i as int) =~= Seq::empty());
        } else {
            lemma_lo_head_len_nonneg(buffer@.skip(i as int));
        }
    }
    total
}

/// Reads the payload of a leading-zero or leading-one head: the shared masks
/// strip the tag bits off the first two bytes; the rest is big-endian.
fn leading_mask(buffer: &[u8], at: usize, head_size: usize) -> (r: u64)
    requires
        1 <= head_size <= 10,
        at + head_size <= buffer@.len(),
    ensures
        r as int == leading_decode_spec(buffer@.subrange(at as int, at + head_size)),
{
    let len = buffer.len();
    proof {
        assert(at + head_size <= len);
    }
    let ghost h = buffer@.subrange(at as int, at + head_size);
    proof {
        lemma_pow256_values();
        assert(h[0] == buffer@[at as int]);
        if head_size >= 2 {
            assert(h[1] == buffer@[at + 1]);
        }
    }
    let r: u64 = if head_size == 1 {
        (buffer[at] % 0x40) as u64
    } else if head_size == 2 {
        proof {
            assert(h.skip(1) =~= buffer@.subrange(at + 1, at + 2));
            lemma_be_value_bound(h.skip(1));
        }
        ((buffer[at] % 0x20) as u64) * 0x100 + be_read(buffer, at + 1, 1)
    } else if head_size == 3 {
        proof {
            assert(h.skip(1) =~= buffer@.subrange(at + 1, at + 3));
            lemma_be_value_bound(h.skip(1));
        }
        ((buffer[at] % 0x10) as u64) * 0x10000 + be_read(buffer, at + 1, 2)
    } else if head_size == 4 {
        proof {
            assert(h.skip(1) =~= buffer@.subrange(at + 1, at + 4));
            lemma_be_value_bound(h.skip(1));
        }
        ((buffer[at] % 0x08) as u64) * 0x1000000 + be_read(buffer, at + 1, 3)
    } else if head_size == 5 {
        proof {
            assert(h.skip(1) =~= buffer@.subrange(at + 1, at + 5));
            lemma_be_value_bound(h.skip(1));
        }
        ((buffer[at] % 0x04) as u64) * 0x100000000 + be_read(buffer, at + 1, 4)
    } else if head_size == 6 {
        proof {
            assert(h.skip(1) =~= buffer@.subrange(at + 1, at + 6));
            lemma_be_value_bound(h.skip(1));
        }
        ((buffer[at] % 0x02) as u64) * 0x10000000000 + be_read(buffer, at + 1, 5)
    } else if head_size == 7 {
        proof {
            assert(h.skip(1) =~= buffer@.subrange(at + 1, at + 7));
        }
        be_read(buffer, at + 1, 6)
    } else if head_size == 8 {
        proof {
            assert(h.skip(2) =~= buffer@.subrange(at + 2, at + 8));
            lemma_be_value_bound(h.skip(2));
        }
        ((buffer[at + 1] % 0x80) as u64) * 0x1000000000000 + be_read(buffer, at + 2, 6)
    } else if head_size == 9 {
        proof {
            assert(h.skip(2) =~= buffer@.subrange(at + 2, at + 9));
            lemma_be_value_bound(h.skip(2));
        }
        ((buffer[at + 1] % 0x40) as u64) * 0x100000000000000 + be_read(buffer, at + 2, 7)
    } else {
        proof {
            assert(h.skip(2) =~= buffer@.subrange(at + 2, at + 10));
        }
        be_read(buffer, at + 2, 8)
    };
    r
}

/// The round trip of the leading-zero discipline, case by case over the
/// boundary table.
proof fn lemma_lz_round_trip(v: u64)
    ensures
        1 <= leading_size_spec(v) <= 10,
        lz_encode_spec(v).len() == leading_size_spec(v),
        lz_head_len(lz_encode_spec(v)) == leading_size_spec(v),
        leading_decode_spec(lz_encode_spec(v)) == v,
{
    lemma_pow256_values();
    let e = lz_encode_spec(v);
    if v <= 0x3F {
        assert(e[0] == (0x40 + v as int) as u8);
    } else if v <= 0x1FFF {
        lemma_be_bytes_value(v as int % 0x100, 1);
        assert(e[0] as int == 0x20 + v as int / 0x100);
        assert(e.skip(1) =~= be_bytes(v as int % 0x100, 1));
    } else if v <= 0xFFFFF {
        lemma_be_bytes_value(v as int % 0x10000, 2);
        assert(e[0] as int == 0x10 + v as int / 0x10000);
        assert(e.skip(1) =~= be_bytes(v as int % 0x10000, 2));
    } else if v <= 0x7FFFFFF {
        lemma_be_bytes_value(v as int % 0x1000000, 3);
        assert(e[0] as int == 0x08 + v as int / 0x1000000);
        assert(e.skip(1) =~= be_bytes(v as int % 0x1000000, 3));
    } else if v <= 0x3FFFFFFFF {
        lemma_be_bytes_value(v as int % 0x100000000, 4);
        assert(e[0] as int == 0x04 + v as int / 0x100000000);
        assert(e.skip(1) =~= be_bytes(v as int % 0x100000000, 4));
    } else if v <= 0x1FFFFFFFFFF {
        lemma_be_bytes_value(v as int % 0x10000000000, 5);
        assert(e[0] as int == 0x02 + v as int / 0x10000000000);
        assert(e.skip(1) =~= be_bytes(v as int % 0x10000000000, 5));
    } else if v <= 0xFFFFFFFFFFFF {
        lemma_be_bytes_value(v as int, 6);
        assert(e[0] as int == 0x01);
        assert(e.skip(1) =~= be_bytes(v as int, 6));
    } else if v <= 0x7FFFFFFFFFFFFF {
        lemma_be_bytes_value(v as int % 0x1000000000000, 6);
        assert(e[0] == 0x00u8);
        assert(e[1] as int == 0x80 + v as int / 0x1000000000000);
        assert(e.skip(1) =~= seq![e[1]] + be_bytes(v as int % 0x1000000000000, 6));
        assert(e.skip(1)[0] == e[1]);
        assert(e.skip(2) =~= be_bytes(v as int % 0x1000000000000, 6));
        assert(lz_head_len(e) == 8 + lz_head_len(e.skip(1)));
    } else if v <= 0x3FFFFFFFFFFFFFFF {
        lemma_be_bytes_value(v as int % 0x100000000000000, 7);
        assert(e[0] == 0x00u8);
        assert(e[1] as int == 0x40 + v as int / 0x100000000000000);
        assert(e.skip(1) =~= seq![e[1]] + be_bytes(v as int % 0x100000000000000, 7));
        assert(e.skip(1)[0] == e[1]);
        assert(e.skip(2) =~= be_bytes(v as int % 0x100000000000000, 7));
        assert(lz_head_len(e) == 8 + lz_head_len(e.skip(1)));
    } else {
        lemma_be_bytes_value(v as int, 8);
        assert(e[0] == 0x00u8);
        assert(e[1] == 0x20u8);
        assert(e.skip(1) =~= seq![e[1]] + be_bytes(v as int, 8));
        assert(e.skip(1)[0] == e[1]);
        assert(e.skip(2) =~= be_bytes(v as int, 8));
        assert(lz_head_len(e) == 8 + lz_head_len(e.skip(1)));
    }
}

/// The round trip of the leading-one discipline.
proof fn lemma_lo_round_trip(v: u64)
    ensures
        1 <= leading_size_spec(v) <= 10,
        lo_encode_spec(v).len() == leading_size_spec(v),
        lo_head_len(lo_encode_spec(v)) == leading_size_spec(v),
        leading_decode_spec(lo_encode_spec(v)) == v,
{
    lemma_pow256_values();
    let e = lo_encode_spec(v);
    if v <= 0x3F {
        assert(e[0] == (0x80 + v as int) as u8);
    } else if v <= 0x1FFF {
        lemma_be_bytes_value(v as int % 0x100, 1);
        assert(e[0] as int == 0xC0 + v as int / 0x100);
        assert(e.skip(1) =~= be_bytes(v as int % 0x100, 1));
    } else if v <= 0xFFFFF {
        lemma_be_bytes_value(v as int % 0x10000, 2);
        assert(e[0] as int == 0xE0 + v as int / 0x10000);
        assert(e.skip(1) =~= be_bytes(v as int % 0x10000, 2));
    } else if v <= 0x7FFFFFF {
        lemma_be_bytes_value(v as int % 0x1000000, 3);
        assert(e[0] as int == 0xF0 + v as int / 0x1000000);
        assert(e.skip(1) =~= be_bytes(v as int % 0x1000000, 3));
    } else if v <= 0x3FFFFFFFF {
        lemma_be_bytes_value(v as int % 0x100000000, 4);
        assert(e[0] as int == 0xF8 + v as int / 0x100000000);
        assert(e.skip(1) =~= be_bytes(v as int % 0x100000000, 4));
    } else if v <= 0x1FFFFFFFFFF {
        lemma_be_bytes_value(v as int % 0x10000000000, 5);
        assert(e[0] as int == 0xFC + v as int / 0x10000000000);
        assert(e.skip(1) =~= be_bytes(v as int % 0x10000000000, 5));
    } else if v <= 0xFFFFFFFFFFFF {
        lemma_be_bytes_value(v as int, 6);
        assert(e[0] == 0xFEu8);
        assert(e.skip(1) =~= be_bytes(v as int, 6));
    } else if v <= 0x7FFFFFFFFFFFFF {
        lemma_be_bytes_value(v as int % 0x1000000000000, 6);
        assert(e[0] == 0xFFu8);
        assert(e[1] as int == v as int / 0x1000000000000);
        assert(e[1] < 0x80);
        assert(e.skip(1) =~= seq![e[1]] + be_bytes(v as int % 0x1000000000000, 6));
        assert(e.skip(1)[0] == e[1]);
        assert(e.skip(2) =~= be_bytes(v as int % 0x1000000000000, 6));
        assert(lo_head_len(e) == 8 + lo_head_len(e.skip(1)));
    } else if v <= 0x3FFFFFFFFFFFFFFF {
        lemma_be_bytes_value(v as int % 0x100000000000000, 7);
        assert(e[0] == 0xFFu8);
        assert(e[1] as int == 0x80 + v as int / 0x100000000000000);
        assert(e.skip(1) =~= seq![e[1]] + be_bytes(v as int % 0x100000000000000, 7));
        assert(e.skip(1)[0] == e[1]);
        assert(e.skip(2) =~= be_bytes(v as int % 0x100000000000000, 7));
        assert(lo_head_len(e) == 8 + lo_head_len(e.skip(1)));
    } else {
        lemma_be_bytes_value(v as int, 8);
        assert(e[0] == 0xFFu8);
        assert(e[1] == 0xC0u8);
        assert(e.skip(1) =~= seq![e[1]] + be_bytes(v as int, 8));
        assert(e.skip(1)[0] == e[1]);
        assert(e.skip(2) =~= be_bytes(v as int, 8));
        assert(lo_head_len(e) == 8 + lo_head_len(e.skip(1)));
    }
}

/// The round trip of the common discipline.
proof fn lemma_common_round_trip(v: u64)
    ensures
        1 <= common_size_spec(v) <= 9,
        common_encode_spec(v).len() == common_size_spec(v),
        common_head_len(common_encode_spec(v)) == common_size_spec(v),
        common_decode_spec(common_encode_spec(v)) == v,
{
    lemma_pow256_values();
    let e = common_encode_spec(v);
    if v <= 0x7F {
        assert(e[0] == v as u8);
    } else if v <= 0x3FFF {
        lemma_be_bytes_value(v as int % 0x100, 1);
        assert(e[0] as int == 0x80 + v as int / 0x100);
        assert(e.skip(1) =~= be_bytes(v as int % 0x100, 1));
    } else if v <= 0x1FFFFF {
        lemma_be_bytes_value(v as int % 0x10000, 2);
        assert(e[0] as int == 0xC0 + v as int / 0x10000);
        assert(e.skip(1) =~= be_bytes(v as int % 0x10000, 2));
    } else if v <= 0xFFFFFFF {
        lemma_be_bytes_value(v as int % 0x1000000, 3);
        assert(e[0] as int == 0xE0 + v as int / 0x1000000);
        assert(e.skip(1) =~= be_bytes(v as int % 0x1000000, 3));
    } else if v <= 0x7FFFFFFFF {
        lemma_be_bytes_value(v as int % 0x100000000, 4);
        assert(e[0] as int == 0xF0 + v as int / 0x100000000);
        assert(e.skip(1) =~= be_bytes(v as int % 0x100000000, 4));
    } else if v <= 0x3FFFFFFFFFF {
        lemma_be_bytes_value(v as int % 0x10000000000, 5);
        assert(e[0] as int == 0xF8 + v as int / 0x10000000000);
        assert(e.skip(1) =~= be_bytes(v as int % 0x10000000000, 5));
    } else if v <= 0x1FFFFFFFFFFFF {
        lemma_be_bytes_value(v as int % 0x1000000000000, 6);
        assert(e[0] as int == 0xFC + v as int / 0x1000000000000);
        assert(e[0] < 0xFE);
        assert(e.skip(1) =~= be_bytes(v as int % 0x1000000000000, 6));
    } else if v <= 0xFFFFFFFFFFFFFF {
        lemma_be_bytes_value(v as int, 7);
        assert(e[0] == 0xFEu8);
        assert(e.skip(1) =~= be_bytes(v as int, 7));
    } else {
        lemma_be_bytes_value(v as int, 8);
        assert(e[0] == 0xFFu8);
        assert(e.skip(1) =~= be_bytes(v as int, 8));
    }
}

/// Appends the leading-zero encoding of `v`.
fn lz_mark(v: u64, out: &mut Vec<u8>)
    ensures
        final(out)@ == old(out)@ + lz_encode_spec(v),
{
    let ghost base = out@;
    proof {
        lemma_pow256_values();
    }
    if v <= 0x3F {
        out.push((0x40 + v) as u8);
        proof {
            assert(out@ =~= base + lz_encode_spec(v));
        }
    } else if v <= 0x1FFF {
        out.push((0x20 + v / 0x100) as u8);
        push_be(out, v % 0x100, 1);
        proof {
            assert(out@ =~= base + lz_encode_spec(v));
        }
    } else if v <= 0xFFFFF {
        out.push((0x10 + v / 0x10000) as u8);
        push_be(out, v % 0x10000, 2);
        proof {
            assert(out@ =~= base + lz_encode_spec(v));
        }
    } else if v <= 0x7FFFFFF {
        out.push((0x08 + v / 0x1000000) as u8);
        push_be(out, v % 0x1000000, 3);
        proof {
            assert(out@ =~= base + lz_encode_spec(v));
        }
    } else if v <= 0x3FFFFFFFF {
        out.push((0x04 + v / 0x100000000) as u8);
        push_be(out, v % 0x100000000, 4);
        proof {
            assert(out@ =~= base + lz_encode_spec(v));
        }
    } else if v <= 0x1FFFFFFFFFF {
        out.push((0x02 + v / 0x10000000000) as u8);
        push_be(out, v % 0x10000000000, 5);
        proof {
            assert(out@ =~= base + lz_encode_spec(v));
        }
    } else if v <= 0xFFFFFFFFFFFF {
        out.push(0x01);
        push_be(out, v, 6);
        proof {
            assert(out@ =~= base + lz_encode_spec(v));
        }
    } else if v <= 0x7FFFFFFFFFFFFF {
        out.push(0x00);
        out.push((0x80 + v / 0x1000000000000) as u8);
        push_be(out, v % 0x1000000000000, 6);
        proof {
            assert(out@ =~= base + lz_encode_spec(v));
        }
    } else if v <= 0x3FFFFFFFFFFFFFFF {
        out.push(0x00);
        out.push((0x40 + v / 0x100000000000000) as u8);
        push_be(out, v % 0x100000000000000, 7);
        proof {
            assert(out@ =~= base + lz_encode_spec(v));
        }
    } else {
        out.push(0x00);
        out.push(0x20);
        push_be(out, v, 8);
        proof {
            assert(out@ =~= base + lz_encode_spec(v));
        }
    }
}

/// Appends the leading-one encoding of `v`.
fn lo_mark(v: u64, out: &mut Vec<u8>)
    ensures
        final(out)@ == old(out)@ + lo_encode_spec(v),
{
    let ghost base = out@;
    proof {
        lemma_pow256_values();
    }
    if v <= 0x3F {
        out.push((0x80 + v) as u8);
        proof {
            assert(out@ =~= base + lo_encode_spec(v));
        }
    } else if v <= 0x1FFF {
        out.push((0xC0 + v / 0x100) as u8);
        push_be(out, v % 0x100, 1);
        proof {
            assert(out@ =~= base + lo_encode_spec(v));
        }
    } else if v <= 0xFFFFF {
        out.push((0xE0 + v / 0x10000) as u8);
        push_be(out, v % 0x10000, 2);
        proof {
            assert(out@ =~= base + lo_encode_spec(v));
        }
    } else if v <= 0x7FFFFFF {
        out.push((0xF0 + v / 0x1000000) as u8);
        push_be(out, v % 0x1000000, 3);
        proof {
            assert(out@ =~= base + lo_encode_spec(v));
        }
    } else if v <= 0x3FFFFFFFF {
        out.push((0xF8 + v / 0x100000000) as u8);
        push_be(out, v % 0x100000000, 4);
        proof {
            assert(out@ =~= base + lo_encode_spec(v));
        }
    } else if v <= 0x1FFFFFFFFFF {
        out.push((0xFC + v / 0x10000000000) as u8);
        push_be(out, v % 0x10000000000, 5);
        proof {
            assert(out@ =~= base + lo_encode_spec(v));
        }
    } else if v <= 0xFFFFFFFFFFFF {
        out.push(0xFE);
        push_be(out, v, 6);
        proof {
            assert(out@ =~= base + lo_encode_spec(v));
        }
    } else if v <= 0x7FFFFFFFFFFFFF {
        out.push(0xFF);
        out.push((v / 0x1000000000000) as u8);
        push_be(out, v % 0x1000000000000, 6);
        proof {
            assert(out@ =~= base + lo_encode_spec(v));
        }
    } else if v <= 0x3FFFFFFFFFFFFFFF {
        out.push(0xFF);
        out.push((0x80 + v / 0x100000000000000) as u8);
        push_be(out, v % 0x100000000000000, 7);
        proof {
            assert(out@ =~= base + lo_encode_spec(v));
        }
    } else {
        out.push(0xFF);
        out.push(0xC0);
        push_be(out, v, 8);
        proof {
            assert(out@ =~= base + lo_encode_spec(v));
        }
    }
}

/// Appends the common encoding of `v`.
fn common_mark(v: u64, out: &mut Vec<u8>)
    ensures
        final(out)@ == old(out)@ + common_encode_spec(v),
{
    let ghost base = out@;
    proof {
        lemma_pow256_values();
    }
    if v <= 0x7F {
        out.push(v as u8);
        proof {
            assert(out@ =~= base + common_encode_spec(v));
        }
    } else if v <= 0x3FFF {
        out.push((0x80 + v / 0x100) as u8);
        push_be(out, v % 0x100, 1);
        proof {
            assert(out@ =~= base + common_encode_spec(v));
        }
    } else if v <= 0x1FFFFF {
        out.push((0xC0 + v / 0x10000) as u8);
        push_be(out, v % 0x10000, 2);
        proof {
            assert(out@ =~= base + common_encode_spec(v));
        }
    } else if v <= 0xFFFFFFF {
        out.push((0xE0 + v / 0x1000000) as u8);
        push_be(out, v % 0x1000000, 3);
        proof {
            assert(out@ =~= base + common_encode_spec(v));
        }
    } else if v <= 0x7FFFFFFFF {
        out.push((0xF0 + v / 0x100000000) as u8);
        push_be(out, v % 0x100000000, 4);
        proof {
            assert(out@ =~= base + common_encode_spec(v));
        }
    } else if v <= 0x3FFFFFFFFFF {
        out.push((0xF8 + v / 0x10000000000) as u8);
        push_be(out, v % 0x10000000000, 5);
        proof {
            assert(out@ =~= base + common_encode_spec(v));
        }
    } else if v <= 0x1FFFFFFFFFFFF {
        out.push((0xFC + v / 0x1000000000000) as u8);
        push_be(out, v % 0x1000000000000, 6);
        proof {
            assert(out@ =~= base + common_encode_spec(v));
        }
    } else if v <= 0xFFFFFFFFFFFFFF {
        out.push(0xFE);
        push_be(out, v, 7);
        proof {
            assert(out@ =~= base + common_encode_spec(v));
        }
    } else {
        out.push(0xFF);
        push_be(out, v, 8);
        proof {
            assert(out@ =~= base + common_encode_spec(v));
        }
    }
}

/// Reads the payload of a common head.
fn common_mask(buffer: &[u8], at: usize, head_size: usize) -> (r: u64)
    requires
        1 <= head_size <= 9,
        at + head_size <= buffer@.len(),
    ensures
        r as int == common_decode_spec(buffer@.subrange(at as int, at + head_size)),
{
    let len = buffer.len();
    proof {
        assert(at + head_size <= len);
    }
    let ghost h = buffer@.subrange(at as int, at + head_size);
    proof {
        lemma_pow256_values();
        assert(h[0] == buffer@[at as int]);
        if head_size >= 2 {
            assert(h.skip(1) =~= buffer@.subrange(at + 1, at + head_size));
            lemma_be_value_bound(h.skip(1));
        }
    }
    if head_size == 1 {
        (buffer[at] % 0x80) as u64
    } else if head_size == 2 {
        ((buffer[at] % 0x40) as u64) * 0x100 + be_read(buffer, at + 1, 1)
    } else if head_size == 3 {
        ((buffer[at] % 0x20) as u64) * 0x10000 + be_read(buffer, at + 1, 2)
    } else if head_size == 4 {
        ((buffer[at] % 0x10) as u64) * 0x1000000 + be_read(buffer, at + 1, 3)
    } else if head_size == 5 {
        ((buffer[at] % 0x08) as u64) * 0x100000000 + be_read(buffer, at + 1, 4)
    } else if head_size == 6 {
        ((buffer[at] % 0x04) as u64) * 0x10000000000 + be_read(buffer, at + 1, 5)
    } else if head_size == 7 {
        ((buffer[at] % 0x02) as u64) * 0x1000000000000 + be_read(buffer, at + 1, 6)
    } else if head_size == 8 {
        be_read(buffer, at + 1, 7)
    } else {
        be_read(buffer, at + 1, 8)
    }
}

/// The leading-zero discipline: the head is a run of zero bits closed by a
/// one bit, one bit of run per byte of total length.
pub struct LeadingZero;

impl HeadType for LeadingZero {
    open spec fn size_spec(byte_count: u64) -> int {
        leading_size_spec(byte_count)
    }

    open spec fn head_len_spec(bytes: Seq<u8>) -> int {
        lz_head_len(bytes)
    }

    open spec fn encode_spec(byte_count: u64) -> Seq<u8> {
        lz_encode_spec(byte_count)
    }

    open spec fn decode_spec(bytes: Seq<u8>) -> int {
        leading_decode_spec(bytes)
    }

    proof fn lemma_round_trip(byte_count: u64) {
        lemma_lz_round_trip(byte_count);
    }

    fn size(byte_count: u64) -> (r: usize) {
        leading_size(byte_count)
    }

    fn count(buffer: &[u8], at: usize) -> (r: usize) {
        leading_count_zeros(buffer, at)
    }

    fn mark(byte_count: u64, out: &mut Vec<u8>) {
        lz_mark(byte_count, out);
    }

    fn mask(buffer: &[u8], at: usize, head_size: usize) -> (r: u64) {
        leading_mask(buffer, at, head_size)
    }
}

/// The leading-one discipline: the dual head, a run of one bits closed by a
/// zero bit.
pub struct LeadingOne;

impl HeadType for LeadingOne {
    open spec fn size_spec(byte_count: u64) -> int {
        leading_size_spec(byte_count)
    }

    open spec fn head_len_spec(bytes: Seq<u8>) -> int {
        lo_head_len(bytes)
    }

    open spec fn encode_spec(byte_count: u64) -> Seq<u8> {
        lo_encode_spec(byte_count)
    }

    open spec fn decode_spec(bytes: Seq<u8>) -> int {
        leading_decode_spec(bytes)
    }

    proof fn lemma_round_trip(byte_count: u64) {
        lemma_lo_round_trip(byte_count);
    }

    fn size(byte_count: u64) -> (r: usize) {
        leading_size(byte_count)
    }

    fn count(buffer: &[u8], at: usize) -> (r: usize) {
        leading_count_ones(buffer, at)
    }

    fn mark(byte_count: u64, out: &mut Vec<u8>) {
        lo_mark(byte_count, out);
    }

    fn mask(buffer: &[u8], at: usize, head_size: usize) -> (r: u64) {
        leading_mask(buffer, at, head_size)
    }
}

/// The common, UTF-8-like discipline: the run of one bits is one shorter
/// than the byte count, and a first byte of all ones means nine bytes.
pub struct Common;

impl HeadType for Common {
    open spec fn size_spec(byte_count: u64) -> int {
        common_size_spec(byte_count)
    }

    open spec fn head_len_spec(bytes: Seq<u8>) -> int {
        common_head_len(bytes)
    }

    open spec fn encode_spec(byte_count: u64) -> Seq<u8> {
        common_encode_spec(byte_count)
    }

    open spec fn decode_spec(bytes: Seq<u8>) -> int {
        common_decode_spec(bytes)
    }

    proof fn lemma_round_trip(byte_count: u64) {
        lemma_common_round_trip(byte_count);
    }

    fn size(byte_count: u64) -> (r: usize) {
        if byte_count <= 0x7F {
            1
        } else if byte_count <= 0x3FFF {
            2
        } else if byte_count <= 0x1FFFFF {
            3
        } else if byte_count <= 0xFFFFFFF {
            4
        } else if byte_count <= 0x7FFFFFFFF {
            5
        } else if byte_count <= 0x3FFFFFFFFFF {
            6
        } else if byte_count <= 0x1FFFFFFFFFFFF {
            7
        } else if byte_count <= 0xFFFFFFFFFFFFFF {
            8
        } else {
            9
        }
    }

    fn count(buffer: &[u8], at: usize) -> (r: usize) {
        if at < buffer.len() {
            let b = buffer[at];
            proof {
                assert(buffer@.skip(at as int)[0] == buffer@[at as int]);
            }
            if b == 0xFF {
                9
            } else {
                1 + count_lo8(b)
            }
        } else {
            proof {
                assert(buffer@.skip(at as int).len() == 0);
            }
            1
        }
    }

    fn mark(byte_count: u64, out: &mut Vec<u8>) {
        common_mark(byte_count, out);
    }

    fn mask(buffer: &[u8], at: usize, head_size: usize) -> (r: u64) {
        if head_size <= 9 {
            common_mask(buffer, at, head_size)
        } else {
            0
        }
    }
}

/// The generic face of one head discipline: measuring, writing and reading a
/// self-delimiting integer.
pub struct Head<H: HeadType> {
    phantom: core::marker::PhantomData<H>,
}

impl<H: HeadType> Head<H> {
    /// How many bytes the encoding of `data` takes.
    pub fn measure(data: &u64) -> (r: usize)
        ensures
            r == H::size_spec(*data),
    {
        H::size(*data)
    }

    /// Appends the encoding of `data` and says how many bytes it wrote.
    pub fn compress(data: &u64, out: &mut Vec<u8>) -> (r: usize)
        ensures
            final(out)@ == old(out)@ + H::encode_spec(*data),
            r == H::size_spec(*data),
            1 <= r <= 10,
    {
        proof {
            H::lemma_round_trip(*data);
        }
        let r = H::size(*data);
        H::mark(*data, out);
        r
    }

    /// A fresh value for `extract` to fill.
    pub fn prepare(_buffer: &[u8]) -> (r: u64)
        ensures
            r == 0,
    {
        0
    }

    /// Reads the head at `at`: fills `data` with its payload and says how
    /// many bytes it spanned. The head must lie whole in the buffer; the
    /// caller checks that with `count` first.
    pub fn extract(buffer: &[u8], at: usize, data: &mut u64) -> (r: usize)
        requires
            at <= buffer@.len(),
            1 <= H::head_len_spec(buffer@.skip(at as int)) <= 10,
            at + H::head_len_spec(buffer@.skip(at as int)) <= buffer@.len(),
        ensures
            r == H::head_len_spec(buffer@.skip(at as int)),
            *final(data) as int == H::decode_spec(buffer@.subrange(at as int, at + r)),
    {
        let head_size = H::count(buffer, at);
        let v = H::mask(buffer, at, head_size);
        *data = v;
        head_size
    }
}

/// One leading-zero head taken off the front of `bytes`: its payload and
/// byte count, or nothing where no whole decodable head lies there.
pub open spec fn take_lz(bytes: Seq<u8>) -> Option<(int, int)> {
    let h = lz_head_len(bytes);
    if 1 <= h <= 10 && h <= bytes.len() {
        Some((leading_decode_spec(bytes.subrange(0, h)), h))
    } else {
        None
    }
}

/// One leading-one head taken off the front of `bytes`, as above.
pub open spec fn take_lo(bytes: Seq<u8>) -> Option<(int, int)> {
    let h = lo_head_len(bytes);
    if 1 <= h <= 10 && h <= bytes.len() {
        Some((leading_decode_spec(bytes.subrange(0, h)), h))
    } else {
        None
    }
}

} // verus!
