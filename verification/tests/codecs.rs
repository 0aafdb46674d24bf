use azuki::head::{Common, Head, HeadType, LeadingOne, LeadingZero};
use azuki::match_layout::{
    Match, MatchLayout, MatchLayoutC2L13, MatchLayoutC3L12, MatchLayoutC4L11, MatchLayoutL7C8,
    MatchLayoutTrait,
};
use azuki::packed_bits::PackedBits;

fn head_roundtrip<H: HeadType>(v: u64) -> (usize, Vec<u8>) {
    let mut out: Vec<u8> = Vec::new();
    let written = Head::<H>::compress(&v, &mut out);
    assert_eq!(written, out.len());
    assert_eq!(written, Head::<H>::measure(&v));
    let counted = H::count(&out, 0);
    assert_eq!(counted, written);
    let mut data: u64 = Head::<H>::prepare(&out);
    assert_eq!(data, 0);
    let read = Head::<H>::extract(&out, 0, &mut data);
    assert_eq!(read, written);
    assert_eq!(data, v);
    (written, out)
}

const BOUNDARY_VALUES: [u64; 8] = [0, 1, 0x3F, 0x40, 0x1FFF, 0x2000, 0xFFFFFFFF, u64::MAX];

#[test]
fn leading_zero_boundary_values_roundtrip() {
    let expected_sizes: [usize; 8] = [1, 1, 1, 2, 2, 3, 5, 10];
    for k in 0..BOUNDARY_VALUES.len() {
        let (size, _) = head_roundtrip::<LeadingZero>(BOUNDARY_VALUES[k]);
        assert_eq!(size, expected_sizes[k]);
    }
}

#[test]
fn leading_one_boundary_values_roundtrip() {
    let expected_sizes: [usize; 8] = [1, 1, 1, 2, 2, 3, 5, 10];
    for k in 0..BOUNDARY_VALUES.len() {
        let (size, _) = head_roundtrip::<LeadingOne>(BOUNDARY_VALUES[k]);
        assert_eq!(size, expected_sizes[k]);
    }
}

#[test]
fn common_boundary_values_roundtrip() {
    let expected_sizes: [usize; 8] = [1, 1, 1, 1, 2, 2, 5, 9];
    for k in 0..BOUNDARY_VALUES.len() {
        let (size, _) = head_roundtrip::<Common>(BOUNDARY_VALUES[k]);
        assert_eq!(size, expected_sizes[k]);
    }
}

#[test]
fn common_own_boundaries_roundtrip() {
    let values: [u64; 6] = [0x7F, 0x80, 0x3FFF, 0x4000, 0xFFFFFFFFFFFFFF, 0x100000000000000];
    let expected_sizes: [usize; 6] = [1, 2, 2, 3, 8, 9];
    for k in 0..values.len() {
        let (size, _) = head_roundtrip::<Common>(values[k]);
        assert_eq!(size, expected_sizes[k]);
    }
}

#[test]
fn leading_zero_exact_bytes() {
    let (_, zero) = head_roundtrip::<LeadingZero>(0);
    assert_eq!(zero, vec![0x40]);
    let (_, top1) = head_roundtrip::<LeadingZero>(0x3F);
    assert_eq!(top1, vec![0x7F]);
    let (_, two) = head_roundtrip::<LeadingZero>(0x40);
    assert_eq!(two, vec![0x20, 0x40]);
}

#[test]
fn leading_one_exact_bytes() {
    let (_, zero) = head_roundtrip::<LeadingOne>(0);
    assert_eq!(zero, vec![0x80]);
    let (_, one) = head_roundtrip::<LeadingOne>(1);
    assert_eq!(one, vec![0x81]);
    let (_, two) = head_roundtrip::<LeadingOne>(0x40);
    assert_eq!(two, vec![0xC0, 0x40]);
}

#[test]
fn common_exact_bytes() {
    let (_, one) = head_roundtrip::<Common>(0x7F);
    assert_eq!(one, vec![0x7F]);
    let (_, two) = head_roundtrip::<Common>(0x80);
    assert_eq!(two, vec![0x80, 0x80]);
}

#[test]
fn leading_heads_are_distinguished_by_first_bit() {
    for v in BOUNDARY_VALUES {
        let mut lz: Vec<u8> = Vec::new();
        Head::<LeadingZero>::compress(&v, &mut lz);
        assert!(lz[0] < 0x80, "a leading-zero head starts with a zero bit");
        let mut lo: Vec<u8> = Vec::new();
        Head::<LeadingOne>::compress(&v, &mut lo);
        assert!(lo[0] >= 0x80, "a leading-one head starts with a one bit");
    }
}

fn layout_roundtrip<M: MatchLayoutTrait>() {
    let max_left = M::max_left();
    let max_count = M::max_count();
    let corners = [
        (1, 1),
        (1, max_count),
        (max_left, 1),
        (max_left, max_count),
        (max_left / 2 + 1, max_count / 2 + 1),
    ];
    for (left, count) in corners {
        let token = M::write(left, count);
        assert!(token[0] >= 0x80, "a match token's first bit is one");
        assert!(M::check(&token));
        let m = M::read(&token);
        assert_eq!(m.left, left);
        assert_eq!(m.count, count);
    }
    assert!(!M::check(&[0x7F, 0xFF]));
}

#[test]
fn match_layout_c2l13_roundtrip() {
    layout_roundtrip::<MatchLayoutC2L13>();
    assert_eq!(MatchLayoutC2L13::max_left(), 8192);
    assert_eq!(MatchLayoutC2L13::max_count(), 4);
}

#[test]
fn match_layout_c3l12_roundtrip() {
    layout_roundtrip::<MatchLayoutC3L12>();
    assert_eq!(MatchLayoutC3L12::max_left(), 4096);
    assert_eq!(MatchLayoutC3L12::max_count(), 8);
    let token = MatchLayoutC3L12::write(1, 8);
    assert_eq!(token, [0xF0, 0x00]);
}

#[test]
fn match_layout_c4l11_roundtrip() {
    layout_roundtrip::<MatchLayoutC4L11>();
    assert_eq!(MatchLayoutC4L11::max_left(), 2048);
    assert_eq!(MatchLayoutC4L11::max_count(), 16);
}

#[test]
fn match_layout_l7c8_roundtrip() {
    layout_roundtrip::<MatchLayoutL7C8>();
    assert_eq!(MatchLayoutL7C8::max_left(), 128);
    assert_eq!(MatchLayoutL7C8::max_count(), 256);
}

#[test]
fn match_token_heads_roundtrip() {
    let cases = [(1usize, 1usize), (1, 8), (4096, 3), (100000, 77)];
    for (left, count) in cases {
        let m = Match { left, count };
        let mut out: Vec<u8> = Vec::new();
        let written = MatchLayout::compress(&m, &mut out);
        assert_eq!(written, out.len());
        assert_eq!(written, MatchLayout::measure(&m));
        assert!(MatchLayout::check(&out, 0), "a match token starts with a zero bit");
        let mut back = MatchLayout::prepare(&out);
        let read = MatchLayout::extract(&out, 0, &mut back);
        assert_eq!(read, written);
        assert_eq!(back.left, left);
        assert_eq!(back.count, count);
    }
}

#[test]
fn packed_bits_roundtrip() {
    let runs: [&[u8]; 4] = [b"x", b"hello", &[0u8; 200], &[0xFFu8; 63]];
    for run in runs {
        let mut out: Vec<u8> = Vec::new();
        let written = PackedBits::compress(run, &mut out);
        assert_eq!(written, out.len());
        assert_eq!(written, PackedBits::measure(run));
        assert!(out[0] >= 0x80, "a literal header starts with a one bit");
        let prepared = PackedBits::prepare(&out, 0);
        assert_eq!(prepared.len(), run.len());
        let mut data: Vec<u8> = Vec::new();
        let read = PackedBits::extract(&out, 0, &mut data);
        assert_eq!(read, written);
        assert_eq!(data, run);
    }
}

#[test]
fn packed_bits_single_byte_stream() {
    let mut out: Vec<u8> = Vec::new();
    PackedBits::compress(b"a", &mut out);
    assert_eq!(out, vec![0x81, 0x61]);
}
