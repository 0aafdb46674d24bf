use azuki::lz77::{stream_compress, stream_extract, ExtractError, LZ77};
use azuki::match_layout::{
    MatchLayoutC2L13, MatchLayoutC3L12, MatchLayoutC4L11, MatchLayoutL7C8, MatchLayoutTrait,
};

fn pseudo_random_bytes(seed: u64, len: usize) -> Vec<u8> {
    let mut state = seed;
    let mut out = Vec::with_capacity(len);
    for _ in 0..len {
        state = state.wrapping_mul(6364136223846793005).wrapping_add(1442695040888963407);
        out.push((state >> 33) as u8);
    }
    out
}

#[test]
fn head_stream_empty_roundtrip() {
    let compressed = LZ77::compress(b"");
    assert_eq!(compressed, Vec::<u8>::new());
    let extracted = LZ77::extract(&compressed).unwrap();
    assert_eq!(extracted, Vec::<u8>::new());
}

#[test]
fn head_stream_singleton_roundtrip() {
    let compressed = LZ77::compress(b"a");
    assert_eq!(compressed, vec![0x81, 0x61]);
    let extracted = LZ77::extract(&compressed).unwrap();
    assert_eq!(extracted, b"a".to_vec());
}

#[test]
fn head_stream_roundtrips() {
    let inputs: [&[u8]; 6] = [
        b"banana",
        b"abcabcabcabcabcabc",
        b"AAAAAAAAAA",
        b"the quick brown fox jumps over the lazy dog and the quick brown fox again",
        b"aaaaabaaaaabaaaaab",
        b"\x00\x01\x02\x03",
    ];
    for data in inputs {
        let compressed = LZ77::compress(data);
        let extracted = LZ77::extract(&compressed).unwrap();
        assert_eq!(extracted, data.to_vec());
    }
}

#[test]
fn head_stream_roundtrips_pseudo_random() {
    for seed in 1..6u64 {
        let data = pseudo_random_bytes(seed, 80 * seed as usize);
        let compressed = LZ77::compress(&data);
        let extracted = LZ77::extract(&compressed).unwrap();
        assert_eq!(extracted, data);
    }
}

#[test]
fn head_stream_repeats_compress_smaller() {
    let data = vec![0x41u8; 400];
    let compressed = LZ77::compress(&data);
    assert!(compressed.len() < data.len());
    let extracted = LZ77::extract(&compressed).unwrap();
    assert_eq!(extracted, data);
}

#[test]
fn head_stream_malformed_inputs_are_reported() {
    // A zero byte opens a match token but the head never ends.
    assert_eq!(LZ77::extract(&[0x00]), Err(ExtractError::MalformedStream));
    // A literal header announcing one byte that never comes.
    assert_eq!(LZ77::extract(&[0x81]), Err(ExtractError::MalformedStream));
    // A match token whose distance points before the start of the output.
    let mut token: Vec<u8> = Vec::new();
    azuki::match_layout::MatchLayout::compress(
        &azuki::match_layout::Match { left: 5, count: 2 },
        &mut token,
    );
    assert_eq!(LZ77::extract(&token), Err(ExtractError::MalformedStream));
    // A truncated match token: the first head ends, the second is missing.
    assert_eq!(LZ77::extract(&[0x45]), Err(ExtractError::MalformedStream));
}

#[test]
fn head_stream_extract_never_panics_on_noise() {
    for seed in 1..30u64 {
        let noise = pseudo_random_bytes(seed, (seed as usize % 60) + 1);
        let _ = LZ77::extract(&noise);
    }
}

fn token_roundtrips<M: MatchLayoutTrait>() {
    let inputs: [&[u8]; 7] = [
        b"",
        b"a",
        b"banana",
        b"abcabcabcabcabcabc",
        b"AAAAAAAAAA",
        b"the quick brown fox jumps over the lazy dog and the quick brown fox again",
        b"aaaaabaaaaabaaaaab",
    ];
    for data in inputs {
        let compressed = stream_compress::<M>(data);
        let extracted = stream_extract::<M>(&compressed).unwrap();
        assert_eq!(extracted, data.to_vec());
    }
    for seed in 1..5u64 {
        let data = pseudo_random_bytes(seed, 70 * seed as usize);
        let compressed = stream_compress::<M>(&data);
        let extracted = stream_extract::<M>(&compressed).unwrap();
        assert_eq!(extracted, data);
    }
    let long_run = vec![0x7Au8; 1000];
    let compressed = stream_compress::<M>(&long_run);
    assert!(compressed.len() < long_run.len());
    let extracted = stream_extract::<M>(&compressed).unwrap();
    assert_eq!(extracted, long_run);
}

#[test]
fn token_stream_roundtrips_c2l13() {
    token_roundtrips::<MatchLayoutC2L13>();
}

#[test]
fn token_stream_roundtrips_c3l12() {
    token_roundtrips::<MatchLayoutC3L12>();
}

#[test]
fn token_stream_roundtrips_c4l11() {
    token_roundtrips::<MatchLayoutC4L11>();
}

#[test]
fn token_stream_roundtrips_l7c8() {
    token_roundtrips::<MatchLayoutL7C8>();
}

#[test]
fn token_stream_empty_and_singleton() {
    let empty = stream_compress::<MatchLayoutC3L12>(b"");
    assert_eq!(empty, Vec::<u8>::new());
    assert_eq!(stream_extract::<MatchLayoutC3L12>(&empty).unwrap(), Vec::<u8>::new());
    let one = stream_compress::<MatchLayoutC3L12>(b"a");
    assert_eq!(one, vec![0x00, 0x61]);
    assert_eq!(stream_extract::<MatchLayoutC3L12>(&one).unwrap(), b"a".to_vec());
}

#[test]
fn token_stream_repeated_run_exact_bytes() {
    // Ten 'A's: a literal 'A', a match (distance 1, count 8), and a final
    // literal 'A' that no match of three could cover.
    let data = vec![0x41u8; 10];
    let compressed = stream_compress::<MatchLayoutC3L12>(&data);
    assert_eq!(compressed, vec![0x00, 0x41, 0xF0, 0x00, 0x00, 0x41]);
    let extracted = stream_extract::<MatchLayoutC3L12>(&compressed).unwrap();
    assert_eq!(extracted, data);
}

#[test]
fn token_stream_distinct_bytes_emit_no_match() {
    let mut data: Vec<u8> = Vec::new();
    for b in 0..0x80u8 {
        data.push(b);
    }
    let compressed = stream_compress::<MatchLayoutC3L12>(&data);
    assert_eq!(compressed.len(), 129, "one header byte and 128 literals");
    assert_eq!(compressed[0], 0x7F, "the run is full: length 128, less one");
    for k in 1..compressed.len() {
        assert!(compressed[k] < 0x80, "no match token anywhere");
    }
    let extracted = stream_extract::<MatchLayoutC3L12>(&compressed).unwrap();
    assert_eq!(extracted, data);
}

#[test]
fn head_stream_distinct_bytes_single_literal_frame() {
    // 128 pairwise distinct bytes: no back reference exists, so the whole
    // input becomes one literal frame — a two-byte length header plus the
    // 128 raw bytes, 130 in all.
    let mut data: Vec<u8> = Vec::new();
    for b in 0..0x80u8 {
        data.push(b);
    }
    let compressed = LZ77::compress(&data);
    assert_eq!(compressed.len(), 130);
    assert_eq!(compressed[0], 0xC0);
    assert_eq!(compressed[1], 0x80);
    assert_eq!(&compressed[2..], &data[..]);
    let extracted = LZ77::extract(&compressed).unwrap();
    assert_eq!(extracted, data);
}

#[test]
fn token_stream_overlapping_copy() {
    // A single literal, then a match with distance 1 and count 8: the copy
    // must reuse its own output and give eight more of the same byte.
    let stream: [u8; 4] = [0x00, 0x41, 0xF0, 0x00];
    let extracted = stream_extract::<MatchLayoutC3L12>(&stream).unwrap();
    assert_eq!(extracted, vec![0x41u8; 9]);
}

#[test]
fn token_stream_malformed_inputs_are_reported() {
    // A lone token byte.
    assert_eq!(
        stream_extract::<MatchLayoutC3L12>(&[0xF0]),
        Err(ExtractError::MalformedStream),
    );
    // A match against an empty output.
    assert_eq!(
        stream_extract::<MatchLayoutC3L12>(&[0xF0, 0x00]),
        Err(ExtractError::MalformedStream),
    );
    // A literal run cut short.
    assert_eq!(
        stream_extract::<MatchLayoutC3L12>(&[0x05, 0x01]),
        Err(ExtractError::MalformedStream),
    );
    // A match reaching farther back than was written.
    assert_eq!(
        stream_extract::<MatchLayoutC3L12>(&[0x00, 0x41, 0xF1, 0x00]),
        Err(ExtractError::MalformedStream),
    );
}

#[test]
fn token_stream_extract_never_panics_on_noise() {
    for seed in 30..60u64 {
        let noise = pseudo_random_bytes(seed, (seed as usize % 50) + 1);
        let _ = stream_extract::<MatchLayoutC3L12>(&noise);
        let _ = stream_extract::<MatchLayoutL7C8>(&noise);
    }
}

#[test]
fn both_stream_forms_share_the_discriminator_rule() {
    // In both disciplines a literal header and a match opening differ in
    // their first bit, so a single byte settles the frame kind.
    let data = b"abcabcabcabc";
    let head_form = LZ77::compress(data);
    assert!(head_form[0] >= 0x80, "the head form opens with a literal run");
    let token_form = stream_compress::<MatchLayoutC3L12>(data);
    assert!(token_form[0] < 0x80, "the token form's literal header bit is clear");
}
