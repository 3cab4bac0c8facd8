use lzo1x::compress_to_slice;
use lzo1x::decompress_to_slice;
use lzo1x::worst_compress;
use lzo1x::Error;

/// Compresses `data`, checks the stream length, and decompresses it back
/// into a buffer of exactly `data.len()` bytes.
fn roundtrip(data: &[u8], expected_len: Option<usize>) {
    let mut stream = Vec::new();
    let n = compress_to_slice(data, &mut stream);
    assert_eq!(n, stream.len());
    assert!(n <= worst_compress(data.len()));
    if let Some(k) = expected_len {
        assert_eq!(n, k);
    }
    let mut out = vec![0u8; data.len()];
    let written = decompress_to_slice(&stream, &mut out).unwrap();
    assert_eq!(written, data.len());
    assert_eq!(&out[..written], data);
}

/// A small deterministic byte generator for incompressible-looking data.
fn lcg_bytes(seed: u64, len: usize) -> Vec<u8> {
    let mut state = seed;
    let mut v = Vec::with_capacity(len);
    for _ in 0..len {
        state = state
            .wrapping_mul(6364136223846793005)
            .wrapping_add(1442695040888963407);
        v.push((state >> 33) as u8);
    }
    v
}

#[test]
fn roundtrip_a() {
    roundtrip(b"a", Some(5));
}

#[test]
fn roundtrip_aaa() {
    let data = vec![b'a'; 100_000];
    roundtrip(&data, Some(471));
}

#[test]
fn roundtrip_alphabet() {
    let mut data = Vec::with_capacity(100_000);
    for i in 0..100_000usize {
        data.push(b'a' + (i % 26) as u8);
    }
    roundtrip(&data, Some(544));
}

#[test]
fn empty_input_gives_bare_marker() {
    let mut stream = Vec::new();
    let n = compress_to_slice(&[], &mut stream);
    assert_eq!(n, 3);
    assert_eq!(stream, vec![0x11, 0x00, 0x00]);
    let mut out: Vec<u8> = Vec::new();
    assert_eq!(decompress_to_slice(&stream, &mut out), Ok(0));
}

#[test]
fn tiny_inputs_are_one_literal_run() {
    for len in 1..=31usize {
        let data: Vec<u8> = (0..len).map(|i| (i * 7 + 1) as u8).collect();
        let mut stream = Vec::new();
        let n = compress_to_slice(&data, &mut stream);
        assert_eq!(n, len + 4);
        assert_eq!(stream[0], (len + 17) as u8);
        assert_eq!(&stream[1..1 + len], &data[..]);
        assert_eq!(&stream[1 + len..], &[0x11, 0x00, 0x00]);
        let mut out = vec![0u8; len];
        assert_eq!(decompress_to_slice(&stream, &mut out), Ok(len));
        assert_eq!(&out[..], &data[..]);
    }
}

#[test]
fn terminator_closes_every_stream() {
    for len in [0usize, 1, 21, 200, 5000] {
        let data = lcg_bytes(len as u64 + 11, len);
        let mut stream = Vec::new();
        let n = compress_to_slice(&data, &mut stream);
        assert!(n >= 3);
        assert_eq!(&stream[n - 3..], &[0x11, 0x00, 0x00]);
    }
}

#[test]
fn compressed_size_within_worst_case() {
    for len in [0usize, 1, 20, 21, 300, 4096, 100_000] {
        let data = lcg_bytes(len as u64, len);
        let mut stream = Vec::new();
        let n = compress_to_slice(&data, &mut stream);
        assert!(n <= worst_compress(len));
    }
}

#[test]
fn compress_is_deterministic() {
    let data = lcg_bytes(42, 30_000);
    let mut first = Vec::new();
    let mut second = Vec::new();
    compress_to_slice(&data, &mut first);
    compress_to_slice(&data, &mut second);
    assert_eq!(first, second);
}

#[test]
fn roundtrip_repetitive_runs() {
    for len in [21usize, 22, 40, 64, 255, 256, 300, 1000] {
        let data = vec![b'x'; len];
        roundtrip(&data, None);
    }
    let mut mixed = Vec::new();
    for i in 0..2000usize {
        mixed.push(if i % 97 < 60 { b'q' } else { (i % 251) as u8 });
    }
    roundtrip(&mixed, None);
}

#[test]
fn roundtrip_incompressible() {
    for len in [21usize, 100, 273, 1000, 5000] {
        let data = lcg_bytes(len as u64 * 3 + 1, len);
        roundtrip(&data, None);
    }
}

#[test]
fn roundtrip_distant_repeat() {
    // a repeated chunk far beyond 0x4000 forces the distant-match encoding
    let mut data = lcg_bytes(7, 60);
    data.extend(lcg_bytes(9, 17_000));
    let head = data[..60].to_vec();
    data.extend(head);
    data.extend(lcg_bytes(13, 100));
    roundtrip(&data, None);
}

#[test]
fn roundtrip_block_boundaries() {
    // lengths around the 0xC000 block size exercise the carried literal count
    for len in [0xBFFF_usize, 0xC000, 0xC001, 0xC015, 2 * 0xC000 + 17] {
        let mut data = lcg_bytes(len as u64, len);
        for i in (0..len).step_by(71) {
            data[i] = b'z';
        }
        roundtrip(&data, None);
    }
}

#[test]
fn decoder_rejects_truncated_terminator() {
    let mut out = vec![0u8; 16];
    assert_eq!(
        decompress_to_slice(&[0x11, 0x00], &mut out),
        Err(Error::InputOverrun)
    );
}

#[test]
fn decoder_rejects_trailing_garbage() {
    let mut out = vec![0u8; 16];
    assert_eq!(
        decompress_to_slice(&[0x11, 0x00, 0x00, 0x00], &mut out),
        Err(Error::InputNotConsumed)
    );
}

#[test]
fn decoder_reports_small_buffer() {
    // two literal bytes cannot fit into a one-byte buffer
    let stream = [19, b'a', b'b', 0x11, 0x00, 0x00];
    let mut out = vec![0u8; 1];
    assert_eq!(decompress_to_slice(&stream, &mut out), Err(Error::OutputOverrun));
}

#[test]
fn decoder_rejects_bad_terminator_length() {
    // opcode 20 with a zero offset word is a marker whose length is not 3
    let stream = [18, b'a', 20, 0x00, 0x00];
    let mut out = vec![0u8; 8];
    assert_eq!(decompress_to_slice(&stream, &mut out), Err(Error::Format));
}

#[test]
fn decoder_rejects_reference_before_start() {
    // a short match whose distance reaches behind the produced output
    let stream = [18, b'a', 69, 255, 0];
    let mut out = vec![0u8; 16];
    assert_eq!(decompress_to_slice(&stream, &mut out), Err(Error::Format));
}

#[test]
fn decoder_two_byte_match_after_short_literals() {
    // literal run of 2, then a two-byte match at distance 2 with one
    // trailing literal, then the marker
    let stream = [19, b'a', b'b', 0x05, 0x00, b'c', 0x11, 0x00, 0x00];
    let mut out = vec![0u8; 5];
    assert_eq!(decompress_to_slice(&stream, &mut out), Ok(5));
    assert_eq!(&out[..], b"ababc");
}

#[test]
fn decoder_distant_short_match_after_long_literal() {
    // a stream built by hand: a 238-byte run, 56 medium matches replicating
    // it, a 4-byte run (so the state counter is 4), then the small opcode 7,
    // which in that state copies 7 bytes from distance 0x801 + 1 = 2050
    let mut stream: Vec<u8> = Vec::new();
    stream.push(255);
    stream.extend(std::iter::repeat(b'a').take(238));
    for _ in 0..56 {
        stream.extend([63, 4, 0]);
    }
    stream.extend([1, b'b', b'c', b'd', b'e']);
    stream.extend([7, 0]);
    stream.extend([b'x', b'y', b'z']);
    stream.extend([0x11, 0x00, 0x00]);

    let mut expected = vec![b'a'; 2086];
    expected.extend(b"bcde");
    expected.extend(b"aaaaaaa");
    expected.extend(b"xyz");
    assert_eq!(expected.len(), 2100);

    let mut out = vec![0u8; 2100];
    assert_eq!(decompress_to_slice(&stream, &mut out), Ok(2100));
    assert_eq!(out, expected);
}

#[test]
fn decoder_survives_garbage() {
    // arbitrary bytes either decode or fail with a typed error; the calls
    // must return normally either way
    for seed in 0..200u64 {
        let len = (seed as usize * 13) % 400;
        let data = lcg_bytes(seed, len);
        let mut out = vec![0u8; 512];
        let _ = decompress_to_slice(&data, &mut out);
    }
}

#[test]
fn worst_compress_formula() {
    assert_eq!(worst_compress(0), 67);
    assert_eq!(worst_compress(16), 84);
    assert_eq!(worst_compress(100_000), 106_317);
}

#[test]
fn decoder_accepts_roomy_buffer() {
    let data = b"the quick brown fox jumps over the lazy dog";
    let mut stream = Vec::new();
    compress_to_slice(data, &mut stream);
    let mut out = vec![0u8; 1000];
    let n = decompress_to_slice(&stream, &mut out).unwrap();
    assert_eq!(n, data.len());
    assert_eq!(&out[..n], data);
    assert_eq!(out.len(), 1000);
}
