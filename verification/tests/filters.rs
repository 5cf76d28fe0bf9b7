use std::collections::HashSet;

use syc::delta::{is_valid_stride, DeltaReader, DeltaWriter};
use syc::dict_fa::{decode, encode, looks_like_text, word, DictReader, DictWriter};
use syc::error::Error;
use syc::fastcdc::{chunk_hash, next_boundary, Chunker, MAX_SIZE, MIN_SIZE};
use syc::lzp::{LzpReader, LzpWriter, CTX, MIN_MATCH};
use syc::rep::{RepReader, RepWriter};
use syc::srep::SrepWriter;

fn delta_encoded(stride: u8, input: &[u8]) -> Vec<u8> {
    let mut w = DeltaWriter::new(Vec::new(), stride);
    assert_eq!(w.write(input), input.len());
    w.finish()
}

fn delta_roundtrip(stride: u8, input: &[u8]) {
    let encoded = delta_encoded(stride, input);
    let mut decoded = Vec::new();
    let mut r = DeltaReader::new(&encoded[..], stride);
    // An odd size, so that reads and strides do not line up.
    let mut buf = [0u8; 37];
    loop {
        let n = r.read(&mut buf);
        if n == 0 {
            break;
        }
        decoded.extend_from_slice(&buf[..n]);
    }
    assert_eq!(decoded, input);
}

#[test]
fn roundtrip_stride1_random() {
    let data: Vec<u8> = (0..4096u32).map(|i| (i.wrapping_mul(2654435761u32) >> 24) as u8).collect();
    delta_roundtrip(1, &data);
}

#[test]
fn roundtrip_stride2_sawtooth() {
    let mut data = Vec::new();
    for i in 0..2048i32 {
        let v: i16 = ((i * 17) & 0x7FFF) as i16;
        data.extend_from_slice(&v.to_le_bytes());
    }
    delta_roundtrip(2, &data);
}

#[test]
fn roundtrip_stride4_rgba() {
    let mut data = Vec::new();
    for x in 0..1024u32 {
        data.push((x & 0xFF) as u8);
        data.push(((x >> 1) & 0xFF) as u8);
        data.push(((x >> 2) & 0xFF) as u8);
        data.push(0xFF);
    }
    delta_roundtrip(4, &data);
}

#[test]
fn roundtrip_empty() {
    delta_roundtrip(2, &[]);
}

#[test]
fn delta_stores_differences() {
    assert_eq!(delta_encoded(1, &[10, 12, 11]), vec![10, 2, 255]);
    assert_eq!(delta_encoded(2, &[10, 20, 13, 18, 13]), vec![10, 20, 3, 254, 0]);
    assert_eq!(delta_encoded(4, &[1, 2, 3, 4, 5]), vec![1, 2, 3, 4, 4]);
}

#[test]
fn delta_takes_data_in_pieces() {
    let mut w = DeltaWriter::new(vec![7], 2);
    w.write(&[10]);
    w.write(&[]);
    w.write(&[20, 13]);
    assert_eq!(w.finish(), vec![7, 10, 20, 3]);
}

#[test]
fn strides_are_one_two_and_four() {
    let valid: Vec<u8> = (0..=255u8).filter(|s| is_valid_stride(*s)).collect();
    assert_eq!(valid, vec![1, 2, 4]);
}

#[test]
fn roundtrip_english() {
    let src = b"the quick brown fox jumps over the lazy dog. this is a test of the dictionary preprocessor because we want to see how well it works when the input has many common words.";
    let enc = encode(src);
    let dec = decode(&enc).unwrap();
    assert_eq!(&dec[..], &src[..]);
    assert!(enc.len() < src.len(), "encode did not shrink English text: {} -> {}", src.len(), enc.len());
}

#[test]
fn roundtrip_binary_with_escapes() {
    let mut src = Vec::new();
    for b in 0u8..=255 {
        src.push(b);
    }
    for _ in 0..4 {
        src.extend_from_slice(&[0x01, 0x80, 0xff, 0x7f, 0x00]);
    }
    let enc = encode(&src);
    let dec = decode(&enc).unwrap();
    assert_eq!(dec, src);
}

#[test]
fn boundary_guard_prevents_substring_match() {
    let src = b" there and the theater";
    let enc = encode(src);
    let dec = decode(&enc).unwrap();
    assert_eq!(&dec[..], &src[..]);
}

#[test]
fn empty_roundtrip() {
    assert!(encode(b"").is_empty());
    assert_eq!(decode(b"").unwrap(), Vec::<u8>::new());
}

#[test]
fn detection_heuristic() {
    assert!(looks_like_text(b"the quick brown fox jumps over the lazy dog"));
    assert!(looks_like_text(b"hello\nworld\twith\r\nmixed\twhitespace"));
    let mut bin = vec![0u8; 1024];
    for (i, b) in bin.iter_mut().enumerate() {
        *b = (i % 256) as u8;
    }
    assert!(!looks_like_text(&bin));
}

#[test]
fn a_lone_escape_is_an_error() {
    assert_eq!(decode(&[0x41, 0x01]), Err(Error::DanglingEscape));
    assert!(DictReader::new(&[0x01]).is_err());
}

#[test]
fn escaped_bytes_take_two() {
    assert_eq!(encode(&[0x01]), vec![0x01, 0x01]);
    assert_eq!(encode(&[0xC3]), vec![0x01, 0xC3]);
    assert_eq!(encode(b"x"), vec![b'x']);
}

#[test]
fn dict_streams_round_trip() {
    let text = b" the cat and the dog";
    let mut w = DictWriter::new(Vec::new());
    w.write(&text[..7]);
    w.write(&text[7..]);
    let enc = w.finish();
    assert_eq!(enc, encode(text));
    let mut r = DictReader::new(&enc).unwrap();
    let mut out = Vec::new();
    let mut buf = [0u8; 3];
    loop {
        let n = r.read(&mut buf);
        if n == 0 {
            break;
        }
        out.extend_from_slice(&buf[..n]);
    }
    assert_eq!(out, text);
}

#[test]
fn small_stream_single_chunk() {
    let data = b"hello world";
    let mut c = Chunker::new(data);
    let ch = c.next_chunk().unwrap();
    assert_eq!(&ch[..], data);
    assert!(c.next_chunk().is_none());
}

fn noise(seed: u64, n: usize) -> Vec<u8> {
    let mut data = Vec::with_capacity(n);
    let mut x: u64 = seed;
    for _ in 0..n {
        x = x.wrapping_mul(6364136223846793005).wrapping_add(1442695040888963407);
        data.push((x >> 33) as u8);
    }
    data
}

fn chunks(data: &[u8]) -> Vec<Vec<u8>> {
    let mut out = Vec::new();
    let mut c = Chunker::new(data);
    while let Some(ch) = c.next_chunk() {
        out.push(ch);
    }
    out
}

#[test]
fn deterministic_boundaries() {
    let data = noise(0xDEAD_BEEF, 1_000_000);
    let a = chunks(&data);
    let b = chunks(&data);
    assert_eq!(a, b);
    let total: usize = a.iter().map(|c| c.len()).sum();
    assert_eq!(total, data.len());
    for (i, ch) in a.iter().enumerate() {
        let is_last = i + 1 == a.len();
        if !is_last {
            assert!(ch.len() >= MIN_SIZE && ch.len() <= MAX_SIZE, "bad chunk {} len={}", i, ch.len());
        }
    }
}

#[test]
fn shift_resynchronizes() {
    let data = noise(0xC0FFEE, 300_000);
    let a = chunks(&data);
    let mut shifted = vec![0xAAu8; 7];
    shifted.extend_from_slice(&data);
    let b = chunks(&shifted);
    let hashes_a: HashSet<u64> = a.iter().map(|c| chunk_hash(c)).collect();
    let hashes_b: HashSet<u64> = b.iter().map(|c| chunk_hash(c)).collect();
    let shared = hashes_a.intersection(&hashes_b).count();
    assert!(shared >= a.len() / 2, "resync too weak: shared {}/{}", shared, a.len());
}

#[test]
fn boundaries_stay_in_bounds() {
    assert_eq!(next_boundary(&[5; 2048]), 2048);
    // A run of zeros has a cut only where its hash happens to fit the masks.
    let n = next_boundary(&[0; 100_000]);
    assert!((MIN_SIZE..=MAX_SIZE).contains(&n));
    assert_eq!(n, next_boundary(&[0; 70_000]));
}

#[test]
fn chunk_fingerprints_are_xxh3() {
    assert_eq!(chunk_hash(b"syc"), twox_hash::XxHash3_64::oneshot(b"syc"));
    assert_ne!(chunk_hash(b"syc"), chunk_hash(b"syd"));
}

fn lzp_roundtrip(data: &[u8]) -> usize {
    let mut w = LzpWriter::new(Vec::new());
    assert_eq!(w.write(data), data.len());
    let compressed = w.finish();
    let out = LzpReader::new(&compressed[..]).read_to_end().unwrap();
    assert_eq!(out, data);
    compressed.len()
}

#[test]
fn lzp_empty() {
    lzp_roundtrip(b"");
}

#[test]
fn lzp_tiny() {
    lzp_roundtrip(b"hello world");
}

#[test]
fn below_threshold() {
    let data = vec![0xABu8; CTX + MIN_MATCH - 1];
    lzp_roundtrip(&data);
}

#[test]
fn repeated_chunks() {
    let chunk = b"the quick brown fox jumps over the lazy dog 0123456789 abcdefghij";
    let mut data = Vec::new();
    for _ in 0..20 {
        data.extend_from_slice(chunk);
    }
    lzp_roundtrip(&data);
}

#[test]
fn mixed_noise_and_repeats() {
    let mut data = Vec::new();
    let mut s: u32 = 0xC0FFEE;
    for _ in 0..2000 {
        s = s.wrapping_mul(1664525).wrapping_add(1013904223);
        data.push((s >> 16) as u8);
    }
    let rep = b"REPEATED_PAYLOAD_REPEATED_PAYLOAD_REPEATED_PAYLOAD_REPEATED_PAYLOAD";
    for _ in 0..5 {
        data.extend_from_slice(rep);
    }
    for _ in 0..2000 {
        s = s.wrapping_mul(1664525).wrapping_add(1013904223);
        data.push((s >> 16) as u8);
    }
    for _ in 0..5 {
        data.extend_from_slice(rep);
    }
    lzp_roundtrip(&data);
}

#[test]
fn lzp_shrinks_repeats() {
    let data = b"0123456789abcdefghijklmnopqrstuvwxyz".repeat(50);
    assert!(lzp_roundtrip(&data) < data.len() / 4);
}

/// A block of `n` bytes with the given tokens, and the end of the stream.
fn block(n: u64, tokens: &[u8]) -> Vec<u8> {
    let mut out = n.to_le_bytes().to_vec();
    out.extend_from_slice(tokens);
    out.extend_from_slice(&0u64.to_le_bytes());
    out
}

#[test]
fn lzp_faults_are_told_apart() {
    // A match before any context.
    assert_eq!(LzpReader::new(&block(48, &[0, 40])).read_to_end(), Err(Error::NoPredictedSource));
    // A literal run that goes past its block.
    assert_eq!(LzpReader::new(&block(48, &[100])).read_to_end(), Err(Error::LiteralOverflow));
    // A stream that stops inside a block.
    assert_eq!(LzpReader::new(&block(48, &[10, 1, 2])[..11]).read_to_end(), Err(Error::UnexpectedEof));
    // A short block is one literal run of its own length.
    assert_eq!(LzpReader::new(&block(2, &[3, 1, 2, 3])).read_to_end(), Err(Error::ShortBlockMismatch));
    assert_eq!(LzpReader::new(&block(2, &[2, 1, 2])).read_to_end(), Ok(vec![1, 2]));
    // A match that is too short: eight zeros, then one byte at a time.
    let mut tokens = vec![16];
    tokens.extend_from_slice(&[0; 16]);
    tokens.push(5);
    assert_eq!(LzpReader::new(&block(48, &tokens)).read_to_end(), Err(Error::BadMatch { len: 5 }));
}

fn rep_roundtrip(data: &[u8]) -> usize {
    let mut w = RepWriter::new(Vec::new());
    assert_eq!(w.write(data), data.len());
    let compressed = w.finish();
    let out = RepReader::new(&compressed[..]).read_to_end().unwrap();
    assert_eq!(out, data);
    compressed.len()
}

#[test]
fn rep_empty() {
    rep_roundtrip(b"");
}

#[test]
fn rep_tiny() {
    rep_roundtrip(b"hello world");
}

#[test]
fn repeated() {
    let chunk = b"abcdefghijklmnopqrstuvwxyz0123456789abcdefghijklmnopqrstuvwxyz01";
    let mut data = Vec::new();
    for _ in 0..10 {
        data.extend_from_slice(chunk);
    }
    rep_roundtrip(&data);
}

#[test]
fn rep_replaces_long_repeats() {
    let block = noise(1, 5000);
    let mut data = block.clone();
    data.extend_from_slice(&block);
    assert!(rep_roundtrip(&data) < 5100);
}

#[test]
fn rep_reads_in_small_steps() {
    let data = noise(2, 1000);
    let mut w = RepWriter::new(Vec::new());
    w.write(&data[..300]);
    w.write(&data[300..]);
    let stream = w.finish();
    let mut r = RepReader::new(&stream);
    let mut out = Vec::new();
    let mut buf = [0u8; 17];
    loop {
        let n = r.read(&mut buf).unwrap();
        if n == 0 {
            break;
        }
        out.extend_from_slice(&buf[..n]);
    }
    assert_eq!(out, data);
}

#[test]
fn rep_faults_are_told_apart() {
    // One literal, then three bytes from two back.
    assert_eq!(
        RepReader::new(&block(4, &[1, 9, 3, 2])).read_to_end(),
        Err(Error::BadReference { len: 3, back: 2 })
    );
    assert_eq!(RepReader::new(&block(4, &[1, 9, 3, 1])).read_to_end(), Ok(vec![9, 9, 9, 9]));
    assert_eq!(RepReader::new(&block(4, &[1, 9, 9, 1])).read_to_end(), Err(Error::BlockSizeMismatch));
    assert_eq!(RepReader::new(&block(4, &[1])[..9]).read_to_end(), Err(Error::UnexpectedEof));
    assert_eq!(RepReader::new(&block(4, &[0x80; 12])).read_to_end(), Err(Error::VarintTooLong));
}

fn srep_roundtrip(data: &[u8]) -> usize {
    let mut w = SrepWriter::new(Vec::new());
    assert_eq!(w.write(data), data.len());
    let compressed = w.finish();
    let out = RepReader::new(&compressed[..]).read_to_end().unwrap();
    assert_eq!(out.len(), data.len());
    assert_eq!(out, data);
    compressed.len()
}

#[test]
fn srep_empty() {
    srep_roundtrip(b"");
}

#[test]
fn srep_tiny() {
    srep_roundtrip(b"hello world");
}

#[test]
fn repeated_big() {
    let mut chunk = Vec::with_capacity(4096);
    for i in 0..4096 {
        chunk.push((i % 251) as u8);
    }
    let mut data = Vec::new();
    data.extend_from_slice(&chunk);
    for i in 0..8192 {
        data.push(((i * 31 + 7) % 251) as u8);
    }
    data.extend_from_slice(&chunk);
    srep_roundtrip(&data);
}

#[test]
fn no_matches() {
    let mut data = Vec::with_capacity(10_000);
    for i in 0..10_000i32 {
        data.push((i.wrapping_mul(1103515245).wrapping_add(12345) >> 8) as u8);
    }
    srep_roundtrip(&data);
}

#[test]
fn srep_finds_far_repeats() {
    let block = noise(3, 8192);
    let mut data = block.clone();
    data.extend_from_slice(&noise(4, 20_000));
    data.extend_from_slice(&block);
    assert!(srep_roundtrip(&data) < data.len() - 6000);
}

#[test]
fn words_become_tokens_and_pieces_join() {
    for k in 0..128usize {
        assert_eq!(encode(word(k).as_bytes()), vec![0x80 + k as u8]);
    }
    assert_eq!(encode(b""), b"");
    for x in 0..=255u8 {
        let expected = if x == 1 || x >= 0x80 { vec![1, x] } else { vec![x] };
        assert_eq!(encode(&[x]), expected);
    }
    let (a, b) = (&b"so the"[..], &b" of it\xFF"[..]);
    let mut joined = encode(a);
    joined.extend(encode(b));
    assert_eq!(encode(b"so the of it\xFF"), joined);
    assert_eq!(joined, vec![b's', b'o', 0x80, 0x81, 0x80 + 17, 1, 0xFF]);
    // A letter behind the first piece takes its token away.
    assert_eq!(encode(b"so there"), vec![b's', b'o', 0x80 + 102]);
    assert_eq!(encode(&[0x80; 5]).len(), 10);
}
