use archive_engine::ans::{normalize, AnsReader, AnsWriter, BLOCK, TOTAL};
use archive_engine::ans_model::AnsError;

fn compress(data: &[u8]) -> Vec<u8> {
    let mut w = AnsWriter::new();
    let n = w.write(data);
    assert_eq!(n, data.len());
    w.finish();
    w.into_inner()
}

fn decompress(compressed: &[u8]) -> Result<Vec<u8>, AnsError> {
    if compressed.len() < 4 {
        return Err(AnsError::UnexpectedEnd);
    }
    let mut r = AnsReader::new(&compressed[0..4])?;
    let mut pos = 4;
    let mut restored = Vec::new();
    while !r.done() {
        let n = r.needs();
        if pos + n > compressed.len() {
            return Err(AnsError::UnexpectedEnd);
        }
        r.feed(&compressed[pos..pos + n])?;
        pos += n;
        restored.extend(r.take_output());
    }
    restored.extend(r.take_output());
    Ok(restored)
}

fn roundtrip(data: &[u8]) {
    let compressed = compress(data);
    let restored = decompress(&compressed).unwrap();
    assert_eq!(restored, data);
}

#[test]
fn roundtrips_empty() {
    roundtrip(b"");
}

#[test]
fn roundtrips_single_symbol() {
    roundtrip(&vec![b'x'; 100_000]);
}

#[test]
fn roundtrips_tiny_partial_lanes() {
    for n in 0..=8usize {
        roundtrip(&vec![b'q'; n]);
        roundtrip(&(0..n as u8).collect::<Vec<u8>>());
    }
}

#[test]
fn roundtrips_text() {
    let mut data = Vec::new();
    for i in 0..20_000u32 {
        data.extend_from_slice(b"The Abyss gazes also. ");
        data.extend_from_slice(&i.to_le_bytes());
    }
    roundtrip(&data);
}

#[test]
fn roundtrips_all_bytes_and_noise() {
    let mut data: Vec<u8> = (0..=255u8).cycle().take(70_000).collect();
    let mut state = 0x1234_5678u32;
    for _ in 0..70_000 {
        state = state.wrapping_mul(1_664_525).wrapping_add(1_013_904_223);
        data.push((state >> 24) as u8);
    }
    roundtrip(&data);
}

#[test]
fn roundtrips_multiblock_parallel() {
    let mut data = Vec::with_capacity(5 * 1024 * 1024);
    let mut state = 0xC0FF_EE00u32;
    while data.len() < 5 * 1024 * 1024 {
        data.extend_from_slice(b"depths fold into a glowing orb; ");
        for _ in 0..16 {
            state = state.wrapping_mul(1_664_525).wrapping_add(1_013_904_223);
            data.push((state >> 24) as u8);
        }
    }
    roundtrip(&data);
}

#[test]
fn roundtrips_exact_block_boundaries() {
    roundtrip(&vec![b'z'; BLOCK]);
    roundtrip(&vec![b'z'; BLOCK + 1]);
    roundtrip(&vec![b'z'; 2 * BLOCK]);
}

#[test]
fn rejects_bad_magic() {
    let mut bytes = b"ANS1".to_vec();
    bytes.extend_from_slice(&0u32.to_le_bytes());
    assert!(AnsReader::new(&bytes[0..4]).is_err());
}

#[test]
fn normalize_sums_to_total() {
    let mut counts = [0u32; 256];
    for (i, c) in counts.iter_mut().enumerate() {
        *c = (i as u32) + 1;
    }
    let freq = normalize(&counts);
    let sum: u32 = freq.iter().map(|&f| f as u32).sum();
    assert_eq!(sum, TOTAL);
    assert!(freq.iter().all(|&f| f > 0));
}

#[test]
fn normalize_keeps_absent_symbols_at_zero() {
    let mut counts = [0u32; 256];
    counts[b'a' as usize] = 3;
    counts[b'b' as usize] = 1;
    let freq = normalize(&counts);
    assert_eq!(freq[b'a' as usize], 3072);
    assert_eq!(freq[b'b' as usize], 1024);
    assert_eq!(freq.iter().filter(|&&f| f > 0).count(), 2);
}

#[test]
fn empty_stream_is_magic_then_end_marker() {
    let out = compress(b"");
    let mut expected = b"ANS2".to_vec();
    expected.extend_from_slice(&0u32.to_le_bytes());
    assert_eq!(out, expected);
}

#[test]
fn truncated_stream_is_refused() {
    let compressed = compress(b"some bytes to code, some bytes to code");
    let cut = &compressed[..compressed.len() - 4];
    assert_eq!(decompress(cut), Err(AnsError::UnexpectedEnd));
}

#[test]
fn block_too_long_is_refused() {
    let mut bytes = b"ANS2".to_vec();
    bytes.extend_from_slice(&(BLOCK as u32 + 1).to_le_bytes());
    assert_eq!(decompress(&bytes), Err(AnsError::BlockTooLong));
}

#[test]
fn writes_in_pieces_match_one_write() {
    let data: Vec<u8> = (0..300_000u32).map(|i| (i % 251) as u8).collect();
    let mut w = AnsWriter::new();
    for piece in data.chunks(7777) {
        w.write(piece);
    }
    w.finish();
    assert_eq!(w.into_inner(), compress(&data));
}

#[test]
fn bad_magic_error_is_reported() {
    assert_eq!(AnsReader::new(b"ANS3").err(), Some(AnsError::BadMagic));
}
