use archive_engine::crypto::{CryptoError, DecryptReader, EncryptWriter, CHUNK};

fn seal(data: &[u8], password: &str) -> Vec<u8> {
    let mut w = EncryptWriter::new(password).unwrap();
    assert_eq!(w.write(data), Ok(data.len()));
    w.finish();
    w.into_inner()
}

fn open(sealed: &[u8], password: &str) -> Result<Vec<u8>, CryptoError> {
    let mut r = DecryptReader::new(password);
    let mut pos = 0;
    let mut restored = Vec::new();
    while !r.done() {
        let n = r.needs();
        if pos + n > sealed.len() {
            return Err(CryptoError::UnexpectedEnd);
        }
        r.feed(&sealed[pos..pos + n])?;
        pos += n;
        restored.extend(r.take_output());
    }
    Ok(restored)
}

#[test]
fn roundtrips_with_correct_password() {
    for len in [0usize, 1, CHUNK - 1, CHUNK, CHUNK + 1, 5 * CHUNK + 7] {
        let data: Vec<u8> = (0..len).map(|i| (i * 31 + 7) as u8).collect();
        let sealed = seal(&data, "the abyss remembers");
        let restored = open(&sealed, "the abyss remembers").unwrap();
        assert_eq!(restored, data, "len {len}");
    }
}

#[test]
fn wrong_password_fails() {
    let sealed = seal(b"a secret kept in the deep", "correct horse");
    let result = open(&sealed, "battery staple");
    assert!(result.is_err(), "a wrong password must not decrypt");
}

#[test]
fn tampering_is_detected() {
    let mut sealed = seal(b"integrity matters in the depths", "key");
    let i = sealed.len() - 4;
    sealed[i] ^= 0x80;
    let result = open(&sealed, "key");
    assert!(result.is_err(), "tampered ciphertext must fail authentication");
}

#[test]
fn header_carries_salt_nonce_and_default_costs() {
    let salt = [7u8; 16];
    let nonce = [9u8; 7];
    let w = EncryptWriter::with_salt_and_nonce("pw", &salt, &nonce).unwrap();
    let out = w.into_inner();
    let mut expected = b"ABYX".to_vec();
    expected.push(1);
    expected.extend_from_slice(&salt);
    expected.extend_from_slice(&nonce);
    expected.extend_from_slice(&19456u32.to_le_bytes());
    expected.extend_from_slice(&2u32.to_le_bytes());
    expected.extend_from_slice(&1u32.to_le_bytes());
    assert_eq!(out, expected);
}

#[test]
fn records_are_framed_per_chunk() {
    let salt = [1u8; 16];
    let nonce = [2u8; 7];
    let mut w = EncryptWriter::with_salt_and_nonce("pw", &salt, &nonce).unwrap();
    let data = vec![0xAAu8; CHUNK + 10];
    w.write(&data).unwrap();
    w.finish();
    let out = w.into_inner();
    // Header, then one full chunk with more to come, then the last ten bytes.
    assert_eq!(out[40], 0);
    assert_eq!(u32::from_le_bytes([out[41], out[42], out[43], out[44]]) as usize, CHUNK + 16);
    let last = 40 + 5 + CHUNK + 16;
    assert_eq!(out[last], 1);
    assert_eq!(u32::from_le_bytes([out[last + 1], out[last + 2], out[last + 3], out[last + 4]]), 26);
    assert_eq!(out.len(), last + 5 + 26);
}

#[test]
fn same_salt_and_nonce_seal_identically() {
    let salt = [3u8; 16];
    let nonce = [4u8; 7];
    let mut a = EncryptWriter::with_salt_and_nonce("pw", &salt, &nonce).unwrap();
    let mut b = EncryptWriter::with_salt_and_nonce("pw", &salt, &nonce).unwrap();
    a.write(b"the same words").unwrap();
    b.write(b"the same").unwrap();
    b.write(b" words").unwrap();
    a.finish();
    b.finish();
    assert_eq!(a.into_inner(), b.into_inner());
}

#[test]
fn bad_encryption_magic_is_refused() {
    let mut r = DecryptReader::new("pw");
    assert_eq!(r.feed(b"ABYZ"), Err(CryptoError::BadMagic));
}

#[test]
fn unknown_version_is_refused() {
    let mut r = DecryptReader::new("pw");
    r.feed(b"ABYX").unwrap();
    assert_eq!(r.needs(), 1);
    assert_eq!(r.feed(&[2]), Err(CryptoError::UnsupportedVersion(2)));
}

#[test]
fn refused_costs_are_reported() {
    let mut r = DecryptReader::new("pw");
    r.feed(b"ABYX").unwrap();
    r.feed(&[1]).unwrap();
    let mut params = vec![0u8; 23];
    params.extend_from_slice(&4u32.to_le_bytes());
    params.extend_from_slice(&1u32.to_le_bytes());
    params.extend_from_slice(&1u32.to_le_bytes());
    assert_eq!(r.feed(&params), Err(CryptoError::KeyDerivation));
}

#[test]
fn oversized_chunk_and_unknown_tag_are_refused() {
    let sealed = seal(b"abc", "pw");
    let mut big = sealed.clone();
    big[41..45].copy_from_slice(&((CHUNK + 17) as u32).to_le_bytes());
    assert_eq!(open(&big, "pw"), Err(CryptoError::ChunkTooLarge));
    let mut odd = sealed.clone();
    odd[40] = 7;
    assert_eq!(open(&odd, "pw"), Err(CryptoError::UnknownTag(7)));
}

#[test]
fn unfinished_stream_does_not_open() {
    let mut w = EncryptWriter::new("pw").unwrap();
    w.write(b"never sealed").unwrap();
    let partial = w.into_inner();
    assert_eq!(open(&partial, "pw"), Err(CryptoError::UnexpectedEnd));
}

#[test]
fn sealed_stream_length_is_header_plus_records() {
    for n in [0usize, 1, 100, CHUNK - 1, CHUNK, CHUNK + 1, 2 * CHUNK, 3 * CHUNK + 5] {
        let data = vec![7u8; n];
        let sealed = seal(&data, "pw");
        let k = if n == 0 { 0 } else { (n - 1) / CHUNK };
        assert_eq!(sealed.len(), 40 + 21 * (k + 1) + n, "len {n}");
    }
}
