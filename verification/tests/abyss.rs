use archive_engine::abyss::{read_header, AbyssWriter};
use archive_engine::ans::AnsReader;
use archive_engine::crypto::DecryptReader;

fn decode_ans(stream: &[u8]) -> Vec<u8> {
    let mut r = AnsReader::new(&stream[0..4]).unwrap();
    let mut pos = 4;
    let mut out = Vec::new();
    while !r.done() {
        let n = r.needs();
        r.feed(&stream[pos..pos + n]).unwrap();
        pos += n;
        out.extend(r.take_output());
    }
    out
}

fn decrypt(stream: &[u8], password: &str) -> Vec<u8> {
    let mut r = DecryptReader::new(password);
    let mut pos = 0;
    let mut out = Vec::new();
    while !r.done() {
        let n = r.needs();
        r.feed(&stream[pos..pos + n]).unwrap();
        pos += n;
        out.extend(r.take_output());
    }
    out
}

fn payload() -> Vec<u8> {
    (0..200_000u32).map(|i| (i * 7 % 253) as u8).collect()
}

#[test]
fn unsealed_container_holds_the_ans_stream() {
    let mut w = AbyssWriter::new(None).unwrap();
    let data = payload();
    assert_eq!(w.write(&data), Ok(data.len()));
    w.finish().unwrap();
    let out = w.into_inner();
    assert_eq!(&out[0..8], b"ABYSSC\x01\x00");
    assert_eq!(read_header(&out), Ok(false));
    assert_eq!(decode_ans(&out[8..]), data);
}

#[test]
fn sealed_container_opens_with_its_password() {
    let mut w = AbyssWriter::new(Some("deep")).unwrap();
    let data = payload();
    for piece in data.chunks(50_000) {
        w.write(piece).unwrap();
    }
    w.finish().unwrap();
    let out = w.into_inner();
    assert_eq!(read_header(&out), Ok(true));
    let ans = decrypt(&out[8..], "deep");
    assert_eq!(decode_ans(&ans), data);
}

#[test]
fn finishing_twice_changes_nothing() {
    let mut w = AbyssWriter::new(None).unwrap();
    w.write(b"once").unwrap();
    w.finish().unwrap();
    let first = w.take_output();
    w.finish().unwrap();
    assert!(w.take_output().is_empty());
    assert_eq!(decode_ans(&first[8..]), b"once");
}
