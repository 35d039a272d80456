use chunkflow::bytes_be::{push_u64_be, read_u16_be, read_u64_be};
use chunkflow::catalog::{decode_catalog, encode_catalog, FileEntry};
use chunkflow::chunk::Chunk;

fn entry(name: &str, size: u64) -> FileEntry {
    FileEntry { name: name.as_bytes().to_vec(), size }
}

fn round_trip(entries: Vec<FileEntry>) {
    let encoded = encode_catalog(&entries);
    let (decoded, used) = decode_catalog(&encoded).expect("a fresh encoding must decode");
    assert_eq!(used, encoded.len());
    assert_eq!(decoded.len(), entries.len());
    for (d, e) in decoded.iter().zip(entries.iter()) {
        assert_eq!(d.name, e.name);
        assert_eq!(d.size, e.size);
    }
}

#[test]
fn catalog_round_trip_empty() {
    round_trip(Vec::new());
}

#[test]
fn catalog_round_trip_single() {
    round_trip(vec![entry("a.txt", 2048)]);
}

#[test]
fn catalog_round_trip_spaces_and_unicode() {
    round_trip(vec![
        entry("with space.bin", 7),
        entry("naïve-fichier.txt", 0),
        entry("日本語ファイル", u64::MAX),
        entry("", 1),
    ]);
}

#[test]
fn catalog_round_trip_many() {
    let mut entries = Vec::new();
    for i in 0..300u64 {
        entries.push(entry(&format!("file-{i}"), i * 1021));
    }
    round_trip(entries);
}

#[test]
fn catalog_round_trip_with_trailing_stream_bytes() {
    let entries = vec![entry("x", 5), entry("y", 6)];
    let mut encoded = encode_catalog(&entries);
    let frame_len = encoded.len();
    encoded.extend_from_slice(&[0xAA, 0xBB, 0xCC]);
    let (decoded, used) = decode_catalog(&encoded).expect("trailing bytes belong to the stream");
    assert_eq!(used, frame_len);
    assert_eq!(decoded.len(), 2);
    assert_eq!(decoded[1].name, b"y".to_vec());
}

#[test]
fn catalog_decode_truncated_fails() {
    let entries = vec![entry("abc", 1), entry("defg", 2)];
    let encoded = encode_catalog(&entries);
    for cut in [0, 4, 8, 15, encoded.len() - 1] {
        assert!(decode_catalog(&encoded[..cut]).is_none());
    }
}

#[test]
fn catalog_decode_wrong_field_count_fails() {
    // count says two names, but the name block holds a single field
    let entries = vec![entry("onlyone", 1), entry("two", 2)];
    let mut encoded = encode_catalog(&entries);
    // overwrite the separator between the names, welding them into one field
    let sep = encoded.iter().rposition(|b| *b == 0).unwrap();
    encoded[sep] = b'_';
    assert!(decode_catalog(&encoded).is_none());
}

#[test]
fn catalog_layout_is_big_endian_fields() {
    let entries = vec![entry("ab", 0x0102030405060708)];
    let encoded = encode_catalog(&entries);
    // count
    assert_eq!(&encoded[..8], &[0, 0, 0, 0, 0, 0, 0, 1]);
    // the one size
    assert_eq!(&encoded[8..16], &[1, 2, 3, 4, 5, 6, 7, 8]);
    // name block length, then the name with no separators around it
    assert_eq!(&encoded[16..24], &[0, 0, 0, 0, 0, 0, 0, 2]);
    assert_eq!(&encoded[24..], b"ab");
}

#[test]
fn chunk_round_trip_boundary_lengths() {
    for len in [0usize, 1, 1023, 1024] {
        let payload: Vec<u8> = (0..len).map(|i| (i % 251) as u8).collect();
        let chunk = Chunk::from_payload(payload.clone());
        assert_eq!(chunk.end(), len < 1024);
        let frame = chunk.encode();
        assert_eq!(frame.len(), 2 + len);
        let (decoded, used) = Chunk::decode(&frame, 0).expect("a fresh frame must decode");
        assert_eq!(used, frame.len());
        assert_eq!(decoded.len, len);
        assert_eq!(decoded.payload(), &payload);
        assert_eq!(decoded.end(), len < 1024);
    }
}

#[test]
fn chunk_header_bits() {
    // a full chunk travels under a zero header
    let full = Chunk::from_payload(vec![7u8; 1024]).encode();
    assert_eq!(&full[..2], &[0, 0]);
    // a short chunk raises the end flag and carries its exact length
    let short = Chunk::from_payload(vec![9u8; 5]).encode();
    assert_eq!(&short[..2], &[0x80, 5]);
    let empty = Chunk::from_payload(Vec::new()).encode();
    assert_eq!(&empty[..2], &[0x80, 0]);
}

#[test]
fn chunk_decode_mid_stream() {
    let first = Chunk::from_payload(vec![1u8; 1024]).encode();
    let second = Chunk::from_payload(vec![2u8; 10]).encode();
    let mut stream = first.clone();
    stream.extend_from_slice(&second);
    let (c1, next) = Chunk::decode(&stream, 0).unwrap();
    assert_eq!(c1.len, 1024);
    let (c2, end) = Chunk::decode(&stream, next).unwrap();
    assert_eq!(c2.len, 10);
    assert_eq!(c2.payload(), &vec![2u8; 10]);
    assert_eq!(end, stream.len());
}

#[test]
fn chunk_decode_malformed_header_fails() {
    // end flag set with a length field of 1024: no sender writes this
    let mut bytes = vec![0x84u8, 0x00];
    bytes.extend_from_slice(&[0u8; 2048]);
    assert!(Chunk::decode(&bytes, 0).is_none());
    // truncated payload
    let frame = Chunk::from_payload(vec![3u8; 100]).encode();
    assert!(Chunk::decode(&frame[..50], 0).is_none());
}

#[test]
fn chunk_payload_len_follows_header() {
    assert_eq!(Chunk::payload_len(0), Some(1024));
    assert_eq!(Chunk::payload_len(0x8000), Some(0));
    assert_eq!(Chunk::payload_len(0x8000 | 1023), Some(1023));
    assert_eq!(Chunk::payload_len(0x8000 | 1024), None);
}

#[test]
fn chunk_from_source_takes_at_most_a_chunk() {
    let data: Vec<u8> = (0..1500).map(|i| (i % 256) as u8).collect();
    let c0 = Chunk::from_source(&data, 0);
    assert_eq!(c0.len, 1024);
    assert!(!c0.end());
    let c1 = Chunk::from_source(&data, 1024);
    assert_eq!(c1.len, 1500 - 1024);
    assert!(c1.end());
    assert_eq!(c1.payload().as_slice(), &data[1024..]);
    let c2 = Chunk::from_source(&data, 1500);
    assert_eq!(c2.len, 0);
    assert!(c2.end());
}

#[test]
fn big_endian_fields_round_trip() {
    let mut buf = Vec::new();
    push_u64_be(&mut buf, 0x1122334455667788);
    assert_eq!(buf, vec![0x11, 0x22, 0x33, 0x44, 0x55, 0x66, 0x77, 0x88]);
    assert_eq!(read_u64_be(&buf, 0), 0x1122334455667788);
    assert_eq!(read_u16_be(&[0x80, 0x05], 0), 0x8005);
}
