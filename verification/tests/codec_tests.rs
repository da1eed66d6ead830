//! Tests of the external-section record codec, the varint primitives, and
//! the store paths.

use wasm_splice::varint::{encode_leb_u64, read_var_u32};
use wasm_splice::{write_section_header, ExternalSection, RecordField, SpliceConfig, SpliceError};

#[test]
fn codec_round_trip_minimal_record() {
    // An empty prefix and a zero external size round-trip exactly.
    let rec = ExternalSection {
        external_section_id: 0,
        prefix: Vec::new(),
        external_size: 0,
        digest_algo: b"sha256".to_vec(),
        digest_data: vec![0xCD; 32],
    };
    let bytes = rec.to_bytes();
    let back = ExternalSection::from_bytes(&bytes).unwrap();
    assert_eq!(back.external_section_id, 0);
    assert_eq!(back.prefix, Vec::<u8>::new());
    assert_eq!(back.external_size, 0);
    assert_eq!(back.digest_algo, b"sha256".to_vec());
    assert_eq!(back.digest_data, vec![0xCD; 32]);
}

#[test]
fn codec_round_trip_full_record() {
    let rec = ExternalSection {
        external_section_id: 0x0B,
        prefix: vec![4, b'n', b'a', b'm', b'e'],
        external_size: 0xFFFF_FFFF,
        digest_algo: b"sha256".to_vec(),
        digest_data: (0..32).collect(),
    };
    let bytes = rec.to_bytes();
    let back = ExternalSection::from_bytes(&bytes).unwrap();
    assert_eq!(back.external_section_id, 0x0B);
    assert_eq!(back.prefix, vec![4, b'n', b'a', b'm', b'e']);
    assert_eq!(back.external_size, 0xFFFF_FFFF);
    assert_eq!(back.digest_algo, b"sha256".to_vec());
    assert_eq!(back.digest_data, (0..32).collect::<Vec<u8>>());
}

#[test]
fn codec_rejects_trailing_byte() {
    let rec = ExternalSection {
        external_section_id: 0,
        prefix: Vec::new(),
        external_size: 0,
        digest_algo: b"sha256".to_vec(),
        digest_data: vec![0xCD; 32],
    };
    let mut bytes = rec.to_bytes();
    bytes.push(0x00);
    assert_eq!(
        ExternalSection::from_bytes(&bytes).unwrap_err(),
        SpliceError::RecordTrailingData
    );
}

#[test]
fn codec_reports_truncated_field() {
    assert_eq!(
        ExternalSection::from_bytes(&[]).unwrap_err(),
        SpliceError::RecordTruncated(RecordField::SectionId)
    );
    assert_eq!(
        ExternalSection::from_bytes(&[0x00]).unwrap_err(),
        SpliceError::RecordTruncated(RecordField::Prefix)
    );
    assert_eq!(
        ExternalSection::from_bytes(&[0x00, 0x00]).unwrap_err(),
        SpliceError::RecordTruncated(RecordField::ExternalSize)
    );
    assert_eq!(
        ExternalSection::from_bytes(&[0x00, 0x00, 0x05]).unwrap_err(),
        SpliceError::RecordTruncated(RecordField::DigestAlgo)
    );
    assert_eq!(
        ExternalSection::from_bytes(&[0x00, 0x00, 0x05, 0x00]).unwrap_err(),
        SpliceError::RecordTruncated(RecordField::DigestData)
    );
}

#[test]
fn write_section_wraps_record() {
    let rec = ExternalSection {
        external_section_id: 1,
        prefix: vec![0],
        external_size: 2,
        digest_algo: b"sha256".to_vec(),
        digest_data: vec![9; 32],
    };
    let body = rec.to_bytes();
    let mut section = Vec::new();
    let written = rec.write_section(&mut section);
    assert_eq!(section[0], 0x5E);
    assert_eq!(section[1] as usize, body.len());
    assert_eq!(&section[2..], &body[..]);
    assert_eq!(written, section.len());
}

#[test]
fn section_header_encoding() {
    let mut out = Vec::new();
    let n = write_section_header(&mut out, 7, 5);
    assert_eq!(out, vec![7, 5]);
    assert_eq!(n, 2);

    let mut out2 = Vec::new();
    let n2 = write_section_header(&mut out2, 0, 300);
    assert_eq!(out2, vec![0, 0xAC, 0x02]);
    assert_eq!(n2, 3);
}

#[test]
fn varint_round_trip() {
    for value in [0u64, 1, 0x7F, 0x80, 300, 0x3FFF, 0x4000, 0xFFFF_FFFF] {
        let mut bytes = Vec::new();
        encode_leb_u64(&mut bytes, value);
        let (decoded, end) = read_var_u32(&bytes, 0).unwrap();
        assert_eq!(decoded as u64, value);
        assert_eq!(end, bytes.len());
    }
}

#[test]
fn varint_encoding_bytes() {
    let mut b = Vec::new();
    encode_leb_u64(&mut b, 624485);
    assert_eq!(b, vec![0xE5, 0x8E, 0x26]);
}

#[test]
fn varint_accepts_padded_encoding() {
    // A non-canonical, zero-padded length still decodes.
    assert_eq!(read_var_u32(&[0x80, 0x00], 0), Some((0, 2)));
}

#[test]
fn varint_rejects_bad_encodings() {
    // Truncated: the continuation bit promises a byte that never comes.
    assert_eq!(read_var_u32(&[0x80], 0), None);
    // Too long for 32 bits: a sixth byte would be needed.
    assert_eq!(read_var_u32(&[0x80, 0x80, 0x80, 0x80, 0x80, 0x01], 0), None);
    // The fifth byte carries bits beyond the thirty-second.
    assert_eq!(read_var_u32(&[0xFF, 0xFF, 0xFF, 0xFF, 0x7F], 0), None);
}

#[test]
fn store_path_layout() {
    let config = SpliceConfig::new("store".to_string(), "bin".to_string());
    let p = config.external_section_path(&[0x01, 0xFE]).unwrap();
    assert_eq!(p, "store/01fe.bin");

    let default_config = SpliceConfig::default();
    let q = default_config.external_section_path(&[0x01, 0xFE]).unwrap();
    assert_eq!(q, "01fe.ext");
    assert_eq!(q[..4], hex::encode([0x01u8, 0xFE])[..]);
}

#[test]
fn store_path_rejects_empty_digest() {
    let config = SpliceConfig::default();
    assert_eq!(
        config.external_section_path(&[]).unwrap_err(),
        SpliceError::EmptyDigest
    );
}

#[test]
fn store_path_is_64_hex_chars_for_sha256() {
    let m = {
        let mut m = vec![0x00, 0x61, 0x73, 0x6d, 0x01, 0x00, 0x00, 0x00];
        m.push(0);
        let payload = {
            let mut p = Vec::new();
            encode_leb_u64(&mut p, 1);
            p.push(b'x');
            p.extend_from_slice(&[1, 2, 3]);
            p
        };
        encode_leb_u64(&mut m, payload.len() as u64);
        m.extend_from_slice(&payload);
        m
    };
    let out = wasm_splice::split_module(&m, &vec![b"x".to_vec()]).unwrap();
    let config = SpliceConfig::default();
    let p = config
        .external_section_path(&out.fragments[0].digest)
        .unwrap();
    assert_eq!(p.len(), 64 + 4);
    assert!(p.ends_with(".ext"));
    assert!(p[..64].chars().all(|c| c.is_ascii_hexdigit()));
}
