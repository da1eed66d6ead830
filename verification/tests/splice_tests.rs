//! End-to-end tests of split and splice on small modules.

use sha2::Digest;
use wasm_splice::varint::encode_leb_u64;
use wasm_splice::{
    parse_sections, splice_module, splice_requests, split_module, transform_sections,
    SectionAction, SpliceConfig, SpliceError,
};

/// Builds a module: the preamble with version 1, then the given sections.
fn module(sections: &[(u8, Vec<u8>)]) -> Vec<u8> {
    let mut m = vec![0x00, 0x61, 0x73, 0x6d, 0x01, 0x00, 0x00, 0x00];
    for (id, payload) in sections {
        m.push(*id);
        encode_leb_u64(&mut m, payload.len() as u64);
        m.extend_from_slice(payload);
    }
    m
}

/// The payload of a custom section: the length-prefixed name, then the data.
fn custom_payload(name: &str, data: &[u8]) -> Vec<u8> {
    let mut p = Vec::new();
    encode_leb_u64(&mut p, name.len() as u64);
    p.extend_from_slice(name.as_bytes());
    p.extend_from_slice(data);
    p
}

fn names(list: &[&str]) -> Vec<Vec<u8>> {
    list.iter().map(|n| n.as_bytes().to_vec()).collect()
}

#[test]
fn scenario_single_custom_section() {
    // Preamble plus one custom section named "x" with one hundred 0xAA bytes.
    let data = vec![0xAA; 100];
    let input = module(&[(0, custom_payload("x", &data))]);
    let out = split_module(&input, &names(&["x"])).unwrap();

    // The layer flag 0x00020000 is set in the version word.
    assert_eq!(&out.module[0..4], &[0x00, 0x61, 0x73, 0x6d]);
    assert_eq!(&out.module[4..8], &[0x01, 0x00, 0x02, 0x00]);

    // The one section left is an external-section record, not a custom one.
    let descs = parse_sections(&out.module).unwrap();
    assert_eq!(descs.len(), 1);
    assert_eq!(descs[0].id, 0x5E);

    // The fragment holds exactly the hundred payload bytes, under a
    // 32-byte digest.
    assert_eq!(out.fragments.len(), 1);
    assert_eq!(out.fragments[0].data, data);
    assert_eq!(out.fragments[0].digest.len(), 32);
    assert_ne!(out.fragments[0].data, out.fragments[0].digest);

    // The record inside the section names the original section exactly.
    let payload = &out.module[descs[0].payload_start..descs[0].end];
    let rec = wasm_splice::ExternalSection::from_bytes(payload).unwrap();
    assert_eq!(rec.external_section_id, 0);
    assert_eq!(rec.prefix, vec![1, b'x']);
    assert_eq!(rec.external_size, 100);
    assert_eq!(rec.digest_algo, b"sha256".to_vec());
    assert_eq!(rec.digest_data, out.fragments[0].digest);

    // Splicing the fragment back reproduces the original module exactly.
    let frags = vec![out.fragments[0].data.clone()];
    let spliced = splice_module(&out.module, &frags).unwrap();
    assert_eq!(spliced, input);
}

#[test]
fn round_trip_mixed_sections() {
    let input = module(&[
        (0, custom_payload("keep", b"kept payload")),
        (0, custom_payload("x", &[0x11; 50])),
        (1, vec![0x60, 0x00, 0x00]),
        (0, custom_payload("y", &[0x22; 7])),
    ]);
    let out = split_module(&input, &names(&["x", "y"])).unwrap();
    assert_eq!(out.fragments.len(), 2);
    assert_eq!(out.fragments[0].data, vec![0x11; 50]);
    assert_eq!(out.fragments[1].data, vec![0x22; 7]);

    let digests = splice_requests(&out.module).unwrap();
    assert_eq!(digests.len(), 2);
    assert_eq!(digests[0], out.fragments[0].digest);
    assert_eq!(digests[1], out.fragments[1].digest);

    let frags: Vec<Vec<u8>> = out.fragments.iter().map(|f| f.data.clone()).collect();
    let spliced = splice_module(&out.module, &frags).unwrap();
    assert_eq!(spliced, input);
}

#[test]
fn non_interference_unmatched_sections() {
    // Splitting with no matching name changes the preamble word only.
    let input = module(&[
        (0, custom_payload("a", b"alpha")),
        (7, vec![1, 2, 3]),
    ]);
    let out = split_module(&input, &names(&["missing"])).unwrap();
    assert_eq!(out.fragments.len(), 0);
    assert_eq!(&out.module[8..], &input[8..]);
    assert_eq!(&out.module[0..4], &input[0..4]);
}

#[test]
fn size_guard_truncated_fragment() {
    let input = module(&[(0, custom_payload("x", &[0xAA; 100]))]);
    let out = split_module(&input, &names(&["x"])).unwrap();
    let mut truncated = out.fragments[0].data.clone();
    truncated.pop();
    let r = splice_module(&out.module, &vec![truncated]);
    assert_eq!(r.unwrap_err(), SpliceError::SizeMismatch);
}

#[test]
fn size_guard_grown_fragment() {
    let input = module(&[(0, custom_payload("x", &[0xAA; 100]))]);
    let out = split_module(&input, &names(&["x"])).unwrap();
    let mut grown = out.fragments[0].data.clone();
    grown.push(0xBB);
    let r = splice_module(&out.module, &vec![grown]);
    assert_eq!(r.unwrap_err(), SpliceError::SizeMismatch);
}

#[test]
fn flag_precondition_unset() {
    // A module that was never split cannot be spliced.
    let input = module(&[(0, custom_payload("x", &[0xAA; 4]))]);
    assert_eq!(
        splice_module(&input, &Vec::new()).unwrap_err(),
        SpliceError::LayerFlagMissing
    );
    assert_eq!(
        splice_requests(&input).unwrap_err(),
        SpliceError::LayerFlagMissing
    );
}

#[test]
fn flag_precondition_checked_before_parsing() {
    // Even a module whose sections are garbage fails on the flag first.
    let mut garbage = vec![0x00, 0x61, 0x73, 0x6d, 0x01, 0x00, 0x00, 0x00];
    garbage.extend_from_slice(&[0xFF, 0xFF, 0xFF, 0xFF]);
    assert_eq!(
        splice_module(&garbage, &Vec::new()).unwrap_err(),
        SpliceError::LayerFlagMissing
    );
}

#[test]
fn digest_determinism_same_payload() {
    // The same payload bytes yield the same store filename, whatever the
    // module or section name around them.
    let data = vec![0x5A; 33];
    let m1 = module(&[(0, custom_payload("one", &data))]);
    let m2 = module(&[(3, vec![9, 9]), (0, custom_payload("two", &data))]);
    let o1 = split_module(&m1, &names(&["one"])).unwrap();
    let o2 = split_module(&m2, &names(&["two"])).unwrap();
    assert_eq!(o1.fragments[0].digest, o2.fragments[0].digest);

    let config = SpliceConfig::default();
    let p1 = config.external_section_path(&o1.fragments[0].digest).unwrap();
    let p2 = config.external_section_path(&o2.fragments[0].digest).unwrap();
    assert_eq!(p1, p2);
}

#[test]
fn fragment_count_mismatch() {
    let input = module(&[(0, custom_payload("x", &[0xAA; 10]))]);
    let out = split_module(&input, &names(&["x"])).unwrap();

    // No fragments where one record needs one.
    assert_eq!(
        splice_module(&out.module, &Vec::new()).unwrap_err(),
        SpliceError::FragmentCountMismatch
    );

    // One fragment too many.
    let frags = vec![out.fragments[0].data.clone(), vec![1, 2, 3]];
    assert_eq!(
        splice_module(&out.module, &frags).unwrap_err(),
        SpliceError::FragmentCountMismatch
    );
}

#[test]
fn split_errors_on_malformed_input() {
    assert_eq!(
        split_module(&[0, 1, 2], &Vec::new()).unwrap_err(),
        SpliceError::InputTooSmall
    );
    assert_eq!(
        split_module(b"WASM\x01\x00\x00\x00", &Vec::new()).unwrap_err(),
        SpliceError::BadMagic
    );
    // A section header whose payload runs past the end of the buffer.
    let mut m = module(&[]);
    m.extend_from_slice(&[0x00, 0x7F, 0x01]);
    assert_eq!(
        split_module(&m, &Vec::new()).unwrap_err(),
        SpliceError::MalformedSection
    );
    // A custom section whose name length exceeds its payload.
    let m2 = module(&[(0, vec![0x20, b'x'])]);
    assert_eq!(
        split_module(&m2, &Vec::new()).unwrap_err(),
        SpliceError::MalformedCustomName
    );
}

#[test]
fn splice_rejects_unsupported_algorithm() {
    // Build a record by hand with algorithm "md5" and wrap it in an
    // external section inside a flagged module.
    let rec = wasm_splice::ExternalSection {
        external_section_id: 0,
        prefix: vec![1, b'x'],
        external_size: 3,
        digest_algo: b"md5".to_vec(),
        digest_data: vec![0xAB; 16],
    };
    let mut payload = Vec::new();
    rec.write_section(&mut payload);
    let mut m = vec![0x00, 0x61, 0x73, 0x6d, 0x01, 0x00, 0x02, 0x00];
    m.extend_from_slice(&payload);
    assert_eq!(
        splice_requests(&m).unwrap_err(),
        SpliceError::UnsupportedDigestAlgo
    );
    assert_eq!(
        splice_module(&m, &vec![vec![0; 3]]).unwrap_err(),
        SpliceError::UnsupportedDigestAlgo
    );
}

#[test]
fn splice_rejects_empty_digest() {
    let rec = wasm_splice::ExternalSection {
        external_section_id: 0,
        prefix: vec![1, b'x'],
        external_size: 3,
        digest_algo: b"sha256".to_vec(),
        digest_data: Vec::new(),
    };
    let mut payload = Vec::new();
    rec.write_section(&mut payload);
    let mut m = vec![0x00, 0x61, 0x73, 0x6d, 0x01, 0x00, 0x02, 0x00];
    m.extend_from_slice(&payload);
    assert_eq!(splice_requests(&m).unwrap_err(), SpliceError::EmptyDigest);
}

#[test]
fn splice_too_small() {
    // Exactly eight bytes is too small to splice, even with the flag set.
    let m = vec![0x00, 0x61, 0x73, 0x6d, 0x01, 0x00, 0x02, 0x00];
    assert_eq!(
        splice_module(&m, &Vec::new()).unwrap_err(),
        SpliceError::InputTooSmall
    );
}

#[test]
fn split_preserves_already_set_flag() {
    // Setting the layer flag is idempotent.
    let mut input = module(&[(0, custom_payload("x", &[1, 2]))]);
    input[6] |= 0x02;
    let out = split_module(&input, &Vec::new()).unwrap();
    assert_eq!(&out.module[..], &input[..]);
}

#[test]
fn transform_substitutes_selected_sections() {
    // The rewriter copies kept sections verbatim and substitutes the
    // replacement bytes for the others, in input order.
    let input = module(&[(1, vec![0xAA, 0xBB]), (2, vec![0xCC])]);
    let descs = parse_sections(&input).unwrap();
    let actions = vec![SectionAction::Keep, SectionAction::Replace(vec![9, 9, 9])];
    let preamble = input[0..8].to_vec();
    let out = transform_sections(&input, &preamble, &descs, &actions);
    assert_eq!(&out[0..8], &input[0..8]);
    assert_eq!(&out[8..12], &input[8..12]);
    assert_eq!(&out[12..], &[9, 9, 9]);
}

#[test]
fn sha256_digest_matches_library() {
    // The stored digest is the SHA-256 of the fragment bytes.
    let data = vec![0xAA; 100];
    let input = module(&[(0, custom_payload("x", &data))]);
    let out = split_module(&input, &names(&["x"])).unwrap();
    let expected = sha2::Sha256::digest(&data);
    assert_eq!(out.fragments[0].digest, expected.as_slice().to_vec());
}
