use molasses::crypto::{
    encode_hkdf_label, hkdf_expand_label, hkdf_extract, node_label_bytes, path_label_bytes,
};

#[test]
fn extract_with_empty_salt_is_hmac_under_empty_key() {
    let prk = hkdf_extract(&Vec::new());
    let expected: Vec<u8> = vec![
        0xb6, 0x13, 0x67, 0x9a, 0x08, 0x14, 0xd9, 0xec, 0x77, 0x2f, 0x95, 0xd7, 0x78, 0xc3, 0x5f,
        0xc5, 0xff, 0x16, 0x97, 0xc4, 0x93, 0x71, 0x56, 0x53, 0xc6, 0xc7, 0x12, 0x14, 0x42, 0x92,
        0xc5, 0xad,
    ];
    assert_eq!(prk, expected);
}

#[test]
fn hkdf_label_layout() {
    let label = encode_hkdf_label(32, &node_label_bytes(), &vec![0xaa, 0xbb]);
    let mut expected = vec![0, 32, 10];
    expected.extend_from_slice(b"mls10 node");
    expected.extend_from_slice(&[0, 0, 0, 2, 0xaa, 0xbb]);
    assert_eq!(label, expected);
    assert_eq!(path_label_bytes(), b"path".to_vec());
}

#[test]
fn expand_label_matches_hkdf_expand() {
    let prk = vec![0x07u8; 32];
    let out = hkdf_expand_label(&prk, &node_label_bytes(), &Vec::new());
    let info = encode_hkdf_label(32, &node_label_bytes(), &Vec::new());
    let key = ring::hkdf::Prk::new_less_safe(ring::hkdf::HKDF_SHA256, &prk);
    let parts = [info.as_slice()];
    let okm = key.expand(&parts, ring::hkdf::HKDF_SHA256).unwrap();
    let mut expected = vec![0u8; 32];
    okm.fill(&mut expected).unwrap();
    assert_eq!(out, expected);
    assert_ne!(out, prk);
    let other = hkdf_expand_label(&prk, &path_label_bytes(), &Vec::new());
    assert_ne!(out, other);
}
