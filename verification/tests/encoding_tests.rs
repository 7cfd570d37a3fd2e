use gallery::encoding::{base64_decode, base64_encode, hex_encode};

#[test]
fn base64_encodes_known_values() {
    assert_eq!(base64_encode(b""), "");
    assert_eq!(base64_encode(b"M"), "TQ==");
    assert_eq!(base64_encode(b"Ma"), "TWE=");
    assert_eq!(base64_encode(b"Man"), "TWFu");
    assert_eq!(base64_encode(b"hello world"), "aGVsbG8gd29ybGQ=");
    assert_eq!(base64_encode(&[0u8, 1, 2, 3, 4, 5, 6, 7, 8, 9]), "AAECAwQFBgcICQ==");
    assert_eq!(base64_encode(&[0xfb, 0xff, 0xbf]), "+/+/");
}

#[test]
fn base64_decodes_what_it_encodes() {
    let samples: Vec<Vec<u8>> = vec![
        vec![],
        vec![0],
        vec![1, 2],
        vec![255, 254, 253],
        (0u8..=255).collect(),
        b"The quick brown fox".to_vec(),
    ];
    for sample in samples {
        let text = base64_encode(&sample);
        assert_eq!(base64_decode(&text), Ok(sample));
    }
}

#[test]
fn base64_decode_rejects_malformed_text() {
    let expected = Err("Invalid base64 data".to_string());
    assert_eq!(base64_decode("abc"), expected);
    assert_eq!(base64_decode("ab!d"), expected);
    assert_eq!(base64_decode("=AAA"), expected);
    assert_eq!(base64_decode("TQ==TQ=="), expected);
    // Non-canonical padding bits: "TR==" is not the encoding of any byte string.
    assert_eq!(base64_decode("TR=="), expected);
    assert_eq!(base64_decode("TWFu\n"), expected);
}

#[test]
fn hex_encodes_bytes_in_lowercase() {
    assert_eq!(hex_encode(&[]), "");
    assert_eq!(hex_encode(&[0x00, 0x0f, 0xa5, 0xff]), "000fa5ff");
}
