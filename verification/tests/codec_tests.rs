use base64::Engine;

use k8s_openapi::codec::base64_decode;
use k8s_openapi::codec::base64_encode;
use k8s_openapi::error::JsonFault;
use k8s_openapi::ByteString;

#[test]
fn encode_known_vectors() {
    assert_eq!(base64_encode(b""), b"".to_vec());
    assert_eq!(base64_encode(b"f"), b"Zg==".to_vec());
    assert_eq!(base64_encode(b"fo"), b"Zm8=".to_vec());
    assert_eq!(base64_encode(b"foo"), b"Zm9v".to_vec());
    assert_eq!(base64_encode(b"foob"), b"Zm9vYg==".to_vec());
    assert_eq!(base64_encode(b"fooba"), b"Zm9vYmE=".to_vec());
    assert_eq!(base64_encode(b"foobar"), b"Zm9vYmFy".to_vec());
}

#[test]
fn decode_known_vectors() {
    assert_eq!(base64_decode(b"Zg=="), Ok(b"f".to_vec()));
    assert_eq!(base64_decode(b"Zm8="), Ok(b"fo".to_vec()));
    assert_eq!(base64_decode(b"Zm9v"), Ok(b"foo".to_vec()));
    assert_eq!(base64_decode(b""), Ok(b"".to_vec()));
}

#[test]
fn round_trip_many_lengths() {
    let mut v: Vec<u8> = Vec::new();
    for i in 0..64u32 {
        assert_eq!(base64_decode(&base64_encode(&v)), Ok(v.clone()));
        v.push((i * 37 % 256) as u8);
    }
    let all: Vec<u8> = (0..=255u8).collect();
    assert_eq!(base64_decode(&base64_encode(&all)), Ok(all.clone()));
}

#[test]
fn decode_rejects_bad_length() {
    assert_eq!(base64_decode(b"Zg="), Err(JsonFault::InvalidEncoding));
    assert_eq!(base64_decode(b"Z"), Err(JsonFault::InvalidEncoding));
    assert_eq!(base64_decode(b"Zm9vY"), Err(JsonFault::InvalidEncoding));
}

#[test]
fn decode_rejects_bad_alphabet() {
    assert_eq!(base64_decode(b"Z!=="), Err(JsonFault::InvalidEncoding));
    assert_eq!(base64_decode(b"===="), Err(JsonFault::InvalidEncoding));
    assert_eq!(base64_decode(b"Zm9v Zg=="), Err(JsonFault::InvalidEncoding));
    // padding may appear only in the final group
    assert_eq!(base64_decode(b"Zg==Zm9v"), Err(JsonFault::InvalidEncoding));
    // a group may not start with padding
    assert_eq!(base64_decode(b"=m9v"), Err(JsonFault::InvalidEncoding));
}

#[test]
fn encode_agrees_with_reference_implementation() {
    let samples: Vec<Vec<u8>> = vec![
        b"".to_vec(),
        b"a".to_vec(),
        b"ab".to_vec(),
        b"abc".to_vec(),
        b"hello, world!".to_vec(),
        vec![0, 255, 128, 7, 9, 200, 201, 202],
        (0..=255u8).collect(),
    ];
    for s in samples {
        let ours = String::from_utf8(base64_encode(&s)).unwrap();
        let reference = base64::engine::general_purpose::STANDARD.encode(&s);
        assert_eq!(ours, reference);
        let decoded = base64::engine::general_purpose::STANDARD
            .decode(ours.as_bytes())
            .unwrap();
        assert_eq!(decoded, s);
    }
}

#[test]
fn byte_string_round_trip() {
    let b = ByteString(vec![1, 2, 3, 250]);
    let text = b.to_base64();
    let back = ByteString::from_base64(&text).unwrap();
    assert_eq!(b, back);
}

#[test]
fn byte_string_default_is_empty() {
    let b: ByteString = Default::default();
    assert_eq!(b, ByteString(Vec::new()));
    assert_eq!(b.to_base64(), Vec::<u8>::new());
}

#[test]
fn byte_string_rejects_invalid_text() {
    assert_eq!(
        ByteString::from_base64(b"not base64!"),
        Err(JsonFault::InvalidEncoding)
    );
}
