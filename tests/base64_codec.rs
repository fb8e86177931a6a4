use base_util::base64::{b64_decode, b64_encode};
use base_util::error::CodecError;

fn encode(input: &[u8], wrap: Option<usize>) -> Result<Vec<u8>, CodecError> {
    b64_encode(input, wrap)
}

fn decode(input: &[u8], ignore_garbage: bool) -> Result<Vec<u8>, CodecError> {
    b64_decode(input, ignore_garbage)
}

fn test_encode(input: &[u8], expected: &[u8], wrap: Option<usize>) {
    assert_eq!(encode(input, wrap).unwrap(), expected.to_vec());
}

fn test_decode(input: &[u8], expected: &[u8], ignore_garbage: bool) {
    assert_eq!(decode(input, ignore_garbage).unwrap(), expected);
}

fn test_encode_err(input: &[u8], wrap: Option<usize>) {
    assert!(encode(input, wrap).is_err());
}

fn test_decode_err(input: &[u8], ignore_garbage: bool) {
    assert!(decode(input, ignore_garbage).is_err());
}

fn test_bidi(data: &[u8], encoded: &[u8], wrap: Option<usize>, ignore_garbage: bool) {
    test_encode(data, encoded, wrap);
    test_decode(encoded, data, ignore_garbage);
}

fn test_bidi_simple(data: &[u8], encoded: &[u8]) {
    test_bidi(data, encoded, None, false);
}

#[test]
fn test_test_empty() {
    test_bidi_simple(&[], &[]);
}

#[test]
fn test_test_hello_world() {
    test_bidi_simple(b"hello, world!", b"aGVsbG8sIHdvcmxkIQ==");
}

#[test]
fn test_test_wrapping() {
    test_bidi(
        b"The quick brown fox jumps over the lazy dog.",
        b"VGhlIHF1aWNrIGJyb3du\nIGZveCBqdW1wcyBvdmVy\nIHRoZSBsYXp5IGRvZy4=\n",
        Some(20),
        false,
    );
}

#[test]
fn test_test_err_on_invalid_char() {
    test_decode_err(b"VGhlIHF1a^NrIGJyb3du\nIGZveCBqdW1wcyBvdmVy\nIHRoZSBsYXp5IGRvZy4=\n", false);
}

#[test]
fn test_test_ignore_invalid_char() {
    test_decode(
        b"VGhlIHF1aWNrIGJyb3du^^\nIGZveCBqdW1wcyBvdmVy\nIHRoZSBsYXp5IGRvZy4=\n",
        b"The quick brown fox jumps over the lazy dog.",
        true,
    );
}

#[test]
fn test_test_invalid_wrap() {
    test_encode_err(b"hello world", Some(0));
}

#[test]
fn b64_invalid_wrap_is_configuration_error() {
    assert_eq!(encode(b"", Some(0)), Err(CodecError::InvalidConfiguration));
    assert_eq!(encode(b"hello world", Some(0)), Err(CodecError::InvalidConfiguration));
}

#[test]
fn b64_padding_per_residue() {
    assert_eq!(encode(b"M", None).unwrap(), b"TQ==".to_vec());
    assert_eq!(encode(b"Ma", None).unwrap(), b"TWE=".to_vec());
    assert_eq!(encode(b"Man", None).unwrap(), b"TWFu".to_vec());
    assert_eq!(encode(b"Many", None).unwrap(), b"TWFueQ==".to_vec());
}

#[test]
fn b64_all_symbols() {
    let data: Vec<u8> = vec![0x00, 0x10, 0x83, 0x10, 0x51, 0x87, 0x20, 0x92, 0x8b, 0x30, 0xd3, 0x8f, 0x41, 0x14,
        0x93, 0x51, 0x55, 0x97, 0x61, 0x96, 0x9b, 0x71, 0xd7, 0x9f, 0x82, 0x18, 0xa3, 0x92, 0x59, 0xa7, 0xa2, 0x9a,
        0xab, 0xb2, 0xdb, 0xaf, 0xc3, 0x1c, 0xb3, 0xd3, 0x5d, 0xb7, 0xe3, 0x9e, 0xbb, 0xf3, 0xdf, 0xbf];
    let expected = b"ABCDEFGHIJKLMNOPQRSTUVWXYZabcdefghijklmnopqrstuvwxyz0123456789+/";
    assert_eq!(encode(&data, None).unwrap(), expected.to_vec());
    assert_eq!(decode(expected, false).unwrap(), data);
}

#[test]
fn b64_round_trip_widths() {
    let data: Vec<u8> = (0..200u32).map(|i| (i * 37 % 256) as u8).collect();
    for len in 0..data.len() {
        for wrap in [None, Some(1), Some(4), Some(20), Some(76)] {
            let enc = encode(&data[..len], wrap).unwrap();
            assert_eq!(decode(&enc, false).unwrap(), data[..len].to_vec());
            assert_eq!(decode(&enc, true).unwrap(), data[..len].to_vec());
        }
    }
}

#[test]
fn b64_wrapped_line_lengths() {
    let data: Vec<u8> = (0..100u8).collect();
    for len in 0..data.len() {
        for w in [1usize, 3, 4, 7, 20, 76] {
            let enc = encode(&data[..len], Some(w)).unwrap();
            assert_eq!(*enc.last().unwrap(), b'\n');
            let body = &enc[..enc.len() - 1];
            assert!(!body.ends_with(b"\n"));
            let lines: Vec<&[u8]> = body.split(|b| *b == b'\n').collect();
            for (i, line) in lines.iter().enumerate() {
                if i + 1 < lines.len() {
                    assert_eq!(line.len(), w);
                } else {
                    assert!(line.len() <= w);
                }
            }
        }
    }
}

#[test]
fn b64_exact_line_gets_one_newline() {
    assert_eq!(encode(b"abc", Some(4)).unwrap(), b"YWJj\n".to_vec());
    assert_eq!(encode(b"", Some(4)).unwrap(), b"\n".to_vec());
    assert_eq!(encode(b"abcd", Some(4)).unwrap(), b"YWJj\nZA==\n".to_vec());
}

#[test]
fn b64_unwrapped_has_no_newline() {
    let data: Vec<u8> = (0..=255u8).collect();
    let enc = encode(&data, None).unwrap();
    assert!(!enc.contains(&b'\n'));
    assert_eq!(enc.len(), 344);
}

#[test]
fn b64_garbage_inserted() {
    let data = b"garbage tolerant decoding";
    let enc = encode(data, Some(10)).unwrap();
    let mut dirty: Vec<u8> = Vec::new();
    for (i, b) in enc.iter().enumerate() {
        if i % 3 == 0 {
            dirty.push(b'*');
            dirty.push(0x80);
        }
        dirty.push(*b);
    }
    dirty.push(b'#');
    assert_eq!(decode(&dirty, true).unwrap(), data.to_vec());
    assert_eq!(decode(&dirty, false), Err(CodecError::InvalidInput));
}

#[test]
fn b64_whitespace_is_skipped() {
    assert_eq!(decode(b" aGVs\tbG8s\r\nIHdv cmxk\x0bIQ==\x0c", false).unwrap(), b"hello, world!".to_vec());
}

#[test]
fn b64_bad_padding_fails() {
    assert_eq!(decode(b"A===", false), Err(CodecError::InvalidInput));
    assert_eq!(decode(b"====", false), Err(CodecError::InvalidInput));
    assert_eq!(decode(b"AB=C", false), Err(CodecError::InvalidInput));
    assert_eq!(decode(b"A=BC", true), Err(CodecError::InvalidInput));
}

#[test]
fn b64_second_final_group_fails() {
    assert_eq!(decode(b"TQ==TQ==", false), Err(CodecError::InvalidInput));
    assert_eq!(decode(b"TQ==TWFu", false), Err(CodecError::InvalidInput));
}

#[test]
fn b64_ignore_garbage_stops_at_final_group() {
    assert_eq!(decode(b"TQ==TWFu", true).unwrap(), b"M".to_vec());
    assert_eq!(decode(b"TQ==!!", true).unwrap(), b"M".to_vec());
}

#[test]
fn b64_partial_trailing_group() {
    assert_eq!(decode(b"TWFuTQ", false).unwrap(), b"Man".to_vec());
    assert_eq!(decode(b"TQ==TW", false).unwrap(), b"M".to_vec());
    assert_eq!(decode(b"TWFuT!", false), Err(CodecError::InvalidInput));
    assert_eq!(decode(b"TWFuT!", true).unwrap(), b"Man".to_vec());
}
