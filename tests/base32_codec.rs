use base_util::base32::{b32_decode, b32_encode};
use base_util::error::CodecError;

fn encode(input: &[u8], wrap: Option<usize>) -> Result<Vec<u8>, CodecError> {
    b32_encode(input, wrap)
}

fn decode(input: &[u8], ignore_garbage: bool) -> Result<Vec<u8>, CodecError> {
    b32_decode(input, ignore_garbage)
}

fn test_encode(input: &[u8], expected: &[u8], wrap: Option<usize>) {
    assert_eq!(encode(input, wrap).unwrap(), expected.to_vec());
}

fn test_decode(input: &[u8], expected: &[u8], ignore_garbage: bool) {
    assert_eq!(decode(input, ignore_garbage).unwrap(), expected);
}

fn test_encode_err(input: &[u8], wrap: Option<usize>) {
    assert!(encode(input, wrap).is_err());
}

fn test_decode_err(input: &[u8], ignore_garbage: bool) {
    assert!(decode(input, ignore_garbage).is_err());
}

fn test_bidi(data: &[u8], encoded: &[u8], wrap: Option<usize>, ignore_garbage: bool) {
    test_encode(data, encoded, wrap);
    test_decode(encoded, data, ignore_garbage);
}

fn test_bidi_simple(data: &[u8], encoded: &[u8]) {
    test_bidi(data, encoded, None, false);
}

#[test]
fn test_base32_test_empty() {
    test_bidi_simple(&[], &[]);
}

#[test]
fn test_base32_test_hello_world() {
    test_bidi_simple(b"hello, world!", b"NBSWY3DPFQQHO33SNRSCC===");
}

#[test]
fn test_base32_test_wrapping() {
    test_bidi(
        b"The quick brown fox jumps over the lazy dog.",
        b"KRUGKIDROVUWG2ZAMJZG\n653OEBTG66BANJ2W24DT\nEBXXMZLSEB2GQZJANRQX\nU6JAMRXWOLQ=\n",
        Some(20),
        false,
    );
}

#[test]
fn test_base32_test_err_on_invalid_char() {
    test_decode_err(b"KRUGKIDROVUwWG2ZAMJZG6\n53OEBTG66BANJ2W24DTEB\nXXMZLSEB2GQZJANRQXU6J\nAMRXWOLQ=\n", false);
}

#[test]
fn test_base32_test_ignore_invalid_char() {
    test_decode(
        b"KRUGKIDROVUwWG2ZAMJZG6\n53OEBTG66BANJ2W24DTEB\nXXMZLSEB2GQZJANRQXU6J\nAMRXWOLQ=\n",
        b"The quick brown fox jumps over the lazy dog.",
        true,
    );
}

#[test]
fn test_base32_test_invalid_wrap() {
    test_encode_err(b"hello world", Some(0));
}

#[test]
fn b32_invalid_wrap_is_configuration_error() {
    assert_eq!(encode(b"hello world", Some(0)), Err(CodecError::InvalidConfiguration));
}

#[test]
fn b32_padding_per_residue() {
    test_bidi_simple(b"f", b"MY======");
    test_bidi_simple(b"fo", b"MZXQ====");
    test_bidi_simple(b"foo", b"MZXW6===");
    test_bidi_simple(b"foob", b"MZXW6YQ=");
    test_bidi_simple(b"fooba", b"MZXW6YTB");
    test_bidi_simple(b"foobar", b"MZXW6YTBOI======");
}

#[test]
fn b32_round_trip_widths() {
    let data: Vec<u8> = (0..200u32).map(|i| (i * 91 % 256) as u8).collect();
    for len in 0..data.len() {
        for wrap in [None, Some(1), Some(4), Some(20), Some(76)] {
            let enc = encode(&data[..len], wrap).unwrap();
            assert_eq!(decode(&enc, false).unwrap(), data[..len].to_vec());
            assert_eq!(decode(&enc, true).unwrap(), data[..len].to_vec());
        }
    }
}

#[test]
fn b32_wrapped_line_lengths() {
    let data: Vec<u8> = (0..60u8).collect();
    for len in 0..data.len() {
        for w in [1usize, 5, 8, 20, 76] {
            let enc = encode(&data[..len], Some(w)).unwrap();
            assert_eq!(*enc.last().unwrap(), b'\n');
            let body = &enc[..enc.len() - 1];
            assert!(!body.ends_with(b"\n"));
            let lines: Vec<&[u8]> = body.split(|b| *b == b'\n').collect();
            for (i, line) in lines.iter().enumerate() {
                if i + 1 < lines.len() {
                    assert_eq!(line.len(), w);
                } else {
                    assert!(line.len() <= w);
                }
            }
        }
    }
}

#[test]
fn b32_unwrapped_has_no_newline() {
    let data: Vec<u8> = (0..=255u8).collect();
    let enc = encode(&data, None).unwrap();
    assert!(!enc.contains(&b'\n'));
    assert_eq!(enc.len(), 416);
}

#[test]
fn b32_garbage_inserted() {
    let data = b"garbage tolerant decoding";
    let enc = encode(data, Some(16)).unwrap();
    let mut dirty: Vec<u8> = Vec::new();
    for (i, b) in enc.iter().enumerate() {
        if i % 5 == 0 {
            dirty.push(b'1');
            dirty.push(b'a');
        }
        dirty.push(*b);
    }
    assert_eq!(decode(&dirty, true).unwrap(), data.to_vec());
    assert_eq!(decode(&dirty, false), Err(CodecError::InvalidInput));
}

#[test]
fn b32_bad_padding_fails() {
    assert_eq!(decode(b"M=======", false), Err(CodecError::InvalidInput));
    assert_eq!(decode(b"MZX=====", false), Err(CodecError::InvalidInput));
    assert_eq!(decode(b"MZXW6Y==", false), Err(CodecError::InvalidInput));
    assert_eq!(decode(b"MZ=W6YQ=", true), Err(CodecError::InvalidInput));
}

#[test]
fn b32_second_final_group_fails() {
    assert_eq!(decode(b"MY======MY======", false), Err(CodecError::InvalidInput));
    assert_eq!(decode(b"MY======MY======", true).unwrap(), b"f".to_vec());
}

#[test]
fn b32_partial_trailing_group() {
    assert_eq!(decode(b"MZXW6YTBMY", false).unwrap(), b"fooba".to_vec());
    assert_eq!(decode(b"MZXW6YTBM!", false), Err(CodecError::InvalidInput));
}
