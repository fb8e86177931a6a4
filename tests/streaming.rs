use base_util::alphabet::Alphabet;
use base_util::common::wrapping_write;
use base_util::decoder::{decode, Decoder};
use base_util::encoder::{encode, Encoder};
use base_util::error::CodecError;

fn encode_in_chunks(a: Alphabet, data: &[u8], wrap: Option<usize>, size: usize) -> Vec<u8> {
    let mut e = Encoder::new(a, wrap).unwrap();
    let mut out = Vec::new();
    for chunk in data.chunks(size) {
        e.update(chunk, &mut out);
    }
    e.finish(&mut out);
    out
}

fn decode_in_chunks(a: Alphabet, text: &[u8], ignore_garbage: bool, size: usize) -> Result<Vec<u8>, CodecError> {
    let mut d = Decoder::new(a, ignore_garbage);
    let mut out = Vec::new();
    for chunk in text.chunks(size) {
        if d.feed(chunk, &mut out)? {
            break;
        }
    }
    d.finish()?;
    Ok(out)
}

#[test]
fn wrapping_write_breaks_lines() {
    let mut out = Vec::new();
    let col = wrapping_write(b"abcdefghij", 10, Some(4), 0, &mut out);
    assert_eq!(out, b"abcd\nefgh\nij".to_vec());
    assert_eq!(col, 2);
    let col = wrapping_write(b"klxx", 2, Some(4), col, &mut out);
    assert_eq!(out, b"abcd\nefgh\nijkl".to_vec());
    assert_eq!(col, 4);
    let col = wrapping_write(b"m", 1, Some(4), col, &mut out);
    assert_eq!(out, b"abcd\nefgh\nijkl\nm".to_vec());
    assert_eq!(col, 1);
}

#[test]
fn wrapping_write_without_width() {
    let mut out = b"x".to_vec();
    let col = wrapping_write(b"abcdef", 4, None, 3, &mut out);
    assert_eq!(out, b"xabcd".to_vec());
    assert_eq!(col, 3);
}

#[test]
fn wrapping_write_empty() {
    let mut out = Vec::new();
    let col = wrapping_write(b"", 0, Some(3), 3, &mut out);
    assert!(out.is_empty());
    assert_eq!(col, 3);
}

#[test]
fn classify_bytes() {
    let a = Alphabet::Base64;
    assert_eq!(a.classify(b'A'), 0);
    assert_eq!(a.classify(b'z'), 51);
    assert_eq!(a.classify(b'0'), 52);
    assert_eq!(a.classify(b'+'), 62);
    assert_eq!(a.classify(b'/'), 63);
    assert_eq!(a.classify(b'='), 64);
    assert_eq!(a.classify(b'\n'), 0xFD);
    assert_eq!(a.classify(b'-'), 0xFF);
    let b = Alphabet::Base32;
    assert_eq!(b.classify(b'Z'), 25);
    assert_eq!(b.classify(b'2'), 26);
    assert_eq!(b.classify(b'7'), 31);
    assert_eq!(b.classify(b'8'), 0xFF);
    assert_eq!(b.classify(b'a'), 0xFF);
    assert_eq!(b.symbol(31), b'7');
    assert_eq!(a.symbol(62), b'+');
}

#[test]
fn encoder_chunks_match_whole() {
    let data: Vec<u8> = (0..300u32).map(|i| (i * 13 % 251) as u8).collect();
    for a in [Alphabet::Base64, Alphabet::Base32] {
        for wrap in [None, Some(1), Some(7), Some(76)] {
            let whole = encode(a, &data, wrap).unwrap();
            for size in [1usize, 2, 3, 5, 64] {
                assert_eq!(encode_in_chunks(a, &data, wrap, size), whole);
            }
        }
    }
}

#[test]
fn decoder_chunks_match_whole() {
    let data: Vec<u8> = (0..300u32).map(|i| (i * 29 % 253) as u8).collect();
    for a in [Alphabet::Base64, Alphabet::Base32] {
        let text = encode(a, &data, Some(10)).unwrap();
        for size in [1usize, 3, 8, 100] {
            assert_eq!(decode_in_chunks(a, &text, false, size).unwrap(), data);
            assert_eq!(decode_in_chunks(a, &text, true, size).unwrap(), data);
        }
        let mut dirty = text.clone();
        dirty.insert(5, b'!');
        assert_eq!(decode(a, &dirty, false), Err(CodecError::InvalidInput));
        assert_eq!(decode_in_chunks(a, &dirty, false, 4), Err(CodecError::InvalidInput));
        assert_eq!(decode_in_chunks(a, &dirty, true, 4).unwrap(), data);
    }
}

#[test]
fn encoder_refuses_zero_width() {
    assert!(matches!(Encoder::new(Alphabet::Base32, Some(0)), Err(CodecError::InvalidConfiguration)));
}
