use vstd::prelude::*;
use crate::alphabet::Alphabet;
use crate::decoder::{decode, decode_spec};
use crate::encoder::{encode, encode_spec};
use crate::error::CodecError;

verus! {

/// Encodes `input` in base32: eight symbols for each five bytes, the last
/// group padded with `=`. With `Some(w)` lines are broken after `w` symbols
/// and the output ends with a line break; `Some(0)` is refused.
pub fn b32_encode(input: &[u8], wrap: Option<usize>) -> (r: Result<Vec<u8>, CodecError>)
    ensures
        wrap == Some(0usize) ==> r == Err::<Vec<u8>, CodecError>(CodecError::InvalidConfiguration),
        wrap != Some(0usize) ==> (r matches Ok(v) && v@ == encode_spec(Alphabet::Base32, input@, wrap)),
{
    encode(Alphabet::Base32, input, wrap)
}

/// Decodes base32 text, skipping whitespace, and invalid bytes too when
/// `ignore_garbage` is set.
pub fn b32_decode(input: &[u8], ignore_garbage: bool) -> (r: Result<Vec<u8>, CodecError>)
    ensures
        match r {
            Ok(v) => decode_spec(Alphabet::Base32, input@, ignore_garbage) == Ok::<Seq<u8>, CodecError>(v@),
            Err(e) => decode_spec(Alphabet::Base32, input@, ignore_garbage) == Err::<Seq<u8>, CodecError>(e),
        },
{
    decode(Alphabet::Base32, input, ignore_garbage)
}

} // verus!
