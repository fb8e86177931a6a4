use vstd::prelude::*;

verus! {

/// The two canonical alphabets of RFC 4648.
#[derive(Clone, Copy, Debug, PartialEq, Eq, Structural)]
pub enum Alphabet {
    /// `A-Z a-z 0-9 + /`: three bytes become four symbols.
    Base64,
    /// `A-Z 2-7`: five bytes become eight symbols.
    Base32,
}

/// Byte code of the padding character `=`.
pub const PAD: u8 = 61;

/// Byte code of the line separator written by wrapping encoders.
pub const NEWLINE: u8 = 10;

/// Class code of a padding symbol; data symbols have codes below it.
pub const PAD_CODE: u8 = 64;

/// Class code of an ignorable whitespace byte.
pub const SPACE_CODE: u8 = 0xFD;

/// Class code of a byte that is neither a symbol, padding nor whitespace.
pub const INVALID_CODE: u8 = 0xFF;

/// Number of raw bytes in one group.
pub open spec fn in_len(a: Alphabet) -> nat {
    match a {
        Alphabet::Base64 => 3,
        Alphabet::Base32 => 5,
    }
}

/// Number of symbols in one encoded group.
pub open spec fn out_len(a: Alphabet) -> nat {
    match a {
        Alphabet::Base64 => 4,
        Alphabet::Base32 => 8,
    }
}

/// Number of symbols of the alphabet.
pub open spec fn radix(a: Alphabet) -> nat {
    match a {
        Alphabet::Base64 => 64,
        Alphabet::Base32 => 32,
    }
}

/// The symbol that stands for the value `v` (`v < radix(a)`).
pub open spec fn symbol_of(a: Alphabet, v: u8) -> u8 {
    match a {
        Alphabet::Base64 => {
            if v < 26 {
                (65 + v) as u8
            } else if v < 52 {
                (97 + v - 26) as u8
            } else if v < 62 {
                (48 + v - 52) as u8
            } else if v == 62 {
                43
            } else {
                47
            }
        },
        Alphabet::Base32 => {
            if v < 26 {
                (65 + v) as u8
            } else {
                (50 + v - 26) as u8
            }
        },
    }
}

/// Whitespace that a decoder skips: tab, line feed, vertical tab, form feed,
/// carriage return and space.
pub open spec fn is_space(b: u8) -> bool {
    (9 <= b && b <= 13) || b == 32
}

/// The class code of an input byte: its value for a symbol of the alphabet,
/// `PAD_CODE` for `=`, `SPACE_CODE` for whitespace, `INVALID_CODE` otherwise.
pub open spec fn code_of(a: Alphabet, b: u8) -> u8 {
    if b == PAD {
        PAD_CODE
    } else if is_space(b) {
        SPACE_CODE
    } else {
        match a {
            Alphabet::Base64 => {
                if 65 <= b && b <= 90 {
                    (b - 65) as u8
                } else if 97 <= b && b <= 122 {
                    (b - 71) as u8
                } else if 48 <= b && b <= 57 {
                    (b + 4) as u8
                } else if b == 43 {
                    62
                } else if b == 47 {
                    63
                } else {
                    INVALID_CODE
                }
            },
            Alphabet::Base32 => {
                if 65 <= b && b <= 90 {
                    (b - 65) as u8
                } else if 50 <= b && b <= 55 {
                    (b - 24) as u8
                } else {
                    INVALID_CODE
                }
            },
        }
    }
}

/// Every code is a value of the alphabet, padding, whitespace or invalid.
pub proof fn lemma_code_range(a: Alphabet, b: u8)
    ensures
        code_of(a, b) < radix(a) || code_of(a, b) == PAD_CODE || code_of(a, b) == SPACE_CODE
            || code_of(a, b) == INVALID_CODE,
        code_of(a, b) == PAD_CODE <==> b == PAD,
{
}

/// A symbol decodes to the value it stands for, and is neither padding nor
/// whitespace.
pub proof fn lemma_symbol_code(a: Alphabet, v: u8)
    requires
        v < radix(a),
    ensures
        code_of(a, symbol_of(a, v)) == v,
        symbol_of(a, v) != PAD,
        symbol_of(a, v) != NEWLINE,
{
}

impl Alphabet {
    /// Number of raw bytes in one group.
    pub fn group_len(&self) -> (r: usize)
        ensures
            r == in_len(*self),
    {
        match self {
            Alphabet::Base64 => 3,
            Alphabet::Base32 => 5,
        }
    }

    /// Number of symbols in one encoded group.
    pub fn word_len(&self) -> (r: usize)
        ensures
            r == out_len(*self),
    {
        match self {
            Alphabet::Base64 => 4,
            Alphabet::Base32 => 8,
        }
    }

    /// The symbol for value `v`.
    pub fn symbol(&self, v: u8) -> (r: u8)
        requires
            v < radix(*self),
        ensures
            r == symbol_of(*self, v),
    {
        match self {
            Alphabet::Base64 => {
                if v < 26 {
                    65 + v
                } else if v < 52 {
                    97 + v - 26
                } else if v < 62 {
                    48 + v - 52
                } else if v == 62 {
                    43
                } else {
                    47
                }
            },
            Alphabet::Base32 => {
                if v < 26 {
                    65 + v
                } else {
                    50 + v - 26
                }
            },
        }
    }

    /// The class code of an input byte, see `code_of`.
    pub fn classify(&self, b: u8) -> (r: u8)
        ensures
            r == code_of(*self, b),
    {
        if b == PAD {
            PAD_CODE
        } else if (9 <= b && b <= 13) || b == 32 {
            SPACE_CODE
        } else {
            match self {
                Alphabet::Base64 => {
                    if 65 <= b && b <= 90 {
                        b - 65
                    } else if 97 <= b && b <= 122 {
                        b - 71
                    } else if 48 <= b && b <= 57 {
                        b + 4
                    } else if b == 43 {
                        62
                    } else if b == 47 {
                        63
                    } else {
                        INVALID_CODE
                    }
                },
                Alphabet::Base32 => {
                    if 65 <= b && b <= 90 {
                        b - 65
                    } else if 50 <= b && b <= 55 {
                        b - 24
                    } else {
                        INVALID_CODE
                    }
                },
            }
        }
    }
}

} // verus!
