use vstd::prelude::*;
use vstd::string::StringSliceAdditionalSpecFns;
use crate::framing::{announced, payload_of};

verus! {

/// Why a hex text could not be read as bytes.
#[derive(Clone, Copy, Debug, PartialEq, Eq, Structural)]
pub enum HexError {
    /// The byte at `index` is not a hex digit; `c` is that byte read as a character.
    InvalidHexCharacter { c: char, index: usize },
    /// The text has an odd number of bytes.
    OddLength,
    /// The text does not have the length that a fixed-size output needs.
    InvalidStringLength,
}

/// Whether byte `b` is one of `0-9`, `A-F`, `a-f`.
pub open spec fn is_hex_digit(b: u8) -> bool {
    (48 <= b <= 57) || (65 <= b <= 70) || (97 <= b <= 102)
}

/// The value of the hex digit `b`.
pub open spec fn digit_value(b: u8) -> int {
    if 48 <= b <= 57 {
        b - 48
    } else if 65 <= b <= 70 {
        b - 55
    } else {
        b - 87
    }
}

/// The index of the first byte of `s` that is not a hex digit, or `s.len()`.
pub open spec fn first_non_hex(s: Seq<u8>) -> int
    decreases s.len(),
{
    if s.len() == 0 {
        0
    } else if !is_hex_digit(s[0]) {
        0
    } else {
        1 + first_non_hex(s.drop_first())
    }
}

/// The bytes that the digit pairs of `s` stand for, the first digit of each
/// pair giving the high half.
pub open spec fn hex_bytes(s: Seq<u8>) -> Seq<u8> {
    Seq::new(
        s.len() / 2,
        |i: int| (digit_value(s[2 * i]) * 16 + digit_value(s[2 * i + 1])) as u8,
    )
}

/// What decoding the hex text `s` gives: `OddLength` for an odd number of
/// bytes, else the first byte that is not a hex digit, else the bytes.
pub open spec fn hex_decoding(s: Seq<u8>) -> Result<Seq<u8>, HexError> {
    if s.len() % 2 != 0 {
        Err(HexError::OddLength)
    } else if first_non_hex(s) < s.len() {
        Err(
            HexError::InvalidHexCharacter {
                c: s[first_non_hex(s)] as char,
                index: first_non_hex(s) as usize,
            },
        )
    } else {
        Ok(hex_bytes(s))
    }
}

/// The lowercase hex digit for `n` (below 16).
pub open spec fn hex_char(n: int) -> char {
    if n < 10 {
        (48 + n) as char
    } else {
        (87 + n) as char
    }
}

/// Two lowercase hex digits per byte of `s`, high half first.
pub open spec fn hex_text(s: Seq<u8>) -> Seq<char> {
    Seq::new(
        2 * s.len(),
        |i: int|
            hex_char(
                if i % 2 == 0 {
                    s[i / 2] / 16
                } else {
                    s[i / 2] % 16
                } as int,
            ),
    )
}

/// Decodes the hex text `data` with `hex::decode`. The contract restates the
/// crate's source: the odd-length check comes first, then the digit pairs
/// are read in order and the first byte that is not a hex digit is reported
/// with its index.
#[verifier::external_body]
fn hex_decode(data: &[u8]) -> (res: Result<Vec<u8>, HexError>)
    ensures
        match (res, hex_decoding(data@)) {
            (Ok(v), Ok(w)) => v@ == w,
            (Err(e), Err(f)) => e == f,
            _ => false,
        },
{
    match ::hex::decode(data) {
        Ok(v) => Ok(v),
        Err(::hex::FromHexError::InvalidHexCharacter { c, index }) => Err(
            HexError::InvalidHexCharacter { c, index },
        ),
        Err(::hex::FromHexError::OddLength) => Err(HexError::OddLength),
        Err(::hex::FromHexError::InvalidStringLength) => Err(HexError::InvalidStringLength),
    }
}

/// Encodes `data` as lowercase hex with `hex::encode`: two digits per byte,
/// high half first, as the crate's documentation and source show.
#[verifier::external_body]
fn hex_encode(data: &[u8]) -> (text: String)
    ensures
        text@ == hex_text(data@),
{
    ::hex::encode(data)
}

/// Reads a payload given as hex text (upper or lower case digits).
pub fn parse_hex_input(text: &str) -> (res: Result<Vec<u8>, HexError>)
    ensures
        match (res, hex_decoding(text.spec_bytes())) {
            (Ok(v), Ok(w)) => v@ == w,
            (Err(e), Err(f)) => e == f,
            _ => false,
        },
{
    hex_decode(text.as_bytes())
}

/// The payload that a decoded stream stands for, as lowercase hex text.
pub fn payload_hex(raw: &[u8]) -> (text: String)
    ensures
        text@ == hex_text(announced(raw@).drop_first()),
{
    let payload = payload_of(raw);
    hex_encode(payload.as_slice())
}

/// Hex text read back gives the bytes written: the bytes of the lowercase
/// hex text of `s` decode to `s`.
pub proof fn lemma_hex_round_trip(s: Seq<u8>)
    ensures
        hex_decoding(hex_text(s).map_values(|c: char| c as u8)) == Ok::<Seq<u8>, HexError>(s),
{
    let t = hex_text(s).map_values(|c: char| c as u8);
    assert forall|i: int| 0 <= i < t.len() implies is_hex_digit(#[trigger] t[i]) && digit_value(t[i])
        == (if i % 2 == 0 {
        s[i / 2] / 16
    } else {
        s[i / 2] % 16
    }) by {
        let n = (if i % 2 == 0 {
            s[i / 2] / 16
        } else {
            s[i / 2] % 16
        }) as int;
        assert(0 <= n < 16);
    }
    lemma_all_hex_digits(t);
    assert(2 * s.len() % 2 == 0);
    assert(hex_bytes(t) =~= s) by {
        assert forall|i: int| 0 <= i < s.len() implies #[trigger] hex_bytes(t)[i] == s[i] by {
            assert((2 * i) % 2 == 0 && (2 * i) / 2 == i);
            assert((2 * i + 1) % 2 == 1 && (2 * i + 1) / 2 == i);
            assert(s[i] / 16 * 16 + s[i] % 16 == s[i]);
        }
    }
}

/// When every byte is a hex digit, none is reported.
proof fn lemma_all_hex_digits(s: Seq<u8>)
    requires
        forall|i: int| 0 <= i < s.len() ==> is_hex_digit(#[trigger] s[i]),
    ensures
        first_non_hex(s) == s.len(),
    decreases s.len(),
{
    if s.len() > 0 {
        assert(is_hex_digit(s[0]));
        let d = s.drop_first();
        assert forall|i: int| 0 <= i < d.len() implies is_hex_digit(#[trigger] d[i]) by {
            assert(d[i] == s[i + 1]);
        }
        lemma_all_hex_digits(d);
    }
}

} // verus!
