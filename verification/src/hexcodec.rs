//! Hex text: the decoder and encoder of the `hex` crate, with their behavior stated.
use crate::error::HexError;
use vstd::prelude::*;

verus! {

/// `0-9`, `A-F` or `a-f` in ASCII.
pub open spec fn is_hex_digit(b: u8) -> bool {
    (48 <= b <= 57) || (65 <= b <= 70) || (97 <= b <= 102)
}

/// The value of a hex digit.
pub open spec fn hex_value(b: u8) -> int {
    if b <= 57 {
        b - 48
    } else if b <= 70 {
        b - 55
    } else {
        b - 87
    }
}

/// Every byte is a hex digit.
pub open spec fn all_hex(s: Seq<u8>) -> bool {
    forall|i: int| 0 <= i < s.len() ==> #[trigger] is_hex_digit(s[i])
}

/// `k` is the position of the first byte that is not a hex digit.
pub open spec fn first_non_hex(s: Seq<u8>, k: int) -> bool {
    &&& 0 <= k < s.len()
    &&& !is_hex_digit(s[k])
    &&& forall|j: int| 0 <= j < k ==> #[trigger] is_hex_digit(s[j])
}

/// The bytes that pairs of hex digits denote, high digit first.
pub open spec fn hex_decode(s: Seq<u8>) -> Seq<u8> {
    Seq::new(s.len() / 2, |i: int| (hex_value(s[2 * i]) * 16 + hex_value(s[2 * i + 1])) as u8)
}

/// The lower-case hex digit of a value below 16.
pub open spec fn hex_char(v: int) -> char {
    if v < 10 {
        (48 + v) as char
    } else {
        (87 + v) as char
    }
}

/// Lower-case hex text of bytes, two digits per byte, high digit first.
pub open spec fn hex_encode(b: Seq<u8>) -> Seq<char> {
    Seq::new(
        2 * b.len(),
        |i: int|
            if i % 2 == 0 {
                hex_char((b[i / 2] / 16) as int)
            } else {
                hex_char((b[i / 2] % 16) as int)
            },
    )
}

/// Position of the first byte that is not a hex digit (meaningful when there is one).
pub open spec fn first_non_hex_index(s: Seq<u8>) -> int {
    choose|k: int| first_non_hex(s, k)
}

/// The error for the byte of `data` at position `k`.
pub open spec fn invalid_hex_character(data: Seq<u8>, k: int) -> HexError {
    HexError::InvalidHexCharacter { c: data[k] as char, index: k as usize }
}

/// Outcome of decoding hex text into a buffer.
pub type HexResult = Result<(), HexError>;

/// `hex::decode_to_slice`: decodes `data` into `out`. Refuses an odd length, then a
/// length other than twice the output's, then the first byte that is not a hex digit
/// (reporting it as a character with its position). On success `out` holds the decoded
/// bytes; on failure what `out` holds is not stated.
#[verifier::external_body]
pub(crate) fn decode_hex_into<const N: usize>(data: &[u8], out: &mut [u8; N]) -> (r: HexResult)
    ensures
        data@.len() % 2 != 0 ==> r == HexResult::Err(HexError::OddLength),
        data@.len() % 2 == 0 && data@.len() / 2 != N ==> r == HexResult::Err(HexError::InvalidStringLength),
        data@.len() == 2 * N ==> (r is Ok <==> all_hex(data@)),
        r is Ok ==> final(out)@ == hex_decode(data@),
        data@.len() == 2 * N && !all_hex(data@) ==> r == HexResult::Err(
            invalid_hex_character(data@, first_non_hex_index(data@)),
        ),
{
    match hex::decode_to_slice(data, out) {
        Ok(()) => Ok(()),
        Err(hex::FromHexError::InvalidHexCharacter { c, index }) => Err(HexError::InvalidHexCharacter { c, index }),
        Err(hex::FromHexError::OddLength) => Err(HexError::OddLength),
        Err(hex::FromHexError::InvalidStringLength) => Err(HexError::InvalidStringLength),
    }
}

/// `hex::encode`: lower-case hex text of the bytes, two digits per byte.
#[verifier::external_body]
pub(crate) fn encode_hex(data: &[u8]) -> (r: String)
    ensures
        r@ == hex_encode(data@),
{
    hex::encode(data)
}

/// `hex::decode`: an odd number of digits is refused, then the first byte that is not
/// a hex digit (as a character with its position); otherwise the bytes the digit pairs
/// denote.
#[verifier::external_body]
pub(crate) fn decode_hex(data: &[u8]) -> (r: Result<Vec<u8>, HexError>)
    ensures
        match r {
            Ok(v) => data@.len() % 2 == 0 && all_hex(data@) && v@ == hex_decode(data@),
            Err(e) => if data@.len() % 2 != 0 {
                e == HexError::OddLength
            } else {
                !all_hex(data@) && e == invalid_hex_character(data@, first_non_hex_index(data@))
            },
        },
{
    match hex::decode(data) {
        Ok(v) => Ok(v),
        Err(hex::FromHexError::InvalidHexCharacter { c, index }) => Err(HexError::InvalidHexCharacter { c, index }),
        Err(hex::FromHexError::OddLength) => Err(HexError::OddLength),
        Err(hex::FromHexError::InvalidStringLength) => Err(HexError::InvalidStringLength),
    }
}

} // verus!
