//! Fixed-size identifiers: parsing from `0x`-prefixed hex text or raw bytes,
//! and their `0x`-prefixed lower-case hex text.
use crate::error::{DomainError, Error, HexError, IdKind};
use crate::words::{parse_u256_text, spec_parse_u256};
use crate::hexcodec::{
    all_hex, decode_hex, decode_hex_into, encode_hex, first_non_hex_index, hex_char, hex_decode, hex_encode,
    hex_value, invalid_hex_character, is_hex_digit,
};
use crate::text::{starts_with_chars, strip_prefix, trim, trim_chars, trim_end_chars, trim_start_chars};
use crate::types::{Address, BatchId, Bytes32, MarketId, OrderId};
use vstd::prelude::*;
use vstd::string::StringExecFns;
use vstd::utf8::encode_utf8;

verus! {

/// The hex digits of an identifier's text: the trimmed text without its `0x`
/// prefix when the trimmed text has one, otherwise the text as given.
pub open spec fn hex_body(s: Seq<char>) -> Seq<char> {
    let t = trim_chars(s);
    if starts_with_chars(t, "0x"@) {
        t.subrange("0x"@.len() as int, t.len() as int)
    } else {
        s
    }
}

/// What parsing `n` bytes of hex from text `s` yields: a length error unless the
/// digits take exactly `2 n` bytes, a decode error at the first byte that is not a
/// hex digit, otherwise the decoded bytes.
pub open spec fn parse_hex_outcome(s: Seq<char>, n: nat, kind: IdKind) -> Result<Seq<u8>, Error> {
    let b = encode_utf8(hex_body(s));
    if b.len() != 2 * n {
        Err(Error::Domain(DomainError::HexLength { kind, expected: (2 * n) as usize, got: b.len() as usize }))
    } else if all_hex(b) {
        Ok(hex_decode(b))
    } else {
        Err(Error::Domain(DomainError::HexDecode(invalid_hex_character(b, first_non_hex_index(b)))))
    }
}

/// What copying `n` bytes out of `v` yields.
pub open spec fn parse_bytes_outcome(v: Seq<u8>, n: nat, kind: IdKind) -> Result<Seq<u8>, Error> {
    if v.len() != n {
        Err(Error::Domain(DomainError::ByteLength { kind, expected: n as usize, got: v.len() as usize }))
    } else {
        Ok(v)
    }
}

/// The `0x`-prefixed lower-case hex text of bytes.
pub open spec fn prefixed_hex(b: Seq<u8>) -> Seq<char> {
    "0x"@ + hex_encode(b)
}

/// Whether an array result agrees with a sequence outcome.
pub open spec fn agrees<const N: usize>(r: Result<[u8; N], Error>, o: Result<Seq<u8>, Error>) -> bool {
    match o {
        Ok(v) => r matches Ok(a) && a@ == v,
        Err(e) => r == Err::<[u8; N], Error>(e),
    }
}

fn hex_digits(s: &str) -> (r: &str)
    ensures
        r@ == hex_body(s@),
{
    let t = trim(s);
    match strip_prefix(t, "0x") {
        Some(x) => x,
        None => s,
    }
}

fn parse_hex_20(s: &str, kind: IdKind) -> (r: Result<[u8; 20], Error>)
    ensures
        agrees(r, parse_hex_outcome(s@, 20, kind)),
{
    let digits = hex_digits(s);
    let bytes = digits.as_bytes();
    if bytes.len() != 40 {
        return Err(Error::Domain(DomainError::HexLength { kind, expected: 40, got: bytes.len() }));
    }
    let mut out = [0u8; 20];
    match decode_hex_into(bytes, &mut out) {
        Ok(()) => Ok(out),
        Err(e) => Err(Error::Domain(DomainError::HexDecode(e))),
    }
}

fn parse_hex_32(s: &str, kind: IdKind) -> (r: Result<[u8; 32], Error>)
    ensures
        agrees(r, parse_hex_outcome(s@, 32, kind)),
{
    let digits = hex_digits(s);
    let bytes = digits.as_bytes();
    if bytes.len() != 64 {
        return Err(Error::Domain(DomainError::HexLength { kind, expected: 64, got: bytes.len() }));
    }
    let mut out = [0u8; 32];
    match decode_hex_into(bytes, &mut out) {
        Ok(()) => Ok(out),
        Err(e) => Err(Error::Domain(DomainError::HexDecode(e))),
    }
}

fn copy_20(value: &[u8], kind: IdKind) -> (r: Result<[u8; 20], Error>)
    ensures
        agrees(r, parse_bytes_outcome(value@, 20, kind)),
{
    if value.len() != 20 {
        return Err(Error::Domain(DomainError::ByteLength { kind, expected: 20, got: value.len() }));
    }
    let mut arr = [0u8; 20];
    let mut i: usize = 0;
    while i < 20
        invariant
            i <= 20,
            value@.len() == 20,
            forall|k: int| 0 <= k < i ==> arr@[k] == value@[k],
        decreases 20 - i,
    {
        arr.set(i, value[i]);
        i = i + 1;
    }
    assert(arr@ =~= value@);
    Ok(arr)
}

fn copy_32(value: &[u8], kind: IdKind) -> (r: Result<[u8; 32], Error>)
    ensures
        agrees(r, parse_bytes_outcome(value@, 32, kind)),
{
    if value.len() != 32 {
        return Err(Error::Domain(DomainError::ByteLength { kind, expected: 32, got: value.len() }));
    }
    let mut arr = [0u8; 32];
    let mut i: usize = 0;
    while i < 32
        invariant
            i <= 32,
            value@.len() == 32,
            forall|k: int| 0 <= k < i ==> arr@[k] == value@[k],
        decreases 32 - i,
    {
        arr.set(i, value[i]);
        i = i + 1;
    }
    assert(arr@ =~= value@);
    Ok(arr)
}

/// `0x` followed by the lower-case hex of the bytes.
pub fn to_prefixed_hex(b: &[u8]) -> (r: String)
    ensures
        r@ == prefixed_hex(b@),
{
    let digits = encode_hex(b);
    let prefix = String::from_str("0x");
    prefix.concat(digits.as_str())
}

proof fn lemma_hex_char(v: int)
    requires
        0 <= v < 16,
    ensures
        is_hex_digit(hex_char(v) as u8),
        hex_value(hex_char(v) as u8) == v,
        !crate::text::is_unicode_whitespace(hex_char(v)),
        '\0' <= hex_char(v) <= '\u{7f}',
{
}

/// Reading back the text of an identifier gives the identifier: parsing the
/// `0x`-prefixed hex text of any bytes yields those bytes.
pub proof fn law_hex_text_round_trip(b: Seq<u8>, kind: IdKind)
    ensures
        parse_hex_outcome(prefixed_hex(b), b.len(), kind) == Ok::<Seq<u8>, Error>(b),
{
    reveal_strlit("0x");
    let e = hex_encode(b);
    let t = prefixed_hex(b);
    assert forall|i: int| 0 <= i < e.len() implies !crate::text::is_unicode_whitespace(#[trigger] e[i])
        && '\0' <= e[i] <= '\u{7f}' && is_hex_digit(e[i] as u8) by {
        if i % 2 == 0 {
            lemma_hex_char((b[i / 2] / 16) as int);
        } else {
            lemma_hex_char((b[i / 2] % 16) as int);
        }
    }
    assert(t.len() == 2 + e.len());
    assert(t[0] == '0');
    assert(trim_start_chars(t) == t);
    if e.len() > 0 {
        assert(t.last() == e.last());
    } else {
        assert(t.last() == 'x');
    }
    assert(trim_end_chars(t) == t);
    assert(trim_chars(t) == t);
    assert(starts_with_chars(t, "0x"@)) by {
        assert(t.subrange(0, 2) =~= "0x"@);
    }
    assert(hex_body(t) =~= e);
    assert(vstd::utf8::is_ascii_chars(e));
    vstd::utf8::is_ascii_chars_encode_utf8(e);
    let bytes = encode_utf8(e);
    assert(bytes.len() == 2 * b.len());
    assert(all_hex(bytes)) by {
        assert forall|i: int| 0 <= i < bytes.len() implies #[trigger] is_hex_digit(bytes[i]) by {
            assert(e[i] as u8 == bytes[i]);
        }
    }
    assert(hex_decode(bytes) =~= b) by {
        assert forall|i: int| 0 <= i < b.len() implies #[trigger] hex_decode(bytes)[i] == b[i] by {
            let hi = (b[i] / 16) as int;
            let lo = (b[i] % 16) as int;
            lemma_hex_char(hi);
            lemma_hex_char(lo);
            assert(e[2 * i] as u8 == bytes[2 * i]);
            assert(e[2 * i + 1] as u8 == bytes[2 * i + 1]);
            assert((2 * i) % 2 == 0 && (2 * i) / 2 == i);
            assert((2 * i + 1) % 2 == 1 && (2 * i + 1) / 2 == i);
            assert(e[2 * i] == hex_char(hi));
            assert(e[2 * i + 1] == hex_char(lo));
            assert(hi * 16 + lo == b[i]);
        }
    }
}

/// An address is 40 hex digits: text whose hex part (the trimmed text after an
/// optional `0x`) is not 40 bytes long, in particular ASCII text whose hex part is not
/// 40 characters long, is refused with a length error naming 40 and the length found.
pub proof fn law_address_text_needs_forty_digits(s: Seq<char>)
    requires
        encode_utf8(hex_body(s)).len() != 40 || (vstd::utf8::is_ascii_chars(hex_body(s)) && hex_body(
            s,
        ).len() != 40),
    ensures
        parse_hex_outcome(s, 20, IdKind::Address) == Err::<Seq<u8>, Error>(
            Error::Domain(
                DomainError::HexLength {
                    kind: IdKind::Address,
                    expected: 40,
                    got: encode_utf8(hex_body(s)).len() as usize,
                },
            ),
        ),
{
    if vstd::utf8::is_ascii_chars(hex_body(s)) {
        vstd::utf8::is_ascii_chars_encode_utf8(hex_body(s));
    }
}

impl Address {
    /// Parse 40 hex digits, optionally prefixed by `0x` after trimming.
    pub fn from_hex(s: &str) -> (r: Result<Address, Error>)
        ensures
            match parse_hex_outcome(s@, 20, IdKind::Address) {
                Ok(v) => r matches Ok(a) && a.0@ == v,
                Err(e) => r == Err::<Address, Error>(e),
            },
    {
        match parse_hex_20(s, IdKind::Address) {
            Ok(a) => Ok(Address(a)),
            Err(e) => Err(e),
        }
    }

    /// Take exactly 20 bytes.
    pub fn from_slice(value: &[u8]) -> (r: Result<Address, Error>)
        ensures
            match parse_bytes_outcome(value@, 20, IdKind::Address) {
                Ok(v) => r matches Ok(a) && a.0@ == v,
                Err(e) => r == Err::<Address, Error>(e),
            },
    {
        match copy_20(value, IdKind::Address) {
            Ok(a) => Ok(Address(a)),
            Err(e) => Err(e),
        }
    }

    /// The address as `0x` followed by 40 lower-case hex digits.
    pub fn to_hex_string(&self) -> (r: String)
        ensures
            r@ == prefixed_hex(self.0@),
    {
        to_prefixed_hex(&self.0)
    }
}

impl MarketId {
    /// Parse 64 hex digits, optionally prefixed by `0x` after trimming.
    pub fn from_hex(s: &str) -> (r: Result<MarketId, Error>)
        ensures
            match parse_hex_outcome(s@, 32, IdKind::MarketId) {
                Ok(v) => r matches Ok(a) && a.0@ == v,
                Err(e) => r == Err::<MarketId, Error>(e),
            },
    {
        match parse_hex_32(s, IdKind::MarketId) {
            Ok(a) => Ok(MarketId(a)),
            Err(e) => Err(e),
        }
    }

    /// Take exactly 32 bytes.
    pub fn from_slice(value: &[u8]) -> (r: Result<MarketId, Error>)
        ensures
            match parse_bytes_outcome(value@, 32, IdKind::MarketId) {
                Ok(v) => r matches Ok(a) && a.0@ == v,
                Err(e) => r == Err::<MarketId, Error>(e),
            },
    {
        match copy_32(value, IdKind::MarketId) {
            Ok(a) => Ok(MarketId(a)),
            Err(e) => Err(e),
        }
    }

    /// The id as `0x` followed by 64 lower-case hex digits.
    pub fn to_hex_string(&self) -> (r: String)
        ensures
            r@ == prefixed_hex(self.0@),
    {
        to_prefixed_hex(&self.0)
    }
}

impl Bytes32 {
    /// Parse 64 hex digits, optionally prefixed by `0x` after trimming.
    pub fn from_hex(s: &str) -> (r: Result<Bytes32, Error>)
        ensures
            match parse_hex_outcome(s@, 32, IdKind::Bytes32) {
                Ok(v) => r matches Ok(a) && a.0@ == v,
                Err(e) => r == Err::<Bytes32, Error>(e),
            },
    {
        match parse_hex_32(s, IdKind::Bytes32) {
            Ok(a) => Ok(Bytes32(a)),
            Err(e) => Err(e),
        }
    }

    /// Take exactly 32 bytes.
    pub fn from_slice(value: &[u8]) -> (r: Result<Bytes32, Error>)
        ensures
            match parse_bytes_outcome(value@, 32, IdKind::Bytes32) {
                Ok(v) => r matches Ok(a) && a.0@ == v,
                Err(e) => r == Err::<Bytes32, Error>(e),
            },
    {
        match copy_32(value, IdKind::Bytes32) {
            Ok(a) => Ok(Bytes32(a)),
            Err(e) => Err(e),
        }
    }

    /// The word as `0x` followed by 64 lower-case hex digits.
    pub fn to_hex_string(&self) -> (r: String)
        ensures
            r@ == prefixed_hex(self.0@),
    {
        to_prefixed_hex(&self.0)
    }
}

impl BatchId {
    /// Parse 64 hex digits, optionally prefixed by `0x` after trimming.
    pub fn from_hex(s: &str) -> (r: Result<BatchId, Error>)
        ensures
            match parse_hex_outcome(s@, 32, IdKind::BatchId) {
                Ok(v) => r matches Ok(a) && a.0@ == v,
                Err(e) => r == Err::<BatchId, Error>(e),
            },
    {
        match parse_hex_32(s, IdKind::BatchId) {
            Ok(a) => Ok(BatchId(a)),
            Err(e) => Err(e),
        }
    }

    /// Take exactly 32 bytes.
    pub fn from_slice(value: &[u8]) -> (r: Result<BatchId, Error>)
        ensures
            match parse_bytes_outcome(value@, 32, IdKind::BatchId) {
                Ok(v) => r matches Ok(a) && a.0@ == v,
                Err(e) => r == Err::<BatchId, Error>(e),
            },
    {
        match copy_32(value, IdKind::BatchId) {
            Ok(a) => Ok(BatchId(a)),
            Err(e) => Err(e),
        }
    }

    /// The id as `0x` followed by 64 lower-case hex digits.
    pub fn to_hex_string(&self) -> (r: String)
        ensures
            r@ == prefixed_hex(self.0@),
    {
        to_prefixed_hex(&self.0)
    }
}

/// The 128-bit value of a UUID in any of the forms `Uuid::parse_str` accepts.
pub uninterp spec fn spec_parse_uuid(s: Seq<char>) -> Option<u128>;

/// `uuid::Uuid::parse_str`, as the UUID's 128-bit value, or the parser's message.
#[verifier::external_body]
pub(crate) fn parse_uuid(s: &str) -> (r: Result<u128, String>)
    ensures
        match r {
            Ok(v) => spec_parse_uuid(s@) == Some(v),
            Err(_) => spec_parse_uuid(s@) is None,
        },
{
    match uuid::Uuid::parse_str(s) {
        Ok(u) => Ok(u.as_u128()),
        Err(e) => Err(e.to_string()),
    }
}

/// The 16 bytes of a 128-bit value, most significant first.
pub open spec fn u128_be_bytes(v: u128) -> Seq<u8> {
    Seq::new(16, |i: int| ((v >> ((8 * (15 - i)) as u32)) & 0xffu128) as u8)
}

/// The hyphenated lower-case text of a UUID's value: its 32 hex digits, most
/// significant first, grouped 8-4-4-4-12.
pub open spec fn uuid_text(v: u128) -> Seq<char> {
    let h = hex_encode(u128_be_bytes(v));
    h.subrange(0, 8) + "-"@ + h.subrange(8, 12) + "-"@ + h.subrange(12, 16) + "-"@ + h.subrange(16, 20)
        + "-"@ + h.subrange(20, 32)
}

impl OrderId {
    /// The id as a hyphenated lower-case UUID, as `uuid::Uuid` displays it.
    pub fn to_text(&self) -> (r: String)
        ensures
            r@ == uuid_text(self.0),
    {
        let v = self.0;
        let mut bytes: Vec<u8> = Vec::new();
        let mut i: usize = 0;
        while i < 16
            invariant
                i <= 16,
                v == self.0,
                bytes@.len() == i,
                forall|k: int| 0 <= k < i ==> bytes@[k] == u128_be_bytes(v)[k],
            decreases 16 - i,
        {
            let shift: u32 = (8 * (15 - i)) as u32;
            bytes.push(((v >> shift) & 0xff) as u8);
            i = i + 1;
        }
        assert(bytes@ =~= u128_be_bytes(v));
        let h = encode_hex(bytes.as_slice());
        let hs = h.as_str();
        let dash = "-";
        proof {
            reveal_strlit("-");
        }
        let t = String::from_str(hs.substring_char(0, 8));
        let t = t.concat(dash).concat(hs.substring_char(8, 12));
        let t = t.concat(dash).concat(hs.substring_char(12, 16));
        let t = t.concat(dash).concat(hs.substring_char(16, 20));
        let t = t.concat(dash).concat(hs.substring_char(20, 32));
        t
    }
}

impl Default for OrderId {
    /// A fresh random order id, as `new` gives.
    fn default() -> (r: OrderId)
        ensures
            (r.0 >> 76u128) & 0xfu128 == 4,
            (r.0 >> 62u128) & 0x3u128 == 2,
    {
        OrderId::new()
    }
}

impl OrderId {
    /// A fresh random order id (`uuid::Uuid::new_v4`): its version nibble is 4 and its
    /// variant bits are `10`; the other bits are random.
    #[verifier::external_body]
    pub fn new() -> (r: OrderId)
        ensures
            (r.0 >> 76u128) & 0xfu128 == 4,
            (r.0 >> 62u128) & 0x3u128 == 2,
    {
        OrderId(uuid::Uuid::new_v4().as_u128())
    }
}

/// The digits after a `0x` (or, where `upper` allows it, `0X`) prefix, if there is one.
pub open spec fn after_hex_prefix(s: Seq<char>, upper: bool) -> Option<Seq<char>> {
    if starts_with_chars(s, "0x"@) {
        Some(s.subrange(2, s.len() as int))
    } else if upper && starts_with_chars(s, "0X"@) {
        Some(s.subrange(2, s.len() as int))
    } else {
        None
    }
}

/// What decoding hex digits gives: the bytes, or the decoder's error.
pub open spec fn hex_outcome(b: Seq<u8>) -> Result<Seq<u8>, HexError> {
    if b.len() % 2 != 0 {
        Err(HexError::OddLength)
    } else if !all_hex(b) {
        Err(invalid_hex_character(b, first_non_hex_index(b)))
    } else {
        Ok(hex_decode(b))
    }
}

fn hex_digits_after_prefix(s: &str, upper: bool) -> (r: Option<&str>)
    ensures
        match after_hex_prefix(s@, upper) {
            Some(h) => r matches Some(t) && t@ == h,
            None => r is None,
        },
{
    proof {
        reveal_strlit("0x");
        reveal_strlit("0X");
    }
    match strip_prefix(s, "0x") {
        Some(t) => Some(t),
        None => {
            if upper {
                strip_prefix(s, "0X")
            } else {
                None
            }
        },
    }
}

/// A 256-bit unsigned integer from JSON text: `0x`/`0X` followed by at most 32 bytes of
/// hex, left-padded with zeros; otherwise text that `U256::from_str` accepts. Refused with
/// the decoder's or parser's message, or `u256 exceeds 32 bytes`.
pub fn u256_from_text(s: &str) -> (r: Result<[u8; 32], String>)
    ensures
        match after_hex_prefix(s@, true) {
            Some(h) => match hex_outcome(encode_utf8(h)) {
                Err(e) => r matches Err(m) && m@ == crate::error::hex_error_text(e),
                Ok(b) => if b.len() > 32 {
                    r matches Err(m) && m@ == "u256 exceeds 32 bytes"@
                } else {
                    r matches Ok(w) && w@ == Seq::new((32 - b.len()) as nat, |i: int| 0u8) + b
                },
            },
            None => match spec_parse_u256(s@) {
                Some(v) => r matches Ok(w) && w@ == v,
                None => r is Err,
            },
        },
{
    match hex_digits_after_prefix(s, true) {
        Some(h) => {
            let bytes = match decode_hex(h.as_bytes()) {
                Ok(v) => v,
                Err(e) => {
                    return Err(e.message());
                },
            };
            if bytes.len() > 32 {
                return Err(String::from_str("u256 exceeds 32 bytes"));
            }
            let pad = 32 - bytes.len();
            let mut w = [0u8; 32];
            let mut i: usize = 0;
            while i < bytes.len()
                invariant
                    i <= bytes@.len(),
                    bytes@.len() <= 32,
                    pad == 32 - bytes@.len(),
                    forall|k: int| 0 <= k < pad ==> w@[k] == 0u8,
                    forall|k: int| 0 <= k < i ==> w@[pad + k] == bytes@[k],
                    forall|k: int| pad + i <= k < 32 ==> w@[k] == 0u8,
                decreases bytes@.len() - i,
            {
                w.set(pad + i, bytes[i]);
                i = i + 1;
            }
            assert(w@ =~= Seq::new(pad as nat, |i: int| 0u8) + bytes@);
            Ok(w)
        },
        None => parse_u256_text(s),
    }
}

/// Signature bytes from JSON text: hex digits, after an optional `0x`; refused with the
/// decoder's message.
pub fn hex_bytes_from_text(s: &str) -> (r: Result<Vec<u8>, String>)
    ensures
        ({
            let digits = match after_hex_prefix(s@, false) {
                Some(h) => h,
                None => s@,
            };
            match hex_outcome(encode_utf8(digits)) {
                Ok(b) => r matches Ok(v) && v@ == b,
                Err(e) => r matches Err(m) && m@ == crate::error::hex_error_text(e),
            }
        }),
{
    let digits = match hex_digits_after_prefix(s, false) {
        Some(h) => h,
        None => s,
    };
    match decode_hex(digits.as_bytes()) {
        Ok(v) => Ok(v),
        Err(e) => Err(e.message()),
    }
}

} // verus!
