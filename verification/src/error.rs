//! Errors of the library, and the text each one is reported with.
use vstd::prelude::*;
use vstd::string::StringExecFns;

verus! {

/// Why hex text was refused by the hex decoder.
#[derive(Clone, Copy, PartialEq, Eq, Debug)]
pub enum HexError {
    /// A character outside `0-9`, `a-f`, `A-F`, at byte position `index`.
    InvalidHexCharacter { c: char, index: usize },
    /// An odd number of hex digits.
    OddLength,
    /// A digit count that does not match the target size.
    InvalidStringLength,
}

/// The fixed-size identifiers parsed from hex or bytes.
#[derive(Clone, Copy, PartialEq, Eq, Debug)]
pub enum IdKind {
    Address,
    MarketId,
    Bytes32,
    BatchId,
}

/// A value read from a log that must fit the database's signed 64-bit integers.
#[derive(Clone, Copy, PartialEq, Eq, Debug)]
pub enum ConversionField {
    BlockNumber,
    Expiry,
    Nonce,
}

/// A rule of the domain that an input broke.
#[derive(Clone, PartialEq, Eq, Debug)]
pub enum DomainError {
    /// Hex text of the wrong length: `got` digits where `expected` are needed.
    HexLength { kind: IdKind, expected: usize, got: usize },
    /// A byte string of the wrong length.
    ByteLength { kind: IdKind, expected: usize, got: usize },
    /// Hex text that does not decode.
    HexDecode(HexError),
    /// A signature that is not 65 bytes long.
    SignatureLength { got: usize },
    /// A signature whose bytes do not form a signature; the message of the parser.
    InvalidSignature(String),
    /// A signature from which no signer can be recovered; the message of the recovery.
    RecoveryFailed(String),
    /// A value too large for a signed 64-bit integer; `from_word` when it was read as
    /// a 256-bit word, otherwise as an unsigned 64-bit integer.
    Conversion { field: ConversionField, from_word: bool },
}

/// Errors of the library.
#[derive(Clone, PartialEq, Eq, Debug)]
pub enum Error {
    Domain(DomainError),
}

/// The ASCII digit of a value below 10.
pub open spec fn digit_char(d: nat) -> char {
    (48 + d) as char
}

/// Decimal digits of a natural number, most significant first, without leading zeros.
pub open spec fn decimal_digits(n: nat) -> Seq<char>
    decreases n,
{
    if n < 10 {
        seq![digit_char(n)]
    } else {
        decimal_digits(n / 10).push(digit_char(n % 10))
    }
}

fn digit_str(d: u64) -> (r: &'static str)
    requires
        d < 10,
    ensures
        r@ == seq![digit_char(d as nat)],
{
    proof {
        reveal_strlit("0");
        reveal_strlit("1");
        reveal_strlit("2");
        reveal_strlit("3");
        reveal_strlit("4");
        reveal_strlit("5");
        reveal_strlit("6");
        reveal_strlit("7");
        reveal_strlit("8");
        reveal_strlit("9");
    }
    if d == 0 {
        "0"
    } else if d == 1 {
        "1"
    } else if d == 2 {
        "2"
    } else if d == 3 {
        "3"
    } else if d == 4 {
        "4"
    } else if d == 5 {
        "5"
    } else if d == 6 {
        "6"
    } else if d == 7 {
        "7"
    } else if d == 8 {
        "8"
    } else {
        "9"
    }
}

fn push_decimal(s: &mut String, n: u64)
    ensures
        final(s)@ == old(s)@ + decimal_digits(n as nat),
    decreases n,
{
    if n >= 10 {
        push_decimal(s, n / 10);
    }
    s.append(digit_str(n % 10));
    proof {
        assert(old(s)@ + decimal_digits(n as nat) =~= s@);
    }
}

/// The decimal text of an unsigned integer, as `Display` prints it.
pub fn decimal_text(n: u64) -> (r: String)
    ensures
        r@ == decimal_digits(n as nat),
{
    let mut s = String::new();
    push_decimal(&mut s, n);
    proof {
        assert(s@ =~= decimal_digits(n as nat));
    }
    s
}

/// The name an identifier kind goes by in messages.
pub open spec fn kind_name(kind: IdKind) -> Seq<char> {
    match kind {
        IdKind::Address => "address"@,
        IdKind::MarketId => "market_id"@,
        IdKind::Bytes32 => "bytes32"@,
        IdKind::BatchId => "batch_id"@,
    }
}

fn kind_name_str(kind: IdKind) -> (r: &'static str)
    ensures
        r@ == kind_name(kind),
{
    match kind {
        IdKind::Address => "address",
        IdKind::MarketId => "market_id",
        IdKind::Bytes32 => "bytes32",
        IdKind::BatchId => "batch_id",
    }
}

/// How `{:?}` prints a character: quoted, with escapes.
pub uninterp spec fn spec_char_debug(c: char) -> Seq<char>;

/// `<char as Debug>::fmt`: the quoted, escaped form of the character.
#[verifier::external_body]
fn char_debug(c: char) -> (r: String)
    ensures
        r@ == spec_char_debug(c),
{
    format!("{:?}", c)
}

/// The message of the hex decoder.
pub open spec fn hex_error_text(e: HexError) -> Seq<char> {
    match e {
        HexError::InvalidHexCharacter { c, index } => "Invalid character "@ + spec_char_debug(c)
            + " at position "@ + decimal_digits(index as nat),
        HexError::OddLength => "Odd number of digits"@,
        HexError::InvalidStringLength => "Invalid string length"@,
    }
}

/// The name a converted field goes by in messages.
pub open spec fn field_name(f: ConversionField) -> Seq<char> {
    match f {
        ConversionField::BlockNumber => "block_number"@,
        ConversionField::Expiry => "expiry"@,
        ConversionField::Nonce => "nonce"@,
    }
}

/// The message of a domain error.
pub open spec fn domain_text(e: DomainError) -> Seq<char> {
    match e {
        DomainError::HexLength { kind, expected, got } => kind_name(kind) + " must be "@
            + decimal_digits(expected as nat) + " hex chars, got "@ + decimal_digits(got as nat),
        DomainError::ByteLength { kind, expected, got } => kind_name(kind) + " must be "@
            + decimal_digits(expected as nat) + " bytes, got "@ + decimal_digits(got as nat),
        DomainError::HexDecode(h) => "hex decode: "@ + hex_error_text(h),
        DomainError::SignatureLength { got } => "signature must be 65 bytes, got "@ + decimal_digits(
            got as nat,
        ),
        DomainError::InvalidSignature(m) => "invalid signature: "@ + m@,
        DomainError::RecoveryFailed(m) => "signature recovery failed: "@ + m@,
        DomainError::Conversion { field, from_word } => field_name(field) + " conversion error: "@
            + if from_word {
            "Uint<256> value is too large for i64"@
        } else {
            "out of range integral type conversion attempted"@
        },
    }
}

/// The message of an error.
pub open spec fn error_text(e: Error) -> Seq<char> {
    match e {
        Error::Domain(d) => "domain error: "@ + domain_text(d),
    }
}

impl HexError {
    /// The decoder's message for this error.
    pub fn message(&self) -> (r: String)
        ensures
            r@ == hex_error_text(*self),
    {
        match self {
            HexError::InvalidHexCharacter { c, index } => {
                let s = String::from_str("Invalid character ");
                let s = s.concat(char_debug(*c).as_str());
                let s = s.concat(" at position ");
                s.concat(decimal_text(*index as u64).as_str())
            },
            HexError::OddLength => String::from_str("Odd number of digits"),
            HexError::InvalidStringLength => String::from_str("Invalid string length"),
        }
    }
}

impl DomainError {
    /// The message of this error.
    pub fn message(&self) -> (r: String)
        ensures
            r@ == domain_text(*self),
    {
        match self {
            DomainError::HexLength { kind, expected, got } => {
                let s = String::from_str(kind_name_str(*kind));
                let s = s.concat(" must be ");
                let s = s.concat(decimal_text(*expected as u64).as_str());
                let s = s.concat(" hex chars, got ");
                s.concat(decimal_text(*got as u64).as_str())
            },
            DomainError::ByteLength { kind, expected, got } => {
                let s = String::from_str(kind_name_str(*kind));
                let s = s.concat(" must be ");
                let s = s.concat(decimal_text(*expected as u64).as_str());
                let s = s.concat(" bytes, got ");
                s.concat(decimal_text(*got as u64).as_str())
            },
            DomainError::HexDecode(h) => {
                let s = String::from_str("hex decode: ");
                s.concat(h.message().as_str())
            },
            DomainError::SignatureLength { got } => {
                let s = String::from_str("signature must be 65 bytes, got ");
                s.concat(decimal_text(*got as u64).as_str())
            },
            DomainError::InvalidSignature(m) => {
                let s = String::from_str("invalid signature: ");
                s.concat(m.as_str())
            },
            DomainError::RecoveryFailed(m) => {
                let s = String::from_str("signature recovery failed: ");
                s.concat(m.as_str())
            },
            DomainError::Conversion { field, from_word } => {
                let name = match field {
                    ConversionField::BlockNumber => "block_number",
                    ConversionField::Expiry => "expiry",
                    ConversionField::Nonce => "nonce",
                };
                let s = String::from_str(name);
                let s = s.concat(" conversion error: ");
                if *from_word {
                    s.concat("Uint<256> value is too large for i64")
                } else {
                    s.concat("out of range integral type conversion attempted")
                }
            },
        }
    }
}

impl Error {
    /// The message of this error, as it is reported.
    pub fn message(&self) -> (r: String)
        ensures
            r@ == error_text(*self),
    {
        match self {
            Error::Domain(d) => {
                let s = String::from_str("domain error: ");
                s.concat(d.message().as_str())
            },
        }
    }
}

} // verus!
