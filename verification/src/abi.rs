//! Decoding of ABI-encoded event data: a dynamic `uint256[]` and a dynamic `string`,
//! each found through the offset in the data's first word.
use crate::crypto::{keccak256, spec_keccak256};
pub use crate::words::u256_to_bigdecimal;
use crate::words::{be_value, read_word, word_at, word_to_usize};
use vstd::prelude::*;
use vstd::utf8::{decode_utf8, valid_utf8};

verus! {

/// The hash that identifies an event: `keccak256` of its signature text.
pub fn topic_hash(sig: &[u8]) -> (r: [u8; 32])
    ensures
        r@ == spec_keccak256(sig@),
{
    keccak256(sig)
}

/// Decoding a `uint256[]` would overflow a machine integer on the way: the offset or
/// the length does not fit a `usize`, or a position computed from them exceeds it. The
/// decoder does not return on such data.
pub open spec fn array_decode_overflows(data: Seq<u8>) -> bool {
    data.len() >= 64 && {
        let off = be_value(word_at(data, 0));
        off > usize::MAX || off + 32 > usize::MAX || (data.len() >= off + 32 && {
            let len = be_value(word_at(data, off as int));
            len > usize::MAX || len * 32 > usize::MAX || off + 32 + len * 32 > usize::MAX
        })
    }
}

/// The `uint256[]` encoded in `data`: the first word is the offset of the array, which
/// starts with its length and continues with its elements. None when the data is too
/// short for any of these.
pub open spec fn array_decode(data: Seq<u8>) -> Option<Seq<Seq<u8>>> {
    if data.len() < 64 {
        None
    } else {
        let off = be_value(word_at(data, 0));
        if data.len() < off + 32 {
            None
        } else {
            let len = be_value(word_at(data, off as int));
            if data.len() < off + 32 + len * 32 {
                None
            } else {
                Some(Seq::new(len, |i: int| word_at(data, off + 32 + 32 * i)))
            }
        }
    }
}

/// Whether decoding `data` as a `uint256[]` would overflow (see
/// `array_decode_overflows`).
pub fn array_decode_would_overflow(data: &[u8]) -> (r: bool)
    ensures
        r == array_decode_overflows(data@),
{
    let n = data.len();
    if n < 64 {
        return false;
    }
    let off = match word_to_usize(&read_word(data, 0)) {
        Some(v) => v,
        None => {
            return true;
        },
    };
    if off > usize::MAX - 32 {
        return true;
    }
    if n < off + 32 {
        return false;
    }
    let len = match word_to_usize(&read_word(data, off)) {
        Some(v) => v,
        None => {
            return true;
        },
    };
    if len > (usize::MAX - 32 - off) / 32 {
        proof {
            assert(len * 32 > usize::MAX || off + 32 + len * 32 > usize::MAX) by (nonlinear_arith)
                requires
                    len > (usize::MAX - 32 - off) / 32,
                    off + 32 <= usize::MAX,
            ;
        }
        return true;
    }
    proof {
        assert(len * 32 <= usize::MAX && off + 32 + len * 32 <= usize::MAX) by (nonlinear_arith)
            requires
                len <= (usize::MAX - 32 - off) / 32,
                off + 32 <= usize::MAX,
        ;
    }
    false
}

/// Decode the `uint256[]` in event data, as 32-byte big-endian words.
pub fn parse_u256_array(data: &[u8]) -> (r: Option<Vec<[u8; 32]>>)
    requires
        !array_decode_overflows(data@),
    ensures
        match array_decode(data@) {
            Some(ws) => r matches Some(v) && v@.len() == ws.len() && forall|i: int|
                0 <= i < ws.len() ==> (#[trigger] v@[i])@ == ws[i],
            None => r is None,
        },
{
    let n = data.len();
    if n < 64 {
        return None;
    }
    let off = match word_to_usize(&read_word(data, 0)) {
        Some(v) => v,
        None => {
            return None;
        },
    };
    if n < off + 32 {
        return None;
    }
    let len = match word_to_usize(&read_word(data, off)) {
        Some(v) => v,
        None => {
            return None;
        },
    };
    let elems_start = off + 32;
    if n < elems_start + len * 32 {
        return None;
    }
    let mut out: Vec<[u8; 32]> = Vec::new();
    let mut i: usize = 0;
    while i < len
        invariant
            i <= len,
            n == data@.len(),
            elems_start + len * 32 <= n,
            elems_start == off + 32,
            off == be_value(word_at(data@, 0)),
            len == be_value(word_at(data@, off as int)),
            out@.len() == i,
            forall|k: int|
                0 <= k < i ==> (#[trigger] out@[k])@ == word_at(data@, off + 32 + 32 * k),
        decreases len - i,
    {
        proof {
            assert(elems_start + i * 32 + 32 <= elems_start + len * 32) by (nonlinear_arith)
                requires
                    i < len,
            ;
        }
        let start = elems_start + i * 32;
        out.push(read_word(data, start));
        i = i + 1;
    }
    Some(out)
}

/// Decoding a `string` would overflow a machine integer on the way (see
/// `array_decode_overflows`).
pub open spec fn string_decode_overflows(data: Seq<u8>) -> bool {
    data.len() >= 64 && {
        let off = be_value(word_at(data, 0));
        off > usize::MAX || off + 32 > usize::MAX || (data.len() >= off + 32 && {
            let len = be_value(word_at(data, off as int));
            len > usize::MAX || off + 32 + len > usize::MAX
        })
    }
}

/// The bytes of the `string` encoded in `data`: the first word is its offset, where its
/// length stands, followed by its bytes.
pub open spec fn string_bytes(data: Seq<u8>) -> Option<Seq<u8>> {
    if data.len() < 64 {
        None
    } else {
        let off = be_value(word_at(data, 0));
        if data.len() < off + 32 {
            None
        } else {
            let len = be_value(word_at(data, off as int));
            if data.len() < off + 32 + len {
                None
            } else {
                Some(data.subrange((off + 32) as int, (off + 32 + len) as int))
            }
        }
    }
}

/// Whether decoding `data` as a `string` would overflow (see
/// `string_decode_overflows`).
pub fn string_decode_would_overflow(data: &[u8]) -> (r: bool)
    ensures
        r == string_decode_overflows(data@),
{
    let n = data.len();
    if n < 64 {
        return false;
    }
    let off = match word_to_usize(&read_word(data, 0)) {
        Some(v) => v,
        None => {
            return true;
        },
    };
    if off > usize::MAX - 32 {
        return true;
    }
    if n < off + 32 {
        return false;
    }
    let len = match word_to_usize(&read_word(data, off)) {
        Some(v) => v,
        None => {
            return true;
        },
    };
    len > usize::MAX - 32 - off
}

/// `String::from_utf8`: the text when the bytes are valid UTF-8.
#[verifier::external_body]
fn utf8_text(bytes: &[u8]) -> (r: Option<String>)
    ensures
        match r {
            Some(s) => valid_utf8(bytes@) && s@ == decode_utf8(bytes@),
            None => !valid_utf8(bytes@),
        },
{
    String::from_utf8(bytes.to_vec()).ok()
}

fn copy_range(data: &[u8], from: usize, to: usize) -> (r: Vec<u8>)
    requires
        from <= to <= data@.len(),
    ensures
        r@ == data@.subrange(from as int, to as int),
{
    let mut out: Vec<u8> = Vec::new();
    let mut i: usize = from;
    while i < to
        invariant
            from <= i <= to,
            to <= data@.len(),
            out@ == data@.subrange(from as int, i as int),
        decreases to - i,
    {
        out.push(data[i]);
        assert(data@.subrange(from as int, i + 1) =~= data@.subrange(from as int, i as int).push(data@[i as int]));
        i = i + 1;
    }
    out
}

/// Decode the `string` in event data; none when the data is too short or the bytes
/// are not UTF-8.
pub fn parse_string(data: &[u8]) -> (r: Option<String>)
    requires
        !string_decode_overflows(data@),
    ensures
        match string_bytes(data@) {
            Some(b) => match r {
                Some(s) => valid_utf8(b) && s@ == decode_utf8(b),
                None => !valid_utf8(b),
            },
            None => r is None,
        },
{
    let n = data.len();
    if n < 64 {
        return None;
    }
    let off = match word_to_usize(&read_word(data, 0)) {
        Some(v) => v,
        None => {
            return None;
        },
    };
    if n < off + 32 {
        return None;
    }
    let len = match word_to_usize(&read_word(data, off)) {
        Some(v) => v,
        None => {
            return None;
        },
    };
    if n < off + 32 + len {
        return None;
    }
    let bytes = copy_range(data, off + 32, off + 32 + len);
    utf8_text(bytes.as_slice())
}

} // verus!
