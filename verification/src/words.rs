//! 256-bit big-endian words as they appear in event logs: their value, reading them
//! from log data, and narrowing them to machine integers.
use vstd::prelude::*;

verus! {

/// `256^n`.
pub open spec fn pow256(n: nat) -> nat
    decreases n,
{
    if n == 0 {
        1
    } else {
        256 * pow256((n - 1) as nat)
    }
}

/// The unsigned value of big-endian bytes.
pub open spec fn be_value(b: Seq<u8>) -> nat
    decreases b.len(),
{
    if b.len() == 0 {
        0
    } else {
        be_value(b.drop_last()) * 256 + (b.last() as nat)
    }
}

/// The 32-byte word of `data` starting at `off`.
pub open spec fn word_at(data: Seq<u8>, off: int) -> Seq<u8> {
    data.subrange(off, off + 32)
}

proof fn lemma_pow256_positive(n: nat)
    ensures
        pow256(n) >= 1,
    decreases n,
{
    if n > 0 {
        lemma_pow256_positive((n - 1) as nat);
    }
}

/// A value is below `256` to the number of its bytes.
pub proof fn lemma_be_value_bound(b: Seq<u8>)
    ensures
        be_value(b) < pow256(b.len()),
    decreases b.len(),
{
    if b.len() > 0 {
        lemma_be_value_bound(b.drop_last());
    }
}

/// The value of a concatenation: the high part shifted by the low part's length.
pub proof fn lemma_be_value_concat(a: Seq<u8>, b: Seq<u8>)
    ensures
        be_value(a + b) == be_value(a) * pow256(b.len()) + be_value(b),
    decreases b.len(),
{
    if b.len() == 0 {
        assert(a + b =~= a);
        assert(pow256(0) == 1);
        assert(be_value(a) * 1 == be_value(a));
    } else {
        assert((a + b).drop_last() =~= a + b.drop_last());
        assert((a + b).last() == b.last());
        lemma_be_value_concat(a, b.drop_last());
        let x = be_value(a);
        let p = pow256((b.len() - 1) as nat);
        let y = be_value(b.drop_last());
        assert((x * p + y) * 256 == x * (256 * p) + y * 256) by (nonlinear_arith);
        assert(be_value(a + b) == be_value(a + b.drop_last()) * 256 + (b.last() as nat));
        assert(be_value(b) == y * 256 + (b.last() as nat));
        assert(pow256(b.len()) == 256 * p);
    }
}

/// Bytes that are all zero have value zero, and bytes with a non-zero byte do not.
pub proof fn lemma_be_value_zero(b: Seq<u8>)
    ensures
        (be_value(b) == 0) == (forall|i: int| 0 <= i < b.len() ==> b[i] == 0),
    decreases b.len(),
{
    if b.len() > 0 {
        lemma_be_value_zero(b.drop_last());
        if be_value(b) == 0 {
            assert forall|i: int| 0 <= i < b.len() implies b[i] == 0 by {
                if i < b.len() - 1 {
                    assert(b[i] == b.drop_last()[i]);
                }
            }
        }
        if forall|i: int| 0 <= i < b.len() ==> b[i] == 0 {
            assert forall|i: int| 0 <= i < b.drop_last().len() implies b.drop_last()[i] == 0 by {
                assert(b[i] == b.drop_last()[i]);
            }
        }
    }
}

/// Copy the 32-byte word of `data` at `off`.
pub fn read_word(data: &[u8], off: usize) -> (w: [u8; 32])
    requires
        off + 32 <= data@.len(),
    ensures
        w@ == word_at(data@, off as int),
{
    let mut w = [0u8; 32];
    let n = data.len();
    let mut i: usize = 0;
    while i < 32
        invariant
            i <= 32,
            n == data@.len(),
            off + 32 <= data@.len(),
            forall|k: int| 0 <= k < i ==> w@[k] == data@[off + k],
        decreases 32 - i,
    {
        w.set(i, data[off + i]);
        i = i + 1;
    }
    assert(w@ =~= word_at(data@, off as int));
    w
}

/// The value of a word when it fits 64 bits.
pub fn word_to_u64(w: &[u8; 32]) -> (r: Option<u64>)
    ensures
        match r {
            Some(v) => v == be_value(w@),
            None => be_value(w@) > u64::MAX,
        },
{
    let ghost hi = w@.subrange(0, 24);
    let ghost lo = w@.subrange(24, 32);
    proof {
        assert(w@ =~= hi + lo);
        lemma_be_value_concat(hi, lo);
        reveal_with_fuel(pow256, 9);
        assert(pow256(8) == 0x1_0000_0000_0000_0000);
        lemma_be_value_bound(lo);
    }
    let mut i: usize = 0;
    while i < 24
        invariant
            i <= 24,
            hi == w@.subrange(0, 24),
            be_value(w@) == be_value(hi) * 0x1_0000_0000_0000_0000 + be_value(lo),
            forall|k: int| 0 <= k < i ==> w@[k] == 0,
        decreases 24 - i,
    {
        if w[i] != 0 {
            proof {
                assert(hi[i as int] != 0);
                lemma_be_value_zero(hi);
                assert(be_value(hi) >= 1);
                assert(be_value(hi) * 0x1_0000_0000_0000_0000 >= 0x1_0000_0000_0000_0000) by (nonlinear_arith)
                    requires
                        be_value(hi) >= 1,
                ;
            }
            return None;
        }
        i = i + 1;
    }
    proof {
        assert forall|k: int| 0 <= k < hi.len() implies hi[k] == 0 by {
            assert(hi[k] == w@[k]);
        }
        lemma_be_value_zero(hi);
    }
    let mut acc: u64 = 0;
    let mut j: usize = 24;
    while j < 32
        invariant
            24 <= j <= 32,
            lo == w@.subrange(24, 32),
            be_value(w@) == be_value(lo),
            acc == be_value(w@.subrange(24, j as int)),
            acc < pow256((j - 24) as nat),
            pow256(8) == 0x1_0000_0000_0000_0000,
        decreases 32 - j,
    {
        proof {
            let pre = w@.subrange(24, j + 1);
            assert(pre.drop_last() =~= w@.subrange(24, j as int));
            assert(pre.last() == w@[j as int]);
            assert(pow256((j + 1 - 24) as nat) == 256 * pow256((j - 24) as nat));
            assert(pow256((j - 24) as nat) <= pow256(7)) by {
                lemma_pow256_monotone((j - 24) as nat, 7);
            }
            reveal_with_fuel(pow256, 8);
        }
        acc = acc * 256 + w[j] as u64;
        j = j + 1;
    }
    proof {
        assert(w@.subrange(24, 32) =~= lo);
    }
    Some(acc)
}

proof fn lemma_pow256_monotone(a: nat, b: nat)
    requires
        a <= b,
    ensures
        pow256(a) <= pow256(b),
    decreases b,
{
    if a < b {
        lemma_pow256_monotone(a, (b - 1) as nat);
        lemma_pow256_positive((b - 1) as nat);
    }
}

/// The value of a word when it fits a signed 64-bit integer.
pub fn word_to_i64(w: &[u8; 32]) -> (r: Option<i64>)
    ensures
        match r {
            Some(v) => v == be_value(w@),
            None => be_value(w@) > i64::MAX,
        },
{
    match word_to_u64(w) {
        Some(v) => {
            if v <= 0x7fff_ffff_ffff_ffff {
                Some(v as i64)
            } else {
                None
            }
        },
        None => None,
    }
}

/// The value of a word when it fits a `usize`.
pub fn word_to_usize(w: &[u8; 32]) -> (r: Option<usize>)
    ensures
        match r {
            Some(v) => v == be_value(w@),
            None => be_value(w@) > usize::MAX,
        },
{
    match word_to_u64(w) {
        Some(v) => {
            if v <= usize::MAX as u64 {
                Some(v as usize)
            } else {
                None
            }
        },
        None => None,
    }
}

/// Decimal digits of a natural number, most significant first.
pub open spec fn decimal_of(n: nat) -> Seq<char> {
    crate::error::decimal_digits(n)
}

/// The decimal text of a word's value, from which the database's `NUMERIC` values are
/// built: `Display` of `alloy_primitives::U256` made from the word's bytes.
#[verifier::external_body]
pub fn u256_to_bigdecimal(w: &[u8; 32]) -> (r: String)
    ensures
        r@ == decimal_of(be_value(w@)),
{
    alloy::primitives::U256::from_be_bytes(*w).to_string()
}

/// What `U256::from_str` reads from text: the value as 32 big-endian bytes, if the
/// text is a number it accepts.
pub uninterp spec fn spec_parse_u256(s: Seq<char>) -> Option<Seq<u8>>;

/// `<alloy_primitives::U256 as FromStr>::from_str`: the parsed value as 32 big-endian
/// bytes, or the parser's message.
#[verifier::external_body]
pub(crate) fn parse_u256_text(s: &str) -> (r: Result<[u8; 32], String>)
    ensures
        match r {
            Ok(w) => spec_parse_u256(s@) == Some(w@),
            Err(_) => spec_parse_u256(s@) is None,
        },
{
    match s.parse::<alloy::primitives::U256>() {
        Ok(v) => Ok(v.to_be_bytes::<32>()),
        Err(e) => Err(e.to_string()),
    }
}

} // verus!
