//! Keccak-256 and secp256k1 signer recovery, from `alloy-primitives`.
use vstd::prelude::*;

verus! {

/// The Keccak-256 digest of a byte string.
pub uninterp spec fn spec_keccak256(data: Seq<u8>) -> Seq<u8>;

/// The Ethereum address recovered from an ECDSA signature `(r, s, y_parity)` over a
/// 32-byte prehash, if recovery succeeds.
pub uninterp spec fn spec_recover_address(r: Seq<u8>, s: Seq<u8>, y_parity: bool, prehash: Seq<u8>) -> Option<Seq<u8>>;

/// `alloy_primitives::keccak256`: the Keccak-256 digest of `data`.
#[verifier::external_body]
pub(crate) fn keccak256(data: &[u8]) -> (r: [u8; 32])
    ensures
        r@ == spec_keccak256(data@),
{
    alloy::primitives::keccak256(data).0
}

/// A signature split into its parts: `r` and `s` as 32 big-endian bytes each, and the
/// parity of the curve point's y coordinate.
#[derive(Clone, Copy, Debug)]
pub struct RawSignature {
    pub r: [u8; 32],
    pub s: [u8; 32],
    pub y_parity: bool,
}

/// Whether `v` is a recovery value accepted by `PrimitiveSignature::from_raw`:
/// 0 or 1, 27 or 28, or at least 35.
pub open spec fn valid_v(v: u8) -> bool {
    v == 0 || v == 1 || v == 27 || v == 28 || v >= 35
}

/// The parity a recovery value `v` denotes: even values up to 1, odd values above.
pub open spec fn parity_of_v(v: u8) -> bool {
    if v <= 1 {
        v % 2 == 1
    } else {
        v % 2 == 0
    }
}

/// `PrimitiveSignature::try_from(&[u8])`: accepts exactly 65 bytes `r ‖ s ‖ v` whose `v`
/// is valid; `r` and `s` are taken as they are and `v` gives the parity. On refusal,
/// the parser's message.
#[verifier::external_body]
pub(crate) fn parse_signature(bytes: &[u8]) -> (res: Result<RawSignature, String>)
    ensures
        match res {
            Ok(sig) => {
                &&& bytes@.len() == 65
                &&& valid_v(bytes@[64])
                &&& sig.r@ == bytes@.subrange(0, 32)
                &&& sig.s@ == bytes@.subrange(32, 64)
                &&& sig.y_parity == parity_of_v(bytes@[64])
            },
            Err(_) => !(bytes@.len() == 65 && valid_v(bytes@[64])),
        },
{
    match alloy::primitives::PrimitiveSignature::try_from(bytes) {
        Ok(sig) => Ok(RawSignature {
            r: sig.r().to_be_bytes::<32>(),
            s: sig.s().to_be_bytes::<32>(),
            y_parity: sig.v(),
        }),
        Err(e) => Err(e.to_string()),
    }
}

/// `PrimitiveSignature::recover_address_from_prehash`: the signer's address, or the
/// message of the failure.
#[verifier::external_body]
pub(crate) fn recover_address(sig: &RawSignature, prehash: &[u8; 32]) -> (res: Result<[u8; 20], String>)
    ensures
        match res {
            Ok(a) => spec_recover_address(sig.r@, sig.s@, sig.y_parity, prehash@) == Some(a@),
            Err(_) => spec_recover_address(sig.r@, sig.s@, sig.y_parity, prehash@) is None,
        },
{
    let s = alloy::primitives::PrimitiveSignature::new(
        alloy::primitives::U256::from_be_bytes(sig.r),
        alloy::primitives::U256::from_be_bytes(sig.s),
        sig.y_parity,
    );
    match s.recover_address_from_prehash(&alloy::primitives::B256::from(*prehash)) {
        Ok(a) => Ok(a.into_array()),
        Err(e) => Err(e.to_string()),
    }
}

} // verus!
