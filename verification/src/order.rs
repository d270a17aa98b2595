//! Signed orders, mirroring `SettlementExchange.Order`, and their EIP-712 hashing
//! and signer recovery.
use crate::crypto::{
    keccak256, parity_of_v, parse_signature, recover_address, spec_keccak256, spec_recover_address,
    valid_v,
};
use crate::error::{DomainError, Error};
use crate::fees::{buy_volume, spec_buy_volume};
use crate::types::{Address, Bytes32, OrderSide, PositionId};
use vstd::prelude::*;
use vstd::utf8::encode_utf8;

verus! {

/// An order as signed by its maker.
#[derive(Clone, Copy, Debug)]
pub struct Order {
    pub salt: Bytes32,
    pub maker: Address,
    pub signer: Address,
    pub condition_id: Bytes32,
    pub parent_collection_id: Bytes32,
    pub position_id: PositionId,
    pub price: u64,
    pub amount: u64,
    pub side: OrderSide,
    pub nonce: u64,
    pub deadline: u64,
}

/// An order with its 65-byte signature.
#[derive(Clone, Debug)]
pub struct SignedOrder {
    pub order: Order,
    pub signature: Vec<u8>,
}

impl Order {
    /// Worst-case collateral: for a buy, the USDC volume rounded up; for a sell, the
    /// shares themselves.
    pub open spec fn spec_required_collateral(self) -> int {
        match self.side {
            OrderSide::Buy => spec_buy_volume(self.amount as int, self.price as int),
            OrderSide::Sell => self.amount as int,
        }
    }

    /// Worst-case USDC collateral for a BUY order (taker, round up).
    /// For SELL orders the collateral is CTF shares = amount.
    pub fn required_collateral(&self) -> (r: u128)
        ensures
            r == self.spec_required_collateral(),
    {
        match self.side {
            OrderSide::Buy => buy_volume(self.amount, self.price),
            OrderSide::Sell => self.amount as u128,
        }
    }

    /// The asset that collateralizes the order: `usdc` for a buy, `ctf` for a sell.
    pub fn asset_type(&self) -> (r: &'static str)
        ensures
            self.side == OrderSide::Buy ==> r@ == "usdc"@,
            self.side == OrderSide::Sell ==> r@ == "ctf"@,
    {
        match self.side {
            OrderSide::Buy => "usdc",
            OrderSide::Sell => "ctf",
        }
    }
}

/// `n` zero bytes.
pub open spec fn zeros(n: nat) -> Seq<u8> {
    Seq::new(n, |i: int| 0u8)
}

/// A `uint256` holding `x`, as 32 big-endian bytes.
pub open spec fn be_word(x: u64) -> Seq<u8> {
    Seq::new(
        32,
        |i: int|
            if i < 24 {
                0u8
            } else {
                ((x >> ((8 * (31 - i)) as u64)) & 0xff) as u8
            },
    )
}

/// An address as a 32-byte ABI word: 12 zero bytes, then the address.
pub open spec fn address_word(a: Address) -> Seq<u8> {
    zeros(12) + a.0@
}

/// The Keccak-256 digest of a string's UTF-8 bytes.
pub open spec fn text_hash(s: Seq<char>) -> Seq<u8> {
    spec_keccak256(encode_utf8(s))
}

/// The EIP-712 type string of the domain.
pub open spec fn domain_type() -> Seq<char> {
    "EIP712Domain(string name,string version,uint256 chainId,address verifyingContract)"@
}

/// The EIP-712 type string of `SettlementExchange.Order`.
pub open spec fn order_type() -> Seq<char> {
    "Order(bytes32 salt,address maker,address signer,bytes32 conditionId,bytes32 parentCollectionId,uint256 positionId,uint256 price,uint256 amount,uint8 side,uint256 nonce,uint256 deadline)"@
}

/// The ABI encoding hashed into the domain separator.
pub open spec fn domain_encoding(chain_id: u64, verifying_contract: Address) -> Seq<u8> {
    text_hash(domain_type()) + text_hash("Omniscient Exchange"@) + text_hash("1"@) + be_word(chain_id)
        + address_word(verifying_contract)
}

/// The EIP-712 domain separator of `EIP712("Omniscient Exchange", "1")`.
pub open spec fn spec_domain_separator(chain_id: u64, verifying_contract: Address) -> Seq<u8> {
    spec_keccak256(domain_encoding(chain_id, verifying_contract))
}

/// The ABI encoding hashed into an order's struct hash.
pub open spec fn order_encoding(o: Order) -> Seq<u8> {
    text_hash(order_type()) + o.salt.0@ + address_word(o.maker) + address_word(o.signer)
        + o.condition_id.0@ + o.parent_collection_id.0@ + o.position_id.0@ + be_word(o.price)
        + be_word(o.amount) + be_word(o.side.spec_code() as u64) + be_word(o.nonce) + be_word(
        o.deadline,
    )
}

/// The EIP-712 struct hash of an order.
pub open spec fn spec_hash_order(o: Order) -> Seq<u8> {
    spec_keccak256(order_encoding(o))
}

/// The EIP-712 digest: Keccak-256 of `0x19 0x01 ‖ domain separator ‖ struct hash`.
pub open spec fn spec_signing_hash(domain_separator: Seq<u8>, struct_hash: Seq<u8>) -> Seq<u8> {
    spec_keccak256(seq![0x19u8, 0x01u8] + domain_separator + struct_hash)
}

/// The digest a maker signs for `order` on `chain_id` at `verifying_contract`.
pub open spec fn order_digest(order: Order, chain_id: u64, verifying_contract: Address) -> Seq<u8> {
    spec_signing_hash(spec_domain_separator(chain_id, verifying_contract), spec_hash_order(order))
}

/// The signer recovered from a signature over an order's digest, if the signature
/// is 65 bytes with a valid recovery value and recovery succeeds.
pub open spec fn recovered_signer(
    order: Order,
    signature: Seq<u8>,
    chain_id: u64,
    verifying_contract: Address,
) -> Option<Seq<u8>> {
    if signature.len() == 65 && valid_v(signature[64]) {
        spec_recover_address(
            signature.subrange(0, 32),
            signature.subrange(32, 64),
            parity_of_v(signature[64]),
            order_digest(order, chain_id, verifying_contract),
        )
    } else {
        None
    }
}

pub(crate) fn extend_bytes(v: &mut Vec<u8>, s: &[u8])
    ensures
        final(v)@ == old(v)@ + s@,
{
    let mut i: usize = 0;
    while i < s.len()
        invariant
            i <= s@.len(),
            v@ == old(v)@ + s@.subrange(0, i as int),
        decreases s@.len() - i,
    {
        v.push(s[i]);
        assert(s@.subrange(0, i + 1) =~= s@.subrange(0, i as int).push(s@[i as int]));
        i = i + 1;
    }
    assert(s@.subrange(0, s@.len() as int) =~= s@);
}

fn push_zeros(v: &mut Vec<u8>, n: usize)
    ensures
        final(v)@ == old(v)@ + zeros(n as nat),
{
    let mut i: usize = 0;
    while i < n
        invariant
            i <= n,
            v@ == old(v)@ + zeros(i as nat),
        decreases n - i,
    {
        v.push(0u8);
        assert(zeros((i + 1) as nat) =~= zeros(i as nat).push(0u8));
        i = i + 1;
    }
}

/// `x` as a 32-byte big-endian `uint256` word.
pub fn u64_word(x: u64) -> (w: [u8; 32])
    ensures
        w@ == be_word(x),
{
    let mut w = [0u8; 32];
    let mut i: usize = 24;
    while i < 32
        invariant
            24 <= i <= 32,
            forall|k: int| 0 <= k < 24 ==> w@[k] == 0u8,
            forall|k: int| 24 <= k < i ==> w@[k] == ((x >> ((8 * (31 - k)) as u64)) & 0xff) as u8,
            forall|k: int| i <= k < 32 ==> w@[k] == 0u8,
        decreases 32 - i,
    {
        let shift: u64 = (8 * (31 - i)) as u64;
        w.set(i, ((x >> shift) & 0xff) as u8);
        i = i + 1;
    }
    assert(w@ =~= be_word(x));
    w
}

fn push_text_hash(v: &mut Vec<u8>, s: &str)
    ensures
        final(v)@ == old(v)@ + text_hash(s@),
{
    let h = keccak256(s.as_bytes());
    extend_bytes(v, &h);
}

fn push_address_word(v: &mut Vec<u8>, a: &Address)
    ensures
        final(v)@ == old(v)@ + address_word(*a),
{
    push_zeros(v, 12);
    extend_bytes(v, &a.0);
    assert(final(v)@ =~= old(v)@ + address_word(*a));
}

fn push_u64_word(v: &mut Vec<u8>, x: u64)
    ensures
        final(v)@ == old(v)@ + be_word(x),
{
    let w = u64_word(x);
    extend_bytes(v, &w);
}

/// EIP-712 domain separator matching OZ EIP712("Omniscient Exchange", "1").
pub fn compute_domain_separator(chain_id: u64, verifying_contract: Address) -> (r: [u8; 32])
    ensures
        r@ == spec_domain_separator(chain_id, verifying_contract),
{
    let mut encoded: Vec<u8> = Vec::new();
    push_text_hash(
        &mut encoded,
        "EIP712Domain(string name,string version,uint256 chainId,address verifyingContract)",
    );
    push_text_hash(&mut encoded, "Omniscient Exchange");
    push_text_hash(&mut encoded, "1");
    push_u64_word(&mut encoded, chain_id);
    push_address_word(&mut encoded, &verifying_contract);
    assert(encoded@ =~= domain_encoding(chain_id, verifying_contract));
    keccak256(encoded.as_slice())
}

/// EIP-712 struct hash for SettlementExchange.Order.
pub fn hash_order(order: &Order) -> (r: [u8; 32])
    ensures
        r@ == spec_hash_order(*order),
{
    let mut encoded: Vec<u8> = Vec::new();
    push_text_hash(
        &mut encoded,
        "Order(bytes32 salt,address maker,address signer,bytes32 conditionId,bytes32 parentCollectionId,uint256 positionId,uint256 price,uint256 amount,uint8 side,uint256 nonce,uint256 deadline)",
    );
    extend_bytes(&mut encoded, &order.salt.0);
    push_address_word(&mut encoded, &order.maker);
    push_address_word(&mut encoded, &order.signer);
    extend_bytes(&mut encoded, &order.condition_id.0);
    extend_bytes(&mut encoded, &order.parent_collection_id.0);
    extend_bytes(&mut encoded, &order.position_id.0);
    push_u64_word(&mut encoded, order.price);
    push_u64_word(&mut encoded, order.amount);
    push_u64_word(&mut encoded, order.side.code() as u64);
    push_u64_word(&mut encoded, order.nonce);
    push_u64_word(&mut encoded, order.deadline);
    assert(encoded@ =~= order_encoding(*order));
    keccak256(encoded.as_slice())
}

/// The EIP-712 digest of a struct hash under a domain separator.
pub fn eip712_signing_hash(domain_separator: [u8; 32], struct_hash: [u8; 32]) -> (r: [u8; 32])
    ensures
        r@ == spec_signing_hash(domain_separator@, struct_hash@),
{
    let mut data: Vec<u8> = Vec::new();
    data.push(0x19);
    data.push(0x01);
    extend_bytes(&mut data, &domain_separator);
    extend_bytes(&mut data, &struct_hash);
    assert(data@ =~= seq![0x19u8, 0x01u8] + domain_separator@ + struct_hash@);
    keccak256(data.as_slice())
}

/// Recover the address that signed `order` for the exchange at `verifying_contract`
/// on `chain_id`.
pub fn verify_order_signature(
    order: &Order,
    signature: &[u8],
    chain_id: u64,
    verifying_contract: Address,
) -> (r: Result<Address, Error>)
    ensures
        signature@.len() != 65 ==> r == Err::<Address, Error>(
            Error::Domain(DomainError::SignatureLength { got: signature@.len() as usize }),
        ),
        signature@.len() == 65 && !valid_v(signature@[64]) ==> r matches Err(
            Error::Domain(DomainError::InvalidSignature(_)),
        ),
        signature@.len() == 65 && valid_v(signature@[64]) ==> match recovered_signer(
            *order,
            signature@,
            chain_id,
            verifying_contract,
        ) {
            Some(a) => r matches Ok(x) && x.0@ == a,
            None => r matches Err(Error::Domain(DomainError::RecoveryFailed(_))),
        },
{
    if signature.len() != 65 {
        return Err(Error::Domain(DomainError::SignatureLength { got: signature.len() }));
    }
    let domain_separator = compute_domain_separator(chain_id, verifying_contract);
    let struct_hash = hash_order(order);
    let digest = eip712_signing_hash(domain_separator, struct_hash);
    let sig = match parse_signature(signature) {
        Ok(s) => s,
        Err(m) => {
            return Err(Error::Domain(DomainError::InvalidSignature(m)));
        },
    };
    match recover_address(&sig, &digest) {
        Ok(a) => Ok(Address(a)),
        Err(m) => Err(Error::Domain(DomainError::RecoveryFailed(m))),
    }
}

} // verus!
