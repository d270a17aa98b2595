//! Identifiers and value types shared by every service.
use vstd::prelude::*;

verus! {

broadcast use vstd::array::group_array_axioms;

/// A 20-byte account address.
#[derive(Clone, Copy, PartialEq, Eq, PartialOrd, Ord, Hash, Debug)]
pub struct Address(pub [u8; 20]);

/// A 32-byte market identifier.
#[derive(Clone, Copy, PartialEq, Eq, PartialOrd, Ord, Hash, Debug)]
pub struct MarketId(pub [u8; 32]);

/// An arbitrary 32-byte word (salts, condition ids, collection ids).
#[derive(Clone, Copy, PartialEq, Eq, PartialOrd, Ord, Hash, Debug)]
pub struct Bytes32(pub [u8; 32]);

/// A 32-byte settlement batch identifier.
#[derive(Clone, Copy, PartialEq, Eq, PartialOrd, Ord, Hash, Debug)]
pub struct BatchId(pub [u8; 32]);

/// An ERC-1155 position id: a 256-bit unsigned integer held as 32 big-endian bytes.
#[derive(Clone, Copy, PartialEq, Eq, PartialOrd, Ord, Hash, Debug)]
pub struct PositionId(pub [u8; 32]);

/// A price scaled by `PRICE_SCALE` (1.0 == 1_000_000).
#[derive(Clone, Copy, PartialEq, Eq, PartialOrd, Ord, Hash, Debug)]
pub struct Price(pub u64);

/// A quantity of outcome shares or collateral base units.
#[derive(Clone, Copy, PartialEq, Eq, PartialOrd, Ord, Hash, Debug)]
pub struct Quantity(pub u64);

/// An order identifier: the 128 bits of a UUID.
#[derive(Clone, Copy, PartialEq, Eq, PartialOrd, Ord, Hash, Debug)]
pub struct OrderId(pub u128);

/// Side of an order, encoded on chain as `Buy = 0`, `Sell = 1`.
#[derive(Clone, Copy, PartialEq, Eq, Debug)]
pub enum OrderSide {
    Buy,
    Sell,
}

/// Byte-wise equality of two fixed-size byte arrays.
pub fn bytes_equal<const N: usize>(a: &[u8; N], b: &[u8; N]) -> (r: bool)
    ensures
        r == (a@ == b@),
        r == (*a == *b),
{
    let mut i: usize = 0;
    while i < N
        invariant
            i <= N,
            a@.len() == N,
            b@.len() == N,
            forall|k: int| 0 <= k < i ==> a@[k] == b@[k],
        decreases N - i,
    {
        if a[i] != b[i] {
            assert(a@ != b@ && *a != *b) by {
                assert(a@[i as int] != b@[i as int]);
            }
            return false;
        }
        i = i + 1;
    }
    assert(a@ =~= b@);
    assert(*a =~= *b);
    true
}

impl Address {
    /// Whether two addresses are the same account.
    pub fn equals(&self, other: &Address) -> (r: bool)
        ensures
            r == (*self == *other),
    {
        bytes_equal(&self.0, &other.0)
    }
}

impl OrderId {
    /// Whether two identifiers are equal.
    pub fn equals(&self, other: &OrderId) -> (r: bool)
        ensures
            r == (*self == *other),
    {
        self.0 == other.0
    }
}

impl OrderSide {
    /// The on-chain `uint8` encoding of the side.
    pub open spec fn spec_code(self) -> u8 {
        match self {
            OrderSide::Buy => 0,
            OrderSide::Sell => 1,
        }
    }

    /// The on-chain `uint8` encoding of the side.
    pub fn code(&self) -> (r: u8)
        ensures
            r == self.spec_code(),
    {
        match self {
            OrderSide::Buy => 0,
            OrderSide::Sell => 1,
        }
    }

    /// Decodes the on-chain encoding: 0 is a buy, 1 a sell, anything else is refused.
    pub fn from_code(v: u8) -> (r: Option<OrderSide>)
        ensures
            v == 0 ==> r == Some(OrderSide::Buy),
            v == 1 ==> r == Some(OrderSide::Sell),
            v > 1 ==> r.is_none(),
    {
        if v == 0 {
            Some(OrderSide::Buy)
        } else if v == 1 {
            Some(OrderSide::Sell)
        } else {
            None
        }
    }

    /// The side a resting order must have to trade against an order of this side.
    pub open spec fn opposite(self) -> OrderSide {
        match self {
            OrderSide::Buy => OrderSide::Sell,
            OrderSide::Sell => OrderSide::Buy,
        }
    }

    /// Whether two sides are the same.
    pub fn equals(&self, other: &OrderSide) -> (r: bool)
        ensures
            r == (*self == *other),
    {
        match (self, other) {
            (OrderSide::Buy, OrderSide::Buy) => true,
            (OrderSide::Sell, OrderSide::Sell) => true,
            _ => false,
        }
    }
}

/// A signed 64-bit value reinterpreted as unsigned, as `as u64` does.
pub open spec fn unsigned_bits(x: i64) -> int {
    if x >= 0 {
        x as int
    } else {
        x + 0x1_0000_0000_0000_0000
    }
}

/// `x as u64`.
pub fn to_unsigned_bits(x: i64) -> (r: u64)
    ensures
        r == unsigned_bits(x),
{
    if x >= 0 {
        x as u64
    } else {
        let shifted: i64 = x + 0x7fff_ffff_ffff_ffff + 1;
        shifted as u64 + 0x8000_0000_0000_0000
    }
}

} // verus!
