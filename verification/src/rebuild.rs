//! Rebuilding the order books from the open orders stored in the database.
use crate::engine::{empty_book_state, insert_state, prune_state, BookState, MatcherState};
use crate::book::RestingOrder;
use crate::error::{DomainError, Error, IdKind};
use crate::text::str_equal;
use crate::types::{to_unsigned_bits, unsigned_bits, Address, MarketId, OrderId, OrderSide, PositionId};
use crate::words::{parse_u256_text, spec_parse_u256};
use vstd::prelude::*;

verus! {

/// An open order as stored in the database.
#[derive(Clone, Copy, Debug)]
pub struct OpenOrderRow {
    pub order_id: OrderId,
    pub user_address: Address,
    pub market_id: MarketId,
    pub side: OrderSide,
    pub price: u64,
    pub amount: u64,
    pub filled_amount: u64,
    pub nonce: u64,
    pub deadline: i64,
    pub position_id: PositionId,
}

/// The resting order a stored row becomes (its sequence number is assigned on insertion;
/// the deadline is reinterpreted as unsigned).
pub open spec fn row_resting(row: OpenOrderRow) -> RestingOrder {
    RestingOrder {
        order_id: row.order_id,
        maker: row.user_address,
        price: row.price,
        amount: row.amount,
        filled: row.filled_amount,
        side: row.side,
        seq: 0,
        nonce: row.nonce,
        deadline: row.deadline as u64,
    }
}

/// Whether some row belongs to position `p`.
pub open spec fn rows_have(rows: Seq<OpenOrderRow>, p: PositionId) -> bool {
    exists|j: int| 0 <= j < rows.len() && (#[trigger] rows[j]).position_id == p
}

/// The book of position `p` after inserting its rows in order, before pruning.
pub open spec fn rows_state(rows: Seq<OpenOrderRow>, p: PositionId) -> BookState
    decreases rows.len(),
{
    if rows.len() == 0 {
        empty_book_state()
    } else {
        let st = rows_state(rows.drop_last(), p);
        if rows.last().position_id == p {
            insert_state(st, row_resting(rows.last()))
        } else {
            st
        }
    }
}

proof fn lemma_rows_state_absent(rows: Seq<OpenOrderRow>, p: PositionId)
    requires
        !rows_have(rows, p),
    ensures
        rows_state(rows, p) == empty_book_state(),
    decreases rows.len(),
{
    if rows.len() > 0 {
        let d = rows.drop_last();
        assert(!rows_have(d, p)) by {
            if rows_have(d, p) {
                let j = choose|j: int| 0 <= j < d.len() && (#[trigger] d[j]).position_id == p;
                assert(rows[j].position_id == p);
            }
        }
        lemma_rows_state_absent(d, p);
        assert(rows[rows.len() - 1].position_id != p);
    }
}

/// The stored rows the books can hold, in order: those not filled beyond their amount.
pub open spec fn loadable_rows(rows: Seq<OpenOrderRow>) -> Seq<OpenOrderRow>
    decreases rows.len(),
{
    if rows.len() == 0 {
        Seq::empty()
    } else {
        let rest = loadable_rows(rows.drop_last());
        if rows.last().filled_amount <= rows.last().amount {
            rest.push(rows.last())
        } else {
            rest
        }
    }
}

/// The ids of the stored rows filled beyond their amount, in order.
pub open spec fn overfilled_ids(rows: Seq<OpenOrderRow>) -> Seq<OrderId>
    decreases rows.len(),
{
    if rows.len() == 0 {
        Seq::empty()
    } else {
        let rest = overfilled_ids(rows.drop_last());
        if rows.last().filled_amount <= rows.last().amount {
            rest
        } else {
            rest.push(rows.last().order_id)
        }
    }
}

proof fn lemma_loadable_rows_fit(rows: Seq<OpenOrderRow>)
    ensures
        forall|j: int| 0 <= j < loadable_rows(rows).len() ==> (#[trigger] loadable_rows(rows)[j]).filled_amount
            <= loadable_rows(rows)[j].amount,
    decreases rows.len(),
{
    if rows.len() > 0 {
        lemma_loadable_rows_fit(rows.drop_last());
    }
}

/// Split stored open orders before the books are rebuilt: a book holds only orders it
/// can match, so a row filled beyond its amount is set aside (its id is returned for the
/// caller to report) and every other row is kept, in order.
pub fn split_loadable(rows: &Vec<OpenOrderRow>) -> (r: (Vec<OpenOrderRow>, Vec<OrderId>))
    ensures
        r.0@ == loadable_rows(rows@),
        r.1@ == overfilled_ids(rows@),
        forall|j: int| 0 <= j < r.0@.len() ==> (#[trigger] r.0@[j]).filled_amount <= r.0@[j].amount,
{
    let mut kept: Vec<OpenOrderRow> = Vec::new();
    let mut set_aside: Vec<OrderId> = Vec::new();
    let mut i: usize = 0;
    while i < rows.len()
        invariant
            i <= rows@.len(),
            kept@ == loadable_rows(rows@.take(i as int)),
            set_aside@ == overfilled_ids(rows@.take(i as int)),
        decreases rows@.len() - i,
    {
        let row = rows[i];
        assert(rows@.take(i + 1).drop_last() =~= rows@.take(i as int));
        assert(rows@.take(i + 1).last() == row);
        if row.filled_amount <= row.amount {
            kept.push(row);
        } else {
            set_aside.push(row.order_id);
        }
        i = i + 1;
    }
    assert(rows@.take(rows@.len() as int) =~= rows@);
    proof {
        lemma_loadable_rows_fit(rows@);
    }
    (kept, set_aside)
}

/// Rebuild the order books from the stored open orders, in storage order,
/// then drop empty levels.
pub fn rebuild_books(rows: &Vec<OpenOrderRow>) -> (m: MatcherState)
    requires
        forall|j: int| 0 <= j < rows@.len() ==> (#[trigger] rows@[j]).filled_amount <= rows@[j].amount,
    ensures
        m.wf(),
        forall|p: PositionId| #[trigger] m.has(p) == rows_have(rows@, p),
        forall|p: PositionId| #[trigger] m.has(p) ==> m.state_of(p) == prune_state(rows_state(rows@, p)),
{
    let mut m = MatcherState::new();
    let mut i: usize = 0;
    while i < rows.len()
        invariant
            i <= rows@.len(),
            m.wf(),
            m.seqs_at_most(i as int),
            forall|j: int| 0 <= j < rows@.len() ==> (#[trigger] rows@[j]).filled_amount <= rows@[j].amount,
            forall|p: PositionId| #[trigger] m.has(p) == rows_have(rows@.take(i as int), p),
            forall|p: PositionId| #[trigger] m.state_of(p) == rows_state(rows@.take(i as int), p),
        decreases rows@.len() - i,
    {
        let row = rows[i];
        let ghost prev = rows@.take(i as int);
        let ghost next = rows@.take(i + 1);
        assert(next.drop_last() =~= prev);
        assert(next.last() == row);
        assert(m.has_seq_headroom()) by {
            assert forall|k: int| 0 <= k < m.entries().len() implies (#[trigger] m.entries()[k]).book.seq_counter()
                < u64::MAX by {
                assert(m.entries()[k].book.seq_counter() <= i);
            }
        }
        let order = RestingOrder {
            order_id: row.order_id,
            maker: row.user_address,
            price: row.price,
            amount: row.amount,
            filled: row.filled_amount,
            side: row.side,
            seq: 0,
            nonce: row.nonce,
            deadline: #[verifier::truncate] (row.deadline as u64),
        };
        assert(order == row_resting(row));
        let ghost m0 = m;
        m.insert_resting(row.position_id, order);
        assert(m0.seqs_at_most(i as int));
        assert forall|p: PositionId| #[trigger] m.has(p) == rows_have(next, p) by {
            if rows_have(prev, p) {
                let j = choose|j: int| 0 <= j < prev.len() && (#[trigger] prev[j]).position_id == p;
                assert(next[j] == prev[j]);
            }
            if rows_have(next, p) && p != row.position_id {
                let j = choose|j: int| 0 <= j < next.len() && (#[trigger] next[j]).position_id == p;
                assert(j < prev.len());
                assert(prev[j] == next[j]);
            }
            assert(next[i as int].position_id == row.position_id);
        }
        assert forall|p: PositionId| #[trigger] m.state_of(p) == rows_state(next, p) by {
            assert(m0.state_of(p) == rows_state(prev, p));
        }
        i = i + 1;
    }
    assert(rows@.take(rows@.len() as int) =~= rows@);
    let ghost m1 = m;
    m.prune_all();
    assert forall|p: PositionId| #[trigger] m.has(p) ==> m.state_of(p) == prune_state(rows_state(rows@, p)) by {
        assert(m1.state_of(p) == rows_state(rows@, p));
    }
    m
}

/// An open order as read from the database, before conversion.
#[derive(Clone, Debug)]
pub struct StoredOrder {
    pub order_id: u128,
    pub user_address: Vec<u8>,
    pub market_id: Vec<u8>,
    pub side: String,
    pub price: i64,
    pub amount: i64,
    pub filled_amount: i64,
    pub nonce: i64,
    pub deadline: i64,
    pub position_id: String,
}

/// The side a stored order names: `buy` or `sell`; anything else is not an order the
/// book can hold.
pub open spec fn stored_side(s: Seq<char>) -> Option<OrderSide> {
    if s == "buy"@ {
        Some(OrderSide::Buy)
    } else if s == "sell"@ {
        Some(OrderSide::Sell)
    } else {
        None
    }
}

/// The first conversion error of a stored order: its user address, then its market id,
/// must have the right length.
pub open spec fn stored_error(raw: StoredOrder) -> Option<Error> {
    if raw.user_address@.len() != 20 {
        Some(Error::Domain(DomainError::ByteLength { kind: IdKind::Address, expected: 20, got: raw.user_address@.len() as usize }))
    } else if raw.market_id@.len() != 32 {
        Some(Error::Domain(DomainError::ByteLength { kind: IdKind::MarketId, expected: 32, got: raw.market_id@.len() as usize }))
    } else {
        None
    }
}

/// `row` is the conversion of `raw`: bytes copied, signed amounts reinterpreted as
/// unsigned, the position parsed from its decimal text (zero when it does not parse).
pub open spec fn row_converts(row: OpenOrderRow, raw: StoredOrder) -> bool {
    &&& row.order_id == OrderId(raw.order_id)
    &&& row.user_address.0@ == raw.user_address@
    &&& row.market_id.0@ == raw.market_id@
    &&& stored_side(raw.side@) == Some(row.side)
    &&& row.price == unsigned_bits(raw.price)
    &&& row.amount == unsigned_bits(raw.amount)
    &&& row.filled_amount == unsigned_bits(raw.filled_amount)
    &&& row.nonce == unsigned_bits(raw.nonce)
    &&& row.deadline == raw.deadline
    &&& row.position_id.0@ == match spec_parse_u256(raw.position_id@) {
        Some(w) => w,
        None => Seq::new(32, |i: int| 0u8),
    }
}

/// Convert one stored order: refused when its address or market id has the wrong
/// length, skipped when its side is unknown.
pub fn open_order_row(raw: &StoredOrder) -> (r: Result<Option<OpenOrderRow>, Error>)
    ensures
        match stored_error(*raw) {
            Some(e) => r == Err::<Option<OpenOrderRow>, Error>(e),
            None => match stored_side(raw.side@) {
                None => r == Ok::<Option<OpenOrderRow>, Error>(None),
                Some(_) => r matches Ok(Some(row)) && row_converts(row, *raw),
            },
        },
{
    let user_address = match Address::from_slice(raw.user_address.as_slice()) {
        Ok(a) => a,
        Err(e) => {
            return Err(e);
        },
    };
    let market_id = match MarketId::from_slice(raw.market_id.as_slice()) {
        Ok(m) => m,
        Err(e) => {
            return Err(e);
        },
    };
    proof {
        reveal_strlit("buy");
        reveal_strlit("sell");
    }
    let side = if str_equal(raw.side.as_str(), "buy") {
        OrderSide::Buy
    } else if str_equal(raw.side.as_str(), "sell") {
        OrderSide::Sell
    } else {
        return Ok(None);
    };
    let zero = [0u8; 32];
    proof {
        assert(zero@ =~= Seq::new(32, |i: int| 0u8));
    }
    let position = match parse_u256_text(raw.position_id.as_str()) {
        Ok(w) => w,
        Err(_) => zero,
    };
    Ok(
        Some(
            OpenOrderRow {
                order_id: OrderId(raw.order_id),
                user_address,
                market_id,
                side,
                price: to_unsigned_bits(raw.price),
                amount: to_unsigned_bits(raw.amount),
                filled_amount: to_unsigned_bits(raw.filled_amount),
                nonce: to_unsigned_bits(raw.nonce),
                deadline: raw.deadline,
                position_id: PositionId(position),
            },
        ),
    )
}

/// The first error among stored orders, in order.
pub open spec fn first_stored_error(raws: Seq<StoredOrder>) -> Option<Error>
    decreases raws.len(),
{
    if raws.len() == 0 {
        None
    } else {
        match first_stored_error(raws.drop_last()) {
            Some(e) => Some(e),
            None => stored_error(raws.last()),
        }
    }
}

/// `rows` are the conversions of the stored orders with a known side, in order.
pub open spec fn rows_convert(rows: Seq<OpenOrderRow>, raws: Seq<StoredOrder>) -> bool
    decreases raws.len(),
{
    if raws.len() == 0 {
        rows.len() == 0
    } else if stored_side(raws.last().side@) is Some {
        rows.len() > 0 && row_converts(rows.last(), raws.last()) && rows_convert(rows.drop_last(), raws.drop_last())
    } else {
        rows_convert(rows, raws.drop_last())
    }
}

/// Convert the stored open orders, oldest first: the first malformed row fails the
/// whole load, rows with an unknown side are left out.
pub fn open_order_rows(raws: &Vec<StoredOrder>) -> (r: Result<Vec<OpenOrderRow>, Error>)
    ensures
        match first_stored_error(raws@) {
            Some(e) => r == Err::<Vec<OpenOrderRow>, Error>(e),
            None => r matches Ok(rows) && rows_convert(rows@, raws@),
        },
{
    let mut rows: Vec<OpenOrderRow> = Vec::new();
    let mut i: usize = 0;
    while i < raws.len()
        invariant
            i <= raws@.len(),
            first_stored_error(raws@.take(i as int)) is None,
            rows_convert(rows@, raws@.take(i as int)),
        decreases raws@.len() - i,
    {
        let ghost prev = raws@.take(i as int);
        let ghost next = raws@.take(i + 1);
        proof {
            assert(next.drop_last() =~= prev);
            assert(next.last() == raws@[i as int]);
        }
        match open_order_row(&raws[i]) {
            Err(e) => {
                proof {
                    lemma_first_error_prefix(raws@, i + 1);
                }
                return Err(e);
            },
            Ok(None) => {},
            Ok(Some(row)) => {
                let ghost before = rows@;
                rows.push(row);
                proof {
                    assert(rows@.drop_last() =~= before);
                }
            },
        }
        i = i + 1;
    }
    proof {
        assert(raws@.take(raws@.len() as int) =~= raws@);
    }
    Ok(rows)
}

proof fn lemma_first_error_prefix(raws: Seq<StoredOrder>, n: int)
    requires
        0 < n <= raws.len(),
        first_stored_error(raws.take(n)) is Some,
    ensures
        first_stored_error(raws) == first_stored_error(raws.take(n)),
    decreases raws.len(),
{
    if n < raws.len() {
        assert(raws.drop_last().take(n) =~= raws.take(n));
        lemma_first_error_prefix(raws.drop_last(), n);
    } else {
        assert(raws.take(n) =~= raws);
    }
}

} // verus!
