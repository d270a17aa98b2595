//! The matcher: the order books of every position and the commands that change them.
//! The matcher thread of the gateway feeds commands to `MatcherState::handle_command`
//! one at a time and performs the returned action.
use crate::book::{
    cancel_side, crosses, fills_total, has_price, ids_in_levels, lemma_cancel_side_prices,
    lemma_nonempty_members, lemma_place_prices, lemma_sweep_levels, lemma_sweep_levels_prices,
    levels_have_id, levels_wf, nonempty_levels, place_in_levels, strip_levels, sweep_levels,
    uncrossed, Fill, LevelView, OrderBook, RestingOrder,
};
use crate::types::{bytes_equal, Address, MarketId, OrderId, OrderSide, PositionId};
use vstd::prelude::*;

verus! {

/// Result of processing an incoming order.
#[derive(Debug)]
pub struct MatchResult {
    pub market_id: MarketId,
    pub position_id: PositionId,
    pub fills: Vec<Fill>,
    pub resting: Option<RestingOrder>,
    pub fully_filled: bool,
}

/// Commands sent from the API layer to the matcher.
#[derive(Debug)]
pub enum MatchCommand {
    PlaceOrder {
        market_id: MarketId,
        position_id: PositionId,
        order_id: OrderId,
        maker: Address,
        price: u64,
        amount: u64,
        side: OrderSide,
        nonce: u64,
        deadline: u64,
    },
    CancelOrder { position_id: PositionId, order_id: OrderId },
    CancelAll { market_id: MarketId, position_id: PositionId, maker: Address },
    Shutdown,
}

/// What the matcher loop does after a command.
#[derive(Debug)]
pub enum MatcherAction {
    /// Stop the matcher.
    Exit,
    /// Hand the result of a placed order to the result processor.
    Publish(MatchResult),
    /// A cancel was applied; `found` tells whether the order was resting.
    Cancelled { found: bool },
    /// A cancel-all was applied; the removed order ids, for the log.
    CancelledAll { market_id: MarketId, maker: Address, removed: Vec<OrderId> },
}

/// A book as a value: bids, asks and the next sequence number.
pub type BookState = (Seq<LevelView>, Seq<LevelView>, u64);

/// The state of a book, as a value.
pub open spec fn book_state(b: OrderBook) -> BookState {
    (b.bids(), b.asks(), b.seq_counter())
}

/// The state of a book that has never seen an order.
pub open spec fn empty_book_state() -> BookState {
    (Seq::empty(), Seq::empty(), 0)
}

/// The resting order left by an incoming order that was not fully filled.
/// Its `filled` is set to `amount` minus the total filled by matching,
/// and it receives the book's next sequence number.
pub open spec fn resting_after(
    order_id: OrderId,
    maker: Address,
    price: u64,
    amount: u64,
    side: OrderSide,
    nonce: u64,
    deadline: u64,
    fills: Seq<Fill>,
    seq: u64,
) -> RestingOrder {
    RestingOrder {
        order_id,
        maker,
        price,
        amount,
        filled: (amount - fills_total(fills)) as u64,
        side,
        seq,
        nonce,
        deadline,
    }
}

/// Placing an order in a book: match against the opposite side; if not fully
/// filled, rest the order on its own side; then drop empty levels.
/// Returns the new book, the fills and the resting order if any.
pub open spec fn place_outcome(
    st: BookState,
    order_id: OrderId,
    maker: Address,
    price: u64,
    amount: u64,
    side: OrderSide,
    nonce: u64,
    deadline: u64,
) -> (BookState, Seq<Fill>, Option<RestingOrder>) {
    let (bids, asks, seq) = st;
    let opp = match side {
        OrderSide::Buy => asks,
        OrderSide::Sell => bids,
    };
    let s = sweep_levels(opp, order_id, maker, side, price, amount, Seq::empty());
    if s.2 == 0 {
        let (nb, na) = match side {
            OrderSide::Buy => (bids, s.0),
            OrderSide::Sell => (s.0, asks),
        };
        ((nonempty_levels(nb), nonempty_levels(na), seq), s.1, None)
    } else {
        let r = resting_after(order_id, maker, price, amount, side, nonce, deadline, s.1, seq);
        let (nb, na) = match side {
            OrderSide::Buy => (place_in_levels(bids, r), s.0),
            OrderSide::Sell => (s.0, place_in_levels(asks, r)),
        };
        ((nonempty_levels(nb), nonempty_levels(na), (seq + 1) as u64), s.1, Some(r))
    }
}


/// A book after cancelling the first order with `id` (bids searched first), then
/// dropping empty levels.
pub open spec fn cancel_outcome(st: BookState, id: OrderId) -> BookState {
    let (bids, asks, seq) = st;
    if levels_have_id(bids, id) {
        (nonempty_levels(cancel_side(bids, id)), nonempty_levels(asks), seq)
    } else {
        (nonempty_levels(bids), nonempty_levels(cancel_side(asks, id)), seq)
    }
}

/// A book after removing every order of `maker`, then dropping empty levels.
pub open spec fn cancel_all_outcome(st: BookState, maker: Address) -> BookState {
    let (bids, asks, seq) = st;
    (nonempty_levels(strip_levels(bids, maker)), nonempty_levels(strip_levels(asks, maker)), seq)
}

/// Ids removed by cancelling every order of `maker`: bids then asks.
pub open spec fn cancel_all_removed(st: BookState, maker: Address) -> Seq<OrderId> {
    ids_in_levels(st.0, maker) + ids_in_levels(st.1, maker)
}


/// A book state whose sides are well formed.
pub open spec fn state_wf(st: BookState) -> bool {
    levels_wf(st.0, OrderSide::Buy) && levels_wf(st.1, OrderSide::Sell)
}

/// Levels kept by pruning a side whose prices all lie below (or above) a bound keep doing so.
proof fn lemma_pruned_prices(levels: Seq<LevelView>, reference: Seq<LevelView>)
    requires
        forall|k: int| 0 <= k < levels.len() ==> has_price(reference, (#[trigger] levels[k]).0),
    ensures
        forall|k: int|
            0 <= k < nonempty_levels(levels).len() ==> has_price(
                reference,
                (#[trigger] nonempty_levels(levels)[k]).0,
            ),
{
    lemma_nonempty_members(levels);
    assert forall|k: int| 0 <= k < nonempty_levels(levels).len() implies has_price(
        reference,
        (#[trigger] nonempty_levels(levels)[k]).0,
    ) by {
        let j = choose|j: int| 0 <= j < levels.len() && levels[j] == nonempty_levels(levels)[k];
        assert(has_price(reference, levels[j].0));
    }
}

proof fn lemma_self_prices(levels: Seq<LevelView>)
    ensures
        forall|k: int| 0 <= k < levels.len() ==> has_price(levels, (#[trigger] levels[k]).0),
{
    assert forall|k: int| 0 <= k < levels.len() implies has_price(levels, (#[trigger] levels[k]).0) by {
        assert(levels[k].0 == levels[k].0);
    }
}

/// Placing an order never leaves a bid priced at or above an ask: an uncrossed
/// book stays uncrossed.
pub proof fn law_place_keeps_book_uncrossed(
    st: BookState,
    order_id: OrderId,
    maker: Address,
    price: u64,
    amount: u64,
    side: OrderSide,
    nonce: u64,
    deadline: u64,
)
    requires
        state_wf(st),
        uncrossed(st.0, st.1),
    ensures
        ({
            let o = place_outcome(st, order_id, maker, price, amount, side, nonce, deadline);
            uncrossed(o.0.0, o.0.1)
        }),
{
    let (bids, asks, seq) = st;
    let opp = match side {
        OrderSide::Buy => asks,
        OrderSide::Sell => bids,
    };
    lemma_sweep_levels(opp, order_id, maker, side, price, amount, Seq::empty());
    lemma_sweep_levels_prices(opp, order_id, maker, side, price, amount, Seq::empty());
    let s = sweep_levels(opp, order_id, maker, side, price, amount, Seq::empty());
    let o = place_outcome(st, order_id, maker, price, amount, side, nonce, deadline);
    let r = resting_after(order_id, maker, price, amount, side, nonce, deadline, s.1, seq);
    lemma_self_prices(bids);
    lemma_self_prices(asks);
    lemma_self_prices(s.0);
    lemma_pruned_prices(s.0, opp);
    lemma_pruned_prices(s.0, s.0);
    lemma_pruned_prices(bids, bids);
    lemma_pruned_prices(asks, asks);
    lemma_place_prices(bids, r);
    lemma_place_prices(asks, r);
    let nb = o.0.0;
    let na = o.0.1;
    match side {
        OrderSide::Buy => {
            if s.2 == 0 {
                assert forall|i: int, j: int| 0 <= i < nb.len() && 0 <= j < na.len() implies (#[trigger] nb[i]).0 < (#[trigger] na[j]).0 by {
                    assert(has_price(bids, nb[i].0));
                    assert(has_price(asks, na[j].0));
                    let a = choose|m: int| 0 <= m < bids.len() && (#[trigger] bids[m]).0 == nb[i].0;
                    let b = choose|m: int| 0 <= m < asks.len() && (#[trigger] asks[m]).0 == na[j].0;
                    assert(bids[a].0 < asks[b].0);
                }
            } else {
                let pb = place_in_levels(bids, r);
                lemma_pruned_prices(pb, pb);
                lemma_self_prices(pb);
                assert forall|i: int, j: int| 0 <= i < nb.len() && 0 <= j < na.len() implies (#[trigger] nb[i]).0 < (#[trigger] na[j]).0 by {
                    assert(has_price(pb, nb[i].0));
                    let a = choose|m: int| 0 <= m < pb.len() && (#[trigger] pb[m]).0 == nb[i].0;
                    assert(has_price(s.0, na[j].0));
                    let c = choose|m: int| 0 <= m < s.0.len() && (#[trigger] s.0[m]).0 == na[j].0;
                    assert(has_price(asks, s.0[c].0));
                    let b = choose|m: int| 0 <= m < asks.len() && (#[trigger] asks[m]).0 == s.0[c].0;
                    assert(!crosses(s.0[0].0, price, side));
                    if c > 0 {
                        assert(s.0[0].0 < s.0[c].0);
                    }
                    if pb[a].0 != price {
                        assert(has_price(bids, pb[a].0));
                        let d = choose|m: int| 0 <= m < bids.len() && (#[trigger] bids[m]).0 == pb[a].0;
                        assert(bids[d].0 < asks[b].0);
                    }
                }
            }
        },
        OrderSide::Sell => {
            if s.2 == 0 {
                assert forall|i: int, j: int| 0 <= i < nb.len() && 0 <= j < na.len() implies (#[trigger] nb[i]).0 < (#[trigger] na[j]).0 by {
                    assert(has_price(bids, nb[i].0));
                    assert(has_price(asks, na[j].0));
                    let a = choose|m: int| 0 <= m < bids.len() && (#[trigger] bids[m]).0 == nb[i].0;
                    let b = choose|m: int| 0 <= m < asks.len() && (#[trigger] asks[m]).0 == na[j].0;
                    assert(bids[a].0 < asks[b].0);
                }
            } else {
                let pa = place_in_levels(asks, r);
                lemma_pruned_prices(pa, pa);
                lemma_self_prices(pa);
                assert forall|i: int, j: int| 0 <= i < nb.len() && 0 <= j < na.len() implies (#[trigger] nb[i]).0 < (#[trigger] na[j]).0 by {
                    assert(has_price(pa, na[j].0));
                    let a = choose|m: int| 0 <= m < pa.len() && (#[trigger] pa[m]).0 == na[j].0;
                    assert(has_price(s.0, nb[i].0));
                    let c = choose|m: int| 0 <= m < s.0.len() && (#[trigger] s.0[m]).0 == nb[i].0;
                    assert(has_price(bids, s.0[c].0));
                    let b = choose|m: int| 0 <= m < bids.len() && (#[trigger] bids[m]).0 == s.0[c].0;
                    let last = s.0.len() - 1;
                    assert(!crosses(s.0[last].0, price, side));
                    if c < last {
                        assert(s.0[c].0 < s.0[last].0);
                    }
                    if pa[a].0 != price {
                        assert(has_price(asks, pa[a].0));
                        let d = choose|m: int| 0 <= m < asks.len() && (#[trigger] asks[m]).0 == pa[a].0;
                        assert(bids[b].0 < asks[d].0);
                    }
                }
            }
        },
    }
}

/// Cancelling an order never crosses an uncrossed book.
pub proof fn law_cancel_keeps_book_uncrossed(st: BookState, id: OrderId)
    requires
        uncrossed(st.0, st.1),
    ensures
        uncrossed(cancel_outcome(st, id).0, cancel_outcome(st, id).1),
{
    let (bids, asks, seq) = st;
    lemma_cancel_side_prices(bids, id);
    lemma_cancel_side_prices(asks, id);
    let cb = cancel_side(bids, id);
    let ca = cancel_side(asks, id);
    assert forall|k: int| 0 <= k < cb.len() implies has_price(bids, (#[trigger] cb[k]).0) by {
        assert(bids[k].0 == cb[k].0);
    }
    assert forall|k: int| 0 <= k < ca.len() implies has_price(asks, (#[trigger] ca[k]).0) by {
        assert(asks[k].0 == ca[k].0);
    }
    lemma_self_prices(bids);
    lemma_self_prices(asks);
    lemma_pruned_prices(cb, bids);
    lemma_pruned_prices(ca, asks);
    lemma_pruned_prices(bids, bids);
    lemma_pruned_prices(asks, asks);
    let o = cancel_outcome(st, id);
    assert forall|i: int, j: int| 0 <= i < o.0.len() && 0 <= j < o.1.len() implies (#[trigger] o.0[i]).0 < (#[trigger] o.1[j]).0 by {
        assert(has_price(bids, o.0[i].0));
        assert(has_price(asks, o.1[j].0));
        let a = choose|m: int| 0 <= m < bids.len() && (#[trigger] bids[m]).0 == o.0[i].0;
        let b = choose|m: int| 0 <= m < asks.len() && (#[trigger] asks[m]).0 == o.1[j].0;
        assert(bids[a].0 < asks[b].0);
    }
}

/// Cancelling every order of a maker never crosses an uncrossed book.
pub proof fn law_cancel_all_keeps_book_uncrossed(st: BookState, maker: Address)
    requires
        uncrossed(st.0, st.1),
    ensures
        uncrossed(cancel_all_outcome(st, maker).0, cancel_all_outcome(st, maker).1),
{
    let (bids, asks, seq) = st;
    let cb = strip_levels(bids, maker);
    let ca = strip_levels(asks, maker);
    assert forall|k: int| 0 <= k < cb.len() implies has_price(bids, (#[trigger] cb[k]).0) by {
        assert(bids[k].0 == cb[k].0);
    }
    assert forall|k: int| 0 <= k < ca.len() implies has_price(asks, (#[trigger] ca[k]).0) by {
        assert(asks[k].0 == ca[k].0);
    }
    lemma_pruned_prices(cb, bids);
    lemma_pruned_prices(ca, asks);
    let o = cancel_all_outcome(st, maker);
    assert forall|i: int, j: int| 0 <= i < o.0.len() && 0 <= j < o.1.len() implies (#[trigger] o.0[i]).0 < (#[trigger] o.1[j]).0 by {
        assert(has_price(bids, o.0[i].0));
        assert(has_price(asks, o.1[j].0));
        let a = choose|m: int| 0 <= m < bids.len() && (#[trigger] bids[m]).0 == o.0[i].0;
        let b = choose|m: int| 0 <= m < asks.len() && (#[trigger] asks[m]).0 == o.1[j].0;
        assert(bids[a].0 < asks[b].0);
    }
}


/// A book after an order joins its side, with the book's next sequence number.
pub open spec fn insert_state(st: BookState, o: RestingOrder) -> BookState {
    let o2 = RestingOrder { seq: st.2, ..o };
    match o.side {
        OrderSide::Buy => (place_in_levels(st.0, o2), st.1, (st.2 + 1) as u64),
        OrderSide::Sell => (st.0, place_in_levels(st.1, o2), (st.2 + 1) as u64),
    }
}

/// A book with its empty levels dropped.
pub open spec fn prune_state(st: BookState) -> BookState {
    (nonempty_levels(st.0), nonempty_levels(st.1), st.2)
}

fn total_filled(fills: &Vec<Fill>) -> (t: u64)
    requires
        fills_total(fills@) <= u64::MAX,
    ensures
        t == fills_total(fills@),
{
    let mut t: u64 = 0;
    let mut i: usize = 0;
    while i < fills.len()
        invariant
            i <= fills@.len(),
            t == fills_total(fills@.take(i as int)),
            fills_total(fills@) <= u64::MAX,
        decreases fills@.len() - i,
    {
        proof {
            lemma_fills_total_prefix(fills@, i as int + 1);
        }
        assert(fills@.take(i + 1).drop_last() =~= fills@.take(i as int));
        t = t + fills[i].amount;
        i = i + 1;
    }
    assert(fills@.take(fills@.len() as int) =~= fills@);
    t
}

/// The total of a prefix of fills never exceeds the total of all of them.
pub proof fn lemma_fills_total_prefix(fills: Seq<Fill>, n: int)
    requires
        0 <= n <= fills.len(),
    ensures
        fills_total(fills.take(n)) <= fills_total(fills),
    decreases fills.len(),
{
    if n < fills.len() {
        assert(fills.drop_last().take(n) =~= fills.take(n));
        lemma_fills_total_prefix(fills.drop_last(), n);
    } else {
        assert(fills.take(n) =~= fills);
    }
}

/// Execute an incoming order against a book; see `place_outcome`.
pub fn execute_order(
    book: &mut OrderBook,
    market_id: MarketId,
    position_id: PositionId,
    order_id: OrderId,
    maker: Address,
    price: u64,
    amount: u64,
    side: OrderSide,
    nonce: u64,
    deadline: u64,
) -> (res: MatchResult)
    requires
        old(book).wf(),
        old(book).seq_counter() < u64::MAX,
    ensures
        final(book).wf(),
        res.market_id == market_id,
        res.position_id == position_id,
        ({
            let o = place_outcome(
                book_state(*old(book)),
                order_id,
                maker,
                price,
                amount,
                side,
                nonce,
                deadline,
            );
            &&& book_state(*final(book)) == o.0
            &&& res.fills@ == o.1
            &&& res.resting == o.2
            &&& res.fully_filled == (o.2 is None)
        }),
{
    let (fills, fully_filled) = match side {
        OrderSide::Buy => book.match_buy(order_id, maker, price, amount),
        OrderSide::Sell => book.match_sell(order_id, maker, price, amount),
    };
    let resting = if !fully_filled {
        let filled_sum = total_filled(&fills);
        let mut resting_order = RestingOrder {
            order_id,
            maker,
            price,
            amount,
            filled: amount - filled_sum,
            side,
            seq: 0,
            nonce,
            deadline,
        };
        book.insert(&mut resting_order);
        Some(resting_order)
    } else {
        None
    };
    book.prune();
    MatchResult { market_id, position_id, fills, resting, fully_filled }
}

/// The book of one position.
#[derive(Debug)]
pub struct BookEntry {
    pub position_id: PositionId,
    pub book: OrderBook,
}

/// Whether a list of entries has a book for `p`.
pub open spec fn entries_have(es: Seq<BookEntry>, p: PositionId) -> bool {
    exists|i: int| 0 <= i < es.len() && (#[trigger] es[i]).position_id == p
}

/// The state of the book for `p` in a list of entries; the empty state if there is none.
pub open spec fn entries_state(es: Seq<BookEntry>, p: PositionId) -> BookState {
    if entries_have(es, p) {
        book_state(es[choose|i: int| 0 <= i < es.len() && (#[trigger] es[i]).position_id == p].book)
    } else {
        empty_book_state()
    }
}

/// No two entries share a position id.
pub open spec fn entries_unique(es: Seq<BookEntry>) -> bool {
    forall|i: int, j: int|
        0 <= i < j < es.len() ==> (#[trigger] es[i]).position_id != (#[trigger] es[j]).position_id
}

proof fn lemma_entries_state_at(es: Seq<BookEntry>, i: int)
    requires
        entries_unique(es),
        0 <= i < es.len(),
    ensures
        entries_have(es, es[i].position_id),
        entries_state(es, es[i].position_id) == book_state(es[i].book),
{
    let p = es[i].position_id;
    assert(entries_have(es, p));
    let j = choose|j: int| 0 <= j < es.len() && (#[trigger] es[j]).position_id == p;
    if j < i {
        assert(es[j].position_id != es[i].position_id);
    } else if j > i {
        assert(es[i].position_id != es[j].position_id);
    }
}

/// Replacing the book of one entry changes no other position.
proof fn lemma_entries_update(es: Seq<BookEntry>, i: int, x: BookEntry)
    requires
        entries_unique(es),
        0 <= i < es.len(),
        x.position_id == es[i].position_id,
    ensures
        entries_unique(es.update(i, x)),
        entries_have(es.update(i, x), x.position_id),
        entries_state(es.update(i, x), x.position_id) == book_state(x.book),
        forall|p: PositionId|
            p != x.position_id ==> entries_have(es.update(i, x), p) == entries_have(es, p)
                && entries_state(es.update(i, x), p) == entries_state(es, p),
{
    let es2 = es.update(i, x);
    assert forall|a: int, b: int| 0 <= a < b < es2.len() implies (#[trigger] es2[a]).position_id
        != (#[trigger] es2[b]).position_id by {
        assert(es[a].position_id != es[b].position_id);
    }
    lemma_entries_state_at(es2, i);
    assert forall|p: PositionId| p != x.position_id implies entries_have(es2, p) == entries_have(
        es,
        p,
    ) && entries_state(es2, p) == entries_state(es, p) by {
        if entries_have(es, p) {
            let j = choose|j: int| 0 <= j < es.len() && (#[trigger] es[j]).position_id == p;
            assert(es2[j] == es[j]);
            lemma_entries_state_at(es, j);
            lemma_entries_state_at(es2, j);
        }
        if entries_have(es2, p) {
            let j = choose|j: int| 0 <= j < es2.len() && (#[trigger] es2[j]).position_id == p;
            assert(es2[j] == es[j]);
        }
    }
}

/// Adding an entry for a new position changes no other position.
proof fn lemma_entries_push(es: Seq<BookEntry>, x: BookEntry)
    requires
        entries_unique(es),
        !entries_have(es, x.position_id),
    ensures
        entries_unique(es.push(x)),
        forall|p: PositionId|
            p != x.position_id ==> entries_have(es.push(x), p) == entries_have(es, p)
                && entries_state(es.push(x), p) == entries_state(es, p),
{
    let es2 = es.push(x);
    assert forall|a: int, b: int| 0 <= a < b < es2.len() implies (#[trigger] es2[a]).position_id
        != (#[trigger] es2[b]).position_id by {
        if b == es.len() {
            assert(es[a].position_id != x.position_id);
        } else {
            assert(es[a].position_id != es[b].position_id);
        }
    }
    assert forall|p: PositionId| p != x.position_id implies entries_have(es2, p) == entries_have(
        es,
        p,
    ) && entries_state(es2, p) == entries_state(es, p) by {
        if entries_have(es, p) {
            let j = choose|j: int| 0 <= j < es.len() && (#[trigger] es[j]).position_id == p;
            assert(es2[j] == es[j]);
            lemma_entries_state_at(es, j);
            lemma_entries_state_at(es2, j);
        }
        if entries_have(es2, p) {
            let j = choose|j: int| 0 <= j < es2.len() && (#[trigger] es2[j]).position_id == p;
            assert(j < es.len());
            assert(es2[j] == es[j]);
        }
    }
}

/// The order books of every position, at most one per position id.
#[derive(Debug)]
pub struct MatcherState {
    entries: Vec<BookEntry>,
}

impl MatcherState {
    /// The books, in the order their positions were first seen.
    pub closed spec fn entries(&self) -> Seq<BookEntry> {
        self.entries@
    }

    /// Whether the position has a book.
    pub open spec fn has(&self, p: PositionId) -> bool {
        entries_have(self.entries(), p)
    }

    /// The state of the position's book; the empty state if it has none.
    pub open spec fn state_of(&self, p: PositionId) -> BookState {
        entries_state(self.entries(), p)
    }

    /// No position has two books and every book is well formed.
    pub open spec fn wf(&self) -> bool {
        &&& entries_unique(self.entries())
        &&& forall|i: int| 0 <= i < self.entries().len() ==> (#[trigger] self.entries()[i]).book.wf()
    }

    /// In every book, every bid level is priced below every ask level.
    pub open spec fn books_uncrossed(&self) -> bool {
        forall|p: PositionId|
            #[trigger] self.has(p) ==> uncrossed(self.state_of(p).0, self.state_of(p).1)
    }

    /// The book of every position is well formed, as a value.
    pub proof fn lemma_state_wf(&self, p: PositionId)
        requires
            self.wf(),
        ensures
            state_wf(self.state_of(p)),
    {
        if self.has(p) {
            let i = choose|i: int| 0 <= i < self.entries().len() && (#[trigger] self.entries()[i]).position_id == p;
            lemma_entries_state_at(self.entries(), i);
            assert(self.entries()[i].book.wf());
        } else {
            assert(levels_wf(Seq::<LevelView>::empty(), OrderSide::Buy));
            assert(levels_wf(Seq::<LevelView>::empty(), OrderSide::Sell));
        }
    }

    /// Whether every book can still number a new resting order.
    pub open spec fn has_seq_headroom(&self) -> bool {
        forall|i: int|
            0 <= i < self.entries().len() ==> (#[trigger] self.entries()[i]).book.seq_counter()
                < u64::MAX
    }

    /// A matcher with no books.
    pub fn new() -> (m: MatcherState)
        ensures
            m.wf(),
            m.has_seq_headroom(),
            m.entries().len() == 0,
            m.books_uncrossed(),
            forall|p: PositionId| !m.has(p),
    {
        MatcherState { entries: Vec::new() }
    }

    /// Number of positions with a book.
    pub fn len(&self) -> (r: usize)
        ensures
            r == self.entries().len(),
    {
        self.entries.len()
    }

    /// Whether every book can still number a new resting order.
    pub fn seq_headroom(&self) -> (r: bool)
        ensures
            r == self.has_seq_headroom(),
    {
        let mut i: usize = 0;
        while i < self.entries.len()
            invariant
                i <= self.entries@.len(),
                forall|j: int| 0 <= j < i ==> (#[trigger] self.entries()[j]).book.seq_counter() < u64::MAX,
            decreases self.entries@.len() - i,
        {
            if self.entries[i].book.next_seq() == u64::MAX {
                assert(self.entries()[i as int].book.seq_counter() == u64::MAX);
                return false;
            }
            i = i + 1;
        }
        true
    }

    fn find(&self, p: &PositionId) -> (r: Option<usize>)
        ensures
            match r {
                Some(i) => i < self.entries().len() && self.entries()[i as int].position_id == *p,
                None => !self.has(*p),
            },
    {
        let mut i: usize = 0;
        while i < self.entries.len()
            invariant
                i <= self.entries@.len(),
                forall|j: int| 0 <= j < i ==> (#[trigger] self.entries()[j]).position_id != *p,
            decreases self.entries@.len() - i,
        {
            if bytes_equal(&self.entries[i].position_id.0, &p.0) {
                assert(self.entries()[i as int].position_id == *p);
                return Some(i);
            }
            i = i + 1;
        }
        None
    }

    /// Place an incoming order in its position's book, creating the book if needed.
    pub fn place_order(
        &mut self,
        market_id: MarketId,
        position_id: PositionId,
        order_id: OrderId,
        maker: Address,
        price: u64,
        amount: u64,
        side: OrderSide,
        nonce: u64,
        deadline: u64,
    ) -> (res: MatchResult)
        requires
            old(self).wf(),
            old(self).has_seq_headroom(),
        ensures
            final(self).wf(),
            final(self).has(position_id),
            res.market_id == market_id,
            res.position_id == position_id,
            ({
                let o = place_outcome(
                    old(self).state_of(position_id),
                    order_id,
                    maker,
                    price,
                    amount,
                    side,
                    nonce,
                    deadline,
                );
                &&& final(self).state_of(position_id) == o.0
                &&& res.fills@ == o.1
                &&& res.resting == o.2
                &&& res.fully_filled == (o.2 is None)
            }),
            forall|p: PositionId|
                p != position_id ==> final(self).has(p) == old(self).has(p)
                    && final(self).state_of(p) == old(self).state_of(p),
    {
        let idx = match self.find(&position_id) {
            Some(i) => {
                proof {
                    lemma_entries_state_at(self.entries(), i as int);
                }
                i
            },
            None => {
                let book = OrderBook::new();
                let ghost e0 = self.entries();
                let entry = BookEntry { position_id, book };
                self.entries.push(entry);
                proof {
                    lemma_entries_push(e0, entry);
                    lemma_entries_state_at(self.entries(), e0.len() as int);
                }
                self.entries.len() - 1
            },
        };
        let ghost e1 = self.entries();
        let ghost before = self.state_of(position_id);
        assert(book_state(e1[idx as int].book) == before);
        assert(e1[idx as int].book.wf());
        assert(e1[idx as int].book.seq_counter() < u64::MAX) by {
            if idx < old(self).entries().len() {
                assert(e1[idx as int] == old(self).entries()[idx as int]);
            }
        }
        let mut entry = self.entries.remove(idx);
        let res = execute_order(
            &mut entry.book,
            market_id,
            position_id,
            order_id,
            maker,
            price,
            amount,
            side,
            nonce,
            deadline,
        );
        self.entries.insert(idx, entry);
        assert(self.entries() =~= e1.update(idx as int, entry));
        proof {
            lemma_entries_update(e1, idx as int, entry);
        }
        res
    }

    /// Apply a change to the book of the entry at `idx`; see the callers.
    fn with_book_cancel(&mut self, idx: usize, order_id: OrderId) -> (found: bool)
        requires
            old(self).wf(),
            idx < old(self).entries().len(),
        ensures
            final(self).wf(),
            final(self).has_seq_headroom() == old(self).has_seq_headroom(),
            ({
                let p = old(self).entries()[idx as int].position_id;
                &&& final(self).has(p)
                &&& final(self).state_of(p) == cancel_outcome(old(self).state_of(p), order_id)
                &&& found == (levels_have_id(old(self).state_of(p).0, order_id) || levels_have_id(
                    old(self).state_of(p).1,
                    order_id,
                ))
                &&& forall|q: PositionId|
                    q != p ==> final(self).has(q) == old(self).has(q) && final(self).state_of(q)
                        == old(self).state_of(q)
            }),
    {
        let ghost e1 = self.entries();
        proof {
            lemma_entries_state_at(e1, idx as int);
        }
        let mut entry = self.entries.remove(idx);
        assert(entry.book.wf());
        let found = entry.book.cancel(order_id);
        entry.book.prune();
        self.entries.insert(idx, entry);
        assert(self.entries() =~= e1.update(idx as int, entry));
        proof {
            lemma_entries_update(e1, idx as int, entry);
            assert forall|i: int| 0 <= i < self.entries().len() implies (#[trigger] self.entries()[i]).book.seq_counter()
                < u64::MAX <==> e1[i].book.seq_counter() < u64::MAX by {
            }
            if !self.has_seq_headroom() {
                let i = choose|i: int| 0 <= i < self.entries().len() && !((#[trigger] self.entries()[i]).book.seq_counter() < u64::MAX);
                assert(!(e1[i].book.seq_counter() < u64::MAX));
            }
            if !old(self).has_seq_headroom() {
                let i = choose|i: int| 0 <= i < e1.len() && !((#[trigger] e1[i]).book.seq_counter() < u64::MAX);
                assert(!(self.entries()[i].book.seq_counter() < u64::MAX));
            }
        }
        found
    }

    fn with_book_cancel_all(&mut self, idx: usize, maker: Address) -> (removed: Vec<OrderId>)
        requires
            old(self).wf(),
            idx < old(self).entries().len(),
        ensures
            final(self).wf(),
            final(self).has_seq_headroom() == old(self).has_seq_headroom(),
            ({
                let p = old(self).entries()[idx as int].position_id;
                &&& final(self).has(p)
                &&& final(self).state_of(p) == cancel_all_outcome(old(self).state_of(p), maker)
                &&& removed@ == cancel_all_removed(old(self).state_of(p), maker)
                &&& forall|q: PositionId|
                    q != p ==> final(self).has(q) == old(self).has(q) && final(self).state_of(q)
                        == old(self).state_of(q)
            }),
    {
        let ghost e1 = self.entries();
        proof {
            lemma_entries_state_at(e1, idx as int);
        }
        let mut entry = self.entries.remove(idx);
        assert(entry.book.wf());
        let removed = entry.book.cancel_all(maker);
        entry.book.prune();
        self.entries.insert(idx, entry);
        assert(self.entries() =~= e1.update(idx as int, entry));
        proof {
            lemma_entries_update(e1, idx as int, entry);
            if !self.has_seq_headroom() {
                let i = choose|i: int| 0 <= i < self.entries().len() && !((#[trigger] self.entries()[i]).book.seq_counter() < u64::MAX);
                assert(!(e1[i].book.seq_counter() < u64::MAX));
            }
            if !old(self).has_seq_headroom() {
                let i = choose|i: int| 0 <= i < e1.len() && !((#[trigger] e1[i]).book.seq_counter() < u64::MAX);
                assert(!(self.entries()[i].book.seq_counter() < u64::MAX));
            }
        }
        removed
    }

    /// Cancel an order in its position's book, then drop empty levels. A position
    /// without a book is left alone. Returns whether the order was resting.
    pub fn cancel_order(&mut self, position_id: PositionId, order_id: OrderId) -> (found: bool)
        requires
            old(self).wf(),
        ensures
            final(self).wf(),
            final(self).has_seq_headroom() == old(self).has_seq_headroom(),
            old(self).has(position_id) ==> final(self).state_of(position_id) == cancel_outcome(
                old(self).state_of(position_id),
                order_id,
            ),
            found == (old(self).has(position_id) && (levels_have_id(
                old(self).state_of(position_id).0,
                order_id,
            ) || levels_have_id(old(self).state_of(position_id).1, order_id))),
            forall|p: PositionId|
                #![trigger final(self).has(p)]
                #![trigger final(self).state_of(p)]
                final(self).has(p) == old(self).has(p) && (p != position_id || !old(self).has(p)
                    ==> final(self).state_of(p) == old(self).state_of(p)),
    {
        match self.find(&position_id) {
            Some(i) => self.with_book_cancel(i, order_id),
            None => false,
        }
    }

    /// Cancel every order of `maker` in a position's book, then drop empty levels.
    /// A position without a book is left alone. Returns the removed order ids.
    pub fn cancel_all(&mut self, position_id: PositionId, maker: Address) -> (removed: Vec<OrderId>)
        requires
            old(self).wf(),
        ensures
            final(self).wf(),
            final(self).has_seq_headroom() == old(self).has_seq_headroom(),
            old(self).has(position_id) ==> final(self).state_of(position_id) == cancel_all_outcome(
                old(self).state_of(position_id),
                maker,
            ),
            removed@ == if old(self).has(position_id) {
                cancel_all_removed(old(self).state_of(position_id), maker)
            } else {
                Seq::empty()
            },
            forall|p: PositionId|
                #![trigger final(self).has(p)]
                #![trigger final(self).state_of(p)]
                final(self).has(p) == old(self).has(p) && (p != position_id || !old(self).has(p)
                    ==> final(self).state_of(p) == old(self).state_of(p)),
    {
        match self.find(&position_id) {
            Some(i) => self.with_book_cancel_all(i, maker),
            None => {
                let v: Vec<OrderId> = Vec::new();
                assert(v@ =~= Seq::<OrderId>::empty());
                v
            },
        }
    }


    /// Rest an order in its position's book without matching, creating the book
    /// if needed. Returns the order with its sequence number.
    pub fn insert_resting(&mut self, position_id: PositionId, order: RestingOrder) -> (placed: RestingOrder)
        requires
            old(self).wf(),
            old(self).has_seq_headroom(),
            order.filled <= order.amount,
        ensures
            final(self).wf(),
            final(self).has(position_id),
            final(self).state_of(position_id) == insert_state(old(self).state_of(position_id), order),
            placed == (RestingOrder { seq: old(self).state_of(position_id).2, ..order }),
            forall|p: PositionId|
                p != position_id ==> final(self).has(p) == old(self).has(p)
                    && final(self).state_of(p) == old(self).state_of(p),
            forall|b: int| b >= 0 && #[trigger] old(self).seqs_at_most(b) ==> final(self).seqs_at_most(b + 1),
    {
        let idx = match self.find(&position_id) {
            Some(i) => {
                proof {
                    lemma_entries_state_at(self.entries(), i as int);
                }
                i
            },
            None => {
                let book = OrderBook::new();
                let ghost e0 = self.entries();
                let entry = BookEntry { position_id, book };
                self.entries.push(entry);
                proof {
                    lemma_entries_push(e0, entry);
                    lemma_entries_state_at(self.entries(), e0.len() as int);
                }
                self.entries.len() - 1
            },
        };
        let ghost e1 = self.entries();
        assert(forall|i: int| 0 <= i < old(self).entries().len() ==> e1[i] == old(self).entries()[i]);
        assert(old(self).entries().len() <= e1.len());
        assert(idx >= old(self).entries().len() ==> e1[idx as int].book.seq_counter() == 0);
        assert(e1.len() <= old(self).entries().len() + 1 && (e1.len() == old(self).entries().len() + 1 ==> idx == old(self).entries().len()));
        assert(e1[idx as int].book.seq_counter() < u64::MAX) by {
            if idx < old(self).entries().len() {
                assert(e1[idx as int] == old(self).entries()[idx as int]);
            }
        }
        let mut entry = self.entries.remove(idx);
        let mut o = order;
        entry.book.insert(&mut o);
        self.entries.insert(idx, entry);
        assert(self.entries() =~= e1.update(idx as int, entry));
        proof {
            lemma_entries_update(e1, idx as int, entry);
            assert forall|b: int| b >= 0 && #[trigger] old(self).seqs_at_most(b) implies self.seqs_at_most(b + 1) by {
                assert forall|i: int| 0 <= i < self.entries().len() implies (#[trigger] self.entries()[i]).book.seq_counter()
                    <= b + 1 by {
                    if i < old(self).entries().len() {
                        assert(old(self).entries()[i].book.seq_counter() <= b);
                        if i != idx {
                            assert(self.entries()[i] == e1[i]);
                            assert(e1[i] == old(self).entries()[i]);
                        } else {
                            assert(e1[i] == old(self).entries()[i]);
                        }
                    } else {
                        assert(e1[i].book.seq_counter() == 0);
                    }
                }
            }
        }
        o
    }

    /// Every book's next sequence number is at most `b`.
    pub open spec fn seqs_at_most(&self, b: int) -> bool {
        forall|i: int| 0 <= i < self.entries().len() ==> (#[trigger] self.entries()[i]).book.seq_counter() <= b
    }

    /// Drop the empty levels of every book.
    pub fn prune_all(&mut self)
        requires
            old(self).wf(),
        ensures
            final(self).wf(),
            forall|p: PositionId|
                #![trigger final(self).has(p)]
                #![trigger final(self).state_of(p)]
                final(self).has(p) == old(self).has(p) && final(self).state_of(p) == prune_state(
                    old(self).state_of(p),
                ) || !old(self).has(p),
            forall|p: PositionId| #[trigger] final(self).has(p) == old(self).has(p),
    {
        let ghost e0 = self.entries();
        let mut i: usize = 0;
        while i < self.entries.len()
            invariant
                i <= self.entries@.len(),
                self.entries@.len() == e0.len(),
                forall|j: int| 0 <= j < e0.len() ==> (#[trigger] self.entries()[j]).position_id == e0[j].position_id,
                forall|j: int| 0 <= j < e0.len() ==> (#[trigger] self.entries()[j]).book.wf(),
                forall|j: int| 0 <= j < i ==> book_state((#[trigger] self.entries()[j]).book) == prune_state(book_state(e0[j].book)),
                forall|j: int| i <= j < e0.len() ==> #[trigger] self.entries()[j] == e0[j],
                entries_unique(e0),
                forall|j: int| 0 <= j < e0.len() ==> (#[trigger] e0[j]).book.wf(),
            decreases self.entries@.len() - i,
        {
            let ghost before = self.entries();
            let mut entry = self.entries.remove(i);
            assert(entry == e0[i as int]);
            entry.book.prune();
            self.entries.insert(i, entry);
            assert(self.entries() =~= before.update(i as int, entry));
            i = i + 1;
        }
        proof {
            let e = self.entries();
            assert forall|a: int, b: int| 0 <= a < b < e.len() implies (#[trigger] e[a]).position_id
                != (#[trigger] e[b]).position_id by {
                assert(e0[a].position_id != e0[b].position_id);
            }
            assert forall|p: PositionId| #[trigger] self.has(p) == old(self).has(p) by {
                if old(self).has(p) {
                    let j = choose|j: int| 0 <= j < e0.len() && (#[trigger] e0[j]).position_id == p;
                    assert(e[j].position_id == p);
                }
                if self.has(p) {
                    let j = choose|j: int| 0 <= j < e.len() && (#[trigger] e[j]).position_id == p;
                    assert(e0[j].position_id == p);
                }
            }
            assert forall|p: PositionId| #[trigger] self.state_of(p) == prune_state(old(self).state_of(p)) || !old(self).has(p) by {
                if old(self).has(p) {
                    let j = choose|j: int| 0 <= j < e0.len() && (#[trigger] e0[j]).position_id == p;
                    lemma_entries_state_at(e0, j);
                    lemma_entries_state_at(e, j);
                }
            }
        }
    }

    /// One step of the matcher loop: apply a command and say what to do next.
    pub fn handle_command(&mut self, cmd: MatchCommand) -> (action: MatcherAction)
        requires
            old(self).wf(),
            old(self).has_seq_headroom(),
        ensures
            final(self).wf(),
            old(self).books_uncrossed() ==> final(self).books_uncrossed(),
            match cmd {
                MatchCommand::Shutdown => action is Exit && final(self).entries() == old(self).entries(),
                MatchCommand::PlaceOrder {
                    market_id,
                    position_id,
                    order_id,
                    maker,
                    price,
                    amount,
                    side,
                    nonce,
                    deadline,
                } => {
                    let o = place_outcome(
                        old(self).state_of(position_id),
                        order_id,
                        maker,
                        price,
                        amount,
                        side,
                        nonce,
                        deadline,
                    );
                    &&& final(self).has(position_id)
                    &&& final(self).state_of(position_id) == o.0
                    &&& action matches MatcherAction::Publish(res) && res.market_id == market_id && res.position_id == position_id
                        && res.fills@ == o.1 && res.resting == o.2 && res.fully_filled == (o.2 is None)
                    &&& forall|p: PositionId|
                        p != position_id ==> final(self).has(p) == old(self).has(p)
                            && final(self).state_of(p) == old(self).state_of(p)
                },
                MatchCommand::CancelOrder { position_id, order_id } => {
                    &&& final(self).has_seq_headroom()
                    &&& old(self).has(position_id) ==> final(self).state_of(position_id)
                        == cancel_outcome(old(self).state_of(position_id), order_id)
                    &&& action matches MatcherAction::Cancelled { found } && found == (old(
                        self,
                    ).has(position_id) && (levels_have_id(
                        old(self).state_of(position_id).0,
                        order_id,
                    ) || levels_have_id(old(self).state_of(position_id).1, order_id)))
                    &&& forall|p: PositionId|
                        #![trigger final(self).has(p)]
                        #![trigger final(self).state_of(p)]
                        final(self).has(p) == old(self).has(p) && (p != position_id || !old(
                            self,
                        ).has(p) ==> final(self).state_of(p) == old(self).state_of(p))
                },
                MatchCommand::CancelAll { market_id, position_id, maker } => {
                    &&& final(self).has_seq_headroom()
                    &&& old(self).has(position_id) ==> final(self).state_of(position_id)
                        == cancel_all_outcome(old(self).state_of(position_id), maker)
                    &&& action matches MatcherAction::CancelledAll { market_id: m, maker: mk, removed }
                        && m == market_id && mk == maker && removed@ == if old(self).has(
                        position_id,
                    ) {
                        cancel_all_removed(old(self).state_of(position_id), maker)
                    } else {
                        Seq::empty()
                    }
                    &&& forall|p: PositionId|
                        #![trigger final(self).has(p)]
                        #![trigger final(self).state_of(p)]
                        final(self).has(p) == old(self).has(p) && (p != position_id || !old(
                            self,
                        ).has(p) ==> final(self).state_of(p) == old(self).state_of(p))
                },
            },
    {
        let ghost cmd0 = cmd;
        let action = match cmd {
            MatchCommand::Shutdown => MatcherAction::Exit,
            MatchCommand::PlaceOrder {
                market_id,
                position_id,
                order_id,
                maker,
                price,
                amount,
                side,
                nonce,
                deadline,
            } => {
                let res = self.place_order(
                    market_id,
                    position_id,
                    order_id,
                    maker,
                    price,
                    amount,
                    side,
                    nonce,
                    deadline,
                );
                MatcherAction::Publish(res)
            },
            MatchCommand::CancelOrder { position_id, order_id } => {
                let found = self.cancel_order(position_id, order_id);
                MatcherAction::Cancelled { found }
            },
            MatchCommand::CancelAll { market_id, position_id, maker } => {
                let removed = self.cancel_all(position_id, maker);
                MatcherAction::CancelledAll { market_id, maker, removed }
            },
        };
        proof {
            if old(self).books_uncrossed() {
                assert forall|p: PositionId| #[trigger] self.has(p) implies uncrossed(
                    self.state_of(p).0,
                    self.state_of(p).1,
                ) by {
                    match cmd0 {
                        MatchCommand::Shutdown => {},
                        MatchCommand::PlaceOrder {
                            market_id,
                            position_id,
                            order_id,
                            maker,
                            price,
                            amount,
                            side,
                            nonce,
                            deadline,
                        } => {
                            if p == position_id {
                                old(self).lemma_state_wf(p);
                                if !old(self).has(p) {
                                    assert(uncrossed(Seq::empty(), Seq::empty()));
                                } else {
                                    assert(old(self).has(p));
                                }
                                law_place_keeps_book_uncrossed(
                                    old(self).state_of(p),
                                    order_id,
                                    maker,
                                    price,
                                    amount,
                                    side,
                                    nonce,
                                    deadline,
                                );
                            } else {
                                assert(old(self).has(p));
                            }
                        },
                        MatchCommand::CancelOrder { position_id, order_id } => {
                            assert(old(self).has(p));
                            if p == position_id {
                                law_cancel_keeps_book_uncrossed(old(self).state_of(p), order_id);
                            }
                        },
                        MatchCommand::CancelAll { market_id, position_id, maker } => {
                            assert(old(self).has(p));
                            if p == position_id {
                                law_cancel_all_keeps_book_uncrossed(old(self).state_of(p), maker);
                            }
                        },
                    }
                }
            }
        }
        action
    }
}

} // verus!
