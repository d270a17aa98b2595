//! The per-position limit order book: strict price-time priority with
//! self-trade prevention.
use crate::types::{Address, OrderId, OrderSide};
use std::collections::VecDeque;
use vstd::prelude::*;

verus! {

/// An order resting in the book.
#[derive(Clone, Copy, PartialEq, Eq, Debug)]
pub struct RestingOrder {
    pub order_id: OrderId,
    pub maker: Address,
    pub price: u64,
    pub amount: u64,
    pub filled: u64,
    pub side: OrderSide,
    pub seq: u64,
    pub nonce: u64,
    pub deadline: u64,
}

/// A single fill produced by matching.
#[derive(Clone, Copy, PartialEq, Eq, Debug)]
pub struct Fill {
    pub maker_order_id: OrderId,
    pub taker_order_id: OrderId,
    pub maker: Address,
    pub taker: Address,
    pub price: u64,
    pub amount: u64,
    pub taker_side: OrderSide,
    /// The fill took all that was left of the maker's order.
    pub maker_done: bool,
}

/// All orders resting at one price, oldest first.
#[derive(Debug)]
pub struct PriceLevel {
    pub price: u64,
    pub orders: VecDeque<RestingOrder>,
}

/// A price level as a mathematical value: its price and its queue.
pub type LevelView = (u64, Seq<RestingOrder>);

impl View for PriceLevel {
    type V = LevelView;

    open spec fn view(&self) -> LevelView {
        (self.price, self.orders@)
    }
}

impl RestingOrder {
    /// Quantity still open: `amount - filled`.
    pub open spec fn spec_remaining(self) -> int {
        self.amount - self.filled
    }

    /// Quantity still open.
    pub fn remaining(&self) -> (r: u64)
        requires
            self.filled <= self.amount,
        ensures
            r == self.spec_remaining(),
    {
        self.amount - self.filled
    }
}

/// The levels of a side of the book, as values.
pub open spec fn levels_view(v: Seq<PriceLevel>) -> Seq<LevelView> {
    v.map_values(|l: PriceLevel| l@)
}

/// A resting order sits at its level's price, on the book's side, and is not overfilled.
pub open spec fn order_fits(o: RestingOrder, price: u64, side: OrderSide) -> bool {
    &&& o.price == price
    &&& o.side == side
    &&& o.filled <= o.amount
}

/// Every order of a queue fits the level.
pub open spec fn queue_wf(q: Seq<RestingOrder>, price: u64, side: OrderSide) -> bool {
    forall|k: int| 0 <= k < q.len() ==> #[trigger] order_fits(q[k], price, side)
}

/// Levels are sorted by strictly increasing price and every queue fits its level.
pub open spec fn levels_wf(levels: Seq<LevelView>, side: OrderSide) -> bool {
    &&& forall|i: int, j: int|
        0 <= i < j < levels.len() ==> (#[trigger] levels[i]).0 < (#[trigger] levels[j]).0
    &&& forall|i: int| 0 <= i < levels.len() ==> #[trigger] queue_wf(levels[i].1, levels[i].0, side)
}

/// Sequence numbers rise along a queue, oldest order first, and all lie below `bound`.
pub open spec fn queue_seq_ordered(q: Seq<RestingOrder>, bound: u64) -> bool {
    &&& forall|a: int, b: int| 0 <= a < b < q.len() ==> (#[trigger] q[a]).seq < (#[trigger] q[b]).seq
    &&& forall|k: int| 0 <= k < q.len() ==> (#[trigger] q[k]).seq < bound
}

/// Every queue of a side is in sequence order below `bound`.
pub open spec fn levels_seq_ordered(levels: Seq<LevelView>, bound: u64) -> bool {
    forall|i: int| 0 <= i < levels.len() ==> #[trigger] queue_seq_ordered(levels[i].1, bound)
}

/// A bound on sequence numbers may be raised.
pub proof fn lemma_seq_bound_raise(levels: Seq<LevelView>, bound: u64, raised: u64)
    requires
        levels_seq_ordered(levels, bound),
        bound <= raised,
    ensures
        levels_seq_ordered(levels, raised),
{
    assert forall|i: int| 0 <= i < levels.len() implies #[trigger] queue_seq_ordered(levels[i].1, raised) by {
        assert(queue_seq_ordered(levels[i].1, bound));
    }
}

/// Matching one queue keeps it in sequence order: orders only leave its front, and the
/// order left partly filled keeps its sequence number.
pub proof fn lemma_sweep_queue_seq(
    q: Seq<RestingOrder>,
    taker_order_id: OrderId,
    taker: Address,
    taker_side: OrderSide,
    remaining: u64,
    fills: Seq<Fill>,
    bound: u64,
)
    requires
        queue_seq_ordered(q, bound),
    ensures
        queue_seq_ordered(sweep_queue(q, taker_order_id, taker, taker_side, remaining, fills).0, bound),
    decreases q.len(),
{
    if remaining == 0 || q.len() == 0 {
    } else {
        let head = q[0];
        let d = q.drop_first();
        assert(queue_seq_ordered(d, bound)) by {
            assert forall|a: int, b: int| 0 <= a < b < d.len() implies (#[trigger] d[a]).seq < (#[trigger] d[b]).seq by {
                assert(d[a] == q[a + 1] && d[b] == q[b + 1]);
            }
            assert forall|k: int| 0 <= k < d.len() implies (#[trigger] d[k]).seq < bound by {
                assert(d[k] == q[k + 1]);
            }
        }
        if head.maker == taker {
            lemma_sweep_queue_seq(d, taker_order_id, taker, taker_side, remaining, fills, bound);
        } else if remaining < head.spec_remaining() {
            let u = q.update(0, RestingOrder { filled: (head.filled + remaining) as u64, ..head });
            assert forall|a: int, b: int| 0 <= a < b < u.len() implies (#[trigger] u[a]).seq < (#[trigger] u[b]).seq by {
                assert(u[a].seq == q[a].seq && u[b].seq == q[b].seq);
            }
            assert forall|k: int| 0 <= k < u.len() implies (#[trigger] u[k]).seq < bound by {
                assert(u[k].seq == q[k].seq);
            }
        } else {
            lemma_sweep_queue_seq(
                d,
                taker_order_id,
                taker,
                taker_side,
                (remaining - head.spec_remaining()) as u64,
                fills.push(make_fill(head, taker_order_id, taker, taker_side, head.spec_remaining() as u64)),
                bound,
            );
        }
    }
}

/// The fill produced when `amount` of `maker` trades against the taker.
pub open spec fn make_fill(
    maker: RestingOrder,
    taker_order_id: OrderId,
    taker: Address,
    taker_side: OrderSide,
    amount: u64,
) -> Fill {
    Fill {
        maker_order_id: maker.order_id,
        taker_order_id,
        maker: maker.maker,
        taker,
        price: maker.price,
        amount,
        taker_side,
        maker_done: amount == maker.spec_remaining(),
    }
}

/// Matching of `remaining` against one queue, oldest order first.
/// A maker owned by the taker is dropped from the queue without trading;
/// a maker that is consumed leaves the queue; a maker that is only partly
/// consumed stays at the head with its `filled` raised.
/// Returns the new queue, `fills` extended with the new fills, and what is left.
pub open spec fn sweep_queue(
    q: Seq<RestingOrder>,
    taker_order_id: OrderId,
    taker: Address,
    taker_side: OrderSide,
    remaining: u64,
    fills: Seq<Fill>,
) -> (Seq<RestingOrder>, Seq<Fill>, u64)
    decreases q.len(),
{
    if remaining == 0 || q.len() == 0 {
        (q, fills, remaining)
    } else {
        let head = q[0];
        if head.maker == taker {
            sweep_queue(q.drop_first(), taker_order_id, taker, taker_side, remaining, fills)
        } else if remaining < head.spec_remaining() {
            (
                q.update(0, RestingOrder { filled: (head.filled + remaining) as u64, ..head }),
                fills.push(make_fill(head, taker_order_id, taker, taker_side, remaining)),
                0,
            )
        } else {
            sweep_queue(
                q.drop_first(),
                taker_order_id,
                taker,
                taker_side,
                (remaining - head.spec_remaining()) as u64,
                fills.push(
                    make_fill(head, taker_order_id, taker, taker_side, head.spec_remaining() as u64),
                ),
            )
        }
    }
}

/// Complete fills, oldest first, of the orders of `q` that are not the taker's own.
pub open spec fn full_fills(
    q: Seq<RestingOrder>,
    taker_order_id: OrderId,
    taker: Address,
    taker_side: OrderSide,
) -> Seq<Fill>
    decreases q.len(),
{
    if q.len() == 0 {
        Seq::empty()
    } else {
        let rest = full_fills(q.drop_first(), taker_order_id, taker, taker_side);
        if q[0].maker == taker {
            rest
        } else {
            seq![make_fill(q[0], taker_order_id, taker, taker_side, q[0].spec_remaining() as u64)] + rest
        }
    }
}

/// How a sweep of queue `q` ended, in time priority: the first `d` orders were consumed
/// completely (the taker's own dropped without trading), and then either the queue is
/// left as it stands from `d` on (`x == 0`), or the order at `d` took the last `x` units
/// and stays at the head, partly filled.
pub open spec fn swept_in_time_order(
    q: Seq<RestingOrder>,
    taker_order_id: OrderId,
    taker: Address,
    taker_side: OrderSide,
    fills: Seq<Fill>,
    r: (Seq<RestingOrder>, Seq<Fill>, u64),
    d: int,
    x: int,
) -> bool {
    let consumed = fills + full_fills(q.take(d), taker_order_id, taker, taker_side);
    &&& 0 <= d <= q.len()
    &&& if x == 0 {
        r.0 == q.skip(d) && r.1 == consumed
    } else {
        &&& d < q.len()
        &&& 0 < x < q[d].spec_remaining()
        &&& q[d].maker != taker
        &&& r.2 == 0
        &&& r.0 == q.skip(d).update(0, RestingOrder { filled: (q[d].filled + x) as u64, ..q[d] })
        &&& r.1 == consumed.push(make_fill(q[d], taker_order_id, taker, taker_side, x as u64))
    }
}

/// Time priority within a price level: a sweep consumes the queue strictly from the
/// oldest order on. Every order ahead of the last one traded was filled completely
/// (or, being the taker's own, dropped), and only the last one traded may be left
/// partly filled at the head of the queue.
pub proof fn law_time_priority_within_level(
    q: Seq<RestingOrder>,
    taker_order_id: OrderId,
    taker: Address,
    taker_side: OrderSide,
    remaining: u64,
    fills: Seq<Fill>,
)
    ensures
        exists|d: int, x: int|
            swept_in_time_order(
                q,
                taker_order_id,
                taker,
                taker_side,
                fills,
                sweep_queue(q, taker_order_id, taker, taker_side, remaining, fills),
                d,
                x,
            ),
    decreases q.len(),
{
    let r = sweep_queue(q, taker_order_id, taker, taker_side, remaining, fills);
    if remaining == 0 || q.len() == 0 {
        assert(q.skip(0) =~= q);
        assert(q.take(0) =~= Seq::<RestingOrder>::empty());
        assert(fills + full_fills(q.take(0), taker_order_id, taker, taker_side) =~= fills);
        assert(swept_in_time_order(q, taker_order_id, taker, taker_side, fills, r, 0, 0));
    } else {
        let head = q[0];
        let q1 = q.drop_first();
        if head.maker == taker {
            law_time_priority_within_level(q1, taker_order_id, taker, taker_side, remaining, fills);
            let r1 = sweep_queue(q1, taker_order_id, taker, taker_side, remaining, fills);
            assert(r == r1);
            let (d1, x1) = choose|d1: int, x1: int|
                swept_in_time_order(q1, taker_order_id, taker, taker_side, fills, r1, d1, x1);
            let d = d1 + 1;
            assert(q.skip(d) =~= q1.skip(d1));
            assert(q.take(d).drop_first() =~= q1.take(d1));
            assert(q.take(d)[0] == head);
            assert(full_fills(q.take(d), taker_order_id, taker, taker_side) == full_fills(q1.take(d1), taker_order_id, taker, taker_side));
            if x1 != 0 {
                assert(q[d] == q1[d1]);
            }
            assert(swept_in_time_order(q, taker_order_id, taker, taker_side, fills, r, d, x1));
        } else if remaining < head.spec_remaining() {
            assert(q.skip(0) =~= q);
            assert(q.take(0) =~= Seq::<RestingOrder>::empty());
            assert(fills + full_fills(q.take(0), taker_order_id, taker, taker_side) =~= fills);
            assert(swept_in_time_order(q, taker_order_id, taker, taker_side, fills, r, 0, remaining as int));
        } else {
            let f = make_fill(head, taker_order_id, taker, taker_side, head.spec_remaining() as u64);
            let rem1 = (remaining - head.spec_remaining()) as u64;
            law_time_priority_within_level(q1, taker_order_id, taker, taker_side, rem1, fills.push(f));
            let r1 = sweep_queue(q1, taker_order_id, taker, taker_side, rem1, fills.push(f));
            assert(r == r1);
            let (d1, x1) = choose|d1: int, x1: int|
                swept_in_time_order(q1, taker_order_id, taker, taker_side, fills.push(f), r1, d1, x1);
            let d = d1 + 1;
            assert(q.skip(d) =~= q1.skip(d1));
            assert(q.take(d).drop_first() =~= q1.take(d1));
            assert(q.take(d)[0] == head);
            let ff1 = full_fills(q1.take(d1), taker_order_id, taker, taker_side);
            assert(full_fills(q.take(d), taker_order_id, taker, taker_side) == seq![f] + ff1);
            assert(fills.push(f) + ff1 =~= fills + (seq![f] + ff1));
            if x1 != 0 {
                assert(q[d] == q1[d1]);
            }
            assert(swept_in_time_order(q, taker_order_id, taker, taker_side, fills, r, d, x1));
        }
    }
}

/// First in, first out by sequence number: when a queue is in sequence order, every
/// order that a sweep of it consumed (or dropped as the taker's own) was placed before
/// every order the sweep leaves in the queue.
pub proof fn law_fifo_by_sequence(
    q: Seq<RestingOrder>,
    taker_order_id: OrderId,
    taker: Address,
    taker_side: OrderSide,
    remaining: u64,
    fills: Seq<Fill>,
    bound: u64,
)
    requires
        queue_seq_ordered(q, bound),
    ensures
        exists|d: int, x: int|
            #[trigger] swept_in_time_order(
                q,
                taker_order_id,
                taker,
                taker_side,
                fills,
                sweep_queue(q, taker_order_id, taker, taker_side, remaining, fills),
                d,
                x,
            ) && forall|a: int, b: int|
                0 <= a < d && 0 <= b < sweep_queue(q, taker_order_id, taker, taker_side, remaining, fills).0.len()
                    ==> (#[trigger] q[a]).seq < (#[trigger] sweep_queue(
                    q,
                    taker_order_id,
                    taker,
                    taker_side,
                    remaining,
                    fills,
                ).0[b]).seq,
{
    let r = sweep_queue(q, taker_order_id, taker, taker_side, remaining, fills);
    law_time_priority_within_level(q, taker_order_id, taker, taker_side, remaining, fills);
    let (d, x) = choose|d: int, x: int| swept_in_time_order(q, taker_order_id, taker, taker_side, fills, r, d, x);
    assert forall|a: int, b: int| 0 <= a < d && 0 <= b < r.0.len() implies (#[trigger] q[a]).seq < (
    #[trigger] r.0[b]).seq by {
        assert(r.0[b].seq == q[d + b].seq);
    }
}

/// Index of the best level for a taker: the lowest ask for a buyer, the highest bid for a seller.
pub open spec fn best_index(levels: Seq<LevelView>, taker_side: OrderSide) -> int {
    match taker_side {
        OrderSide::Buy => 0,
        OrderSide::Sell => levels.len() - 1,
    }
}

/// Whether a level at `level_price` is marketable for a taker with limit `limit`.
pub open spec fn crosses(level_price: u64, limit: u64, taker_side: OrderSide) -> bool {
    match taker_side {
        OrderSide::Buy => level_price <= limit,
        OrderSide::Sell => level_price >= limit,
    }
}

/// Matching of `remaining` against the opposite side of the book, best level first,
/// while the best level is marketable. A level emptied by matching is removed.
pub open spec fn sweep_levels(
    levels: Seq<LevelView>,
    taker_order_id: OrderId,
    taker: Address,
    taker_side: OrderSide,
    limit: u64,
    remaining: u64,
    fills: Seq<Fill>,
) -> (Seq<LevelView>, Seq<Fill>, u64)
    decreases levels.len(),
{
    if remaining == 0 || levels.len() == 0 {
        (levels, fills, remaining)
    } else {
        let i = best_index(levels, taker_side);
        let lvl = levels[i];
        if !crosses(lvl.0, limit, taker_side) {
            (levels, fills, remaining)
        } else {
            let r = sweep_queue(lvl.1, taker_order_id, taker, taker_side, remaining, fills);
            if r.0.len() == 0 {
                sweep_levels(
                    levels.remove(i),
                    taker_order_id,
                    taker,
                    taker_side,
                    limit,
                    r.2,
                    r.1,
                )
            } else {
                (levels.update(i, (lvl.0, r.0)), r.1, r.2)
            }
        }
    }
}

/// Matching a side keeps every queue in sequence order.
pub proof fn lemma_sweep_levels_seq(
    levels: Seq<LevelView>,
    taker_order_id: OrderId,
    taker: Address,
    taker_side: OrderSide,
    limit: u64,
    remaining: u64,
    fills: Seq<Fill>,
    bound: u64,
)
    requires
        levels_seq_ordered(levels, bound),
    ensures
        levels_seq_ordered(
            sweep_levels(levels, taker_order_id, taker, taker_side, limit, remaining, fills).0,
            bound,
        ),
    decreases levels.len(),
{
    if remaining == 0 || levels.len() == 0 {
    } else {
        let i = best_index(levels, taker_side);
        let lvl = levels[i];
        if crosses(lvl.0, limit, taker_side) {
            assert(queue_seq_ordered(lvl.1, bound));
            lemma_sweep_queue_seq(lvl.1, taker_order_id, taker, taker_side, remaining, fills, bound);
            let r = sweep_queue(lvl.1, taker_order_id, taker, taker_side, remaining, fills);
            if r.0.len() == 0 {
                let rm = levels.remove(i);
                assert forall|j: int| 0 <= j < rm.len() implies #[trigger] queue_seq_ordered(rm[j].1, bound) by {
                    if j < i {
                        assert(rm[j] == levels[j]);
                    } else {
                        assert(rm[j] == levels[j + 1]);
                    }
                }
                lemma_sweep_levels_seq(rm, taker_order_id, taker, taker_side, limit, r.2, r.1, bound);
            } else {
                let u = levels.update(i, (lvl.0, r.0));
                assert forall|j: int| 0 <= j < u.len() implies #[trigger] queue_seq_ordered(u[j].1, bound) by {
                    if j != i {
                        assert(u[j] == levels[j]);
                    }
                }
            }
        }
    }
}

/// Sum of the amounts of a sequence of fills.
pub open spec fn fills_total(fills: Seq<Fill>) -> int
    decreases fills.len(),
{
    if fills.len() == 0 {
        0
    } else {
        fills_total(fills.drop_last()) + fills.last().amount
    }
}

pub proof fn lemma_fills_total_push(fills: Seq<Fill>, f: Fill)
    ensures
        fills_total(fills.push(f)) == fills_total(fills) + f.amount,
{
    assert(fills.push(f).drop_last() =~= fills);
}

/// Matching one queue: the queue stays well formed, quantity is conserved,
/// the fills already made are kept, and every new fill trades against a maker
/// other than the taker, at the level's price.
pub proof fn lemma_sweep_queue(
    q: Seq<RestingOrder>,
    price: u64,
    taker_order_id: OrderId,
    taker: Address,
    taker_side: OrderSide,
    remaining: u64,
    fills: Seq<Fill>,
)
    requires
        queue_wf(q, price, taker_side.opposite()),
    ensures
        ({
            let r = sweep_queue(q, taker_order_id, taker, taker_side, remaining, fills);
            &&& queue_wf(r.0, price, taker_side.opposite())
            &&& fills_total(r.1) + r.2 == fills_total(fills) + remaining
            &&& r.2 <= remaining
            &&& r.1.len() >= fills.len()
            &&& r.1.subrange(0, fills.len() as int) == fills
            &&& forall|j: int|
                fills.len() <= j < r.1.len() ==> {
                    &&& (#[trigger] r.1[j]).maker != taker
                    &&& r.1[j].price == price
                    &&& r.1[j].taker == taker
                    &&& r.1[j].taker_order_id == taker_order_id
                    &&& r.1[j].taker_side == taker_side
                }
            &&& r.0.len() > 0 ==> r.2 == 0
        }),
    decreases q.len(),
{
    if remaining == 0 || q.len() == 0 {
        assert(fills.subrange(0, fills.len() as int) =~= fills);
    } else {
        let head = q[0];
        assert(order_fits(q[0], price, taker_side.opposite()));
        assert(queue_wf(q.drop_first(), price, taker_side.opposite())) by {
            assert forall|k: int| 0 <= k < q.drop_first().len() implies #[trigger] order_fits(
                q.drop_first()[k],
                price,
                taker_side.opposite(),
            ) by {
                assert(order_fits(q[k + 1], price, taker_side.opposite()));
            }
        }
        if head.maker == taker {
            lemma_sweep_queue(
                q.drop_first(),
                price,
                taker_order_id,
                taker,
                taker_side,
                remaining,
                fills,
            );
        } else if remaining < head.spec_remaining() {
            let nq = q.update(0, RestingOrder { filled: (head.filled + remaining) as u64, ..head });
            let f = make_fill(head, taker_order_id, taker, taker_side, remaining);
            lemma_fills_total_push(fills, f);
            assert(queue_wf(nq, price, taker_side.opposite())) by {
                assert forall|k: int| 0 <= k < nq.len() implies #[trigger] order_fits(
                    nq[k],
                    price,
                    taker_side.opposite(),
                ) by {
                    assert(order_fits(q[k], price, taker_side.opposite()));
                }
            }
            assert(fills.push(f).subrange(0, fills.len() as int) =~= fills);
        } else {
            let f = make_fill(head, taker_order_id, taker, taker_side, head.spec_remaining() as u64);
            lemma_fills_total_push(fills, f);
            let nf = fills.push(f);
            lemma_sweep_queue(
                q.drop_first(),
                price,
                taker_order_id,
                taker,
                taker_side,
                (remaining - head.spec_remaining()) as u64,
                nf,
            );
            let r = sweep_queue(
                q.drop_first(),
                taker_order_id,
                taker,
                taker_side,
                (remaining - head.spec_remaining()) as u64,
                nf,
            );
            assert(r.1.subrange(0, nf.len() as int) == nf);
            assert(r.1.subrange(0, fills.len() as int) =~= nf.subrange(0, fills.len() as int));
            assert(nf.subrange(0, fills.len() as int) =~= fills);
            assert(r.1[fills.len() as int] == nf[fills.len() as int]);
        }
    }
}

/// Whether price `a` is at least as good as price `b` for the taker:
/// not higher for a buyer, not lower for a seller.
pub open spec fn at_least_as_good(a: u64, b: u64, taker_side: OrderSide) -> bool {
    match taker_side {
        OrderSide::Buy => a <= b,
        OrderSide::Sell => a >= b,
    }
}

/// Matching against a side of the book: the side stays well formed, quantity is
/// conserved, the fills already made are kept, and every new fill trades against
/// a maker other than the taker, at a marketable price that is a price level of
/// the book; the new fills come in price priority order.
pub proof fn lemma_sweep_levels(
    levels: Seq<LevelView>,
    taker_order_id: OrderId,
    taker: Address,
    taker_side: OrderSide,
    limit: u64,
    remaining: u64,
    fills: Seq<Fill>,
)
    requires
        levels_wf(levels, taker_side.opposite()),
    ensures
        ({
            let r = sweep_levels(levels, taker_order_id, taker, taker_side, limit, remaining, fills);
            &&& levels_wf(r.0, taker_side.opposite())
            &&& fills_total(r.1) + r.2 == fills_total(fills) + remaining
            &&& r.2 <= remaining
            &&& r.1.len() >= fills.len()
            &&& r.1.subrange(0, fills.len() as int) == fills
            &&& forall|j: int|
                fills.len() <= j < r.1.len() ==> {
                    &&& (#[trigger] r.1[j]).maker != taker
                    &&& crosses(r.1[j].price, limit, taker_side)
                    &&& r.1[j].taker == taker
                    &&& r.1[j].taker_order_id == taker_order_id
                    &&& r.1[j].taker_side == taker_side
                    &&& exists|m: int| 0 <= m < levels.len() && levels[m].0 == r.1[j].price
                }
            &&& forall|j1: int, j2: int|
                fills.len() <= j1 <= j2 < r.1.len() ==> at_least_as_good(
                    (#[trigger] r.1[j1]).price,
                    (#[trigger] r.1[j2]).price,
                    taker_side,
                )
        }),
    decreases levels.len(),
{
    if remaining == 0 || levels.len() == 0 {
        assert(fills.subrange(0, fills.len() as int) =~= fills);
    } else {
        let i = best_index(levels, taker_side);
        let lvl = levels[i];
        assert(queue_wf(levels[i].1, levels[i].0, taker_side.opposite()));
        if !crosses(lvl.0, limit, taker_side) {
            assert(fills.subrange(0, fills.len() as int) =~= fills);
        } else {
            lemma_sweep_queue(lvl.1, lvl.0, taker_order_id, taker, taker_side, remaining, fills);
            let r = sweep_queue(lvl.1, taker_order_id, taker, taker_side, remaining, fills);
            if r.0.len() == 0 {
                let rest = levels.remove(i);
                assert(levels_wf(rest, taker_side.opposite())) by {
                    assert forall|a: int| 0 <= a < rest.len() implies #[trigger] queue_wf(
                        rest[a].1,
                        rest[a].0,
                        taker_side.opposite(),
                    ) by {
                        if a < i {
                            assert(rest[a] == levels[a]);
                            assert(queue_wf(levels[a].1, levels[a].0, taker_side.opposite()));
                        } else {
                            assert(rest[a] == levels[a + 1]);
                            assert(queue_wf(levels[a + 1].1, levels[a + 1].0, taker_side.opposite()));
                        }
                    }
                    assert forall|a: int, b: int| 0 <= a < b < rest.len() implies (#[trigger] rest[a]).0 < (#[trigger] rest[b]).0 by {
                        let a2 = if a < i { a } else { a + 1 };
                        let b2 = if b < i { b } else { b + 1 };
                        assert(rest[a] == levels[a2]);
                        assert(rest[b] == levels[b2]);
                        assert(levels[a2].0 < levels[b2].0);
                    }
                }
                lemma_sweep_levels(rest, taker_order_id, taker, taker_side, limit, r.2, r.1);
                let rr = sweep_levels(rest, taker_order_id, taker, taker_side, limit, r.2, r.1);
                assert(rr.1.subrange(0, fills.len() as int) =~= r.1.subrange(0, fills.len() as int));
                assert forall|j: int| fills.len() <= j < rr.1.len() implies {
                    &&& (#[trigger] rr.1[j]).maker != taker
                    &&& crosses(rr.1[j].price, limit, taker_side)
                    &&& rr.1[j].taker == taker
                    &&& rr.1[j].taker_order_id == taker_order_id
                    &&& rr.1[j].taker_side == taker_side
                    &&& exists|m: int| 0 <= m < levels.len() && levels[m].0 == rr.1[j].price
                } by {
                    if j < r.1.len() {
                        assert(rr.1[j] == rr.1.subrange(0, r.1.len() as int)[j]);
                        assert(rr.1[j] == r.1[j]);
                        assert(levels[i].0 == rr.1[j].price);
                    } else {
                        let m = choose|m: int| 0 <= m < rest.len() && rest[m].0 == rr.1[j].price;
                        if m < i {
                            assert(levels[m].0 == rr.1[j].price);
                        } else {
                            assert(levels[m + 1].0 == rr.1[j].price);
                        }
                        if taker_side is Buy {
                            assert(levels[0].0 < levels[m + 1].0);
                        } else {
                            assert(levels[m].0 < levels[levels.len() - 1].0);
                        }
                    }
                }
                assert forall|j1: int, j2: int|
                    fills.len() <= j1 <= j2 < rr.1.len() implies at_least_as_good(
                    (#[trigger] rr.1[j1]).price,
                    (#[trigger] rr.1[j2]).price,
                    taker_side,
                ) by {
                    if j1 < r.1.len() {
                        assert(rr.1[j1] == rr.1.subrange(0, r.1.len() as int)[j1]);
                        assert(rr.1[j1] == r.1[j1]);
                        if j2 < r.1.len() {
                            assert(rr.1[j2] == rr.1.subrange(0, r.1.len() as int)[j2]);
                            assert(rr.1[j2] == r.1[j2]);
                        } else {
                            let m = choose|m: int| 0 <= m < rest.len() && rest[m].0 == rr.1[j2].price;
                            if taker_side is Buy {
                                assert(rest[m] == levels[m + 1]);
                                assert(levels[0].0 < levels[m + 1].0);
                            } else {
                                assert(rest[m] == levels[m]);
                                assert(levels[m].0 < levels[levels.len() - 1].0);
                            }
                        }
                    }
                }
            } else {
                let nl = levels.update(i, (lvl.0, r.0));
                assert(levels_wf(nl, taker_side.opposite())) by {
                    assert forall|a: int| 0 <= a < nl.len() implies #[trigger] queue_wf(
                        nl[a].1,
                        nl[a].0,
                        taker_side.opposite(),
                    ) by {
                        if a != i {
                            assert(queue_wf(levels[a].1, levels[a].0, taker_side.opposite()));
                        }
                    }
                    assert forall|a: int, b: int| 0 <= a < b < nl.len() implies (#[trigger] nl[a]).0 < (#[trigger] nl[b]).0 by {
                        assert(levels[a].0 < levels[b].0);
                    }
                }
                assert forall|j: int| fills.len() <= j < r.1.len() implies exists|m: int|
                    0 <= m < levels.len() && levels[m].0 == (#[trigger] r.1[j]).price by {
                    assert(levels[i].0 == r.1[j].price);
                }
            }
        }
    }
}

/// Removing a level keeps a side well formed.
pub proof fn lemma_levels_remove_wf(levels: Seq<LevelView>, i: int, side: OrderSide)
    requires
        levels_wf(levels, side),
        0 <= i < levels.len(),
    ensures
        levels_wf(levels.remove(i), side),
{
    let rest = levels.remove(i);
    assert forall|a: int| 0 <= a < rest.len() implies #[trigger] queue_wf(
        rest[a].1,
        rest[a].0,
        side,
    ) by {
        if a < i {
            assert(rest[a] == levels[a]);
            assert(queue_wf(levels[a].1, levels[a].0, side));
        } else {
            assert(rest[a] == levels[a + 1]);
            assert(queue_wf(levels[a + 1].1, levels[a + 1].0, side));
        }
    }
    assert forall|a: int, b: int| 0 <= a < b < rest.len() implies (#[trigger] rest[a]).0 < (
    #[trigger] rest[b]).0 by {
        let a2 = if a < i {
            a
        } else {
            a + 1
        };
        let b2 = if b < i {
            b
        } else {
            b + 1
        };
        assert(rest[a] == levels[a2]);
        assert(rest[b] == levels[b2]);
        assert(levels[a2].0 < levels[b2].0);
    }
}

/// Executable matching of one queue; see `sweep_queue`.
fn sweep_queue_exec(
    orders: &mut VecDeque<RestingOrder>,
    taker_order_id: OrderId,
    taker: Address,
    taker_side: OrderSide,
    remaining: u64,
    fills: &mut Vec<Fill>,
) -> (left: u64)
    requires
        forall|k: int|
            0 <= k < old(orders)@.len() ==> (#[trigger] old(orders)@[k]).filled <= old(
                orders,
            )@[k].amount,
    ensures
        (final(orders)@, final(fills)@, left) == sweep_queue(
            old(orders)@,
            taker_order_id,
            taker,
            taker_side,
            remaining,
            old(fills)@,
        ),
{
    let ghost target = sweep_queue(
        orders@,
        taker_order_id,
        taker,
        taker_side,
        remaining,
        fills@,
    );
    let mut rem = remaining;
    while rem > 0 && orders.len() > 0
        invariant
            sweep_queue(orders@, taker_order_id, taker, taker_side, rem, fills@) == target,
            forall|k: int| 0 <= k < orders@.len() ==> (#[trigger] orders@[k]).filled <= orders@[k].amount,
        decreases orders.len(), rem,
    {
        let ghost q = orders@;
        let ghost fs = fills@;
        let head = orders[0];
        assert(head == q[0]);
        assert(q.subrange(1, q.len() as int) =~= q.drop_first());
        if head.maker.equals(&taker) {
            orders.pop_front();
        } else {
            let avail = head.amount - head.filled;
            let fill_amount = if rem < avail {
                rem
            } else {
                avail
            };
            let fill = Fill {
                maker_order_id: head.order_id,
                taker_order_id,
                maker: head.maker,
                taker,
                price: head.price,
                amount: fill_amount,
                taker_side,
                maker_done: fill_amount == avail,
            };
            assert(fill == make_fill(head, taker_order_id, taker, taker_side, fill_amount));
            if rem < avail {
                let updated = RestingOrder { filled: head.filled + rem, ..head };
                orders.pop_front();
                orders.push_front(updated);
                assert(orders@ =~= q.update(0, updated));
                fills.push(fill);
                rem = 0;
            } else {
                orders.pop_front();
                fills.push(fill);
                rem = rem - avail;
            }
        }
    }
    rem
}

/// Executable matching against one side of the book; see `sweep_levels`.
fn sweep_side(
    levels: &mut Vec<PriceLevel>,
    taker_order_id: OrderId,
    taker: Address,
    taker_side: OrderSide,
    limit: u64,
    amount: u64,
) -> (r: (Vec<Fill>, u64))
    requires
        levels_wf(levels_view(old(levels)@), taker_side.opposite()),
    ensures
        (levels_view(final(levels)@), r.0@, r.1) == sweep_levels(
            levels_view(old(levels)@),
            taker_order_id,
            taker,
            taker_side,
            limit,
            amount,
            Seq::empty(),
        ),
        levels_wf(levels_view(final(levels)@), taker_side.opposite()),
{
    let ghost start = levels_view(levels@);
    let ghost target = sweep_levels(
        start,
        taker_order_id,
        taker,
        taker_side,
        limit,
        amount,
        Seq::empty(),
    );
    proof {
        lemma_sweep_levels(start, taker_order_id, taker, taker_side, limit, amount, Seq::empty());
    }
    let mut fills: Vec<Fill> = Vec::new();
    let mut rem = amount;
    let mut done = false;
    while !done
        invariant
            !done ==> levels_wf(levels_view(levels@), taker_side.opposite()),
            !done ==> sweep_levels(
                levels_view(levels@),
                taker_order_id,
                taker,
                taker_side,
                limit,
                rem,
                fills@,
            ) == target,
            done ==> (levels_view(levels@), fills@, rem) == target,
            target == sweep_levels(
                start,
                taker_order_id,
                taker,
                taker_side,
                limit,
                amount,
                Seq::empty(),
            ),
            levels_wf(target.0, taker_side.opposite()),
        decreases levels@.len() + if done {
            0int
        } else {
            1int
        },
    {
        let ghost lv = levels_view(levels@);
        if rem == 0 || levels.len() == 0 {
            done = true;
        } else {
            let idx = match taker_side {
                OrderSide::Buy => 0,
                OrderSide::Sell => levels.len() - 1,
            };
            assert(idx == best_index(lv, taker_side));
            let p = levels[idx].price;
            assert(lv[idx as int] == levels@[idx as int]@);
            let cross = match taker_side {
                OrderSide::Buy => p <= limit,
                OrderSide::Sell => p >= limit,
            };
            if !cross {
                done = true;
            } else {
                assert(queue_wf(lv[idx as int].1, lv[idx as int].0, taker_side.opposite()));
                let ghost before = levels@;
                let mut level = levels.remove(idx);
                assert(levels_view(levels@) =~= lv.remove(idx as int));
                assert(level@ == lv[idx as int]);
                assert forall|k: int| 0 <= k < level.orders@.len() implies (
                #[trigger] level.orders@[k]).filled <= level.orders@[k].amount by {
                    assert(order_fits(lv[idx as int].1[k], lv[idx as int].0, taker_side.opposite()));
                }
                rem = sweep_queue_exec(&mut level.orders, taker_order_id, taker, taker_side, rem, &mut fills);
                if level.orders.len() == 0 {
                    proof {
                        lemma_levels_remove_wf(lv, idx as int, taker_side.opposite());
                    }
                } else {
                    let ghost mid = levels@;
                    levels.insert(idx, level);
                    assert(levels_view(levels@) =~= lv.update(idx as int, (p, level.orders@)));
                    done = true;
                }
            }
        }
    }
    (fills, rem)
}

/// Index at which a level of price `price` is found or would be inserted:
/// the number of leading levels priced below `price`.
pub open spec fn insert_position(levels: Seq<LevelView>, price: u64) -> int
    decreases levels.len(),
{
    if levels.len() == 0 {
        0
    } else if levels[0].0 < price {
        1 + insert_position(levels.drop_first(), price)
    } else {
        0
    }
}

/// A side after an order joins it: appended to the queue of its price level,
/// or in a new level at the sorted position.
pub open spec fn place_in_levels(levels: Seq<LevelView>, o: RestingOrder) -> Seq<LevelView> {
    let k = insert_position(levels, o.price);
    if k < levels.len() && levels[k].0 == o.price {
        levels.update(k, (o.price, levels[k].1.push(o)))
    } else {
        levels.insert(k, (o.price, seq![o]))
    }
}

/// Price priority of a sweep: every fill trades with a maker other than the taker at
/// that maker's level price, which is marketable for the taker's limit; fills come from
/// the best price on; the amount is split between fills and what is left; and when the
/// taker is not filled completely, no level left on the side is marketable.
pub proof fn law_sweep_price_priority(
    levels: Seq<LevelView>,
    taker_order_id: OrderId,
    taker: Address,
    taker_side: OrderSide,
    limit: u64,
    amount: u64,
)
    requires
        levels_wf(levels, taker_side.opposite()),
    ensures
        ({
            let r = sweep_levels(levels, taker_order_id, taker, taker_side, limit, amount, Seq::empty());
            &&& forall|j: int|
                0 <= j < r.1.len() ==> (#[trigger] r.1[j]).maker != taker && crosses(r.1[j].price, limit, taker_side)
                    && has_price(levels, r.1[j].price)
            &&& forall|j1: int, j2: int|
                0 <= j1 <= j2 < r.1.len() ==> at_least_as_good(
                    (#[trigger] r.1[j1]).price,
                    (#[trigger] r.1[j2]).price,
                    taker_side,
                )
            &&& fills_total(r.1) + r.2 == amount
            &&& r.2 > 0 ==> forall|k: int| 0 <= k < r.0.len() ==> !crosses((#[trigger] r.0[k]).0, limit, taker_side)
        }),
{
    let r = sweep_levels(levels, taker_order_id, taker, taker_side, limit, amount, Seq::empty());
    lemma_sweep_levels(levels, taker_order_id, taker, taker_side, limit, amount, Seq::empty());
    lemma_sweep_levels_prices(levels, taker_order_id, taker, taker_side, limit, amount, Seq::empty());
    assert(fills_total(Seq::<Fill>::empty()) == 0);
    assert forall|j: int| 0 <= j < r.1.len() implies (#[trigger] r.1[j]).maker != taker && crosses(
        r.1[j].price,
        limit,
        taker_side,
    ) && has_price(levels, r.1[j].price) by {
        let m = choose|m: int| 0 <= m < levels.len() && levels[m].0 == r.1[j].price;
        assert(levels[m].0 == r.1[j].price);
    }
    if r.2 > 0 {
        assert forall|k: int| 0 <= k < r.0.len() implies !crosses((#[trigger] r.0[k]).0, limit, taker_side) by {
            let b = best_index(r.0, taker_side);
            if k != b {
                match taker_side {
                    OrderSide::Buy => assert(r.0[b].0 < r.0[k].0),
                    OrderSide::Sell => assert(r.0[k].0 < r.0[b].0),
                }
            }
        }
    }
}

/// Placing an order numbered `bound` keeps every queue in sequence order, now below
/// `bound + 1`: it joins the back of its level or opens a level of its own.
pub proof fn lemma_place_seq(levels: Seq<LevelView>, o: RestingOrder, bound: u64)
    requires
        levels_seq_ordered(levels, bound),
        o.seq == bound,
        bound < u64::MAX,
    ensures
        levels_seq_ordered(place_in_levels(levels, o), (bound + 1) as u64),
{
    let k = insert_position(levels, o.price);
    let r = place_in_levels(levels, o);
    lemma_insert_position_bounds(levels, o.price);
    assert forall|j: int| 0 <= j < levels.len() implies #[trigger] queue_seq_ordered(levels[j].1, (bound + 1) as u64) by {
        assert(queue_seq_ordered(levels[j].1, bound));
    }
    if k < levels.len() && levels[k].0 == o.price {
        let q = levels[k].1;
        let q2 = q.push(o);
        assert(queue_seq_ordered(q, bound));
        assert forall|a: int, b: int| 0 <= a < b < q2.len() implies (#[trigger] q2[a]).seq < (#[trigger] q2[b]).seq by {
            if b < q.len() {
                assert(q2[a] == q[a] && q2[b] == q[b]);
            } else {
                assert(q2[a] == q[a]);
            }
        }
        assert forall|j: int| 0 <= j < r.len() implies #[trigger] queue_seq_ordered(r[j].1, (bound + 1) as u64) by {
            if j != k {
                assert(r[j] == levels[j]);
            } else {
                assert(r[j].1 == q2);
            }
        }
    } else {
        assert forall|j: int| 0 <= j < r.len() implies #[trigger] queue_seq_ordered(r[j].1, (bound + 1) as u64) by {
            if j < k {
                assert(r[j] == levels[j]);
            } else if j > k {
                assert(r[j] == levels[j - 1]);
            } else {
                assert(r[j].1 == seq![o]);
            }
        }
    }
}

proof fn lemma_insert_position(levels: Seq<LevelView>, price: u64, i: int)
    requires
        0 <= i <= levels.len(),
        forall|j: int| 0 <= j < i ==> (#[trigger] levels[j]).0 < price,
        i < levels.len() ==> levels[i].0 >= price,
    ensures
        insert_position(levels, price) == i,
    decreases i,
{
    if i > 0 {
        assert(levels[0].0 < price);
        let d = levels.drop_first();
        assert forall|j: int| 0 <= j < i - 1 implies (#[trigger] d[j]).0 < price by {
            assert(d[j] == levels[j + 1]);
        }
        lemma_insert_position(d, price, i - 1);
    }
}

/// Placing an order that fits its level keeps a side well formed.
pub proof fn lemma_place_wf(levels: Seq<LevelView>, o: RestingOrder, side: OrderSide, i: int)
    requires
        levels_wf(levels, side),
        order_fits(o, o.price, side),
        0 <= i <= levels.len(),
        forall|j: int| 0 <= j < i ==> (#[trigger] levels[j]).0 < o.price,
        i < levels.len() ==> levels[i].0 >= o.price,
    ensures
        insert_position(levels, o.price) == i,
        levels_wf(place_in_levels(levels, o), side),
{
    lemma_insert_position(levels, o.price, i);
    let r = place_in_levels(levels, o);
    if i < levels.len() && levels[i].0 == o.price {
        assert forall|a: int| 0 <= a < r.len() implies #[trigger] queue_wf(r[a].1, r[a].0, side) by {
            assert(queue_wf(levels[a].1, levels[a].0, side));
            if a == i {
                assert forall|k: int| 0 <= k < r[a].1.len() implies #[trigger] order_fits(
                    r[a].1[k],
                    r[a].0,
                    side,
                ) by {
                    if k < levels[a].1.len() {
                        assert(order_fits(levels[a].1[k], levels[a].0, side));
                    }
                }
            }
        }
        assert forall|a: int, b: int| 0 <= a < b < r.len() implies (#[trigger] r[a]).0 < (
        #[trigger] r[b]).0 by {
            assert(levels[a].0 < levels[b].0);
        }
    } else {
        assert forall|a: int| 0 <= a < r.len() implies #[trigger] queue_wf(r[a].1, r[a].0, side) by {
            if a < i {
                assert(r[a] == levels[a]);
                assert(queue_wf(levels[a].1, levels[a].0, side));
            } else if a > i {
                assert(r[a] == levels[a - 1]);
                assert(queue_wf(levels[a - 1].1, levels[a - 1].0, side));
            } else {
                assert forall|k: int| 0 <= k < r[a].1.len() implies #[trigger] order_fits(
                    r[a].1[k],
                    r[a].0,
                    side,
                ) by {
                    assert(r[a].1[k] == o);
                }
            }
        }
        assert forall|a: int, b: int| 0 <= a < b < r.len() implies (#[trigger] r[a]).0 < (
        #[trigger] r[b]).0 by {
            if b < i {
                assert(levels[a].0 < levels[b].0);
            } else if b == i {
                assert(levels[a].0 < o.price);
            } else if a == i {
                assert(levels[b - 1].0 >= o.price);
                assert(levels[b - 1].0 != o.price || b - 1 != i);
                if b - 1 > i {
                    assert(levels[i].0 < levels[b - 1].0);
                }
            } else if a < i {
                assert(levels[a].0 < levels[b - 1].0);
            } else {
                assert(levels[a - 1].0 < levels[b - 1].0);
            }
        }
    }
}

/// Executable insertion into one side; see `place_in_levels`.
fn place_exec(levels: &mut Vec<PriceLevel>, o: RestingOrder, side: OrderSide)
    requires
        levels_wf(levels_view(old(levels)@), side),
        order_fits(o, o.price, side),
    ensures
        levels_view(final(levels)@) == place_in_levels(levels_view(old(levels)@), o),
        levels_wf(levels_view(final(levels)@), side),
{
    let ghost lv = levels_view(levels@);
    let mut i: usize = 0;
    while i < levels.len() && levels[i].price < o.price
        invariant
            i <= levels@.len(),
            lv == levels_view(levels@),
            forall|j: int| 0 <= j < i ==> (#[trigger] lv[j]).0 < o.price,
        decreases levels@.len() - i,
    {
        assert(lv[i as int] == levels@[i as int]@);
        i = i + 1;
    }
    if i < levels.len() {
        assert(lv[i as int] == levels@[i as int]@);
    }
    proof {
        lemma_place_wf(lv, o, side, i as int);
    }
    if i < levels.len() && levels[i].price == o.price {
        let mut level = levels.remove(i);
        assert(level@ == lv[i as int]);
        level.orders.push_back(o);
        levels.insert(i, level);
        assert(levels_view(levels@) =~= lv.update(i as int, (o.price, lv[i as int].1.push(o))));
    } else {
        let mut orders: VecDeque<RestingOrder> = VecDeque::new();
        orders.push_back(o);
        let level = PriceLevel { price: o.price, orders };
        assert(level@ == (o.price, seq![o]));
        levels.insert(i, level);
        assert(levels_view(levels@) =~= lv.insert(i as int, (o.price, seq![o])));
    }
}

/// Whether a queue holds an order with identifier `id`.
pub open spec fn queue_has_id(q: Seq<RestingOrder>, id: OrderId) -> bool {
    exists|k: int| 0 <= k < q.len() && (#[trigger] q[k]).order_id == id
}

/// Whether a side holds an order with identifier `id`.
pub open spec fn levels_have_id(levels: Seq<LevelView>, id: OrderId) -> bool {
    exists|i: int| 0 <= i < levels.len() && #[trigger] queue_has_id(levels[i].1, id)
}

/// `(i, k)` is the first position of `id` in the side: lowest level index first,
/// then oldest order first.
pub open spec fn first_match(levels: Seq<LevelView>, id: OrderId, i: int, k: int) -> bool {
    &&& 0 <= i < levels.len()
    &&& 0 <= k < levels[i].1.len()
    &&& levels[i].1[k].order_id == id
    &&& forall|j: int| 0 <= j < i ==> !#[trigger] queue_has_id(levels[j].1, id)
    &&& forall|m: int| 0 <= m < k ==> (#[trigger] levels[i].1[m]).order_id != id
}

/// A side with the order at `(i, k)` removed; the level stays even if emptied.
pub open spec fn cancel_at(levels: Seq<LevelView>, i: int, k: int) -> Seq<LevelView> {
    levels.update(i, (levels[i].0, levels[i].1.remove(k)))
}

/// Removing one order keeps every queue in sequence order.
pub proof fn lemma_cancel_at_seq(levels: Seq<LevelView>, i: int, k: int, bound: u64)
    requires
        levels_seq_ordered(levels, bound),
        0 <= i < levels.len(),
        0 <= k < levels[i].1.len(),
    ensures
        levels_seq_ordered(cancel_at(levels, i, k), bound),
{
    let r = cancel_at(levels, i, k);
    let q = levels[i].1;
    let q2 = q.remove(k);
    assert(queue_seq_ordered(q, bound));
    assert forall|a: int, b: int| 0 <= a < b < q2.len() implies (#[trigger] q2[a]).seq < (#[trigger] q2[b]).seq by {
        let a0 = if a < k { a } else { a + 1 };
        let b0 = if b < k { b } else { b + 1 };
        assert(q2[a] == q[a0] && q2[b] == q[b0]);
    }
    assert forall|m: int| 0 <= m < q2.len() implies (#[trigger] q2[m]).seq < bound by {
        let m0 = if m < k { m } else { m + 1 };
        assert(q2[m] == q[m0]);
    }
    assert forall|j: int| 0 <= j < r.len() implies #[trigger] queue_seq_ordered(r[j].1, bound) by {
        if j != i {
            assert(r[j] == levels[j]);
        } else {
            assert(r[j].1 == q2);
        }
    }
}

/// Removing one order keeps a side well formed.
pub proof fn lemma_cancel_at_wf(levels: Seq<LevelView>, i: int, k: int, side: OrderSide)
    requires
        levels_wf(levels, side),
        0 <= i < levels.len(),
        0 <= k < levels[i].1.len(),
    ensures
        levels_wf(cancel_at(levels, i, k), side),
{
    let r = cancel_at(levels, i, k);
    assert forall|a: int| 0 <= a < r.len() implies #[trigger] queue_wf(r[a].1, r[a].0, side) by {
        assert(queue_wf(levels[a].1, levels[a].0, side));
        if a == i {
            assert forall|m: int| 0 <= m < r[a].1.len() implies #[trigger] order_fits(
                r[a].1[m],
                r[a].0,
                side,
            ) by {
                if m < k {
                    assert(order_fits(levels[a].1[m], levels[a].0, side));
                } else {
                    assert(order_fits(levels[a].1[m + 1], levels[a].0, side));
                }
            }
        }
    }
    assert forall|a: int, b: int| 0 <= a < b < r.len() implies (#[trigger] r[a]).0 < (
    #[trigger] r[b]).0 by {
        assert(levels[a].0 < levels[b].0);
    }
}

fn find_in_queue(q: &VecDeque<RestingOrder>, id: OrderId) -> (r: Option<usize>)
    ensures
        match r {
            Some(k) => {
                &&& k < q@.len()
                &&& q@[k as int].order_id == id
                &&& forall|m: int| 0 <= m < k ==> (#[trigger] q@[m]).order_id != id
            },
            None => !queue_has_id(q@, id),
        },
{
    let mut k: usize = 0;
    while k < q.len()
        invariant
            k <= q@.len(),
            forall|m: int| 0 <= m < k ==> (#[trigger] q@[m]).order_id != id,
        decreases q@.len() - k,
    {
        if q[k].order_id.equals(&id) {
            return Some(k);
        }
        k = k + 1;
    }
    None
}

/// Executable removal of the first order with `id` from one side.
fn cancel_exec(levels: &mut Vec<PriceLevel>, id: OrderId) -> (r: bool)
    ensures
        r == levels_have_id(levels_view(old(levels)@), id),
        r ==> exists|i: int, k: int|
            first_match(levels_view(old(levels)@), id, i, k) && levels_view(final(levels)@)
                == cancel_at(levels_view(old(levels)@), i, k),
        !r ==> final(levels)@ == old(levels)@,
{
    let ghost lv = levels_view(levels@);
    let mut i: usize = 0;
    while i < levels.len()
        invariant
            i <= levels@.len(),
            lv == levels_view(levels@),
            levels@ == old(levels)@,
            forall|j: int| 0 <= j < i ==> !#[trigger] queue_has_id(lv[j].1, id),
        decreases levels@.len() - i,
    {
        assert(lv[i as int] == levels@[i as int]@);
        match find_in_queue(&levels[i].orders, id) {
            Some(k) => {
                let mut level = levels.remove(i);
                level.orders.remove(k);
                levels.insert(i, level);
                assert(levels_view(levels@) =~= cancel_at(lv, i as int, k as int));
                assert(first_match(lv, id, i as int, k as int));
                assert(queue_has_id(lv[i as int].1, id));
                return true;
            },
            None => {},
        }
        i = i + 1;
    }
    false
}

/// Orders of a queue not owned by `maker`, in queue order.
pub open spec fn keep_others(q: Seq<RestingOrder>, maker: Address) -> Seq<RestingOrder>
    decreases q.len(),
{
    if q.len() == 0 {
        q
    } else {
        let rest = keep_others(q.drop_last(), maker);
        if q.last().maker == maker {
            rest
        } else {
            rest.push(q.last())
        }
    }
}

/// Every order `keep_others` keeps is an order of the queue, and the kept orders stay
/// in sequence order.
pub proof fn lemma_keep_others_seq(q: Seq<RestingOrder>, maker: Address, bound: u64)
    requires
        queue_seq_ordered(q, bound),
    ensures
        queue_seq_ordered(keep_others(q, maker), bound),
        forall|j: int|
            0 <= j < keep_others(q, maker).len() ==> exists|k: int|
                0 <= k < q.len() && q[k] == #[trigger] keep_others(q, maker)[j],
    decreases q.len(),
{
    if q.len() > 0 {
        let d = q.drop_last();
        assert(queue_seq_ordered(d, bound)) by {
            assert forall|a: int, b: int| 0 <= a < b < d.len() implies (#[trigger] d[a]).seq < (#[trigger] d[b]).seq by {
                assert(d[a] == q[a] && d[b] == q[b]);
            }
            assert forall|k: int| 0 <= k < d.len() implies (#[trigger] d[k]).seq < bound by {
                assert(d[k] == q[k]);
            }
        }
        lemma_keep_others_seq(d, maker, bound);
        let rest = keep_others(d, maker);
        let r = keep_others(q, maker);
        assert forall|j: int| 0 <= j < rest.len() implies (#[trigger] rest[j]).seq < q.last().seq by {
            let k = choose|k: int| 0 <= k < d.len() && d[k] == rest[j];
            assert(q[k] == d[k]);
        }
        if q.last().maker != maker {
            assert forall|a: int, b: int| 0 <= a < b < r.len() implies (#[trigger] r[a]).seq < (#[trigger] r[b]).seq by {
                assert(r[a] == rest[a]);
                if b < rest.len() {
                    assert(r[b] == rest[b]);
                }
            }
        }
        assert forall|j: int| 0 <= j < r.len() implies exists|k: int| 0 <= k < q.len() && q[k] == #[trigger] r[j] by {
            if j < rest.len() {
                assert(r[j] == rest[j]);
                let k = choose|k: int| 0 <= k < d.len() && d[k] == rest[j];
                assert(q[k] == d[k]);
            } else {
                assert(q[q.len() - 1] == r[j]);
            }
        }
    }
}

/// Removing every order of `maker` keeps every queue in sequence order.
pub proof fn lemma_strip_levels_seq(levels: Seq<LevelView>, maker: Address, bound: u64)
    requires
        levels_seq_ordered(levels, bound),
    ensures
        levels_seq_ordered(strip_levels(levels, maker), bound),
{
    let r = strip_levels(levels, maker);
    assert forall|j: int| 0 <= j < r.len() implies #[trigger] queue_seq_ordered(r[j].1, bound) by {
        assert(queue_seq_ordered(levels[j].1, bound));
        lemma_keep_others_seq(levels[j].1, maker, bound);
    }
}

/// Identifiers of the orders of a queue owned by `maker`, in queue order.
pub open spec fn ids_of(q: Seq<RestingOrder>, maker: Address) -> Seq<OrderId>
    decreases q.len(),
{
    if q.len() == 0 {
        Seq::empty()
    } else {
        let rest = ids_of(q.drop_last(), maker);
        if q.last().maker == maker {
            rest.push(q.last().order_id)
        } else {
            rest
        }
    }
}

/// A side with every order of `maker` removed; levels stay even if emptied.
pub open spec fn strip_levels(levels: Seq<LevelView>, maker: Address) -> Seq<LevelView> {
    Seq::new(levels.len(), |i: int| (levels[i].0, keep_others(levels[i].1, maker)))
}

/// Identifiers of the orders of `maker` in a side, level by level from the lowest price.
pub open spec fn ids_in_levels(levels: Seq<LevelView>, maker: Address) -> Seq<OrderId>
    decreases levels.len(),
{
    if levels.len() == 0 {
        Seq::empty()
    } else {
        ids_in_levels(levels.drop_last(), maker) + ids_of(levels.last().1, maker)
    }
}

proof fn lemma_keep_others_fits(q: Seq<RestingOrder>, maker: Address, price: u64, side: OrderSide)
    requires
        queue_wf(q, price, side),
    ensures
        queue_wf(keep_others(q, maker), price, side),
        forall|k: int| 0 <= k < keep_others(q, maker).len() ==> (#[trigger] keep_others(q, maker)[k]).maker != maker,
    decreases q.len(),
{
    if q.len() > 0 {
        assert(queue_wf(q.drop_last(), price, side)) by {
            assert forall|k: int| 0 <= k < q.drop_last().len() implies #[trigger] order_fits(
                q.drop_last()[k],
                price,
                side,
            ) by {
                assert(order_fits(q[k], price, side));
            }
        }
        lemma_keep_others_fits(q.drop_last(), maker, price, side);
        assert(order_fits(q[q.len() - 1], price, side));
    }
}

fn strip_queue(q: &VecDeque<RestingOrder>, maker: &Address, removed: &mut Vec<OrderId>) -> (kept: VecDeque<RestingOrder>)
    ensures
        kept@ == keep_others(q@, *maker),
        final(removed)@ == old(removed)@ + ids_of(q@, *maker),
{
    let mut kept: VecDeque<RestingOrder> = VecDeque::new();
    let ghost start = removed@;
    let mut k: usize = 0;
    while k < q.len()
        invariant
            k <= q@.len(),
            kept@ == keep_others(q@.take(k as int), *maker),
            removed@ == start + ids_of(q@.take(k as int), *maker),
        decreases q@.len() - k,
    {
        let o = q[k];
        assert(q@.take(k + 1).drop_last() =~= q@.take(k as int));
        assert(q@.take(k + 1).last() == o);
        if o.maker.equals(maker) {
            removed.push(o.order_id);
            assert(removed@ =~= start + ids_of(q@.take(k + 1), *maker));
        } else {
            kept.push_back(o);
        }
        k = k + 1;
    }
    assert(q@.take(q@.len() as int) =~= q@);
    kept
}

fn cancel_all_exec(levels: &mut Vec<PriceLevel>, maker: &Address, removed: &mut Vec<OrderId>)
    ensures
        levels_view(final(levels)@) == strip_levels(levels_view(old(levels)@), *maker),
        final(removed)@ == old(removed)@ + ids_in_levels(levels_view(old(levels)@), *maker),
{
    let ghost lv = levels_view(levels@);
    let ghost start = removed@;
    let mut out: Vec<PriceLevel> = Vec::new();
    let mut i: usize = 0;
    while i < levels.len()
        invariant
            i <= levels@.len(),
            lv == levels_view(levels@),
            levels_view(out@) == strip_levels(lv.take(i as int), *maker),
            out@.len() == i,
            removed@ == start + ids_in_levels(lv.take(i as int), *maker),
        decreases levels@.len() - i,
    {
        assert(lv[i as int] == levels@[i as int]@);
        let ghost before = removed@;
        let kept = strip_queue(&levels[i].orders, maker, removed);
        let price = levels[i].price;
        out.push(PriceLevel { price, orders: kept });
        assert(lv.take(i + 1).drop_last() =~= lv.take(i as int));
        assert(lv.take(i + 1).last() == lv[i as int]);
        assert(removed@ =~= start + ids_in_levels(lv.take(i + 1), *maker));
        assert forall|j: int| 0 <= j < i + 1 implies #[trigger] levels_view(out@)[j] == strip_levels(
            lv.take(i + 1),
            *maker,
        )[j] by {
            if j < i {
                assert(levels_view(out@)[j] == out@[j]@);
                assert(strip_levels(lv.take(i as int), *maker)[j] == (
                lv[j].0,
                keep_others(lv[j].1, *maker),
                ));
            } else {
                assert(levels_view(out@)[j] == out@[j]@);
            }
        }
        assert(levels_view(out@) =~= strip_levels(lv.take(i + 1), *maker));
        i = i + 1;
    }
    assert(lv.take(lv.len() as int) =~= lv);
    *levels = out;
}

/// The levels of a side that still hold orders, in order.
pub open spec fn nonempty_levels(levels: Seq<LevelView>) -> Seq<LevelView>
    decreases levels.len(),
{
    if levels.len() == 0 {
        levels
    } else {
        let rest = nonempty_levels(levels.drop_last());
        if levels.last().1.len() == 0 {
            rest
        } else {
            rest.push(levels.last())
        }
    }
}

proof fn lemma_nonempty_levels(levels: Seq<LevelView>, side: OrderSide)
    requires
        levels_wf(levels, side),
    ensures
        levels_wf(nonempty_levels(levels), side),
        forall|i: int| 0 <= i < nonempty_levels(levels).len() ==> (#[trigger] nonempty_levels(levels)[i]).1.len() > 0,
        forall|i: int|
            0 <= i < nonempty_levels(levels).len() ==> exists|j: int|
                0 <= j < levels.len() && levels[j] == #[trigger] nonempty_levels(levels)[i],
    decreases levels.len(),
{
    if levels.len() > 0 {
        let d = levels.drop_last();
        assert(levels_wf(d, side)) by {
            assert forall|a: int| 0 <= a < d.len() implies #[trigger] queue_wf(d[a].1, d[a].0, side) by {
                assert(queue_wf(levels[a].1, levels[a].0, side));
            }
            assert forall|a: int, b: int| 0 <= a < b < d.len() implies (#[trigger] d[a]).0 < (
            #[trigger] d[b]).0 by {
                assert(levels[a].0 < levels[b].0);
            }
        }
        lemma_nonempty_levels(d, side);
        let rest = nonempty_levels(d);
        let r = nonempty_levels(levels);
        assert forall|i: int| 0 <= i < rest.len() implies exists|j: int|
            0 <= j < levels.len() && levels[j] == #[trigger] rest[i] by {
            let j = choose|j: int| 0 <= j < d.len() && d[j] == rest[i];
            assert(levels[j] == rest[i]);
        }
        if levels.last().1.len() > 0 {
            let last = levels.len() - 1;
            assert(queue_wf(levels[last].1, levels[last].0, side));
            assert forall|a: int, b: int| 0 <= a < b < r.len() implies (#[trigger] r[a]).0 < (
            #[trigger] r[b]).0 by {
                if b == r.len() - 1 {
                    let j = choose|j: int| 0 <= j < d.len() && d[j] == rest[a];
                    assert(levels[j].0 < levels[last].0);
                } else {
                    assert(rest[a].0 < rest[b].0);
                }
            }
            assert forall|i: int| 0 <= i < r.len() implies exists|j: int|
                0 <= j < levels.len() && levels[j] == #[trigger] r[i] by {
                if i == r.len() - 1 {
                    assert(levels[last] == r[i]);
                } else {
                    assert(r[i] == rest[i]);
                }
            }
        }
    }
}

fn prune_exec(levels: &mut Vec<PriceLevel>)
    ensures
        levels_view(final(levels)@) == nonempty_levels(levels_view(old(levels)@)),
{
    let ghost lv = levels_view(levels@);
    let mut out: Vec<PriceLevel> = Vec::new();
    let ghost mut n: int = 0;
    while levels.len() > 0
        invariant
            0 <= n <= lv.len(),
            n + levels@.len() == lv.len(),
            levels_view(levels@) == lv.skip(n),
            levels_view(out@) == nonempty_levels(lv.take(n)),
        decreases levels@.len(),
    {
        let ghost before = levels@;
        assert(levels_view(before)[0] == before[0]@);
        assert(lv.skip(n)[0] == lv[n]);
        let level = levels.remove(0);
        assert(level@ == lv[n]);
        assert forall|k: int| 0 <= k < levels@.len() implies #[trigger] levels_view(levels@)[k]
            == lv.skip(n + 1)[k] by {
            assert(levels@[k] == before[k + 1]);
            assert(levels_view(before)[k + 1] == before[k + 1]@);
            assert(lv.skip(n)[k + 1] == lv[n + k + 1]);
        }
        assert(levels_view(levels@) =~= lv.skip(n + 1));
        assert(lv.take(n + 1).drop_last() =~= lv.take(n));
        assert(lv.take(n + 1).last() == lv[n]);
        if level.orders.len() > 0 {
            out.push(level);
            assert(levels_view(out@) =~= nonempty_levels(lv.take(n + 1)));
        }
        proof {
            n = n + 1;
        }
    }
    assert(lv.take(n) =~= lv);
    *levels = out;
}

/// Removing every order of a maker keeps a side well formed and leaves none of its orders.
pub proof fn lemma_strip_levels(levels: Seq<LevelView>, maker: Address, side: OrderSide)
    requires
        levels_wf(levels, side),
    ensures
        levels_wf(strip_levels(levels, maker), side),
        forall|i: int, k: int|
            0 <= i < levels.len() && 0 <= k < strip_levels(levels, maker)[i].1.len()
                ==> (#[trigger] strip_levels(levels, maker)[i].1[k]).maker != maker,
{
    let r = strip_levels(levels, maker);
    assert forall|a: int| 0 <= a < r.len() implies #[trigger] queue_wf(r[a].1, r[a].0, side) by {
        assert(queue_wf(levels[a].1, levels[a].0, side));
        lemma_keep_others_fits(levels[a].1, maker, levels[a].0, side);
    }
    assert forall|a: int, b: int| 0 <= a < b < r.len() implies (#[trigger] r[a]).0 < (
    #[trigger] r[b]).0 by {
        assert(levels[a].0 < levels[b].0);
    }
    assert forall|i: int, k: int|
        0 <= i < levels.len() && 0 <= k < r[i].1.len() implies (#[trigger] r[i].1[k]).maker
        != maker by {
        assert(queue_wf(levels[i].1, levels[i].0, side));
        lemma_keep_others_fits(levels[i].1, maker, levels[i].0, side);
    }
}

/// The first position of an id in a side is unique.
pub proof fn lemma_first_match_unique(levels: Seq<LevelView>, id: OrderId, i: int, k: int, i2: int, k2: int)
    requires
        first_match(levels, id, i, k),
        first_match(levels, id, i2, k2),
    ensures
        i == i2 && k == k2,
{
    if i < i2 {
        assert(queue_has_id(levels[i].1, id));
    } else if i2 < i {
        assert(queue_has_id(levels[i2].1, id));
    } else if k < k2 {
        assert(levels[i].1[k].order_id == id);
    } else if k2 < k {
        assert(levels[i].1[k2].order_id == id);
    }
}

proof fn lemma_queue_first(q: Seq<RestingOrder>, id: OrderId, k0: int) -> (k: int)
    requires
        0 <= k0 < q.len(),
        q[k0].order_id == id,
    ensures
        0 <= k <= k0,
        q[k].order_id == id,
        forall|m: int| 0 <= m < k ==> (#[trigger] q[m]).order_id != id,
    decreases k0,
{
    if exists|m: int| 0 <= m < k0 && (#[trigger] q[m]).order_id == id {
        let m = choose|m: int| 0 <= m < k0 && (#[trigger] q[m]).order_id == id;
        lemma_queue_first(q, id, m)
    } else {
        k0
    }
}

proof fn lemma_levels_first(levels: Seq<LevelView>, id: OrderId, i0: int) -> (i: int)
    requires
        0 <= i0 < levels.len(),
        queue_has_id(levels[i0].1, id),
    ensures
        0 <= i <= i0,
        queue_has_id(levels[i].1, id),
        forall|j: int| 0 <= j < i ==> !#[trigger] queue_has_id(levels[j].1, id),
    decreases i0,
{
    if exists|j: int| 0 <= j < i0 && #[trigger] queue_has_id(levels[j].1, id) {
        let j = choose|j: int| 0 <= j < i0 && #[trigger] queue_has_id(levels[j].1, id);
        lemma_levels_first(levels, id, j)
    } else {
        i0
    }
}

/// Every side holding an id has a first position of it.
pub proof fn lemma_first_match_exists(levels: Seq<LevelView>, id: OrderId)
    requires
        levels_have_id(levels, id),
    ensures
        exists|i: int, k: int| first_match(levels, id, i, k),
{
    let i0 = choose|i: int| 0 <= i < levels.len() && #[trigger] queue_has_id(levels[i].1, id);
    let i = lemma_levels_first(levels, id, i0);
    let q = levels[i].1;
    let k0 = choose|k: int| 0 <= k < q.len() && (#[trigger] q[k]).order_id == id;
    let k = lemma_queue_first(q, id, k0);
    assert(first_match(levels, id, i, k));
}

/// A side after cancelling the first order with `id`, if it holds one.
pub open spec fn cancel_side(levels: Seq<LevelView>, id: OrderId) -> Seq<LevelView> {
    if levels_have_id(levels, id) {
        let (i, k) = choose|i: int, k: int| first_match(levels, id, i, k);
        cancel_at(levels, i, k)
    } else {
        levels
    }
}

/// `cancel_side` is the removal at the first position.
pub proof fn lemma_cancel_side(levels: Seq<LevelView>, id: OrderId, i: int, k: int)
    requires
        first_match(levels, id, i, k),
    ensures
        cancel_side(levels, id) == cancel_at(levels, i, k),
{
    assert(queue_has_id(levels[i].1, id));
    let (i2, k2) = choose|i2: int, k2: int| first_match(levels, id, i2, k2);
    lemma_first_match_unique(levels, id, i, k, i2, k2);
}

/// Whether some level of a side has price `p`.
pub open spec fn has_price(levels: Seq<LevelView>, p: u64) -> bool {
    exists|m: int| 0 <= m < levels.len() && (#[trigger] levels[m]).0 == p
}

/// Every level left by matching is priced like a level of the side that was
/// matched, and if the taker is not filled, no level left is marketable.
pub proof fn lemma_sweep_levels_prices(
    levels: Seq<LevelView>,
    taker_order_id: OrderId,
    taker: Address,
    taker_side: OrderSide,
    limit: u64,
    remaining: u64,
    fills: Seq<Fill>,
)
    requires
        levels_wf(levels, taker_side.opposite()),
    ensures
        ({
            let r = sweep_levels(levels, taker_order_id, taker, taker_side, limit, remaining, fills);
            &&& forall|k: int| 0 <= k < r.0.len() ==> has_price(levels, (#[trigger] r.0[k]).0)
            &&& (r.2 > 0 && r.0.len() > 0) ==> !crosses(
                r.0[best_index(r.0, taker_side)].0,
                limit,
                taker_side,
            )
        }),
    decreases levels.len(),
{
    if remaining == 0 || levels.len() == 0 {
        assert forall|k: int| 0 <= k < levels.len() implies has_price(levels, (#[trigger] levels[k]).0) by {
            assert(levels[k].0 == levels[k].0);
        }
    } else {
        let i = best_index(levels, taker_side);
        let lvl = levels[i];
        assert(queue_wf(levels[i].1, levels[i].0, taker_side.opposite()));
        if !crosses(lvl.0, limit, taker_side) {
            assert forall|k: int| 0 <= k < levels.len() implies has_price(levels, (#[trigger] levels[k]).0) by {
                assert(levels[k].0 == levels[k].0);
            }
        } else {
            lemma_sweep_queue(lvl.1, lvl.0, taker_order_id, taker, taker_side, remaining, fills);
            let r = sweep_queue(lvl.1, taker_order_id, taker, taker_side, remaining, fills);
            if r.0.len() == 0 {
                let rest = levels.remove(i);
                lemma_levels_remove_wf(levels, i, taker_side.opposite());
                lemma_sweep_levels_prices(rest, taker_order_id, taker, taker_side, limit, r.2, r.1);
                let rr = sweep_levels(rest, taker_order_id, taker, taker_side, limit, r.2, r.1);
                assert forall|k: int| 0 <= k < rr.0.len() implies has_price(levels, (#[trigger] rr.0[k]).0) by {
                    let m = choose|m: int| 0 <= m < rest.len() && (#[trigger] rest[m]).0 == rr.0[k].0;
                    if m < i {
                        assert(levels[m].0 == rr.0[k].0);
                    } else {
                        assert(levels[m + 1].0 == rr.0[k].0);
                    }
                }
            } else {
                let nl = levels.update(i, (lvl.0, r.0));
                assert forall|k: int| 0 <= k < nl.len() implies has_price(levels, (#[trigger] nl[k]).0) by {
                    assert(levels[k].0 == nl[k].0);
                }
            }
        }
    }
}

proof fn lemma_insert_position_bounds(levels: Seq<LevelView>, price: u64)
    ensures
        0 <= insert_position(levels, price) <= levels.len(),
    decreases levels.len(),
{
    if levels.len() > 0 && levels[0].0 < price {
        lemma_insert_position_bounds(levels.drop_first(), price);
    }
}

/// Every level after placing an order is priced like an old level or like the order.
pub proof fn lemma_place_prices(levels: Seq<LevelView>, o: RestingOrder)
    ensures
        forall|k: int|
            0 <= k < place_in_levels(levels, o).len() ==> (#[trigger] place_in_levels(levels, o)[k]).0
                == o.price || has_price(levels, place_in_levels(levels, o)[k].0),
{
    let r = place_in_levels(levels, o);
    let pos = insert_position(levels, o.price);
    lemma_insert_position_bounds(levels, o.price);
    assert forall|k: int| 0 <= k < r.len() implies (#[trigger] r[k]).0 == o.price || has_price(levels, r[k].0) by {
        if pos < levels.len() && levels[pos].0 == o.price {
            if k != pos {
                assert(levels[k].0 == r[k].0);
            }
        } else if k < pos {
            assert(levels[k].0 == r[k].0);
        } else if k > pos {
            assert(levels[k - 1].0 == r[k].0);
        }
    }
}

/// Every bid level is priced strictly below every ask level.
pub open spec fn uncrossed(bids: Seq<LevelView>, asks: Seq<LevelView>) -> bool {
    forall|i: int, j: int| 0 <= i < bids.len() && 0 <= j < asks.len() ==> (#[trigger] bids[i]).0 < (#[trigger] asks[j]).0
}

/// Every level kept by `nonempty_levels` is a level of the input.
pub proof fn lemma_nonempty_members(levels: Seq<LevelView>)
    ensures
        forall|i: int|
            0 <= i < nonempty_levels(levels).len() ==> exists|j: int|
                0 <= j < levels.len() && levels[j] == #[trigger] nonempty_levels(levels)[i],
    decreases levels.len(),
{
    if levels.len() > 0 {
        let d = levels.drop_last();
        lemma_nonempty_members(d);
        let rest = nonempty_levels(d);
        let r = nonempty_levels(levels);
        assert forall|i: int| 0 <= i < r.len() implies exists|j: int|
            0 <= j < levels.len() && levels[j] == #[trigger] r[i] by {
            if i < rest.len() {
                assert(r[i] == rest[i]);
                let j = choose|j: int| 0 <= j < d.len() && d[j] == rest[i];
                assert(levels[j] == rest[i]);
            } else {
                assert(levels[levels.len() - 1] == r[i]);
            }
        }
    }
}

/// Dropping empty levels keeps every queue in sequence order.
pub proof fn lemma_nonempty_levels_seq(levels: Seq<LevelView>, bound: u64)
    requires
        levels_seq_ordered(levels, bound),
    ensures
        levels_seq_ordered(nonempty_levels(levels), bound),
{
    lemma_nonempty_members(levels);
    let r = nonempty_levels(levels);
    assert forall|i: int| 0 <= i < r.len() implies #[trigger] queue_seq_ordered(r[i].1, bound) by {
        let j = choose|j: int| 0 <= j < levels.len() && levels[j] == r[i];
        assert(queue_seq_ordered(levels[j].1, bound));
    }
}

/// Cancelling keeps the price of every level.
pub proof fn lemma_cancel_side_prices(levels: Seq<LevelView>, id: OrderId)
    ensures
        cancel_side(levels, id).len() == levels.len(),
        forall|k: int| 0 <= k < levels.len() ==> (#[trigger] cancel_side(levels, id)[k]).0 == levels[k].0,
{
    if levels_have_id(levels, id) {
        lemma_first_match_exists(levels, id);
        let (i, k) = choose|i: int, k: int| first_match(levels, id, i, k);
        lemma_cancel_side(levels, id, i, k);
    }
}

/// Levels sorted by strictly increasing price.
pub open spec fn levels_sorted(levels: Seq<LevelView>) -> bool {
    forall|i: int, j: int| 0 <= i < j < levels.len() ==> (#[trigger] levels[i]).0 < (#[trigger] levels[j]).0
}

/// Whether a side has a level at `price`.
pub open spec fn has_level(levels: Seq<LevelView>, price: u64) -> bool {
    exists|i: int| 0 <= i < levels.len() && (#[trigger] levels[i]).0 == price
}

/// The queue of the level at `price`, empty when the side has no such level.
pub open spec fn queue_at(levels: Seq<LevelView>, price: u64) -> Seq<RestingOrder> {
    if has_level(levels, price) {
        levels[choose|i: int| 0 <= i < levels.len() && (#[trigger] levels[i]).0 == price].1
    } else {
        Seq::empty()
    }
}

pub proof fn lemma_queue_at_index(levels: Seq<LevelView>, i: int)
    requires
        levels_sorted(levels),
        0 <= i < levels.len(),
    ensures
        queue_at(levels, levels[i].0) == levels[i].1,
{
    let p = levels[i].0;
    assert(has_level(levels, p));
    let c = choose|c: int| 0 <= c < levels.len() && (#[trigger] levels[c]).0 == p;
    if c < i {
        assert(levels[c].0 < levels[i].0);
    } else if c > i {
        assert(levels[i].0 < levels[c].0);
    }
}

proof fn lemma_insert_position_props(levels: Seq<LevelView>, price: u64)
    ensures
        0 <= insert_position(levels, price) <= levels.len(),
        forall|j: int| 0 <= j < insert_position(levels, price) ==> (#[trigger] levels[j]).0 < price,
        insert_position(levels, price) < levels.len() ==> levels[insert_position(levels, price)].0 >= price,
    decreases levels.len(),
{
    if levels.len() > 0 && levels[0].0 < price {
        let d = levels.drop_first();
        lemma_insert_position_props(d, price);
        assert forall|j: int| 0 <= j < insert_position(levels, price) implies (#[trigger] levels[j]).0 < price by {
            if j > 0 {
                assert(levels[j] == d[j - 1]);
            }
        }
        if insert_position(levels, price) < levels.len() {
            assert(levels[insert_position(levels, price)] == d[insert_position(d, price)]);
        }
    }
}

/// Placing an order on a sorted side keeps it sorted; the queue at the order's price
/// becomes its old contents (empty if there was no level) followed by the order, and
/// the queue at every other price is unchanged.
pub proof fn lemma_place_queue_at(levels: Seq<LevelView>, o: RestingOrder)
    requires
        levels_sorted(levels),
    ensures
        levels_sorted(place_in_levels(levels, o)),
        queue_at(place_in_levels(levels, o), o.price) == queue_at(levels, o.price).push(o),
        forall|p: u64| p != o.price ==> #[trigger] queue_at(place_in_levels(levels, o), p) == queue_at(levels, p),
{
    lemma_insert_position_props(levels, o.price);
    let k = insert_position(levels, o.price);
    let r = place_in_levels(levels, o);
    if k < levels.len() && levels[k].0 == o.price {
        assert forall|a: int, b: int| 0 <= a < b < r.len() implies (#[trigger] r[a]).0 < (#[trigger] r[b]).0 by {
            assert(levels[a].0 < levels[b].0);
        }
        lemma_queue_at_index(levels, k);
        lemma_queue_at_index(r, k);
        assert forall|p: u64| p != o.price implies #[trigger] queue_at(r, p) == queue_at(levels, p) by {
            if has_level(levels, p) {
                let i = choose|i: int| 0 <= i < levels.len() && (#[trigger] levels[i]).0 == p;
                lemma_queue_at_index(levels, i);
                assert(r[i] == levels[i]);
                lemma_queue_at_index(r, i);
            } else {
                if has_level(r, p) {
                    let i = choose|i: int| 0 <= i < r.len() && (#[trigger] r[i]).0 == p;
                    assert(levels[i].0 == p);
                }
            }
        }
    } else {
        assert forall|j: int| k <= j < levels.len() implies (#[trigger] levels[j]).0 > o.price by {
            if j > k {
                assert(levels[k].0 < levels[j].0);
            }
        }
        assert forall|a: int, b: int| 0 <= a < b < r.len() implies (#[trigger] r[a]).0 < (#[trigger] r[b]).0 by {
            if b < k {
                assert(levels[a].0 < levels[b].0);
            } else if b == k {
                assert(r[a] == levels[a]);
            } else if a == k {
                assert(r[b] == levels[b - 1]);
            } else if a < k {
                assert(r[a] == levels[a] && r[b] == levels[b - 1]);
            } else {
                assert(r[a] == levels[a - 1] && r[b] == levels[b - 1]);
                assert(levels[a - 1].0 < levels[b - 1].0);
            }
        }
        assert(r[k] == (o.price, seq![o]));
        lemma_queue_at_index(r, k);
        assert(!has_level(levels, o.price)) by {
            if has_level(levels, o.price) {
                let i = choose|i: int| 0 <= i < levels.len() && (#[trigger] levels[i]).0 == o.price;
                if i >= k {
                    assert(levels[i].0 > o.price);
                }
            }
        }
        assert(seq![o] =~= Seq::<RestingOrder>::empty().push(o));
        assert forall|p: u64| p != o.price implies #[trigger] queue_at(r, p) == queue_at(levels, p) by {
            if has_level(levels, p) {
                let i = choose|i: int| 0 <= i < levels.len() && (#[trigger] levels[i]).0 == p;
                lemma_queue_at_index(levels, i);
                if i < k {
                    assert(r[i] == levels[i]);
                    lemma_queue_at_index(r, i);
                } else {
                    assert(r[i + 1] == levels[i]);
                    lemma_queue_at_index(r, i + 1);
                }
            } else {
                if has_level(r, p) {
                    let i = choose|i: int| 0 <= i < r.len() && (#[trigger] r[i]).0 == p;
                    if i < k {
                        assert(levels[i].0 == p);
                    } else if i > k {
                        assert(r[i] == levels[i - 1]);
                        assert(levels[i - 1].0 == p);
                    }
                }
            }
        }
    }
}

/// What inserting `o` into `before` gives: the order, numbered with the book's
/// counter, joins the back of the queue at its price on its side; the counter rises by
/// one and the other side is unchanged.
pub open spec fn inserted(before: OrderBook, o: RestingOrder, after: OrderBook, placed: RestingOrder) -> bool {
    &&& placed == (RestingOrder { seq: before.seq_counter(), ..o })
    &&& after.seq_counter() == before.seq_counter() + 1
    &&& placed.side == OrderSide::Buy ==> after.bids() == place_in_levels(before.bids(), placed)
        && after.asks() == before.asks()
    &&& placed.side == OrderSide::Sell ==> after.asks() == place_in_levels(before.asks(), placed)
        && after.bids() == before.bids()
}

/// One side of a book.
pub open spec fn side_levels(b: OrderBook, side: OrderSide) -> Seq<LevelView> {
    match side {
        OrderSide::Buy => b.bids(),
        OrderSide::Sell => b.asks(),
    }
}

proof fn lemma_insert_run_sorted(books: Seq<OrderBook>, given: Seq<RestingOrder>, placed: Seq<RestingOrder>, n: int)
    requires
        books.len() == given.len() + 1,
        placed.len() == given.len(),
        books[0].bids() == Seq::<LevelView>::empty(),
        books[0].asks() == Seq::<LevelView>::empty(),
        forall|j: int| 0 <= j < given.len() ==> #[trigger] inserted(books[j], given[j], books[j + 1], placed[j]),
        0 <= n < books.len(),
    ensures
        levels_sorted(books[n].bids()),
        levels_sorted(books[n].asks()),
    decreases n,
{
    if n > 0 {
        lemma_insert_run_sorted(books, given, placed, n - 1);
        assert(inserted(books[n - 1], given[n - 1], books[(n - 1) + 1], placed[n - 1]));
        lemma_place_queue_at(books[n - 1].bids(), placed[n - 1]);
        lemma_place_queue_at(books[n - 1].asks(), placed[n - 1]);
    }
}

/// Inserting into a book, from a new one on: the order inserted `j`-th (from 0)
/// receives sequence number `j`, so later inserts get strictly larger numbers, and
/// after `n` inserts the next number is `n`; each insert appends the order, so
/// numbered, to the queue at its price on its side (a queue that was empty if the
/// level did not exist), and leaves the queue at every other price and side as it was.
pub proof fn law_inserts_are_numbered_in_turn(
    books: Seq<OrderBook>,
    given: Seq<RestingOrder>,
    placed: Seq<RestingOrder>,
)
    requires
        books.len() == given.len() + 1,
        placed.len() == given.len(),
        books[0].seq_counter() == 0,
        books[0].bids() == Seq::<LevelView>::empty(),
        books[0].asks() == Seq::<LevelView>::empty(),
        forall|j: int| 0 <= j < given.len() ==> #[trigger] inserted(books[j], given[j], books[j + 1], placed[j]),
    ensures
        forall|j: int| 0 <= j < placed.len() ==> (#[trigger] placed[j]) == (RestingOrder { seq: j as u64, ..given[j] }),
        forall|a: int, b: int| 0 <= a < b < placed.len() ==> (#[trigger] placed[a]).seq < (#[trigger] placed[b]).seq,
        books.last().seq_counter() == given.len(),
        forall|j: int, side: OrderSide, p: u64|
            0 <= j < placed.len() ==> #[trigger] queue_at(side_levels(books[j + 1], side), p) == if side
                == placed[j].side && p == placed[j].price {
                queue_at(side_levels(books[j], side), p).push(placed[j])
            } else {
                queue_at(side_levels(books[j], side), p)
            },
    decreases given.len(),
{
    let n = given.len();
    if n > 0 {
        assert forall|j: int| 0 <= j < n - 1 implies #[trigger] inserted(books.drop_last()[j], given.drop_last()[j], books.drop_last()[j + 1], placed.drop_last()[j]) by {
            assert(inserted(books[j], given[j], books[j + 1], placed[j]));
        }
        law_inserts_are_numbered_in_turn(books.drop_last(), given.drop_last(), placed.drop_last());
        assert(inserted(books[n - 1], given[n - 1], books[n as int], placed[n - 1]));
        assert(books.drop_last().last() == books[n - 1]);
        assert forall|j: int| 0 <= j < placed.len() implies (#[trigger] placed[j]) == (RestingOrder { seq: j as u64, ..given[j] }) by {
            if j < n - 1 {
                assert(placed.drop_last()[j] == placed[j]);
                assert(given.drop_last()[j] == given[j]);
            }
        }
    }
    assert forall|j: int, side: OrderSide, p: u64| 0 <= j < placed.len() implies #[trigger] queue_at(
        side_levels(books[j + 1], side),
        p,
    ) == if side == placed[j].side && p == placed[j].price {
        queue_at(side_levels(books[j], side), p).push(placed[j])
    } else {
        queue_at(side_levels(books[j], side), p)
    } by {
        assert(inserted(books[j], given[j], books[j + 1], placed[j]));
        lemma_insert_run_sorted(books, given, placed, j);
        lemma_place_queue_at(books[j].bids(), placed[j]);
        lemma_place_queue_at(books[j].asks(), placed[j]);
    }
}

/// Per-position order book. Both sides keep their levels sorted by increasing
/// price: the best bid is the last bid level, the best ask the first ask level.
#[derive(Debug)]
pub struct OrderBook {
    buys: Vec<PriceLevel>,
    sells: Vec<PriceLevel>,
    next_seq: u64,
}

impl OrderBook {
    /// The bid levels, lowest price first.
    pub closed spec fn bids(&self) -> Seq<LevelView> {
        levels_view(self.buys@)
    }

    /// The ask levels, lowest price first.
    pub closed spec fn asks(&self) -> Seq<LevelView> {
        levels_view(self.sells@)
    }

    /// The sequence number the next inserted order receives.
    pub closed spec fn seq_counter(&self) -> u64 {
        self.next_seq
    }

    /// Both sides sorted, every resting order on its own side, at its level's
    /// price, and not overfilled; along every queue sequence numbers rise from the
    /// front, and all lie below the next one to be given out.
    pub open spec fn wf(&self) -> bool {
        &&& levels_wf(self.bids(), OrderSide::Buy)
        &&& levels_wf(self.asks(), OrderSide::Sell)
        &&& levels_seq_ordered(self.bids(), self.seq_counter())
        &&& levels_seq_ordered(self.asks(), self.seq_counter())
    }

    /// An empty book.
    pub fn new() -> (book: OrderBook)
        ensures
            book.wf(),
            book.bids() == Seq::<LevelView>::empty(),
            book.asks() == Seq::<LevelView>::empty(),
            book.seq_counter() == 0,
    {
        let book = OrderBook { buys: Vec::new(), sells: Vec::new(), next_seq: 0 };
        assert(book.bids() =~= Seq::<LevelView>::empty());
        assert(book.asks() =~= Seq::<LevelView>::empty());
        book
    }

    /// The sequence number the next inserted order receives.
    pub fn next_seq(&self) -> (r: u64)
        ensures
            r == self.seq_counter(),
    {
        self.next_seq
    }

    /// Insert a resting order: it receives the next sequence number and joins the
    /// back of the queue at its price on its side.
    pub fn insert(&mut self, order: &mut RestingOrder)
        requires
            old(self).wf(),
            old(self).seq_counter() < u64::MAX,
            old(order).filled <= old(order).amount,
        ensures
            final(self).wf(),
            inserted(*old(self), *old(order), *final(self), *final(order)),
    {
        proof {
            let b = self.next_seq;
            lemma_seq_bound_raise(self.bids(), b, (b + 1) as u64);
            lemma_seq_bound_raise(self.asks(), b, (b + 1) as u64);
            lemma_place_seq(self.bids(), RestingOrder { seq: b, ..*order }, b);
            lemma_place_seq(self.asks(), RestingOrder { seq: b, ..*order }, b);
        }
        order.seq = self.next_seq;
        self.next_seq = self.next_seq + 1;
        let o = *order;
        match o.side {
            OrderSide::Buy => place_exec(&mut self.buys, o, OrderSide::Buy),
            OrderSide::Sell => place_exec(&mut self.sells, o, OrderSide::Sell),
        }
    }

    /// Match an incoming buy order against the sell side. Returns the fills and
    /// whether the order was fully filled.
    pub fn match_buy(
        &mut self,
        taker_order_id: OrderId,
        taker: Address,
        price: u64,
        amount: u64,
    ) -> (r: (Vec<Fill>, bool))
        requires
            old(self).wf(),
        ensures
            final(self).wf(),
            final(self).bids() == old(self).bids(),
            final(self).seq_counter() == old(self).seq_counter(),
            ({
                let s = sweep_levels(
                    old(self).asks(),
                    taker_order_id,
                    taker,
                    OrderSide::Buy,
                    price,
                    amount,
                    Seq::empty(),
                );
                &&& final(self).asks() == s.0
                &&& r.0@ == s.1
                &&& r.1 == (s.2 == 0)
                &&& fills_total(r.0@) + s.2 == amount
            }),
    {
        proof {
            lemma_sweep_levels(
                self.asks(),
                taker_order_id,
                taker,
                OrderSide::Buy,
                price,
                amount,
                Seq::empty(),
            );
            lemma_sweep_levels_seq(
                self.asks(),
                taker_order_id,
                taker,
                OrderSide::Buy,
                price,
                amount,
                Seq::empty(),
                self.seq_counter(),
            );
        }
        let (fills, left) = sweep_side(
            &mut self.sells,
            taker_order_id,
            taker,
            OrderSide::Buy,
            price,
            amount,
        );
        (fills, left == 0)
    }

    /// Match an incoming sell order against the buy side. Returns the fills and
    /// whether the order was fully filled.
    pub fn match_sell(
        &mut self,
        taker_order_id: OrderId,
        taker: Address,
        price: u64,
        amount: u64,
    ) -> (r: (Vec<Fill>, bool))
        requires
            old(self).wf(),
        ensures
            final(self).wf(),
            final(self).asks() == old(self).asks(),
            final(self).seq_counter() == old(self).seq_counter(),
            ({
                let s = sweep_levels(
                    old(self).bids(),
                    taker_order_id,
                    taker,
                    OrderSide::Sell,
                    price,
                    amount,
                    Seq::empty(),
                );
                &&& final(self).bids() == s.0
                &&& r.0@ == s.1
                &&& r.1 == (s.2 == 0)
                &&& fills_total(r.0@) + s.2 == amount
            }),
    {
        proof {
            lemma_sweep_levels(
                self.bids(),
                taker_order_id,
                taker,
                OrderSide::Sell,
                price,
                amount,
                Seq::empty(),
            );
            lemma_sweep_levels_seq(
                self.bids(),
                taker_order_id,
                taker,
                OrderSide::Sell,
                price,
                amount,
                Seq::empty(),
                self.seq_counter(),
            );
        }
        let (fills, left) = sweep_side(
            &mut self.buys,
            taker_order_id,
            taker,
            OrderSide::Sell,
            price,
            amount,
        );
        (fills, left == 0)
    }

    /// Cancel the first resting order with `order_id`, bids searched before asks,
    /// lower prices first, older orders first. Returns whether one was removed.
    /// An emptied level stays until `prune`.
    pub fn cancel(&mut self, order_id: OrderId) -> (r: bool)
        requires
            old(self).wf(),
        ensures
            final(self).wf(),
            final(self).seq_counter() == old(self).seq_counter(),
            r == (levels_have_id(old(self).bids(), order_id) || levels_have_id(
                old(self).asks(),
                order_id,
            )),
            levels_have_id(old(self).bids(), order_id) ==> final(self).asks() == old(self).asks()
                && exists|i: int, k: int|
                first_match(old(self).bids(), order_id, i, k) && final(self).bids() == cancel_at(
                    old(self).bids(),
                    i,
                    k,
                ),
            !levels_have_id(old(self).bids(), order_id) ==> final(self).bids() == old(
                self,
            ).bids(),
            !levels_have_id(old(self).bids(), order_id) && levels_have_id(
                old(self).asks(),
                order_id,
            ) ==> exists|i: int, k: int|
                first_match(old(self).asks(), order_id, i, k) && final(self).asks() == cancel_at(
                    old(self).asks(),
                    i,
                    k,
                ),
            !r ==> final(self).asks() == old(self).asks(),
            levels_have_id(old(self).bids(), order_id) ==> final(self).bids() == cancel_side(
                old(self).bids(),
                order_id,
            ),
            !levels_have_id(old(self).bids(), order_id) ==> final(self).asks() == cancel_side(
                old(self).asks(),
                order_id,
            ),
    {
        let ghost b0 = self.bids();
        let ghost a0 = self.asks();
        if cancel_exec(&mut self.buys, order_id) {
            proof {
                let (i, k) = choose|i: int, k: int|
                    first_match(b0, order_id, i, k) && self.bids() == cancel_at(b0, i, k);
                lemma_cancel_at_wf(b0, i, k, OrderSide::Buy);
                lemma_cancel_at_seq(b0, i, k, self.seq_counter());
                lemma_cancel_side(b0, order_id, i, k);
            }
            return true;
        }
        let found = cancel_exec(&mut self.sells, order_id);
        if found {
            proof {
                let (i, k) = choose|i: int, k: int|
                    first_match(a0, order_id, i, k) && self.asks() == cancel_at(a0, i, k);
                lemma_cancel_at_wf(a0, i, k, OrderSide::Sell);
                lemma_cancel_at_seq(a0, i, k, self.seq_counter());
                lemma_cancel_side(a0, order_id, i, k);
            }
        }
        found
    }

    /// Cancel every resting order of `maker`, bids then asks, lower prices first,
    /// older orders first. Returns the removed order ids in that order.
    /// Emptied levels stay until `prune`.
    pub fn cancel_all(&mut self, maker: Address) -> (removed: Vec<OrderId>)
        requires
            old(self).wf(),
        ensures
            final(self).wf(),
            final(self).seq_counter() == old(self).seq_counter(),
            final(self).bids() == strip_levels(old(self).bids(), maker),
            final(self).asks() == strip_levels(old(self).asks(), maker),
            removed@ == ids_in_levels(old(self).bids(), maker) + ids_in_levels(
                old(self).asks(),
                maker,
            ),
    {
        proof {
            lemma_strip_levels(self.bids(), maker, OrderSide::Buy);
            lemma_strip_levels(self.asks(), maker, OrderSide::Sell);
            lemma_strip_levels_seq(self.bids(), maker, self.seq_counter());
            lemma_strip_levels_seq(self.asks(), maker, self.seq_counter());
        }
        let mut removed: Vec<OrderId> = Vec::new();
        cancel_all_exec(&mut self.buys, &maker, &mut removed);
        cancel_all_exec(&mut self.sells, &maker, &mut removed);
        assert(removed@ =~= ids_in_levels(old(self).bids(), maker) + ids_in_levels(
            old(self).asks(),
            maker,
        ));
        removed
    }

    /// Remove empty price levels.
    pub fn prune(&mut self)
        requires
            old(self).wf(),
        ensures
            final(self).wf(),
            final(self).seq_counter() == old(self).seq_counter(),
            final(self).bids() == nonempty_levels(old(self).bids()),
            final(self).asks() == nonempty_levels(old(self).asks()),
            forall|i: int| 0 <= i < final(self).bids().len() ==> (#[trigger] final(self).bids()[i]).1.len() > 0,
            forall|i: int| 0 <= i < final(self).asks().len() ==> (#[trigger] final(self).asks()[i]).1.len() > 0,
    {
        proof {
            lemma_nonempty_levels(self.bids(), OrderSide::Buy);
            lemma_nonempty_levels(self.asks(), OrderSide::Sell);
            lemma_nonempty_levels_seq(self.bids(), self.seq_counter());
            lemma_nonempty_levels_seq(self.asks(), self.seq_counter());
        }
        prune_exec(&mut self.buys);
        prune_exec(&mut self.sells);
    }

    /// Price of the highest bid level, if any.
    pub fn best_bid(&self) -> (r: Option<u64>)
        ensures
            r == if self.bids().len() == 0 {
                None
            } else {
                Some(self.bids().last().0)
            },
    {
        if self.buys.len() == 0 {
            None
        } else {
            Some(self.buys[self.buys.len() - 1].price)
        }
    }

    /// Price of the lowest ask level, if any.
    pub fn best_ask(&self) -> (r: Option<u64>)
        ensures
            r == if self.asks().len() == 0 {
                None
            } else {
                Some(self.asks()[0].0)
            },
    {
        if self.sells.len() == 0 {
            None
        } else {
            Some(self.sells[0].price)
        }
    }
}

} // verus!
