//! Laws of the order book's operations stated against plain sequence operations: what
//! cancelling a maker's orders keeps, what pruning drops, and what matching leaves.
use crate::book::{
    best_index, crosses, fills_total, has_level, ids_of, keep_others, lemma_nonempty_members, lemma_place_queue_at,
    lemma_queue_at_index, lemma_sweep_levels, levels_sorted, levels_wf, nonempty_levels, place_in_levels, queue_at,
    strip_levels, sweep_levels, sweep_queue, Fill, LevelView, RestingOrder,
};
use crate::engine::{insert_state, place_outcome, prune_state, state_wf, BookState};
use crate::rebuild::{rows_state, OpenOrderRow};
use crate::types::{Address, OrderId, OrderSide, PositionId};
use vstd::prelude::*;

verus! {

/// Whether an order is not `maker`'s.
pub open spec fn not_by(maker: Address) -> spec_fn(RestingOrder) -> bool {
    |o: RestingOrder| o.maker != maker
}

/// Whether a level holds any order.
pub open spec fn holds_orders() -> spec_fn(LevelView) -> bool {
    |l: LevelView| l.1.len() > 0
}

/// Cancelling every order of a maker keeps every other maker's order: each queue
/// becomes exactly the queue with the maker's orders filtered out, the other orders in
/// their order, at the same level.
pub proof fn law_cancel_all_keeps_other_makers(levels: Seq<LevelView>, maker: Address)
    ensures
        strip_levels(levels, maker).len() == levels.len(),
        forall|i: int|
            0 <= i < levels.len() ==> #[trigger] strip_levels(levels, maker)[i] == (
                levels[i].0,
                levels[i].1.filter(not_by(maker)),
            ),
{
    assert forall|i: int| 0 <= i < levels.len() implies #[trigger] strip_levels(levels, maker)[i] == (
        levels[i].0,
        levels[i].1.filter(not_by(maker)),
    ) by {
        lemma_keep_others_filter(levels[i].1, maker);
    }
}

proof fn lemma_keep_others_filter(q: Seq<RestingOrder>, maker: Address)
    ensures
        keep_others(q, maker) == q.filter(not_by(maker)),
    decreases q.len(),
{
    reveal(Seq::filter);
    if q.len() > 0 {
        lemma_keep_others_filter(q.drop_last(), maker);
    }
}

/// Pruning drops exactly the empty levels: the pruned side is the subsequence of the
/// levels that hold orders, in order.
pub proof fn law_prune_drops_only_empty_levels(levels: Seq<LevelView>)
    ensures
        nonempty_levels(levels) == levels.filter(holds_orders()),
    decreases levels.len(),
{
    reveal(Seq::filter);
    if levels.len() > 0 {
        law_prune_drops_only_empty_levels(levels.drop_last());
    }
}

proof fn lemma_queue_at_push(s: Seq<LevelView>, x: LevelView, p: u64)
    requires
        levels_sorted(s.push(x)),
        p != x.0,
    ensures
        queue_at(s.push(x), p) == queue_at(s, p),
{
    let t = s.push(x);
    assert(levels_sorted(s)) by {
        assert forall|i: int, j: int| 0 <= i < j < s.len() implies (#[trigger] s[i]).0 < (#[trigger] s[j]).0 by {
            assert(t[i] == s[i] && t[j] == s[j]);
        }
    }
    if has_level(s, p) {
        let i = choose|i: int| 0 <= i < s.len() && (#[trigger] s[i]).0 == p;
        lemma_queue_at_index(s, i);
        assert(t[i] == s[i]);
        lemma_queue_at_index(t, i);
    } else if has_level(t, p) {
        let i = choose|i: int| 0 <= i < t.len() && (#[trigger] t[i]).0 == p;
        if i < s.len() {
            assert(t[i] == s[i]);
        }
    }
}

/// Pruning loses no order: on a sorted side, the pruned side is sorted and the queue at
/// every price is what it was (a dropped level's queue was empty anyway).
pub proof fn law_prune_keeps_every_queue(levels: Seq<LevelView>)
    requires
        levels_sorted(levels),
    ensures
        levels_sorted(nonempty_levels(levels)),
        forall|p: u64| #[trigger] queue_at(nonempty_levels(levels), p) == queue_at(levels, p),
    decreases levels.len(),
{
    if levels.len() > 0 {
        let d = levels.drop_last();
        let x = levels.last();
        assert(levels =~= d.push(x));
        assert(levels_sorted(d)) by {
            assert forall|i: int, j: int| 0 <= i < j < d.len() implies (#[trigger] d[i]).0 < (#[trigger] d[j]).0 by {
                assert(levels[i] == d[i] && levels[j] == d[j]);
            }
        }
        law_prune_keeps_every_queue(d);
        lemma_nonempty_members(d);
        let nd = nonempty_levels(d);
        let n = nonempty_levels(levels);
        assert forall|k: int| 0 <= k < nd.len() implies (#[trigger] nd[k]).0 < x.0 by {
            let j = choose|j: int| 0 <= j < d.len() && d[j] == nd[k];
            assert(levels[j] == d[j]);
            assert(levels[levels.len() - 1] == x);
        }
        if x.1.len() > 0 {
            assert(n == nd.push(x));
            assert forall|i: int, j: int| 0 <= i < j < n.len() implies (#[trigger] n[i]).0 < (#[trigger] n[j]).0 by {
                if j < nd.len() {
                    assert(n[i] == nd[i] && n[j] == nd[j]);
                } else {
                    assert(n[i] == nd[i]);
                }
            }
            assert forall|p: u64| #[trigger] queue_at(n, p) == queue_at(levels, p) by {
                if p == x.0 {
                    lemma_queue_at_index(n, n.len() - 1);
                    lemma_queue_at_index(levels, levels.len() - 1);
                } else {
                    lemma_queue_at_push(nd, x, p);
                    lemma_queue_at_push(d, x, p);
                }
            }
        } else {
            assert(n == nd);
            assert forall|p: u64| #[trigger] queue_at(n, p) == queue_at(levels, p) by {
                if p == x.0 {
                    lemma_queue_at_index(levels, levels.len() - 1);
                    assert(queue_at(levels, p) =~= Seq::<RestingOrder>::empty());
                    if has_level(d, p) {
                        let i = choose|i: int| 0 <= i < d.len() && (#[trigger] d[i]).0 == p;
                        assert(levels[i] == d[i]);
                        assert(levels[levels.len() - 1] == x);
                    }
                } else {
                    lemma_queue_at_push(d, x, p);
                }
            }
        }
    }
}

/// Matching removes only what it trades: every level of the side that is not
/// marketable for the taker's limit is still there afterwards, with its price and
/// queue.
pub proof fn law_sweep_keeps_unmarketable_levels(
    levels: Seq<LevelView>,
    taker_order_id: OrderId,
    taker: Address,
    taker_side: OrderSide,
    limit: u64,
    remaining: u64,
    fills: Seq<Fill>,
)
    ensures
        forall|k: int|
            0 <= k < levels.len() && !crosses(levels[k].0, limit, taker_side) ==> sweep_levels(
                levels,
                taker_order_id,
                taker,
                taker_side,
                limit,
                remaining,
                fills,
            ).0.contains(#[trigger] levels[k]),
    decreases levels.len(),
{
    let r = sweep_levels(levels, taker_order_id, taker, taker_side, limit, remaining, fills);
    if remaining == 0 || levels.len() == 0 {
        assert forall|k: int| 0 <= k < levels.len() && !crosses(levels[k].0, limit, taker_side) implies r.0.contains(
            #[trigger] levels[k],
        ) by {
            assert(r.0[k] == levels[k]);
        }
    } else {
        let i = best_index(levels, taker_side);
        let lvl = levels[i];
        if !crosses(lvl.0, limit, taker_side) {
            assert forall|k: int| 0 <= k < levels.len() && !crosses(levels[k].0, limit, taker_side) implies r.0.contains(
                #[trigger] levels[k],
            ) by {
                assert(r.0[k] == levels[k]);
            }
        } else {
            let q = sweep_queue(lvl.1, taker_order_id, taker, taker_side, remaining, fills);
            if q.0.len() == 0 {
                let rm = levels.remove(i);
                law_sweep_keeps_unmarketable_levels(rm, taker_order_id, taker, taker_side, limit, q.2, q.1);
                assert forall|k: int| 0 <= k < levels.len() && !crosses(levels[k].0, limit, taker_side) implies r.0.contains(
                    #[trigger] levels[k],
                ) by {
                    if k < i {
                        assert(rm[k] == levels[k]);
                        assert(!crosses(rm[k].0, limit, taker_side));
                    } else {
                        assert(k != i);
                        assert(rm[k - 1] == levels[k]);
                        assert(!crosses(rm[k - 1].0, limit, taker_side));
                    }
                }
            } else {
                let u = levels.update(i, (lvl.0, q.0));
                assert forall|k: int| 0 <= k < levels.len() && !crosses(levels[k].0, limit, taker_side) implies r.0.contains(
                    #[trigger] levels[k],
                ) by {
                    assert(k != i);
                    assert(u[k] == levels[k]);
                }
            }
        }
    }
}

/// Whether an order is `maker`'s.
pub open spec fn made_by(maker: Address) -> spec_fn(RestingOrder) -> bool {
    |o: RestingOrder| o.maker == maker
}

/// Cancelling every order of a maker reports exactly that maker's orders of a queue,
/// in queue order.
pub proof fn law_cancel_all_reports_the_makers_orders(q: Seq<RestingOrder>, maker: Address)
    ensures
        ids_of(q, maker) == q.filter(made_by(maker)).map_values(|o: RestingOrder| o.order_id),
    decreases q.len(),
{
    reveal(Seq::filter);
    if q.len() > 0 {
        law_cancel_all_reports_the_makers_orders(q.drop_last(), maker);
        let f = q.drop_last().filter(made_by(maker));
        if q.last().maker == maker {
            assert(f.push(q.last()).map_values(|o: RestingOrder| o.order_id) =~= f.map_values(
                |o: RestingOrder| o.order_id,
            ).push(q.last().order_id));
        }
    }
}

/// One side of a book state.
pub open spec fn state_side(st: BookState, side: OrderSide) -> Seq<LevelView> {
    match side {
        OrderSide::Buy => st.0,
        OrderSide::Sell => st.1,
    }
}

/// An order placed and not fully filled rests on the book: the remainder returned is
/// the order itself (its id, maker, price, side, nonce and deadline), numbered with the
/// book's counter, and it is the last order of the queue at its price on its own side of
/// the new book, whose counter moved on by one. An order that gets no remainder was
/// matched in full.
pub proof fn law_unfilled_order_rests(
    st: BookState,
    order_id: OrderId,
    maker: Address,
    price: u64,
    amount: u64,
    side: OrderSide,
    nonce: u64,
    deadline: u64,
)
    requires
        state_wf(st),
        st.2 < u64::MAX,
    ensures
        ({
            let o = place_outcome(st, order_id, maker, price, amount, side, nonce, deadline);
            &&& o.2 is None ==> fills_total(o.1) == amount
            &&& o.2 matches Some(r) ==> {
                &&& fills_total(o.1) < amount
                &&& r.order_id == order_id && r.maker == maker && r.price == price && r.side == side
                &&& r.amount == amount && r.nonce == nonce && r.deadline == deadline && r.seq == st.2
                &&& o.0.2 == st.2 + 1
                &&& queue_at(state_side(o.0, side), price).len() > 0
                &&& queue_at(state_side(o.0, side), price).last() == r
            }
        }),
{
    let (bids, asks, seq) = st;
    let opp = match side {
        OrderSide::Buy => asks,
        OrderSide::Sell => bids,
    };
    lemma_sweep_levels(opp, order_id, maker, side, price, amount, Seq::empty());
    let s = sweep_levels(opp, order_id, maker, side, price, amount, Seq::empty());
    assert(fills_total(Seq::<Fill>::empty()) == 0);
    let o = place_outcome(st, order_id, maker, price, amount, side, nonce, deadline);
    if s.2 != 0 {
        let r = crate::engine::resting_after(order_id, maker, price, amount, side, nonce, deadline, s.1, seq);
        assert(o.2 == Some(r));
        let own = state_side(st, side);
        assert(levels_sorted(own)) by {
            assert(levels_wf(own, side));
        }
        lemma_place_queue_at(own, r);
        crate::book_laws::law_prune_keeps_every_queue(place_in_levels(own, r));
        match side {
            OrderSide::Buy => {
                assert(o.0.0 == nonempty_levels(place_in_levels(bids, r)));
            },
            OrderSide::Sell => {
                assert(o.0.1 == nonempty_levels(place_in_levels(asks, r)));
            },
        }
        assert(queue_at(state_side(o.0, side), price) == queue_at(own, price).push(r));
        assert(queue_at(state_side(o.0, side), price).last() == r);
    } else {
        assert(o.2 is None);
    }
}

/// The rows of a position, loaded in order from an empty book, leave both sides sorted.
proof fn lemma_rows_state_sorted(rows: Seq<OpenOrderRow>, p: PositionId)
    requires
        rows.len() < u64::MAX,
    ensures
        levels_sorted(rows_state(rows, p).0),
        levels_sorted(rows_state(rows, p).1),
        rows_state(rows, p).2 <= rows.len(),
    decreases rows.len(),
{
    if rows.len() > 0 {
        lemma_rows_state_sorted(rows.drop_last(), p);
        let st = rows_state(rows.drop_last(), p);
        let o = crate::rebuild::row_resting(rows.last());
        let o2 = RestingOrder { seq: st.2, ..o };
        lemma_place_queue_at(st.0, o2);
        lemma_place_queue_at(st.1, o2);
    }
}

/// Rebuilding keeps each stored order's progress: once the rows of a position are
/// loaded (and empty levels dropped), the order of its last row is the last order of the
/// queue at its price on its side, with the row's id, maker, nonce, amount and filled
/// amount, so what it has left to trade is the row's amount minus its filled amount.
pub proof fn law_rebuilt_order_carries_its_row(rows: Seq<OpenOrderRow>, p: PositionId)
    requires
        0 < rows.len() < u64::MAX,
        rows.last().position_id == p,
    ensures
        ({
            let st = prune_state(rows_state(rows, p));
            let r = rows.last();
            let q = queue_at(state_side(st, r.side), r.price);
            &&& q.len() > 0
            &&& q.last().order_id == r.order_id
            &&& q.last().maker == r.user_address
            &&& q.last().price == r.price
            &&& q.last().side == r.side
            &&& q.last().nonce == r.nonce
            &&& q.last().amount == r.amount
            &&& q.last().filled == r.filled_amount
            &&& q.last().deadline == r.deadline as u64
            &&& q.last().spec_remaining() == r.amount - r.filled_amount
        }),
{
    lemma_rows_state_sorted(rows.drop_last(), p);
    let st = rows_state(rows.drop_last(), p);
    let r = rows.last();
    let o2 = RestingOrder { seq: st.2, ..crate::rebuild::row_resting(r) };
    assert(rows_state(rows, p) == insert_state(st, crate::rebuild::row_resting(r)));
    let own = state_side(st, r.side);
    lemma_place_queue_at(own, o2);
    crate::book_laws::law_prune_keeps_every_queue(place_in_levels(own, o2));
    assert(queue_at(state_side(prune_state(rows_state(rows, p)), r.side), r.price) == queue_at(own, r.price).push(o2));
}

/// Loading stored rows in turn: a row of another position leaves the position's book as
/// it was; a row of the position joins the back of the queue at its price on its side,
/// as an order with the row's id, maker, price, side, amount, filled amount, nonce and
/// deadline, numbered with the book's counter (which moves on by one), and every other
/// queue is unchanged.
pub proof fn law_rebuild_loads_rows_in_turn(rows: Seq<OpenOrderRow>, p: PositionId)
    requires
        0 < rows.len() < u64::MAX,
    ensures
        ({
            let before = rows_state(rows.drop_last(), p);
            let after = rows_state(rows, p);
            let r = rows.last();
            let o = RestingOrder {
                order_id: r.order_id,
                maker: r.user_address,
                price: r.price,
                amount: r.amount,
                filled: r.filled_amount,
                side: r.side,
                seq: before.2,
                nonce: r.nonce,
                deadline: r.deadline as u64,
            };
            &&& r.position_id != p ==> after == before
            &&& r.position_id == p ==> {
                &&& after.2 == before.2 + 1
                &&& forall|side: OrderSide, price: u64|
                    #[trigger] queue_at(state_side(after, side), price) == if side == r.side && price == r.price {
                        queue_at(state_side(before, side), price).push(o)
                    } else {
                        queue_at(state_side(before, side), price)
                    }
            }
        }),
{
    lemma_rows_state_sorted(rows.drop_last(), p);
    let before = rows_state(rows.drop_last(), p);
    let r = rows.last();
    let o = RestingOrder { seq: before.2, ..crate::rebuild::row_resting(r) };
    lemma_place_queue_at(before.0, o);
    lemma_place_queue_at(before.1, o);
    if r.position_id == p {
        assert(rows_state(rows, p) == insert_state(before, crate::rebuild::row_resting(r)));
    }
}

} // verus!
