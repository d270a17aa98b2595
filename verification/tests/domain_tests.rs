use omniscient::book::{OrderBook, RestingOrder};
use omniscient::fees::{buy_volume, maker_rebate, sell_volume, taker_fee};
use omniscient::types::{Address, OrderId, OrderSide};

fn addr(n: u8) -> Address {
    Address([n; 20])
}

fn oid() -> OrderId {
    OrderId::new()
}

#[test]
fn test_match_buy_crosses_sell() {
    let mut book = OrderBook::new();
    let mut sell = RestingOrder {
        order_id: oid(),
        maker: addr(1),
        price: 500_000,
        amount: 100,
        filled: 0,
        side: OrderSide::Sell,
        seq: 0,
        nonce: 0,
        deadline: 0,
    };
    book.insert(&mut sell);

    let (fills, fully) = book.match_buy(oid(), addr(2), 510_000, 50);
    assert_eq!(fills.len(), 1);
    assert_eq!(fills[0].amount, 50);
    assert_eq!(fills[0].price, 500_000);
    assert!(fully);
}

#[test]
fn test_match_buy_no_cross() {
    let mut book = OrderBook::new();
    let mut sell = RestingOrder {
        order_id: oid(),
        maker: addr(1),
        price: 600_000,
        amount: 100,
        filled: 0,
        side: OrderSide::Sell,
        seq: 0,
        nonce: 0,
        deadline: 0,
    };
    book.insert(&mut sell);

    let (fills, fully) = book.match_buy(oid(), addr(2), 500_000, 50);
    assert!(fills.is_empty());
    assert!(!fully);
}

#[test]
fn test_self_trade_prevention() {
    let mut book = OrderBook::new();
    let mut sell = RestingOrder {
        order_id: oid(),
        maker: addr(1),
        price: 500_000,
        amount: 100,
        filled: 0,
        side: OrderSide::Sell,
        seq: 0,
        nonce: 0,
        deadline: 0,
    };
    book.insert(&mut sell);

    let (fills, fully) = book.match_buy(oid(), addr(1), 510_000, 50);
    assert!(fills.is_empty());
    assert!(!fully);
}

#[test]
fn test_partial_fill_rests() {
    let mut book = OrderBook::new();
    let mut sell = RestingOrder {
        order_id: oid(),
        maker: addr(1),
        price: 500_000,
        amount: 30,
        filled: 0,
        side: OrderSide::Sell,
        seq: 0,
        nonce: 0,
        deadline: 0,
    };
    book.insert(&mut sell);

    let (fills, fully) = book.match_buy(oid(), addr(2), 510_000, 50);
    assert_eq!(fills.len(), 1);
    assert_eq!(fills[0].amount, 30);
    assert!(!fully);
}

#[test]
fn test_price_time_priority() {
    let mut book = OrderBook::new();
    let mut s1 = RestingOrder {
        order_id: oid(),
        maker: addr(1),
        price: 500_000,
        amount: 10,
        filled: 0,
        side: OrderSide::Sell,
        seq: 0,
        nonce: 0,
        deadline: 0,
    };
    book.insert(&mut s1);
    let mut s2 = RestingOrder {
        order_id: oid(),
        maker: addr(2),
        price: 500_000,
        amount: 10,
        filled: 0,
        side: OrderSide::Sell,
        seq: 0,
        nonce: 0,
        deadline: 0,
    };
    book.insert(&mut s2);

    let (fills, _) = book.match_buy(oid(), addr(3), 510_000, 10);
    assert_eq!(fills.len(), 1);
    assert_eq!(fills[0].maker, addr(1));
}

#[test]
fn test_cancel_order() {
    let mut book = OrderBook::new();
    let order_id = oid();
    let mut order = RestingOrder {
        order_id,
        maker: addr(1),
        price: 500_000,
        amount: 100,
        filled: 0,
        side: OrderSide::Buy,
        seq: 0,
        nonce: 0,
        deadline: 0,
    };
    book.insert(&mut order);
    assert!(book.cancel(order_id));
    assert!(!book.cancel(order_id));
}

#[test]
fn test_cancel_all() {
    let mut book = OrderBook::new();
    let id1 = oid();
    let id2 = oid();
    let mut o1 = RestingOrder {
        order_id: id1,
        maker: addr(1),
        price: 500_000,
        amount: 100,
        filled: 0,
        side: OrderSide::Buy,
        seq: 0,
        nonce: 0,
        deadline: 0,
    };
    book.insert(&mut o1);
    let mut o2 = RestingOrder {
        order_id: id2,
        maker: addr(1),
        price: 490_000,
        amount: 100,
        filled: 0,
        side: OrderSide::Buy,
        seq: 0,
        nonce: 0,
        deadline: 0,
    };
    book.insert(&mut o2);
    let removed = book.cancel_all(addr(1));
    assert_eq!(removed.len(), 2);
}

#[test]
fn test_fee_math() {
    let vol: u128 = 1_000_000; // 1 USDC (6dp)
    let tf = taker_fee(vol);
    let mr = maker_rebate(vol);
    assert_eq!(tf, 5000); // 0.5% of 1 USDC = 0.005 USDC
    assert_eq!(mr, 1000); // 0.1% of 1 USDC = 0.001 USDC
    assert!(tf >= mr); // net fee >= 0
}

#[test]
fn test_buy_volume_rounds_up() {
    // amount=3, price=333333 -> 3*333333=999999 -> ceil(999999/1e6)=1
    assert_eq!(buy_volume(3, 333_333), 1);
}

#[test]
fn test_sell_volume_rounds_down() {
    // amount=3, price=333333 -> 999999 -> floor(999999/1e6)=0
    assert_eq!(sell_volume(3, 333_333), 0);
}

#[test]
fn inserts_are_numbered_in_turn_and_matched_oldest_first() {
    let mut book = OrderBook::new();
    let mut ids = Vec::new();
    for (k, price) in [500_000u64, 400_000, 500_000, 600_000].into_iter().enumerate() {
        let mut o = RestingOrder {
            order_id: OrderId(k as u128 + 1),
            maker: addr(k as u8 + 1),
            price,
            amount: 10,
            filled: 0,
            side: OrderSide::Sell,
            seq: 99,
            nonce: 0,
            deadline: 0,
        };
        book.insert(&mut o);
        assert_eq!(o.seq, k as u64);
        ids.push(o.order_id);
    }
    assert_eq!(book.next_seq(), 4);
    let (fills, fully) = book.match_buy(OrderId(9), addr(9), 500_000, 25);
    assert!(fully);
    let makers: Vec<OrderId> = fills.iter().map(|f| f.maker_order_id).collect();
    assert_eq!(makers, vec![ids[1], ids[0], ids[2]]);
    assert_eq!(fills.iter().map(|f| f.amount).collect::<Vec<_>>(), vec![10, 10, 5]);
    assert_eq!(fills.iter().map(|f| f.maker_done).collect::<Vec<_>>(), vec![true, true, false]);
}

#[test]
fn each_insert_joins_the_back_of_its_level_only() {
    let mut book = OrderBook::new();
    let make = |id: u128, price: u64, side: OrderSide| RestingOrder {
        order_id: OrderId(id),
        maker: addr(1),
        price,
        amount: 5,
        filled: 0,
        side,
        seq: 0,
        nonce: 0,
        deadline: 0,
    };
    for (id, price, side) in [
        (1, 400_000, OrderSide::Buy),
        (2, 600_000, OrderSide::Sell),
        (3, 400_000, OrderSide::Buy),
        (4, 300_000, OrderSide::Buy),
    ] {
        let mut o = make(id, price, side);
        book.insert(&mut o);
        assert_eq!(o.seq, id as u64 - 1);
    }
    assert_eq!(book.best_bid(), Some(400_000));
    assert_eq!(book.best_ask(), Some(600_000));
    let (fills, fully) = book.match_sell(OrderId(9), addr(9), 300_000, 15);
    assert!(fully);
    assert_eq!(
        fills.iter().map(|f| (f.maker_order_id, f.price)).collect::<Vec<_>>(),
        vec![(OrderId(1), 400_000), (OrderId(3), 400_000), (OrderId(4), 300_000)]
    );
}
