use omniscient::book::RestingOrder;
use omniscient::config::{default_llm_api_url, default_rust_log, AppConfig};
use omniscient::abi::topic_hash;
use omniscient::engine::{MatchCommand, MatchResult, MatcherAction, MatcherState};
use omniscient::error::{DomainError, Error, HexError, IdKind};
use omniscient::fees::{maker_rebate, taker_fee};
use omniscient::ids::{hex_bytes_from_text, u256_from_text};
use omniscient::order::{
    compute_domain_separator, eip712_signing_hash, hash_order, verify_order_signature, Order, SignedOrder,
};
use omniscient::rebuild::{open_order_rows, rebuild_books, split_loadable, OpenOrderRow, StoredOrder};
use omniscient::service::{
    fill_records, health_report, market_id_param, match_event, order_id_param, plan_acceptance,
    position_param, reconcile_credit, validate_signed_order, validate_signed_order_at, AppError, NonceState,
};
use omniscient::types::{Address, Bytes32, MarketId, OrderId, OrderSide, PositionId};

fn addr(n: u8) -> Address {
    Address([n; 20])
}

fn fresh() -> NonceState {
    NonceState { cancellation_nonce: 0, used: vec![] }
}

fn config() -> AppConfig {
    AppConfig {
        database_url: String::new(),
        kafka_brokers: String::new(),
        rpc_url: String::new(),
        chain_id: 137,
        custody_addr: addr(0xc1),
        settlement_exchange_addr: addr(0xe1),
        oracle_addr: addr(0x01),
        ctf_addr: addr(0x02),
        usdc_addr: addr(0x03),
        operator_key: String::new(),
        log_format: "json".to_string(),
        gateway_bind: "127.0.0.1:8080".to_string(),
        gateway_internal_secret: "s3cret".to_string(),
        llm_api_url: default_llm_api_url(),
        llm_api_key: String::new(),
        rust_log: default_rust_log(),
    }
}

fn order(side: OrderSide, price: u64, amount: u64, deadline: u64) -> Order {
    Order {
        salt: Bytes32([7; 32]),
        maker: addr(9),
        signer: addr(9),
        condition_id: Bytes32([1; 32]),
        parent_collection_id: Bytes32([0; 32]),
        position_id: PositionId([5; 32]),
        price,
        amount,
        side,
        nonce: 3,
        deadline,
    }
}

fn signed(o: Order, sig: Vec<u8>) -> SignedOrder {
    SignedOrder { order: o, signature: sig }
}

#[test]
fn keccak_of_empty_input() {
    let h = topic_hash(&[]);
    assert_eq!(
        hex::encode(h),
        "c5d2460186f7233c927e7db2dcc703c0e500b653ca82273b7bfad8045d85a470"
    );
}

#[test]
fn domain_separator_follows_eip712() {
    let chain_id = 137u64;
    let contract = addr(0xe1);
    let mut enc = Vec::new();
    enc.extend_from_slice(
        alloy::primitives::keccak256(
            "EIP712Domain(string name,string version,uint256 chainId,address verifyingContract)".as_bytes(),
        )
        .as_slice(),
    );
    enc.extend_from_slice(alloy::primitives::keccak256("Omniscient Exchange".as_bytes()).as_slice());
    enc.extend_from_slice(alloy::primitives::keccak256("1".as_bytes()).as_slice());
    enc.extend_from_slice(&alloy::primitives::U256::from(chain_id).to_be_bytes::<32>());
    enc.extend_from_slice(&[0u8; 12]);
    enc.extend_from_slice(&contract.0);
    let expected = alloy::primitives::keccak256(&enc);
    assert_eq!(compute_domain_separator(chain_id, contract), expected.0);
}

#[test]
fn signing_hash_prefixes_0x1901() {
    let d = [1u8; 32];
    let s = [2u8; 32];
    let mut data = vec![0x19u8, 0x01];
    data.extend_from_slice(&d);
    data.extend_from_slice(&s);
    assert_eq!(eip712_signing_hash(d, s), alloy::primitives::keccak256(&data).0);
}

#[test]
fn signature_of_wrong_length_is_refused() {
    let o = order(OrderSide::Buy, 500_000, 10, 10);
    let r = verify_order_signature(&o, &[0u8; 64], 137, addr(0xe1));
    assert_eq!(r, Err(Error::Domain(DomainError::SignatureLength { got: 64 })));
    assert_eq!(
        r.unwrap_err().message(),
        "domain error: signature must be 65 bytes, got 64"
    );
}

#[test]
fn signature_with_bad_recovery_byte_is_refused() {
    let o = order(OrderSide::Buy, 500_000, 10, 10);
    let mut sig = vec![1u8; 65];
    sig[64] = 5;
    let r = verify_order_signature(&o, &sig, 137, addr(0xe1));
    assert!(matches!(r, Err(Error::Domain(DomainError::InvalidSignature(_)))));
}

#[test]
fn recovered_signer_matches_alloy() {
    let o = order(OrderSide::Sell, 400_000, 10, 10);
    let mut sig = vec![0u8; 65];
    sig[31] = 1;
    sig[63] = 1;
    sig[64] = 27;
    let digest = eip712_signing_hash(compute_domain_separator(137, addr(0xe1)), hash_order(&o));
    let expected = alloy::primitives::PrimitiveSignature::try_from(sig.as_slice())
        .unwrap()
        .recover_address_from_prehash(&alloy::primitives::B256::from(digest));
    let got = verify_order_signature(&o, &sig, 137, addr(0xe1));
    match expected {
        Ok(a) => assert_eq!(got, Ok(Address(a.into_array()))),
        Err(_) => assert!(matches!(got, Err(Error::Domain(DomainError::RecoveryFailed(_))))),
    }
}

#[test]
fn validation_refuses_expired_orders_first() {
    let s = signed(order(OrderSide::Buy, 0, 0, 100), vec![]);
    assert_eq!(validate_signed_order_at(&s, &config(), &fresh(), 100), Err("order expired".to_string()));
    assert_eq!(validate_signed_order(&s, &config(), &fresh()), Err("order expired".to_string()));
}

#[test]
fn validation_checks_price_then_amount_then_signature() {
    let cfg = config();
    let s = signed(order(OrderSide::Buy, 0, 10, 200), vec![0; 65]);
    assert_eq!(validate_signed_order_at(&s, &cfg, &fresh(), 100), Err("price out of range (0, 1e6]".to_string()));
    let s = signed(order(OrderSide::Buy, 1_000_001, 10, 200), vec![0; 65]);
    assert_eq!(validate_signed_order_at(&s, &cfg, &fresh(), 100), Err("price out of range (0, 1e6]".to_string()));
    let s = signed(order(OrderSide::Buy, 1_000_000, 0, 200), vec![0; 65]);
    assert_eq!(validate_signed_order_at(&s, &cfg, &fresh(), 100), Err("amount must be > 0".to_string()));
    let s = signed(order(OrderSide::Buy, 1_000_000, 1, 200), vec![0; 10]);
    assert_eq!(
        validate_signed_order_at(&s, &cfg, &fresh(), 100),
        Err("signature verification: domain error: signature must be 65 bytes, got 10".to_string())
    );
    let mut sig = vec![1u8; 65];
    sig[64] = 9;
    let s = signed(order(OrderSide::Buy, 1_000_000, 1, 200), sig);
    let e = validate_signed_order_at(&s, &cfg, &fresh(), 100).unwrap_err();
    assert!(e.starts_with("signature verification: domain error: invalid signature: "));
}

#[test]
fn nonce_state_does_not_excuse_a_bad_signature() {
    let cfg = config();
    let spent = NonceState { cancellation_nonce: 1_000, used: vec![3] };
    let s = signed(order(OrderSide::Buy, 500_000, 1, 200), vec![0; 10]);
    assert_eq!(
        validate_signed_order_at(&s, &cfg, &spent, 100),
        Err("signature verification: domain error: signature must be 65 bytes, got 10".to_string())
    );
    let s = signed(order(OrderSide::Buy, 500_000, 1, 50), vec![0; 65]);
    assert_eq!(validate_signed_order_at(&s, &cfg, &spent, 100), Err("order expired".to_string()));
}

#[test]
fn order_errors_are_classified_by_their_text() {
    assert_eq!(
        AppError::from_order_error("order expired".to_string()),
        AppError::BadRequest("order expired".to_string())
    );
    assert_eq!(
        AppError::from_order_error("collateral: insufficient balance".to_string()),
        AppError::BadRequest("collateral: insufficient balance".to_string())
    );
    assert_eq!(
        AppError::from_order_error("signature verification: domain error: invalid signature: x".to_string()),
        AppError::BadRequest("signature verification: domain error: invalid signature: x".to_string())
    );
    assert_eq!(
        AppError::from_order_error("price out of range (0, 1e6]".to_string()),
        AppError::Internal("price out of range (0, 1e6]".to_string())
    );
}

#[test]
fn app_errors_answer_with_status_and_message() {
    assert_eq!(AppError::BadRequest("x".into()).status_code(), 400);
    assert_eq!(AppError::Unauthorized.status_code(), 401);
    assert_eq!(AppError::Internal("y".into()).status_code(), 500);
    assert_eq!(AppError::Unauthorized.message(), "unauthorized");
    assert_eq!(AppError::Internal("y".into()).message(), "y");
}

#[test]
fn acceptance_plan_reserves_required_collateral() {
    let o = order(OrderSide::Buy, 333_333, 3, 50);
    let s = signed(o.clone(), vec![]);
    let id = OrderId(42);
    let p = plan_acceptance(&s, addr(9), MarketId([4; 32]), id).unwrap();
    assert_eq!(p.collateral, 1);
    assert_eq!(p.asset_type, "usdc");
    assert_eq!(p.position_ref, None);
    assert_eq!(p.deadline_key, 50);
    assert!(matches!(p.command, MatchCommand::PlaceOrder { amount: 3, price: 333_333, .. }));
    assert_eq!((p.collateral_key, p.price_key, p.amount_key, p.nonce_key), (1, 333_333, 3, 3));
    assert_eq!(p.side_text, "buy");
    assert_eq!(p.position_text, alloy::primitives::U256::from_be_bytes([5u8; 32]).to_string());
    assert_eq!(p.position_ref_text, None);

    let s = signed(order(OrderSide::Sell, 333_333, 3, u64::MAX), vec![]);
    let p = plan_acceptance(&s, addr(9), MarketId([4; 32]), id).unwrap();
    assert_eq!(p.collateral, 3);
    assert_eq!(p.asset_type, "ctf");
    assert_eq!(p.position_ref, Some(PositionId([5; 32])));
    assert_eq!(p.deadline_key, 0);
    assert_eq!(p.side_text, "sell");
    assert_eq!(p.position_ref_text, Some(p.position_text.clone()));
    let mut big = order(OrderSide::Sell, 1, 5, 1);
    big.nonce = u64::MAX;
    let p = plan_acceptance(&signed(big, vec![]), addr(9), MarketId([4; 32]), id).unwrap();
    assert_eq!((p.collateral, p.collateral_key, p.amount_key, p.nonce_key), (5, 5, 5, 0));
    let edge = order(OrderSide::Sell, 1, i64::MAX as u64, 1);
    let p = plan_acceptance(&signed(edge, vec![]), addr(9), MarketId([4; 32]), id).unwrap();
    assert_eq!((p.collateral, p.collateral_key), (i64::MAX as u64, i64::MAX));
}

#[test]
fn acceptance_refuses_collateral_beyond_the_balance_range() {
    let id = OrderId(42);
    let s = signed(order(OrderSide::Sell, 1, u64::MAX, 1), vec![]);
    assert_eq!(
        plan_acceptance(&s, addr(9), MarketId([4; 32]), id).unwrap_err(),
        format!("collateral: domain error: insufficient balance for 0x{} ctf", "09".repeat(20))
    );
    let s = signed(order(OrderSide::Buy, 1_000_000, u64::MAX, 1), vec![]);
    assert_eq!(
        plan_acceptance(&s, addr(9), MarketId([4; 32]), id).unwrap_err(),
        format!("collateral: domain error: insufficient balance for 0x{} usdc", "09".repeat(20))
    );
    let s = signed(order(OrderSide::Buy, 500_000, u64::MAX, 1), vec![]);
    assert!(plan_acceptance(&s, addr(9), MarketId([4; 32]), id).is_err());
}

#[test]
fn reconcile_requires_the_shared_secret() {
    let user = format!("0x{}", "ab".repeat(20));
    assert_eq!(reconcile_credit(None, "s3cret", &user, 1, 1), Err(AppError::Unauthorized));
    assert_eq!(reconcile_credit(Some("nope"), "s3cret", &user, 1, 1), Err(AppError::Unauthorized));
    assert_eq!(
        reconcile_credit(Some("s3cret"), "s3cret", "0x12", 1, 1),
        Err(AppError::BadRequest(
            "invalid user address: domain error: address must be 40 hex chars, got 2".to_string()
        ))
    );
    let c = reconcile_credit(Some("s3cret"), "s3cret", &user, u64::MAX, u64::MAX).unwrap();
    assert_eq!(c.user, Address([0xab; 20]));
    assert_eq!(c.amount_key, i64::MAX);
    assert_eq!(c.block_key, 0);
    let c = reconcile_credit(Some(""), "", &user, 7, 9).unwrap();
    assert_eq!((c.amount_key, c.block_key), (7, 9));
}

#[test]
fn health_is_ok_only_with_db_and_broker() {
    let h = health_report(true, true);
    assert_eq!((h.status_code, h.status), (200, "ok"));
    let h = health_report(true, false);
    assert_eq!((h.status_code, h.status, h.db, h.kafka), (503, "degraded", true, false));
}

#[test]
fn request_parameters_are_parsed_or_refused() {
    let m = market_id_param(&format!("0x{}", "01".repeat(32))).unwrap();
    assert_eq!(m, MarketId([1; 32]));
    assert_eq!(
        market_id_param("0xzz"),
        Err(AppError::BadRequest("invalid market_id: domain error: market_id must be 64 hex chars, got 2".into()))
    );
    let id = order_id_param("67e55044-10b1-426f-9247-bb680e5fe0c8").unwrap();
    assert_eq!(id, OrderId(0x67e5504410b1426f9247bb680e5fe0c8));
    assert!(matches!(order_id_param("nope"), Err(AppError::BadRequest(m)) if m.starts_with("invalid order_id: ")));
    let mut w = [0u8; 32];
    w[31] = 12;
    assert_eq!(position_param("12"), Ok(PositionId(w)));
    assert!(matches!(position_param("x1"), Err(AppError::BadRequest(m)) if m.starts_with("invalid position_id: ")));
}

#[test]
fn hex_fields_of_orders_decode() {
    let mut w = [0u8; 32];
    w[30] = 0x01;
    w[31] = 0x02;
    assert_eq!(u256_from_text("0x0102"), Ok(w));
    assert_eq!(u256_from_text("0X0102"), Ok(w));
    assert_eq!(u256_from_text("0x012"), Err("Odd number of digits".to_string()));
    assert_eq!(u256_from_text(&format!("0x{}", "00".repeat(33))), Err("u256 exceeds 32 bytes".to_string()));
    w[30] = 0;
    w[31] = 7;
    assert_eq!(u256_from_text("7"), Ok(w));
    assert_eq!(hex_bytes_from_text("0xabcd"), Ok(vec![0xab, 0xcd]));
    assert_eq!(hex_bytes_from_text("abcd"), Ok(vec![0xab, 0xcd]));
    assert_eq!(
        hex_bytes_from_text("0xag"),
        Err("Invalid character 'g' at position 1".to_string())
    );
}

#[test]
fn id_text_round_trips_and_errors() {
    let a = Address([0x1f; 20]);
    let text = a.to_hex_string();
    assert_eq!(text, format!("0x{}", "1f".repeat(20)));
    assert_eq!(Address::from_hex(&text), Ok(a));
    assert_eq!(Address::from_hex(&format!("  {}  ", text)), Ok(a));
    let e = Address::from_hex(&format!("0x{}g", "1".repeat(39))).unwrap_err();
    assert_eq!(
        e,
        Error::Domain(DomainError::HexDecode(HexError::InvalidHexCharacter { c: 'g', index: 39 }))
    );
    assert_eq!(e.message(), "domain error: hex decode: Invalid character 'g' at position 39");
    let e = MarketId::from_slice(&[0u8; 3]).unwrap_err();
    assert_eq!(
        e,
        Error::Domain(DomainError::ByteLength { kind: IdKind::MarketId, expected: 32, got: 3 })
    );
    assert_eq!(e.message(), "domain error: market_id must be 32 bytes, got 3");
}

#[test]
fn fills_become_events_and_order_updates() {
    let mut m = MatcherState::new();
    let placed = m.insert_resting(
        PositionId([5; 32]),
        RestingOrder {
            order_id: OrderId(1),
            maker: addr(1),
            price: 500_000,
            amount: 100,
            filled: 0,
            side: OrderSide::Sell,
            seq: 0,
            nonce: 0,
            deadline: 0,
        },
    );
    assert_eq!(placed.seq, 0);
    let r = m.handle_command(MatchCommand::PlaceOrder {
        market_id: MarketId([4; 32]),
        position_id: PositionId([5; 32]),
        order_id: OrderId(2),
        maker: addr(2),
        price: 510_000,
        amount: 40,
        side: OrderSide::Buy,
        nonce: 0,
        deadline: 0,
    });
    let result = match r {
        MatcherAction::Publish(res) => res,
        other => panic!("unexpected {:?}", other),
    };
    assert!(result.fully_filled);
    let recs = fill_records(&result);
    assert_eq!(recs.len(), 1);
    assert_eq!(recs[0].event.market_id, format!("0x{}", "04".repeat(32)));
    assert_eq!(recs[0].event.maker, format!("0x{}", "01".repeat(20)));
    assert_eq!(recs[0].event.taker, format!("0x{}", "02".repeat(20)));
    assert_eq!(recs[0].event.side, "buy");
    assert_eq!((recs[0].event.price, recs[0].event.amount), (500_000, 40));
    assert_eq!(recs[0].maker_update.order_id, OrderId(1));
    assert!(!recs[0].maker_update.mark_filled);
    assert_eq!(recs[0].maker_update.filled_delta, 40);
    assert_eq!(recs[0].taker_update.order_id, OrderId(2));
    assert!(recs[0].taker_update.mark_filled);
    assert_eq!(recs[0].taker_update.filled_delta, 40);
    assert_eq!(result.position_id, PositionId([5; 32]));
    let mr = recs[0].maker_release;
    assert_eq!((mr.order_id, mr.maker, mr.asset_type), (OrderId(1), addr(1), "ctf"));
    assert_eq!((mr.position, mr.amount), (Some(PositionId([5; 32])), 40));
    let tr = recs[0].taker_release;
    assert_eq!((tr.order_id, tr.maker, tr.asset_type), (OrderId(2), addr(2), "usdc"));
    assert_eq!((tr.position, tr.amount), (None, 20));
    let ev = match_event(&MarketId([4; 32]), &result.fills[0]);
    assert_eq!(ev, recs[0].event);
    let r = m.handle_command(MatchCommand::CancelOrder { position_id: PositionId([5; 32]), order_id: OrderId(1) });
    assert!(matches!(r, MatcherAction::Cancelled { found: true }));
    let r = m.handle_command(MatchCommand::CancelOrder { position_id: PositionId([5; 32]), order_id: OrderId(1) });
    assert!(matches!(r, MatcherAction::Cancelled { found: false }));
    assert!(matches!(m.handle_command(MatchCommand::Shutdown), MatcherAction::Exit));
}

#[test]
fn placed_orders_rest_with_the_matched_quantity_as_filled() {
    let mut m = MatcherState::new();
    let r = m.handle_command(MatchCommand::PlaceOrder {
        market_id: MarketId([4; 32]),
        position_id: PositionId([5; 32]),
        order_id: OrderId(1),
        maker: addr(1),
        price: 500_000,
        amount: 100,
        side: OrderSide::Sell,
        nonce: 0,
        deadline: 0,
    });
    match r {
        MatcherAction::Publish(res) => {
            assert!(!res.fully_filled);
            assert!(res.fills.is_empty());
            let resting = res.resting.unwrap();
            assert_eq!(resting.filled, 100);
            assert_eq!(resting.remaining(), 0);
        }
        other => panic!("unexpected {:?}", other),
    }
    let r = m.handle_command(MatchCommand::CancelOrder { position_id: PositionId([5; 32]), order_id: OrderId(1) });
    assert!(matches!(r, MatcherAction::Cancelled { found: true }));
}

#[test]
fn fee_rounding_favours_the_pool() {
    assert_eq!(taker_fee(1), 1);
    assert_eq!(maker_rebate(1), 0);
    assert_eq!(taker_fee(200), 1);
    assert_eq!(taker_fee(201), 2);
}

fn stored(user: Vec<u8>, side: &str, pos: &str) -> StoredOrder {
    StoredOrder {
        order_id: 11,
        user_address: user,
        market_id: vec![4; 32],
        side: side.to_string(),
        price: 500_000,
        amount: 10,
        filled_amount: 2,
        nonce: -1,
        deadline: 77,
        position_id: pos.to_string(),
    }
}

#[test]
fn stored_orders_are_converted_for_rebuild() {
    let rows = open_order_rows(&vec![
        stored(vec![1; 20], "buy", "5"),
        stored(vec![1; 20], "hold", "5"),
        stored(vec![2; 20], "sell", "not a number"),
    ])
    .unwrap();
    assert_eq!(rows.len(), 2);
    let mut w = [0u8; 32];
    w[31] = 5;
    assert_eq!(rows[0].position_id, PositionId(w));
    assert_eq!(rows[0].side, OrderSide::Buy);
    assert_eq!(rows[0].nonce, u64::MAX);
    assert_eq!(rows[1].position_id, PositionId([0; 32]));
    let e = open_order_rows(&vec![stored(vec![1; 20], "buy", "5"), stored(vec![1; 3], "hold", "5")]).unwrap_err();
    assert_eq!(e, Error::Domain(DomainError::ByteLength { kind: IdKind::Address, expected: 20, got: 3 }));

    let m = rebuild_books(&rows);
    assert_eq!(m.len(), 2);
    let _: Vec<OpenOrderRow> = rows;
}

#[test]
fn resting_orders_report_remaining_quantity() {
    let o = RestingOrder {
        order_id: OrderId(1),
        maker: addr(1),
        price: 1,
        amount: 10,
        filled: 4,
        side: OrderSide::Buy,
        seq: 0,
        nonce: 0,
        deadline: 0,
    };
    assert_eq!(o.remaining(), 6);
}

#[test]
fn order_ids_are_random_version_4_uuids() {
    let a = OrderId::new();
    let b = OrderId::new();
    assert_ne!(a, b);
    assert_eq!((a.0 >> 76) & 0xf, 4);
    assert_eq!((a.0 >> 62) & 0x3, 2);
}

#[test]
fn configuration_defaults() {
    assert_eq!(default_rust_log(), "info");
    assert_eq!(default_llm_api_url(), "http://localhost:11434/v1/chat/completions");
}

#[test]
fn earlier_orders_at_a_price_fill_first() {
    let mut book = omniscient::book::OrderBook::new();
    for (id, maker) in [(1u128, 1u8), (2, 2), (3, 3)] {
        let mut o = RestingOrder {
            order_id: OrderId(id),
            maker: addr(maker),
            price: 500_000,
            amount: 10,
            filled: 0,
            side: OrderSide::Sell,
            seq: 0,
            nonce: 0,
            deadline: 0,
        };
        book.insert(&mut o);
    }
    let (fills, fully) = book.match_buy(OrderId(9), addr(2), 500_000, 15);
    assert!(fully);
    assert_eq!(fills.len(), 2);
    assert_eq!((fills[0].maker_order_id, fills[0].amount), (OrderId(1), 10));
    assert_eq!((fills[1].maker_order_id, fills[1].amount), (OrderId(3), 5));
    assert_eq!(book.best_ask(), Some(500_000));
}

#[test]
fn address_text_needs_forty_hex_digits() {
    let short = format!("  0x{}  ", "ab".repeat(19));
    assert_eq!(
        Address::from_hex(&short),
        Err(Error::Domain(DomainError::HexLength { kind: IdKind::Address, expected: 40, got: 38 }))
    );
    let long = "cd".repeat(21);
    assert_eq!(
        Address::from_hex(&long),
        Err(Error::Domain(DomainError::HexLength { kind: IdKind::Address, expected: 40, got: 42 }))
    );
    assert_eq!(Address::from_hex(&format!(" 0x{} ", "ab".repeat(20))), Ok(Address([0xab; 20])));
}

#[test]
fn order_ids_read_as_hyphenated_uuids() {
    assert_eq!(OrderId(0).to_text(), "00000000-0000-0000-0000-000000000000");
    let v: u128 = 0x0123_4567_89ab_cdef_fedc_ba98_7654_3210;
    assert_eq!(OrderId(v).to_text(), "01234567-89ab-cdef-fedc-ba9876543210");
    assert_eq!(OrderId(v).to_text(), uuid::Uuid::from_u128(v).to_string());
    let fresh = OrderId::new();
    assert_eq!(fresh.to_text(), uuid::Uuid::from_u128(fresh.0).to_string());
}

fn signing_key() -> k256::ecdsa::SigningKey {
    k256::ecdsa::SigningKey::from_slice(&[0x42u8; 32]).unwrap()
}

/// An order of the key's address, signed for the exchange of `config()`.
fn order_signed_by_key(nonce: u64) -> SignedOrder {
    let sk = signing_key();
    let maker = Address(alloy::primitives::Address::from_private_key(&sk).into_array());
    let mut o = order(OrderSide::Buy, 500_000, 10, 1_000);
    o.maker = maker;
    o.signer = maker;
    o.nonce = nonce;
    let digest = eip712_signing_hash(compute_domain_separator(137, addr(0xe1)), hash_order(&o));
    let (sig, recid) = sk.sign_prehash_recoverable(&digest).unwrap();
    let mut bytes = sig.to_bytes().to_vec();
    bytes.push(27 + recid.to_byte());
    signed(o, bytes)
}

#[test]
fn orders_signed_by_their_maker_are_accepted() {
    let s = order_signed_by_key(5);
    assert_eq!(validate_signed_order_at(&s, &config(), &fresh(), 100), Ok(s.order.maker));
    let used_elsewhere = NonceState { cancellation_nonce: 5, used: vec![4, 6] };
    assert_eq!(validate_signed_order_at(&s, &config(), &used_elsewhere, 100), Ok(s.order.maker));
    assert_eq!(
        verify_order_signature(&s.order, &s.signature, 137, addr(0xe1)),
        Ok(s.order.maker)
    );
}

#[test]
fn invalidated_and_reused_nonces_are_refused() {
    let s = order_signed_by_key(5);
    let cancelled = NonceState { cancellation_nonce: 6, used: vec![] };
    assert_eq!(
        validate_signed_order_at(&s, &config(), &cancelled, 100),
        Err("invalid nonce: below the cancellation nonce".to_string())
    );
    let reused = NonceState { cancellation_nonce: 0, used: vec![1, 5] };
    assert_eq!(
        validate_signed_order_at(&s, &config(), &reused, 100),
        Err("invalid nonce: already used".to_string())
    );
}

#[test]
fn orders_signed_by_someone_else_are_refused() {
    let mut s = order_signed_by_key(5);
    s.order.maker = addr(0x33);
    s.order.signer = addr(0x33);
    let r = validate_signed_order_at(&s, &config(), &fresh(), 100);
    assert_eq!(r, Err("signature does not match maker".to_string()));
    let mut cfg = config();
    cfg.chain_id = 1;
    let s = order_signed_by_key(5);
    assert_eq!(
        validate_signed_order_at(&s, &cfg, &fresh(), 100),
        Err("signature does not match maker".to_string())
    );
}

#[test]
fn overfilled_rows_are_set_aside_before_rebuilding() {
    let row = |id: u128, amount: u64, filled: u64| OpenOrderRow {
        order_id: OrderId(id),
        user_address: addr(1),
        market_id: MarketId([4; 32]),
        side: OrderSide::Sell,
        price: 500_000,
        amount,
        filled_amount: filled,
        nonce: 0,
        deadline: 0,
        position_id: PositionId([5; 32]),
    };
    let rows = vec![row(1, 10, 3), row(2, 10, 11), row(3, 5, 5), row(4, 1, 2)];
    let (kept, set_aside) = split_loadable(&rows);
    assert_eq!(kept.iter().map(|r| r.order_id).collect::<Vec<_>>(), vec![OrderId(1), OrderId(3)]);
    assert_eq!(set_aside, vec![OrderId(2), OrderId(4)]);
    let m = rebuild_books(&kept);
    assert_eq!(m.len(), 1);
}
