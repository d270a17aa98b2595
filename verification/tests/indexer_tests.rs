use omniscient::abi::{
    array_decode_would_overflow, parse_string, parse_u256_array, string_decode_would_overflow, topic_hash,
};
use omniscient::config::AppConfig;
use omniscient::error::{ConversionField, DomainError, Error};
use omniscient::events::{
    classify_topic, dispatch, dispatch_decodable, event_signature, handle_deposited, handle_market_created,
    handle_nonce_invalidated, handle_withdrawn, EventEffect, EventKind, HandlerCtx,
};
use omniscient::finality::{
    after_attempt, block_key, checkpoint_verdict, continue_finalizing, deposit_user_text, finalized_blocks,
    is_custody_cursor, is_final, reconcile_url, BlockOutcome, CheckpointVerdict, ReconcileStep,
};
use omniscient::pipeline::{log_key, recorded_topic, scan_window, ScanWindow};
use omniscient::types::Address;
use omniscient::words::{u256_to_bigdecimal, word_to_i64, word_to_u64};

fn word(v: u64) -> [u8; 32] {
    let mut w = [0u8; 32];
    w[24..].copy_from_slice(&v.to_be_bytes());
    w
}

fn config() -> AppConfig {
    AppConfig {
        database_url: String::new(),
        kafka_brokers: String::new(),
        rpc_url: String::new(),
        chain_id: 1,
        custody_addr: Address([0xc1; 20]),
        settlement_exchange_addr: Address([0xe1; 20]),
        oracle_addr: Address([0x01; 20]),
        ctf_addr: Address([0x02; 20]),
        usdc_addr: Address([0x03; 20]),
        operator_key: String::new(),
        log_format: String::new(),
        gateway_bind: "gw:8080".to_string(),
        gateway_internal_secret: String::new(),
        llm_api_url: String::new(),
        llm_api_key: String::new(),
        rust_log: String::new(),
    }
}

fn topic_of(kind: EventKind) -> [u8; 32] {
    alloy::primitives::keccak256(event_signature(kind).as_bytes()).0
}

fn user_topic(n: u8) -> [u8; 32] {
    let mut t = [0u8; 32];
    t[12..].copy_from_slice(&[n; 20]);
    t
}

#[test]
fn only_blocks_past_the_finality_depth_are_finalized() {
    assert_eq!(finalized_blocks(10, 20, 15), vec![10, 11, 12]);
    assert_eq!(finalized_blocks(10, 12, 100), vec![10, 11, 12]);
    assert!(finalized_blocks(10, 20, 12).is_empty());
    assert!(finalized_blocks(5, 4, 100).is_empty());
    assert!(is_final(13, 10));
    assert!(!is_final(12, 10));
    assert!(!is_final(5, 10));
}

#[test]
fn a_changed_block_hash_means_a_reorg() {
    let h = [9u8; 32];
    assert_eq!(checkpoint_verdict(None, &h), CheckpointVerdict::Finalize);
    assert_eq!(checkpoint_verdict(Some(&h[..]), &h), CheckpointVerdict::Finalize);
    assert_eq!(checkpoint_verdict(Some(&[8u8; 32][..]), &h), CheckpointVerdict::Rollback);
    assert_eq!(checkpoint_verdict(Some(&[9u8; 31][..]), &h), CheckpointVerdict::Rollback);
}

#[test]
fn deposits_are_pushed_with_bounded_retries() {
    assert_eq!(after_attempt(0, true), ReconcileStep::Done);
    assert_eq!(after_attempt(0, false), ReconcileStep::RetryAfter(200));
    assert_eq!(after_attempt(1, false), ReconcileStep::RetryAfter(400));
    assert_eq!(after_attempt(2, false), ReconcileStep::GiveUpAfter(800));
    assert_eq!(reconcile_url("gw:8080"), "http://gw:8080/internal/reconcile");
    assert_eq!(deposit_user_text(&[0xab, 0x01]), "0xab01");
    assert_eq!(block_key(5), Some(5));
    assert_eq!(block_key(u64::MAX), None);
    assert!(is_custody_cursor(&[0xc1; 20], &Address([0xc1; 20])));
    assert!(!is_custody_cursor(&[0xc1; 19], &Address([0xc1; 20])));
    assert!(!is_custody_cursor(&[0xe1; 20], &Address([0xc1; 20])));
}

#[test]
fn scan_windows_follow_the_cursor() {
    assert_eq!(scan_window(9, 100), Some(ScanWindow { start: 10, end: 60 }));
    assert_eq!(scan_window(9, 30), Some(ScanWindow { start: 10, end: 30 }));
    assert_eq!(scan_window(100, 100), None);
    assert_eq!(scan_window(-1, 5), Some(ScanWindow { start: 0, end: 5 }));
    assert_eq!(scan_window(-5, 5), None);
}

#[test]
fn logs_are_keyed_or_skipped() {
    assert_eq!(log_key(None, None, None, None), None);
    let k = log_key(Some(7), None, Some([3; 32]), None).unwrap();
    assert_eq!((k.block_number, k.block_key, k.log_index_key), (7, 7, 0));
    assert_eq!(k.block_hash, [0; 32]);
    assert_eq!(k.tx_hash, [3; 32]);
    assert_eq!(log_key(Some(u64::MAX), None, None, Some(1)), None);
    assert_eq!(log_key(Some(1), None, None, Some(u64::MAX)), None);
    assert_eq!(recorded_topic(&vec![]), Vec::<u8>::new());
    assert_eq!(recorded_topic(&vec![[4; 32], [5; 32]]), vec![4u8; 32]);
}

#[test]
fn words_narrow_to_machine_integers() {
    assert_eq!(word_to_u64(&word(42)), Some(42));
    let mut big = word(1);
    big[0] = 1;
    assert_eq!(word_to_u64(&big), None);
    assert_eq!(word_to_i64(&word(u64::MAX)), None);
    assert_eq!(word_to_i64(&word(i64::MAX as u64)), Some(i64::MAX));
    assert_eq!(u256_to_bigdecimal(&word(1234)), "1234");
    assert_eq!(u256_to_bigdecimal(&[0xff; 32]), alloy::primitives::U256::MAX.to_string());
}

fn encode_array(values: &[u64]) -> Vec<u8> {
    let mut d = Vec::new();
    d.extend_from_slice(&word(32));
    d.extend_from_slice(&word(values.len() as u64));
    for v in values {
        d.extend_from_slice(&word(*v));
    }
    d
}

fn encode_string(s: &[u8]) -> Vec<u8> {
    let mut d = Vec::new();
    d.extend_from_slice(&word(32));
    d.extend_from_slice(&word(s.len() as u64));
    d.extend_from_slice(s);
    d
}

#[test]
fn abi_arrays_and_strings_decode() {
    let d = encode_array(&[60, 40]);
    assert_eq!(parse_u256_array(&d), Some(vec![word(60), word(40)]));
    assert_eq!(parse_u256_array(&d[..63]), None);
    assert_eq!(parse_u256_array(&d[..95]), None);
    assert_eq!(parse_string(&encode_string(b"bad source")), Some("bad source".to_string()));
    assert_eq!(parse_string(&encode_string(&[0xff, 0xfe])), None);
    assert_eq!(parse_string(&encode_string(b"abc")[..66]), None);
    let mut huge = encode_array(&[1]);
    huge[..32].copy_from_slice(&[0xff; 32]);
    assert!(array_decode_would_overflow(&huge));
    assert!(string_decode_would_overflow(&huge));
    assert!(!array_decode_would_overflow(&d));
}

#[test]
fn topics_identify_events() {
    assert_eq!(
        topic_hash(b"Deposited(address,uint256,uint256)"),
        alloy::primitives::keccak256(b"Deposited(address,uint256,uint256)").0
    );
    assert_eq!(classify_topic(&topic_of(EventKind::Deposited)), Some(EventKind::Deposited));
    assert_eq!(classify_topic(&topic_of(EventKind::DisputeResolved)), Some(EventKind::DisputeResolved));
    assert_eq!(classify_topic(&[0; 32]), None);
}

#[test]
fn deposits_and_withdrawals_decode() {
    let cfg = config();
    let ctx = HandlerCtx { block_number: 99, config: &cfg, addr_bytes: &[0xc1; 20] };
    let topics = vec![topic_of(EventKind::Deposited), user_topic(7)];
    let data = [word(1_000_000), word(5)].concat();
    match handle_deposited(&topics, &data, &ctx).unwrap().unwrap() {
        EventEffect::CreditUsdc { user, amount, amount_text, block_key } => {
            assert_eq!(user, [7; 20]);
            assert_eq!(amount, word(1_000_000));
            assert_eq!(amount_text, "1000000");
            assert_eq!(block_key, 99);
        }
        other => panic!("unexpected {:?}", other),
    }
    assert!(handle_deposited(&topics[..1].to_vec(), &data, &ctx).unwrap().is_none());
    assert!(handle_withdrawn(&topics, &data[..32], &ctx).unwrap().is_none());
    assert!(matches!(handle_withdrawn(&topics, &data, &ctx), Ok(Some(EventEffect::DebitUsdc { .. }))));
    let late = HandlerCtx { block_number: u64::MAX, config: &cfg, addr_bytes: &[] };
    let e = handle_deposited(&topics, &data, &late).unwrap_err();
    assert_eq!(
        e,
        Error::Domain(DomainError::Conversion { field: ConversionField::BlockNumber, from_word: false })
    );
    assert_eq!(
        e.message(),
        "domain error: block_number conversion error: out of range integral type conversion attempted"
    );
}

#[test]
fn markets_and_nonces_refuse_oversized_values() {
    let cfg = config();
    let ctx = HandlerCtx { block_number: 3, config: &cfg, addr_bytes: &[] };
    let topics = vec![topic_of(EventKind::MarketCreated), [4; 32]];
    let data = [word(77), word(1_700_000_000)].concat();
    match handle_market_created(&topics, &data, &ctx).unwrap().unwrap() {
        EventEffect::MarketCreated { market_id, question_id, expiry, block_key } => {
            assert_eq!(market_id, [4; 32]);
            assert_eq!(question_id, "77");
            assert_eq!((expiry, block_key), (1_700_000_000, 3));
        }
        other => panic!("unexpected {:?}", other),
    }
    let data = [word(77), [0xff; 32]].concat();
    let e = handle_market_created(&topics, &data, &ctx).unwrap_err();
    assert_eq!(e.message(), "domain error: expiry conversion error: Uint<256> value is too large for i64");
    let topics = vec![topic_of(EventKind::NonceInvalidated), user_topic(2)];
    assert!(matches!(
        handle_nonce_invalidated(&topics, &word(8)),
        Ok(Some(EventEffect::NonceInvalidated { nonce: 8, .. }))
    ));
    assert_eq!(
        handle_nonce_invalidated(&topics, &[0xff; 32]).unwrap_err(),
        Error::Domain(DomainError::Conversion { field: ConversionField::Nonce, from_word: true })
    );
}

#[test]
fn dispatch_routes_by_first_topic() {
    let cfg = config();
    let ctx = HandlerCtx { block_number: 3, config: &cfg, addr_bytes: &[] };
    let data = encode_array(&[100, 0]);
    let topics = vec![topic_of(EventKind::OutcomeResolved), [4; 32]];
    assert!(dispatch_decodable(&topics, &data));
    match dispatch(&topics, &data, &ctx).unwrap().unwrap() {
        EventEffect::Resolved { market_id, payouts } => {
            assert_eq!(market_id, [4; 32]);
            assert_eq!(payouts, vec!["100".to_string(), "0".to_string()]);
        }
        other => panic!("unexpected {:?}", other),
    }
    assert!(dispatch(&vec![], &data, &ctx).unwrap().is_none());
    assert!(dispatch(&vec![[0; 32]], &data, &ctx).unwrap().is_none());
    let unhandled = vec![topic_of(EventKind::SignerApprovalSet), [1; 32]];
    assert!(dispatch(&unhandled, &data, &ctx).unwrap().is_none());
    let disputed = vec![topic_of(EventKind::OutcomeDisputed), [4; 32], user_topic(6)];
    let reason = encode_string(b"wrong source");
    match dispatch(&disputed, &reason, &ctx).unwrap().unwrap() {
        EventEffect::OutcomeDisputed { disputer, reason, .. } => {
            assert_eq!(disputer, [6; 20]);
            assert_eq!(reason, "wrong source");
        }
        other => panic!("unexpected {:?}", other),
    }
}

#[test]
fn finalization_stops_at_the_first_block_not_finalized() {
    assert!(continue_finalizing(BlockOutcome::Finalized));
    assert!(!continue_finalizing(BlockOutcome::Failed));
    assert!(!continue_finalizing(BlockOutcome::Reorged));
}
