use omniscient::resolution::{
    ai_reply_from_content, apply_step, choose_resolver, compute_commitment, proposal_write, reveal_step,
    status_from_text, status_text, AiReply, AiResolver, ApiResolver, ProposalStatus, ProposalWrite, ResolutionSpec,
    ResolveError, ResolverChoice, SpecError,
};
use omniscient::service::MatchEvent;
use omniscient::settlement::{settle_fill, BatchState, BATCH_SIZE_THRESHOLD};
use omniscient::types::MarketId;

fn event(maker: &str, amount: u64) -> MatchEvent {
    MatchEvent {
        market_id: "0x04".to_string(),
        maker: maker.to_string(),
        taker: "0x02".to_string(),
        price: 500_000,
        amount,
        side: "buy".to_string(),
    }
}

#[test]
fn batches_net_amounts_per_maker() {
    let mut b = BatchState::new();
    assert!(b.is_empty());
    assert!(!b.on_message(Some(event("0xaa", 10))));
    assert!(!b.on_message(Some(event("0xbb", 5))));
    assert!(!b.on_message(Some(event("0xaa", 7))));
    assert!(!b.on_message(None));
    assert_eq!(b.event_count(), 3);
    assert_eq!(b.delta_of("0xaa"), Some(17));
    assert_eq!(b.delta_of("0xbb"), Some(5));
    assert_eq!(b.delta_of("0xcc"), None);
    b.clear();
    assert_eq!(b.event_count(), 0);
    assert_eq!(b.delta_of("0xaa"), None);
}

#[test]
fn full_batches_and_old_batches_are_due() {
    let mut b = BatchState::new();
    assert!(!b.due_on_tick(10_000));
    let mut due = false;
    for i in 0..BATCH_SIZE_THRESHOLD {
        due = b.on_message(Some(event("0xaa", i as u64)));
        if i + 1 < BATCH_SIZE_THRESHOLD {
            assert!(!due);
        }
    }
    assert!(due);
    assert!(b.due_on_tick(5_000));
    assert!(!b.due_on_tick(4_999));
}

#[test]
fn batch_ids_hash_the_serialized_deltas() {
    let empty = BatchState::new();
    assert_eq!(empty.compute_batch_id(), alloy::primitives::keccak256(b"[]").0);
    let mut b = BatchState::new();
    b.record(event("0xaa", 1));
    assert_eq!(b.compute_batch_id(), alloy::primitives::keccak256(br#"[[["0xaa","usdc"],1]]"#).0);
    let mut c = BatchState::new();
    c.record(event("0xaa", 2));
    assert_ne!(c.compute_batch_id(), b.compute_batch_id());
    c.record(event("0xbb", 5));
    assert_eq!(
        c.compute_batch_id(),
        alloy::primitives::keccak256(br#"[[["0xaa","usdc"],2],[["0xbb","usdc"],5]]"#).0
    );
}

#[test]
fn settled_fills_update_the_maker_orders() {
    let s = settle_fill(&event("0x0xab01", 9));
    assert_eq!(s.maker_bytes, vec![0xab, 0x01]);
    assert_eq!(s.amount_key, 9);
    let s = settle_fill(&event("zz", u64::MAX));
    assert!(s.maker_bytes.is_empty());
    assert_eq!(s.amount_key, 0);
}

#[test]
fn markets_pick_their_resolver() {
    assert_eq!(choose_resolver("ai"), ResolverChoice::Ai);
    assert_eq!(choose_resolver("api.sports"), ResolverChoice::Fallback);
    assert_eq!(choose_resolver("api"), ResolverChoice::Fallback);
    assert_eq!(choose_resolver("pyth"), ResolverChoice::Fallback);
    let ai = AiResolver { api_url: "u".into(), api_key: "k".into() };
    assert_eq!(ai.id(), "ai");
    assert_eq!(ApiResolver.id(), "api");
    assert_eq!(ai.validate_spec(&ResolutionSpec { resolver_id: "ai".into() }), Ok(()));
    let e = ai.validate_spec(&ResolutionSpec { resolver_id: "api.x".into() }).unwrap_err();
    assert_eq!(e, SpecError::Invalid("resolver_id must be 'ai'".into()));
    assert_eq!(e.message(), "invalid spec: resolver_id must be 'ai'");
    assert_eq!(ApiResolver.validate_spec(&ResolutionSpec { resolver_id: "api.x".into() }), Ok(()));
    assert_eq!(
        ApiResolver.validate_spec(&ResolutionSpec { resolver_id: "ai".into() }),
        Err(SpecError::Invalid("resolver_id must start with 'api.'".into()))
    );
    assert_eq!(ai.authorization(), "Bearer k");
}

#[test]
fn low_confidence_replies_fall_back() {
    let ai = AiResolver { api_url: "u".into(), api_key: "k".into() };
    let reply = |c: Option<u64>| AiReply { outcome: Some(1), confidence: c, evidence_urls: vec![] };
    assert!(!ai.screen(&reply(None)));
    assert!(!ai.screen(&reply(Some(69))));
    assert!(ai.screen(&reply(Some(70))));
    assert!(!ai.screen(&reply(Some(256 + 10))));
}

#[test]
fn proposals_split_the_payout() {
    let ai = AiResolver { api_url: "u".into(), api_key: "k".into() };
    let p = ai.proposal(&AiReply {
        outcome: Some(100),
        confidence: Some(95),
        evidence_urls: vec!["https://a".into(), "https://b".into()],
    });
    assert_eq!(p.outcome, 100);
    assert_eq!(p.payouts, vec![0, 100]);
    assert_eq!(p.confidence, 95);
    assert_eq!(p.evidence.len(), 2);
    assert!(p.evidence.iter().all(|e| e.verified));
    assert_eq!(p.evidence[1].url, "https://b");
    let p = ApiResolver.proposal(None, None);
    assert_eq!((p.outcome, p.confidence), (0, 100));
    assert_eq!(p.payouts, vec![100, 0]);
    assert!(p.evidence.is_empty());
    let p = ApiResolver.proposal(Some(256 + 40), Some(80));
    assert_eq!(p.outcome, 40);
    assert_eq!(p.payouts.iter().sum::<u64>(), 100);
}

#[test]
fn commitments_bind_market_and_payouts() {
    let m = MarketId([3; 32]);
    let mut data = vec![3u8; 32];
    for p in [60u64, 40] {
        data.extend_from_slice(&alloy::primitives::U256::from(p).to_be_bytes::<32>());
    }
    assert_eq!(compute_commitment(&m, &[60, 40]), alloy::primitives::keccak256(&data).0);
    assert_ne!(compute_commitment(&m, &[60, 40]), compute_commitment(&m, &[40, 60]));

    let ai = AiResolver { api_url: "u".into(), api_key: "k".into() };
    let p = ai.proposal(&AiReply { outcome: Some(40), confidence: Some(90), evidence_urls: vec![] });
    match proposal_write(&m, &Ok(p)) {
        ProposalWrite::Proposed { commitment, payouts, confidence, evidence } => {
            assert_eq!(commitment, compute_commitment(&m, &[60, 40]));
            assert_eq!(payouts, vec![60i64, 40]);
            assert_eq!(confidence, 90);
            assert!(evidence.is_empty());
        }
        ProposalWrite::Fallback => panic!("expected a proposal"),
    }
    assert!(matches!(proposal_write(&m, &Err(ResolveError::Fallback)), ProposalWrite::Fallback));
}

#[test]
fn proposals_go_through_commit_and_reveal() {
    assert_eq!(reveal_step(ProposalStatus::Pending), Some((ProposalStatus::Committed, 300)));
    assert_eq!(reveal_step(ProposalStatus::Committed), Some((ProposalStatus::Revealed, 3600)));
    assert_eq!(reveal_step(ProposalStatus::Revealed), Some((ProposalStatus::Resolved, 0)));
    assert_eq!(reveal_step(ProposalStatus::Resolved), None);
    assert_eq!(status_text(ProposalStatus::Pending), "pending");
    assert_eq!(status_text(ProposalStatus::Resolved), "resolved");
}

#[test]
fn llm_reply_fields_are_read_from_json() {
    let r = ai_reply_from_content(
        r#"{"outcome": 100, "confidence": 85, "evidence": [{"url": "https://a"}, {"title": "x"}, {"url": "https://b"}]}"#,
    );
    assert_eq!(r.outcome, Some(100));
    assert_eq!(r.confidence, Some(85));
    assert_eq!(r.evidence_urls, vec!["https://a".to_string(), "https://b".to_string()]);
}

#[test]
fn llm_reply_that_is_not_json_reads_as_zero() {
    let r = ai_reply_from_content("The answer is yes.");
    assert_eq!(r.outcome, Some(0));
    assert_eq!(r.confidence, Some(0));
    assert!(r.evidence_urls.is_empty());
}

#[test]
fn llm_reply_with_other_shapes_reads_missing_fields() {
    let r = ai_reply_from_content(r#"{"outcome": "yes", "confidence": 90, "evidence": "none"}"#);
    assert_eq!(r.outcome, None);
    assert_eq!(r.confidence, Some(90));
    assert!(r.evidence_urls.is_empty());
    let r = ai_reply_from_content("7");
    assert_eq!(r.outcome, None);
    assert_eq!(r.confidence, None);
}

#[test]
fn disputed_proposal_is_never_moved() {
    assert_eq!(status_from_text("disputed"), Some(ProposalStatus::Disputed));
    assert_eq!(status_from_text("committed"), Some(ProposalStatus::Committed));
    assert_eq!(status_from_text("done"), None);
    assert_eq!(status_text(ProposalStatus::Disputed), "disputed");
    assert_eq!(reveal_step(ProposalStatus::Disputed), None);
    for expected in [ProposalStatus::Pending, ProposalStatus::Committed, ProposalStatus::Revealed] {
        assert_eq!(apply_step(ProposalStatus::Disputed, expected), ProposalStatus::Disputed);
    }
    assert_eq!(apply_step(ProposalStatus::Pending, ProposalStatus::Pending), ProposalStatus::Committed);
    assert_eq!(apply_step(ProposalStatus::Committed, ProposalStatus::Committed), ProposalStatus::Revealed);
    assert_eq!(apply_step(ProposalStatus::Revealed, ProposalStatus::Revealed), ProposalStatus::Resolved);
    assert_eq!(apply_step(ProposalStatus::Resolved, ProposalStatus::Revealed), ProposalStatus::Resolved);
}

#[test]
fn ai_decision_falls_back_unless_everything_is_confirmed() {
    let ai = AiResolver { api_url: "u".into(), api_key: "k".into() };
    let reply = |confidence: u64| AiReply {
        outcome: Some(100),
        confidence: Some(confidence),
        evidence_urls: vec!["https://a".to_string(), "https://b".to_string()],
    };
    assert!(matches!(ai.decide(&None, &vec![]), Err(ResolveError::Fallback)));
    assert!(matches!(ai.decide(&Some(reply(69)), &vec![true, true]), Err(ResolveError::Fallback)));
    assert!(matches!(ai.decide(&Some(reply(90)), &vec![true, false]), Err(ResolveError::Fallback)));
    assert!(matches!(ai.decide(&Some(reply(90)), &vec![false]), Err(ResolveError::Fallback)));
    let p = ai.decide(&Some(reply(90)), &vec![true, true]).unwrap();
    assert_eq!((p.outcome, p.confidence), (100, 90));
    assert_eq!(p.payouts, vec![0, 100]);
    assert_eq!(p.evidence.len(), 2);
    assert!(p.evidence.iter().all(|e| e.verified));
}

#[test]
fn batch_entries_follow_each_makers_first_event() {
    let mut b = BatchState::new();
    b.record(event("0xbb", 1));
    b.record(event("0xaa", 2));
    b.record(event("0xbb", 3));
    assert_eq!(
        b.compute_batch_id(),
        alloy::primitives::keccak256(br#"[[["0xbb","usdc"],4],[["0xaa","usdc"],2]]"#).0
    );
}
