//! Contract events seen by the indexer: recognizing an event by its first topic, and
//! decoding each handled event into the change it makes to the off-chain state.
use crate::abi::{
    array_decode, array_decode_overflows, array_decode_would_overflow, parse_string, parse_u256_array,
    string_bytes, string_decode_overflows, string_decode_would_overflow, topic_hash,
};
use crate::config::AppConfig;
use crate::crypto::spec_keccak256;
use crate::error::{ConversionField, DomainError, Error};
use crate::words::{be_value, decimal_of, read_word, u256_to_bigdecimal, word_at, word_to_i64};
use vstd::prelude::*;
use vstd::utf8::{decode_utf8, encode_utf8, valid_utf8};

verus! {

/// What a handler knows of the log it handles.
pub struct HandlerCtx<'a> {
    pub block_number: u64,
    pub config: &'a AppConfig,
    pub addr_bytes: &'a [u8],
}

/// The events the indexer dispatches, in the order their hashes are compared.
#[derive(Clone, Copy, PartialEq, Eq, Debug)]
pub enum EventKind {
    Deposited,
    NetDeltasApplied,
    NonceInvalidated,
    OutcomeResolved,
    Withdrawn,
    ForcedWithdrawalRequested,
    ForcedWithdrawalCancelled,
    ForcedWithdrawalExecuted,
    ForcedWithdrawalDelayUpdated,
    SignerApprovalSet,
    FeeRatesUpdated,
    MarketCreated,
    OutcomeProposed,
    OutcomeRevealed,
    OutcomeDisputed,
    DisputeResolved,
}

/// The Solidity signature of each event.
pub open spec fn signature_text(k: EventKind) -> Seq<char> {
    match k {
        EventKind::Deposited => "Deposited(address,uint256,uint256)"@,
        EventKind::NetDeltasApplied => "NetDeltasApplied(bytes32,uint256)"@,
        EventKind::NonceInvalidated => "NonceInvalidated(address,uint256)"@,
        EventKind::OutcomeResolved => "OutcomeResolved(bytes32,uint256[])"@,
        EventKind::Withdrawn => "Withdrawn(address,address,uint256,uint256)"@,
        EventKind::ForcedWithdrawalRequested => "ForcedWithdrawalRequested(address,uint256)"@,
        EventKind::ForcedWithdrawalCancelled => "ForcedWithdrawalCancelled(address)"@,
        EventKind::ForcedWithdrawalExecuted => "ForcedWithdrawalExecuted(address,address,uint256)"@,
        EventKind::ForcedWithdrawalDelayUpdated => "ForcedWithdrawalDelayUpdated(uint256,uint256)"@,
        EventKind::SignerApprovalSet => "SignerApprovalSet(address,address,bool)"@,
        EventKind::FeeRatesUpdated => "FeeRatesUpdated(uint256,uint256)"@,
        EventKind::MarketCreated => "MarketCreated(bytes32,bytes32,uint256)"@,
        EventKind::OutcomeProposed => "OutcomeProposed(bytes32,bytes32,address)"@,
        EventKind::OutcomeRevealed => "OutcomeRevealed(bytes32,uint256[])"@,
        EventKind::OutcomeDisputed => "OutcomeDisputed(bytes32,address,string)"@,
        EventKind::DisputeResolved => "DisputeResolved(bytes32,uint256[])"@,
    }
}

/// The signature of an event.
pub fn event_signature(k: EventKind) -> (r: &'static str)
    ensures
        r@ == signature_text(k),
{
    match k {
        EventKind::Deposited => "Deposited(address,uint256,uint256)",
        EventKind::NetDeltasApplied => "NetDeltasApplied(bytes32,uint256)",
        EventKind::NonceInvalidated => "NonceInvalidated(address,uint256)",
        EventKind::OutcomeResolved => "OutcomeResolved(bytes32,uint256[])",
        EventKind::Withdrawn => "Withdrawn(address,address,uint256,uint256)",
        EventKind::ForcedWithdrawalRequested => "ForcedWithdrawalRequested(address,uint256)",
        EventKind::ForcedWithdrawalCancelled => "ForcedWithdrawalCancelled(address)",
        EventKind::ForcedWithdrawalExecuted => "ForcedWithdrawalExecuted(address,address,uint256)",
        EventKind::ForcedWithdrawalDelayUpdated => "ForcedWithdrawalDelayUpdated(uint256,uint256)",
        EventKind::SignerApprovalSet => "SignerApprovalSet(address,address,bool)",
        EventKind::FeeRatesUpdated => "FeeRatesUpdated(uint256,uint256)",
        EventKind::MarketCreated => "MarketCreated(bytes32,bytes32,uint256)",
        EventKind::OutcomeProposed => "OutcomeProposed(bytes32,bytes32,address)",
        EventKind::OutcomeRevealed => "OutcomeRevealed(bytes32,uint256[])",
        EventKind::OutcomeDisputed => "OutcomeDisputed(bytes32,address,string)",
        EventKind::DisputeResolved => "DisputeResolved(bytes32,uint256[])",
    }
}

/// The first topic of an event's logs: the hash of its signature.
pub open spec fn kind_hash(k: EventKind) -> Seq<u8> {
    spec_keccak256(encode_utf8(signature_text(k)))
}

/// The order in which the indexer compares a topic with the events' hashes.
pub open spec fn dispatch_order() -> Seq<EventKind> {
    seq![
        EventKind::Deposited,
        EventKind::NetDeltasApplied,
        EventKind::NonceInvalidated,
        EventKind::OutcomeResolved,
        EventKind::Withdrawn,
        EventKind::ForcedWithdrawalRequested,
        EventKind::ForcedWithdrawalCancelled,
        EventKind::ForcedWithdrawalExecuted,
        EventKind::ForcedWithdrawalDelayUpdated,
        EventKind::SignerApprovalSet,
        EventKind::FeeRatesUpdated,
        EventKind::MarketCreated,
        EventKind::OutcomeProposed,
        EventKind::OutcomeRevealed,
        EventKind::OutcomeDisputed,
        EventKind::DisputeResolved,
    ]
}

fn kind_at(i: usize) -> (k: EventKind)
    requires
        i < 16,
    ensures
        k == dispatch_order()[i as int],
{
    if i == 0 {
        EventKind::Deposited
    } else if i == 1 {
        EventKind::NetDeltasApplied
    } else if i == 2 {
        EventKind::NonceInvalidated
    } else if i == 3 {
        EventKind::OutcomeResolved
    } else if i == 4 {
        EventKind::Withdrawn
    } else if i == 5 {
        EventKind::ForcedWithdrawalRequested
    } else if i == 6 {
        EventKind::ForcedWithdrawalCancelled
    } else if i == 7 {
        EventKind::ForcedWithdrawalExecuted
    } else if i == 8 {
        EventKind::ForcedWithdrawalDelayUpdated
    } else if i == 9 {
        EventKind::SignerApprovalSet
    } else if i == 10 {
        EventKind::FeeRatesUpdated
    } else if i == 11 {
        EventKind::MarketCreated
    } else if i == 12 {
        EventKind::OutcomeProposed
    } else if i == 13 {
        EventKind::OutcomeRevealed
    } else if i == 14 {
        EventKind::OutcomeDisputed
    } else {
        EventKind::DisputeResolved
    }
}

/// The first event, from position `i` of the dispatch order on, whose signature hash
/// is `topic`.
pub open spec fn first_kind_from(topic: Seq<u8>, i: nat) -> Option<EventKind>
    decreases 16 - i,
{
    if i >= 16 {
        None
    } else if kind_hash(dispatch_order()[i as int]) == topic {
        Some(dispatch_order()[i as int])
    } else {
        first_kind_from(topic, i + 1)
    }
}

/// The event a first topic denotes: the first in dispatch order whose signature hash it
/// is, if any.
pub open spec fn first_kind(topic: Seq<u8>) -> Option<EventKind> {
    first_kind_from(topic, 0)
}

/// Recognize an event by its first topic.
pub fn classify_topic(topic0: &[u8; 32]) -> (r: Option<EventKind>)
    ensures
        r == first_kind(topic0@),
{
    let mut i: usize = 0;
    while i < 16
        invariant
            i <= 16,
            first_kind(topic0@) == first_kind_from(topic0@, i as nat),
        decreases 16 - i,
    {
        let k = kind_at(i);
        let h = topic_hash(event_signature(k).as_bytes());
        let mut same = true;
        let mut b: usize = 0;
        while b < 32
            invariant
                b <= 32,
                same == (forall|c: int| 0 <= c < b ==> h@[c] == topic0@[c]),
            decreases 32 - b,
        {
            if h[b] != topic0[b] {
                same = false;
            }
            b = b + 1;
        }
        if same {
            assert(h@ =~= topic0@);
            return Some(k);
        }
        proof {
            let c = choose|c: int| 0 <= c < 32 && h@[c] != topic0@[c];
            assert(kind_hash(k) != topic0@);
        }
        i = i + 1;
    }
    None
}

/// The address in the low 20 bytes of an indexed topic.
pub open spec fn topic_address(t: Seq<u8>) -> Seq<u8> {
    t.subrange(12, 32)
}

fn address_of_topic(t: &[u8; 32]) -> (a: [u8; 20])
    ensures
        a@ == topic_address(t@),
{
    let mut a = [0u8; 20];
    let mut i: usize = 0;
    while i < 20
        invariant
            i <= 20,
            forall|k: int| 0 <= k < i ==> a@[k] == t@[12 + k],
        decreases 20 - i,
    {
        a.set(i, t[12 + i]);
        i = i + 1;
    }
    assert(a@ =~= topic_address(t@));
    a
}

/// The change a handled event makes to the off-chain state.
#[derive(Clone, Debug)]
pub enum EventEffect {
    /// A deposit: credit the user's USDC balance, recording the block.
    CreditUsdc { user: [u8; 20], amount: [u8; 32], amount_text: String, block_key: i64 },
    /// A withdrawal: debit the account's USDC balance, recording the block.
    DebitUsdc { account: [u8; 20], amount: [u8; 32], amount_text: String, block_key: i64 },
    /// New fee rates, logged only.
    FeeRates { taker_fee_bps: [u8; 32], maker_rebate_bps: [u8; 32] },
    /// An operator heartbeat, logged only.
    OperatorHeartbeat { timestamp: [u8; 32] },
    /// A new operator inactivity threshold, logged only.
    InactivityThreshold { threshold: [u8; 32] },
    /// A new market, open until `expiry` (Unix seconds).
    MarketCreated { market_id: [u8; 32], question_id: String, expiry: i64, block_key: i64 },
    /// A proposed outcome: store the proposal and mark the market proposed.
    OutcomeProposed { market_id: [u8; 32], proposer: [u8; 20], payouts: Vec<String>, block_key: i64 },
    /// A dispute: mark the proposal and the market disputed.
    OutcomeDisputed { market_id: [u8; 32], disputer: [u8; 20], reason: String },
    /// A final outcome: mark the market and its proposal resolved with these payouts.
    Resolved { market_id: [u8; 32], payouts: Vec<String> },
    /// A user's new cancellation nonce: record it and cancel the user's open orders
    /// with a lower nonce.
    NonceInvalidated { user: [u8; 20], nonce: i64 },
}

fn block_key_of(ctx: &HandlerCtx) -> (r: Result<i64, Error>)
    ensures
        ctx.block_number <= i64::MAX ==> r == Ok::<i64, Error>(ctx.block_number as i64),
        ctx.block_number > i64::MAX ==> r == Err::<i64, Error>(
            Error::Domain(DomainError::Conversion { field: ConversionField::BlockNumber, from_word: false }),
        ),
{
    if ctx.block_number <= 0x7fff_ffff_ffff_ffff {
        Ok(ctx.block_number as i64)
    } else {
        Err(Error::Domain(DomainError::Conversion { field: ConversionField::BlockNumber, from_word: false }))
    }
}

/// The block-number conversion error.
pub open spec fn block_error() -> Error {
    Error::Domain(DomainError::Conversion { field: ConversionField::BlockNumber, from_word: false })
}

fn decimals(ws: &Vec<[u8; 32]>) -> (r: Vec<String>)
    ensures
        r@.len() == ws@.len(),
        forall|i: int| 0 <= i < r@.len() ==> (#[trigger] r@[i])@ == decimal_of(be_value(ws@[i]@)),
{
    let mut out: Vec<String> = Vec::new();
    let mut i: usize = 0;
    while i < ws.len()
        invariant
            i <= ws@.len(),
            out@.len() == i,
            forall|k: int| 0 <= k < i ==> (#[trigger] out@[k])@ == decimal_of(be_value(ws@[k]@)),
        decreases ws@.len() - i,
    {
        out.push(u256_to_bigdecimal(&ws[i]));
        i = i + 1;
    }
    out
}

/// The result type of the handlers that can refuse a log.
pub type HandlerResult = Result<Option<EventEffect>, Error>;

/// What `handle_deposited` gives: skipped without the user topic or a full word of
/// data; refused when the block number does not fit; otherwise a credit of the data's
/// first word to the user of the second topic.
pub open spec fn deposited_matches(r: HandlerResult, topics: Seq<[u8; 32]>, data: Seq<u8>, block: u64) -> bool {
    if topics.len() < 2 || data.len() < 32 {
        r == HandlerResult::Ok(None)
    } else if block > i64::MAX {
        r == HandlerResult::Err(block_error())
    } else {
        r matches Ok(Some(EventEffect::CreditUsdc { user, amount, amount_text, block_key }))
            && user@ == topic_address(topics[1]@) && amount@ == word_at(data, 0) && amount_text@
            == decimal_of(be_value(amount@)) && block_key == block
    }
}

/// What the debit handlers give: skipped without the account topic or `min_data` bytes
/// of data; refused when the block number does not fit; otherwise a debit of the data's
/// first word from the account of the second topic.
pub open spec fn debit_matches(
    r: HandlerResult,
    topics: Seq<[u8; 32]>,
    data: Seq<u8>,
    block: u64,
    min_data: nat,
) -> bool {
    if topics.len() < 2 || data.len() < min_data {
        r == HandlerResult::Ok(None)
    } else if block > i64::MAX {
        r == HandlerResult::Err(block_error())
    } else {
        r matches Ok(Some(EventEffect::DebitUsdc { account, amount, amount_text, block_key }))
            && account@ == topic_address(topics[1]@) && amount@ == word_at(data, 0) && amount_text@
            == decimal_of(be_value(amount@)) && block_key == block
    }
}

/// What `handle_market_created` gives: skipped without the market topic or two words of
/// data; refused when the expiry, then the block number, does not fit a signed 64-bit
/// integer; otherwise the market with its question id in decimal.
pub open spec fn market_created_matches(
    r: HandlerResult,
    topics: Seq<[u8; 32]>,
    data: Seq<u8>,
    block: u64,
) -> bool {
    if topics.len() < 2 || data.len() < 64 {
        r == HandlerResult::Ok(None)
    } else if be_value(word_at(data, 32)) > i64::MAX {
        r == HandlerResult::Err(
            Error::Domain(DomainError::Conversion { field: ConversionField::Expiry, from_word: true }),
        )
    } else if block > i64::MAX {
        r == HandlerResult::Err(block_error())
    } else {
        r matches Ok(Some(EventEffect::MarketCreated { market_id, question_id, expiry, block_key }))
            && market_id@ == topics[1]@ && question_id@ == decimal_of(be_value(word_at(data, 0)))
            && expiry == be_value(word_at(data, 32)) && block_key == block
    }
}

/// Payout texts are the decimal values of the words.
pub open spec fn payouts_match(payouts: Seq<String>, ws: Seq<Seq<u8>>) -> bool {
    payouts.len() == ws.len() && forall|i: int|
        0 <= i < ws.len() ==> (#[trigger] payouts[i])@ == decimal_of(be_value(ws[i]))
}

/// What `handle_outcome_proposed` gives: skipped without the market and proposer
/// topics or a decodable `uint256[]`; refused when the block number does not fit.
pub open spec fn outcome_proposed_matches(
    r: HandlerResult,
    topics: Seq<[u8; 32]>,
    data: Seq<u8>,
    block: u64,
) -> bool {
    if topics.len() < 3 {
        r == HandlerResult::Ok(None)
    } else {
        match array_decode(data) {
            None => r == HandlerResult::Ok(None),
            Some(ws) => if block > i64::MAX {
                r == HandlerResult::Err(block_error())
            } else {
                r matches Ok(Some(EventEffect::OutcomeProposed { market_id, proposer, payouts, block_key }))
                    && market_id@ == topics[1]@ && proposer@ == topic_address(topics[2]@)
                    && payouts_match(payouts@, ws) && block_key == block
            },
        }
    }
}

/// What `handle_outcome_disputed` gives: skipped without the market and disputer
/// topics or a decodable UTF-8 `string`.
pub open spec fn outcome_disputed_matches(r: Option<EventEffect>, topics: Seq<[u8; 32]>, data: Seq<u8>) -> bool {
    if topics.len() < 3 {
        r is None
    } else {
        match string_bytes(data) {
            Some(b) => if valid_utf8(b) {
                r matches Some(EventEffect::OutcomeDisputed { market_id, disputer, reason })
                    && market_id@ == topics[1]@ && disputer@ == topic_address(topics[2]@) && reason@
                    == decode_utf8(b)
            } else {
                r is None
            },
            None => r is None,
        }
    }
}

/// What the resolution handlers give: skipped without the market topic or a decodable
/// `uint256[]`.
pub open spec fn resolved_matches(r: Option<EventEffect>, topics: Seq<[u8; 32]>, data: Seq<u8>) -> bool {
    if topics.len() < 2 {
        r is None
    } else {
        match array_decode(data) {
            None => r is None,
            Some(ws) => r matches Some(EventEffect::Resolved { market_id, payouts })
                && market_id@ == topics[1]@ && payouts_match(payouts@, ws),
        }
    }
}

/// What `handle_nonce_invalidated` gives: skipped without the user topic or a word of
/// data; refused when the nonce does not fit a signed 64-bit integer.
pub open spec fn nonce_invalidated_matches(r: HandlerResult, topics: Seq<[u8; 32]>, data: Seq<u8>) -> bool {
    if topics.len() < 2 || data.len() < 32 {
        r == HandlerResult::Ok(None)
    } else if be_value(word_at(data, 0)) > i64::MAX {
        r == HandlerResult::Err(
            Error::Domain(DomainError::Conversion { field: ConversionField::Nonce, from_word: true }),
        )
    } else {
        r matches Ok(Some(EventEffect::NonceInvalidated { user, nonce })) && user@ == topic_address(
            topics[1]@,
        ) && nonce == be_value(word_at(data, 0))
    }
}

/// `Deposited(user, amount, ...)`.
pub fn handle_deposited(topics: &Vec<[u8; 32]>, data: &[u8], ctx: &HandlerCtx) -> (r: HandlerResult)
    ensures
        deposited_matches(r, topics@, data@, ctx.block_number),
{
    if topics.len() < 2 || data.len() < 32 {
        return Ok(None);
    }
    let user = address_of_topic(&topics[1]);
    let amount = read_word(data, 0);
    let amount_text = u256_to_bigdecimal(&amount);
    let block_key = match block_key_of(ctx) {
        Ok(b) => b,
        Err(e) => {
            return Err(e);
        },
    };
    Ok(Some(EventEffect::CreditUsdc { user, amount, amount_text, block_key }))
}

fn debit(topics: &Vec<[u8; 32]>, data: &[u8], ctx: &HandlerCtx, min_data: usize) -> (r: HandlerResult)
    requires
        min_data >= 32,
    ensures
        debit_matches(r, topics@, data@, ctx.block_number, min_data as nat),
{
    if topics.len() < 2 || data.len() < min_data {
        return Ok(None);
    }
    let account = address_of_topic(&topics[1]);
    let amount = read_word(data, 0);
    let amount_text = u256_to_bigdecimal(&amount);
    let block_key = match block_key_of(ctx) {
        Ok(b) => b,
        Err(e) => {
            return Err(e);
        },
    };
    Ok(Some(EventEffect::DebitUsdc { account, amount, amount_text, block_key }))
}

/// `Withdrawn(account, ..., amount, ...)`: needs two words of data.
pub fn handle_withdrawn(topics: &Vec<[u8; 32]>, data: &[u8], ctx: &HandlerCtx) -> (r: HandlerResult)
    ensures
        debit_matches(r, topics@, data@, ctx.block_number, 64),
{
    debit(topics, data, ctx, 64)
}

/// `ForcedWithdrawalExecuted(account, ..., amount)`: needs one word of data.
pub fn handle_forced_withdrawal_executed(topics: &Vec<[u8; 32]>, data: &[u8], ctx: &HandlerCtx) -> (r:
    HandlerResult)
    ensures
        debit_matches(r, topics@, data@, ctx.block_number, 32),
{
    debit(topics, data, ctx, 32)
}

/// `OperatorHeartbeat(timestamp)`: logged. Skipped without a word of data.
pub fn handle_operator_heartbeat(data: &[u8]) -> (r: Option<EventEffect>)
    ensures
        data@.len() < 32 ==> r is None,
        data@.len() >= 32 ==> (r matches Some(EventEffect::OperatorHeartbeat { timestamp })
            && timestamp@ == word_at(data@, 0)),
{
    if data.len() < 32 {
        return None;
    }
    Some(EventEffect::OperatorHeartbeat { timestamp: read_word(data, 0) })
}

/// `OperatorInactivityThresholdUpdated(threshold)`: logged. Skipped without a word of
/// data.
pub fn handle_operator_inactivity_threshold_updated(data: &[u8]) -> (r: Option<EventEffect>)
    ensures
        data@.len() < 32 ==> r is None,
        data@.len() >= 32 ==> (r matches Some(EventEffect::InactivityThreshold { threshold })
            && threshold@ == word_at(data@, 0)),
{
    if data.len() < 32 {
        return None;
    }
    Some(EventEffect::InactivityThreshold { threshold: read_word(data, 0) })
}

/// What `handle_fee_rates_updated` gives: logged; skipped without two words of data.
pub open spec fn fee_rates_matches(r: Option<EventEffect>, data: Seq<u8>) -> bool {
    if data.len() < 64 {
        r is None
    } else {
        r matches Some(EventEffect::FeeRates { taker_fee_bps, maker_rebate_bps })
            && taker_fee_bps@ == word_at(data, 0) && maker_rebate_bps@ == word_at(data, 32)
    }
}

/// `FeeRatesUpdated(takerFeeBps, makerRebateBps)`.
pub fn handle_fee_rates_updated(data: &[u8]) -> (r: Option<EventEffect>)
    ensures
        fee_rates_matches(r, data@),
{
    if data.len() < 64 {
        return None;
    }
    Some(
        EventEffect::FeeRates {
            taker_fee_bps: read_word(data, 0),
            maker_rebate_bps: read_word(data, 32),
        },
    )
}

/// `MarketCreated(marketId, questionId, expiry)`.
pub fn handle_market_created(topics: &Vec<[u8; 32]>, data: &[u8], ctx: &HandlerCtx) -> (r: HandlerResult)
    ensures
        market_created_matches(r, topics@, data@, ctx.block_number),
{
    if topics.len() < 2 || data.len() < 64 {
        return Ok(None);
    }
    let market_id = topics[1];
    let question_word = read_word(data, 0);
    let expiry_word = read_word(data, 32);
    let expiry = match word_to_i64(&expiry_word) {
        Some(v) => v,
        None => {
            return Err(
                Error::Domain(DomainError::Conversion { field: ConversionField::Expiry, from_word: true }),
            );
        },
    };
    let block_key = match block_key_of(ctx) {
        Ok(b) => b,
        Err(e) => {
            return Err(e);
        },
    };
    Ok(
        Some(
            EventEffect::MarketCreated {
                market_id,
                question_id: u256_to_bigdecimal(&question_word),
                expiry,
                block_key,
            },
        ),
    )
}

/// `OutcomeProposed(marketId, proposer, payouts)`.
pub fn handle_outcome_proposed(topics: &Vec<[u8; 32]>, data: &[u8], ctx: &HandlerCtx) -> (r: HandlerResult)
    requires
        topics@.len() >= 3 ==> !array_decode_overflows(data@),
    ensures
        outcome_proposed_matches(r, topics@, data@, ctx.block_number),
{
    if topics.len() < 3 {
        return Ok(None);
    }
    let market_id = topics[1];
    let proposer = address_of_topic(&topics[2]);
    let words = match parse_u256_array(data) {
        Some(w) => w,
        None => {
            return Ok(None);
        },
    };
    let payouts = decimals(&words);
    let block_key = match block_key_of(ctx) {
        Ok(b) => b,
        Err(e) => {
            return Err(e);
        },
    };
    proof {
        let ws = array_decode(data@).unwrap();
        assert forall|i: int| 0 <= i < ws.len() implies (#[trigger] payouts@[i])@ == decimal_of(be_value(ws[i])) by {
            assert(words@[i]@ == ws[i]);
        }
    }
    Ok(Some(EventEffect::OutcomeProposed { market_id, proposer, payouts, block_key }))
}

/// `OutcomeDisputed(marketId, disputer, reason)`.
pub fn handle_outcome_disputed(topics: &Vec<[u8; 32]>, data: &[u8]) -> (r: Option<EventEffect>)
    requires
        topics@.len() >= 3 ==> !string_decode_overflows(data@),
    ensures
        outcome_disputed_matches(r, topics@, data@),
{
    if topics.len() < 3 {
        return None;
    }
    let market_id = topics[1];
    let disputer = address_of_topic(&topics[2]);
    match parse_string(data) {
        Some(reason) => Some(EventEffect::OutcomeDisputed { market_id, disputer, reason }),
        None => None,
    }
}

fn resolved_effect(topics: &Vec<[u8; 32]>, data: &[u8]) -> (r: Option<EventEffect>)
    requires
        topics@.len() >= 2 ==> !array_decode_overflows(data@),
    ensures
        resolved_matches(r, topics@, data@),
{
    if topics.len() < 2 {
        return None;
    }
    let market_id = topics[1];
    match parse_u256_array(data) {
        Some(words) => {
            let payouts = decimals(&words);
            proof {
                let ws = array_decode(data@).unwrap();
                assert forall|i: int| 0 <= i < ws.len() implies (#[trigger] payouts@[i])@ == decimal_of(be_value(ws[i])) by {
                    assert(words@[i]@ == ws[i]);
                }
            }
            Some(EventEffect::Resolved { market_id, payouts })
        },
        None => None,
    }
}

/// `OutcomeResolved(marketId, payouts)`.
pub fn handle_outcome_resolved(topics: &Vec<[u8; 32]>, data: &[u8]) -> (r: Option<EventEffect>)
    requires
        topics@.len() >= 2 ==> !array_decode_overflows(data@),
    ensures
        resolved_matches(r, topics@, data@),
{
    resolved_effect(topics, data)
}

/// `DisputeResolved(marketId, payouts)`: as `OutcomeResolved`.
pub fn handle_dispute_resolved(topics: &Vec<[u8; 32]>, data: &[u8]) -> (r: Option<EventEffect>)
    requires
        topics@.len() >= 2 ==> !array_decode_overflows(data@),
    ensures
        resolved_matches(r, topics@, data@),
{
    resolved_effect(topics, data)
}

/// `NonceInvalidated(user, nonce)`.
pub fn handle_nonce_invalidated(topics: &Vec<[u8; 32]>, data: &[u8]) -> (r: HandlerResult)
    ensures
        nonce_invalidated_matches(r, topics@, data@),
{
    if topics.len() < 2 || data.len() < 32 {
        return Ok(None);
    }
    let user = address_of_topic(&topics[1]);
    let word = read_word(data, 0);
    match word_to_i64(&word) {
        Some(nonce) => Ok(Some(EventEffect::NonceInvalidated { user, nonce })),
        None => Err(Error::Domain(DomainError::Conversion { field: ConversionField::Nonce, from_word: true })),
    }
}

/// A log whose data the dispatcher can decode without overflow.
pub open spec fn dispatch_safe(k: EventKind, data: Seq<u8>) -> bool {
    &&& (k == EventKind::OutcomeResolved || k == EventKind::OutcomeProposed || k
        == EventKind::DisputeResolved) ==> !array_decode_overflows(data)
    &&& k == EventKind::OutcomeDisputed ==> !string_decode_overflows(data)
}

/// What dispatching a recognized log gives: its handler's result; events recognized
/// without a handler are left unhandled.
pub open spec fn dispatch_matches(
    k: EventKind,
    r: HandlerResult,
    topics: Seq<[u8; 32]>,
    data: Seq<u8>,
    block: u64,
) -> bool {
    match k {
        EventKind::Deposited => deposited_matches(r, topics, data, block),
        EventKind::NonceInvalidated => nonce_invalidated_matches(r, topics, data),
        EventKind::OutcomeResolved => r matches Ok(o) && resolved_matches(o, topics, data),
        EventKind::Withdrawn => debit_matches(r, topics, data, block, 64),
        EventKind::ForcedWithdrawalExecuted => debit_matches(r, topics, data, block, 32),
        EventKind::FeeRatesUpdated => r matches Ok(o) && fee_rates_matches(o, data),
        EventKind::MarketCreated => market_created_matches(r, topics, data, block),
        EventKind::OutcomeProposed => outcome_proposed_matches(r, topics, data, block),
        EventKind::OutcomeDisputed => r matches Ok(o) && outcome_disputed_matches(o, topics, data),
        EventKind::DisputeResolved => r matches Ok(o) && resolved_matches(o, topics, data),
        _ => r == HandlerResult::Ok(None),
    }
}

/// Hand a recognized log to its handler.
pub fn dispatch_kind(k: EventKind, topics: &Vec<[u8; 32]>, data: &[u8], ctx: &HandlerCtx) -> (r: HandlerResult)
    requires
        dispatch_safe(k, data@),
    ensures
        dispatch_matches(k, r, topics@, data@, ctx.block_number),
{
    match k {
        EventKind::Deposited => handle_deposited(topics, data, ctx),
        EventKind::NonceInvalidated => handle_nonce_invalidated(topics, data),
        EventKind::OutcomeResolved => Ok(handle_outcome_resolved(topics, data)),
        EventKind::Withdrawn => handle_withdrawn(topics, data, ctx),
        EventKind::ForcedWithdrawalExecuted => handle_forced_withdrawal_executed(topics, data, ctx),
        EventKind::FeeRatesUpdated => Ok(handle_fee_rates_updated(data)),
        EventKind::MarketCreated => handle_market_created(topics, data, ctx),
        EventKind::OutcomeProposed => handle_outcome_proposed(topics, data, ctx),
        EventKind::OutcomeDisputed => Ok(handle_outcome_disputed(topics, data)),
        EventKind::DisputeResolved => Ok(handle_dispute_resolved(topics, data)),
        _ => Ok(None),
    }
}

/// Dispatch a log by its first topic: a log without topics, or with an unknown first
/// topic, is left unhandled; a recognized one goes to its handler.
pub fn dispatch(topics: &Vec<[u8; 32]>, data: &[u8], ctx: &HandlerCtx) -> (r: HandlerResult)
    requires
        topics@.len() > 0 ==> (first_kind(topics@[0]@) matches Some(k) ==> dispatch_safe(k, data@)),
    ensures
        topics@.len() == 0 ==> r == HandlerResult::Ok(None),
        topics@.len() > 0 ==> match first_kind(topics@[0]@) {
            Some(k) => dispatch_matches(k, r, topics@, data@, ctx.block_number),
            None => r == HandlerResult::Ok(None),
        },
{
    if topics.len() == 0 {
        return Ok(None);
    }
    match classify_topic(&topics[0]) {
        Some(k) => dispatch_kind(k, topics, data, ctx),
        None => Ok(None),
    }
}

/// Whether `dispatch` can take this log: its data decodes without overflow for the
/// handler its first topic selects.
pub fn dispatch_decodable(topics: &Vec<[u8; 32]>, data: &[u8]) -> (r: bool)
    ensures
        r == (topics@.len() > 0 ==> (first_kind(topics@[0]@) matches Some(k) ==> dispatch_safe(k, data@))),
{
    if topics.len() == 0 {
        return true;
    }
    match classify_topic(&topics[0]) {
        Some(k) => {
            let array = match k {
                EventKind::OutcomeResolved | EventKind::OutcomeProposed | EventKind::DisputeResolved => true,
                _ => false,
            };
            if array && array_decode_would_overflow(data) {
                return false;
            }
            match k {
                EventKind::OutcomeDisputed => !string_decode_would_overflow(data),
                _ => true,
            }
        },
        None => true,
    }
}

} // verus!
