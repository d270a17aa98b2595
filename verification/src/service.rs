//! The gateway's order service: validating signed orders, planning their acceptance,
//! turning engine results into published events and order updates, and the decisions
//! of the HTTP endpoints.
use crate::book::Fill;
use crate::fees::{buy_volume, spec_buy_volume};
use crate::config::AppConfig;
use crate::constants::PRICE_SCALE;
use crate::crypto::valid_v;
use crate::engine::{MatchCommand, MatchResult};
use crate::error::{error_text, DomainError, Error};
use crate::ids::{parse_uuid, prefixed_hex, spec_parse_uuid};
use crate::words::{be_value, decimal_of, parse_u256_text, spec_parse_u256, u256_to_bigdecimal};
use crate::order::{recovered_signer, verify_order_signature, SignedOrder};
use crate::text::{contains, contains_chars, starts_with_chars, str_equal};
use crate::types::{bytes_equal, to_unsigned_bits, Address, MarketId, OrderId, OrderSide, PositionId};
use vstd::prelude::*;
use vstd::string::StringExecFns;

verus! {

/// Seconds since the Unix epoch on the host clock (`chrono::Utc::now().timestamp()`).
#[verifier::external_body]
fn unix_now() -> (r: i64) {
    chrono::Utc::now().timestamp()
}

/// Price, amount and deadline of an order pass the gateway's checks at time `now`.
pub open spec fn order_terms_ok(signed: SignedOrder, now: u64) -> bool {
    &&& signed.order.deadline > now
    &&& 0 < signed.order.price <= PRICE_SCALE
    &&& signed.order.amount > 0
}

/// What the gateway knows of a maker's nonces: the cancellation nonce recorded from
/// chain (orders below it are invalidated) and the nonces of the maker's stored orders.
#[derive(Clone, Debug)]
pub struct NonceState {
    pub cancellation_nonce: u64,
    pub used: Vec<u64>,
}

/// A nonce is usable when it is not below the cancellation nonce and no stored order
/// of the maker already carries it.
pub open spec fn nonce_ok(nonce: u64, st: NonceState) -> bool {
    nonce >= st.cancellation_nonce && !st.used@.contains(nonce)
}

fn nonce_used(used: &Vec<u64>, nonce: u64) -> (r: bool)
    ensures
        r == used@.contains(nonce),
{
    let mut i: usize = 0;
    while i < used.len()
        invariant
            i <= used@.len(),
            forall|k: int| 0 <= k < i ==> used@[k] != nonce,
        decreases used@.len() - i,
    {
        if used[i] == nonce {
            assert(used@[i as int] == nonce);
            return true;
        }
        i = i + 1;
    }
    false
}

/// What validating `signed` at time `now` gives, as far as the text of a refusal
/// depends on nothing but the inputs (the messages of the signature parser and of
/// signer recovery come from `alloy`, and only their prefix is stated).
pub open spec fn validation_matches(
    r: Result<Address, String>,
    signed: SignedOrder,
    chain_id: u64,
    exchange: Address,
    nonces: NonceState,
    now: u64,
) -> bool {
    let o = signed.order;
    let sig = signed.signature@;
    if o.deadline <= now {
        r matches Err(s) && s@ == "order expired"@
    } else if o.price == 0 || o.price > PRICE_SCALE {
        r matches Err(s) && s@ == "price out of range (0, 1e6]"@
    } else if o.amount == 0 {
        r matches Err(s) && s@ == "amount must be > 0"@
    } else if sig.len() != 65 {
        r matches Err(s) && s@ == "signature verification: "@ + error_text(
            Error::Domain(DomainError::SignatureLength { got: sig.len() as usize }),
        )
    } else if !valid_v(sig[64]) {
        r matches Err(s) && starts_with_chars(
            s@,
            "signature verification: domain error: invalid signature: "@,
        )
    } else {
        match recovered_signer(o, sig, chain_id, exchange) {
            Some(a) => if a != o.maker.0@ {
                r matches Err(s) && s@ == "signature does not match maker"@
            } else if o.nonce < nonces.cancellation_nonce {
                r matches Err(s) && s@ == "invalid nonce: below the cancellation nonce"@
            } else if nonces.used@.contains(o.nonce) {
                r matches Err(s) && s@ == "invalid nonce: already used"@
            } else {
                r == Ok::<Address, String>(o.maker)
            },
            None => r matches Err(s) && starts_with_chars(
                s@,
                "signature verification: domain error: signature recovery failed: "@,
            ),
        }
    }
}

/// Validate a signed order at time `now` (Unix seconds): it must not have expired, its
/// price must lie in `(0, PRICE_SCALE]`, its amount must be positive, and its EIP-712
/// signature for the exchange must recover to its maker, and its nonce must be usable
/// for the maker. Returns the maker.
pub fn validate_signed_order_at(
    signed: &SignedOrder,
    config: &AppConfig,
    nonces: &NonceState,
    now: u64,
) -> (r: Result<Address, String>)
    ensures
        validation_matches(r, *signed, config.chain_id, config.settlement_exchange_addr, *nonces, now),
{
    proof {
        reveal_strlit("order expired");
        reveal_strlit("price out of range (0, 1e6]");
        reveal_strlit("amount must be > 0");
        reveal_strlit("signature verification: ");
        reveal_strlit("signature verification: domain error: invalid signature: ");
        reveal_strlit("signature verification: domain error: signature recovery failed: ");
        reveal_strlit("domain error: ");
        reveal_strlit("invalid signature: ");
        reveal_strlit("signature recovery failed: ");
        reveal_strlit("invalid nonce: below the cancellation nonce");
        reveal_strlit("invalid nonce: already used");
    }
    if signed.order.deadline <= now {
        return Err(String::from_str("order expired"));
    }
    if signed.order.price == 0 || signed.order.price > PRICE_SCALE {
        return Err(String::from_str("price out of range (0, 1e6]"));
    }
    if signed.order.amount == 0 {
        return Err(String::from_str("amount must be > 0"));
    }
    let recovered = match verify_order_signature(
        &signed.order,
        signed.signature.as_slice(),
        config.chain_id,
        config.settlement_exchange_addr,
    ) {
        Ok(a) => a,
        Err(e) => {
            let m = e.message();
            let s = String::from_str("signature verification: ").concat(m.as_str());
            proof {
                let p = "signature verification: "@;
                if signed.signature@.len() == 65 && !valid_v(signed.signature@[64]) {
                    let q = "signature verification: domain error: invalid signature: "@;
                    assert(q =~= p + "domain error: "@ + "invalid signature: "@);
                    assert(s@.subrange(0, q.len() as int) =~= q);
                } else if signed.signature@.len() == 65 {
                    let q = "signature verification: domain error: signature recovery failed: "@;
                    assert(q =~= p + "domain error: "@ + "signature recovery failed: "@);
                    assert(s@.subrange(0, q.len() as int) =~= q);
                }
            }
            return Err(s);
        },
    };
    if !bytes_equal(&recovered.0, &signed.order.maker.0) {
        return Err(String::from_str("signature does not match maker"));
    }
    if signed.order.nonce < nonces.cancellation_nonce {
        return Err(String::from_str("invalid nonce: below the cancellation nonce"));
    }
    if nonce_used(&nonces.used, signed.order.nonce) {
        return Err(String::from_str("invalid nonce: already used"));
    }
    Ok(signed.order.maker)
}

/// Only orders signed by their maker, with a usable nonce, are accepted: whenever
/// validation succeeds, the order had not expired, its terms were in range, the signer
/// recovered from its EIP-712 digest is its maker, its nonce is neither invalidated nor
/// used, and the maker is what is returned.
pub proof fn law_accepted_order_is_signed_by_its_maker(
    r: Result<Address, String>,
    signed: SignedOrder,
    chain_id: u64,
    exchange: Address,
    nonces: NonceState,
    now: u64,
)
    requires
        validation_matches(r, signed, chain_id, exchange, nonces, now),
        r is Ok,
    ensures
        order_terms_ok(signed, now),
        signed.signature@.len() == 65,
        recovered_signer(signed.order, signed.signature@, chain_id, exchange) == Some(
            signed.order.maker.0@,
        ),
        nonce_ok(signed.order.nonce, nonces),
        r == Ok::<Address, String>(signed.order.maker),
{
}

/// Validate a signed order against the host clock. The result is what
/// `validate_signed_order_at` gives for the current time, whatever that time is.
pub fn validate_signed_order(signed: &SignedOrder, config: &AppConfig, nonces: &NonceState) -> (r: Result<
    Address,
    String,
>)
    ensures
        exists|now: u64|
            validation_matches(r, *signed, config.chain_id, config.settlement_exchange_addr, *nonces, now),
{
    let now = to_unsigned_bits(unix_now());
    validate_signed_order_at(signed, config, nonces, now)
}

/// The asset an order reserves, with the position it is held in for outcome shares.
pub open spec fn position_ref_of(signed: SignedOrder) -> Option<PositionId> {
    match signed.order.side {
        OrderSide::Sell => Some(signed.order.position_id),
        OrderSide::Buy => None,
    }
}

/// What accepting a validated order writes and sends, in order: reserve `collateral`
/// of `asset_type` (in `position_ref` for shares), store the order under `order_id`
/// with `deadline_key`, store the hold, and enqueue `command`. When storing the order
/// or the hold fails, the same collateral is released again.
#[derive(Debug)]
pub struct AcceptPlan {
    pub maker: Address,
    pub order_id: OrderId,
    pub collateral: u64,
    pub asset_type: &'static str,
    pub position_ref: Option<PositionId>,
    pub deadline_key: i64,
    pub command: MatchCommand,
    /// The values stored with the order, hold and reservation: the collateral as a
    /// signed 64-bit integer, price, amount and nonce likewise (0 when they do not fit),
    /// the side as text, and positions in decimal.
    pub collateral_key: i64,
    pub price_key: i64,
    pub amount_key: i64,
    pub nonce_key: i64,
    pub side_text: &'static str,
    pub position_text: String,
    pub position_ref_text: Option<String>,
}

/// An unsigned value as stored in a signed 64-bit column: itself, or 0 when too large.
pub open spec fn key_or_zero(v: u64) -> i64 {
    if v <= i64::MAX {
        v as i64
    } else {
        0
    }
}

fn to_key_or_zero(v: u64) -> (r: i64)
    ensures
        r == key_or_zero(v),
{
    if v <= 0x7fff_ffff_ffff_ffff {
        v as i64
    } else {
        0
    }
}

/// The text of a refused reservation: `collateral: domain error: insufficient balance
/// for`, the maker as `0x` hex, and the asset.
pub open spec fn insufficient_text(maker: Address, asset_type: Seq<char>) -> Seq<char> {
    "collateral: domain error: insufficient balance for "@ + prefixed_hex(maker.0@) + " "@ + asset_type
}

/// The refusal of a reservation that the maker's available balance cannot cover.
pub fn insufficient_balance(maker: &Address, asset_type: &str) -> (r: String)
    ensures
        r@ == insufficient_text(*maker, asset_type@),
{
    let s = String::from_str("collateral: domain error: insufficient balance for ");
    let s = s.concat(maker.to_hex_string().as_str());
    let s = s.concat(" ");
    s.concat(asset_type)
}

/// The asset text of an order's side.
pub open spec fn asset_text(side: OrderSide) -> Seq<char> {
    match side {
        OrderSide::Buy => "usdc"@,
        OrderSide::Sell => "ctf"@,
    }
}

/// `p` is the plan for `signed` of `maker` on `market_id` under `order_id`, with its
/// full required collateral.
pub open spec fn plan_matches(
    p: AcceptPlan,
    signed: SignedOrder,
    maker: Address,
    market_id: MarketId,
    order_id: OrderId,
) -> bool {
    &&& p.maker == maker
    &&& p.order_id == order_id
    &&& p.collateral == signed.order.spec_required_collateral()
    &&& p.collateral_key == signed.order.spec_required_collateral()
    &&& p.asset_type@ == asset_text(signed.order.side)
    &&& p.position_ref == position_ref_of(signed)
    &&& p.deadline_key == (if signed.order.deadline <= i64::MAX {
        signed.order.deadline as int
    } else {
        0
    })
    &&& p.command == (MatchCommand::PlaceOrder {
        market_id,
        position_id: signed.order.position_id,
        order_id,
        maker,
        price: signed.order.price,
        amount: signed.order.amount,
        side: signed.order.side,
        nonce: signed.order.nonce,
        deadline: signed.order.deadline,
    })
    &&& p.price_key == key_or_zero(signed.order.price)
    &&& p.amount_key == key_or_zero(signed.order.amount)
    &&& p.nonce_key == key_or_zero(signed.order.nonce)
    &&& p.side_text@ == side_text(signed.order.side)
    &&& p.position_text@ == decimal_of(be_value(signed.order.position_id.0@))
    &&& match p.position_ref_text {
        Some(t) => signed.order.side == OrderSide::Sell && t@ == decimal_of(
            be_value(signed.order.position_id.0@),
        ),
        None => signed.order.side == OrderSide::Buy,
    }
}

/// Plan the acceptance of a signed order of `maker` on `market_id`: reserve its whole
/// required collateral. A collateral beyond the signed 64-bit range of the balances
/// cannot be covered and is refused as an insufficient balance; a deadline beyond that
/// range is stored as 0.
pub fn plan_acceptance(signed: &SignedOrder, maker: Address, market_id: MarketId, order_id: OrderId) -> (r:
    Result<AcceptPlan, String>)
    ensures
        signed.order.spec_required_collateral() > i64::MAX ==> (r matches Err(m) && m@ == insufficient_text(
            maker,
            asset_text(signed.order.side),
        )),
        signed.order.spec_required_collateral() <= i64::MAX ==> (r matches Ok(p) && plan_matches(
            p,
            *signed,
            maker,
            market_id,
            order_id,
        )),
{
    let required = signed.order.required_collateral();
    let asset_type = signed.order.asset_type();
    if required > 0x7fff_ffff_ffff_ffffu128 {
        return Err(insufficient_balance(&maker, asset_type));
    }
    let collateral = required as u64;
    let position_ref = match signed.order.side {
        OrderSide::Sell => Some(signed.order.position_id),
        OrderSide::Buy => None,
    };
    let deadline_key: i64 = if signed.order.deadline <= 0x7fff_ffff_ffff_ffff {
        signed.order.deadline as i64
    } else {
        0
    };
    let position_ref_text = match signed.order.side {
        OrderSide::Sell => Some(u256_to_bigdecimal(&signed.order.position_id.0)),
        OrderSide::Buy => None,
    };
    Ok(
        AcceptPlan {
            collateral_key: collateral as i64,
            price_key: to_key_or_zero(signed.order.price),
            amount_key: to_key_or_zero(signed.order.amount),
            nonce_key: to_key_or_zero(signed.order.nonce),
            side_text: side_str(signed.order.side),
            position_text: u256_to_bigdecimal(&signed.order.position_id.0),
            position_ref_text,
            maker,
            order_id,
            collateral,
            asset_type,
            position_ref,
            deadline_key,
            command: MatchCommand::PlaceOrder {
                market_id,
                position_id: signed.order.position_id,
                order_id,
                maker,
                price: signed.order.price,
                amount: signed.order.amount,
                side: signed.order.side,
                nonce: signed.order.nonce,
                deadline: signed.order.deadline,
            },
        },
    )
}

/// A failure of the order API, with the HTTP status it is answered with.
#[derive(Clone, PartialEq, Eq, Debug)]
pub enum AppError {
    BadRequest(String),
    Unauthorized,
    Internal(String),
}

/// A refusal that is the client's fault: the message names insufficient funds, an
/// expired order, or something invalid.
pub open spec fn is_client_fault(m: Seq<char>) -> bool {
    contains_chars(m, "insufficient"@) || contains_chars(m, "expired"@) || contains_chars(m, "invalid"@)
}

impl AppError {
    /// Classify the message of a failed order operation: the client's fault is a bad
    /// request, anything else an internal error; the message is kept.
    pub fn from_order_error(e: String) -> (r: AppError)
        ensures
            is_client_fault(e@) ==> r == AppError::BadRequest(e),
            !is_client_fault(e@) ==> r == AppError::Internal(e),
    {
        if contains(e.as_str(), "insufficient") || contains(e.as_str(), "expired") || contains(
            e.as_str(),
            "invalid",
        ) {
            AppError::BadRequest(e)
        } else {
            AppError::Internal(e)
        }
    }

    /// The HTTP status of the answer: 400, 401 or 500.
    pub fn status_code(&self) -> (r: u16)
        ensures
            self is BadRequest ==> r == 400,
            self is Unauthorized ==> r == 401,
            self is Internal ==> r == 500,
    {
        match self {
            AppError::BadRequest(_) => 400,
            AppError::Unauthorized => 401,
            AppError::Internal(_) => 500,
        }
    }

    /// The `error` field of the answer's body.
    pub fn message(&self) -> (r: String)
        ensures
            self matches AppError::BadRequest(m) ==> r@ == m@,
            self is Unauthorized ==> r@ == "unauthorized"@,
            self matches AppError::Internal(m) ==> r@ == m@,
    {
        match self {
            AppError::BadRequest(m) => String::from_str(m.as_str()),
            AppError::Unauthorized => String::from_str("unauthorized"),
            AppError::Internal(m) => String::from_str(m.as_str()),
        }
    }
}

/// `prefix` followed by the message of `e`.
fn prefixed_message(prefix: &str, e: &Error) -> (r: String)
    ensures
        r@ == prefix@ + error_text(*e),
{
    String::from_str(prefix).concat(e.message().as_str())
}

/// The market of an order submission, from its hex text; refused as a bad request.
pub fn market_id_param(text: &str) -> (r: Result<MarketId, AppError>)
    ensures
        match crate::ids::parse_hex_outcome(text@, 32, crate::error::IdKind::MarketId) {
            Ok(v) => r matches Ok(m) && m.0@ == v,
            Err(e) => r matches Err(AppError::BadRequest(m)) && m@ == "invalid market_id: "@
                + error_text(e),
        },
{
    match MarketId::from_hex(text) {
        Ok(m) => Ok(m),
        Err(e) => Err(AppError::BadRequest(prefixed_message("invalid market_id: ", &e))),
    }
}

/// A deposit credit accepted by the reconcile endpoint, with the signed 64-bit values
/// stored for it.
#[derive(Clone, Copy, PartialEq, Eq, Debug)]
pub struct ReconcileCredit {
    pub user: Address,
    pub amount_key: i64,
    pub block_key: i64,
}

/// The reconcile endpoint's decision: the `x-internal-secret` header (absent or not
/// text counts as empty) must equal the configured secret, else `Unauthorized`; the user
/// must parse as an address, else a bad request. The deposit is stored saturated to
/// `i64::MAX`, the block number as 0 when it does not fit.
pub fn reconcile_credit(
    secret_header: Option<&str>,
    configured_secret: &str,
    user: &str,
    deposit: u64,
    block_number: u64,
) -> (r: Result<ReconcileCredit, AppError>)
    ensures
        ({
            let given = match secret_header {
                Some(h) => h@,
                None => Seq::<char>::empty(),
            };
            if given != configured_secret@ {
                r == Err::<ReconcileCredit, AppError>(AppError::Unauthorized)
            } else {
                match crate::ids::parse_hex_outcome(user@, 20, crate::error::IdKind::Address) {
                    Ok(v) => r matches Ok(c) && c.user.0@ == v && c.amount_key == (if deposit
                        <= i64::MAX {
                        deposit as int
                    } else {
                        i64::MAX as int
                    }) && c.block_key == (if block_number <= i64::MAX {
                        block_number as int
                    } else {
                        0
                    }),
                    Err(e) => r matches Err(AppError::BadRequest(m)) && m@ == "invalid user address: "@
                        + error_text(e),
                }
            }
        }),
{
    let given: &str = match secret_header {
        Some(h) => h,
        None => "",
    };
    proof {
        reveal_strlit("");
        if secret_header is None {
            assert(given@ =~= Seq::<char>::empty());
        }
    }
    if !str_equal(given, configured_secret) {
        return Err(AppError::Unauthorized);
    }
    let parsed = match Address::from_hex(user) {
        Ok(a) => a,
        Err(e) => {
            return Err(AppError::BadRequest(prefixed_message("invalid user address: ", &e)));
        },
    };
    let amount_key: i64 = if deposit <= 0x7fff_ffff_ffff_ffff {
        deposit as i64
    } else {
        0x7fff_ffff_ffff_ffff
    };
    let block_key: i64 = if block_number <= 0x7fff_ffff_ffff_ffff {
        block_number as i64
    } else {
        0
    };
    Ok(ReconcileCredit { user: parsed, amount_key, block_key })
}

/// The health endpoint's answer.
#[derive(Clone, Copy, PartialEq, Eq, Debug)]
pub struct HealthReport {
    pub status_code: u16,
    pub status: &'static str,
    pub db: bool,
    pub kafka: bool,
}

/// Healthy (200, `ok`) only when both the database and the broker answer; otherwise
/// 503 and `degraded`.
pub fn health_report(db_ok: bool, kafka_ok: bool) -> (r: HealthReport)
    ensures
        r.db == db_ok,
        r.kafka == kafka_ok,
        db_ok && kafka_ok ==> r.status_code == 200 && r.status@ == "ok"@,
        !(db_ok && kafka_ok) ==> r.status_code == 503 && r.status@ == "degraded"@,
{
    if db_ok && kafka_ok {
        HealthReport { status_code: 200, status: "ok", db: db_ok, kafka: kafka_ok }
    } else {
        HealthReport { status_code: 503, status: "degraded", db: db_ok, kafka: kafka_ok }
    }
}

/// A match as published on `orders.matched`.
#[derive(Clone, PartialEq, Eq, Debug)]
pub struct MatchEvent {
    pub market_id: String,
    pub maker: String,
    pub taker: String,
    pub price: u64,
    pub amount: u64,
    pub side: String,
}

/// The text of a side on the wire.
pub open spec fn side_text(side: OrderSide) -> Seq<char> {
    match side {
        OrderSide::Buy => "buy"@,
        OrderSide::Sell => "sell"@,
    }
}

/// `buy` or `sell`.
pub fn side_str(side: OrderSide) -> (r: &'static str)
    ensures
        r@ == side_text(side),
{
    match side {
        OrderSide::Buy => "buy",
        OrderSide::Sell => "sell",
    }
}

/// The event published for a fill: ids as `0x` hex, the taker's side as text.
pub open spec fn event_matches(e: MatchEvent, market_id: MarketId, f: Fill) -> bool {
    &&& e.market_id@ == prefixed_hex(market_id.0@)
    &&& e.maker@ == prefixed_hex(f.maker.0@)
    &&& e.taker@ == prefixed_hex(f.taker.0@)
    &&& e.price == f.price
    &&& e.amount == f.amount
    &&& e.side@ == side_text(f.taker_side)
}

/// The event published for one fill of a match on `market_id`.
pub fn match_event(market_id: &MarketId, fill: &Fill) -> (e: MatchEvent)
    ensures
        event_matches(e, *market_id, *fill),
{
    MatchEvent {
        market_id: market_id.to_hex_string(),
        maker: fill.maker.to_hex_string(),
        taker: fill.taker.to_hex_string(),
        price: fill.price,
        amount: fill.amount,
        side: String::from_str(side_str(fill.taker_side)),
    }
}

/// An update of a stored order after a fill: add `filled_delta` to its filled amount
/// and set its status to `filled` or `open`.
#[derive(Clone, Copy, PartialEq, Eq, Debug)]
pub struct OrderFillUpdate {
    pub order_id: OrderId,
    pub filled_delta: i64,
    pub mark_filled: bool,
}

/// Collateral given back from an order's hold once a fill has used it: `amount` of
/// `asset_type` (in `position` for outcome shares).
#[derive(Clone, Copy, PartialEq, Eq, Debug)]
pub struct CollateralRelease {
    pub order_id: OrderId,
    pub maker: Address,
    pub asset_type: &'static str,
    pub position: Option<PositionId>,
    pub amount: u128,
}

/// What the result processor does for one fill: publish the event, update the maker's
/// and the taker's orders, and release the collateral the fill used from both holds.
#[derive(Clone, Debug)]
pub struct FillRecord {
    pub event: MatchEvent,
    pub maker_update: OrderFillUpdate,
    pub taker_update: OrderFillUpdate,
    pub maker_release: CollateralRelease,
    pub taker_release: CollateralRelease,
}

/// A fill's amount as stored: itself when it fits a signed 64-bit integer, else 0.
pub open spec fn stored_amount(amount: u64) -> i64 {
    if amount <= i64::MAX {
        amount as i64
    } else {
        0
    }
}

/// The collateral a fill uses on one side: for the buying side the USDC volume at the
/// fill's price, rounded up as when it was reserved; for the selling side the shares.
pub open spec fn release_matches(
    r: CollateralRelease,
    order_id: OrderId,
    owner: Address,
    side: OrderSide,
    position_id: PositionId,
    f: Fill,
) -> bool {
    &&& r.order_id == order_id
    &&& r.maker == owner
    &&& match side {
        OrderSide::Buy => r.asset_type@ == "usdc"@ && r.position is None && r.amount == spec_buy_volume(
            f.amount as int,
            f.price as int,
        ),
        OrderSide::Sell => r.asset_type@ == "ctf"@ && r.position == Some(position_id) && r.amount
            == f.amount,
    }
}

/// Whether `r` is the record of fill `f` of a match on `market_id` in `position_id`; the
/// taker's order is complete after this fill when `taker_done`.
pub open spec fn record_matches(
    r: FillRecord,
    market_id: MarketId,
    position_id: PositionId,
    f: Fill,
    taker_done: bool,
) -> bool {
    &&& event_matches(r.event, market_id, f)
    &&& r.maker_update == (OrderFillUpdate {
        order_id: f.maker_order_id,
        filled_delta: stored_amount(f.amount),
        mark_filled: f.maker_done,
    })
    &&& r.taker_update == (OrderFillUpdate {
        order_id: f.taker_order_id,
        filled_delta: stored_amount(f.amount),
        mark_filled: taker_done,
    })
    &&& release_matches(r.maker_release, f.maker_order_id, f.maker, f.taker_side.opposite(), position_id, f)
    &&& release_matches(r.taker_release, f.taker_order_id, f.taker, f.taker_side, position_id, f)
}

fn release_for(order_id: OrderId, owner: Address, side: OrderSide, position_id: PositionId, f: &Fill) -> (r:
    CollateralRelease)
    ensures
        release_matches(r, order_id, owner, side, position_id, *f),
{
    match side {
        OrderSide::Buy => CollateralRelease {
            order_id,
            maker: owner,
            asset_type: "usdc",
            position: None,
            amount: buy_volume(f.amount, f.price),
        },
        OrderSide::Sell => CollateralRelease {
            order_id,
            maker: owner,
            asset_type: "ctf",
            position: Some(position_id),
            amount: f.amount as u128,
        },
    }
}

/// The records of a match result, one per fill, in the order of the fills. A maker's
/// order is marked filled when the fill took what was left of it; the taker's order
/// when the match filled it completely, at its last fill.
pub fn fill_records(result: &MatchResult) -> (rs: Vec<FillRecord>)
    ensures
        rs@.len() == result.fills@.len(),
        forall|i: int|
            0 <= i < rs@.len() ==> record_matches(
                #[trigger] rs@[i],
                result.market_id,
                result.position_id,
                result.fills@[i],
                result.fully_filled && i == rs@.len() - 1,
            ),
{
    let mut rs: Vec<FillRecord> = Vec::new();
    let n = result.fills.len();
    let mut i: usize = 0;
    while i < n
        invariant
            n == result.fills@.len(),
            i <= n,
            rs@.len() == i,
            forall|k: int|
                0 <= k < i ==> record_matches(
                    #[trigger] rs@[k],
                    result.market_id,
                    result.position_id,
                    result.fills@[k],
                    result.fully_filled && k == n - 1,
                ),
        decreases n - i,
    {
        let f = &result.fills[i];
        let delta: i64 = if f.amount <= 0x7fff_ffff_ffff_ffff {
            f.amount as i64
        } else {
            0
        };
        let maker_side = match f.taker_side {
            OrderSide::Buy => OrderSide::Sell,
            OrderSide::Sell => OrderSide::Buy,
        };
        let rec = FillRecord {
            event: match_event(&result.market_id, f),
            maker_update: OrderFillUpdate {
                order_id: f.maker_order_id,
                filled_delta: delta,
                mark_filled: f.maker_done,
            },
            taker_update: OrderFillUpdate {
                order_id: f.taker_order_id,
                filled_delta: delta,
                mark_filled: result.fully_filled && i == n - 1,
            },
            maker_release: release_for(f.maker_order_id, f.maker, maker_side, result.position_id, f),
            taker_release: release_for(f.taker_order_id, f.taker, f.taker_side, result.position_id, f),
        };
        rs.push(rec);
        i = i + 1;
    }
    rs
}

/// The order of a cancel request, from the UUID text in its path; refused as a bad
/// request with the parser's message.
pub fn order_id_param(text: &str) -> (r: Result<OrderId, AppError>)
    ensures
        match spec_parse_uuid(text@) {
            Some(v) => r == Ok::<OrderId, AppError>(OrderId(v)),
            None => r matches Err(AppError::BadRequest(m)) && starts_with_chars(m@, "invalid order_id: "@),
        },
{
    match parse_uuid(text) {
        Ok(v) => Ok(OrderId(v)),
        Err(e) => {
            let m = String::from_str("invalid order_id: ").concat(e.as_str());
            proof {
                reveal_strlit("invalid order_id: ");
                assert(m@.subrange(0, "invalid order_id: "@.len() as int) =~= "invalid order_id: "@);
            }
            Err(AppError::BadRequest(m))
        },
    }
}

/// The position of a cancel request, from its decimal (or `0x` hex) text; refused as a
/// bad request with the parser's message.
pub fn position_param(text: &str) -> (r: Result<PositionId, AppError>)
    ensures
        match spec_parse_u256(text@) {
            Some(w) => r matches Ok(p) && p.0@ == w,
            None => r matches Err(AppError::BadRequest(m)) && starts_with_chars(m@, "invalid position_id: "@),
        },
{
    match parse_u256_text(text) {
        Ok(w) => Ok(PositionId(w)),
        Err(e) => {
            let m = String::from_str("invalid position_id: ").concat(e.as_str());
            proof {
                reveal_strlit("invalid position_id: ");
                assert(m@.subrange(0, "invalid position_id: "@.len() as int) =~= "invalid position_id: "@);
            }
            Err(AppError::BadRequest(m))
        },
    }
}

} // verus!
