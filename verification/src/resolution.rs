//! Resolution of expired markets: which resolver handles a market, the decisions on a
//! resolver's reply, the payouts and integrity commitment of a proposal, and the
//! commit/reveal schedule of pending proposals.
use crate::crypto::{keccak256, spec_keccak256};
use crate::order::{be_word, extend_bytes, u64_word};
use crate::text::{starts_with, starts_with_chars, str_equal};
use crate::types::MarketId;
use vstd::prelude::*;
use vstd::string::StringExecFns;

verus! {

/// Confidence (in percent) below which a proposal goes to human or DAO resolution.
pub const MIN_CONFIDENCE: u8 = 70;

/// The resolver a market names.
#[derive(Clone, Copy, PartialEq, Eq, Debug)]
pub enum ResolverChoice {
    /// `ai`: the LLM proposer.
    Ai,
    /// Anything else: no resolver; the market falls back to human or DAO resolution.
    Fallback,
}

/// Only the AI resolver is wired: `ai` selects it, and any other name falls back to
/// human or DAO resolution.
pub open spec fn spec_choose_resolver(resolver_id: Seq<char>) -> ResolverChoice {
    if resolver_id == "ai"@ {
        ResolverChoice::Ai
    } else {
        ResolverChoice::Fallback
    }
}

/// The resolver for a market's `resolver_id`.
pub fn choose_resolver(resolver_id: &str) -> (r: ResolverChoice)
    ensures
        r == spec_choose_resolver(resolver_id@),
{
    if str_equal(resolver_id, "ai") {
        ResolverChoice::Ai
    } else {
        ResolverChoice::Fallback
    }
}

/// What a market asks of its resolver.
#[derive(Clone, Debug)]
pub struct ResolutionSpec {
    pub resolver_id: String,
}

/// A resolution spec refused by a resolver.
#[derive(Clone, PartialEq, Eq, Debug)]
pub enum SpecError {
    Invalid(String),
}

impl SpecError {
    /// `invalid spec: ` and the reason.
    pub fn message(&self) -> (r: String)
        ensures
            self matches SpecError::Invalid(m) ==> r@ == "invalid spec: "@ + m@,
    {
        match self {
            SpecError::Invalid(m) => String::from_str("invalid spec: ").concat(m.as_str()),
        }
    }
}

/// Why a resolver produced no proposal.
#[derive(Clone, PartialEq, Eq, Debug)]
pub enum ResolveError {
    /// Hand the market to human or DAO resolution.
    Fallback,
    /// The request to the resolver's service failed; its message.
    Http(String),
    /// The reply could not be read; its message.
    Parse(String),
}

/// Evidence cited by a proposal, with whether it was fetched successfully.
#[derive(Clone, PartialEq, Eq, Debug)]
pub struct EvidenceItem {
    pub url: String,
    pub verified: bool,
}

/// A proposed outcome of a binary market.
#[derive(Clone, Debug)]
pub struct ResolutionProposal {
    pub outcome: u8,
    pub payouts: Vec<u64>,
    pub evidence: Vec<EvidenceItem>,
    pub confidence: u8,
}

/// The fields of the LLM's answer that resolution reads: `outcome` and `confidence`
/// when they are unsigned integers, and the `url` of each evidence entry that has one.
#[derive(Clone, Debug)]
pub struct AiReply {
    pub outcome: Option<u64>,
    pub confidence: Option<u64>,
    pub evidence_urls: Vec<String>,
}

/// What `serde_json` reads from the text of the LLM's answer: `None` when the text is
/// not JSON; otherwise the `outcome` and `confidence` members when they are unsigned
/// integers, and, when `evidence` is an array, the `url` string of each of its entries
/// (`None` for an entry without one).
pub uninterp spec fn spec_json_reply(content: Seq<char>) -> Option<(Option<u64>, Option<u64>, Option<Seq<Option<Seq<char>>>>)>;

/// The text of each present URL.
pub open spec fn url_views(urls: Seq<Option<String>>) -> Seq<Option<Seq<char>>> {
    urls.map_values(|u: Option<String>| match u {
        Some(s) => Some(s@),
        None => None,
    })
}

/// The URLs of the entries that have one, in order.
pub open spec fn present_urls(urls: Seq<Option<Seq<char>>>) -> Seq<Seq<char>>
    decreases urls.len(),
{
    if urls.len() == 0 {
        seq![]
    } else {
        let rest = present_urls(urls.drop_last());
        match urls.last() {
            Some(u) => rest.push(u),
            None => rest,
        }
    }
}

/// The reply that resolution reads from the LLM's answer text: the fields that
/// `serde_json` found; an answer that is not JSON reads as outcome 0, confidence 0 and
/// no evidence.
pub open spec fn spec_reply_of(content: Seq<char>) -> (Option<u64>, Option<u64>, Seq<Seq<char>>) {
    match spec_json_reply(content) {
        Some((o, c, ev)) => (o, c, match ev {
            Some(urls) => present_urls(urls),
            None => seq![],
        }),
        None => (Some(0), Some(0), seq![]),
    }
}

/// `serde_json::from_str` into a `Value`, then `get` of `outcome` and `confidence` with
/// `as_u64`, and of `evidence` with `as_array`, each entry's `url` taken with `as_str`.
/// The contract names the result; nothing more of JSON is claimed.
#[verifier::external_body]
fn json_reply(content: &str) -> (r: Option<(Option<u64>, Option<u64>, Option<Vec<Option<String>>>)>)
    ensures
        match r {
            Some((o, c, Some(ev))) => spec_json_reply(content@) == Some((o, c, Some(url_views(ev@)))),
            Some((o, c, None)) => spec_json_reply(content@) == Some((o, c, None::<Seq<Option<Seq<char>>>>)),
            None => spec_json_reply(content@) is None,
        },
{
    let v: serde_json::Value = serde_json::from_str(content).ok()?;
    let urls = v.get("evidence").and_then(|e| e.as_array()).map(|a| {
        a.iter().map(|e| e.get("url").and_then(|u| u.as_str()).map(String::from)).collect()
    });
    Some((v.get("outcome").and_then(|x| x.as_u64()), v.get("confidence").and_then(|x| x.as_u64()), urls))
}

fn present_url_texts(urls: &Vec<Option<String>>) -> (r: Vec<String>)
    ensures
        r@.map_values(|s: String| s@) == present_urls(url_views(urls@)),
{
    let mut out: Vec<String> = Vec::new();
    let mut i: usize = 0;
    while i < urls.len()
        invariant
            i <= urls@.len(),
            out@.map_values(|s: String| s@) == present_urls(url_views(urls@).take(i as int)),
        decreases urls@.len() - i,
    {
        proof {
            assert(url_views(urls@).take(i + 1).drop_last() =~= url_views(urls@).take(i as int));
        }
        match &urls[i] {
            Some(u) => {
                out.push(String::from_str(u.as_str()));
            },
            None => {},
        }
        assert(out@.map_values(|s: String| s@) =~= present_urls(url_views(urls@).take(i + 1)));
        i = i + 1;
    }
    assert(url_views(urls@).take(urls@.len() as int) =~= url_views(urls@));
    out
}

/// Reads the LLM's answer text: the fields that `serde_json` finds in it, and outcome 0,
/// confidence 0 and no evidence when it is not JSON.
pub fn ai_reply_from_content(content: &str) -> (r: AiReply)
    ensures
        r.outcome == spec_reply_of(content@).0,
        r.confidence == spec_reply_of(content@).1,
        r.evidence_urls@.map_values(|s: String| s@) == spec_reply_of(content@).2,
{
    match json_reply(content) {
        Some((outcome, confidence, Some(urls))) => {
            AiReply { outcome, confidence, evidence_urls: present_url_texts(&urls) }
        },
        Some((outcome, confidence, None)) => {
            let evidence_urls: Vec<String> = Vec::new();
            assert(evidence_urls@.map_values(|s: String| s@) =~= Seq::<Seq<char>>::empty());
            AiReply { outcome, confidence, evidence_urls }
        },
        None => {
            let evidence_urls: Vec<String> = Vec::new();
            assert(evidence_urls@.map_values(|s: String| s@) =~= Seq::<Seq<char>>::empty());
            AiReply { outcome: Some(0), confidence: Some(0), evidence_urls }
        },
    }
}

/// A missing number reads as `default`; the value is then narrowed to a byte.
pub open spec fn byte_of(v: Option<u64>, default: u64) -> u8 {
    (match v {
        Some(x) => x,
        None => default,
    } % 256) as u8
}

fn narrow(v: Option<u64>, default: u64) -> (r: u8)
    ensures
        r == byte_of(v, default),
{
    let x: u64 = match v {
        Some(x) => x,
        None => default,
    };
    (x % 256) as u8
}

/// Whether an outcome, 0 when missing and narrowed to a byte, is a percentage: the
/// payouts `[100 - outcome, outcome]` exist only then.
pub fn outcome_in_range(outcome: Option<u64>) -> (r: bool)
    ensures
        r == (byte_of(outcome, 0) <= 100),
{
    narrow(outcome, 0) <= 100
}

/// Binary payouts in percent: `[100 - outcome, outcome]`.
pub open spec fn binary_payouts(outcome: u8) -> Seq<u64> {
    seq![(100 - outcome) as u64, outcome as u64]
}

fn payouts_for(outcome: u8) -> (r: Vec<u64>)
    requires
        outcome <= 100,
    ensures
        r@ == binary_payouts(outcome),
{
    let mut v: Vec<u64> = Vec::new();
    v.push(100 - outcome as u64);
    v.push(outcome as u64);
    assert(v@ =~= binary_payouts(outcome));
    v
}

/// Every evidence URL of a reply with `urls` of them answered with success.
pub open spec fn evidence_confirmed(urls: nat, answered: Seq<bool>) -> bool {
    answered.len() == urls && forall|i: int| 0 <= i < answered.len() ==> #[trigger] answered[i]
}

/// `p` is the proposal of `reply`: outcome (0 when missing, narrowed to a byte), payouts
/// `[100 - outcome, outcome]`, every URL marked verified, and the confidence.
pub open spec fn is_proposal_of(p: ResolutionProposal, reply: AiReply) -> bool {
    &&& p.outcome == byte_of(reply.outcome, 0)
    &&& p.payouts@ == binary_payouts(p.outcome)
    &&& p.confidence == byte_of(reply.confidence, 0)
    &&& p.evidence@.len() == reply.evidence_urls@.len()
    &&& forall|i: int|
        0 <= i < p.evidence@.len() ==> (#[trigger] p.evidence@[i]).url@ == reply.evidence_urls@[i]@
            && p.evidence@[i].verified
}

/// The LLM proposer.
#[derive(Clone, Debug)]
pub struct AiResolver {
    pub api_url: String,
    pub api_key: String,
}

/// The trusted-result-API resolver.
#[derive(Clone, Copy, Debug)]
pub struct ApiResolver;

impl AiResolver {
    /// `ai`.
    pub fn id(&self) -> (r: &'static str)
        ensures
            r@ == "ai"@,
    {
        "ai"
    }

    /// Accepts only the `ai` resolver id.
    pub fn validate_spec(&self, spec: &ResolutionSpec) -> (r: Result<(), SpecError>)
        ensures
            spec.resolver_id@ == "ai"@ ==> r is Ok,
            spec.resolver_id@ != "ai"@ ==> (r matches Err(SpecError::Invalid(m)) && m@
                == "resolver_id must be 'ai'"@),
    {
        if !str_equal(spec.resolver_id.as_str(), "ai") {
            return Err(SpecError::Invalid(String::from_str("resolver_id must be 'ai'")));
        }
        Ok(())
    }

    /// The `Authorization` header of the request to the LLM: `Bearer` and the key.
    pub fn authorization(&self) -> (r: String)
        ensures
            r@ == "Bearer "@ + self.api_key@,
    {
        String::from_str("Bearer ").concat(self.api_key.as_str())
    }

    /// Whether a reply is confident enough to check its evidence: its confidence,
    /// 0 when missing, narrowed to a byte, must reach `MIN_CONFIDENCE`; otherwise the
    /// market falls back to human or DAO resolution.
    pub fn screen(&self, reply: &AiReply) -> (pass: bool)
        ensures
            pass == (byte_of(reply.confidence, 0) >= MIN_CONFIDENCE),
    {
        narrow(reply.confidence, 0) >= MIN_CONFIDENCE
    }

    /// What the AI resolver proposes from the LLM service's answer: `reply` is `None`
    /// when the service answered with a failure status; `answered` says, in order, whether
    /// each evidence URL checked answered with success (checking stops at the first that
    /// did not). A failure status, a reply that is not confident enough, or evidence not
    /// all confirmed falls back to human or DAO resolution; otherwise the reply's proposal.
    pub fn decide(&self, reply: &Option<AiReply>, answered: &Vec<bool>) -> (r: Result<
        ResolutionProposal,
        ResolveError,
    >)
        requires
            match reply {
                Some(rp) => byte_of(rp.confidence, 0) >= MIN_CONFIDENCE && evidence_confirmed(
                    rp.evidence_urls@.len(),
                    answered@,
                ) ==> byte_of(rp.outcome, 0) <= 100,
                None => true,
            },
        ensures
            match reply {
                Some(rp) => if byte_of(rp.confidence, 0) >= MIN_CONFIDENCE && evidence_confirmed(
                    rp.evidence_urls@.len(),
                    answered@,
                ) {
                    r matches Ok(p) && is_proposal_of(p, *rp)
                } else {
                    r matches Err(ResolveError::Fallback)
                },
                None => r matches Err(ResolveError::Fallback),
            },
    {
        match reply {
            None => Err(ResolveError::Fallback),
            Some(rp) => {
                if !self.screen(rp) {
                    return Err(ResolveError::Fallback);
                }
                if answered.len() != rp.evidence_urls.len() {
                    return Err(ResolveError::Fallback);
                }
                let mut i: usize = 0;
                while i < answered.len()
                    invariant
                        i <= answered@.len(),
                        forall|k: int| 0 <= k < i ==> answered@[k],
                    decreases answered@.len() - i,
                {
                    if !answered[i] {
                        return Err(ResolveError::Fallback);
                    }
                    i = i + 1;
                }
                Ok(self.proposal(rp))
            },
        }
    }

    /// The proposal of a reply whose confidence passed and whose evidence URLs all
    /// answered with success: outcome (0 when missing, narrowed to a byte), payouts
    /// `[100 - outcome, outcome]`, every URL marked verified, and the confidence.
    pub fn proposal(&self, reply: &AiReply) -> (p: ResolutionProposal)
        requires
            byte_of(reply.outcome, 0) <= 100,
        ensures
            p.outcome == byte_of(reply.outcome, 0),
            p.payouts@ == binary_payouts(p.outcome),
            p.confidence == byte_of(reply.confidence, 0),
            p.evidence@.len() == reply.evidence_urls@.len(),
            forall|i: int|
                0 <= i < p.evidence@.len() ==> (#[trigger] p.evidence@[i]).url@
                    == reply.evidence_urls@[i]@ && p.evidence@[i].verified,
    {
        let outcome = narrow(reply.outcome, 0);
        let mut evidence: Vec<EvidenceItem> = Vec::new();
        let mut i: usize = 0;
        while i < reply.evidence_urls.len()
            invariant
                i <= reply.evidence_urls@.len(),
                evidence@.len() == i,
                forall|k: int|
                    0 <= k < i ==> (#[trigger] evidence@[k]).url@ == reply.evidence_urls@[k]@
                        && evidence@[k].verified,
            decreases reply.evidence_urls@.len() - i,
        {
            let url = String::from_str(reply.evidence_urls[i].as_str());
            evidence.push(EvidenceItem { url, verified: true });
            i = i + 1;
        }
        ResolutionProposal {
            outcome,
            payouts: payouts_for(outcome),
            evidence,
            confidence: narrow(reply.confidence, 0),
        }
    }
}

impl ApiResolver {
    /// `api`.
    pub fn id(&self) -> (r: &'static str)
        ensures
            r@ == "api"@,
    {
        "api"
    }

    /// Accepts resolver ids starting with `api.`.
    pub fn validate_spec(&self, spec: &ResolutionSpec) -> (r: Result<(), SpecError>)
        ensures
            starts_with_chars(spec.resolver_id@, "api."@) ==> r is Ok,
            !starts_with_chars(spec.resolver_id@, "api."@) ==> (r matches Err(SpecError::Invalid(m))
                && m@ == "resolver_id must start with 'api.'"@),
    {
        if !starts_with(spec.resolver_id.as_str(), "api.") {
            return Err(SpecError::Invalid(String::from_str("resolver_id must start with 'api.'")));
        }
        Ok(())
    }

    /// The proposal of the API's answer: outcome 0 and confidence 100 when missing,
    /// both narrowed to a byte, payouts `[100 - outcome, outcome]`, no evidence.
    pub fn proposal(&self, outcome: Option<u64>, confidence: Option<u64>) -> (p: ResolutionProposal)
        requires
            byte_of(outcome, 0) <= 100,
        ensures
            p.outcome == byte_of(outcome, 0),
            p.payouts@ == binary_payouts(p.outcome),
            p.confidence == byte_of(confidence, 100),
            p.evidence@.len() == 0,
    {
        let o = narrow(outcome, 0);
        ResolutionProposal {
            outcome: o,
            payouts: payouts_for(o),
            evidence: Vec::new(),
            confidence: narrow(confidence, 100),
        }
    }
}

/// The payouts of every proposal split the whole collateral: two entries summing to
/// 100, each at most 100, the second being the outcome.
pub proof fn law_binary_payouts_sum_to_whole(outcome: u8)
    requires
        outcome <= 100,
    ensures
        binary_payouts(outcome).len() == 2,
        binary_payouts(outcome)[0] + binary_payouts(outcome)[1] == 100,
        binary_payouts(outcome)[0] <= 100 && binary_payouts(outcome)[1] <= 100,
        binary_payouts(outcome)[1] == outcome,
{
}

/// The payouts as consecutive 32-byte big-endian words.
pub open spec fn payout_words(payouts: Seq<u64>) -> Seq<u8>
    decreases payouts.len(),
{
    if payouts.len() == 0 {
        Seq::empty()
    } else {
        payout_words(payouts.drop_last()) + be_word(payouts.last())
    }
}

/// `keccak256(market_id ‖ payouts as 32-byte big-endian words)`.
pub open spec fn spec_commitment(market_id: MarketId, payouts: Seq<u64>) -> Seq<u8> {
    spec_keccak256(market_id.0@ + payout_words(payouts))
}

/// The off-chain integrity hash of a proposal.
pub fn compute_commitment(market_id: &MarketId, payouts: &[u64]) -> (r: [u8; 32])
    ensures
        r@ == spec_commitment(*market_id, payouts@),
{
    let mut data: Vec<u8> = Vec::new();
    extend_bytes(&mut data, &market_id.0);
    let mut i: usize = 0;
    while i < payouts.len()
        invariant
            i <= payouts@.len(),
            data@ == market_id.0@ + payout_words(payouts@.subrange(0, i as int)),
        decreases payouts@.len() - i,
    {
        let w = u64_word(payouts[i]);
        extend_bytes(&mut data, &w);
        proof {
            let pre = payouts@.subrange(0, i + 1);
            assert(pre.drop_last() =~= payouts@.subrange(0, i as int));
            assert(pre.last() == payouts@[i as int]);
            assert(data@ =~= market_id.0@ + payout_words(pre));
        }
        i = i + 1;
    }
    assert(payouts@.subrange(0, payouts@.len() as int) =~= payouts@);
    keccak256(data.as_slice())
}

/// A payout as the database stores it: the `u64` reinterpreted as `i64`.
pub open spec fn stored_payout(v: u64) -> int {
    if v <= i64::MAX {
        v as int
    } else {
        v - 0x1_0000_0000_0000_0000
    }
}

/// What the expiry watcher stores for a market once its resolver has answered.
#[derive(Clone, Debug)]
pub enum ProposalWrite {
    /// A proposal with its commitment, stored payouts, confidence and evidence.
    Proposed {
        commitment: [u8; 32],
        payouts: Vec<i64>,
        confidence: i32,
        evidence: Vec<EvidenceItem>,
    },
    /// No proposal: a pending row without commitment, for human or DAO resolution.
    Fallback,
}

/// The row to store for a market's resolution outcome.
pub fn proposal_write(market_id: &MarketId, outcome: &Result<ResolutionProposal, ResolveError>) -> (w:
    ProposalWrite)
    ensures
        match outcome {
            Ok(p) => w matches ProposalWrite::Proposed { commitment, payouts, confidence, evidence }
                && commitment@ == spec_commitment(*market_id, p.payouts@)
                && payouts@.len() == p.payouts@.len()
                && (forall|i: int| 0 <= i < payouts@.len() ==> #[trigger] payouts@[i] == stored_payout(p.payouts@[i]))
                && confidence == p.confidence as i32
                && evidence@.len() == p.evidence@.len()
                && (forall|i: int| 0 <= i < evidence@.len() ==> (#[trigger] evidence@[i]).url@ == p.evidence@[i].url@
                    && evidence@[i].verified == p.evidence@[i].verified),
            Err(_) => w is Fallback,
        },
{
    match outcome {
        Ok(p) => {
            let commitment = compute_commitment(market_id, p.payouts.as_slice());
            let mut payouts: Vec<i64> = Vec::new();
            let mut i: usize = 0;
            while i < p.payouts.len()
                invariant
                    i <= p.payouts@.len(),
                    payouts@.len() == i,
                    forall|k: int| 0 <= k < i ==> #[trigger] payouts@[k] == stored_payout(p.payouts@[k]),
                decreases p.payouts@.len() - i,
            {
                let v = p.payouts[i];
                let s: i64 = if v <= 0x7fff_ffff_ffff_ffff {
                    v as i64
                } else {
                    let low: u64 = v - 0x8000_0000_0000_0000;
                    (low as i64) - 0x7fff_ffff_ffff_ffff - 1
                };
                payouts.push(s);
                i = i + 1;
            }
            let mut evidence: Vec<EvidenceItem> = Vec::new();
            let mut j: usize = 0;
            while j < p.evidence.len()
                invariant
                    j <= p.evidence@.len(),
                    evidence@.len() == j,
                    forall|k: int| 0 <= k < j ==> (#[trigger] evidence@[k]).url@ == p.evidence@[k].url@
                        && evidence@[k].verified == p.evidence@[k].verified,
                decreases p.evidence@.len() - j,
            {
                let item = EvidenceItem {
                    url: String::from_str(p.evidence[j].url.as_str()),
                    verified: p.evidence[j].verified,
                };
                evidence.push(item);
                j = j + 1;
            }
            ProposalWrite::Proposed { commitment, payouts, confidence: p.confidence as i32, evidence }
        },
        Err(_) => ProposalWrite::Fallback,
    }
}

/// Where a pending proposal stands in the commit/reveal sequence.
#[derive(Clone, Copy, PartialEq, Eq, Structural, Debug)]
pub enum ProposalStatus {
    Pending,
    Committed,
    Revealed,
    Resolved,
    /// Set by the indexer when the oracle reports a dispute; the loop never moves it.
    Disputed,
}

/// The status text stored for a proposal.
pub fn status_text(s: ProposalStatus) -> (r: &'static str)
    ensures
        s == ProposalStatus::Pending ==> r@ == "pending"@,
        s == ProposalStatus::Committed ==> r@ == "committed"@,
        s == ProposalStatus::Revealed ==> r@ == "revealed"@,
        s == ProposalStatus::Resolved ==> r@ == "resolved"@,
        s == ProposalStatus::Disputed ==> r@ == "disputed"@,
{
    match s {
        ProposalStatus::Pending => "pending",
        ProposalStatus::Committed => "committed",
        ProposalStatus::Revealed => "revealed",
        ProposalStatus::Resolved => "resolved",
        ProposalStatus::Disputed => "disputed",
    }
}

/// The status a stored text names.
pub open spec fn spec_status_from_text(t: Seq<char>) -> Option<ProposalStatus> {
    if t == "pending"@ {
        Some(ProposalStatus::Pending)
    } else if t == "committed"@ {
        Some(ProposalStatus::Committed)
    } else if t == "revealed"@ {
        Some(ProposalStatus::Revealed)
    } else if t == "resolved"@ {
        Some(ProposalStatus::Resolved)
    } else if t == "disputed"@ {
        Some(ProposalStatus::Disputed)
    } else {
        None
    }
}

/// Reads a stored status text; `None` for a text that names no status.
pub fn status_from_text(t: &str) -> (r: Option<ProposalStatus>)
    ensures
        r == spec_status_from_text(t@),
{
    if str_equal(t, "pending") {
        Some(ProposalStatus::Pending)
    } else if str_equal(t, "committed") {
        Some(ProposalStatus::Committed)
    } else if str_equal(t, "revealed") {
        Some(ProposalStatus::Revealed)
    } else if str_equal(t, "resolved") {
        Some(ProposalStatus::Resolved)
    } else if str_equal(t, "disputed") {
        Some(ProposalStatus::Disputed)
    } else {
        None
    }
}

/// Seconds between committing and revealing.
pub const REVEAL_DELAY_SECS: u64 = 300;

/// Seconds between revealing and resolving.
pub const RESOLVE_DELAY_SECS: u64 = 3600;

/// The next step of the commit/reveal loop for a proposal at status `s`: the status it
/// moves to and the seconds the loop waits after writing it; none once resolved.
pub open spec fn spec_reveal_step(s: ProposalStatus) -> Option<(ProposalStatus, u64)> {
    match s {
        ProposalStatus::Pending => Some((ProposalStatus::Committed, REVEAL_DELAY_SECS)),
        ProposalStatus::Committed => Some((ProposalStatus::Revealed, RESOLVE_DELAY_SECS)),
        ProposalStatus::Revealed => Some((ProposalStatus::Resolved, 0)),
        ProposalStatus::Resolved => None,
        ProposalStatus::Disputed => None,
    }
}

/// The next step of the commit/reveal loop.
pub fn reveal_step(s: ProposalStatus) -> (r: Option<(ProposalStatus, u64)>)
    ensures
        r == spec_reveal_step(s),
{
    match s {
        ProposalStatus::Pending => Some((ProposalStatus::Committed, REVEAL_DELAY_SECS)),
        ProposalStatus::Committed => Some((ProposalStatus::Revealed, RESOLVE_DELAY_SECS)),
        ProposalStatus::Revealed => Some((ProposalStatus::Resolved, 0)),
        ProposalStatus::Resolved => None,
        ProposalStatus::Disputed => None,
    }
}

/// The status a stored proposal has after the loop's step from `expected`, when the row
/// reads `row` inside the step's transaction: the step is written only to a row still
/// at `expected`; any other row, a disputed one among them, is left as it is.
pub open spec fn spec_apply_step(row: ProposalStatus, expected: ProposalStatus) -> ProposalStatus {
    if row == expected {
        match spec_reveal_step(expected) {
            Some((next, _)) => next,
            None => row,
        }
    } else {
        row
    }
}

/// The status to write for a row read at `row` when the loop steps from `expected`.
pub fn apply_step(row: ProposalStatus, expected: ProposalStatus) -> (r: ProposalStatus)
    ensures
        r == spec_apply_step(row, expected),
{
    if row == expected {
        match reveal_step(expected) {
            Some((next, _)) => next,
            None => row,
        }
    } else {
        row
    }
}

/// Rank of a status in the commit/reveal sequence; a disputed proposal is outside it.
pub open spec fn status_rank(s: ProposalStatus) -> nat {
    match s {
        ProposalStatus::Pending => 0,
        ProposalStatus::Committed => 1,
        ProposalStatus::Revealed => 2,
        ProposalStatus::Resolved => 3,
        ProposalStatus::Disputed => 4,
    }
}

/// A stored proposal moves only along pending, committed, revealed, resolved, one step
/// at a time and only from the status the step expects; a disputed proposal is never
/// moved, so it never becomes revealed or resolved.
pub proof fn law_stored_status_moves_forward(row: ProposalStatus, expected: ProposalStatus)
    ensures
        row == ProposalStatus::Disputed ==> spec_apply_step(row, expected) == row,
        spec_apply_step(row, expected) != row ==> row == expected && row != ProposalStatus::Disputed
            && status_rank(spec_apply_step(row, expected)) == status_rank(row) + 1,
        spec_apply_step(row, expected) == ProposalStatus::Revealed ==> row == ProposalStatus::Committed
            || row == ProposalStatus::Revealed,
        spec_apply_step(row, expected) == ProposalStatus::Resolved ==> row == ProposalStatus::Revealed
            || row == ProposalStatus::Resolved,
{
}

/// A proposal only moves forward: every step raises its status by one, and from
/// `pending` it is resolved after exactly three steps, having waited 3900 seconds.
pub proof fn law_commit_reveal_moves_forward(s: ProposalStatus)
    ensures
        spec_reveal_step(s) matches Some((t, _)) ==> status_rank(t) == status_rank(s) + 1,
        spec_reveal_step(s) is None <==> (s == ProposalStatus::Resolved || s
            == ProposalStatus::Disputed),
        s == ProposalStatus::Pending ==> {
            let (a, d1) = spec_reveal_step(s).unwrap();
            let (b, d2) = spec_reveal_step(a).unwrap();
            let (c, d3) = spec_reveal_step(b).unwrap();
            c == ProposalStatus::Resolved && d1 + d2 + d3 == 3900
        },
{
}

} // verus!
