//! The settlement service's batching: matched events are netted per maker until a batch
//! is full or old enough, then submitted under a batch id; after finality each event's
//! maker orders are marked filled.
use crate::crypto::{keccak256, spec_keccak256};
use crate::hexcodec::{all_hex, decode_hex, hex_decode};
use crate::service::MatchEvent;
use crate::text::{starts_with_chars, str_equal, strip_prefix};
use vstd::prelude::*;
use vstd::string::StringExecFns;

verus! {

/// A batch is submitted as soon as it holds this many events.
pub const BATCH_SIZE_THRESHOLD: usize = 50;

/// A non-empty batch is submitted on a tick once this long has passed since the last
/// submission.
pub const BATCH_INTERVAL_MS: u64 = 5000;

/// The net position change of one maker in one asset.
#[derive(Clone, Debug)]
pub struct DeltaEntry {
    pub maker: String,
    pub asset: String,
    pub delta: i128,
}

/// The sum of the amounts matched for `maker` among `events`.
pub open spec fn net_amount(events: Seq<MatchEvent>, maker: Seq<char>) -> int
    decreases events.len(),
{
    if events.len() == 0 {
        0
    } else {
        net_amount(events.drop_last(), maker) + if events.last().maker@ == maker {
            events.last().amount as int
        } else {
            0
        }
    }
}

/// Netting does not depend on where batches are cut: the net amount of a maker over
/// two runs of events is the sum of the net amounts over each run.
pub proof fn law_netting_is_additive(a: Seq<MatchEvent>, b: Seq<MatchEvent>, maker: Seq<char>)
    ensures
        net_amount(a + b, maker) == net_amount(a, maker) + net_amount(b, maker),
    decreases b.len(),
{
    if b.len() == 0 {
        assert(a + b =~= a);
    } else {
        assert((a + b).drop_last() =~= a + b.drop_last());
        assert((a + b).last() == b.last());
        law_netting_is_additive(a, b.drop_last(), maker);
    }
}

/// Whether some event of `events` is for `maker`.
pub open spec fn has_maker(events: Seq<MatchEvent>, maker: Seq<char>) -> bool {
    exists|k: int| 0 <= k < events.len() && (#[trigger] events[k]).maker@ == maker
}

proof fn lemma_net_absent(events: Seq<MatchEvent>, maker: Seq<char>)
    requires
        !has_maker(events, maker),
    ensures
        net_amount(events, maker) == 0,
    decreases events.len(),
{
    if events.len() > 0 {
        assert(!has_maker(events.drop_last(), maker)) by {
            if has_maker(events.drop_last(), maker) {
                let k = choose|k: int| 0 <= k < events.drop_last().len() && (#[trigger] events.drop_last()[k]).maker@ == maker;
                assert(events[k] == events.drop_last()[k]);
            }
        }
        lemma_net_absent(events.drop_last(), maker);
        assert(events[events.len() - 1] == events.last());
    }
}

/// The makers of `events`, each once, in the order of their first event.
pub open spec fn first_makers(events: Seq<MatchEvent>) -> Seq<Seq<char>>
    decreases events.len(),
{
    if events.len() == 0 {
        Seq::empty()
    } else {
        let rest = first_makers(events.drop_last());
        if has_maker(events.drop_last(), events.last().maker@) {
            rest
        } else {
            rest.push(events.last().maker@)
        }
    }
}

/// The makers of the entries, in order.
pub open spec fn entry_makers(d: Seq<DeltaEntry>) -> Seq<Seq<char>> {
    d.map_values(|e: DeltaEntry| e.maker@)
}

/// One entry per maker that has events, in USDC, holding that maker's net amount.
pub open spec fn batch_wf(d: Seq<DeltaEntry>, ev: Seq<MatchEvent>) -> bool {
    &&& forall|i: int, j: int|
        0 <= i < j < d.len() ==> (#[trigger] d[i]).maker@ != (#[trigger] d[j]).maker@
    &&& forall|i: int|
        0 <= i < d.len() ==> (#[trigger] d[i]).asset@ == "usdc"@ && d[i].delta == net_amount(
            ev,
            d[i].maker@,
        ) && has_maker(ev, d[i].maker@)
    &&& forall|k: int|
        0 <= k < ev.len() ==> exists|i: int| 0 <= i < d.len() && (#[trigger] d[i]).maker@ == (
        #[trigger] ev[k]).maker@
}

/// Events being netted for the next batch.
#[derive(Debug)]
pub struct BatchState {
    deltas: Vec<DeltaEntry>,
    events: Vec<MatchEvent>,
}

impl BatchState {
    /// The events of the batch, in arrival order.
    pub closed spec fn events(&self) -> Seq<MatchEvent> {
        self.events@
    }

    /// The netted entries, one per maker.
    pub closed spec fn entries(&self) -> Seq<DeltaEntry> {
        self.deltas@
    }

    /// One entry per maker that has events, in USDC, holding that maker's net amount;
    /// the entries come in the order of each maker's first event.
    pub open spec fn wf(&self) -> bool {
        &&& batch_wf(self.entries(), self.events())
        &&& entry_makers(self.entries()) == first_makers(self.events())
    }

    /// The net amount the batch holds for `maker`.
    pub open spec fn net(&self, maker: Seq<char>) -> int {
        net_amount(self.events(), maker)
    }

    /// An empty batch.
    pub fn new() -> (b: BatchState)
        ensures
            b.wf(),
            b.events().len() == 0,
            b.entries().len() == 0,
    {
        let b = BatchState { deltas: Vec::new(), events: Vec::new() };
        assert(entry_makers(b.entries()) =~= first_makers(b.events()));
        b
    }

    /// Number of events in the batch.
    pub fn event_count(&self) -> (r: usize)
        ensures
            r == self.events().len(),
    {
        self.events.len()
    }

    /// Whether the batch has no events.
    pub fn is_empty(&self) -> (r: bool)
        ensures
            r == (self.events().len() == 0),
    {
        self.events.len() == 0
    }

    fn find(&self, maker: &str) -> (r: Option<usize>)
        ensures
            match r {
                Some(i) => i < self.entries().len() && self.entries()[i as int].maker@ == maker@,
                None => forall|i: int|
                    0 <= i < self.entries().len() ==> (#[trigger] self.entries()[i]).maker@ != maker@,
            },
    {
        let mut i: usize = 0;
        while i < self.deltas.len()
            invariant
                i <= self.deltas@.len(),
                forall|k: int| 0 <= k < i ==> (#[trigger] self.deltas@[k]).maker@ != maker@,
            decreases self.deltas@.len() - i,
        {
            if str_equal(self.deltas[i].maker.as_str(), maker) {
                return Some(i);
            }
            i = i + 1;
        }
        None
    }

    /// The net USDC amount netted for `maker`, or none when the batch has no event of
    /// that maker.
    pub fn delta_of(&self, maker: &str) -> (r: Option<i128>)
        requires
            self.wf(),
        ensures
            has_maker(self.events(), maker@) ==> r == Some(self.net(maker@) as i128),
            !has_maker(self.events(), maker@) ==> r is None,
    {
        match self.find(maker) {
            Some(i) => Some(self.deltas[i].delta),
            None => {
                proof {
                    if has_maker(self.events(), maker@) {
                        let k = choose|k: int|
                            0 <= k < self.events().len() && (#[trigger] self.events()[k]).maker@ == maker@;
                        let j = choose|j: int|
                            0 <= j < self.entries().len() && (#[trigger] self.entries()[j]).maker@ == (
                            #[trigger] self.events()[k]).maker@;
                    }
                }
                None
            },
        }
    }

    /// Net one matched event into the batch: its amount is added to its maker's USDC
    /// entry (created at 0 if missing) and the event is kept.
    pub fn record(&mut self, event: MatchEvent)
        requires
            old(self).wf(),
            old(self).net(event.maker@) + event.amount <= i128::MAX,
        ensures
            final(self).wf(),
            final(self).events() == old(self).events().push(event),
            has_maker(old(self).events(), event.maker@) ==> entry_makers(final(self).entries()) == entry_makers(
                old(self).entries(),
            ),
            !has_maker(old(self).events(), event.maker@) ==> entry_makers(final(self).entries()) == entry_makers(
                old(self).entries(),
            ).push(event.maker@),
    {
        let ghost old_events = self.events@;
        let ghost old_d = self.deltas@;
        let ghost m = event.maker@;
        let ghost new_events = old_events.push(event);
        proof {
            assert(new_events.drop_last() =~= old_events);
            assert forall|x: Seq<char>| x != m implies net_amount(new_events, x) == net_amount(old_events, x) by {
            }
            assert(net_amount(new_events, m) == net_amount(old_events, m) + event.amount);
            assert forall|x: Seq<char>| has_maker(old_events, x) implies has_maker(new_events, x) by {
                let k = choose|k: int| 0 <= k < old_events.len() && (#[trigger] old_events[k]).maker@ == x;
                assert(new_events[k] == old_events[k]);
            }
            assert(new_events[old_events.len() as int] == event);
            assert(has_maker(new_events, m));
        }
        let found = self.find(event.maker.as_str());
        match found {
            Some(i) => {
                let cur = self.deltas[i].delta;
                let updated = DeltaEntry {
                    maker: String::from_str(self.deltas[i].maker.as_str()),
                    asset: String::from_str("usdc"),
                    delta: cur + event.amount as i128,
                };
                self.deltas.set(i, updated);
                self.events.push(event);
                proof {
                    let d = self.deltas@;
                    let ev = self.events@;
                    assert(ev =~= new_events);
                    assert forall|j: int| 0 <= j < d.len() implies (#[trigger] d[j]).maker@ == old_d[j].maker@ by {
                    }
                    assert forall|a: int, b: int| 0 <= a < b < d.len() implies (#[trigger] d[a]).maker@
                        != (#[trigger] d[b]).maker@ by {
                        assert(old_d[a].maker@ != old_d[b].maker@);
                    }
                    assert forall|j: int| 0 <= j < d.len() implies (#[trigger] d[j]).asset@ == "usdc"@
                        && d[j].delta == net_amount(ev, d[j].maker@) && has_maker(ev, d[j].maker@) by {
                        if j != i {
                            assert(old_d[j].maker@ != old_d[i as int].maker@);
                            assert(has_maker(old_events, old_d[j].maker@));
                        }
                    }
                    assert forall|k: int| 0 <= k < ev.len() implies exists|j: int|
                        0 <= j < d.len() && (#[trigger] d[j]).maker@ == (#[trigger] ev[k]).maker@ by {
                        if k < old_events.len() {
                            assert(ev[k] == old_events[k]);
                            let j = choose|j: int|
                                0 <= j < old_d.len() && (#[trigger] old_d[j]).maker@ == (#[trigger] old_events[k]).maker@;
                            assert(d[j].maker@ == old_d[j].maker@);
                        } else {
                            assert(ev[k] == event);
                            assert(d[i as int].maker@ == m);
                        }
                    }
                    assert(has_maker(old_events, m)) by {
                        assert(has_maker(old_events, old_d[i as int].maker@));
                    }
                    assert(first_makers(new_events) == first_makers(old_events));
                    assert(entry_makers(d) =~= entry_makers(old_d));
                    assert(self.wf());
                }
            },
            None => {
                proof {
                    if has_maker(old_events, m) {
                        let k = choose|k: int| 0 <= k < old_events.len() && (#[trigger] old_events[k]).maker@ == m;
                        let j = choose|j: int|
                            0 <= j < old_d.len() && (#[trigger] old_d[j]).maker@ == (#[trigger] old_events[k]).maker@;
                    }
                    lemma_net_absent(old_events, m);
                }
                let entry = DeltaEntry {
                    maker: String::from_str(event.maker.as_str()),
                    asset: String::from_str("usdc"),
                    delta: event.amount as i128,
                };
                self.deltas.push(entry);
                self.events.push(event);
                proof {
                    let d = self.deltas@;
                    let ev = self.events@;
                    let n = old_d.len() as int;
                    assert(ev =~= new_events);
                    assert(d[n].maker@ == m);
                    assert forall|j: int| 0 <= j < n implies (#[trigger] d[j]) == old_d[j] by {
                    }
                    assert forall|a: int, b: int| 0 <= a < b < d.len() implies (#[trigger] d[a]).maker@
                        != (#[trigger] d[b]).maker@ by {
                        if b == n {
                            assert(old_d[a].maker@ != m);
                        } else {
                            assert(old_d[a].maker@ != old_d[b].maker@);
                        }
                    }
                    assert forall|j: int| 0 <= j < d.len() implies (#[trigger] d[j]).asset@ == "usdc"@
                        && d[j].delta == net_amount(ev, d[j].maker@) && has_maker(ev, d[j].maker@) by {
                        if j < n {
                            assert(old_d[j].maker@ != m);
                            assert(has_maker(old_events, old_d[j].maker@));
                        }
                    }
                    assert forall|k: int| 0 <= k < ev.len() implies exists|j: int|
                        0 <= j < d.len() && (#[trigger] d[j]).maker@ == (#[trigger] ev[k]).maker@ by {
                        if k < old_events.len() {
                            assert(ev[k] == old_events[k]);
                            let j = choose|j: int|
                                0 <= j < old_d.len() && (#[trigger] old_d[j]).maker@ == (#[trigger] old_events[k]).maker@;
                            assert(d[j] == old_d[j]);
                        } else {
                            assert(ev[k] == event);
                        }
                    }
                    assert(!has_maker(old_events, m));
                    assert(first_makers(new_events) == first_makers(old_events).push(m));
                    assert(entry_makers(d) =~= entry_makers(old_d).push(m));
                }
            },
        }
    }

    /// Drop every event and entry, after a successful submission.
    pub fn clear(&mut self)
        ensures
            final(self).wf(),
            final(self).events().len() == 0,
            final(self).entries().len() == 0,
    {
        self.deltas = Vec::new();
        self.events = Vec::new();
        assert(entry_makers(self.entries()) =~= first_makers(self.events()));
    }

    /// Take one message from the stream: a readable event is netted; then the batch is
    /// due for submission once it holds `BATCH_SIZE_THRESHOLD` events.
    pub fn on_message(&mut self, event: Option<MatchEvent>) -> (submit: bool)
        requires
            old(self).wf(),
            event matches Some(e) ==> old(self).net(e.maker@) + e.amount <= i128::MAX,
        ensures
            final(self).wf(),
            event matches Some(e) ==> final(self).events() == old(self).events().push(e),
            event is None ==> final(self).events() == old(self).events(),
            submit == (final(self).events().len() >= BATCH_SIZE_THRESHOLD),
    {
        match event {
            Some(e) => self.record(e),
            None => {},
        }
        self.events.len() >= BATCH_SIZE_THRESHOLD
    }

    /// On a tick: a batch with events is due once `BATCH_INTERVAL_MS` have passed
    /// since the last submission.
    pub fn due_on_tick(&self, elapsed_ms: u64) -> (submit: bool)
        ensures
            submit == (self.events().len() > 0 && elapsed_ms >= BATCH_INTERVAL_MS),
    {
        self.events.len() > 0 && elapsed_ms >= BATCH_INTERVAL_MS
    }
}

/// The netted entries as plain values: maker, asset and delta of each, in order.
pub open spec fn entry_views(entries: Seq<DeltaEntry>) -> Seq<(Seq<char>, Seq<char>, int)> {
    entries.map_values(|e: DeltaEntry| (e.maker@, e.asset@, e.delta as int))
}

/// What `serde_json::to_vec` gives for the entries as a list of `[[maker, asset], delta]`
/// pairs; `None` when it reports an error.
pub uninterp spec fn spec_deltas_json(entries: Seq<(Seq<char>, Seq<char>, int)>) -> Option<Seq<u8>>;

/// `serde_json::to_vec` of the entries as a `Vec` of `((maker, asset), delta)`. The
/// contract names the bytes; nothing more of JSON is claimed.
#[verifier::external_body]
fn deltas_json(entries: &Vec<DeltaEntry>) -> (r: Option<Vec<u8>>)
    ensures
        match r {
            Some(v) => spec_deltas_json(entry_views(entries@)) == Some(v@),
            None => spec_deltas_json(entry_views(entries@)) is None,
        },
{
    let pairs: Vec<((String, String), i128)> =
        entries.iter().map(|e| ((e.maker.clone(), e.asset.clone()), e.delta)).collect();
    serde_json::to_vec(&pairs).ok()
}

/// The bytes hashed into a batch id: the JSON of its netted deltas, or nothing when
/// they do not serialize.
pub open spec fn batch_id_preimage(entries: Seq<DeltaEntry>) -> Seq<u8> {
    match spec_deltas_json(entry_views(entries)) {
        Some(v) => v,
        None => Seq::empty(),
    }
}

impl BatchState {
    /// The batch id: `keccak256` of the JSON of the netted deltas (of nothing when that
    /// JSON cannot be produced), so batches with different deltas hash different bytes.
    pub fn compute_batch_id(&self) -> (r: [u8; 32])
        ensures
            r@ == spec_keccak256(batch_id_preimage(self.entries())),
    {
        let data = match deltas_json(&self.deltas) {
            Some(v) => v,
            None => Vec::new(),
        };
        proof {
            assert(data@ =~= batch_id_preimage(self.entries()));
        }
        keccak256(data.as_slice())
    }
}

/// `s` with every leading `0x` removed, as `trim_start_matches("0x")` does.
pub open spec fn strip_all_0x(s: Seq<char>) -> Seq<char>
    decreases s.len(),
{
    if s.len() >= 2 && s[0] == '0' && s[1] == 'x' {
        strip_all_0x(s.subrange(2, s.len() as int))
    } else {
        s
    }
}

fn trim_leading_0x(s: &str) -> (r: &str)
    ensures
        r@ == strip_all_0x(s@),
{
    let mut cur: &str = s;
    proof {
        reveal_strlit("0x");
    }
    loop
        invariant
            strip_all_0x(cur@) == strip_all_0x(s@),
        decreases cur@.len(),
    {
        let ghost before = cur@;
        proof {
            reveal_strlit("0x");
            assert(starts_with_chars(before, "0x"@) == (before.len() >= 2 && before[0] == '0'
                && before[1] == 'x')) by {
                if before.len() >= 2 && before[0] == '0' && before[1] == 'x' {
                    assert(before.subrange(0, 2) =~= "0x"@);
                }
                if starts_with_chars(before, "0x"@) {
                    assert(before.subrange(0, 2)[0] == before[0]);
                    assert(before.subrange(0, 2)[1] == before[1]);
                    assert("0x"@[0] == '0' && "0x"@[1] == 'x');
                }
            }
        }
        match strip_prefix(cur, "0x") {
            Some(rest) => {
                cur = rest;
            },
            None => {
                return cur;
            },
        }
    }
}

/// How a settled event updates the maker's open orders: the maker's address bytes and
/// the amount to add.
#[derive(Clone, Debug)]
pub struct FillSettlement {
    pub maker_bytes: Vec<u8>,
    pub amount_key: i64,
}

/// The maker's bytes are the hex of its text after the leading `0x` markers (nothing
/// when that is not hex); the amount is 0 when it does not fit a signed 64-bit integer.
pub fn settle_fill(event: &MatchEvent) -> (r: FillSettlement)
    ensures
        ({
            let digits = strip_all_0x(event.maker@);
            let bytes = vstd::utf8::encode_utf8(digits);
            if bytes.len() % 2 == 0 && all_hex(bytes) {
                r.maker_bytes@ == hex_decode(bytes)
            } else {
                r.maker_bytes@.len() == 0
            }
        }),
        r.amount_key == (if event.amount <= i64::MAX {
            event.amount as int
        } else {
            0
        }),
{
    let digits = trim_leading_0x(event.maker.as_str());
    let bytes = digits.as_bytes();
    let maker_bytes = match decode_hex(bytes) {
        Ok(v) => v,
        Err(_) => Vec::new(),
    };
    let amount_key: i64 = if event.amount <= 0x7fff_ffff_ffff_ffff {
        event.amount as i64
    } else {
        0
    };
    FillSettlement { maker_bytes, amount_key }
}

/// What `settle_fill` gives for an event.
pub open spec fn settlement_matches(r: FillSettlement, event: MatchEvent) -> bool {
    &&& ({
        let bytes = vstd::utf8::encode_utf8(strip_all_0x(event.maker@));
        if bytes.len() % 2 == 0 && all_hex(bytes) {
            r.maker_bytes@ == hex_decode(bytes)
        } else {
            r.maker_bytes@.len() == 0
        }
    })
    &&& r.amount_key == (if event.amount <= i64::MAX {
        event.amount as int
    } else {
        0
    })
}

impl BatchState {
    /// The order updates of a finalized batch, one per event, in arrival order.
    pub fn settlements(&self) -> (r: Vec<FillSettlement>)
        ensures
            r@.len() == self.events().len(),
            forall|i: int| 0 <= i < r@.len() ==> settlement_matches(#[trigger] r@[i], self.events()[i]),
    {
        let mut out: Vec<FillSettlement> = Vec::new();
        let mut i: usize = 0;
        while i < self.events.len()
            invariant
                i <= self.events@.len(),
                out@.len() == i,
                forall|k: int| 0 <= k < i ==> settlement_matches(#[trigger] out@[k], self.events@[k]),
            decreases self.events@.len() - i,
        {
            out.push(settle_fill(&self.events[i]));
            i = i + 1;
        }
        out
    }
}

} // verus!
