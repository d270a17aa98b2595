//! Block finality for the indexer: which blocks of a scanned window are final, what the
//! checkpoint of a final block decides, and how deposits of final blocks are pushed to
//! the gateway (target, payload and retry schedule).
use crate::constants::FINALITY_BLOCKS;
use crate::hexcodec::hex_encode;
use crate::ids::{prefixed_hex, to_prefixed_hex};
use crate::types::{bytes_equal, Address};
use vstd::prelude::*;
use vstd::string::StringExecFns;

verus! {

/// A block is final once the head is at least `FINALITY_BLOCKS` blocks past it.
pub open spec fn spec_is_final(current: u64, block: u64) -> bool {
    current - block >= FINALITY_BLOCKS
}

/// Whether `block` is final when the chain head is `current` (the distance saturates at 0).
pub fn is_final(current: u64, block: u64) -> (r: bool)
    ensures
        r == spec_is_final(current, block),
{
    current.saturating_sub(block) >= FINALITY_BLOCKS
}

/// The final blocks of `start..=end`, ascending.
pub open spec fn final_blocks(start: u64, end: u64, current: u64) -> Seq<u64>
    decreases end - start,
{
    if end < start {
        Seq::empty()
    } else if end == start {
        if spec_is_final(current, end) { seq![end] } else { Seq::empty() }
    } else {
        let rest = final_blocks(start, (end - 1) as u64, current);
        if spec_is_final(current, end) { rest.push(end) } else { rest }
    }
}

proof fn lemma_final_blocks_shape(start: u64, end: u64, current: u64)
    ensures
        ({
            let s = final_blocks(start, end, current);
            let hi = current - FINALITY_BLOCKS;
            &&& s.len() == (if end < start || hi < start { 0 } else if end < hi { end - start + 1 } else { hi - start + 1 })
            &&& forall|i: int| 0 <= i < s.len() ==> s[i] == start + i
        }),
    decreases end - start,
{
    if end > start {
        lemma_final_blocks_shape(start, (end - 1) as u64, current);
    }
}

/// The blocks of `start..=end` that are final when the head is `current`, in ascending
/// order: exactly those at least `FINALITY_BLOCKS` below the head.
pub fn finalized_blocks(start: u64, end: u64, current: u64) -> (r: Vec<u64>)
    ensures
        r@ == final_blocks(start, end, current),
        r@.len() == (if end < start || current - FINALITY_BLOCKS < start {
            0
        } else if end < current - FINALITY_BLOCKS {
            end - start + 1
        } else {
            current - FINALITY_BLOCKS - start + 1
        }),
        forall|i: int| 0 <= i < r@.len() ==> r@[i] == start + i,
        forall|b: u64|
            r@.contains(b) <==> (start <= b <= end && spec_is_final(current, b)),
{
    proof {
        lemma_final_blocks_shape(start, end, current);
    }
    let mut out: Vec<u64> = Vec::new();
    if end < start || current < FINALITY_BLOCKS {
        proof {
            assert(final_blocks(start, end, current).len() == 0);
            assert(out@ =~= final_blocks(start, end, current));
            assert forall|b: u64| out@.contains(b) <==> (start <= b <= end && spec_is_final(current, b)) by {
            }
        }
        return out;
    }
    let hi: u64 = current - FINALITY_BLOCKS;
    let top: u64 = if end < hi { end } else { hi };
    if top < start {
        proof {
            assert(out@ =~= final_blocks(start, end, current));
            assert forall|b: u64| out@.contains(b) <==> (start <= b <= end && spec_is_final(current, b)) by {
            }
        }
        return out;
    }
    let mut b: u64 = start;
    while b < top
        invariant
            start <= b <= top,
            top <= end,
            top <= hi,
            hi == current - FINALITY_BLOCKS,
            out@.len() == b - start,
            forall|i: int| 0 <= i < out@.len() ==> out@[i] == start + i,
        decreases top - b,
    {
        out.push(b);
        b = b + 1;
    }
    out.push(top);
    proof {
        let s = final_blocks(start, end, current);
        assert(out@.len() == s.len());
        assert(out@ =~= s);
        assert forall|x: u64| out@.contains(x) <==> (start <= x <= end && spec_is_final(current, x)) by {
            if start <= x <= end && spec_is_final(current, x) {
                assert(out@[x - start] == x);
            }
        }
    }
    out
}

/// What the stored checkpoint of a final block decides.
#[derive(Clone, Copy, PartialEq, Eq, Debug)]
pub enum CheckpointVerdict {
    /// The stored hash differs from the chain's: a reorg; roll back from this block.
    Rollback,
    /// No stored hash, or the same hash: mark the block final.
    Finalize,
}

/// A reorg is detected when a checkpoint is stored for the block and its hash is not the
/// hash the chain now reports.
pub fn checkpoint_verdict(stored: Option<&[u8]>, fetched: &[u8; 32]) -> (v: CheckpointVerdict)
    ensures
        match stored {
            None => v == CheckpointVerdict::Finalize,
            Some(h) => (v == CheckpointVerdict::Rollback) == (h@ != fetched@),
        },
{
    match stored {
        None => CheckpointVerdict::Finalize,
        Some(h) => {
            if h.len() != 32 {
                return CheckpointVerdict::Rollback;
            }
            let mut i: usize = 0;
            while i < 32
                invariant
                    i <= 32,
                    stored == Some(h),
                    h@.len() == 32,
                    forall|k: int| 0 <= k < i ==> h@[k] == fetched@[k],
                decreases 32 - i,
            {
                if h[i] != fetched[i] {
                    assert(h@[i as int] != fetched@[i as int]);
                    assert(h@ != fetched@);
                    return CheckpointVerdict::Rollback;
                }
                i = i + 1;
            }
            assert(h@ =~= fetched@);
            CheckpointVerdict::Finalize
        },
    }
}

/// A block number as the database's signed 64-bit key, when it fits.
pub fn block_key(block: u64) -> (r: Option<i64>)
    ensures
        block <= i64::MAX ==> r == Some(block as i64),
        block > i64::MAX ==> r is None,
{
    if block <= 0x7fff_ffff_ffff_ffff {
        Some(block as i64)
    } else {
        None
    }
}

/// Deposits are pushed to the gateway only for the custody contract's cursor.
pub fn is_custody_cursor(contract: &[u8], custody: &Address) -> (r: bool)
    ensures
        r == (contract@ == custody.0@),
{
    if contract.len() != 20 {
        return false;
    }
    let mut a = [0u8; 20];
    let mut i: usize = 0;
    while i < 20
        invariant
            i <= 20,
            contract@.len() == 20,
            forall|k: int| 0 <= k < i ==> a@[k] == contract@[k],
        decreases 20 - i,
    {
        a.set(i, contract[i]);
        i = i + 1;
    }
    assert(a@ =~= contract@);
    bytes_equal(&a, &custody.0)
}

/// `http://{gateway_bind}/internal/reconcile`.
pub open spec fn spec_reconcile_url(gateway_bind: Seq<char>) -> Seq<char> {
    "http://"@ + gateway_bind + "/internal/reconcile"@
}

/// The gateway endpoint that credits finalized deposits.
pub fn reconcile_url(gateway_bind: &str) -> (r: String)
    ensures
        r@ == spec_reconcile_url(gateway_bind@),
{
    let scheme = String::from_str("http://");
    let with_host = scheme.concat(gateway_bind);
    with_host.concat("/internal/reconcile")
}

/// The user of a deposit as the gateway expects it: `0x` and the lower-case hex of
/// the stored address bytes.
pub fn deposit_user_text(user_addr: &[u8]) -> (r: String)
    ensures
        r@ == prefixed_hex(user_addr@),
        r@ == "0x"@ + hex_encode(user_addr@),
{
    to_prefixed_hex(user_addr)
}

/// Number of times a deposit is pushed to the gateway before giving up.
pub const RECONCILE_ATTEMPTS: u32 = 3;

/// The pause after attempt `attempt` (counted from 0): 200 ms, doubling each time.
pub open spec fn backoff_ms(attempt: nat) -> nat
    decreases attempt,
{
    if attempt == 0 {
        200
    } else {
        2 * backoff_ms((attempt - 1) as nat)
    }
}

/// What became of one block in a finalization pass.
#[derive(Clone, Copy, PartialEq, Eq, Debug)]
pub enum BlockOutcome {
    /// Its checkpoint and the cursor were written.
    Finalized,
    /// It could not be fetched, or its checkpoint could not be read or written.
    Failed,
    /// Its stored hash differed from the chain's; unfinalized state was rolled back.
    Reorged,
}

/// Whether a finalization pass goes on to the next block: only after this one was
/// finalized. A failed or reorged block ends the pass, so the cursor never moves past a
/// block that was not finalized, and the next pass starts again from it.
pub fn continue_finalizing(outcome: BlockOutcome) -> (r: bool)
    ensures
        r == (outcome == BlockOutcome::Finalized),
{
    match outcome {
        BlockOutcome::Finalized => true,
        BlockOutcome::Failed => false,
        BlockOutcome::Reorged => false,
    }
}

/// What follows an attempt to push a deposit.
#[derive(Clone, Copy, PartialEq, Eq, Debug)]
pub enum ReconcileStep {
    /// The gateway accepted it.
    Done,
    /// Wait this many milliseconds, then try again.
    RetryAfter(u64),
    /// Wait this many milliseconds, then give up and report the last failure.
    GiveUpAfter(u64),
}

/// The retry schedule: a success ends it at once; after a failure the pusher waits
/// `200 * 2^attempt` ms and tries again, unless that was the last of its attempts.
pub fn after_attempt(attempt: u32, success: bool) -> (s: ReconcileStep)
    requires
        attempt < RECONCILE_ATTEMPTS,
    ensures
        success ==> s == ReconcileStep::Done,
        !success && attempt + 1 < RECONCILE_ATTEMPTS ==> s == ReconcileStep::RetryAfter(
            backoff_ms(attempt as nat) as u64,
        ),
        !success && attempt + 1 == RECONCILE_ATTEMPTS ==> s == ReconcileStep::GiveUpAfter(
            backoff_ms(attempt as nat) as u64,
        ),
{
    if success {
        return ReconcileStep::Done;
    }
    proof {
        reveal_with_fuel(backoff_ms, 3);
    }
    let delay: u64 = if attempt == 0 {
        200
    } else if attempt == 1 {
        400
    } else {
        800
    };
    if attempt + 1 < RECONCILE_ATTEMPTS {
        ReconcileStep::RetryAfter(delay)
    } else {
        ReconcileStep::GiveUpAfter(delay)
    }
}

/// Whether `s` is the step after attempt `a`, given its success.
pub open spec fn step_follows(a: nat, success: bool, s: ReconcileStep) -> bool {
    if success {
        s == ReconcileStep::Done
    } else if a + 1 < RECONCILE_ATTEMPTS {
        s == ReconcileStep::RetryAfter(backoff_ms(a) as u64)
    } else {
        s == ReconcileStep::GiveUpAfter(backoff_ms(a) as u64)
    }
}

/// Pushing a deposit ends after at most three attempts, and the waits between them are
/// 200, 400 and 800 ms: whatever the outcomes, a run of failures reaches `GiveUpAfter`
/// at the third attempt and never asks for a fourth.
pub proof fn law_reconcile_retries_are_bounded(outcomes: Seq<bool>, steps: Seq<ReconcileStep>)
    requires
        outcomes.len() == steps.len(),
        outcomes.len() <= RECONCILE_ATTEMPTS,
        forall|i: int| 0 <= i < steps.len() ==> step_follows(i as nat, #[trigger] outcomes[i], steps[i]),
    ensures
        forall|i: int| 0 <= i < steps.len() && !outcomes[i] ==> match #[trigger] steps[i] {
            ReconcileStep::RetryAfter(d) => i + 1 < RECONCILE_ATTEMPTS && d == 200 * pow2_small(i as nat),
            ReconcileStep::GiveUpAfter(d) => i + 1 == RECONCILE_ATTEMPTS && d == 800,
            ReconcileStep::Done => false,
        },
{
    assert forall|i: int| 0 <= i < steps.len() && !outcomes[i] implies match #[trigger] steps[i] {
        ReconcileStep::RetryAfter(d) => i + 1 < RECONCILE_ATTEMPTS && d == 200 * pow2_small(i as nat),
        ReconcileStep::GiveUpAfter(d) => i + 1 == RECONCILE_ATTEMPTS && d == 800,
        ReconcileStep::Done => false,
    } by {
        reveal_with_fuel(backoff_ms, 3);
        reveal_with_fuel(pow2_small, 3);
        assert(step_follows(i as nat, outcomes[i], steps[i]));
    }
}

/// `2^e` for the small exponents of the retry schedule.
pub open spec fn pow2_small(e: nat) -> nat
    decreases e,
{
    if e == 0 {
        1
    } else {
        2 * pow2_small((e - 1) as nat)
    }
}

} // verus!
