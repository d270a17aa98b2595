//! The indexer's scan: the window of blocks read for a contract on each tick, and the
//! key under which a log is recorded.
use crate::finality::{final_blocks, spec_is_final};
use crate::types::{to_unsigned_bits, unsigned_bits};
use vstd::prelude::*;

verus! {

/// Largest number of blocks past the window's first that one tick reads.
pub const MAX_SCAN_SPAN: u64 = 50;

/// The first block after the cursor, reinterpreted as unsigned as the database value
/// `last_finalized + 1` is.
pub open spec fn spec_window_start(last_finalized: i64) -> int {
    unsigned_bits((last_finalized + 1) as i64)
}

/// The window's last block cannot overflow: either the window is empty, or its first
/// block leaves room for the span.
pub open spec fn window_fits(last_finalized: i64, current: u64) -> bool {
    spec_window_start(last_finalized) > current || spec_window_start(last_finalized) + MAX_SCAN_SPAN
        <= u64::MAX
}

/// Blocks `start..=end` read in one tick.
#[derive(Clone, Copy, PartialEq, Eq, Debug)]
pub struct ScanWindow {
    pub start: u64,
    pub end: u64,
}

/// The window read after a cursor at `last_finalized` when the head is `current`: from
/// the next block to at most `MAX_SCAN_SPAN` blocks further, never past the head; none
/// when the cursor has caught up.
pub open spec fn spec_scan_window(last_finalized: i64, current: u64) -> Option<ScanWindow> {
    let start = spec_window_start(last_finalized);
    if start > current {
        None
    } else {
        let end = if start + MAX_SCAN_SPAN < current { start + MAX_SCAN_SPAN } else { current as int };
        Some(ScanWindow { start: start as u64, end: end as u64 })
    }
}

fn window_start(last_finalized: i64) -> (r: u64)
    requires
        last_finalized < i64::MAX,
    ensures
        r == spec_window_start(last_finalized),
{
    to_unsigned_bits(last_finalized + 1)
}

/// The window of blocks to read for a cursor.
pub fn scan_window(last_finalized: i64, current: u64) -> (r: Option<ScanWindow>)
    requires
        last_finalized < i64::MAX,
        window_fits(last_finalized, current),
    ensures
        r == spec_scan_window(last_finalized, current),
{
    let start = window_start(last_finalized);
    if start > current {
        return None;
    }
    let reach = start + MAX_SCAN_SPAN;
    let end = if reach < current { reach } else { current };
    Some(ScanWindow { start, end })
}

/// Every window lies within the chain, starts right after the cursor, spans at most
/// `MAX_SCAN_SPAN + 1` blocks, and every block that finalization takes from it is at
/// least `FINALITY_BLOCKS` below the head.
pub proof fn law_window_within_chain(last_finalized: i64, current: u64)
    requires
        last_finalized < i64::MAX,
        window_fits(last_finalized, current),
    ensures
        spec_scan_window(last_finalized, current) matches Some(w) ==> {
            &&& w.start == spec_window_start(last_finalized)
            &&& w.start <= w.end <= current
            &&& w.end - w.start <= MAX_SCAN_SPAN
            &&& forall|b: u64| #[trigger] final_blocks(w.start, w.end, current).contains(b)
                ==> w.start <= b <= w.end && spec_is_final(current, b)
        },
{
    if let Some(w) = spec_scan_window(last_finalized, current) {
        assert forall|b: u64| #[trigger] final_blocks(w.start, w.end, current).contains(b) implies w.start
            <= b <= w.end && spec_is_final(current, b) by {
            lemma_final_blocks_members(w.start, w.end, current, b);
        }
    }
}

proof fn lemma_final_blocks_members(start: u64, end: u64, current: u64, b: u64)
    requires
        final_blocks(start, end, current).contains(b),
    ensures
        start <= b <= end,
        spec_is_final(current, b),
    decreases end - start,
{
    let s = final_blocks(start, end, current);
    let j = choose|j: int| 0 <= j < s.len() && s[j] == b;
    if end < start {
    } else if end == start {
    } else {
        let rest = final_blocks(start, (end - 1) as u64, current);
        if spec_is_final(current, end) && j == rest.len() {
        } else {
            assert(rest[j] == b);
            assert(rest.contains(b));
            lemma_final_blocks_members(start, (end - 1) as u64, current, b);
        }
    }
}

/// Where a log sits on the chain, with the database keys it is recorded under.
#[derive(Clone, Copy, PartialEq, Eq, Debug)]
pub struct LogKey {
    pub block_number: u64,
    pub block_key: i64,
    pub block_hash: [u8; 32],
    pub tx_hash: [u8; 32],
    pub log_index_key: i64,
}

/// The key of a log as the node reported it. A log without a block number is skipped,
/// and so is one whose block number or index does not fit the database's signed keys;
/// a missing hash reads as zero and a missing index as 0.
pub fn log_key(
    block_number: Option<u64>,
    block_hash: Option<[u8; 32]>,
    tx_hash: Option<[u8; 32]>,
    log_index: Option<u64>,
) -> (r: Option<LogKey>)
    ensures
        r is Some <==> (block_number is Some && block_number.unwrap() <= i64::MAX && (log_index is None
            || log_index.unwrap() <= i64::MAX)),
        r matches Some(k) ==> {
            &&& k.block_number == block_number.unwrap()
            &&& k.block_key == block_number.unwrap() as i64
            &&& k.block_hash@ == (match block_hash {
                Some(h) => h@,
                None => Seq::new(32, |i: int| 0u8),
            })
            &&& k.tx_hash@ == (match tx_hash {
                Some(h) => h@,
                None => Seq::new(32, |i: int| 0u8),
            })
            &&& k.log_index_key == (match log_index {
                Some(i) => i as int,
                None => 0,
            })
        },
{
    let number = match block_number {
        Some(n) => n,
        None => {
            return None;
        },
    };
    let index: u64 = match log_index {
        Some(i) => i,
        None => 0,
    };
    if index > 0x7fff_ffff_ffff_ffff || number > 0x7fff_ffff_ffff_ffff {
        return None;
    }
    let zero = [0u8; 32];
    proof {
        assert(zero@ =~= Seq::new(32, |i: int| 0u8));
    }
    let bh = match block_hash {
        Some(h) => h,
        None => zero,
    };
    let th = match tx_hash {
        Some(h) => h,
        None => zero,
    };
    Some(LogKey {
        block_number: number,
        block_key: number as i64,
        block_hash: bh,
        tx_hash: th,
        log_index_key: index as i64,
    })
}

/// The event signature hash recorded with a handled log: its first topic, or nothing.
pub fn recorded_topic(topics: &Vec<[u8; 32]>) -> (r: Vec<u8>)
    ensures
        topics@.len() == 0 ==> r@.len() == 0,
        topics@.len() > 0 ==> r@ == topics@[0]@,
{
    let mut out: Vec<u8> = Vec::new();
    if topics.len() == 0 {
        return out;
    }
    let first = &topics[0];
    let mut i: usize = 0;
    while i < 32
        invariant
            i <= 32,
            out@.len() == i,
            forall|k: int| 0 <= k < i ==> out@[k] == first@[k],
        decreases 32 - i,
    {
        out.push(first[i]);
        i = i + 1;
    }
    assert(out@ =~= topics@[0]@);
    out
}

} // verus!
