//! Periods: how a block number becomes an age, and the records of last writes.
use vstd::prelude::*;

use crate::primitives::{Address, B256};

verus! {

/// The length of a period in blocks where none is given: about six months of twelve-second slots.
pub const DEFAULT_BLOCKS_PER_PERIOD: u64 = 1_314_000;

/// The last block at which an account was written.
#[derive(Debug, Clone, Copy, PartialEq, Eq)]
pub struct AccountDiff {
    pub address: Address,
    pub block: u64,
}

/// The last block at which a storage slot was written to something other than zero.
#[derive(Debug, Clone, Copy, PartialEq, Eq)]
pub struct StorageDiff {
    pub address: Address,
    pub slot: B256,
    pub block: u64,
}

/// The period of a block: whole periods since the fork. Blocks before the fork and periods of no
/// length give zero, periods past `u32` give the last one.
pub open spec fn period_at(block: u64, fork_block: u64, blocks_per_period: u64) -> int {
    if block < fork_block || blocks_per_period == 0 {
        0
    } else if (block - fork_block) / (blocks_per_period as int) > u32::MAX {
        u32::MAX as int
    } else {
        (block - fork_block) / (blocks_per_period as int)
    }
}

/// The period of a block.
pub fn compute_period(block: u64, fork_block: u64, blocks_per_period: u64) -> (period: u32)
    ensures
        period == period_at(block, fork_block, blocks_per_period),
{
    if block < fork_block || blocks_per_period == 0 {
        return 0;
    }
    let period: u64 = (block - fork_block) / blocks_per_period;
    if period > u32::MAX as u64 {
        u32::MAX
    } else {
        period as u32
    }
}

/// A later block is never in an earlier period.
pub proof fn lemma_periods_ascend(a: u64, b: u64, fork_block: u64, blocks_per_period: u64)
    requires
        a <= b,
    ensures
        period_at(a, fork_block, blocks_per_period) <= period_at(b, fork_block, blocks_per_period),
{
    if a >= fork_block && blocks_per_period > 0 {
        vstd::arithmetic::div_mod::lemma_div_is_ordered(
            a - fork_block,
            b - fork_block,
            blocks_per_period as int,
        );
    } else if b >= fork_block && blocks_per_period > 0 {
        vstd::arithmetic::div_mod::lemma_div_pos_is_pos(
            b - fork_block,
            blocks_per_period as int,
        );
    }
}

/// Periods begin at the fork block and have all the same length: the period of a block is `p`
/// exactly where the block is from `p` to `p + 1` whole lengths after the fork. All blocks before
/// the fork are in the first period, and the last period that can be named has no end.
pub proof fn lemma_period_spans(block: u64, fork_block: u64, blocks_per_period: u64, p: u32)
    requires
        blocks_per_period > 0,
    ensures
        block < fork_block ==> period_at(block, fork_block, blocks_per_period) == 0,
        block >= fork_block && p < u32::MAX ==> (period_at(block, fork_block, blocks_per_period)
            == p <==> fork_block + p * blocks_per_period <= block < fork_block + (p + 1)
            * blocks_per_period),
        block >= fork_block ==> (period_at(block, fork_block, blocks_per_period) == u32::MAX
            <==> fork_block + u32::MAX * blocks_per_period <= block),
{
    if block >= fork_block {
        let d = blocks_per_period as int;
        let n = block - fork_block;
        let q = n / d;
        vstd::arithmetic::div_mod::lemma_fundamental_div_mod(n, d);
        assert(0 <= n % d < d);
        assert(q * d <= n < (q + 1) * d) by (nonlinear_arith)
            requires
                n == d * q + n % d,
                0 <= n % d < d,
        ;
        lemma_span_decides(n, d, q, p as int);
        lemma_span_decides(n, d, q, u32::MAX as int);
    }
}

/// Of the spans of one length, one holds a number.
proof fn lemma_span_decides(n: int, d: int, q: int, p: int)
    requires
        d > 0,
        q * d <= n < (q + 1) * d,
    ensures
        q == p <==> p * d <= n < (p + 1) * d,
        q >= p <==> p * d <= n,
{
    if q < p {
        assert((q + 1) * d <= p * d) by (nonlinear_arith)
            requires
                q + 1 <= p,
                d > 0,
        ;
    } else {
        assert(p * d <= q * d) by (nonlinear_arith)
            requires
                p <= q,
                d > 0,
        ;
        if q > p {
            assert((p + 1) * d <= q * d) by (nonlinear_arith)
                requires
                    p + 1 <= q,
                    d > 0,
            ;
        }
    }
}

/// Periods of no length are all the first.
pub proof fn lemma_no_length_no_period(block: u64, fork_block: u64)
    ensures
        period_at(block, fork_block, 0) == 0,
{
}

} // verus!
