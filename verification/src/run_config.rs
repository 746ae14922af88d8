//! What the commands check of their arguments before they run.
use vstd::prelude::*;

use crate::identifier::{IdentifyConfig, Scope};
use crate::periods::{compute_period, period_at};

verus! {

/// Why a command does not run.
#[derive(Debug, Clone, Copy, PartialEq, Eq, Structural)]
pub enum CommandError {
    /// Periods must have a length.
    ZeroBlocksPerPeriod,
    /// No period can be derived from a head block before the fork block.
    HeadBeforeFork { head_block: u64, fork_block: u64 },
    /// The range of blocks ends before the fork block.
    ForkAfterEnd { fork_block: u64, end_block: u64 },
}

/// The current period: the given one, or that of the head block.
pub open spec fn current_period_of(
    given: Option<u32>,
    head_block: u64,
    fork_block: u64,
    blocks_per_period: u64,
) -> Result<int, CommandError> {
    if blocks_per_period == 0 {
        Err(CommandError::ZeroBlocksPerPeriod)
    } else {
        match given {
            Some(period) => Ok(period as int),
            None => if head_block < fork_block {
                Err(CommandError::HeadBeforeFork { head_block, fork_block })
            } else {
                Ok(period_at(head_block, fork_block, blocks_per_period))
            },
        }
    }
}

/// Periods have a length.
pub fn check_blocks_per_period(blocks_per_period: u64) -> (r: Result<(), CommandError>)
    ensures
        r == (if blocks_per_period == 0 {
            Err::<(), _>(CommandError::ZeroBlocksPerPeriod)
        } else {
            Ok::<_, CommandError>(())
        }),
{
    if blocks_per_period == 0 {
        Err(CommandError::ZeroBlocksPerPeriod)
    } else {
        Ok(())
    }
}

/// The parameters of a run of the identifier at this head block.
pub fn identify_config(
    fork_block: u64,
    blocks_per_period: u64,
    inactive_min_age: u32,
    current_period: Option<u32>,
    scope: Scope,
    head_block: u64,
) -> (r: Result<IdentifyConfig, CommandError>)
    ensures
        match current_period_of(current_period, head_block, fork_block, blocks_per_period) {
            Err(e) => r == Err::<IdentifyConfig, _>(e),
            Ok(period) => r == Ok::<_, CommandError>(
                IdentifyConfig {
                    fork_block,
                    blocks_per_period,
                    current_period: period as u32,
                    inactive_min_age,
                    scope,
                },
            ),
        },
{
    match check_blocks_per_period(blocks_per_period) {
        Err(e) => return Err(e),
        Ok(()) => {},
    }
    let current_period: u32 = match current_period {
        Some(period) => period,
        None => {
            if head_block < fork_block {
                return Err(CommandError::HeadBeforeFork { head_block, fork_block });
            }
            compute_period(head_block, fork_block, blocks_per_period)
        },
    };
    Ok(
        IdentifyConfig { fork_block, blocks_per_period, current_period, inactive_min_age, scope },
    )
}

/// A given period is taken as it is, wherever the head block stands. Otherwise the period is that
/// of the head block, which must not be before the fork block; at the fork block it is the first.
pub proof fn lemma_current_period(
    given: Option<u32>,
    head_block: u64,
    fork_block: u64,
    blocks_per_period: u64,
)
    ensures
        blocks_per_period == 0 ==> current_period_of(
            given,
            head_block,
            fork_block,
            blocks_per_period,
        ) == Err::<int, _>(CommandError::ZeroBlocksPerPeriod),
        blocks_per_period > 0 && given is Some ==> current_period_of(
            given,
            head_block,
            fork_block,
            blocks_per_period,
        ) == Ok::<int, CommandError>(given->0 as int),
        blocks_per_period > 0 && given is None && head_block >= fork_block ==> current_period_of(
            given,
            head_block,
            fork_block,
            blocks_per_period,
        ) == Ok::<int, CommandError>(period_at(head_block, fork_block, blocks_per_period)),
        blocks_per_period > 0 && given is None && head_block < fork_block ==> current_period_of(
            given,
            head_block,
            fork_block,
            blocks_per_period,
        ) == Err::<int, _>(CommandError::HeadBeforeFork { head_block, fork_block }),
        blocks_per_period > 0 && given is None ==> current_period_of(
            given,
            fork_block,
            fork_block,
            blocks_per_period,
        ) == Ok::<int, CommandError>(0),
{
    if blocks_per_period > 0 {
        crate::periods::lemma_period_spans(fork_block, fork_block, blocks_per_period, 0);
    }
}

} // verus!
