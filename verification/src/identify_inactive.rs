//! The command that reports inactive subtrees.
use vstd::prelude::*;

use crate::identifier::{IdentifyConfig, Scope};
use crate::run_config::{current_period_of, identify_config, CommandError};

verus! {

/// The arguments of the command.
#[derive(Debug, Clone, Copy)]
pub struct Command {
    /// The block at which periods begin.
    pub fork_block: u64,
    pub blocks_per_period: u64,
    /// The age in periods from which a leaf is inactive.
    pub inactive_min_age: u32,
    /// The current period, where it is not to be derived from the head block.
    pub current_period: Option<u32>,
    pub scope: Scope,
}

impl Command {
    /// The parameters of a run at this head block.
    pub fn config(&self, head_block: u64) -> (r: Result<IdentifyConfig, CommandError>)
        ensures
            match current_period_of(
                self.current_period,
                head_block,
                self.fork_block,
                self.blocks_per_period,
            ) {
                Err(e) => r == Err::<IdentifyConfig, _>(e),
                Ok(period) => r == Ok::<_, CommandError>(
                    IdentifyConfig {
                        fork_block: self.fork_block,
                        blocks_per_period: self.blocks_per_period,
                        current_period: period as u32,
                        inactive_min_age: self.inactive_min_age,
                        scope: self.scope,
                    },
                ),
            },
    {
        identify_config(
            self.fork_block,
            self.blocks_per_period,
            self.inactive_min_age,
            self.current_period,
            self.scope,
            head_block,
        )
    }
}

} // verus!
