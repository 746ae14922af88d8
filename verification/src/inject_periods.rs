//! The command that brings the records of last writes up to date.
use vstd::prelude::*;

use crate::clickhouse_source::ClickHouseConfig;
use crate::file_source::FileSource;
use crate::run_config::CommandError;
use crate::text::{after_prefix, same_text, strip_prefix};

verus! {

/// The arguments of the command.
#[derive(Debug)]
pub struct Command {
    /// Where diffs come from: `clickhouse` or `file://` and a path.
    pub source: String,
    pub clickhouse_host: Option<String>,
    pub clickhouse_port: u16,
    pub clickhouse_user: String,
    pub clickhouse_password: String,
    pub clickhouse_database: String,
    pub clickhouse_network: Option<String>,
    /// The block at which periods begin, and the first of the range.
    pub fork_block: u64,
    pub blocks_per_period: u64,
    /// The last block of the range, where it is not the head block.
    pub end_block: Option<u64>,
    pub batch_size: usize,
    /// Whether to count only.
    pub dry_run: bool,
}

/// Why there is no source of diffs.
#[derive(Debug, Clone, Copy, PartialEq, Eq, Structural)]
pub enum SourceError {
    /// The database needs a host.
    HostRequired,
    /// The database needs a network.
    NetworkRequired,
    /// The source is neither the database nor a file.
    Unrecognised,
}

/// A source of diffs.
#[derive(Debug)]
pub enum OpenSource {
    ClickHouse(ClickHouseConfig),
    File(FileSource),
}

/// The parts of a configuration that come from the arguments.
pub open spec fn config_holds(config: ClickHouseConfig, command: Command) -> bool {
    &&& command.clickhouse_host matches Some(host) && config.host@ == host@
    &&& command.clickhouse_network matches Some(network) && config.network@ == network@
    &&& config.port == command.clickhouse_port
    &&& config.user@ == command.clickhouse_user@
    &&& config.password@ == command.clickhouse_password@
    &&& config.database@ == command.clickhouse_database@
}

impl Command {
    /// The last block of the range: the given one, or the head block.
    pub fn checked_end_block(&self, head_block: u64) -> (r: Result<u64, CommandError>)
        ensures
            ({
                let end_block = match self.end_block {
                    Some(block) => block,
                    None => head_block,
                };
                r == if self.fork_block > end_block {
                    Err::<u64, _>(
                        CommandError::ForkAfterEnd { fork_block: self.fork_block, end_block },
                    )
                } else if self.blocks_per_period == 0 {
                    Err::<u64, _>(CommandError::ZeroBlocksPerPeriod)
                } else {
                    Ok::<_, CommandError>(end_block)
                }
            }),
    {
        let end_block: u64 = match self.end_block {
            Some(block) => block,
            None => head_block,
        };
        if self.fork_block > end_block {
            return Err(CommandError::ForkAfterEnd { fork_block: self.fork_block, end_block });
        }
        if self.blocks_per_period == 0 {
            return Err(CommandError::ZeroBlocksPerPeriod);
        }
        Ok(end_block)
    }

    /// The source that the arguments name.
    pub fn open_source(&self) -> (r: Result<OpenSource, SourceError>)
        ensures
            if self.source@ == "clickhouse"@ {
                match r {
                    Ok(OpenSource::ClickHouse(config)) => config_holds(config, *self),
                    Ok(OpenSource::File(_)) => false,
                    Err(e) => if self.clickhouse_host is None {
                        e == SourceError::HostRequired
                    } else {
                        self.clickhouse_network is None && e == SourceError::NetworkRequired
                    },
                }
            } else {
                match after_prefix(self.source@, "file://"@) {
                    Some(path) => r matches Ok(OpenSource::File(source)) && source@ == path,
                    None => r == Err::<OpenSource, _>(SourceError::Unrecognised),
                }
            },
    {
        if same_text(self.source.as_str(), "clickhouse") {
            let host: String = match &self.clickhouse_host {
                Some(host) => host.clone(),
                None => return Err(SourceError::HostRequired),
            };
            let network: String = match &self.clickhouse_network {
                Some(network) => network.clone(),
                None => return Err(SourceError::NetworkRequired),
            };
            return Ok(
                OpenSource::ClickHouse(
                    ClickHouseConfig {
                        host,
                        port: self.clickhouse_port,
                        user: self.clickhouse_user.clone(),
                        password: self.clickhouse_password.clone(),
                        database: self.clickhouse_database.clone(),
                        network,
                    },
                ),
            );
        }
        match strip_prefix(self.source.as_str(), "file://") {
            Some(path) => Ok(OpenSource::File(FileSource::new(path))),
            None => Err(SourceError::Unrecognised),
        }
    }
}

/// A configuration is made of the arguments, each in its place.
pub proof fn lemma_config_is_of_arguments(config: ClickHouseConfig, command: Command)
    requires
        config_holds(config, command),
    ensures
        command.clickhouse_host is Some && config.host@ == command.clickhouse_host->0@,
        command.clickhouse_network is Some && config.network@ == command.clickhouse_network->0@,
        config.port == command.clickhouse_port,
        config.user@ == command.clickhouse_user@,
        config.password@ == command.clickhouse_password@,
        config.database@ == command.clickhouse_database@,
{
}

} // verus!
