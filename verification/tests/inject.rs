use cold_state::inject::{
    accounts_needing_write, slot_lookup, storage_needing_write, Injector, Lookup, Stats,
    DEFAULT_BATCH_SIZE,
};
use cold_state::inject_periods::{Command, OpenSource, SourceError};
use cold_state::inspect_periods::{inspect, PeriodReport};
use cold_state::periods::{AccountDiff, StorageDiff, DEFAULT_BLOCKS_PER_PERIOD};
use cold_state::run_config::CommandError;
use std::collections::{BTreeMap, BTreeSet};

#[derive(Default)]
struct Tables {
    plain_accounts: BTreeSet<[u8; 20]>,
    plain_storage: BTreeSet<([u8; 20], [u8; 32])>,
    account_blocks: BTreeMap<[u8; 20], u64>,
    storage_blocks: BTreeMap<([u8; 20], [u8; 32]), u64>,
}

const ALICE: [u8; 20] = [0xaa; 20];
const BOB: [u8; 20] = [0xbb; 20];
const SLOT1: [u8; 32] = [0x01; 32];

/// Two accounts, and a slot of the first.
fn seed() -> Tables {
    let mut tables = Tables::default();
    tables.plain_accounts.insert(ALICE);
    tables.plain_accounts.insert(BOB);
    tables.plain_storage.insert((ALICE, SLOT1));
    tables
}

impl Tables {
    /// The first slot of an account at or after one, as a search of the plain state finds it.
    fn slot_at_or_after(&self, address: [u8; 20], slot: [u8; 32]) -> Option<[u8; 32]> {
        self.plain_storage
            .range((address, slot)..)
            .next()
            .filter(|(owner, _)| *owner == address)
            .map(|(_, slot)| *slot)
    }

    fn inject(
        &mut self,
        accounts: Vec<AccountDiff>,
        storage: Vec<StorageDiff>,
        batch_size: usize,
        dry_run: bool,
    ) -> Stats {
        let mut account_pass = Injector::new(accounts, batch_size, dry_run);
        while !account_pass.batch().is_empty() {
            let lookups: Vec<Lookup> = account_pass
                .batch()
                .iter()
                .map(|diff| Lookup {
                    present: self.plain_accounts.contains(&diff.address),
                    current: self.account_blocks.get(&diff.address).copied(),
                })
                .collect();
            for row in account_pass.looked_up(&lookups) {
                self.account_blocks.insert(row.address, row.block);
            }
        }
        let mut storage_pass = Injector::new(storage, batch_size, dry_run);
        while !storage_pass.batch().is_empty() {
            let lookups: Vec<Lookup> = storage_pass
                .batch()
                .iter()
                .map(|diff| {
                    let found = self.slot_at_or_after(diff.address, diff.slot);
                    let current = self.storage_blocks.get(&(diff.address, diff.slot)).copied();
                    slot_lookup(diff, &found, current)
                })
                .collect();
            for row in storage_pass.looked_up(&lookups) {
                self.storage_blocks.insert((row.address, row.slot), row.block);
            }
        }
        Stats::of_passes(&account_pass, &storage_pass)
    }
}

#[test]
fn test_inject_end_to_end() {
    let mut tables = seed();
    let accounts = vec![
        AccountDiff { address: ALICE, block: 10 },
        AccountDiff { address: BOB, block: 42 },
    ];
    let storage = vec![StorageDiff { address: ALICE, slot: SLOT1, block: 30 }];

    let stats = tables.inject(accounts, storage, 10_000, false);
    assert_eq!(stats.account_rows_written, 2);
    assert_eq!(stats.storage_rows_written, 1);
    assert_eq!(tables.account_blocks.get(&ALICE), Some(&10));
    assert_eq!(tables.account_blocks.get(&BOB), Some(&42));
    assert_eq!(tables.storage_blocks.get(&(ALICE, SLOT1)), Some(&30));
    assert_eq!(stats.account_diffs_seen, 2);
    assert_eq!(stats.storage_diffs_seen, 1);
}

#[test]
fn test_inject_missing_plain_state() {
    let mut tables = seed();
    let ghost = [0xdd; 20];
    let accounts = vec![AccountDiff { address: ghost, block: 15 }];

    let stats = tables.inject(accounts, vec![], 10_000, false);
    assert_eq!(stats.account_rows_missing_plain_state, 1);
    assert_eq!(stats.account_rows_written, 0);
}

#[test]
fn test_inject_idempotent() {
    let mut tables = seed();
    let accounts = vec![AccountDiff { address: ALICE, block: 20 }];
    let storage = vec![StorageDiff { address: ALICE, slot: SLOT1, block: 25 }];

    tables.inject(accounts.clone(), storage.clone(), 10_000, false);
    let stats = tables.inject(accounts, storage, 10_000, false);
    assert_eq!(stats.account_rows_written, 0, "second pass should be a no-op");
    assert_eq!(stats.storage_rows_written, 0, "second pass should be a no-op");
}

#[test]
fn test_inject_dry_run() {
    let mut tables = seed();
    let accounts = vec![AccountDiff { address: ALICE, block: 15 }];

    let stats = tables.inject(accounts, vec![], 10_000, true);
    assert_eq!(stats.account_rows_written, 1, "dry-run should still count");
    assert_eq!(tables.account_blocks.get(&ALICE), None, "dry-run must not mutate disk");
}

#[test]
fn missing_slots_before_present_ones_are_missing() {
    let mut tables = seed();
    let earlier = [0x00; 32];
    let storage = vec![
        StorageDiff { address: ALICE, slot: earlier, block: 5 },
        StorageDiff { address: BOB, slot: SLOT1, block: 6 },
    ];
    let stats = tables.inject(vec![], storage, 1, false);
    assert_eq!(stats.storage_rows_missing_plain_state, 2);
    assert_eq!(stats.storage_rows_written, 0);
    assert!(tables.storage_blocks.is_empty());
}

#[test]
fn batches_of_any_size_agree() {
    let diffs: Vec<AccountDiff> =
        (0..7u8).map(|n| AccountDiff { address: [n; 20], block: n as u64 + 1 }).collect();
    let mut expected = None;
    for batch_size in [1, 2, 3, 7, 100] {
        let mut tables = Tables::default();
        tables.plain_accounts = (0..5u8).map(|n| [n; 20]).collect();
        tables.account_blocks.insert([2; 20], 3);
        tables.account_blocks.insert([3; 20], 99);
        let stats = tables.inject(diffs.clone(), vec![], batch_size, false);
        assert_eq!(stats.account_rows_written, 4);
        assert_eq!(stats.account_rows_missing_plain_state, 2);
        let blocks = tables.account_blocks;
        assert_eq!(*expected.get_or_insert(blocks.clone()), blocks);
    }
}

#[test]
fn rows_needing_write() {
    let accounts = [
        AccountDiff { address: [1; 20], block: 5 },
        AccountDiff { address: [2; 20], block: 6 },
        AccountDiff { address: [3; 20], block: 7 },
    ];
    let lookups = [
        Lookup { present: true, current: Some(5) },
        Lookup { present: true, current: None },
        Lookup { present: false, current: Some(1) },
    ];
    let (rows, missing) = accounts_needing_write(&accounts, &lookups);
    assert_eq!(rows, vec![accounts[1]]);
    assert_eq!(missing, 1);
    let slots = [StorageDiff { address: [1; 20], slot: [1; 32], block: 5 }];
    let (rows, missing) =
        storage_needing_write(&slots, &[Lookup { present: true, current: Some(4) }]);
    assert_eq!(rows, slots.to_vec());
    assert_eq!(missing, 0);
}

fn command(source: &str) -> Command {
    Command {
        source: source.to_string(),
        clickhouse_host: None,
        clickhouse_port: 8123,
        clickhouse_user: "default".to_string(),
        clickhouse_password: String::new(),
        clickhouse_database: "default".to_string(),
        clickhouse_network: None,
        fork_block: 10,
        blocks_per_period: DEFAULT_BLOCKS_PER_PERIOD,
        end_block: None,
        batch_size: DEFAULT_BATCH_SIZE,
        dry_run: false,
    }
}

#[test]
fn sources_by_argument() {
    match command("file:///tmp/diffs.jsonl").open_source() {
        Ok(OpenSource::File(source)) => assert_eq!(source.path(), "/tmp/diffs.jsonl"),
        _ => panic!("expected a file"),
    }
    assert_eq!(command("ftp://x").open_source().unwrap_err(), SourceError::Unrecognised);
    assert_eq!(command("file:/").open_source().unwrap_err(), SourceError::Unrecognised);
    let mut click = command("clickhouse");
    assert_eq!(click.open_source().unwrap_err(), SourceError::HostRequired);
    click.clickhouse_host = Some("db.example".to_string());
    assert_eq!(click.open_source().unwrap_err(), SourceError::NetworkRequired);
    click.clickhouse_network = Some("sepolia".to_string());
    match click.open_source() {
        Ok(OpenSource::ClickHouse(config)) => {
            assert_eq!(config.url(), "http://db.example:8123");
            assert_eq!(config.network, "sepolia");
        }
        _ => panic!("expected the database"),
    }
}

#[test]
fn ranges_are_checked() {
    let mut cmd = command("clickhouse");
    assert_eq!(cmd.checked_end_block(50), Ok(50));
    assert_eq!(
        cmd.checked_end_block(9),
        Err(CommandError::ForkAfterEnd { fork_block: 10, end_block: 9 })
    );
    cmd.end_block = Some(12);
    assert_eq!(cmd.checked_end_block(9), Ok(12));
    cmd.blocks_per_period = 0;
    assert_eq!(cmd.checked_end_block(9), Err(CommandError::ZeroBlocksPerPeriod));
}

#[test]
fn identify_configs_are_checked() {
    let cmd = cold_state::identify_inactive::Command {
        fork_block: 100,
        blocks_per_period: 10,
        inactive_min_age: 2,
        current_period: None,
        scope: cold_state::identifier::Scope::Both,
    };
    assert_eq!(cmd.config(135).unwrap().current_period, 3);
    assert_eq!(
        cmd.config(99).unwrap_err(),
        CommandError::HeadBeforeFork { head_block: 99, fork_block: 100 }
    );
    let given = cold_state::identify_inactive::Command { current_period: Some(8), ..cmd };
    assert_eq!(given.config(99).unwrap().current_period, 8);
    let zero = cold_state::convert_inactive::Command {
        fork_block: 100,
        blocks_per_period: 0,
        inactive_min_age: 2,
        current_period: Some(1),
        scope: cold_state::identifier::Scope::Both,
        batch_size: 1,
        dry_run: false,
    };
    assert_eq!(zero.config(200).unwrap_err(), CommandError::ZeroBlocksPerPeriod);
}

#[test]
fn reports_count_and_take_the_latest() {
    let report = inspect(&[5, 1234, 7], &[]);
    assert_eq!(report.total_accounts_with_last_written, 3);
    assert_eq!(report.max_account_block, 1234);
    assert_eq!(report.max_storage_block, 0);
    let raw = cold_state::inspect_periods::Command {
        json: false,
        fork_block: None,
        blocks_per_period: 100,
    };
    let (title, accounts, slots) = raw.with_periods(report).lines();
    assert_eq!(title, "EIP-8188 period report:");
    assert_eq!(accounts, "  accounts:      with_last_written=3  max_block=1234  max_period=n/a");
    assert_eq!(slots, "  storage slots: with_last_written=0  max_block=0  max_period=n/a");
    let derived = cold_state::inspect_periods::Command { fork_block: Some(34), ..raw };
    let report: PeriodReport = derived.with_periods(report);
    assert_eq!(report.max_account_period, Some(12));
    assert_eq!(report.max_storage_period, Some(0));
    let (_, accounts, _) = report.lines();
    assert_eq!(accounts, "  accounts:      with_last_written=3  max_block=1234  max_period=12");
}
