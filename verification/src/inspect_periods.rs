//! The command that reports on the records of last writes.
use vstd::prelude::*;

use crate::periods::{compute_period, period_at};
use crate::text::{decimal, decimal_of};

verus! {

/// The arguments of the command.
#[derive(Debug, Clone, Copy)]
pub struct Command {
    /// Whether to report in JSON.
    pub json: bool,
    /// The block at which periods begin, where periods are to be reported.
    pub fork_block: Option<u64>,
    pub blocks_per_period: u64,
}

/// How many records there are, and how late the latest is.
#[derive(Debug, Clone, Copy, PartialEq, Eq)]
pub struct PeriodReport {
    pub total_accounts_with_last_written: u64,
    pub max_account_block: u64,
    pub max_account_period: Option<u32>,
    pub total_storage_slots_with_last_written: u64,
    pub max_storage_block: u64,
    pub max_storage_period: Option<u32>,
}

impl Default for PeriodReport {
    /// A report of no records.
    fn default() -> (report: Self)
        ensures
            report == empty_report(),
    {
        PeriodReport {
            total_accounts_with_last_written: 0,
            max_account_block: 0,
            max_account_period: None,
            total_storage_slots_with_last_written: 0,
            max_storage_block: 0,
            max_storage_period: None,
        }
    }
}

/// A report of no records.
pub open spec fn empty_report() -> PeriodReport {
    PeriodReport {
        total_accounts_with_last_written: 0,
        max_account_block: 0,
        max_account_period: None,
        total_storage_slots_with_last_written: 0,
        max_storage_block: 0,
        max_storage_period: None,
    }
}

/// The later of two blocks.
pub open spec fn later(a: u64, b: u64) -> u64 {
    if a < b {
        b
    } else {
        a
    }
}

/// `latest` is the largest of some blocks, or zero where there are none.
pub open spec fn is_latest(blocks: Seq<u64>, latest: u64) -> bool {
    &&& forall|i: int| 0 <= i < blocks.len() ==> #[trigger] blocks[i] <= latest
    &&& if blocks.len() == 0 {
        latest == 0
    } else {
        exists|i: int| 0 <= i < blocks.len() && #[trigger] blocks[i] == latest
    }
}

impl PeriodReport {
    /// Takes in the record of an account.
    pub fn count_account(&mut self, block: u64)
        requires
            old(self).total_accounts_with_last_written < u64::MAX,
        ensures
            *final(self) == (PeriodReport {
                total_accounts_with_last_written: (old(self).total_accounts_with_last_written
                    + 1) as u64,
                max_account_block: later(old(self).max_account_block, block),
                ..*old(self)
            }),
    {
        self.total_accounts_with_last_written = self.total_accounts_with_last_written + 1;
        if self.max_account_block < block {
            self.max_account_block = block;
        }
    }

    /// Takes in the record of a storage slot.
    pub fn count_storage_slot(&mut self, block: u64)
        requires
            old(self).total_storage_slots_with_last_written < u64::MAX,
        ensures
            *final(self) == (PeriodReport {
                total_storage_slots_with_last_written: (
                old(self).total_storage_slots_with_last_written + 1) as u64,
                max_storage_block: later(old(self).max_storage_block, block),
                ..*old(self)
            }),
    {
        self.total_storage_slots_with_last_written = self.total_storage_slots_with_last_written
            + 1;
        if self.max_storage_block < block {
            self.max_storage_block = block;
        }
    }

    /// The report as lines of text.
    pub fn lines(&self) -> (lines: (String, String, String))
        ensures
            lines.0@ == "EIP-8188 period report:"@,
            lines.1@ == report_line(
                "  accounts:      with_last_written="@,
                self.total_accounts_with_last_written,
                self.max_account_block,
                self.max_account_period,
            ),
            lines.2@ == report_line(
                "  storage slots: with_last_written="@,
                self.total_storage_slots_with_last_written,
                self.max_storage_block,
                self.max_storage_period,
            ),
    {
        let title: String = "EIP-8188 period report:".to_owned();
        let accounts: String = line_of(
            "  accounts:      with_last_written=",
            self.total_accounts_with_last_written,
            self.max_account_block,
            self.max_account_period,
        );
        let slots: String = line_of(
            "  storage slots: with_last_written=",
            self.total_storage_slots_with_last_written,
            self.max_storage_block,
            self.max_storage_period,
        );
        (title, accounts, slots)
    }
}

/// The text of a period that may not have been derived.
pub open spec fn period_text(period: Option<u32>) -> Seq<char> {
    match period {
        Some(p) => decimal_of(p as nat),
        None => "n/a"@,
    }
}

/// One line of a report.
pub open spec fn report_line(
    head: Seq<char>,
    total: u64,
    max_block: u64,
    max_period: Option<u32>,
) -> Seq<char> {
    head + decimal_of(total as nat) + "  max_block="@ + decimal_of(max_block as nat)
        + "  max_period="@ + period_text(max_period)
}

/// One line of a report.
fn line_of(head: &str, total: u64, max_block: u64, max_period: Option<u32>) -> (line: String)
    ensures
        line@ == report_line(head@, total, max_block, max_period),
{
    let mut line: String = head.to_owned();
    let total_text: String = decimal(total);
    line.append(total_text.as_str());
    line.append("  max_block=");
    let block_text: String = decimal(max_block);
    line.append(block_text.as_str());
    line.append("  max_period=");
    let period_text: String = match max_period {
        Some(period) => decimal(period as u64),
        None => "n/a".to_owned(),
    };
    line.append(period_text.as_str());
    line
}

/// Counts all records, given by their blocks.
pub fn inspect(accounts: &[u64], storage: &[u64]) -> (report: PeriodReport)
    ensures
        report.total_accounts_with_last_written == accounts@.len(),
        is_latest(accounts@, report.max_account_block),
        report.max_account_period is None,
        report.total_storage_slots_with_last_written == storage@.len(),
        is_latest(storage@, report.max_storage_block),
        report.max_storage_period is None,
{
    let mut report: PeriodReport = PeriodReport::default();
    assert(accounts@.len() == accounts.len());
    assert(storage@.len() == storage.len());
    let mut i: usize = 0;
    while i < accounts.len()
        invariant
            i <= accounts@.len() <= usize::MAX,
            report.total_accounts_with_last_written == i,
            is_latest(accounts@.take(i as int), report.max_account_block),
            report == (PeriodReport {
                total_accounts_with_last_written: i as u64,
                max_account_block: report.max_account_block,
                ..empty_report()
            }),
        decreases accounts.len() - i,
    {
        let ghost before = report.max_account_block;
        report.count_account(accounts[i]);
        proof {
            lemma_latest_next(accounts@, i as int, before, report.max_account_block);
        }
        i = i + 1;
    }
    assert(accounts@.take(i as int) =~= accounts@);
    let ghost counted = report;
    let mut j: usize = 0;
    while j < storage.len()
        invariant
            j <= storage@.len() <= usize::MAX,
            is_latest(storage@.take(j as int), report.max_storage_block),
            report == (PeriodReport {
                total_storage_slots_with_last_written: j as u64,
                max_storage_block: report.max_storage_block,
                ..counted
            }),
        decreases storage.len() - j,
    {
        let ghost before = report.max_storage_block;
        report.count_storage_slot(storage[j]);
        proof {
            lemma_latest_next(storage@, j as int, before, report.max_storage_block);
        }
        j = j + 1;
    }
    assert(storage@.take(j as int) =~= storage@);
    report
}

/// The largest of one block more.
proof fn lemma_latest_next(blocks: Seq<u64>, n: int, before: u64, after: u64)
    requires
        0 <= n < blocks.len(),
        is_latest(blocks.take(n), before),
        after == later(before, blocks[n]),
    ensures
        is_latest(blocks.take(n + 1), after),
{
    let all = blocks.take(n + 1);
    assert forall|i: int| 0 <= i < all.len() implies #[trigger] all[i] <= after by {
        if i < n {
            assert(all[i] == blocks.take(n)[i]);
        }
    }
    if after == blocks[n] {
        assert(all[n] == after);
    } else {
        let i = choose|i: int| 0 <= i < n && #[trigger] blocks.take(n)[i] == before;
        assert(all[i] == after);
    }
}

impl Command {
    /// The report with the periods of the latest blocks, where the fork block is given.
    pub fn with_periods(&self, report: PeriodReport) -> (r: PeriodReport)
        ensures
            r == (match self.fork_block {
                None => report,
                Some(fork) => PeriodReport {
                    max_account_period: Some(
                        period_at(report.max_account_block, fork, self.blocks_per_period) as u32,
                    ),
                    max_storage_period: Some(
                        period_at(report.max_storage_block, fork, self.blocks_per_period) as u32,
                    ),
                    ..report
                },
            }),
    {
        let mut report: PeriodReport = report;
        match self.fork_block {
            None => {},
            Some(fork) => {
                report.max_account_period = Some(
                    compute_period(report.max_account_block, fork, self.blocks_per_period),
                );
                report.max_storage_period = Some(
                    compute_period(report.max_storage_block, fork, self.blocks_per_period),
                );
            },
        }
        report
    }
}

/// The latest block is one of the blocks and no earlier than any; without blocks it is zero.
pub proof fn lemma_latest(blocks: Seq<u64>, latest: u64)
    ensures
        is_latest(blocks, latest) && blocks.len() == 0 ==> latest == 0,
        is_latest(blocks, latest) && blocks.len() > 0 ==> blocks.contains(latest),
        is_latest(blocks, latest) ==> forall|i: int|
            0 <= i < blocks.len() ==> #[trigger] blocks[i] <= latest,
        later(latest, 0) == latest,
        forall|block: u64|
            #![trigger later(latest, block)]
            later(latest, block) >= latest && later(latest, block) >= block && (later(latest, block)
                == latest || later(latest, block) == block),
{
}

/// A line of a report names the number of records, the latest block, and its period where that was
/// derived.
pub proof fn lemma_report_line(head: Seq<char>, total: u64, max_block: u64, period: u32)
    ensures
        report_line(head, total, max_block, None) == head + decimal_of(total as nat)
            + "  max_block="@ + decimal_of(max_block as nat) + "  max_period="@ + "n/a"@,
        report_line(head, total, max_block, Some(period)) == head + decimal_of(total as nat)
            + "  max_block="@ + decimal_of(max_block as nat) + "  max_period="@ + decimal_of(
            period as nat,
        ),
{
}

/// A report of no records counts none, and knows no block and no period.
pub proof fn lemma_empty_report()
    ensures
        empty_report().total_accounts_with_last_written == 0,
        empty_report().total_storage_slots_with_last_written == 0,
        empty_report().max_account_block == 0,
        empty_report().max_storage_block == 0,
        empty_report().max_account_period is None,
        empty_report().max_storage_period is None,
{
}

} // verus!
