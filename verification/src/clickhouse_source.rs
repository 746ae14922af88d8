//! Diffs from the rows of a database query.
use vstd::prelude::*;

use crate::outside::{hex_bytes, parse_address, parse_b256};
use crate::periods::{AccountDiff, StorageDiff};
use crate::primitives::{Address, B256};
use crate::text::{decimal, decimal_of};

verus! {

/// How to reach the database, and which network's rows to ask for.
#[derive(Debug, PartialEq, Eq)]
pub struct ClickHouseConfig {
    pub host: String,
    pub port: u16,
    pub user: String,
    pub password: String,
    pub database: String,
    pub network: String,
}

impl ClickHouseConfig {
    /// The address of the database's HTTP interface.
    pub fn url(&self) -> (url: String)
        ensures
            url@ == "http://"@ + self.host@ + ":"@ + decimal_of(self.port as nat),
    {
        let mut url: String = "http://".to_owned();
        url.append(self.host.as_str());
        url.append(":");
        let port: String = decimal(self.port as u64);
        url.append(port.as_str());
        url
    }
}

/// A row of the query for accounts.
#[derive(Debug)]
pub struct AccountDiffRow {
    pub addr: String,
    pub block: u64,
}

/// A row of the query for slots.
#[derive(Debug)]
pub struct StorageDiffRow {
    pub addr: String,
    pub slot_key: String,
    pub block: u64,
}

/// The first row, counted from zero, that does not hold what it should.
#[derive(Debug, Clone, Copy, PartialEq, Eq, Structural)]
pub enum RowError {
    BadAddress(usize),
    BadSlot(usize),
}

/// A row holds an account.
pub open spec fn account_row_holds(row: AccountDiffRow, diff: AccountDiff) -> bool {
    hex_bytes(row.addr@, 20) == Some(diff.address@) && diff.block == row.block
}

/// A row holds a slot.
pub open spec fn storage_row_holds(row: StorageDiffRow, diff: StorageDiff) -> bool {
    &&& hex_bytes(row.addr@, 20) == Some(diff.address@)
    &&& hex_bytes(row.slot_key@, 32) == Some(diff.slot@)
    &&& diff.block == row.block
}

/// The accounts that the rows hold, one per row, or which row is the first that holds none.
pub fn accounts_of_rows(rows: &[AccountDiffRow]) -> (r: Result<Vec<AccountDiff>, RowError>)
    ensures
        match r {
            Ok(diffs) => diffs@.len() == rows@.len() && forall|i: int|
                0 <= i < rows@.len() ==> account_row_holds(#[trigger] rows@[i], diffs@[i]),
            Err(RowError::BadAddress(n)) => n < rows@.len() && hex_bytes(
                rows@[n as int].addr@,
                20,
            ) is None && forall|i: int|
                0 <= i < n ==> hex_bytes((#[trigger] rows@[i]).addr@, 20) is Some,
            Err(RowError::BadSlot(_)) => false,
        },
{
    let mut diffs: Vec<AccountDiff> = Vec::new();
    let mut i: usize = 0;
    while i < rows.len()
        invariant
            i <= rows@.len(),
            diffs@.len() == i,
            forall|j: int| 0 <= j < i ==> account_row_holds(#[trigger] rows@[j], diffs@[j]),
        decreases rows.len() - i,
    {
        let row: &AccountDiffRow = &rows[i];
        match parse_address(row.addr.as_str()) {
            Err(_) => return Err(RowError::BadAddress(i)),
            Ok(address) => {
                diffs.push(AccountDiff { address, block: row.block });
            },
        }
        i = i + 1;
    }
    Ok(diffs)
}

/// A row has both an address and a slot.
pub open spec fn storage_row_parses(row: StorageDiffRow) -> bool {
    hex_bytes(row.addr@, 20) is Some && hex_bytes(row.slot_key@, 32) is Some
}

/// The slots that the rows hold, one per row, or which row is the first that holds none; an
/// address that does not parse comes before a slot that does not.
pub fn slots_of_rows(rows: &[StorageDiffRow]) -> (r: Result<Vec<StorageDiff>, RowError>)
    ensures
        match r {
            Ok(diffs) => diffs@.len() == rows@.len() && forall|i: int|
                0 <= i < rows@.len() ==> storage_row_holds(#[trigger] rows@[i], diffs@[i]),
            Err(RowError::BadAddress(n)) => n < rows@.len() && hex_bytes(
                rows@[n as int].addr@,
                20,
            ) is None && forall|i: int| 0 <= i < n ==> storage_row_parses(#[trigger] rows@[i]),
            Err(RowError::BadSlot(n)) => n < rows@.len() && hex_bytes(
                rows@[n as int].addr@,
                20,
            ) is Some && hex_bytes(rows@[n as int].slot_key@, 32) is None && forall|i: int|
                0 <= i < n ==> storage_row_parses(#[trigger] rows@[i]),
        },
{
    let mut diffs: Vec<StorageDiff> = Vec::new();
    let mut i: usize = 0;
    while i < rows.len()
        invariant
            i <= rows@.len(),
            diffs@.len() == i,
            forall|j: int| 0 <= j < i ==> storage_row_holds(#[trigger] rows@[j], diffs@[j]),
            forall|j: int| 0 <= j < i ==> storage_row_parses(#[trigger] rows@[j]),
        decreases rows.len() - i,
    {
        let row: &StorageDiffRow = &rows[i];
        let address: Address = match parse_address(row.addr.as_str()) {
            Err(_) => return Err(RowError::BadAddress(i)),
            Ok(address) => address,
        };
        let slot: B256 = match parse_b256(row.slot_key.as_str()) {
            Err(_) => return Err(RowError::BadSlot(i)),
            Ok(slot) => slot,
        };
        diffs.push(StorageDiff { address, slot, block: row.block });
        i = i + 1;
    }
    Ok(diffs)
}

/// A row holds a diff with the address, and the slot, that its texts spell, and with its block.
pub proof fn lemma_rows_hold(
    account: AccountDiffRow,
    a: AccountDiff,
    storage: StorageDiffRow,
    s: StorageDiff,
)
    ensures
        account_row_holds(account, a) <==> hex_bytes(account.addr@, 20) == Some(a.address@)
            && account.block == a.block,
        storage_row_holds(storage, s) <==> hex_bytes(storage.addr@, 20) == Some(s.address@)
            && hex_bytes(storage.slot_key@, 32) == Some(s.slot@) && storage.block == s.block,
{
}

/// A row of a slot parses exactly where both its address and its slot do; a row that holds a slot
/// parses.
pub proof fn lemma_row_parses(row: StorageDiffRow, diff: StorageDiff)
    ensures
        storage_row_parses(row) <==> hex_bytes(row.addr@, 20) is Some && hex_bytes(
            row.slot_key@,
            32,
        ) is Some,
        storage_row_holds(row, diff) ==> storage_row_parses(row),
{
}

} // verus!
