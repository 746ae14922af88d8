//! Diffs from a file of lines, one record per line.
use vstd::prelude::*;

use crate::periods::{AccountDiff, StorageDiff};
use crate::primitives::{Address, B256};
use crate::text::same_text;

verus! {

/// One record of a file. The kind is `account` or `storage`; storage records have a slot.
#[derive(Debug, PartialEq, Eq)]
pub struct FileDiff {
    pub kind: String,
    pub block: u64,
    pub address: Address,
    pub slot: Option<B256>,
}

/// What a record is, as mathematical values.
pub struct FileDiffView {
    pub kind: Seq<char>,
    pub block: u64,
    pub address: Address,
    pub slot: Option<B256>,
}

impl View for FileDiff {
    type V = FileDiffView;

    open spec fn view(&self) -> FileDiffView {
        FileDiffView {
            kind: self.kind@,
            block: self.block,
            address: self.address,
            slot: self.slot,
        }
    }
}

/// What each of some records is.
pub open spec fn diffs_view(diffs: Seq<FileDiff>) -> Seq<FileDiffView> {
    Seq::new(diffs.len(), |i: int| diffs[i]@)
}

impl Clone for FileDiff {
    fn clone(&self) -> (copy: Self)
        ensures
            copy@ == self@,
    {
        FileDiff {
            kind: self.kind.clone(),
            block: self.block,
            address: self.address,
            slot: self.slot,
        }
    }
}

/// A line of a file.
#[derive(Debug)]
pub enum FileLine {
    /// There is nothing on the line.
    Empty,
    /// The line is a record.
    Record(FileDiff),
    /// The line is something else.
    Malformed,
}

/// A file of records.
#[derive(Debug, PartialEq, Eq)]
pub struct FileSource {
    path: String,
}

impl View for FileSource {
    type V = Seq<char>;

    /// The path of the file.
    closed spec fn view(&self) -> Seq<char> {
        self.path@
    }
}

/// A block is in a range, whose ends belong to it.
pub open spec fn in_range(block: u64, start_block: u64, end_block: u64) -> bool {
    start_block <= block && block <= end_block
}

/// The records of the first `n` lines whose block is in range.
pub open spec fn records_in_range(
    lines: Seq<FileLine>,
    start_block: u64,
    end_block: u64,
    n: int,
) -> Seq<FileDiffView>
    decreases n,
{
    if n <= 0 {
        Seq::empty()
    } else {
        let before = records_in_range(lines, start_block, end_block, n - 1);
        match lines[n - 1] {
            FileLine::Record(diff) => if in_range(diff.block, start_block, end_block) {
                before.push(diff@)
            } else {
                before
            },
            _ => before,
        }
    }
}

/// The accounts among the first `n` records.
pub open spec fn accounts_among(diffs: Seq<FileDiffView>, n: int) -> Seq<AccountDiff>
    decreases n,
{
    if n <= 0 {
        Seq::empty()
    } else {
        let before = accounts_among(diffs, n - 1);
        let diff = diffs[n - 1];
        if diff.kind == "account"@ {
            before.push(AccountDiff { address: diff.address, block: diff.block })
        } else {
            before
        }
    }
}

/// The slots among the first `n` records: those of storage records that have one.
pub open spec fn slots_among(diffs: Seq<FileDiffView>, n: int) -> Seq<StorageDiff>
    decreases n,
{
    if n <= 0 {
        Seq::empty()
    } else {
        let before = slots_among(diffs, n - 1);
        let diff = diffs[n - 1];
        match diff.slot {
            Some(slot) if diff.kind == "storage"@ => before.push(
                StorageDiff { address: diff.address, slot, block: diff.block },
            ),
            _ => before,
        }
    }
}

/// Line `n`, counted from one, is the first that is neither empty nor a record.
pub open spec fn first_malformed(lines: Seq<FileLine>, n: int) -> bool {
    &&& 0 < n <= lines.len()
    &&& lines[n - 1] is Malformed
    &&& forall|i: int| 0 <= i < n - 1 ==> !(#[trigger] lines[i] is Malformed)
}

impl FileSource {
    /// The file at a path.
    pub fn new(path: String) -> (source: Self)
        ensures
            source@ == path@,
    {
        FileSource { path }
    }

    /// The path of the file.
    pub fn path(&self) -> (path: &str)
        ensures
            path@ == self@,
    {
        self.path.as_str()
    }

    /// The records of a file's lines whose block is in range, or the number of the first line that
    /// is neither empty nor a record.
    pub fn read_lines(lines: &[FileLine], start_block: u64, end_block: u64) -> (r: Result<
        Vec<FileDiff>,
        usize,
    >)
        ensures
            match r {
                Ok(diffs) => {
                    &&& forall|i: int|
                        0 <= i < lines@.len() ==> !(#[trigger] lines@[i] is Malformed)
                    &&& diffs_view(diffs@) == records_in_range(
                        lines@,
                        start_block,
                        end_block,
                        lines@.len() as int,
                    )
                },
                Err(n) => first_malformed(lines@, n as int),
            },
    {
        let mut diffs: Vec<FileDiff> = Vec::new();
        let mut i: usize = 0;
        assert(diffs_view(diffs@) =~= Seq::<FileDiffView>::empty());
        while i < lines.len()
            invariant
                i <= lines@.len(),
                forall|j: int| 0 <= j < i ==> !(#[trigger] lines@[j] is Malformed),
                diffs_view(diffs@) == records_in_range(lines@, start_block, end_block, i as int),
            decreases lines.len() - i,
        {
            match &lines[i] {
                FileLine::Empty => {},
                FileLine::Malformed => {
                    return Err(i + 1);
                },
                FileLine::Record(diff) => {
                    if start_block <= diff.block && diff.block <= end_block {
                        let ghost before = diffs@;
                        diffs.push(diff.clone());
                        assert(diffs_view(diffs@) =~= diffs_view(before).push(diff@));
                    }
                },
            }
            i = i + 1;
        }
        Ok(diffs)
    }

    /// The accounts among some records.
    pub fn account_diffs(diffs: &[FileDiff]) -> (accounts: Vec<AccountDiff>)
        ensures
            accounts@ == accounts_among(diffs_view(diffs@), diffs@.len() as int),
    {
        let ghost all = diffs_view(diffs@);
        let mut accounts: Vec<AccountDiff> = Vec::new();
        let mut i: usize = 0;
        while i < diffs.len()
            invariant
                i <= diffs@.len(),
                all == diffs_view(diffs@),
                accounts@ == accounts_among(all, i as int),
            decreases diffs.len() - i,
        {
            let diff: &FileDiff = &diffs[i];
            assert(all[i as int] == diff@);
            if same_text(diff.kind.as_str(), "account") {
                accounts.push(AccountDiff { address: diff.address, block: diff.block });
            }
            i = i + 1;
        }
        accounts
    }

    /// The slots among some records.
    pub fn storage_diffs(diffs: &[FileDiff]) -> (slots: Vec<StorageDiff>)
        ensures
            slots@ == slots_among(diffs_view(diffs@), diffs@.len() as int),
    {
        let ghost all = diffs_view(diffs@);
        let mut slots: Vec<StorageDiff> = Vec::new();
        let mut i: usize = 0;
        while i < diffs.len()
            invariant
                i <= diffs@.len(),
                all == diffs_view(diffs@),
                slots@ == slots_among(all, i as int),
            decreases diffs.len() - i,
        {
            let diff: &FileDiff = &diffs[i];
            assert(all[i as int] == diff@);
            if same_text(diff.kind.as_str(), "storage") {
                match diff.slot {
                    Some(slot) => {
                        slots.push(StorageDiff { address: diff.address, slot, block: diff.block });
                    },
                    None => {},
                }
            }
            i = i + 1;
        }
        slots
    }
}

/// Each line is read for itself: what is read of some lines and then of others is what is read of
/// all of them, whatever stands before or after a line.
pub proof fn lemma_lines_are_read_apart(
    a: Seq<FileLine>,
    b: Seq<FileLine>,
    start_block: u64,
    end_block: u64,
)
    ensures
        records_in_range(a + b, start_block, end_block, (a + b).len() as int) == records_in_range(
            a,
            start_block,
            end_block,
            a.len() as int,
        ) + records_in_range(b, start_block, end_block, b.len() as int),
{
    lemma_lines_prefix(a, b, start_block, end_block, a.len() as int);
    lemma_lines_suffix(a, b, start_block, end_block, b.len() as int);
}

/// Lines that come later do not count.
proof fn lemma_lines_prefix(
    a: Seq<FileLine>,
    b: Seq<FileLine>,
    start_block: u64,
    end_block: u64,
    n: int,
)
    requires
        0 <= n <= a.len(),
    ensures
        records_in_range(a + b, start_block, end_block, n) == records_in_range(
            a,
            start_block,
            end_block,
            n,
        ),
    decreases n,
{
    if n > 0 {
        lemma_lines_prefix(a, b, start_block, end_block, n - 1);
        assert((a + b)[n - 1] == a[n - 1]);
    }
}

/// Lines that come later are read on top of those before.
proof fn lemma_lines_suffix(
    a: Seq<FileLine>,
    b: Seq<FileLine>,
    start_block: u64,
    end_block: u64,
    n: int,
)
    requires
        0 <= n <= b.len(),
    ensures
        records_in_range(a + b, start_block, end_block, a.len() + n) == records_in_range(
            a,
            start_block,
            end_block,
            a.len() as int,
        ) + records_in_range(b, start_block, end_block, n),
    decreases n,
{
    let first = records_in_range(a, start_block, end_block, a.len() as int);
    if n == 0 {
        lemma_lines_prefix(a, b, start_block, end_block, a.len() as int);
        assert(first + Seq::<FileDiffView>::empty() =~= first);
    } else {
        lemma_lines_suffix(a, b, start_block, end_block, n - 1);
        assert((a + b)[a.len() + n - 1] == b[n - 1]);
        assert(records_in_range(a + b, start_block, end_block, a.len() + n) =~= first
            + records_in_range(b, start_block, end_block, n));
    }
}

/// A line by itself gives its record where the record's block is from the start to the end of the
/// range, and nothing otherwise.
pub proof fn lemma_one_line(line: FileLine, start_block: u64, end_block: u64)
    ensures
        ({
            let read = records_in_range(seq![line], start_block, end_block, 1);
            match line {
                FileLine::Record(diff) => if start_block <= diff.block && diff.block <= end_block {
                    read == seq![diff@]
                } else {
                    read.len() == 0
                },
                _ => read.len() == 0,
            }
        }),
{
    let line_seq = seq![line];
    assert(line_seq[0] == line);
    let none = records_in_range(line_seq, start_block, end_block, 0);
    assert(none =~= Seq::empty());
    if let FileLine::Record(diff) = line {
        assert(none.push(diff@) =~= seq![diff@]);
    }
}

/// What is read of a range is what is read of all blocks, less the records of other blocks.
pub proof fn lemma_range_filters_records(
    lines: Seq<FileLine>,
    start_block: u64,
    end_block: u64,
    n: int,
)
    requires
        0 <= n <= lines.len(),
    ensures
        records_in_range(lines, start_block, end_block, n) == records_in_range(
            lines,
            0,
            u64::MAX,
            n,
        ).filter(|diff: FileDiffView| start_block <= diff.block && diff.block <= end_block),
    decreases n,
{
    reveal(Seq::filter);
    let keep = |diff: FileDiffView| start_block <= diff.block && diff.block <= end_block;
    let all = records_in_range(lines, 0, u64::MAX, n);
    if n == 0 {
        assert(all.filter(keep) =~= Seq::empty());
    } else {
        lemma_range_filters_records(lines, start_block, end_block, n - 1);
        let before = records_in_range(lines, 0, u64::MAX, n - 1);
        if let FileLine::Record(diff) = lines[n - 1] {
            assert(all == before.push(diff@));
            assert(all.drop_last() =~= before);
        }
    }
}

/// Each record is sorted out for itself.
pub proof fn lemma_records_are_sorted_apart(a: Seq<FileDiffView>, b: Seq<FileDiffView>, n: int)
    requires
        0 <= n <= b.len(),
    ensures
        accounts_among(a + b, a.len() + n) == accounts_among(a, a.len() as int) + accounts_among(
            b,
            n,
        ),
        slots_among(a + b, a.len() + n) == slots_among(a, a.len() as int) + slots_among(b, n),
    decreases n,
{
    let accounts = accounts_among(a, a.len() as int);
    let slots = slots_among(a, a.len() as int);
    if n == 0 {
        lemma_records_prefix(a, b, a.len() as int);
        assert(accounts + Seq::<AccountDiff>::empty() =~= accounts);
        assert(slots + Seq::<StorageDiff>::empty() =~= slots);
    } else {
        lemma_records_are_sorted_apart(a, b, n - 1);
        assert((a + b)[a.len() + n - 1] == b[n - 1]);
        assert(accounts_among(a + b, a.len() + n) =~= accounts + accounts_among(b, n));
        assert(slots_among(a + b, a.len() + n) =~= slots + slots_among(b, n));
    }
}

/// Records that come later do not count.
proof fn lemma_records_prefix(a: Seq<FileDiffView>, b: Seq<FileDiffView>, n: int)
    requires
        0 <= n <= a.len(),
    ensures
        accounts_among(a + b, n) == accounts_among(a, n),
        slots_among(a + b, n) == slots_among(a, n),
    decreases n,
{
    if n > 0 {
        lemma_records_prefix(a, b, n - 1);
        assert((a + b)[n - 1] == a[n - 1]);
    }
}

/// An account record gives its account, and a storage record with a slot gives its slot; a record
/// gives nothing else.
pub proof fn lemma_one_record(diff: FileDiffView)
    ensures
        diff.kind == "account"@ ==> accounts_among(seq![diff], 1) == seq![
            AccountDiff { address: diff.address, block: diff.block },
        ],
        diff.kind != "account"@ ==> accounts_among(seq![diff], 1).len() == 0,
        diff.kind == "storage"@ && diff.slot is Some ==> slots_among(seq![diff], 1) == seq![
            StorageDiff { address: diff.address, slot: diff.slot->0, block: diff.block },
        ],
        diff.kind != "storage"@ || diff.slot is None ==> slots_among(seq![diff], 1).len() == 0,
{
    let one = seq![diff];
    assert(one[0] == diff);
    assert(accounts_among(one, 0) =~= Seq::empty());
    assert(slots_among(one, 0) =~= Seq::empty());
    if diff.kind == "account"@ {
        assert(accounts_among(one, 1) =~= seq![
            AccountDiff { address: diff.address, block: diff.block },
        ]);
    }
    if diff.kind == "storage"@ && diff.slot is Some {
        assert(slots_among(one, 1) =~= seq![
            StorageDiff { address: diff.address, slot: diff.slot->0, block: diff.block },
        ]);
    }
}

/// A file has at most one first malformed line: no malformed line stands before it.
pub proof fn lemma_first_malformed(lines: Seq<FileLine>, n: int, other: int)
    requires
        first_malformed(lines, n),
        0 < other <= lines.len(),
        lines[other - 1] is Malformed,
    ensures
        n <= other,
        lines[n - 1] is Malformed,
        first_malformed(lines, other) ==> other == n,
{
}

} // verus!
