//! Moving inactive subtrees to the cold file: what is to be done next, step by step, and what is
//! counted. A blob is durable and has been read back before any row is touched, and the length of
//! the file is recorded together with the rows that point into it.
use vstd::prelude::*;

use crate::be_bytes::{be64, from_be64, lemma_be64_round_trip, push_be64, read_be64};
use crate::capture::{all_decode, capture_subtree, captured, nodes_under, root_check, PathNode};
use crate::cold_file::{blob_of, nodes_view, root_of_blob, verify_blob, Blob, ColdFileWriter};
use crate::cold_format::ColdError;
use crate::cold_stub::ColdStub;
use crate::identifier::{subtrees_view, InactiveSubtree, SubtreeView, TrieKind};
use crate::nibbles::{is_hex_path, parse_nibbles_hex, path_of_hex, Nibbles};
use crate::primitives::{same_hash, B256};
use crate::row_range::{keys_above, owner_view, rows_above, rows_view, RowKey, RowView};
use crate::trie_node::NodeView;

verus! {

/// Why a conversion cannot go on.
#[derive(Debug, Clone, Copy, PartialEq, Eq, Structural)]
pub enum ConvertError {
    /// The recorded length of the cold file is not eight bytes.
    CorruptCheckpoint,
    /// The cold file is shorter than the recorded length.
    FileShorterThanCheckpoint,
    /// A blob cannot be written or does not read back.
    Cold(ColdError),
    /// A blob reads back to another hash than its subtree has.
    WriteNotRoundTripped,
    /// The file, or a count of nodes, does not fit its counter.
    CounterFull,
}

/// Counters of one run.
#[derive(Debug, Clone, Copy, PartialEq, Eq, Structural)]
pub struct Stats {
    pub subtrees_identified: u64,
    pub subtrees_converted: u64,
    /// Subtrees whose root had a stub already.
    pub subtrees_skipped_already_converted: u64,
    /// Subtrees whose nodes could not be captured with the right root hash.
    pub subtrees_skipped_root_hash_mismatch: u64,
    pub account_nodes_written: u64,
    pub storage_nodes_written: u64,
    pub hot_rows_deleted: u64,
    /// Stubs that a stub above them replaced.
    pub stub_rows_subsumed: u64,
    pub bytes_written_cold: u64,
}

impl Default for Stats {
    /// All counters at zero.
    fn default() -> (stats: Self)
        ensures
            stats == stats_of(0),
    {
        Stats {
            subtrees_identified: 0,
            subtrees_converted: 0,
            subtrees_skipped_already_converted: 0,
            subtrees_skipped_root_hash_mismatch: 0,
            account_nodes_written: 0,
            storage_nodes_written: 0,
            hot_rows_deleted: 0,
            stub_rows_subsumed: 0,
            bytes_written_cold: 0,
        }
    }
}

/// The counters of a run that has done nothing yet about `identified` subtrees.
pub open spec fn stats_of(identified: u64) -> Stats {
    Stats {
        subtrees_identified: identified,
        subtrees_converted: 0,
        subtrees_skipped_already_converted: 0,
        subtrees_skipped_root_hash_mismatch: 0,
        account_nodes_written: 0,
        storage_nodes_written: 0,
        hot_rows_deleted: 0,
        stub_rows_subsumed: 0,
        bytes_written_cold: 0,
    }
}

/// The length of the cold file that a metadata row records, if there is one.
pub open spec fn checkpoint_of(row: Option<Seq<u8>>) -> Result<Option<u64>, ConvertError> {
    match row {
        None => Ok(None),
        Some(bytes) => if bytes.len() != 8 {
            Err(ConvertError::CorruptCheckpoint)
        } else {
            Ok(Some(from_be64(bytes)))
        },
    }
}

/// The bytes of a row, if there is one.
pub open spec fn row_view(row: Option<Vec<u8>>) -> Option<Seq<u8>> {
    match row {
        None => None,
        Some(bytes) => Some(bytes@),
    }
}

/// Reads the length of the cold file that a metadata row records.
pub fn read_checkpoint(row: &Option<Vec<u8>>) -> (r: Result<Option<u64>, ConvertError>)
    ensures
        r == checkpoint_of(row_view(*row)),
{
    match row {
        None => Ok(None),
        Some(bytes) => {
            if bytes.len() != 8 {
                return Err(ConvertError::CorruptCheckpoint);
            }
            assert(bytes@.skip(0) =~= bytes@);
            Ok(Some(read_be64(bytes.as_slice(), 0)))
        },
    }
}

/// The metadata row that records the length of the cold file.
pub fn write_checkpoint(len: u64) -> (row: Vec<u8>)
    ensures
        row@ == be64(len),
{
    let mut row: Vec<u8> = Vec::new();
    push_be64(&mut row, len);
    assert(row@ =~= be64(len));
    row
}

/// A recorded length reads back.
pub proof fn lemma_checkpoint_round_trip(len: u64)
    ensures
        checkpoint_of(Some(be64(len))) == Ok::<_, ConvertError>(Some(len)),
{
    lemma_be64_round_trip(len, Seq::empty());
    assert(be64(len) + Seq::<u8>::empty() =~= be64(len));
}

/// Holds the length of the cold file against the recorded one, and returns whether the file is to
/// be cut to it: what lies past the recorded length was written by a run that did not get to
/// record it. Where nothing is recorded the file is left alone.
pub fn reconcile_cold_file(
    writer: &mut ColdFileWriter,
    checkpoint: Option<u64>,
) -> (r: Result<bool, ConvertError>)
    ensures
        match checkpoint {
            None => r == Ok::<_, ConvertError>(false) && final(writer)@ == old(writer)@,
            Some(len) => if old(writer)@ < len {
                r == Err::<bool, _>(ConvertError::FileShorterThanCheckpoint) && final(writer)@
                    == old(writer)@
            } else {
                r == Ok::<_, ConvertError>(old(writer)@ > len) && final(writer)@ == len
            },
        },
{
    match checkpoint {
        None => Ok(false),
        Some(len) => {
            if writer.valid_length() < len {
                return Err(ConvertError::FileShorterThanCheckpoint);
            }
            if writer.valid_length() > len {
                writer.truncate_to(len);
                return Ok(true);
            }
            Ok(false)
        },
    }
}

/// What is to be done with the cold file before a conversion.
#[derive(Debug)]
pub struct ColdFilePlan {
    /// Whether the file is to be created.
    pub create: bool,
    /// Whether the file is to be cut to the length that the writer starts with.
    pub cut: bool,
    pub writer: ColdFileWriter,
}

/// What is to be done with the cold file before a conversion, from the length of the file that was
/// found, if any, and the recorded length: a file that is not there is created, and what lies past
/// the recorded length is cut off. A dry run leaves the file alone.
pub fn plan_cold_file(dry_run: bool, found: Option<u64>, checkpoint: Option<u64>) -> (r: Result<
    ColdFilePlan,
    ConvertError,
>)
    ensures
        ({
            let len = match found {
                Some(len) => len,
                None => 0,
            };
            match r {
                Ok(plan) => {
                    &&& checkpoint matches Some(recorded) ==> len >= recorded
                    &&& plan.create == (!dry_run && found is None)
                    &&& plan.cut == (!dry_run && checkpoint is Some && len > checkpoint->0)
                    &&& plan.writer@ == (match checkpoint {
                        Some(recorded) => recorded,
                        None => len,
                    })
                },
                Err(e) => checkpoint matches Some(recorded) && len < recorded && e
                    == ConvertError::FileShorterThanCheckpoint,
            }
        }),
        dry_run ==> (r matches Ok(plan) ==> !plan.create && !plan.cut),
{
    let len: u64 = match found {
        Some(len) => len,
        None => 0,
    };
    let mut writer: ColdFileWriter = ColdFileWriter::open(len);
    match reconcile_cold_file(&mut writer, checkpoint) {
        Err(e) => Err(e),
        Ok(orphaned) => Ok(
            ColdFilePlan {
                create: !dry_run && found.is_none(),
                cut: !dry_run && orphaned,
                writer,
            },
        ),
    }
}

/// The key of the rows of a subtree's root.
pub open spec fn root_row(subtree: SubtreeView) -> RowView {
    RowView {
        owner: if subtree.trie == TrieKind::Account {
            Seq::empty()
        } else {
            subtree.owner
        },
        path: path_of_hex(subtree.path),
    }
}

/// The key of the rows of a subtree's root.
pub fn root_key(subtree: &InactiveSubtree) -> (key: RowKey)
    requires
        is_hex_path(subtree.path@),
    ensures
        key@ == root_row(subtree@),
        key.owner is Some == (subtree.trie == TrieKind::Storage),
{
    let owner: Option<B256> = match subtree.trie {
        TrieKind::Account => None,
        TrieKind::Storage => Some(subtree.owner),
    };
    RowKey { owner, path: parse_nibbles_hex(subtree.path.as_str()) }
}

/// What a step of a conversion asks for.
#[derive(Debug)]
pub enum Task {
    /// Find out whether there is a stub with this key.
    FindStub(RowKey),
    /// Find the hashed leaves with this owner under this path.
    FindLeaves(RowKey),
    /// Make a proof for these leaves of the trie with this owner.
    Prove(Option<B256>, Vec<B256>),
    /// Append these bytes to the cold file and make them durable.
    Append(Vec<u8>),
    /// Read the blob that this stub points at.
    ReadBlob(ColdStub),
    /// Delete the rows of the trie tables with this owner at or below this path.
    DeleteRows(RowKey),
    /// Delete the stubs with this owner at or below this path.
    DeleteStubs(RowKey),
    /// Delete the stubs that have one of these keys. They stand above the subtree's root, and stubs
    /// do not nest.
    DropStubs(Vec<RowKey>),
    /// Put this stub under this key.
    PutStub(RowKey, ColdStub),
    /// Record this length of the cold file, and commit all rows.
    Commit(Vec<u8>),
    /// Nothing is left to do.
    Finish,
}

/// What a task is, as mathematical values.
pub enum TaskView {
    FindStub(RowView),
    FindLeaves(RowView),
    Prove(Seq<u8>, Seq<B256>),
    Append(Seq<u8>),
    ReadBlob(ColdStub),
    DeleteRows(RowView),
    DeleteStubs(RowView),
    DropStubs(Seq<RowView>),
    PutStub(RowView, ColdStub),
    Commit(Seq<u8>),
    Finish,
}

impl View for Task {
    type V = TaskView;

    open spec fn view(&self) -> TaskView {
        match self {
            Task::FindStub(key) => TaskView::FindStub(key@),
            Task::FindLeaves(key) => TaskView::FindLeaves(key@),
            Task::Prove(owner, targets) => TaskView::Prove(owner_view(*owner), targets@),
            Task::Append(bytes) => TaskView::Append(bytes@),
            Task::ReadBlob(stub) => TaskView::ReadBlob(*stub),
            Task::DeleteRows(key) => TaskView::DeleteRows(key@),
            Task::DeleteStubs(key) => TaskView::DeleteStubs(key@),
            Task::DropStubs(keys) => TaskView::DropStubs(rows_view(keys@)),
            Task::PutStub(key, stub) => TaskView::PutStub(key@, *stub),
            Task::Commit(row) => TaskView::Commit(row@),
            Task::Finish => TaskView::Finish,
        }
    }
}

/// Which task was asked for last, and what is needed once it is done.
#[derive(Debug)]
enum Phase {
    FindingStub,
    FindingLeaves,
    Proving,
    Appending(Blob, u64),
    Reading(ColdStub, u64),
    DeletingRows(ColdStub, u64),
    DeletingStubs(ColdStub, u64),
    DroppingStubs(ColdStub, u64),
    Putting(u64),
    Committing,
    Finished,
    Failed,
}

/// What a phase is, as mathematical values.
pub enum PhaseView {
    FindingStub,
    FindingLeaves,
    Proving,
    Appending { bytes: Seq<u8>, stub: ColdStub, nodes: nat },
    Reading { stub: ColdStub, nodes: nat },
    DeletingRows { stub: ColdStub, nodes: nat },
    DeletingStubs { stub: ColdStub, nodes: nat },
    DroppingStubs { stub: ColdStub, nodes: nat },
    Putting { nodes: nat },
    Committing,
    Finished,
    Failed,
}

/// A conversion of some subtrees, one after another, in batches that are committed together.
#[derive(Debug)]
pub struct Converter {
    subtrees: Vec<InactiveSubtree>,
    at: usize,
    in_batch: usize,
    batch_size: usize,
    dry_run: bool,
    writer: ColdFileWriter,
    batch_start: u64,
    stats: Stats,
    phase: Phase,
}

/// What a conversion is, as mathematical values.
pub struct ConvertView {
    pub subtrees: Seq<SubtreeView>,
    /// How many subtrees are done.
    pub at: nat,
    /// How many of them were done since the last commit.
    pub in_batch: nat,
    pub batch_size: nat,
    pub dry_run: bool,
    /// The length of the cold file, now and at the last commit.
    pub file_len: nat,
    pub batch_start: nat,
    pub stats: Stats,
    pub phase: PhaseView,
}

impl View for Converter {
    type V = ConvertView;

    closed spec fn view(&self) -> ConvertView {
        ConvertView {
            subtrees: subtrees_view(self.subtrees@),
            at: self.at as nat,
            in_batch: self.in_batch as nat,
            batch_size: self.batch_size as nat,
            dry_run: self.dry_run,
            file_len: self.writer@ as nat,
            batch_start: self.batch_start as nat,
            stats: self.stats,
            phase: match self.phase {
                Phase::FindingStub => PhaseView::FindingStub,
                Phase::FindingLeaves => PhaseView::FindingLeaves,
                Phase::Proving => PhaseView::Proving,
                Phase::Appending(blob, nodes) => PhaseView::Appending {
                    bytes: blob.bytes@,
                    stub: blob.stub,
                    nodes: nodes as nat,
                },
                Phase::Reading(stub, nodes) => PhaseView::Reading { stub, nodes: nodes as nat },
                Phase::DeletingRows(stub, nodes) => PhaseView::DeletingRows {
                    stub,
                    nodes: nodes as nat,
                },
                Phase::DeletingStubs(stub, nodes) => PhaseView::DeletingStubs {
                    stub,
                    nodes: nodes as nat,
                },
                Phase::DroppingStubs(stub, nodes) => PhaseView::DroppingStubs {
                    stub,
                    nodes: nodes as nat,
                },
                Phase::Putting(nodes) => PhaseView::Putting { nodes: nodes as nat },
                Phase::Committing => PhaseView::Committing,
                Phase::Finished => PhaseView::Finished,
                Phase::Failed => PhaseView::Failed,
            },
        }
    }
}

/// The nodes that a phase will count.
pub open spec fn pending_nodes(phase: PhaseView) -> nat {
    match phase {
        PhaseView::Appending { nodes, .. } => nodes,
        PhaseView::Reading { nodes, .. } => nodes,
        PhaseView::DeletingRows { nodes, .. } => nodes,
        PhaseView::DeletingStubs { nodes, .. } => nodes,
        PhaseView::DroppingStubs { nodes, .. } => nodes,
        PhaseView::Putting { nodes } => nodes,
        _ => 0,
    }
}

/// A phase in which a subtree is being worked on.
pub open spec fn in_subtree(phase: PhaseView) -> bool {
    !(phase is Committing || phase is Finished || phase is Failed)
}

/// How many subtrees were converted or passed over.
pub open spec fn outcomes(stats: Stats) -> int {
    stats.subtrees_converted + stats.subtrees_skipped_already_converted
        + stats.subtrees_skipped_root_hash_mismatch
}

/// The state of a conversion is consistent. Each subtree that is done has one outcome; a dry run
/// counts only those that it passes over.
pub open spec fn sound(c: ConvertView) -> bool {
    &&& forall|i: int| 0 <= i < c.subtrees.len() ==> is_hex_path((#[trigger] c.subtrees[i]).path)
    &&& c.subtrees.len() <= usize::MAX
    &&& c.at <= c.subtrees.len()
    &&& in_subtree(c.phase) ==> c.at < c.subtrees.len()
    &&& c.in_batch <= c.at
    &&& c.batch_size > 0
    &&& c.batch_start <= c.file_len <= u64::MAX
    &&& c.stats.bytes_written_cold <= c.batch_start
    &&& c.stats.subtrees_identified == c.subtrees.len()
    &&& outcomes(c.stats) <= c.at
    &&& !c.dry_run ==> outcomes(c.stats) == c.at
    &&& c.stats.account_nodes_written + pending_nodes(c.phase) <= u64::MAX
    &&& c.stats.storage_nodes_written + pending_nodes(c.phase) <= u64::MAX
    &&& c.phase matches PhaseView::Appending { bytes, .. } ==> c.file_len + bytes.len() <= u64::MAX
}

/// What comes next once a subtree or a batch is done: the batch is committed when it is full or
/// there are no more subtrees; a dry run has nothing to commit.
pub open spec fn decided(c: ConvertView) -> (ConvertView, TaskView) {
    if !c.dry_run && c.in_batch > 0 && (c.in_batch >= c.batch_size || c.at == c.subtrees.len()) {
        (
            ConvertView { phase: PhaseView::Committing, ..c },
            TaskView::Commit(be64(c.file_len as u64)),
        )
    } else if c.at == c.subtrees.len() {
        (ConvertView { phase: PhaseView::Finished, ..c }, TaskView::Finish)
    } else {
        (
            ConvertView { phase: PhaseView::FindingStub, ..c },
            TaskView::FindStub(root_row(c.subtrees[c.at as int])),
        )
    }
}

/// What comes next once the subtree at hand is done.
pub open spec fn passed(c: ConvertView) -> (ConvertView, TaskView) {
    decided(ConvertView { at: c.at + 1, in_batch: c.in_batch + 1, ..c })
}

/// The subtree at hand is passed over, and counted as not captured.
pub open spec fn not_captured(c: ConvertView) -> (ConvertView, TaskView) {
    passed(
        ConvertView {
            stats: Stats {
                subtrees_skipped_root_hash_mismatch: (c.stats.subtrees_skipped_root_hash_mismatch
                    + 1) as u64,
                ..c.stats
            },
            ..c
        },
    )
}

/// A subtree whose root has a stub is passed over; another one's leaves are looked for.
pub open spec fn after_stub(c: ConvertView, found: bool) -> (ConvertView, TaskView) {
    if found {
        passed(
            ConvertView {
                stats: Stats {
                    subtrees_skipped_already_converted: (
                    c.stats.subtrees_skipped_already_converted + 1) as u64,
                    ..c.stats
                },
                ..c
            },
        )
    } else {
        (
            ConvertView { phase: PhaseView::FindingLeaves, ..c },
            TaskView::FindLeaves(root_row(c.subtrees[c.at as int])),
        )
    }
}

/// A proof is made for the leaves; without any the subtree is passed over.
pub open spec fn after_leaves(c: ConvertView, keys: Seq<B256>) -> (ConvertView, TaskView) {
    if keys.len() == 0 {
        not_captured(c)
    } else {
        (
            ConvertView { phase: PhaseView::Proving, ..c },
            TaskView::Prove(root_row(c.subtrees[c.at as int]).owner, keys),
        )
    }
}

/// The captured nodes become a blob to append; a dry run is done with the subtree.
pub open spec fn after_capture(
    c: ConvertView,
    nodes: Seq<(Seq<u8>, NodeView)>,
) -> Result<(ConvertView, TaskView), ConvertError> {
    if c.dry_run {
        Ok(passed(c))
    } else {
        match blob_of(nodes, c.file_len as u64) {
            Err(e) => Err(ConvertError::Cold(e)),
            Ok((bytes, stub)) => if c.file_len + bytes.len() > u64::MAX
                || c.stats.account_nodes_written + nodes.len() > u64::MAX
                || c.stats.storage_nodes_written + nodes.len() > u64::MAX {
                Err(ConvertError::CounterFull)
            } else {
                Ok(
                    (
                        ConvertView {
                            phase: PhaseView::Appending { bytes, stub, nodes: nodes.len() },
                            ..c
                        },
                        TaskView::Append(bytes),
                    ),
                )
            },
        }
    }
}

/// An appended blob is read back.
pub open spec fn after_append(c: ConvertView) -> (ConvertView, TaskView) {
    let (bytes, stub, nodes) = (c.phase->bytes, c.phase->Appending_stub, c.phase->Appending_nodes);
    (
        ConvertView {
            file_len: c.file_len + bytes.len(),
            phase: PhaseView::Reading { stub, nodes },
            ..c
        },
        TaskView::ReadBlob(stub),
    )
}

/// Rows are touched only where the blob reads back to the hash of the subtree.
pub open spec fn after_read(c: ConvertView, bytes: Seq<u8>) -> Result<
    (ConvertView, TaskView),
    ConvertError,
> {
    match root_of_blob(bytes) {
        Err(e) => Err(ConvertError::Cold(e)),
        Ok(hash) => if hash != c.subtrees[c.at as int].hash {
            Err(ConvertError::WriteNotRoundTripped)
        } else {
            Ok(
                (
                    ConvertView {
                        phase: PhaseView::DeletingRows {
                            stub: c.phase->Reading_stub,
                            nodes: c.phase->Reading_nodes,
                        },
                        ..c
                    },
                    TaskView::DeleteRows(root_row(c.subtrees[c.at as int])),
                ),
            )
        },
    }
}

/// After the rows, the stubs below the new one are deleted.
pub open spec fn after_rows(c: ConvertView, deleted: u64) -> (ConvertView, TaskView) {
    (
        ConvertView {
            stats: Stats {
                hot_rows_deleted: (c.stats.hot_rows_deleted + deleted) as u64,
                ..c.stats
            },
            phase: PhaseView::DeletingStubs {
                stub: c.phase->DeletingRows_stub,
                nodes: c.phase->DeletingRows_nodes,
            },
            ..c
        },
        TaskView::DeleteStubs(root_row(c.subtrees[c.at as int])),
    )
}

/// After the stubs at or below the new one, those above it are deleted, for stubs do not nest.
pub open spec fn after_stubs(c: ConvertView, deleted: u64) -> (ConvertView, TaskView) {
    (
        ConvertView {
            stats: Stats {
                stub_rows_subsumed: (c.stats.stub_rows_subsumed + deleted) as u64,
                ..c.stats
            },
            phase: PhaseView::DroppingStubs {
                stub: c.phase->DeletingStubs_stub,
                nodes: c.phase->DeletingStubs_nodes,
            },
            ..c
        },
        TaskView::DropStubs(rows_above(root_row(c.subtrees[c.at as int]))),
    )
}

/// Where no stub stands in its way, the new stub is put.
pub open spec fn after_drop(c: ConvertView) -> (ConvertView, TaskView) {
    (
        ConvertView { phase: PhaseView::Putting { nodes: c.phase->DroppingStubs_nodes }, ..c },
        TaskView::PutStub(root_row(c.subtrees[c.at as int]), c.phase->DroppingStubs_stub),
    )
}

/// A subtree whose stub is put is converted.
pub open spec fn after_put(c: ConvertView) -> (ConvertView, TaskView) {
    let nodes = c.phase->Putting_nodes;
    let account = c.subtrees[c.at as int].trie == TrieKind::Account;
    passed(
        ConvertView {
            stats: Stats {
                account_nodes_written: (c.stats.account_nodes_written + if account {
                    nodes
                } else {
                    0
                }) as u64,
                storage_nodes_written: (c.stats.storage_nodes_written + if account {
                    0
                } else {
                    nodes
                }) as u64,
                subtrees_converted: (c.stats.subtrees_converted + 1) as u64,
                ..c.stats
            },
            ..c
        },
    )
}

/// A committed batch is counted, and the next one begins.
pub open spec fn after_commit(c: ConvertView) -> (ConvertView, TaskView) {
    decided(
        ConvertView {
            stats: Stats {
                bytes_written_cold: (c.stats.bytes_written_cold + (c.file_len
                    - c.batch_start)) as u64,
                ..c.stats
            },
            batch_start: c.file_len,
            in_batch: 0,
            ..c
        },
    )
}

/// A conversion that has done nothing yet.
pub open spec fn conversion_start(
    subtrees: Seq<SubtreeView>,
    batch_size: nat,
    dry_run: bool,
    file_len: nat,
) -> ConvertView {
    ConvertView {
        subtrees,
        at: 0,
        in_batch: 0,
        batch_size: if batch_size == 0 {
            1
        } else {
            batch_size
        },
        dry_run,
        file_len,
        batch_start: file_len,
        stats: stats_of(subtrees.len() as u64),
        phase: PhaseView::Finished,
    }
}

impl Converter {
    /// The conversion of these subtrees, and its first task. A batch of no size has one subtree.
    pub fn start(
        subtrees: Vec<InactiveSubtree>,
        batch_size: usize,
        dry_run: bool,
        writer: ColdFileWriter,
    ) -> (r: (Self, Task))
        requires
            forall|i: int| 0 <= i < subtrees@.len() ==> is_hex_path((#[trigger] subtrees@[i]).path@),
        ensures
            sound(r.0@),
            (r.0@, r.1@) == decided(
                conversion_start(
                    subtrees_view(subtrees@),
                    batch_size as nat,
                    dry_run,
                    writer@ as nat,
                ),
            ),
    {
        let identified: u64 = subtrees.len() as u64;
        let batch_start: u64 = writer.valid_length();
        let stats: Stats = Stats { subtrees_identified: identified, ..Stats::default() };
        assert(subtrees@.len() == subtrees.len());
        let mut converter: Converter = Converter {
            subtrees,
            at: 0,
            in_batch: 0,
            batch_size: if batch_size == 0 {
                1
            } else {
                batch_size
            },
            dry_run,
            writer,
            batch_start,
            stats,
            phase: Phase::Finished,
        };
        assert forall|i: int| 0 <= i < converter@.subtrees.len() implies is_hex_path(
            (#[trigger] converter@.subtrees[i]).path,
        ) by {
            assert(is_hex_path(subtrees@[i].path@));
        }
        let task: Task = converter.decide();
        (converter, task)
    }

    /// The counters so far.
    pub fn stats(&self) -> (stats: Stats)
        ensures
            stats == self@.stats,
    {
        self.stats
    }

    /// The length of the cold file.
    pub fn file_len(&self) -> (len: u64)
        ensures
            len == self@.file_len,
    {
        self.writer.valid_length()
    }

    /// Decides what comes next.
    fn decide(&mut self) -> (task: Task)
        requires
            sound((ConvertView { phase: PhaseView::Finished, ..old(self)@ })),
        ensures
            sound(final(self)@),
            (final(self)@, task@) == decided(old(self)@),
    {
        if !self.dry_run && self.in_batch > 0 && (self.in_batch >= self.batch_size || self.at
            == self.subtrees.len()) {
            self.phase = Phase::Committing;
            return Task::Commit(write_checkpoint(self.writer.valid_length()));
        }
        if self.at == self.subtrees.len() {
            self.phase = Phase::Finished;
            return Task::Finish;
        }
        self.phase = Phase::FindingStub;
        Task::FindStub(self.key())
    }

    /// The key of the rows of the subtree at hand.
    fn key(&self) -> (key: RowKey)
        requires
            sound(self@),
            self@.at < self@.subtrees.len(),
        ensures
            key@ == root_row(self@.subtrees[self@.at as int]),
            key.owner is Some == (self@.subtrees[self@.at as int].trie == TrieKind::Storage),
    {
        assert(is_hex_path(self@.subtrees[self.at as int].path));
        assert(self@.subtrees[self.at as int] == self.subtrees@[self.at as int]@);
        root_key(&self.subtrees[self.at])
    }

    /// Goes on to the next subtree.
    fn pass(&mut self) -> (task: Task)
        requires
            sound(
                (ConvertView {
                    phase: PhaseView::Finished,
                    at: old(self)@.at + 1,
                    in_batch: old(self)@.in_batch + 1,
                    ..old(self)@
                }),
            ),
        ensures
            sound(final(self)@),
            (final(self)@, task@) == passed(old(self)@),
    {
        self.at = self.at + 1;
        self.in_batch = self.in_batch + 1;
        self.decide()
    }

    /// Counts the subtree at hand as not captured, and goes on to the next one.
    fn skip_not_captured(&mut self) -> (task: Task)
        requires
            sound(old(self)@),
            in_subtree(old(self)@.phase),
        ensures
            sound(final(self)@),
            (final(self)@, task@) == not_captured(old(self)@),
    {
        self.stats.subtrees_skipped_root_hash_mismatch =
            self.stats.subtrees_skipped_root_hash_mismatch + 1;
        self.pass()
    }

    /// Takes in whether the root of the subtree at hand has a stub.
    pub fn stub_found(&mut self, found: bool) -> (task: Task)
        requires
            sound(old(self)@),
            old(self)@.phase is FindingStub,
        ensures
            sound(final(self)@),
            (final(self)@, task@) == after_stub(old(self)@, found),
    {
        if found {
            self.stats.subtrees_skipped_already_converted =
                self.stats.subtrees_skipped_already_converted + 1;
            return self.pass();
        }
        self.phase = Phase::FindingLeaves;
        Task::FindLeaves(self.key())
    }

    /// Takes in the leaves of the subtree at hand.
    pub fn leaves_found(&mut self, keys: Vec<B256>) -> (task: Task)
        requires
            sound(old(self)@),
            old(self)@.phase is FindingLeaves,
        ensures
            sound(final(self)@),
            (final(self)@, task@) == after_leaves(old(self)@, keys@),
    {
        if keys.len() == 0 {
            return self.skip_not_captured();
        }
        self.phase = Phase::Proving;
        let key: RowKey = self.key();
        Task::Prove(key.owner, keys)
    }

    /// Takes in that no proof could be made.
    pub fn proof_failed(&mut self) -> (task: Task)
        requires
            sound(old(self)@),
            old(self)@.phase is Proving,
        ensures
            sound(final(self)@),
            (final(self)@, task@) == not_captured(old(self)@),
    {
        self.skip_not_captured()
    }

    /// Takes in the nodes of a proof for the leaves of the subtree at hand.
    pub fn proof_made(&mut self, proof_nodes: &[(Nibbles, Vec<u8>)]) -> (r: Result<
        Task,
        ConvertError,
    >)
        requires
            sound(old(self)@),
            old(self)@.phase is Proving,
        ensures
            sound(final(self)@),
            ({
                let c = old(self)@;
                let path = root_row(c.subtrees[c.at as int]).path;
                let kept = nodes_under(proof_nodes@, path);
                if !all_decode(kept) || kept.len() == 0 {
                    r matches Ok(task) && (final(self)@, task@) == not_captured(c)
                } else {
                    exists|nodes: Seq<(Seq<u8>, NodeView)>| #[trigger]
                        captured(nodes, proof_nodes@, path) && if root_check(
                            nodes,
                            c.subtrees[c.at as int].hash,
                        ) is Err {
                            r matches Ok(task) && (final(self)@, task@) == not_captured(c)
                        } else {
                            match r {
                                Ok(task) => after_capture(c, nodes) == Ok::<_, ConvertError>(
                                    (final(self)@, task@),
                                ),
                                Err(e) => after_capture(c, nodes) == Err::<
                                    (ConvertView, TaskView),
                                    _,
                                >(e) && final(self)@ == (ConvertView {
                                    phase: PhaseView::Failed,
                                    ..c
                                }),
                            }
                        }
                }
            }),
    {
        let key: RowKey = self.key();
        assert(self@.subtrees[self.at as int] == self.subtrees@[self.at as int]@);
        let hash: B256 = self.subtrees[self.at].hash;
        match capture_subtree(&key.path, &hash, proof_nodes) {
            Err(_) => Ok(self.skip_not_captured()),
            Ok(nodes) => self.write_captured(nodes),
        }
    }

    /// Makes the blob of the captured nodes.
    fn write_captured(&mut self, nodes: Vec<PathNode>) -> (r: Result<Task, ConvertError>)
        requires
            sound(old(self)@),
            old(self)@.phase is Proving,
        ensures
            sound(final(self)@),
            match r {
                Ok(task) => after_capture(old(self)@, nodes_view(nodes@)) == Ok::<_, ConvertError>(
                    (final(self)@, task@),
                ),
                Err(e) => after_capture(old(self)@, nodes_view(nodes@)) == Err::<
                    (ConvertView, TaskView),
                    _,
                >(e) && final(self)@ == (ConvertView { phase: PhaseView::Failed, ..old(self)@ }),
            },
    {
        if self.dry_run {
            return Ok(self.pass());
        }
        match self.writer.write_blob(nodes.as_slice()) {
            Err(e) => {
                self.phase = Phase::Failed;
                Err(ConvertError::Cold(e))
            },
            Ok(blob) => {
                let count: u64 = nodes.len() as u64;
                assert(nodes_view(nodes@).len() == count);
                assert(blob.bytes@.len() == blob.bytes.len());
                if blob.bytes.len() as u64 > u64::MAX - self.writer.valid_length() || count
                    > u64::MAX - self.stats.account_nodes_written || count > u64::MAX
                    - self.stats.storage_nodes_written {
                    self.phase = Phase::Failed;
                    return Err(ConvertError::CounterFull);
                }
                let bytes: Vec<u8> = vstd::slice::slice_to_vec(blob.bytes.as_slice());
                self.phase = Phase::Appending(blob, count);
                Ok(Task::Append(bytes))
            },
        }
    }

    /// Takes in that the blob is appended and durable.
    pub fn blob_appended(&mut self) -> (task: Task)
        requires
            sound(old(self)@),
            old(self)@.phase is Appending,
        ensures
            sound(final(self)@),
            (final(self)@, task@) == after_append(old(self)@),
    {
        let mut phase: Phase = Phase::Failed;
        std::mem::swap(&mut phase, &mut self.phase);
        match phase {
            Phase::Appending(blob, nodes) => {
                self.writer.blob_written(&blob);
                self.phase = Phase::Reading(blob.stub, nodes);
                Task::ReadBlob(blob.stub)
            },
            _ => {
                assert(false);
                Task::Finish
            },
        }
    }

    /// Takes in the bytes of the file from where the blob starts.
    pub fn blob_read(&mut self, bytes: &[u8]) -> (r: Result<Task, ConvertError>)
        requires
            sound(old(self)@),
            old(self)@.phase is Reading,
        ensures
            sound(final(self)@),
            match r {
                Ok(task) => after_read(old(self)@, bytes@) == Ok::<_, ConvertError>(
                    (final(self)@, task@),
                ),
                Err(e) => after_read(old(self)@, bytes@) == Err::<(ConvertView, TaskView), _>(e)
                    && final(self)@ == (ConvertView { phase: PhaseView::Failed, ..old(self)@ }),
            },
    {
        let key: RowKey = self.key();
        assert(self@.subtrees[self.at as int] == self.subtrees@[self.at as int]@);
        let checked: Result<(), ConvertError> = match verify_blob(bytes) {
            Err(e) => Err(ConvertError::Cold(e)),
            Ok(hash) => {
                if same_hash(&hash, &self.subtrees[self.at].hash) {
                    Ok(())
                } else {
                    Err(ConvertError::WriteNotRoundTripped)
                }
            },
        };
        match checked {
            Err(e) => {
                self.phase = Phase::Failed;
                Err(e)
            },
            Ok(()) => {
                match self.phase {
                    Phase::Reading(stub, nodes) => {
                        self.phase = Phase::DeletingRows(stub, nodes);
                    },
                    _ => {},
                }
                Ok(Task::DeleteRows(key))
            },
        }
    }

    /// Takes in how many rows were deleted.
    pub fn rows_deleted(&mut self, deleted: u64) -> (task: Task)
        requires
            sound(old(self)@),
            old(self)@.phase is DeletingRows,
            old(self)@.stats.hot_rows_deleted + deleted <= u64::MAX,
        ensures
            sound(final(self)@),
            (final(self)@, task@) == after_rows(old(self)@, deleted),
    {
        self.stats.hot_rows_deleted = self.stats.hot_rows_deleted + deleted;
        match self.phase {
            Phase::DeletingRows(stub, nodes) => {
                self.phase = Phase::DeletingStubs(stub, nodes);
            },
            _ => {},
        }
        Task::DeleteStubs(self.key())
    }

    /// Takes in how many stubs were deleted.
    pub fn stubs_deleted(&mut self, deleted: u64) -> (task: Task)
        requires
            sound(old(self)@),
            old(self)@.phase is DeletingStubs,
            old(self)@.stats.stub_rows_subsumed + deleted <= u64::MAX,
        ensures
            sound(final(self)@),
            (final(self)@, task@) == after_stubs(old(self)@, deleted),
    {
        self.stats.stub_rows_subsumed = self.stats.stub_rows_subsumed + deleted;
        match self.phase {
            Phase::DeletingStubs(stub, nodes) => {
                self.phase = Phase::DroppingStubs(stub, nodes);
            },
            _ => {},
        }
        Task::DropStubs(keys_above(&self.key()))
    }

    /// Takes in that the stubs above the subtree at hand are deleted.
    pub fn stubs_dropped(&mut self) -> (task: Task)
        requires
            sound(old(self)@),
            old(self)@.phase is DroppingStubs,
        ensures
            sound(final(self)@),
            (final(self)@, task@) == after_drop(old(self)@),
    {
        let key: RowKey = self.key();
        match self.phase {
            Phase::DroppingStubs(stub, nodes) => {
                self.phase = Phase::Putting(nodes);
                Task::PutStub(key, stub)
            },
            _ => {
                assert(false);
                Task::Finish
            },
        }
    }

    /// Takes in that the stub is put.
    pub fn stub_put(&mut self) -> (task: Task)
        requires
            sound(old(self)@),
            old(self)@.phase is Putting,
        ensures
            sound(final(self)@),
            (final(self)@, task@) == after_put(old(self)@),
    {
        assert(self@.subtrees[self.at as int] == self.subtrees@[self.at as int]@);
        match self.phase {
            Phase::Putting(nodes) => match self.subtrees[self.at].trie {
                TrieKind::Account => {
                    self.stats.account_nodes_written = self.stats.account_nodes_written + nodes;
                },
                TrieKind::Storage => {
                    self.stats.storage_nodes_written = self.stats.storage_nodes_written + nodes;
                },
            },
            _ => {},
        }
        self.stats.subtrees_converted = self.stats.subtrees_converted + 1;
        self.pass()
    }

    /// Takes in that the batch is committed.
    pub fn committed(&mut self) -> (task: Task)
        requires
            sound(old(self)@),
            old(self)@.phase is Committing,
        ensures
            sound(final(self)@),
            (final(self)@, task@) == after_commit(old(self)@),
    {
        let len: u64 = self.writer.valid_length();
        self.stats.bytes_written_cold = self.stats.bytes_written_cold + (len - self.batch_start);
        self.batch_start = len;
        self.in_batch = 0;
        self.decide()
    }
}

} // verus!
