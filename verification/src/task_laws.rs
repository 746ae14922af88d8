//! What the tasks of a conversion ask for, in terms of the subtree at hand.
use vstd::prelude::*;

use crate::be_bytes::be64;
use crate::capture::{all_decode, captured, nodes_under, root_check};
use crate::convert::{
    after_capture, after_leaves, in_subtree, not_captured, sound, ConvertError, ConvertView,
    PhaseView, TaskView,
};
use crate::identifier::SubtreeView;
use crate::key_order::keys_under;
use crate::nibbles::{path_of_hex, Nibbles};
use crate::primitives::B256;
use crate::row_range::RowView;
use crate::stub_laws::{
    is_run, lemma_complete_run_leaves_stubs, lemma_finished_is_done, lemma_run_in_order,
    roots_apart, starts, steps_to, stub_at, World,
};
use crate::trie_node::NodeView;

verus! {

/// The owner of the trie that a subtree is of: none for the account trie.
pub open spec fn trie_owner(subtree: SubtreeView) -> Seq<u8> {
    if subtree.trie is Account {
        Seq::empty()
    } else {
        subtree.owner
    }
}

/// Every task is about the subtree at hand: its trie by its owner, its root by the path that its
/// text spells, the leaves that were found, and the stub of the blob that was appended.
pub proof fn lemma_tasks_are_about_the_subtree(start: ConvertView, run: Seq<World>, n: int)
    requires
        0 <= n < run.len(),
        starts(start, run[0]),
        is_run(run),
        in_subtree(run[n].convert.phase),
    ensures
        ({
            let c = run[n].convert;
            let subtree = c.subtrees[c.at as int];
            let row = RowView { owner: trie_owner(subtree), path: path_of_hex(subtree.path) };
            match run[n].task {
                TaskView::FindStub(key) => key == row,
                TaskView::FindLeaves(key) => key == row,
                TaskView::Prove(owner, _) => owner == row.owner,
                TaskView::DeleteRows(key) => key == row,
                TaskView::DeleteStubs(key) => key == row,
                TaskView::DropStubs(keys) => keys.len() == row.path.len() && forall|i: int|
                    0 <= i < keys.len() ==> (#[trigger] keys[i]).owner == row.owner && keys[i].path
                        == row.path.take(i),
                TaskView::PutStub(key, _) => key == row,
                TaskView::Append(_) => true,
                TaskView::ReadBlob(_) => true,
                TaskView::Commit(_) => false,
                TaskView::Finish => false,
            }
        }),
{
    lemma_run_in_order(start, run, n);
}

/// The proof that is asked for is one for exactly the leaves that were found.
pub proof fn lemma_proof_targets(c: ConvertView, keys: Seq<B256>)
    requires
        sound(c),
        c.phase is FindingLeaves,
        keys.len() > 0,
    ensures
        after_leaves(c, keys).1 == TaskView::Prove(
            trie_owner(c.subtrees[c.at as int]),
            keys,
        ),
{
}

/// The tables and the tries by owner: the leaves of each, and the nodes of a proof for some leaves.
pub struct Tries {
    pub leaves: spec_fn(Seq<u8>) -> Seq<B256>,
    pub proofs: spec_fn(Seq<u8>, Seq<B256>) -> Seq<(Nibbles, Vec<u8>)>,
}

/// A conversion takes in the nodes of a proof: it goes on with the captured nodes where their root
/// has the subtree's hash, and passes the subtree over otherwise.
pub open spec fn proof_taken(
    c: ConvertView,
    proof_nodes: Seq<(Nibbles, Vec<u8>)>,
    next: (ConvertView, TaskView),
) -> bool {
    let subtree = c.subtrees[c.at as int];
    let path = path_of_hex(subtree.path);
    let kept = nodes_under(proof_nodes, path);
    if !all_decode(kept) || kept.len() == 0 {
        next == not_captured(c)
    } else {
        exists|nodes: Seq<(Seq<u8>, NodeView)>| #[trigger]
            captured(nodes, proof_nodes, path) && if root_check(nodes, subtree.hash) is Err {
                next == not_captured(c)
            } else {
                after_capture(c, nodes) == Ok::<_, ConvertError>(next)
            }
    }
}

/// The tables and tries answer what a step asks of them: for leaves, and for a proof, of the owner
/// that the task names.
pub open spec fn answered(a: World, b: World, tries: Tries) -> bool {
    let next = (b.convert, b.task);
    match a.convert.phase {
        PhaseView::FindingLeaves => a.task matches TaskView::FindLeaves(row) && next
            == after_leaves(a.convert, keys_under((tries.leaves)(row.owner), row.path)),
        PhaseView::Proving => a.task matches TaskView::Prove(owner, targets) && proof_taken(
            a.convert,
            (tries.proofs)(owner, targets),
            next,
        ),
        _ => true,
    }
}

/// The subtree is in its trie: there are leaves under its path, and a proof for them holds its
/// nodes with the root that it was found with.
pub open spec fn in_its_trie(subtree: SubtreeView, tries: Tries) -> bool {
    let owner = trie_owner(subtree);
    let path = path_of_hex(subtree.path);
    let keys = keys_under((tries.leaves)(owner), path);
    let proof_nodes = (tries.proofs)(owner, keys);
    let kept = nodes_under(proof_nodes, path);
    &&& keys.len() > 0
    &&& all_decode(kept)
    &&& kept.len() > 0
    &&& forall|nodes: Seq<(Seq<u8>, NodeView)>| #[trigger]
        captured(nodes, proof_nodes, path) ==> root_check(nodes, subtree.hash) is Ok
}

/// What a run over subtrees that are in their tries keeps to.
spec fn on_track(w: World, tries: Tries) -> bool {
    let c = w.convert;
    let subtree = c.subtrees[c.at as int];
    let path = path_of_hex(subtree.path);
    let owner = trie_owner(subtree);
    &&& c.stats.subtrees_skipped_root_hash_mismatch == 0
    &&& c.phase is Proving ==> w.task == TaskView::Prove(
        owner,
        keys_under((tries.leaves)(owner), path),
    )
}

/// No subtree that is in its trie is passed over for want of a capture.
proof fn lemma_run_on_track(start: ConvertView, run: Seq<World>, tries: Tries, n: int)
    requires
        0 <= n < run.len(),
        starts(start, run[0]),
        is_run(run),
        forall|i: int| 0 < i < run.len() ==> answered(run[i - 1], #[trigger] run[i], tries),
        forall|i: int|
            0 <= i < start.subtrees.len() ==> in_its_trie(#[trigger] start.subtrees[i], tries),
    ensures
        on_track(run[n], tries),
    decreases n,
{
    lemma_run_in_order(start, run, n);
    if n > 0 {
        lemma_run_on_track(start, run, tries, n - 1);
        lemma_run_in_order(start, run, n - 1);
        let a = run[n - 1];
        let b = run[n];
        assert(steps_to(a, b));
        assert(answered(a, b, tries));
        let c = a.convert;
        if in_subtree(c.phase) {
            let subtree = start.subtrees[c.at as int];
            assert(in_its_trie(subtree, tries));
        }
    }
}

/// Every subtree that is in its trie gets its stub, of whichever kind it is: where the tables and
/// tries answer what a conversion asks of them, it comes to its end without passing one over, and
/// leaves a stub at the root of each, under the owner of its trie.
pub proof fn lemma_subtrees_in_their_tries_get_stubs(
    start: ConvertView,
    run: Seq<World>,
    tries: Tries,
    i: int,
)
    requires
        run.len() > 0,
        starts(start, run[0]),
        is_run(run),
        forall|j: int| 0 < j < run.len() ==> answered(run[j - 1], #[trigger] run[j], tries),
        forall|j: int|
            0 <= j < start.subtrees.len() ==> in_its_trie(#[trigger] start.subtrees[j], tries),
        roots_apart(start.subtrees),
        !start.dry_run,
        run.last().convert.phase is Finished,
        0 <= i < start.subtrees.len(),
    ensures
        run.last().convert.stats.subtrees_skipped_root_hash_mismatch == 0,
        stub_at(
            run.last().stubs,
            (RowView {
                owner: trie_owner(start.subtrees[i]),
                path: path_of_hex(start.subtrees[i].path),
            }),
        ),
{
    lemma_run_on_track(start, run, tries, run.len() - 1);
    lemma_complete_run_leaves_stubs(start, run);
    assert(crate::convert::root_row(start.subtrees[i]) == (RowView {
        owner: trie_owner(start.subtrees[i]),
        path: path_of_hex(start.subtrees[i].path),
    }));
}

/// What a run keeps to in its batches and in what it counts of the file.
spec fn batches_kept(start: ConvertView, w: World, first: Seq<u8>) -> bool {
    let c = w.convert;
    &&& c.batch_size == start.batch_size
    &&& c.dry_run == start.dry_run
    &&& !c.dry_run ==> c.in_batch <= c.batch_size
    &&& !c.dry_run && in_subtree(c.phase) ==> c.in_batch < c.batch_size
    &&& c.phase is Committing ==> c.in_batch > 0 && !c.dry_run && (c.in_batch == c.batch_size
        || c.at == c.subtrees.len())
    &&& c.phase is Finished && !c.dry_run ==> c.in_batch == 0
    &&& c.stats.bytes_written_cold == c.batch_start - first.len()
    &&& c.batch_start < c.file_len ==> c.in_batch > 0 || c.phase is Reading || c.phase
        is DeletingRows || c.phase is DeletingStubs || c.phase is DroppingStubs || c.phase
        is Putting
}

/// A run keeps to its batches.
proof fn lemma_run_keeps_batches(start: ConvertView, run: Seq<World>, n: int)
    requires
        0 <= n < run.len(),
        starts(start, run[0]),
        is_run(run),
        start.in_batch == 0,
        start.batch_start == start.file_len,
        start.stats.bytes_written_cold == 0,
    ensures
        batches_kept(start, run[n], run[0].file),
    decreases n,
{
    lemma_run_in_order(start, run, n);
    if n > 0 {
        lemma_run_keeps_batches(start, run, n - 1);
        lemma_run_in_order(start, run, n - 1);
        assert(steps_to(run[n - 1], run[n]));
    }
}

/// Batches are committed when they are full or the subtrees are at an end, and never later: no
/// subtree is begun in a full batch. A commit records the length of the file, and at the end of a
/// run the bytes that were appended are those that were counted.
pub proof fn lemma_batches(start: ConvertView, run: Seq<World>, n: int)
    requires
        0 <= n < run.len(),
        starts(start, run[0]),
        is_run(run),
        !start.dry_run,
        start.in_batch == 0,
        start.batch_start == start.file_len,
        start.stats.bytes_written_cold == 0,
    ensures
        run[n].convert.in_batch <= start.batch_size,
        run[n].task is FindStub ==> run[n].convert.in_batch < start.batch_size,
        run[n].task matches TaskView::Commit(row) ==> {
            &&& row == be64(run[n].file.len() as u64)
            &&& run[n].convert.in_batch > 0
            &&& run[n].convert.in_batch == start.batch_size || run[n].convert.at
                == start.subtrees.len()
        },
        run[n].task is Finish ==> {
            &&& run[n].convert.in_batch == 0
            &&& run[n].convert.at == start.subtrees.len()
            &&& run[n].convert.stats.bytes_written_cold == run[n].file.len() - run[0].file.len()
        },
{
    lemma_run_in_order(start, run, n);
    lemma_run_keeps_batches(start, run, n);
    if run[n].task is Finish {
        assert(run[n].convert.phase is Finished);
        lemma_finished_is_done(start, run, n);
    }
}

/// Captured nodes are written wherever they can be: only a blob that cannot be made, or counters
/// that are full, stop a conversion, and a dry run goes on to the next subtree.
pub proof fn lemma_capture_outcomes(c: ConvertView, nodes: Seq<(Seq<u8>, NodeView)>)
    requires
        sound(c),
        c.phase is Proving,
    ensures
        c.dry_run ==> (after_capture(c, nodes) matches Ok((d, _)) && d.at == c.at + 1 && d.stats
            == c.stats),
        !c.dry_run ==> match crate::cold_file::blob_of(nodes, c.file_len as u64) {
            Err(e) => after_capture(c, nodes) == Err::<(ConvertView, TaskView), _>(
                ConvertError::Cold(e),
            ),
            Ok((bytes, stub)) => {
                let full = c.file_len + bytes.len() > u64::MAX || c.stats.account_nodes_written
                    + nodes.len() > u64::MAX || c.stats.storage_nodes_written + nodes.len()
                    > u64::MAX;
                &&& full ==> after_capture(c, nodes) == Err::<(ConvertView, TaskView), _>(
                    ConvertError::CounterFull,
                )
                &&& !full ==> (after_capture(c, nodes) matches Ok((d, task)) && task
                    == TaskView::Append(bytes) && d.phase == (PhaseView::Appending {
                    bytes,
                    stub,
                    nodes: nodes.len(),
                }) && d.stats == c.stats && d.at == c.at)
            },
        },
{
}

/// A conversion starts with all subtrees counted as identified and nothing else, at the length of
/// the file, with batches of the given size or of one.
pub proof fn lemma_conversion_starts(
    subtrees: Seq<SubtreeView>,
    batch_size: nat,
    dry_run: bool,
    file_len: nat,
)
    requires
        subtrees.len() <= u64::MAX,
    ensures
        ({
            let c = crate::convert::conversion_start(subtrees, batch_size, dry_run, file_len);
            &&& c.subtrees == subtrees
            &&& c.at == 0
            &&& c.in_batch == 0
            &&& batch_size > 0 ==> c.batch_size == batch_size
            &&& batch_size == 0 ==> c.batch_size == 1
            &&& c.dry_run == dry_run
            &&& c.file_len == file_len
            &&& c.batch_start == file_len
            &&& c.stats.subtrees_identified == subtrees.len()
            &&& c.stats.subtrees_converted == 0
            &&& c.stats.subtrees_skipped_already_converted == 0
            &&& c.stats.subtrees_skipped_root_hash_mismatch == 0
            &&& c.stats.account_nodes_written == 0
            &&& c.stats.storage_nodes_written == 0
            &&& c.stats.hot_rows_deleted == 0
            &&& c.stats.stub_rows_subsumed == 0
            &&& c.stats.bytes_written_cold == 0
        }),
{
}

/// Three counters hold the outcomes of the subtrees that are done.
pub proof fn lemma_outcome_counters(c: ConvertView)
    requires
        sound(c),
    ensures
        !c.dry_run ==> c.stats.subtrees_converted + c.stats.subtrees_skipped_already_converted
            + c.stats.subtrees_skipped_root_hash_mismatch == c.at,
        c.stats.subtrees_converted + c.stats.subtrees_skipped_already_converted
            + c.stats.subtrees_skipped_root_hash_mismatch <= c.at,
        c.stats.subtrees_identified == c.subtrees.len(),
{
}

} // verus!
