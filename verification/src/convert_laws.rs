//! What a conversion keeps to from step to step.
use vstd::prelude::*;

use crate::be_bytes::{from_be16, from_be32};
use crate::capture::root_check;
use crate::cold_file::{blob_of, laid_out, root_in_file, root_of_blob};
use crate::cold_format::{header_of_bytes, ColdError, HEADER_LEN};
use crate::cold_laws::{lemma_blob_round_trip, linked};
use crate::cold_stub::ColdStub;
use crate::convert::{
    after_append, after_capture, after_drop, after_leaves, after_put, after_read, after_rows,
    after_stub, after_stubs, decided, in_subtree, not_captured, outcomes, root_row, sound,
    ConvertView, Stats, TaskView,
};
use crate::primitives::B256;
use crate::row_range::rows_above;
use crate::trie_node::NodeView;

verus! {

/// A subtree whose captured nodes are consistent is converted: its blob is appended at the end of
/// the file, reads back to the subtree's hash whatever follows it, and only then the rows below it
/// and the stubs in its way are deleted and the stub that points at the blob is put.
pub proof fn lemma_subtree_is_converted(
    c: ConvertView,
    nodes: Seq<(Seq<u8>, NodeView)>,
    before: Seq<u8>,
    after: Seq<u8>,
    rows: u64,
    stubs: u64,
)
    requires
        sound(c),
        c.phase is Proving,
        !c.dry_run,
        nodes.len() > 0,
        linked(nodes),
        root_check(nodes, c.subtrees[c.at as int].hash) is Ok,
        laid_out(nodes) matches Ok((body, _)) ==> body.len() <= u32::MAX,
        blob_of(nodes, c.file_len as u64) matches Ok((bytes, _)) ==> c.file_len + bytes.len()
            <= u64::MAX,
        c.stats.account_nodes_written + nodes.len() <= u64::MAX,
        c.stats.storage_nodes_written + nodes.len() <= u64::MAX,
        before.len() == c.file_len,
    ensures
        blob_of(nodes, c.file_len as u64) matches Ok((bytes, stub)) && {
            let row = root_row(c.subtrees[c.at as int]);
            let hash = c.subtrees[c.at as int].hash;
            &&& stub.blob_offset == c.file_len
            &&& root_in_file(before + bytes + after, stub) == Ok::<_, ColdError>(hash)
            &&& after_capture(c, nodes) matches Ok((c1, t1)) && {
                let (c2, t2) = after_append(c1);
                &&& t1 == TaskView::Append(bytes)
                &&& t2 == TaskView::ReadBlob(stub)
                &&& c2.file_len == c.file_len + bytes.len()
                &&& after_read(c2, bytes + after) matches Ok((c3, t3)) && {
                    let (c4, t4) = after_rows(c3, rows);
                    let (c5, t5) = after_stubs(c4, stubs);
                    let (c6, t6) = after_drop(c5);
                    let (c7, _) = after_put(c6);
                    &&& t3 == TaskView::DeleteRows(row)
                    &&& t4 == TaskView::DeleteStubs(row)
                    &&& t5 == TaskView::DropStubs(rows_above(row))
                    &&& t6 == TaskView::PutStub(row, stub)
                    &&& c7.at == c.at + 1
                    &&& c7.stats.subtrees_converted == c.stats.subtrees_converted + 1
                    &&& c.subtrees[c.at as int].trie is Account ==> {
                        &&& c7.stats.account_nodes_written == c.stats.account_nodes_written
                            + nodes.len()
                        &&& c7.stats.storage_nodes_written == c.stats.storage_nodes_written
                    }
                    &&& c.subtrees[c.at as int].trie is Storage ==> {
                        &&& c7.stats.storage_nodes_written == c.stats.storage_nodes_written
                            + nodes.len()
                        &&& c7.stats.account_nodes_written == c.stats.account_nodes_written
                    }
                    &&& c.stats.hot_rows_deleted + rows <= u64::MAX ==> c7.stats.hot_rows_deleted
                        == c.stats.hot_rows_deleted + rows
                    &&& c.stats.stub_rows_subsumed + stubs <= u64::MAX
                        ==> c7.stats.stub_rows_subsumed == c.stats.stub_rows_subsumed + stubs
                    &&& c7.stats.subtrees_identified == c.stats.subtrees_identified
                    &&& c7.stats.subtrees_skipped_already_converted
                        == c.stats.subtrees_skipped_already_converted
                    &&& c7.stats.subtrees_skipped_root_hash_mismatch
                        == c.stats.subtrees_skipped_root_hash_mismatch
                    &&& c7.stats.bytes_written_cold == c.stats.bytes_written_cold
                }
            }
        },
{
    let hash = c.subtrees[c.at as int].hash;
    lemma_blob_round_trip(nodes, hash, before, after);
    let (bytes, stub) = blob_of(nodes, c.file_len as u64)->Ok_0;
    assert((before + bytes + after).skip(before.len() as int) =~= bytes + after);
}

/// The rows of a subtree are touched only where its blob, read back, has the subtree's hash.
pub proof fn lemma_rows_wait_for_blob(c: ConvertView, bytes: Seq<u8>)
    requires
        sound(c),
        c.phase is Reading,
    ensures
        after_read(c, bytes) is Ok <==> root_of_blob(bytes) == Ok::<_, ColdError>(
            c.subtrees[c.at as int].hash,
        ),
{
}

/// The task reads only.
pub open spec fn reads_only(task: TaskView) -> bool {
    task is FindStub || task is FindLeaves || task is Prove || task is Finish
}

/// A dry run writes nothing: none of its steps asks for a write, and the file keeps its length.
pub proof fn lemma_dry_run_writes_nothing(
    c: ConvertView,
    found: bool,
    keys: Seq<B256>,
    nodes: Seq<(Seq<u8>, NodeView)>,
)
    requires
        sound(c),
        c.dry_run,
    ensures
        ({
            let (c1, t1) = after_stub(c, found);
            let (c2, t2) = after_leaves(c, keys);
            let (c3, t3) = not_captured(c);
            &&& reads_only(t1) && c1.dry_run && c1.file_len == c.file_len
            &&& reads_only(t2) && c2.dry_run && c2.file_len == c.file_len
            &&& reads_only(t3) && c3.dry_run && c3.file_len == c.file_len
            &&& after_capture(c, nodes) matches Ok((c4, t4)) && reads_only(t4) && c4.dry_run
                && c4.file_len == c.file_len
        }),
{
}

/// Cutting off or appending what lies past a blob leaves what is read of the blob as it is: a blob
/// that ends before `len` reads the same from the file and from its first `len` bytes.
pub proof fn lemma_tail_does_not_matter(file: Seq<u8>, stub: ColdStub, len: int)
    requires
        stub.blob_offset + HEADER_LEN <= len <= file.len(),
        header_of_bytes(file.skip(stub.blob_offset as int)) matches Ok(header)
            ==> stub.blob_offset + HEADER_LEN + header.root_offset + header.root_size <= len,
    ensures
        root_in_file(file.take(len), stub) == root_in_file(file, stub),
{
    let at = stub.blob_offset as int;
    let long = file.skip(at);
    let short = file.take(len).skip(at);
    assert(short =~= long.take(len - at));
    assert(short[0] == long[0] && short[1] == long[1]);
    assert forall|i: int| 0 <= i < 16 implies short[i] == long[i] by {}
    assert(from_be16(short) == from_be16(long));
    assert(from_be32(short.skip(8)) == from_be32(long.skip(8)));
    assert(from_be32(short.skip(12)) == from_be32(long.skip(12)));
    assert(header_of_bytes(short) == header_of_bytes(long));
    if let Ok(header) = header_of_bytes(long) {
        let end = HEADER_LEN + header.root_offset + header.root_size;
        assert(short.subrange(HEADER_LEN as int, end) =~= long.subrange(HEADER_LEN as int, end));
    }
}

/// At the end of a run that is no dry run, each identified subtree was converted, or passed over
/// because it had been, or passed over because it could not be captured.
pub proof fn lemma_outcomes_add_up(c: ConvertView)
    requires
        sound(c),
        !c.dry_run,
        decided(c).1 is Finish,
    ensures
        outcomes(c.stats) == c.stats.subtrees_identified,
        decided(c).0.stats == c.stats,
{
}

/// A subtree that is passed over is counted once, under the reason, and nothing else is: because
/// its root has a stub, because it has no leaves, or because no proof could be captured.
pub proof fn lemma_skips_are_counted(c: ConvertView, keys: Seq<B256>)
    requires
        sound(c),
        in_subtree(c.phase),
    ensures
        ({
            let (skipped, _) = after_stub(c, true);
            let (missed, task) = not_captured(c);
            &&& skipped.at == c.at + 1
            &&& skipped.stats == (Stats {
                subtrees_skipped_already_converted: (c.stats.subtrees_skipped_already_converted
                    + 1) as u64,
                ..c.stats
            })
            &&& c.stats.subtrees_skipped_already_converted < u64::MAX
            &&& missed.at == c.at + 1
            &&& missed.stats == (Stats {
                subtrees_skipped_root_hash_mismatch: (c.stats.subtrees_skipped_root_hash_mismatch
                    + 1) as u64,
                ..c.stats
            })
            &&& c.stats.subtrees_skipped_root_hash_mismatch < u64::MAX
            &&& after_stub(c, false).0.stats == c.stats
            &&& keys.len() == 0 ==> after_leaves(c, keys) == (missed, task)
            &&& keys.len() > 0 ==> after_leaves(c, keys).0.stats == c.stats
        }),
{
}

} // verus!
