//! What holds of the stubs and of the cold file through a whole conversion: stubs never nest, each
//! leads to its blob, a second run changes nothing, and a cut after a crash loses nothing.
use vstd::prelude::*;

use crate::be_bytes::be64;
use crate::cold_file::{root_in_file, root_of_blob};
use crate::cold_format::{header_of_bytes, ColdError, HEADER_LEN};
use crate::cold_stub::ColdStub;
use crate::convert::{
    after_append, after_capture, after_commit, after_drop, after_leaves, after_put, after_read,
    after_rows, after_stub, after_stubs, checkpoint_of, decided, lemma_checkpoint_round_trip,
    not_captured, root_row, sound, ConvertError, ConvertView, PhaseView, TaskView,
};
use crate::convert_laws::lemma_tail_does_not_matter;
use crate::identifier::SubtreeView;
use crate::primitives::B256;
use crate::row_range::{lemma_rows_above, row_covered, rows_above, RowView};
use crate::trie_node::NodeView;

verus! {

/// The stubs that there are, by their keys.
pub type Stubs = Seq<(RowView, ColdStub)>;

/// None of some stubs stands at or below another.
pub open spec fn stubs_apart(stubs: Stubs) -> bool {
    forall|i: int, j: int|
        0 <= i < stubs.len() && 0 <= j < stubs.len() && i != j ==> !row_covered(
            (#[trigger] stubs[i]).0,
            (#[trigger] stubs[j]).0.owner,
            stubs[j].0.path,
        )
}

/// One of some stubs stands at `row`.
pub open spec fn stub_at(stubs: Stubs, row: RowView) -> bool {
    exists|i: int| 0 <= i < stubs.len() && (#[trigger] stubs[i]).0 == row
}

/// One of some stubs stands above `row`.
pub open spec fn stub_above(stubs: Stubs, row: RowView) -> bool {
    exists|i: int|
        0 <= i < stubs.len() && rows_above(row).contains((#[trigger] stubs[i]).0)
}

/// One of some stubs stands at or below `row`.
pub open spec fn stub_below(stubs: Stubs, row: RowView) -> bool {
    exists|i: int|
        0 <= i < stubs.len() && row_covered((#[trigger] stubs[i]).0, row.owner, row.path)
}

/// The stubs once a task is done.
pub open spec fn stubs_after(stubs: Stubs, task: TaskView) -> Stubs {
    match task {
        TaskView::DeleteStubs(row) => stubs.filter(
            |s: (RowView, ColdStub)| !row_covered(s.0, row.owner, row.path),
        ),
        TaskView::DropStubs(keys) => stubs.filter(
            |s: (RowView, ColdStub)| !keys.contains(s.0),
        ),
        TaskView::PutStub(row, stub) => stubs.filter(
            |s: (RowView, ColdStub)| s.0 != row,
        ).push((row, stub)),
        _ => stubs,
    }
}

/// The bytes of the cold file once a task is done.
pub open spec fn file_after(file: Seq<u8>, task: TaskView) -> Seq<u8> {
    match task {
        TaskView::Append(bytes) => file + bytes,
        _ => file,
    }
}

/// A conversion, the task that it asks for, the stubs that there are, and the cold file.
pub struct World {
    pub convert: ConvertView,
    pub task: TaskView,
    pub stubs: Stubs,
    pub file: Seq<u8>,
}

/// The task of `a` is done and its result taken in. What the stub table and the cold file are asked
/// is answered by the stubs that there are and by the bytes of the file; any other answer may come
/// back.
pub open spec fn steps_to(a: World, b: World) -> bool {
    let c = a.convert;
    let next = (b.convert, b.task);
    &&& b.stubs == stubs_after(a.stubs, a.task)
    &&& b.file == file_after(a.file, a.task)
    &&& match c.phase {
        PhaseView::FindingStub => a.task matches TaskView::FindStub(row) && next == after_stub(
            c,
            stub_at(a.stubs, row),
        ),
        PhaseView::FindingLeaves => exists|keys: Seq<B256>|
            next == #[trigger] after_leaves(c, keys),
        PhaseView::Proving => next == not_captured(c) || exists|
            nodes: Seq<(Seq<u8>, NodeView)>,
        | #[trigger] after_capture(c, nodes) == Ok::<_, ConvertError>(next),
        PhaseView::Appending { .. } => next == after_append(c),
        PhaseView::Reading { stub, .. } => after_read(c, a.file.skip(stub.blob_offset as int))
            == Ok::<_, ConvertError>(next),
        PhaseView::DeletingRows { .. } => exists|n: u64|
            c.stats.hot_rows_deleted + n <= u64::MAX && next == #[trigger] after_rows(c, n),
        PhaseView::DeletingStubs { .. } => {
            let n = a.stubs.len() - b.stubs.len();
            &&& c.stats.stub_rows_subsumed + n <= u64::MAX
            &&& next == after_stubs(c, n as u64)
        },
        PhaseView::DroppingStubs { .. } => next == after_drop(c),
        PhaseView::Putting { .. } => next == after_put(c),
        PhaseView::Committing => next == after_commit(c),
        PhaseView::Finished => false,
        PhaseView::Failed => false,
    }
}

/// Each world of a run comes from the one before it by a step.
pub open spec fn is_run(run: Seq<World>) -> bool {
    forall|i: int| 0 < i < run.len() ==> steps_to(run[i - 1], #[trigger] run[i])
}

/// Each stub leads to a blob in the file that reads back to a hash.
pub open spec fn stubs_read(stubs: Stubs, file: Seq<u8>) -> bool {
    forall|i: int| 0 <= i < stubs.len() ==> root_in_file(file, (#[trigger] stubs[i]).1) is Ok
}

/// A conversion is about to take its first step, with stubs that stand apart and lead to blobs in
/// a file of the length that it knows.
pub open spec fn starts(start: ConvertView, w: World) -> bool {
    &&& sound(start)
    &&& start.phase is Finished
    &&& start.at == 0
    &&& start.stats.stub_rows_subsumed == 0
    &&& start.stats.subtrees_skipped_root_hash_mismatch == 0
    &&& (w.convert, w.task) == decided(start)
    &&& stubs_apart(w.stubs)
    &&& w.file.len() == start.file_len
    &&& stubs_read(w.stubs, w.file)
}

/// The root of the subtree at hand.
pub open spec fn root_at_hand(c: ConvertView) -> RowView {
    root_row(c.subtrees[c.at as int])
}

/// A stub leads to a blob with the hash of the subtree at hand.
pub open spec fn leads_home(c: ConvertView, stub: ColdStub, file: Seq<u8>) -> bool {
    root_in_file(file, stub) == Ok::<_, ColdError>(c.subtrees[c.at as int].hash)
}

/// What every world of a run keeps to.
pub open spec fn in_order(w: World) -> bool {
    let c = w.convert;
    let row = root_at_hand(c);
    &&& sound(c)
    &&& stubs_apart(w.stubs)
    &&& stubs_read(w.stubs, w.file)
    &&& w.file.len() == c.file_len
    &&& match c.phase {
        PhaseView::FindingStub => w.task == TaskView::FindStub(row),
        PhaseView::FindingLeaves => w.task == TaskView::FindLeaves(row),
        PhaseView::Proving => w.task matches TaskView::Prove(owner, _) && owner == row.owner,
        PhaseView::Appending { bytes, stub, .. } => w.task == TaskView::Append(bytes)
            && stub.blob_offset == c.file_len,
        PhaseView::Reading { stub, .. } => w.task is ReadBlob && stub.blob_offset <= c.file_len,
        PhaseView::DeletingRows { stub, .. } => w.task == TaskView::DeleteRows(row) && leads_home(
            c,
            stub,
            w.file,
        ),
        PhaseView::DeletingStubs { stub, .. } => w.task == TaskView::DeleteStubs(row)
            && leads_home(c, stub, w.file),
        PhaseView::DroppingStubs { stub, .. } => {
            &&& w.task == TaskView::DropStubs(rows_above(row))
            &&& leads_home(c, stub, w.file)
            &&& !stub_below(w.stubs, row)
        },
        PhaseView::Putting { .. } => {
            &&& w.task matches TaskView::PutStub(put, stub) && put == row && leads_home(
                c,
                stub,
                w.file,
            )
            &&& !stub_below(w.stubs, row)
            &&& !stub_above(w.stubs, row)
        },
        PhaseView::Committing => w.task == TaskView::Commit(be64(c.file_len as u64)),
        PhaseView::Finished => w.task is Finish,
        PhaseView::Failed => false,
    }
}

/// What a filter keeps was there, and passes the filter; what was there and passes it is kept.
proof fn lemma_kept_members(stubs: Stubs, keep: spec_fn((RowView, ColdStub)) -> bool)
    ensures
        forall|i: int|
            0 <= i < stubs.filter(keep).len() ==> keep(#[trigger] stubs.filter(keep)[i])
                && stubs.contains(stubs.filter(keep)[i]),
        forall|k: int|
            0 <= k < stubs.len() && keep(#[trigger] stubs[k]) ==> stubs.filter(keep).contains(
                stubs[k],
            ),
        stubs.filter(keep).len() <= stubs.len(),
    decreases stubs.len(),
{
    reveal(Seq::filter);
    if stubs.len() > 0 {
        let init = stubs.drop_last();
        lemma_kept_members(init, keep);
        let before = init.filter(keep);
        let kept = stubs.filter(keep);
        assert forall|i: int| 0 <= i < kept.len() implies keep(#[trigger] kept[i])
            && stubs.contains(kept[i]) by {
            if i < before.len() {
                assert(kept[i] == before[i]);
                let k = choose|k: int| 0 <= k < init.len() && init[k] == before[i];
                assert(stubs[k] == kept[i]);
            } else {
                assert(stubs[stubs.len() - 1] == kept[i]);
            }
        }
        assert forall|k: int|
            0 <= k < stubs.len() && keep(#[trigger] stubs[k]) implies kept.contains(stubs[k]) by {
            if k < init.len() {
                assert(init[k] == stubs[k]);
                let i = choose|i: int| 0 <= i < before.len() && before[i] == stubs[k];
                assert(kept[i] == stubs[k]);
            } else {
                assert(kept[kept.len() - 1] == stubs[k]);
            }
        }
    }
}

/// Some of the stubs that stand apart stand apart, and some of those that read back read back.
proof fn lemma_kept_in_order(
    stubs: Stubs,
    keep: spec_fn((RowView, ColdStub)) -> bool,
    file: Seq<u8>,
)
    requires
        stubs_apart(stubs),
        stubs_read(stubs, file),
    ensures
        stubs_apart(stubs.filter(keep)),
        stubs_read(stubs.filter(keep), file),
    decreases stubs.len(),
{
    reveal(Seq::filter);
    if stubs.len() > 0 {
        let init = stubs.drop_last();
        assert forall|i: int, j: int|
            0 <= i < init.len() && 0 <= j < init.len() && i != j implies !row_covered(
            (#[trigger] init[i]).0,
            (#[trigger] init[j]).0.owner,
            init[j].0.path,
        ) by {
            assert(init[i] == stubs[i] && init[j] == stubs[j]);
        }
        assert forall|i: int| 0 <= i < init.len() implies root_in_file(
            file,
            (#[trigger] init[i]).1,
        ) is Ok by {
            assert(init[i] == stubs[i]);
        }
        lemma_kept_in_order(init, keep, file);
        lemma_kept_members(init, keep);
        let before = init.filter(keep);
        let kept = stubs.filter(keep);
        let last = stubs.len() - 1;
        if keep(stubs.last()) {
            assert(kept == before.push(stubs.last()));
            assert(stubs[last] == stubs.last());
            assert forall|i: int, j: int|
                0 <= i < kept.len() && 0 <= j < kept.len() && i != j implies !row_covered(
                (#[trigger] kept[i]).0,
                (#[trigger] kept[j]).0.owner,
                kept[j].0.path,
            ) by {
                if i < before.len() && j < before.len() {
                    assert(kept[i] == before[i] && kept[j] == before[j]);
                } else if i < before.len() {
                    assert(kept[i] == before[i]);
                    let k = choose|k: int| 0 <= k < init.len() && init[k] == before[i];
                    assert(stubs[k] == kept[i] && stubs[last] == kept[j]);
                } else {
                    assert(kept[j] == before[j]);
                    let k = choose|k: int| 0 <= k < init.len() && init[k] == before[j];
                    assert(stubs[last] == kept[i] && stubs[k] == kept[j]);
                }
            }
            assert forall|i: int| 0 <= i < kept.len() implies root_in_file(
                file,
                (#[trigger] kept[i]).1,
            ) is Ok by {
                if i < before.len() {
                    assert(kept[i] == before[i]);
                } else {
                    assert(kept[i] == stubs[last]);
                }
            }
        }
    }
}

/// A stub that has none at, above or below it can be put, and the stubs stand apart as before.
proof fn lemma_put_in_order(stubs: Stubs, row: RowView, stub: ColdStub, file: Seq<u8>)
    requires
        stubs_apart(stubs),
        stubs_read(stubs, file),
        !stub_above(stubs, row),
        !stub_below(stubs, row),
        root_in_file(file, stub) is Ok,
    ensures
        stubs_apart(stubs_after(stubs, TaskView::PutStub(row, stub))),
        stubs_read(stubs_after(stubs, TaskView::PutStub(row, stub)), file),
{
    let keep = |s: (RowView, ColdStub)| s.0 != row;
    let kept = stubs.filter(keep);
    lemma_kept_in_order(stubs, keep, file);
    lemma_kept_members(stubs, keep);
    let all = kept.push((row, stub));
    assert forall|i: int, j: int|
        0 <= i < all.len() && 0 <= j < all.len() && i != j implies !row_covered(
        (#[trigger] all[i]).0,
        (#[trigger] all[j]).0.owner,
        all[j].0.path,
    ) by {
        if i < kept.len() && j < kept.len() {
            assert(all[i] == kept[i] && all[j] == kept[j]);
        } else if i < kept.len() {
            assert(all[i] == kept[i] && keep(kept[i]));
            let k = choose|k: int| 0 <= k < stubs.len() && stubs[k] == kept[i];
            assert(!row_covered(stubs[k].0, row.owner, row.path));
        } else {
            assert(all[j] == kept[j] && keep(kept[j]));
            let k = choose|k: int| 0 <= k < stubs.len() && stubs[k] == kept[j];
            assert(!rows_above(row).contains(stubs[k].0));
            lemma_rows_above(row, stubs[k].0);
        }
    }
    assert forall|i: int| 0 <= i < all.len() implies root_in_file(
        file,
        (#[trigger] all[i]).1,
    ) is Ok by {
        if i < kept.len() {
            assert(all[i] == kept[i]);
        }
    }
}

/// Once the stubs at or below a row are deleted, none is there.
proof fn lemma_deleted(stubs: Stubs, row: RowView)
    ensures
        !stub_below(stubs_after(stubs, TaskView::DeleteStubs(row)), row),
{
    let keep = |s: (RowView, ColdStub)| !row_covered(s.0, row.owner, row.path);
    let kept = stubs.filter(keep);
    lemma_kept_members(stubs, keep);
    if stub_below(kept, row) {
        let i = choose|i: int|
            0 <= i < kept.len() && row_covered((#[trigger] kept[i]).0, row.owner, row.path);
        assert(keep(kept[i]));
    }
}

/// Once the stubs above a row are deleted, none is there, and none is below that was not.
proof fn lemma_dropped(stubs: Stubs, row: RowView)
    requires
        !stub_below(stubs, row),
    ensures
        !stub_below(stubs_after(stubs, TaskView::DropStubs(rows_above(row))), row),
        !stub_above(stubs_after(stubs, TaskView::DropStubs(rows_above(row))), row),
{
    let keys = rows_above(row);
    let keep = |s: (RowView, ColdStub)| !keys.contains(s.0);
    let kept = stubs.filter(keep);
    lemma_kept_members(stubs, keep);
    if stub_above(kept, row) {
        let i = choose|i: int| 0 <= i < kept.len() && keys.contains((#[trigger] kept[i]).0);
        assert(keep(kept[i]));
    }
    if stub_below(kept, row) {
        let i = choose|i: int|
            0 <= i < kept.len() && row_covered((#[trigger] kept[i]).0, row.owner, row.path);
        assert(keep(kept[i]));
        let k = choose|k: int| 0 <= k < stubs.len() && stubs[k] == kept[i];
        assert(row_covered(stubs[k].0, row.owner, row.path));
    }
}

/// What is appended to a file changes nothing of a blob that reads back.
pub proof fn lemma_append_keeps_blob(file: Seq<u8>, more: Seq<u8>, stub: ColdStub)
    requires
        root_in_file(file, stub) is Ok,
    ensures
        root_in_file(file + more, stub) == root_in_file(file, stub),
        header_of_bytes(file.skip(stub.blob_offset as int)) matches Ok(header) && stub.blob_offset
            + HEADER_LEN + header.root_offset + header.root_size <= file.len(),
{
    let n = file.len() as int;
    let at = stub.blob_offset as int;
    let long = (file + more).skip(at);
    let short = file.skip(at);
    assert((file + more).take(n) =~= file);
    assert forall|i: int| 0 <= i < 16 implies short[i] == long[i] by {}
    assert(crate::be_bytes::from_be16(short) == crate::be_bytes::from_be16(long));
    assert(crate::be_bytes::from_be32(short.skip(8)) == crate::be_bytes::from_be32(long.skip(8)));
    assert(crate::be_bytes::from_be32(short.skip(12)) == crate::be_bytes::from_be32(
        long.skip(12),
    ));
    assert(header_of_bytes(short) == header_of_bytes(long));
    lemma_tail_does_not_matter(file + more, stub, n);
}

/// What is appended to a file changes nothing of its blobs.
proof fn lemma_append_keeps_blobs(stubs: Stubs, file: Seq<u8>, more: Seq<u8>)
    requires
        stubs_read(stubs, file),
    ensures
        stubs_read(stubs, file + more),
{
    assert forall|i: int| 0 <= i < stubs.len() implies root_in_file(
        file + more,
        (#[trigger] stubs[i]).1,
    ) is Ok by {
        lemma_append_keeps_blob(file, more, stubs[i].1);
    }
}

/// A step keeps everything in order, and counts the stubs that it deletes below the new one.
proof fn lemma_step_in_order(a: World, b: World)
    requires
        in_order(a),
        steps_to(a, b),
    ensures
        in_order(b),
        b.convert.stats.stub_rows_subsumed == a.convert.stats.stub_rows_subsumed + (if a.task
            is DeleteStubs {
            a.stubs.len() - b.stubs.len()
        } else {
            0
        }),
        b.convert.subtrees == a.convert.subtrees,
{
    let c = a.convert;
    let row = root_at_hand(c);
    match c.phase {
        PhaseView::Appending { bytes, .. } => {
            lemma_append_keeps_blobs(a.stubs, a.file, bytes);
        },
        PhaseView::Reading { stub, .. } => {
            assert(root_in_file(a.file, stub) == root_of_blob(
                a.file.skip(stub.blob_offset as int),
            ));
        },
        PhaseView::DeletingStubs { .. } => {
            let keep = |s: (RowView, ColdStub)| !row_covered(s.0, row.owner, row.path);
            lemma_kept_in_order(a.stubs, keep, a.file);
            lemma_kept_members(a.stubs, keep);
            lemma_deleted(a.stubs, row);
        },
        PhaseView::DroppingStubs { .. } => {
            let keys = rows_above(row);
            let keep = |s: (RowView, ColdStub)| !keys.contains(s.0);
            lemma_kept_in_order(a.stubs, keep, a.file);
            lemma_dropped(a.stubs, row);
        },
        PhaseView::Putting { .. } => {
            if let TaskView::PutStub(_, stub) = a.task {
                lemma_put_in_order(a.stubs, row, stub, a.file);
            }
        },
        _ => {},
    }
}

/// How many stubs were deleted below new ones in the first `n` steps of a run.
pub open spec fn stubs_deleted_in(run: Seq<World>, n: int) -> int
    decreases n,
{
    if n <= 0 {
        0
    } else {
        stubs_deleted_in(run, n - 1) + (if run[n - 1].task is DeleteStubs {
            run[n - 1].stubs.len() - run[n].stubs.len()
        } else {
            0
        })
    }
}

/// Every world of a run is in order.
pub proof fn lemma_run_in_order(start: ConvertView, run: Seq<World>, n: int)
    requires
        0 <= n < run.len(),
        starts(start, run[0]),
        is_run(run),
    ensures
        in_order(run[n]),
        run[n].convert.stats.stub_rows_subsumed == stubs_deleted_in(run, n),
        run[n].convert.subtrees == start.subtrees,
    decreases n,
{
    if n > 0 {
        lemma_run_in_order(start, run, n - 1);
        assert(steps_to(run[n - 1], run[n]));
        lemma_step_in_order(run[n - 1], run[n]);
    }
}

/// Stubs never nest: where none stands at or below another when a conversion starts, none does
/// after any number of its steps, whatever is captured, read or deleted on the way. The stubs that
/// are deleted because a new one stands above them are counted.
pub proof fn lemma_stubs_never_nest(start: ConvertView, run: Seq<World>, n: int)
    requires
        0 <= n < run.len(),
        starts(start, run[0]),
        is_run(run),
    ensures
        stubs_apart(run[n].stubs),
        run[n].convert.stats.stub_rows_subsumed == stubs_deleted_in(run, n),
{
    lemma_run_in_order(start, run, n);
}

/// Each stub leads to its blob: where all do when a conversion starts, all do after any number of
/// its steps, and a stub that is put leads to the hash of its subtree.
pub proof fn lemma_stubs_always_read(start: ConvertView, run: Seq<World>, n: int)
    requires
        0 <= n < run.len(),
        starts(start, run[0]),
        is_run(run),
    ensures
        stubs_read(run[n].stubs, run[n].file),
        run[n].task matches TaskView::PutStub(row, stub) ==> {
            let c = run[n].convert;
            &&& row == root_row(c.subtrees[c.at as int])
            &&& root_in_file(run[n].file, stub) == Ok::<_, ColdError>(
                c.subtrees[c.at as int].hash,
            )
        },
{
    lemma_run_in_order(start, run, n);
}

/// A cut after a crash loses nothing: at a commit the recorded length is that of the file, and
/// every stub points at a blob that ends at or before it. Whatever was appended since, the file cut
/// to the recorded length gives for each of those stubs what it gave then.
pub proof fn lemma_cut_keeps_committed_blobs(
    start: ConvertView,
    run: Seq<World>,
    n: int,
    row: Seq<u8>,
    since: Seq<u8>,
    i: int,
)
    requires
        0 <= n < run.len(),
        starts(start, run[0]),
        is_run(run),
        run[n].task == TaskView::Commit(row),
        0 <= i < run[n].stubs.len(),
    ensures
        checkpoint_of(Some(row)) matches Ok(Some(len)) && {
            let file = run[n].file;
            let stub = run[n].stubs[i].1;
            &&& len == file.len()
            &&& header_of_bytes(file.skip(stub.blob_offset as int)) matches Ok(header)
                && stub.blob_offset + HEADER_LEN + header.root_offset + header.root_size <= len
            &&& (file + since).take(len as int) == file
            &&& root_in_file((file + since).take(len as int), stub) is Ok
            &&& root_in_file((file + since).take(len as int), stub) == root_in_file(file, stub)
        },
{
    lemma_run_in_order(start, run, n);
    let w = run[n];
    lemma_checkpoint_round_trip(w.convert.file_len as u64);
    assert((w.file + since).take(w.file.len() as int) =~= w.file);
    lemma_append_keeps_blob(w.file, since, w.stubs[i].1);
}

/// None of some subtrees has its root at or below that of another.
pub open spec fn roots_apart(subtrees: Seq<SubtreeView>) -> bool {
    forall|i: int, j: int|
        0 <= i < subtrees.len() && 0 <= j < subtrees.len() && i != j ==> !row_covered(
            root_row(#[trigger] subtrees[i]),
            root_row(#[trigger] subtrees[j]).owner,
            root_row(subtrees[j]).path,
        )
}

/// The subtrees that are done have stubs, as long as each could be captured.
spec fn done_have_stubs(w: World) -> bool {
    w.convert.stats.subtrees_skipped_root_hash_mismatch == 0 ==> forall|i: int|
        0 <= i < w.convert.at ==> stub_at(w.stubs, root_row(#[trigger] w.convert.subtrees[i]))
}

/// A stub that stands apart from the subtree at hand stays when a task is done.
proof fn lemma_stub_stays(w: World, row: RowView)
    requires
        in_order(w),
        stub_at(w.stubs, row),
        !row_covered(row, root_at_hand(w.convert).owner, root_at_hand(w.convert).path),
        !row_covered(root_at_hand(w.convert), row.owner, row.path),
    ensures
        stub_at(stubs_after(w.stubs, w.task), row),
{
    let hand = root_at_hand(w.convert);
    let keys = rows_above(hand);
    let k = choose|k: int| 0 <= k < w.stubs.len() && (#[trigger] w.stubs[k]).0 == row;
    lemma_rows_above(hand, row);
    let after = stubs_after(w.stubs, w.task);
    match w.task {
        TaskView::DeleteStubs(_) => {
            let keep = |s: (RowView, ColdStub)| !row_covered(s.0, hand.owner, hand.path);
            lemma_kept_members(w.stubs, keep);
            assert(keep(w.stubs[k]));
            let i = choose|i: int| 0 <= i < after.len() && after[i] == w.stubs[k];
            assert(after[i].0 == row);
        },
        TaskView::DropStubs(_) => {
            let keep = |s: (RowView, ColdStub)| !keys.contains(s.0);
            lemma_kept_members(w.stubs, keep);
            assert(keep(w.stubs[k]));
            let i = choose|i: int| 0 <= i < after.len() && after[i] == w.stubs[k];
            assert(after[i].0 == row);
        },
        TaskView::PutStub(_, stub) => {
            let keep = |s: (RowView, ColdStub)| s.0 != hand;
            let kept = w.stubs.filter(keep);
            lemma_kept_members(w.stubs, keep);
            assert(row_covered(hand, hand.owner, hand.path));
            assert(keep(w.stubs[k]));
            let i = choose|i: int| 0 <= i < kept.len() && kept[i] == w.stubs[k];
            assert(after[i] == kept[i]);
            assert(after[i].0 == row);
        },
        _ => {},
    }
}

/// A step leaves stubs for the subtrees that are done.
proof fn lemma_step_keeps_stubs(a: World, b: World)
    requires
        in_order(a),
        steps_to(a, b),
        roots_apart(a.convert.subtrees),
        !a.convert.dry_run,
        done_have_stubs(a),
    ensures
        done_have_stubs(b),
        !b.convert.dry_run,
{
    let c = a.convert;
    let d = b.convert;
    if d.stats.subtrees_skipped_root_hash_mismatch == 0 {
        assert(c.stats.subtrees_skipped_root_hash_mismatch == 0);
        assert forall|i: int| 0 <= i < d.at implies stub_at(
            b.stubs,
            root_row(#[trigger] d.subtrees[i]),
        ) by {
            let row = root_row(c.subtrees[i]);
            if i < c.at {
                assert(stub_at(a.stubs, row));
                if c.at < c.subtrees.len() {
                    assert(!row_covered(
                        root_row(c.subtrees[i]),
                        root_row(c.subtrees[c.at as int]).owner,
                        root_row(c.subtrees[c.at as int]).path,
                    ));
                    assert(!row_covered(
                        root_row(c.subtrees[c.at as int]),
                        root_row(c.subtrees[i]).owner,
                        root_row(c.subtrees[i]).path,
                    ));
                    lemma_stub_stays(a, row);
                }
            } else if c.phase is Putting {
                let last = b.stubs.len() - 1;
                assert(b.stubs[last].0 == row);
            }
        }
    }
}

/// The subtrees that are done have stubs after any number of steps.
proof fn lemma_run_keeps_stubs(start: ConvertView, run: Seq<World>, n: int)
    requires
        0 <= n < run.len(),
        starts(start, run[0]),
        is_run(run),
        roots_apart(start.subtrees),
        !start.dry_run,
    ensures
        done_have_stubs(run[n]),
        !run[n].convert.dry_run,
    decreases n,
{
    if n > 0 {
        lemma_run_keeps_stubs(start, run, n - 1);
        lemma_run_in_order(start, run, n - 1);
        assert(steps_to(run[n - 1], run[n]));
        lemma_step_keeps_stubs(run[n - 1], run[n]);
    }
}

/// A complete run in which each subtree could be captured leaves a stub at the root of each.
pub proof fn lemma_complete_run_leaves_stubs(start: ConvertView, run: Seq<World>)
    requires
        run.len() > 0,
        starts(start, run[0]),
        is_run(run),
        roots_apart(start.subtrees),
        !start.dry_run,
        run.last().convert.phase is Finished,
        run.last().convert.stats.subtrees_skipped_root_hash_mismatch == 0,
    ensures
        forall|i: int|
            0 <= i < start.subtrees.len() ==> stub_at(
                run.last().stubs,
                root_row(#[trigger] start.subtrees[i]),
            ),
{
    let n = run.len() - 1;
    lemma_run_in_order(start, run, n);
    lemma_run_keeps_stubs(start, run, n);
    lemma_finished_is_done(start, run, n);
}

/// A run that is finished has done all its subtrees.
pub proof fn lemma_finished_is_done(start: ConvertView, run: Seq<World>, n: int)
    requires
        0 <= n < run.len(),
        starts(start, run[0]),
        is_run(run),
        run[n].convert.phase is Finished,
    ensures
        run[n].convert.at == run[n].convert.subtrees.len(),
{
    if n > 0 {
        assert(steps_to(run[n - 1], run[n]));
        lemma_run_in_order(start, run, n - 1);
    }
}

/// A run over subtrees that all have stubs changes neither the stubs nor the file, and counts each
/// subtree that is done as converted already.
pub proof fn lemma_run_over_stubs_changes_nothing(start: ConvertView, run: Seq<World>, n: int)
    requires
        0 <= n < run.len(),
        starts(start, run[0]),
        is_run(run),
        start.stats.subtrees_converted == 0,
        start.stats.subtrees_skipped_already_converted == 0,
        start.stats.hot_rows_deleted == 0,
        forall|i: int|
            0 <= i < start.subtrees.len() ==> stub_at(
                run[0].stubs,
                root_row(#[trigger] start.subtrees[i]),
            ),
    ensures
        run[n].stubs == run[0].stubs,
        run[n].file == run[0].file,
        run[n].convert.stats.subtrees_converted == 0,
        run[n].convert.stats.subtrees_skipped_root_hash_mismatch == 0,
        run[n].convert.stats.hot_rows_deleted == 0,
        run[n].convert.stats.stub_rows_subsumed == 0,
        run[n].convert.stats.subtrees_skipped_already_converted == run[n].convert.at,
        run[n].convert.phase is FindingStub || run[n].convert.phase is Committing
            || run[n].convert.phase is Finished,
        run[n].convert.phase is Finished ==> run[n].convert.at == start.subtrees.len(),
    decreases n,
{
    lemma_run_in_order(start, run, n);
    if n > 0 {
        lemma_run_over_stubs_changes_nothing(start, run, n - 1);
        lemma_run_in_order(start, run, n - 1);
        let a = run[n - 1];
        assert(steps_to(a, run[n]));
        if a.convert.phase is FindingStub {
            assert(stub_at(run[0].stubs, root_row(start.subtrees[a.convert.at as int])));
        }
    }
}

/// A second run changes nothing: after a complete run in which each subtree could be captured, a
/// run over the same subtrees, with the stubs and the file that the first one left, leaves both as
/// they are and counts every subtree as converted already.
pub proof fn lemma_second_run_is_idle(
    start: ConvertView,
    run: Seq<World>,
    again: ConvertView,
    second: Seq<World>,
)
    requires
        run.len() > 0,
        starts(start, run[0]),
        is_run(run),
        roots_apart(start.subtrees),
        !start.dry_run,
        run.last().convert.phase is Finished,
        run.last().convert.stats.subtrees_skipped_root_hash_mismatch == 0,
        second.len() > 0,
        (again.subtrees, second[0].stubs, second[0].file) == (
            start.subtrees,
            run.last().stubs,
            run.last().file,
        ),
        starts(again, second[0]),
        is_run(second),
        again.stats.subtrees_converted == 0,
        again.stats.subtrees_skipped_already_converted == 0,
        again.stats.hot_rows_deleted == 0,
        second.last().convert.phase is Finished,
    ensures
        second.last().stubs == run.last().stubs,
        second.last().file == run.last().file,
        second.last().convert.stats.subtrees_converted == 0,
        second.last().convert.stats.subtrees_skipped_root_hash_mismatch == 0,
        second.last().convert.stats.subtrees_skipped_already_converted == start.subtrees.len(),
{
    lemma_complete_run_leaves_stubs(start, run);
    lemma_run_over_stubs_changes_nothing(again, second, second.len() - 1);
}

} // verus!
