//! The paths of reported subtrees are texts of paths.
use vstd::prelude::*;

use crate::identifier::{
    all_folded, child_hash, closed, flushed, folded, new_frame, root_output, top_below, walk_output,
    BranchView, Closing, CtxView, FrameView, IdentifyConfig, SubtreeView,
};
use crate::identify::{clusters_of, identified, run_items, Leaves};
use crate::nibbles::{is_hex_path, is_path, lemma_hex_round_trip, MAX_NIBBLES};
use crate::period_index::PeriodIndexView;
use crate::primitives::B256;
use crate::walk::{
    account_ctx, branch_folded, clusters_folded, item_ctx, leaf_nibbles, leaf_prefixes,
    lemma_leaf_nibbles, skipped, storage_ctx, storage_output, ItemView, WalkView,
};

verus! {

/// The path of every one of some subtrees is the text of a path.
pub open spec fn paths_are_hex(subtrees: Seq<SubtreeView>) -> bool {
    forall|i: int| 0 <= i < subtrees.len() ==> is_hex_path((#[trigger] subtrees[i]).path)
}

/// A frame stands at a path, and so do its candidates.
spec fn tidy(frame: FrameView) -> bool {
    is_path(frame.path) && paths_are_hex(frame.candidates)
}

/// Every one of some frames stands at a path, and so do its candidates.
spec fn all_tidy(frames: Seq<FrameView>) -> bool {
    forall|i: int| 0 <= i < frames.len() ==> tidy(#[trigger] frames[i])
}

/// Folding a child in keeps a frame tidy, and what is reported has texts of paths.
proof fn lemma_folded_tidy(
    parent: FrameView,
    child: FrameView,
    hash: Option<Seq<u8>>,
    ctx: CtxView,
)
    requires
        tidy(parent),
        tidy(child),
    ensures
        tidy(folded(parent, child, hash, ctx)),
        paths_are_hex(flushed(child, ctx)),
{
    lemma_hex_round_trip(child.path);
}

/// What is reported at a tidy root has texts of paths.
proof fn lemma_root_tidy(root: FrameView, ctx: CtxView)
    requires
        tidy(root),
    ensures
        paths_are_hex(root_output(root, ctx)),
{
    lemma_hex_round_trip(root.path);
}

/// Taking children off the stack keeps everything tidy.
proof fn lemma_closed_tidy(state: Closing, branch: BranchView, ctx: CtxView)
    requires
        all_tidy(state.stack),
        tidy(state.frame),
        paths_are_hex(state.out),
    ensures
        all_tidy(closed(state, branch, ctx).stack),
        tidy(closed(state, branch, ctx).frame),
        paths_are_hex(closed(state, branch, ctx).out),
    decreases state.stack.len(),
{
    if top_below(state.stack, state.frame.path) {
        let child = state.stack.last();
        let hash = child_hash(branch, child.path[state.frame.path.len() as int] as int);
        lemma_folded_tidy(state.frame, child, hash, ctx);
        lemma_closed_tidy(
            Closing {
                stack: state.stack.drop_last(),
                frame: folded(state.frame, child, hash, ctx),
                out: state.out + flushed(child, ctx),
            },
            branch,
            ctx,
        );
    }
}

/// Folding clusters in keeps everything tidy.
proof fn lemma_clusters_tidy(
    frame: FrameView,
    out: Seq<SubtreeView>,
    branch: BranchView,
    clusters: Seq<FrameView>,
    ctx: CtxView,
    n: int,
)
    requires
        0 <= n <= clusters.len(),
        tidy(frame),
        paths_are_hex(out),
        all_tidy(clusters),
    ensures
        tidy(clusters_folded(frame, out, branch, clusters, ctx, n).0),
        paths_are_hex(clusters_folded(frame, out, branch, clusters, ctx, n).1),
    decreases n,
{
    if n > 0 {
        lemma_clusters_tidy(frame, out, branch, clusters, ctx, n - 1);
        let before = clusters_folded(frame, out, branch, clusters, ctx, n - 1).0;
        let cluster = clusters[n - 1];
        lemma_folded_tidy(
            before,
            cluster,
            child_hash(branch, cluster.path.last() as int),
            ctx,
        );
    }
}

/// Folding a branch in keeps everything tidy.
proof fn lemma_branch_tidy(
    stack: Seq<FrameView>,
    out: Seq<SubtreeView>,
    path: Seq<u8>,
    branch: BranchView,
    clusters: Seq<FrameView>,
    ctx: CtxView,
)
    requires
        all_tidy(stack),
        paths_are_hex(out),
        is_path(path),
        all_tidy(clusters),
    ensures
        all_tidy(branch_folded(stack, out, path, branch, clusters, ctx).0),
        paths_are_hex(branch_folded(stack, out, path, branch, clusters, ctx).1),
{
    let start = Closing { stack, frame: new_frame(path, branch.root_hash), out };
    lemma_closed_tidy(start, branch, ctx);
    let end = closed(start, branch, ctx);
    lemma_clusters_tidy(end.frame, end.out, branch, clusters, ctx, clusters.len() as int);
}

/// Folding frames into a root keeps everything tidy.
proof fn lemma_all_folded_tidy(root: FrameView, frames: Seq<FrameView>, ctx: CtxView, n: int)
    requires
        0 <= n <= frames.len(),
        tidy(root),
        all_tidy(frames),
    ensures
        tidy(all_folded(root, frames, ctx, n).0),
        paths_are_hex(all_folded(root, frames, ctx, n).1),
    decreases n,
{
    if n > 0 {
        lemma_all_folded_tidy(root, frames, ctx, n - 1);
        lemma_folded_tidy(all_folded(root, frames, ctx, n - 1).0, frames[n - 1], None, ctx);
    }
}

/// What is reported at the end of a walk has texts of paths.
proof fn lemma_walk_tidy(stack: Seq<FrameView>, known: Option<Seq<u8>>, ctx: CtxView)
    requires
        all_tidy(stack),
    ensures
        paths_are_hex(walk_output(stack, known, ctx)),
{
    if stack.len() == 1 && stack[0].path.len() == 0 {
        let root = FrameView {
            root_hash: if stack[0].root_hash is None {
                known
            } else {
                stack[0].root_hash
            },
            ..stack[0]
        };
        assert(tidy(stack[0]));
        lemma_root_tidy(root, ctx);
    } else if stack.len() > 0 {
        let start = new_frame(Seq::empty(), known);
        lemma_all_folded_tidy(start, stack, ctx, stack.len() as int);
        lemma_root_tidy(all_folded(start, stack, ctx, stack.len() as int).0, ctx);
    }
}

/// The frames of a walk are tidy.
spec fn walk_tidy(walk: WalkView) -> bool {
    all_tidy(walk.accounts) && all_tidy(walk.storage)
}

/// What is reported at the end of a storage trie has texts of paths.
proof fn lemma_storage_output_tidy(walk: WalkView)
    requires
        walk_tidy(walk),
    ensures
        paths_are_hex(storage_output(walk)),
{
    if walk.owner is Some {
        lemma_walk_tidy(walk.storage, None, storage_ctx(walk.owner->0));
    }
}

/// The clusters below an item are tidy.
proof fn lemma_item_clusters_tidy(
    item: ItemView,
    keys: Seq<B256>,
    ctx: CtxView,
    index: PeriodIndexView,
    config: IdentifyConfig,
)
    requires
        is_path(item.path),
        item.path.len() < MAX_NIBBLES,
    ensures
        all_tidy(clusters_of(item, keys, ctx, index, config)),
{
    lemma_leaf_nibbles(item.branch, 16);
    let prefixes = leaf_prefixes(item.path, item.branch);
    let clusters = clusters_of(item, keys, ctx, index, config);
    assert forall|i: int| 0 <= i < clusters.len() implies tidy(#[trigger] clusters[i]) by {
        assert(clusters[i].path == prefixes[i]);
        assert(prefixes[i] == item.path.push(leaf_nibbles(item.branch, 16)[i]));
    }
}

/// A run keeps everything tidy.
proof fn lemma_run_tidy(
    items: Seq<ItemView>,
    leaves: Leaves,
    index: PeriodIndexView,
    config: IdentifyConfig,
    n: int,
)
    requires
        0 <= n <= items.len(),
        forall|i: int|
            0 <= i < items.len() ==> is_path((#[trigger] items[i]).path) && items[i].path.len()
                < MAX_NIBBLES,
    ensures
        walk_tidy(run_items(items, leaves, index, config, n).walk),
        paths_are_hex(run_items(items, leaves, index, config, n).out),
    decreases n,
{
    if n > 0 {
        lemma_run_tidy(items, leaves, index, config, n - 1);
        let run = run_items(items, leaves, index, config, n - 1);
        let item = items[n - 1];
        if !skipped(item, config.scope) {
            let ctx = item_ctx(item, config.scope);
            let keys = leaves.of_item(item);
            let clusters = clusters_of(item, keys, ctx, index, config);
            lemma_item_clusters_tidy(item, keys, ctx, index, config);
            match item.owner {
                None => {
                    lemma_branch_tidy(
                        run.walk.accounts,
                        run.out,
                        item.path,
                        item.branch,
                        clusters,
                        ctx,
                    );
                },
                Some(owner) => {
                    if run.walk.owner == Some(owner) {
                        lemma_branch_tidy(
                            run.walk.storage,
                            run.out,
                            item.path,
                            item.branch,
                            clusters,
                            ctx,
                        );
                    } else {
                        lemma_storage_output_tidy(run.walk);
                        lemma_branch_tidy(
                            Seq::empty(),
                            run.out + storage_output(run.walk),
                            item.path,
                            item.branch,
                            clusters,
                            ctx,
                        );
                    }
                },
            }
        }
    }
}

/// A run reports only subtrees whose path is the text of a path, so that it can be read back.
pub proof fn lemma_identified_paths(
    items: Seq<ItemView>,
    leaves: Leaves,
    state_root: Seq<u8>,
    index: PeriodIndexView,
    config: IdentifyConfig,
)
    requires
        forall|i: int|
            0 <= i < items.len() ==> is_path((#[trigger] items[i]).path) && items[i].path.len()
                < MAX_NIBBLES,
    ensures
        paths_are_hex(identified(items, leaves, state_root, index, config)),
{
    let n = items.len() as int;
    let run = run_items(items, leaves, index, config, n);
    lemma_run_tidy(items, leaves, index, config, n);
    lemma_storage_output_tidy(run.walk);
    lemma_walk_tidy(run.walk.accounts, Some(state_root), account_ctx(config.scope));
}

} // verus!
