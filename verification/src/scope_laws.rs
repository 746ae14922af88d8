//! A narrow scope gives what the wide scope gives of its tries.
use vstd::prelude::*;

use crate::identifier::{
    all_folded, child_hash, closed, cluster_of, flushed, folded, leaf_inactive, new_frame, of_kind,
    top_below, walk_output, BranchView, Closing, CtxView, FrameView, IdentifyConfig, Scope,
    SubtreeView, TrieKind,
};
use crate::identify::{clusters_of, identified, run_items, Leaves};
use crate::identify_laws::Visit;
use crate::key_order::keys_under;
use crate::period_index::PeriodIndexView;
use crate::primitives::B256;
use crate::run_laws::{lemma_branch_adds, visit_of};
use crate::walk::{
    account_ctx, branch_folded, clusters_folded, item_ctx, leaf_prefixes, storage_ctx,
    storage_output, ItemView, WalkView,
};

verus! {

/// Every one of some subtrees is of a trie of this kind.
spec fn all_of_kind(subtrees: Seq<SubtreeView>, kind: TrieKind) -> bool {
    forall|i: int| 0 <= i < subtrees.len() ==> (#[trigger] subtrees[i]).trie == kind
}

/// The candidates of every one of some frames are of a trie of this kind.
spec fn frames_of_kind(frames: Seq<FrameView>, kind: TrieKind) -> bool {
    forall|i: int| 0 <= i < frames.len() ==> all_of_kind((#[trigger] frames[i]).candidates, kind)
}

/// Children that are taken off the stack leave everything of one kind.
proof fn lemma_closed_kind(state: Closing, branch: BranchView, ctx: CtxView)
    requires
        frames_of_kind(state.stack, ctx.trie_label),
        all_of_kind(state.frame.candidates, ctx.trie_label),
        all_of_kind(state.out, ctx.trie_label),
    ensures
        frames_of_kind(closed(state, branch, ctx).stack, ctx.trie_label),
        all_of_kind(closed(state, branch, ctx).frame.candidates, ctx.trie_label),
        all_of_kind(closed(state, branch, ctx).out, ctx.trie_label),
    decreases state.stack.len(),
{
    if top_below(state.stack, state.frame.path) {
        let child = state.stack.last();
        let hash = child_hash(branch, child.path[state.frame.path.len() as int] as int);
        lemma_closed_kind(
            Closing {
                stack: state.stack.drop_last(),
                frame: folded(state.frame, child, hash, ctx),
                out: state.out + flushed(child, ctx),
            },
            branch,
            ctx,
        );
    }
}

/// Clusters that are folded in leave everything of one kind.
proof fn lemma_clusters_kind(
    frame: FrameView,
    out: Seq<SubtreeView>,
    branch: BranchView,
    clusters: Seq<FrameView>,
    ctx: CtxView,
    n: int,
)
    requires
        0 <= n <= clusters.len(),
        all_of_kind(frame.candidates, ctx.trie_label),
        all_of_kind(out, ctx.trie_label),
        frames_of_kind(clusters, ctx.trie_label),
    ensures
        all_of_kind(
            clusters_folded(frame, out, branch, clusters, ctx, n).0.candidates,
            ctx.trie_label,
        ),
        all_of_kind(clusters_folded(frame, out, branch, clusters, ctx, n).1, ctx.trie_label),
    decreases n,
{
    if n > 0 {
        lemma_clusters_kind(frame, out, branch, clusters, ctx, n - 1);
        assert(all_of_kind(clusters[n - 1].candidates, ctx.trie_label));
    }
}

/// A branch that is folded in leaves everything of one kind.
proof fn lemma_branch_kind(stack: Seq<FrameView>, v: Visit, ctx: CtxView)
    requires
        frames_of_kind(stack, ctx.trie_label),
        frames_of_kind(v.clusters, ctx.trie_label),
    ensures
        ({
            let end = branch_folded(stack, Seq::empty(), v.path, v.branch, v.clusters, ctx);
            frames_of_kind(end.0, ctx.trie_label) && all_of_kind(end.1, ctx.trie_label)
        }),
{
    let start = Closing {
        stack,
        frame: new_frame(v.path, v.branch.root_hash),
        out: Seq::empty(),
    };
    lemma_closed_kind(start, v.branch, ctx);
    let end = closed(start, v.branch, ctx);
    lemma_clusters_kind(
        end.frame,
        end.out,
        v.branch,
        v.clusters,
        ctx,
        v.clusters.len() as int,
    );
}

/// What is reported at the end of a walk is of its kind.
proof fn lemma_walk_kind(stack: Seq<FrameView>, known: Option<Seq<u8>>, ctx: CtxView)
    requires
        frames_of_kind(stack, ctx.trie_label),
    ensures
        all_of_kind(walk_output(stack, known, ctx), ctx.trie_label),
        !ctx.emit_output ==> walk_output(stack, known, ctx).len() == 0,
{
    if stack.len() == 1 && stack[0].path.len() == 0 {
        assert(all_of_kind(stack[0].candidates, ctx.trie_label));
    } else if stack.len() > 0 {
        lemma_all_folded_kind(
            new_frame(Seq::empty(), known),
            stack,
            ctx,
            stack.len() as int,
        );
    }
}

/// Frames that are folded into a root leave everything of one kind.
proof fn lemma_all_folded_kind(root: FrameView, frames: Seq<FrameView>, ctx: CtxView, n: int)
    requires
        0 <= n <= frames.len(),
        all_of_kind(root.candidates, ctx.trie_label),
        frames_of_kind(frames, ctx.trie_label),
    ensures
        all_of_kind(all_folded(root, frames, ctx, n).0.candidates, ctx.trie_label),
        all_of_kind(all_folded(root, frames, ctx, n).1, ctx.trie_label),
        !ctx.emit_output ==> all_folded(root, frames, ctx, n).1.len() == 0,
    decreases n,
{
    if n > 0 {
        lemma_all_folded_kind(root, frames, ctx, n - 1);
        assert(all_of_kind(frames[n - 1].candidates, ctx.trie_label));
    }
}

/// Two contexts of one trie, of which the second is not reported.
spec fn silenced(on: CtxView, off: CtxView) -> bool {
    on.trie_label == off.trie_label && on.owner == off.owner && !off.emit_output
}

/// A trie that is not reported is folded as if it were.
proof fn lemma_closed_silent(
    stack: Seq<FrameView>,
    frame: FrameView,
    told: Seq<SubtreeView>,
    out: Seq<SubtreeView>,
    branch: BranchView,
    on: CtxView,
    off: CtxView,
)
    requires
        silenced(on, off),
    ensures
        ({
            let loud = closed(Closing { stack, frame, out }, branch, on);
            closed(Closing { stack, frame, out: told }, branch, off) == (Closing {
                out: told,
                ..loud
            })
        }),
    decreases stack.len(),
{
    if top_below(stack, frame.path) {
        let child = stack.last();
        let hash = child_hash(branch, child.path[frame.path.len() as int] as int);
        assert(folded(frame, child, hash, on) == folded(frame, child, hash, off));
        assert(told + flushed(child, off) =~= told);
        lemma_closed_silent(
            stack.drop_last(),
            folded(frame, child, hash, on),
            told,
            out + flushed(child, on),
            branch,
            on,
            off,
        );
    }
}

/// Clusters of a trie that is not reported are folded in as if it were.
proof fn lemma_clusters_silent(
    frame: FrameView,
    told: Seq<SubtreeView>,
    out: Seq<SubtreeView>,
    branch: BranchView,
    clusters: Seq<FrameView>,
    on: CtxView,
    off: CtxView,
    n: int,
)
    requires
        silenced(on, off),
        0 <= n <= clusters.len(),
    ensures
        clusters_folded(frame, told, branch, clusters, off, n) == (
            clusters_folded(frame, out, branch, clusters, on, n).0,
            told,
        ),
    decreases n,
{
    if n > 0 {
        lemma_clusters_silent(frame, told, out, branch, clusters, on, off, n - 1);
        assert(told + flushed(clusters[n - 1], off) =~= told);
    }
}

/// A branch of a trie that is not reported is folded in as if it were.
proof fn lemma_branch_silent(
    stack: Seq<FrameView>,
    told: Seq<SubtreeView>,
    v: Visit,
    on: CtxView,
    off: CtxView,
)
    requires
        silenced(on, off),
    ensures
        branch_folded(stack, told, v.path, v.branch, v.clusters, off) == (
            branch_folded(stack, Seq::empty(), v.path, v.branch, v.clusters, on).0,
            told,
        ),
{
    let frame = new_frame(v.path, v.branch.root_hash);
    lemma_closed_silent(stack, frame, told, Seq::empty(), v.branch, on, off);
    let loud = closed(Closing { stack, frame, out: Seq::empty() }, v.branch, on);
    lemma_clusters_silent(
        loud.frame,
        told,
        loud.out,
        v.branch,
        v.clusters,
        on,
        off,
        v.clusters.len() as int,
    );
}

/// The subtrees of one kind, put together piece by piece.
proof fn lemma_of_kind(a: Seq<SubtreeView>, b: Seq<SubtreeView>, kind: TrieKind)
    ensures
        of_kind(a + b, kind) == of_kind(a, kind) + of_kind(b, kind),
        all_of_kind(b, kind) ==> of_kind(b, kind) == b,
        forall|other: TrieKind| #[trigger]
            all_of_kind(b, other) && other != kind ==> of_kind(b, kind).len() == 0,
    decreases b.len(),
{
    reveal(Seq::filter);
    if b.len() == 0 {
        assert(a + b =~= a);
        assert(of_kind(a, kind) + of_kind(b, kind) =~= of_kind(a, kind));
        assert(of_kind(b, kind) =~= b);
    } else {
        let init = b.drop_last();
        lemma_of_kind(a, init, kind);
        assert((a + b).drop_last() =~= a + init);
        assert((a + b).last() == b.last());
        assert(of_kind(a + b, kind) =~= of_kind(a, kind) + of_kind(b, kind));
        assert forall|other: TrieKind| #[trigger] all_of_kind(b, other) implies all_of_kind(
            init,
            other,
        ) by {
            assert forall|i: int| 0 <= i < init.len() implies (#[trigger] init[i]).trie
                == other by {
                assert(init[i] == b[i]);
            }
        }
        assert(b[b.len() - 1] == b.last());
        if all_of_kind(b, kind) {
            assert(of_kind(b, kind) =~= b);
        }
    }
}

/// A cluster does not depend on the scope.
proof fn lemma_cluster_scope(
    prefix: Seq<u8>,
    keys: Seq<B256>,
    a: CtxView,
    b: CtxView,
    index: PeriodIndexView,
    config: IdentifyConfig,
    other: IdentifyConfig,
)
    requires
        a.trie_label == b.trie_label,
        a.owner == b.owner,
        other == (IdentifyConfig { scope: other.scope, ..config }),
    ensures
        cluster_of(prefix, keys, a, index, config) == cluster_of(prefix, keys, b, index, other),
{
    let leaves = keys_under(keys, prefix);
    assert forall|i: int| 0 <= i < leaves.len() implies leaf_inactive(
        index,
        a,
        config,
        #[trigger] leaves[i],
    ) == leaf_inactive(index, b, other, leaves[i]) by {}
}

/// The clusters below an item do not depend on the scope.
proof fn lemma_clusters_scope(
    item: ItemView,
    keys: Seq<B256>,
    index: PeriodIndexView,
    config: IdentifyConfig,
    other: IdentifyConfig,
)
    requires
        other == (IdentifyConfig { scope: other.scope, ..config }),
    ensures
        clusters_of(item, keys, item_ctx(item, config.scope), index, config) == clusters_of(
            item,
            keys,
            item_ctx(item, other.scope),
            index,
            other,
        ),
{
    let a = item_ctx(item, config.scope);
    let b = item_ctx(item, other.scope);
    let prefixes = leaf_prefixes(item.path, item.branch);
    assert forall|i: int| 0 <= i < prefixes.len() implies cluster_of(
        #[trigger] prefixes[i],
        keys,
        a,
        index,
        config,
    ) == cluster_of(prefixes[i], keys, b, index, other) by {
        lemma_cluster_scope(prefixes[i], keys, a, b, index, config, other);
    }
    assert(clusters_of(item, keys, a, index, config) =~= clusters_of(item, keys, b, index, other));
}

/// The leaves that are missing below an item do not depend on the scope.
proof fn lemma_missing_scope(
    prefixes: Seq<Seq<u8>>,
    keys: Seq<B256>,
    a: CtxView,
    b: CtxView,
    index: PeriodIndexView,
    n: int,
)
    requires
        a.trie_label == b.trie_label,
        a.owner == b.owner,
        0 <= n <= prefixes.len(),
    ensures
        crate::identify::missing_under(prefixes, keys, a, index, n)
            == crate::identify::missing_under(prefixes, keys, b, index, n),
    decreases n,
{
    if n > 0 {
        lemma_missing_scope(prefixes, keys, a, b, index, n - 1);
        let leaves = keys_under(keys, prefixes[n - 1]);
        lemma_same_filter(
            leaves,
            |key: B256| crate::identifier::leaf_block(index, a, key) is None,
            |key: B256| crate::identifier::leaf_block(index, b, key) is None,
        );
    }
}

/// Filters that agree keep the same.
proof fn lemma_same_filter(
    keys: Seq<B256>,
    a: spec_fn(B256) -> bool,
    b: spec_fn(B256) -> bool,
)
    requires
        forall|key: B256| #[trigger] a(key) == b(key),
    ensures
        keys.filter(a) == keys.filter(b),
    decreases keys.len(),
{
    reveal(Seq::filter);
    if keys.len() > 0 {
        lemma_same_filter(keys.drop_last(), a, b);
        assert(a(keys.last()) == b(keys.last()));
    }
}

/// The scope that takes in the tries of one kind alone.
pub open spec fn scope_of(kind: TrieKind) -> Scope {
    match kind {
        TrieKind::Account => Scope::Account,
        TrieKind::Storage => Scope::Storage,
    }
}

/// The same parameters with another scope.
pub open spec fn with_scope(config: IdentifyConfig, scope: Scope) -> IdentifyConfig {
    IdentifyConfig { scope, ..config }
}

/// The frames of a walk are of the kinds of their tries.
spec fn walk_of_kinds(walk: WalkView) -> bool {
    frames_of_kind(walk.accounts, TrieKind::Account) && frames_of_kind(
        walk.storage,
        TrieKind::Storage,
    )
}

/// The clusters below an item have no candidates, of whatever kind.
proof fn lemma_clusters_bare(
    item: ItemView,
    keys: Seq<B256>,
    ctx: CtxView,
    index: PeriodIndexView,
    config: IdentifyConfig,
)
    ensures
        frames_of_kind(clusters_of(item, keys, ctx, index, config), ctx.trie_label),
{
}

/// What the open storage trie reports is of its kind.
proof fn lemma_storage_output_kind(walk: WalkView)
    requires
        walk_of_kinds(walk),
    ensures
        all_of_kind(storage_output(walk), TrieKind::Storage),
{
    if walk.owner is Some {
        lemma_walk_kind(walk.storage, None, storage_ctx(walk.owner->0));
    }
}

/// After any number of items the run of a narrow scope is the part of the wide one's that its
/// tries make.
proof fn lemma_runs_agree(
    items: Seq<ItemView>,
    leaves: Leaves,
    index: PeriodIndexView,
    config: IdentifyConfig,
    kind: TrieKind,
    n: int,
)
    requires
        0 <= n <= items.len(),
    ensures
        ({
            let narrow = run_items(items, leaves, index, with_scope(config, scope_of(kind)), n);
            let wide = run_items(items, leaves, index, with_scope(config, Scope::Both), n);
            &&& walk_of_kinds(wide.walk)
            &&& narrow.walk.accounts == wide.walk.accounts
            &&& narrow.accounts_scanned == wide.accounts_scanned
            &&& narrow.out == of_kind(wide.out, kind)
            &&& kind is Account ==> {
                &&& narrow.walk.owner is None
                &&& narrow.storage_tries_walked == 0
                &&& narrow.storage_slots_scanned == 0
            }
            &&& kind is Storage ==> {
                &&& narrow.walk.owner == wide.walk.owner
                &&& narrow.walk.storage == wide.walk.storage
                &&& narrow.storage_tries_walked == wide.storage_tries_walked
                &&& narrow.storage_slots_scanned == wide.storage_slots_scanned
                &&& narrow.period_lookup_misses == wide.period_lookup_misses
                &&& narrow.leaf_slot_prefix_mismatches == wide.leaf_slot_prefix_mismatches
            }
        }),
    decreases n,
{
    let none = Seq::<SubtreeView>::empty();
    let cn = with_scope(config, scope_of(kind));
    let cw = with_scope(config, Scope::Both);
    if n == 0 {
        lemma_of_kind(none, none, kind);
        assert(all_of_kind(none, kind));
    } else {
        lemma_runs_agree(items, leaves, index, config, kind, n - 1);
        let narrow = run_items(items, leaves, index, cn, n - 1);
        let wide = run_items(items, leaves, index, cw, n - 1);
        let item = items[n - 1];
        let keys = leaves.of_item(item);
        let ctx = item_ctx(item, cw.scope);
        let v = visit_of(item, leaves, index, cw);
        let prefixes = leaf_prefixes(item.path, item.branch);
        lemma_clusters_scope(item, keys, index, cn, cw);
        lemma_clusters_bare(item, keys, ctx, index, cw);
        lemma_missing_scope(
            prefixes,
            keys,
            item_ctx(item, cn.scope),
            ctx,
            index,
            prefixes.len() as int,
        );
        match item.owner {
            None => {
                let stack = wide.walk.accounts;
                let alone = branch_folded(stack, none, v.path, v.branch, v.clusters, ctx);
                lemma_branch_kind(stack, v, ctx);
                lemma_branch_adds(stack, wide.out, none, v, ctx);
                assert(wide.out + none =~= wide.out);
                lemma_of_kind(wide.out, alone.1, kind);
                if kind is Account {
                    lemma_branch_adds(stack, narrow.out, none, v, ctx);
                    assert(narrow.out + none =~= narrow.out);
                } else {
                    let off = account_ctx(Scope::Storage);
                    lemma_branch_silent(stack, narrow.out, v, ctx, off);
                    assert(all_of_kind(alone.1, TrieKind::Account));
                    assert(of_kind(wide.out, kind) + of_kind(alone.1, kind) =~= of_kind(
                        wide.out,
                        kind,
                    ));
                }
            },
            Some(owner) => {
                let fresh = wide.walk.owner != Some(owner);
                let open = if fresh {
                    Seq::empty()
                } else {
                    wide.walk.storage
                };
                let ended = if fresh {
                    storage_output(wide.walk)
                } else {
                    none
                };
                lemma_storage_output_kind(wide.walk);
                let alone = branch_folded(open, none, v.path, v.branch, v.clusters, ctx);
                lemma_branch_kind(open, v, ctx);
                lemma_branch_adds(open, wide.out + ended, none, v, ctx);
                assert((wide.out + ended) + none =~= wide.out + ended);
                if !fresh {
                    assert(wide.out + ended =~= wide.out);
                }
                lemma_of_kind(wide.out, ended, kind);
                lemma_of_kind(wide.out + ended, alone.1, kind);
                assert(all_of_kind(ended, TrieKind::Storage));
                assert(all_of_kind(alone.1, TrieKind::Storage));
                if kind is Storage {
                    lemma_branch_adds(open, narrow.out + ended, none, v, ctx);
                    assert((narrow.out + ended) + none =~= narrow.out + ended);
                    if !fresh {
                        assert(narrow.out + ended =~= narrow.out);
                    }
                    assert(storage_output(narrow.walk) == storage_output(wide.walk));
                } else {
                    assert(of_kind(wide.out, kind) + of_kind(ended, kind) + of_kind(alone.1, kind)
                        =~= of_kind(wide.out, kind));
                }
            },
        }
    }
}

/// A run over one kind of trie reports exactly what the run over both reports of that kind, in the
/// same order, and scans the same accounts. The run over accounts walks no storage trie; the run
/// over storage counts there what the run over both counts.
pub proof fn lemma_narrow_scope_filters(
    items: Seq<ItemView>,
    leaves: Leaves,
    state_root: Seq<u8>,
    index: PeriodIndexView,
    config: IdentifyConfig,
    kind: TrieKind,
)
    ensures
        identified(items, leaves, state_root, index, with_scope(config, scope_of(kind)))
            == of_kind(
            identified(items, leaves, state_root, index, with_scope(config, Scope::Both)),
            kind,
        ),
        ({
            let n = items.len() as int;
            let narrow = run_items(items, leaves, index, with_scope(config, scope_of(kind)), n);
            let wide = run_items(items, leaves, index, with_scope(config, Scope::Both), n);
            &&& narrow.accounts_scanned == wide.accounts_scanned
            &&& kind is Account ==> narrow.storage_tries_walked == 0
                && narrow.storage_slots_scanned == 0
            &&& kind is Storage ==> {
                &&& narrow.storage_tries_walked == wide.storage_tries_walked
                &&& narrow.storage_slots_scanned == wide.storage_slots_scanned
                &&& narrow.period_lookup_misses == wide.period_lookup_misses
                &&& narrow.leaf_slot_prefix_mismatches == wide.leaf_slot_prefix_mismatches
            }
        }),
{
    let n = items.len() as int;
    let cn = with_scope(config, scope_of(kind));
    let cw = with_scope(config, Scope::Both);
    lemma_runs_agree(items, leaves, index, config, kind, n);
    let narrow = run_items(items, leaves, index, cn, n);
    let wide = run_items(items, leaves, index, cw, n);
    let last_storage = storage_output(wide.walk);
    let last_account = walk_output(
        wide.walk.accounts,
        Some(state_root),
        account_ctx(Scope::Both),
    );
    lemma_storage_output_kind(wide.walk);
    lemma_walk_kind(wide.walk.accounts, Some(state_root), account_ctx(Scope::Both));
    lemma_walk_kind(wide.walk.accounts, Some(state_root), account_ctx(cn.scope));
    lemma_of_kind(wide.out, last_storage, kind);
    lemma_of_kind(wide.out + last_storage, last_account, kind);
    let told = of_kind(wide.out, kind);
    if kind is Account {
        assert(all_of_kind(last_storage, TrieKind::Storage));
        assert(storage_output(narrow.walk) =~= Seq::empty());
        assert(narrow.out + storage_output(narrow.walk) =~= told);
        assert(told + of_kind(last_storage, kind) =~= told);
    } else {
        assert(storage_output(narrow.walk) == last_storage);
        assert(all_of_kind(last_account, TrieKind::Account));
        assert(identified(items, leaves, state_root, index, cn) =~= told + last_storage);
        assert(told + last_storage + of_kind(last_account, kind) =~= told + last_storage);
    }
}

} // verus!
