//! The walk over all tries: branches come children first, and each is folded into the frames of
//! the trie it belongs to.
use vstd::prelude::*;

use crate::identifier::{
    child_hash, closed, descends_storage, emits_accounts, finalize_walk, flushed,
    fold_child, folded, frames_view, hash_view, leaf_slot, leaf_sum, lemma_leaf_sum_take,
    new_frame, pop_closed_children, reversed, same_scans, walk_output, BranchNodeCompact,
    BranchView, Closing, CtxView, EmitCtx, Findings,
    FrameView, IdentifyStats, NodeFrame, Scope, SubtreeView,
    TrieKind,
};
use crate::nibbles::{Nibbles, MAX_NIBBLES};
use crate::primitives::{same_hash, B256};

verus! {

/// A branch of the account trie or of the storage trie of the account with a hashed address.
#[derive(Debug)]
pub enum BranchItem {
    Account(Nibbles, BranchNodeCompact),
    Storage(B256, Nibbles, BranchNodeCompact),
}

/// What an item is, as mathematical values. The owner is that of a storage trie.
pub struct ItemView {
    pub owner: Option<Seq<u8>>,
    pub path: Seq<u8>,
    pub branch: BranchView,
}

impl View for BranchItem {
    type V = ItemView;

    open spec fn view(&self) -> ItemView {
        match self {
            BranchItem::Account(path, branch) => ItemView {
                owner: None,
                path: path@,
                branch: branch@,
            },
            BranchItem::Storage(owner, path, branch) => ItemView {
                owner: Some(owner@),
                path: path@,
                branch: branch@,
            },
        }
    }
}

/// What each of some items is.
pub open spec fn items_view(items: Seq<BranchItem>) -> Seq<ItemView> {
    Seq::new(items.len(), |i: int| items[i]@)
}

/// The owner under which subtrees of the account trie are reported.
pub open spec fn no_owner() -> Seq<u8> {
    Seq::new(32, |i: int| 0u8)
}

/// The account trie.
pub open spec fn account_ctx(scope: Scope) -> CtxView {
    CtxView {
        trie_label: TrieKind::Account,
        owner: no_owner(),
        emit_output: emits_accounts(scope),
    }
}

/// The storage trie of an account.
pub open spec fn storage_ctx(owner: Seq<u8>) -> CtxView {
    CtxView { trie_label: TrieKind::Storage, owner, emit_output: true }
}

/// The account trie.
pub fn account_context(scope: Scope) -> (ctx: EmitCtx)
    ensures
        ctx@ == account_ctx(scope),
{
    let owner: B256 = [0u8; 32];
    assert(owner@ =~= no_owner());
    EmitCtx { trie_label: TrieKind::Account, owner, emit_output: scope.emit_account() }
}

/// The storage trie of an account.
pub fn storage_context(owner: &B256) -> (ctx: EmitCtx)
    ensures
        ctx@ == storage_ctx(owner@),
{
    EmitCtx { trie_label: TrieKind::Storage, owner: *owner, emit_output: true }
}

/// The nibbles, in order and below `n`, whose children are to be looked for among the leaves.
pub open spec fn leaf_nibbles(branch: BranchView, n: int) -> Seq<u8>
    decreases n,
{
    if n <= 0 {
        Seq::empty()
    } else if leaf_slot(branch, n - 1) {
        leaf_nibbles(branch, n - 1).push((n - 1) as u8)
    } else {
        leaf_nibbles(branch, n - 1)
    }
}

/// The paths, in order, under which leaves are to be looked for.
pub open spec fn leaf_prefixes(path: Seq<u8>, branch: BranchView) -> Seq<Seq<u8>> {
    leaf_nibbles(branch, 16).map_values(|n: u8| path.push(n))
}

/// What each of some paths is.
pub open spec fn paths_view(paths: Seq<Nibbles>) -> Seq<Seq<u8>> {
    Seq::new(paths.len(), |i: int| paths[i]@)
}

/// The paths, in order, under which leaves are to be looked for: a child that is not yielded as a
/// branch of its own may be a single leaf or hide several.
pub fn scan_prefixes(path: &Nibbles, branch: &BranchNodeCompact) -> (prefixes: Vec<Nibbles>)
    requires
        path@.len() < MAX_NIBBLES,
    ensures
        paths_view(prefixes@) == leaf_prefixes(path@, branch@),
{
    let mut prefixes: Vec<Nibbles> = Vec::new();
    let mut n: u8 = 0;
    let ghost under = |n: u8| path@.push(n);
    assert(paths_view(prefixes@) =~= leaf_nibbles(branch@, 0).map_values(under));
    while n < 16
        invariant
            n <= 16,
            path@.len() < MAX_NIBBLES,
            under == (|n: u8| path@.push(n)),
            paths_view(prefixes@) == leaf_nibbles(branch@, n as int).map_values(under),
        decreases 16 - n,
    {
        let ghost before = prefixes@;
        if branch.is_leaf_slot(n) {
            let mut prefix: Nibbles = path.clone();
            prefix.push(n);
            prefixes.push(prefix);
            assert(paths_view(prefixes@) =~= paths_view(before).push(path@.push(n)));
        }
        assert(paths_view(prefixes@) =~= leaf_nibbles(branch@, n + 1).map_values(under));
        n = n + 1;
    }
    prefixes
}

/// A frame into which the first `n` clusters of leaves are folded, and what was reported. A slot
/// without leaves is passed over.
pub open spec fn clusters_folded(
    frame: FrameView,
    out: Seq<SubtreeView>,
    branch: BranchView,
    clusters: Seq<FrameView>,
    ctx: CtxView,
    n: int,
) -> (FrameView, Seq<SubtreeView>)
    decreases n,
{
    if n <= 0 {
        (frame, out)
    } else {
        let (filled, reported) = clusters_folded(frame, out, branch, clusters, ctx, n - 1);
        let cluster = clusters[n - 1];
        if cluster.leaf_count == 0 {
            (filled, reported)
        } else {
            (
                folded(filled, cluster, child_hash(branch, cluster.path.last() as int), ctx),
                reported + flushed(cluster, ctx),
            )
        }
    }
}

/// How many of some clusters have no leaves.
pub open spec fn empty_clusters(clusters: Seq<FrameView>) -> nat
    decreases clusters.len(),
{
    if clusters.len() == 0 {
        0
    } else {
        empty_clusters(clusters.drop_last()) + if clusters.last().leaf_count == 0 {
            1nat
        } else {
            0
        }
    }
}

/// The frames of a trie and what was reported, once the branch at `path` is folded in.
pub open spec fn branch_folded(
    stack: Seq<FrameView>,
    out: Seq<SubtreeView>,
    path: Seq<u8>,
    branch: BranchView,
    clusters: Seq<FrameView>,
    ctx: CtxView,
) -> (Seq<FrameView>, Seq<SubtreeView>) {
    let children = closed(
        Closing { stack, frame: new_frame(path, branch.root_hash), out },
        branch,
        ctx,
    );
    let (frame, reported) = clusters_folded(
        children.frame,
        children.out,
        branch,
        clusters,
        ctx,
        clusters.len() as int,
    );
    (children.stack.push(frame), reported)
}

/// The clusters are those of the paths to be scanned.
pub open spec fn clusters_match(
    path: Seq<u8>,
    branch: BranchView,
    clusters: Seq<FrameView>,
) -> bool {
    &&& clusters.len() == leaf_nibbles(branch, 16).len()
    &&& forall|i: int|
        0 <= i < clusters.len() ==> (#[trigger] clusters[i]).path == path.push(
            leaf_nibbles(branch, 16)[i],
        )
}

/// At most one scanned nibble per slot, and each is a nibble.
pub proof fn lemma_leaf_nibbles(branch: BranchView, n: int)
    requires
        0 <= n <= 16,
    ensures
        leaf_nibbles(branch, n).len() <= n,
        forall|i: int|
            0 <= i < leaf_nibbles(branch, n).len() ==> #[trigger] leaf_nibbles(branch, n)[i] < n,
    decreases n,
{
    if n > 0 {
        lemma_leaf_nibbles(branch, n - 1);
    }
}

/// Folds a branch and the clusters of leaves below it into the frames of its trie.
pub fn fold_branch(
    stack: &mut Vec<NodeFrame>,
    path: Nibbles,
    branch: &BranchNodeCompact,
    clusters: Vec<NodeFrame>,
    ctx: &EmitCtx,
    findings: &mut Findings,
)
    requires
        clusters_match(path@, branch@, frames_view(clusters@)),
        leaf_sum(frames_view(old(stack)@)) + leaf_sum(frames_view(clusters@)) <= u64::MAX,
        old(findings).tallied(),
        old(findings).stats.leaf_slot_prefix_mismatches + 16 <= u64::MAX,
    ensures
        (frames_view(final(stack)@), final(findings)@) == branch_folded(
            frames_view(old(stack)@),
            old(findings)@,
            path@,
            branch@,
            frames_view(clusters@),
            ctx@,
        ),
        leaf_sum(frames_view(final(stack)@)) == leaf_sum(frames_view(old(stack)@)) + leaf_sum(
            frames_view(clusters@),
        ),
        final(findings).tallied(),
        same_scans(
            final(findings).stats,
            (IdentifyStats {
                leaf_slot_prefix_mismatches: (old(findings).stats.leaf_slot_prefix_mismatches
                    + empty_clusters(frames_view(clusters@))) as u64,
                ..old(findings).stats
            }),
        ),
{
    let ghost all = frames_view(clusters@);
    let ghost parent = path@;
    let depth: usize = path.len();
    proof {
        lemma_leaf_nibbles(branch@, 16);
    }
    let mut frame: NodeFrame = pop_closed_children(stack, path, branch, ctx, findings);
    let ghost first = frame@;
    let ghost reported = findings@;
    let ghost rest_sum = leaf_sum(frames_view(stack@));
    let mut rest: Vec<NodeFrame> = reversed(clusters);
    let ghost n = 0int;
    assert(leaf_sum(all.take(0)) == 0);
    assert(empty_clusters(all.take(0)) == 0);
    while rest.len() > 0
        invariant
            0 <= n <= all.len(),
            all.len() <= 16,
            rest@.len() == all.len() - n,
            forall|i: int| 0 <= i < rest@.len() ==> (#[trigger] rest@[i])@ == all[all.len() - 1 - i],
            depth == parent.len(),
            clusters_match(parent, branch@, all),
            forall|i: int|
                0 <= i < all.len() ==> #[trigger] leaf_nibbles(branch@, 16)[i] < 16,
            (frame@, findings@) == clusters_folded(first, reported, branch@, all, ctx@, n),
            frame.leaf_count == first.leaf_count + leaf_sum(all.take(n)),
            first.leaf_count + leaf_sum(all) <= u64::MAX,
            findings.tallied(),
            empty_clusters(all.take(n)) <= n,
            old(findings).stats.leaf_slot_prefix_mismatches + 16 <= u64::MAX,
            same_scans(
                findings.stats,
                (IdentifyStats {
                    leaf_slot_prefix_mismatches: (old(findings).stats.leaf_slot_prefix_mismatches
                        + empty_clusters(all.take(n))) as u64,
                    ..old(findings).stats
                }),
            ),
        decreases rest.len(),
    {
        match rest.pop() {
            None => {},
            Some(cluster) => {
                proof {
                    assert(cluster@ == all[n]);
                    assert(all.take(n + 1).drop_last() =~= all.take(n));
                    assert(all.take(n + 1).last() == all[n]);
                    lemma_leaf_sum_take(all, n + 1);
                    assert(all[n].path == parent.push(leaf_nibbles(branch@, 16)[n]));
                }
                if cluster.leaf_count == 0 {
                    findings.stats.leaf_slot_prefix_mismatches =
                        findings.stats.leaf_slot_prefix_mismatches + 1;
                } else {
                    match cluster.path.get(depth) {
                        None => {
                            assert(false);
                        },
                        Some(nibble) => {
                            let hash: Option<B256> = branch.hash_for_nibble(nibble);
                            fold_child(cluster, hash, &mut frame, ctx, findings);
                        },
                    }
                }
                proof {
                    n = n + 1;
                }
            },
        }
    }
    assert(all.take(n) =~= all);
    let ghost before = frames_view(stack@);
    stack.push(frame);
    assert(frames_view(stack@) =~= before.push(frame@));
    assert(frames_view(stack@).drop_last() =~= before);
}

/// The frames of the account trie, and those of the storage trie that is being walked.
#[derive(Debug)]
pub struct Walker {
    account_stack: Vec<NodeFrame>,
    storage_owner: Option<B256>,
    storage_stack: Vec<NodeFrame>,
}

/// What a walker holds, as mathematical values.
pub struct WalkView {
    pub accounts: Seq<FrameView>,
    pub owner: Option<Seq<u8>>,
    pub storage: Seq<FrameView>,
}

impl View for Walker {
    type V = WalkView;

    closed spec fn view(&self) -> WalkView {
        WalkView {
            accounts: frames_view(self.account_stack@),
            owner: hash_view(self.storage_owner),
            storage: frames_view(self.storage_stack@),
        }
    }
}

/// A walk that has seen nothing.
pub open spec fn walk_start() -> WalkView {
    WalkView { accounts: Seq::empty(), owner: None, storage: Seq::empty() }
}

/// What is reported when the storage trie that is being walked is done.
pub open spec fn storage_output(walk: WalkView) -> Seq<SubtreeView> {
    match walk.owner {
        Some(owner) => walk_output(walk.storage, None, storage_ctx(owner)),
        None => Seq::empty(),
    }
}

/// The walk and what was reported, once an item and the clusters of leaves below it are folded
/// in. The first branch of another owner's storage ends the storage trie before it.
pub open spec fn visited(
    walk: WalkView,
    out: Seq<SubtreeView>,
    item: ItemView,
    clusters: Seq<FrameView>,
    scope: Scope,
) -> (WalkView, Seq<SubtreeView>) {
    match item.owner {
        None => {
            let (accounts, reported) = branch_folded(
                walk.accounts,
                out,
                item.path,
                item.branch,
                clusters,
                account_ctx(scope),
            );
            (WalkView { accounts, ..walk }, reported)
        },
        Some(owner) => if !descends_storage(scope) {
            (walk, out)
        } else {
            let (open, so_far) = if walk.owner == Some(owner) {
                (walk.storage, out)
            } else {
                (Seq::empty(), out + storage_output(walk))
            };
            let (storage, reported) = branch_folded(
                open,
                so_far,
                item.path,
                item.branch,
                clusters,
                storage_ctx(owner),
            );
            (WalkView { owner: Some(owner), storage, ..walk }, reported)
        },
    }
}

/// The item's trie is passed over.
pub open spec fn skipped(item: ItemView, scope: Scope) -> bool {
    item.owner is Some && !descends_storage(scope)
}

/// The item starts a storage trie.
pub open spec fn opens_trie(walk: WalkView, item: ItemView, scope: Scope) -> bool {
    item.owner is Some && descends_storage(scope) && walk.owner != item.owner
}

/// What is reported at the end of a walk.
pub open spec fn finished(
    walk: WalkView,
    out: Seq<SubtreeView>,
    state_root: Seq<u8>,
    scope: Scope,
) -> Seq<SubtreeView> {
    out + storage_output(walk) + walk_output(walk.accounts, Some(state_root), account_ctx(scope))
}

impl Walker {
    /// A walk that has seen nothing.
    pub fn new() -> (walker: Self)
        ensures
            walker@ == walk_start(),
    {
        let walker = Walker {
            account_stack: Vec::new(),
            storage_owner: None,
            storage_stack: Vec::new(),
        };
        assert(walker@.accounts =~= Seq::<FrameView>::empty());
        assert(walker@.storage =~= Seq::<FrameView>::empty());
        walker
    }

    /// The paths under which the leaves below an item are to be looked for, and the trie in which;
    /// nothing where the item's trie is passed over.
    pub fn to_scan(item: &BranchItem, scope: Scope) -> (r: Option<(Vec<Nibbles>, EmitCtx)>)
        requires
            item@.path.len() < MAX_NIBBLES,
        ensures
            r is None <==> skipped(item@, scope),
            r matches Some((prefixes, ctx)) ==> {
                &&& paths_view(prefixes@) == leaf_prefixes(item@.path, item@.branch)
                &&& ctx@ == item_ctx(item@, scope)
            },
    {
        match item {
            BranchItem::Account(path, branch) => Some(
                (scan_prefixes(path, branch), account_context(scope)),
            ),
            BranchItem::Storage(owner, path, branch) => {
                if scope.descend_storage() {
                    Some((scan_prefixes(path, branch), storage_context(owner)))
                } else {
                    None
                }
            },
        }
    }

    /// Folds in an item and the clusters of leaves below it.
    pub fn visit(
        &mut self,
        item: &BranchItem,
        clusters: Vec<NodeFrame>,
        scope: Scope,
        findings: &mut Findings,
    )
        requires
            !skipped(item@, scope) ==> clusters_match(
                item@.path,
                item@.branch,
                frames_view(clusters@),
            ),
            leaf_sum(old(self)@.accounts) + leaf_sum(frames_view(clusters@)) <= u64::MAX,
            leaf_sum(old(self)@.storage) + leaf_sum(frames_view(clusters@)) <= u64::MAX,
            old(findings).tallied(),
            old(findings).stats.leaf_slot_prefix_mismatches + 16 <= u64::MAX,
            old(findings).stats.storage_tries_walked < u64::MAX,
        ensures
            (final(self)@, final(findings)@) == visited(
                old(self)@,
                old(findings)@,
                item@,
                frames_view(clusters@),
                scope,
            ),
            leaf_sum(final(self)@.accounts) <= leaf_sum(old(self)@.accounts) + leaf_sum(
                frames_view(clusters@),
            ),
            leaf_sum(final(self)@.storage) <= leaf_sum(old(self)@.storage) + leaf_sum(
                frames_view(clusters@),
            ),
            final(findings).tallied(),
            same_scans(
                final(findings).stats,
                (IdentifyStats {
                    storage_tries_walked: (old(findings).stats.storage_tries_walked + if opens_trie(
                        old(self)@,
                        item@,
                        scope,
                    ) {
                        1int
                    } else {
                        0
                    }) as u64,
                    leaf_slot_prefix_mismatches: (old(findings).stats.leaf_slot_prefix_mismatches
                        + if skipped(item@, scope) {
                        0
                    } else {
                        empty_clusters(frames_view(clusters@))
                    }) as u64,
                    ..old(findings).stats
                }),
            ),
    {
        match item {
            BranchItem::Account(path, branch) => {
                let ctx: EmitCtx = account_context(scope);
                fold_branch(&mut self.account_stack, path.clone(), branch, clusters, &ctx, findings);
            },
            BranchItem::Storage(owner, path, branch) => {
                if !scope.descend_storage() {
                    return;
                }
                let same: bool = match &self.storage_owner {
                    Some(open) => same_hash(open, owner),
                    None => false,
                };
                if !same {
                    let mut done: Vec<NodeFrame> = Vec::new();
                    std::mem::swap(&mut done, &mut self.storage_stack);
                    match self.storage_owner {
                        Some(previous) => {
                            let ctx: EmitCtx = storage_context(&previous);
                            finalize_walk(done, None, &ctx, findings);
                        },
                        None => {
                            assert(findings@ =~= old(findings)@ + storage_output(old(self)@));
                        },
                    }
                    self.storage_owner = Some(*owner);
                    findings.stats.storage_tries_walked = findings.stats.storage_tries_walked + 1;
                    assert(frames_view(self.storage_stack@) =~= Seq::<FrameView>::empty());
                }
                let ctx: EmitCtx = storage_context(owner);
                fold_branch(&mut self.storage_stack, path.clone(), branch, clusters, &ctx, findings);
            },
        }
    }

    /// Ends the walk: the last storage trie, then the account trie, whose root hash is the state
    /// root. The root hash of a storage trie is known only where its root branch holds it.
    pub fn finish(self, state_root: &B256, scope: Scope, findings: &mut Findings)
        requires
            leaf_sum(self@.accounts) <= u64::MAX,
            leaf_sum(self@.storage) <= u64::MAX,
            old(findings).tallied(),
        ensures
            final(findings)@ == finished(self@, old(findings)@, state_root@, scope),
            final(findings).tallied(),
            same_scans(final(findings).stats, old(findings).stats),
    {
        match self.storage_owner {
            Some(owner) => {
                let ctx: EmitCtx = storage_context(&owner);
                finalize_walk(self.storage_stack, None, &ctx, findings);
            },
            None => {
                assert(findings@ =~= old(findings)@ + storage_output(self@));
            },
        }
        let ctx: EmitCtx = account_context(scope);
        finalize_walk(self.account_stack, Some(*state_root), &ctx, findings);
    }
}

/// The trie that an item belongs to.
pub open spec fn item_ctx(item: ItemView, scope: Scope) -> CtxView {
    match item.owner {
        None => account_ctx(scope),
        Some(owner) => storage_ctx(owner),
    }
}

} // verus!
