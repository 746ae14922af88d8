//! What makes the maximal inactive subtrees of a trie maximal: each stands at a node whose leaves
//! are all inactive, none stands below another, and each such node is one of them or below one.
use vstd::multiset::Multiset;
use vstd::prelude::*;

use crate::identifier::{child_hash, subtree_at, BranchView, CtxView, FrameView, SubtreeView};
use crate::identify_laws::{
    inactive, leaves, maximal, maximal_below, maximal_cluster, maximal_clusters, maximal_inner,
    nibble_at, Tree,
};
use crate::nibbles::{all_nibbles, hex_of, lemma_hex_digit, starts_with};

verus! {

/// `text` begins with `prefix`.
pub open spec fn text_under(text: Seq<char>, prefix: Seq<char>) -> bool {
    &&& prefix.len() <= text.len()
    &&& forall|i: int| 0 <= i < prefix.len() ==> text[i] == prefix[i]
}

/// The paths of the slots of a branch: those of the branches below it, then those of clusters.
pub open spec fn slot_path(tree: Tree, i: int) -> Seq<u8> {
    if i < tree.inner.len() {
        tree.inner[i].path
    } else {
        tree.clusters[i - tree.inner.len()].path
    }
}

/// The number of slots of a branch that are taken.
pub open spec fn slot_count(tree: Tree) -> int {
    (tree.inner.len() + tree.clusters.len()) as int
}

/// A tree as tries are: slots stand below their branch, and none below another.
pub open spec fn slots_apart(tree: Tree) -> bool
    decreases tree, 0int,
{
    &&& all_nibbles(tree.path)
    &&& all_slots_apart(tree.inner, tree.inner.len() as int)
    &&& forall|i: int|
        0 <= i < slot_count(tree) ==> all_nibbles(#[trigger] slot_path(tree, i)) && starts_with(
            slot_path(tree, i),
            tree.path,
        )
    &&& forall|i: int, j: int|
        0 <= i < slot_count(tree) && 0 <= j < slot_count(tree) && i != j ==> !starts_with(
            #[trigger] slot_path(tree, i),
            #[trigger] slot_path(tree, j),
        )
}

/// The same of the first `n` of some trees.
pub open spec fn all_slots_apart(trees: Seq<Tree>, n: int) -> bool
    decreases trees, n,
{
    if n <= 0 || n > trees.len() {
        true
    } else {
        all_slots_apart(trees, n - 1) && slots_apart(trees[n - 1])
    }
}

/// `x` is the subtree at some node with a hash, all leaves of which are inactive.
pub open spec fn inactive_node(
    tree: Tree,
    hash: Option<Seq<u8>>,
    x: SubtreeView,
    ctx: CtxView,
) -> bool
    decreases tree, 1int,
{
    ||| inactive(tree) && hash is Some && x == subtree_at(ctx, tree.path, hash->0, leaves(tree))
    ||| inactive_below(tree, x, ctx)
}

/// `x` is the subtree at some such node below the root.
pub open spec fn inactive_below(tree: Tree, x: SubtreeView, ctx: CtxView) -> bool
    decreases tree, 0int,
{
    ||| inactive_inner(
        tree.inner,
        tree.branch,
        tree.path.len(),
        x,
        ctx,
        tree.inner.len() as int,
    )
    ||| exists|i: int|
        0 <= i < tree.clusters.len() && maximal_cluster(
            #[trigger] tree.clusters[i],
            tree.branch,
            ctx,
        ).contains(x)
}

/// `x` is the subtree at some such node of the first `n` branches below a branch.
pub open spec fn inactive_inner(
    trees: Seq<Tree>,
    branch: BranchView,
    depth: nat,
    x: SubtreeView,
    ctx: CtxView,
    n: int,
) -> bool
    decreases trees, n,
{
    if n <= 0 || n > trees.len() {
        false
    } else {
        ||| inactive_inner(trees, branch, depth, x, ctx, n - 1)
        ||| inactive_node(
            trees[n - 1],
            child_hash(branch, nibble_at(trees[n - 1].path, depth)),
            x,
            ctx,
        )
    }
}

/// The text of what begins with a path begins with that path's text.
proof fn lemma_text_under(path: Seq<u8>, prefix: Seq<u8>)
    requires
        starts_with(path, prefix),
    ensures
        text_under(hex_of(path), hex_of(prefix)),
{
}

/// Texts below paths that stand apart stand apart.
proof fn lemma_texts_apart(a: Seq<u8>, b: Seq<u8>, x: Seq<char>, y: Seq<char>)
    requires
        all_nibbles(a),
        all_nibbles(b),
        !starts_with(a, b),
        !starts_with(b, a),
        text_under(x, hex_of(a)),
        text_under(y, hex_of(b)),
    ensures
        !text_under(x, y),
{
    if text_under(x, y) {
        let n = if a.len() <= b.len() {
            a.len()
        } else {
            b.len()
        };
        assert forall|i: int| 0 <= i < n implies a[i] == b[i] by {
            assert(x[i] == hex_of(a)[i]);
            assert(y[i] == hex_of(b)[i]);
            assert(x[i] == y[i]);
            lemma_hex_digit(a[i]);
            lemma_hex_digit(b[i]);
        }
        assert(starts_with(a, b) || starts_with(b, a));
    }
}

/// One of some trees is as the others are.
pub proof fn lemma_slots_apart_at(trees: Seq<Tree>, n: int, i: int)
    requires
        0 <= i < n <= trees.len(),
        all_slots_apart(trees, n),
    ensures
        slots_apart(trees[i]),
    decreases n,
{
    if i < n - 1 {
        lemma_slots_apart_at(trees, n - 1, i);
    }
}

/// A node of a tree stands at or below its root.
proof fn lemma_node_under(tree: Tree, hash: Option<Seq<u8>>, x: SubtreeView, ctx: CtxView)
    requires
        slots_apart(tree),
        inactive_node(tree, hash, x, ctx),
    ensures
        text_under(x.path, hex_of(tree.path)),
    decreases tree, 1int,
{
    if !(x == subtree_at(ctx, tree.path, hash->0, leaves(tree))) {
        if inactive_inner(
            tree.inner,
            tree.branch,
            tree.path.len(),
            x,
            ctx,
            tree.inner.len() as int,
        ) {
            let i = lemma_inner_at(tree, x, ctx, tree.inner.len() as int);
            assert(slot_path(tree, i) == tree.inner[i].path);
            lemma_text_under(tree.inner[i].path, tree.path);
        } else {
            let i = choose|i: int|
                0 <= i < tree.clusters.len() && maximal_cluster(
                    #[trigger] tree.clusters[i],
                    tree.branch,
                    ctx,
                ).contains(x);
            assert(slot_path(tree, tree.inner.len() + i) == tree.clusters[i].path);
            lemma_text_under(tree.clusters[i].path, tree.path);
        }
    }
}

/// A node of the branches below a branch is a node of one of them, and stands below it.
pub proof fn lemma_inner_at(tree: Tree, x: SubtreeView, ctx: CtxView, n: int) -> (i: int)
    requires
        slots_apart(tree),
        0 <= n <= tree.inner.len(),
        inactive_inner(tree.inner, tree.branch, tree.path.len(), x, ctx, n),
    ensures
        0 <= i < n,
        inactive_node(
            tree.inner[i],
            child_hash(tree.branch, nibble_at(tree.inner[i].path, tree.path.len())),
            x,
            ctx,
        ),
        text_under(x.path, hex_of(tree.inner[i].path)),
    decreases tree, 0int, n,
{
    let kid = tree.inner[n - 1];
    let hash = child_hash(tree.branch, nibble_at(kid.path, tree.path.len()));
    if inactive_node(kid, hash, x, ctx) {
        lemma_slots_apart_at(tree.inner, tree.inner.len() as int, n - 1);
        lemma_node_under(kid, hash, x, ctx);
        n - 1
    } else {
        lemma_inner_at(tree, x, ctx, n - 1)
    }
}

/// What one slot of a branch adds to the maximal inactive subtrees.
spec fn slot_maximal(tree: Tree, i: int, ctx: CtxView) -> Multiset<SubtreeView> {
    if i < tree.inner.len() {
        maximal(
            tree.inner[i],
            child_hash(tree.branch, nibble_at(tree.inner[i].path, tree.path.len())),
            ctx,
        )
    } else {
        maximal_cluster(tree.clusters[i - tree.inner.len()], tree.branch, ctx)
    }
}

/// What the first `n` slots of a branch add.
spec fn slots_maximal(tree: Tree, ctx: CtxView, n: int) -> Multiset<SubtreeView>
    decreases n,
{
    if n <= 0 {
        Multiset::empty()
    } else {
        slots_maximal(tree, ctx, n - 1).add(slot_maximal(tree, n - 1, ctx))
    }
}

/// The slots of a branch add up to what is below it.
proof fn lemma_slots_add_up(tree: Tree, ctx: CtxView, n: int)
    requires
        0 <= n <= slot_count(tree),
    ensures
        slots_maximal(tree, ctx, n) == (if n <= tree.inner.len() {
            maximal_inner(tree.inner, tree.branch, tree.path.len(), ctx, n)
        } else {
            maximal_inner(
                tree.inner,
                tree.branch,
                tree.path.len(),
                ctx,
                tree.inner.len() as int,
            ).add(
                maximal_clusters(tree.clusters, tree.branch, ctx, n - tree.inner.len()),
            )
        }),
    decreases n,
{
    if n > 0 {
        lemma_slots_add_up(tree, ctx, n - 1);
        if n > tree.inner.len() {
            let inner = maximal_inner(
                tree.inner,
                tree.branch,
                tree.path.len(),
                ctx,
                tree.inner.len() as int,
            );
            let rest = maximal_clusters(tree.clusters, tree.branch, ctx, n - tree.inner.len());
            let k = n - tree.inner.len();
            let before = maximal_clusters(tree.clusters, tree.branch, ctx, k - 1);
            let last = maximal_cluster(tree.clusters[k - 1], tree.branch, ctx);
            assert(slot_maximal(tree, n - 1, ctx) == last);
            assert(rest == before.add(last));
            assert(slots_maximal(tree, ctx, n - 1) =~= inner.add(before));
            assert(slots_maximal(tree, ctx, n) =~= inner.add(rest));
        }
    }
}

/// The subtrees stand apart, each is there once, and each is one of an inactive node.
pub open spec fn apart(subtrees: Multiset<SubtreeView>) -> bool {
    &&& forall|x: SubtreeView| #[trigger] subtrees.count(x) <= 1
    &&& forall|x: SubtreeView, y: SubtreeView|
        #[trigger] subtrees.contains(x) && #[trigger] subtrees.contains(y) && x != y
            ==> !text_under(x.path, y.path)
}

/// The maximal inactive subtrees of a trie stand at nodes whose leaves are all inactive, each is
/// there once, and none stands below another.
pub proof fn lemma_maximal_stand_apart(tree: Tree, hash: Option<Seq<u8>>, ctx: CtxView)
    requires
        slots_apart(tree),
    ensures
        apart(maximal(tree, hash, ctx)),
        forall|x: SubtreeView| #[trigger]
            maximal(tree, hash, ctx).contains(x) ==> inactive_node(tree, hash, x, ctx),
    decreases tree, 1int, 0int,
{
    if !(inactive(tree) && hash is Some) {
        let n = slot_count(tree);
        lemma_slots_stand_apart(tree, ctx, n);
        lemma_slots_add_up(tree, ctx, n);
        if tree.clusters.len() == 0 {
            assert(maximal_below(tree, ctx) =~= slots_maximal(tree, ctx, n));
        }
        assert(maximal(tree, hash, ctx) == slots_maximal(tree, ctx, n));
    }
}

/// A node of one of the branches below a branch is a node of the branches below it.
proof fn lemma_inner_has(
    trees: Seq<Tree>,
    branch: BranchView,
    depth: nat,
    x: SubtreeView,
    ctx: CtxView,
    n: int,
    i: int,
)
    requires
        0 <= i < n <= trees.len(),
        inactive_node(trees[i], child_hash(branch, nibble_at(trees[i].path, depth)), x, ctx),
    ensures
        inactive_inner(trees, branch, depth, x, ctx, n),
    decreases n,
{
    if i < n - 1 {
        lemma_inner_has(trees, branch, depth, x, ctx, n - 1, i);
    }
}

/// What one slot adds stands apart, stands below the slot, and is of inactive nodes.
proof fn lemma_slot_stands_apart(tree: Tree, ctx: CtxView, i: int)
    requires
        slots_apart(tree),
        0 <= i < slot_count(tree),
    ensures
        apart(slot_maximal(tree, i, ctx)),
        forall|x: SubtreeView| #[trigger]
            slot_maximal(tree, i, ctx).contains(x) ==> inactive_below(tree, x, ctx) && text_under(
                x.path,
                hex_of(slot_path(tree, i)),
            ),
    decreases tree, 0int, 0int,
{
    if i < tree.inner.len() {
        let kid = tree.inner[i];
        let hash = child_hash(tree.branch, nibble_at(kid.path, tree.path.len()));
        lemma_slots_apart_at(tree.inner, tree.inner.len() as int, i);
        lemma_maximal_stand_apart(kid, hash, ctx);
        assert forall|x: SubtreeView| #[trigger]
            slot_maximal(tree, i, ctx).contains(x) implies inactive_below(tree, x, ctx)
            && text_under(x.path, hex_of(slot_path(tree, i))) by {
            assert(maximal(kid, hash, ctx).contains(x));
            lemma_node_under(kid, hash, x, ctx);
            lemma_inner_has(
                tree.inner,
                tree.branch,
                tree.path.len(),
                x,
                ctx,
                tree.inner.len() as int,
                i,
            );
        }
    } else {
        let k = i - tree.inner.len();
        let cluster = tree.clusters[k];
        assert(slot_path(tree, i) == cluster.path);
        assert forall|x: SubtreeView| #[trigger]
            slot_maximal(tree, i, ctx).contains(x) implies inactive_below(tree, x, ctx)
            && text_under(x.path, hex_of(slot_path(tree, i))) by {
            assert(maximal_cluster(tree.clusters[k], tree.branch, ctx).contains(x));
        }
    }
}

/// What the first `n` slots add stands apart, and each of it stands below one of the slots.
proof fn lemma_slots_stand_apart(tree: Tree, ctx: CtxView, n: int)
    requires
        slots_apart(tree),
        0 <= n <= slot_count(tree),
    ensures
        apart(slots_maximal(tree, ctx, n)),
        forall|x: SubtreeView| #[trigger]
            slots_maximal(tree, ctx, n).contains(x) ==> inactive_below(tree, x, ctx) && exists|i:
                int|
                0 <= i < n && text_under(x.path, hex_of(#[trigger] slot_path(tree, i))),
    decreases tree, 0int, n + 1,
{
    if n > 0 {
        lemma_slots_stand_apart(tree, ctx, n - 1);
        lemma_slot_stands_apart(tree, ctx, n - 1);
        let a = slots_maximal(tree, ctx, n - 1);
        let b = slot_maximal(tree, n - 1, ctx);
        let all = slots_maximal(tree, ctx, n);
        assert forall|x: SubtreeView, y: SubtreeView|
            a.contains(x) && b.contains(y) implies !text_under(x.path, y.path) && !text_under(
            y.path,
            x.path,
        ) by {
            let i = choose|i: int|
                0 <= i < n - 1 && text_under(x.path, hex_of(#[trigger] slot_path(tree, i)));
            lemma_texts_apart(slot_path(tree, i), slot_path(tree, n - 1), x.path, y.path);
            lemma_texts_apart(slot_path(tree, n - 1), slot_path(tree, i), y.path, x.path);
        }
        assert forall|x: SubtreeView| #[trigger] all.count(x) <= 1 by {
            if a.contains(x) && b.contains(x) {
                assert(text_under(x.path, x.path));
            }
        }
        assert forall|x: SubtreeView, y: SubtreeView|
            #[trigger] all.contains(x) && #[trigger] all.contains(y) && x != y implies !text_under(
            x.path,
            y.path,
        ) by {
            assert(a.contains(x) || b.contains(x));
            assert(a.contains(y) || b.contains(y));
        }
        assert forall|x: SubtreeView| #[trigger] all.contains(x) implies inactive_below(
            tree,
            x,
            ctx,
        ) && exists|i: int|
            0 <= i < n && text_under(x.path, hex_of(#[trigger] slot_path(tree, i))) by {
            assert(a.contains(x) || b.contains(x));
            if b.contains(x) {
                assert(text_under(x.path, hex_of(slot_path(tree, n - 1))));
            } else {
                let i = choose|i: int|
                    0 <= i < n - 1 && text_under(x.path, hex_of(#[trigger] slot_path(tree, i)));
                assert(0 <= i < n);
            }
        }
    }
}

/// Every node with a hash, all leaves of which are inactive, is one of the maximal inactive
/// subtrees or stands below one.
pub proof fn lemma_maximal_cover(
    tree: Tree,
    hash: Option<Seq<u8>>,
    x: SubtreeView,
    ctx: CtxView,
) -> (top: SubtreeView)
    requires
        slots_apart(tree),
        inactive_node(tree, hash, x, ctx),
    ensures
        maximal(tree, hash, ctx).contains(top),
        text_under(x.path, top.path),
    decreases tree,
{
    if inactive(tree) && hash is Some {
        lemma_node_under(tree, hash, x, ctx);
        subtree_at(ctx, tree.path, hash->0, leaves(tree))
    } else if inactive_inner(
        tree.inner,
        tree.branch,
        tree.path.len(),
        x,
        ctx,
        tree.inner.len() as int,
    ) {
        let i = lemma_inner_at(tree, x, ctx, tree.inner.len() as int);
        let kid = tree.inner[i];
        let kid_hash = child_hash(tree.branch, nibble_at(kid.path, tree.path.len()));
        lemma_slots_apart_at(tree.inner, tree.inner.len() as int, i);
        let top = lemma_maximal_cover(kid, kid_hash, x, ctx);
        lemma_inner_contains(
            tree.inner,
            tree.branch,
            tree.path.len(),
            ctx,
            tree.inner.len() as int,
            i,
            top,
        );
        top
    } else {
        let i = choose|i: int|
            0 <= i < tree.clusters.len() && maximal_cluster(
                #[trigger] tree.clusters[i],
                tree.branch,
                ctx,
            ).contains(x);
        lemma_clusters_contain(
            tree.clusters,
            tree.branch,
            ctx,
            tree.clusters.len() as int,
            i,
            x,
        );
        x
    }
}

/// The maximal inactive subtrees of one branch are among those of all.
proof fn lemma_inner_contains(
    trees: Seq<Tree>,
    branch: BranchView,
    depth: nat,
    ctx: CtxView,
    n: int,
    i: int,
    x: SubtreeView,
)
    requires
        0 <= i < n <= trees.len(),
        maximal(trees[i], child_hash(branch, nibble_at(trees[i].path, depth)), ctx).contains(x),
    ensures
        maximal_inner(trees, branch, depth, ctx, n).contains(x),
    decreases n,
{
    if i < n - 1 {
        lemma_inner_contains(trees, branch, depth, ctx, n - 1, i, x);
    }
}

/// The maximal inactive subtree of one cluster is among those of all.
proof fn lemma_clusters_contain(
    clusters: Seq<FrameView>,
    branch: BranchView,
    ctx: CtxView,
    n: int,
    i: int,
    x: SubtreeView,
)
    requires
        0 <= i < n <= clusters.len(),
        maximal_cluster(clusters[i], branch, ctx).contains(x),
    ensures
        maximal_clusters(clusters, branch, ctx, n).contains(x),
    decreases n,
{
    if i < n - 1 {
        lemma_clusters_contain(clusters, branch, ctx, n - 1, i, x);
    }
}

} // verus!
