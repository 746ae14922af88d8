//! What the walk reports of a trie: exactly the maximal subtrees whose leaves are all inactive.
use vstd::prelude::*;
use vstd::multiset::Multiset;

use crate::identifier::{
    all_folded, child_hash, closed, flushed, folded, new_frame, root_output, subtree_at, top_below,
    walk_output, BranchView, Closing, CtxView, FrameView, SubtreeView,
};
use crate::nibbles::starts_with;
use crate::walk::{branch_folded, clusters_folded};

verus! {

/// A trie, or a part of one: a branch, the branches right below it, and the clusters of leaves in
/// its other slots.
pub struct Tree {
    pub path: Seq<u8>,
    pub branch: BranchView,
    pub inner: Seq<Tree>,
    pub clusters: Seq<FrameView>,
}

/// A branch and the clusters below it, as a walk comes to them.
pub struct Visit {
    pub path: Seq<u8>,
    pub branch: BranchView,
    pub clusters: Seq<FrameView>,
}

/// The nibble by which `path` leaves a branch at the given depth.
pub open spec fn nibble_at(path: Seq<u8>, depth: nat) -> int {
    path[depth as int] as int
}

/// None of some trees stands below another.
pub open spec fn siblings_apart(trees: Seq<Tree>) -> bool {
    forall|i: int, j: int|
        0 <= i < trees.len() && 0 <= j < trees.len() && i != j ==> !starts_with(
            (#[trigger] trees[i]).path,
            (#[trigger] trees[j]).path,
        )
}

/// Every branch stands below the one it belongs to and apart from its siblings, and every cluster
/// is one of leaves right below its branch.
pub open spec fn well_placed(tree: Tree) -> bool
    decreases tree, 0int,
{
    &&& all_well_placed(tree.inner, tree.inner.len() as int)
    &&& siblings_apart(tree.inner)
    &&& forall|i: int|
        0 <= i < tree.inner.len() ==> (#[trigger] tree.inner[i]).path.len() > tree.path.len()
            && starts_with(tree.inner[i].path, tree.path)
    &&& forall|i: int|
        0 <= i < tree.clusters.len() ==> (#[trigger] tree.clusters[i]).candidates.len() == 0
            && tree.clusters[i].path.len() == tree.path.len() + 1 && starts_with(
            tree.clusters[i].path,
            tree.path,
        )
}

/// The first `n` of some trees are well placed.
pub open spec fn all_well_placed(trees: Seq<Tree>, n: int) -> bool
    decreases trees, n,
{
    if n <= 0 || n > trees.len() {
        true
    } else {
        all_well_placed(trees, n - 1) && well_placed(trees[n - 1])
    }
}

/// The branches of a tree as a walk comes to them, children first.
pub open spec fn visits(tree: Tree) -> Seq<Visit>
    decreases tree, 0int,
{
    visits_of_all(tree.inner, tree.inner.len() as int).push(
        Visit { path: tree.path, branch: tree.branch, clusters: tree.clusters },
    )
}

/// The branches of the first `n` of some trees, one tree after another.
pub open spec fn visits_of_all(trees: Seq<Tree>, n: int) -> Seq<Visit>
    decreases trees, n,
{
    if n <= 0 || n > trees.len() {
        Seq::empty()
    } else {
        visits_of_all(trees, n - 1) + visits(trees[n - 1])
    }
}

/// All leaves of a cluster are inactive, as far as there are any.
pub open spec fn quiet(cluster: FrameView) -> bool {
    cluster.leaf_count == 0 || cluster.all_inactive
}

/// All leaves of a tree are inactive.
pub open spec fn inactive(tree: Tree) -> bool
    decreases tree, 0int,
{
    &&& all_inactive(tree.inner, tree.inner.len() as int)
    &&& forall|i: int| 0 <= i < tree.clusters.len() ==> quiet(#[trigger] tree.clusters[i])
}

/// All leaves of the first `n` of some trees are inactive.
pub open spec fn all_inactive(trees: Seq<Tree>, n: int) -> bool
    decreases trees, n,
{
    if n <= 0 || n > trees.len() {
        true
    } else {
        all_inactive(trees, n - 1) && inactive(trees[n - 1])
    }
}

/// The number of leaves of a tree.
pub open spec fn leaves(tree: Tree) -> nat
    decreases tree, 0int,
{
    leaves_of_all(tree.inner, tree.inner.len() as int) + cluster_leaves(
        tree.clusters,
        tree.clusters.len() as int,
    )
}

/// The number of leaves of the first `n` of some trees.
pub open spec fn leaves_of_all(trees: Seq<Tree>, n: int) -> nat
    decreases trees, n,
{
    if n <= 0 || n > trees.len() {
        0
    } else {
        leaves_of_all(trees, n - 1) + leaves(trees[n - 1])
    }
}

/// The number of leaves of the first `n` of some clusters.
pub open spec fn cluster_leaves(clusters: Seq<FrameView>, n: int) -> nat
    decreases n,
{
    if n <= 0 || n > clusters.len() {
        0
    } else {
        cluster_leaves(clusters, n - 1) + clusters[n - 1].leaf_count
    }
}

/// The maximal inactive subtrees of a tree whose root has this hash: the whole tree, where all its
/// leaves are inactive and it has a hash to stand by, and otherwise those below its root.
pub open spec fn maximal(tree: Tree, hash: Option<Seq<u8>>, ctx: CtxView) -> Multiset<SubtreeView>
    decreases tree, 1int,
{
    if inactive(tree) && hash is Some {
        Multiset::singleton(subtree_at(ctx, tree.path, hash->0, leaves(tree)))
    } else {
        maximal_below(tree, ctx)
    }
}

/// The maximal inactive subtrees below a tree's root.
pub open spec fn maximal_below(tree: Tree, ctx: CtxView) -> Multiset<SubtreeView>
    decreases tree, 0int,
{
    maximal_inner(tree.inner, tree.branch, tree.path.len(), ctx, tree.inner.len() as int).add(
        maximal_clusters(tree.clusters, tree.branch, ctx, tree.clusters.len() as int),
    )
}

/// The maximal inactive subtrees of the first `n` branches below a branch at this depth.
pub open spec fn maximal_inner(
    trees: Seq<Tree>,
    branch: BranchView,
    depth: nat,
    ctx: CtxView,
    n: int,
) -> Multiset<SubtreeView>
    decreases trees, n,
{
    if n <= 0 || n > trees.len() {
        Multiset::empty()
    } else {
        maximal_inner(trees, branch, depth, ctx, n - 1).add(
            maximal(trees[n - 1], child_hash(branch, nibble_at(trees[n - 1].path, depth)), ctx),
        )
    }
}

/// The maximal inactive subtree that a cluster of leaves is, if it is one.
pub open spec fn maximal_cluster(
    cluster: FrameView,
    branch: BranchView,
    ctx: CtxView,
) -> Multiset<SubtreeView> {
    match child_hash(branch, cluster.path.last() as int) {
        Some(hash) if cluster.leaf_count > 0 && cluster.all_inactive => Multiset::singleton(
            subtree_at(ctx, cluster.path, hash, cluster.leaf_count),
        ),
        _ => Multiset::empty(),
    }
}

/// The maximal inactive subtrees of the first `n` clusters.
pub open spec fn maximal_clusters(
    clusters: Seq<FrameView>,
    branch: BranchView,
    ctx: CtxView,
    n: int,
) -> Multiset<SubtreeView>
    decreases n,
{
    if n <= 0 || n > clusters.len() {
        Multiset::empty()
    } else {
        maximal_clusters(clusters, branch, ctx, n - 1).add(
            maximal_cluster(clusters[n - 1], branch, ctx),
        )
    }
}

/// The frames of a trie and what was reported, after the first `n` visits.
pub open spec fn after_visits(
    stack: Seq<FrameView>,
    out: Seq<SubtreeView>,
    visits: Seq<Visit>,
    ctx: CtxView,
    n: int,
) -> (Seq<FrameView>, Seq<SubtreeView>)
    decreases n,
{
    if n <= 0 || n > visits.len() {
        (stack, out)
    } else {
        let (frames, reported) = after_visits(stack, out, visits, ctx, n - 1);
        let v = visits[n - 1];
        branch_folded(frames, reported, v.path, v.branch, v.clusters, ctx)
    }
}

/// The frame of a tree, and what is reported on the way to it.
spec fn outcome(tree: Tree, ctx: CtxView) -> (FrameView, Seq<SubtreeView>)
    decreases tree, 0int,
{
    let (frames, out) = outcomes(tree.inner, ctx, tree.inner.len() as int);
    let (stack, reported) = branch_folded(
        frames,
        out,
        tree.path,
        tree.branch,
        tree.clusters,
        ctx,
    );
    (stack.last(), reported)
}

/// The frames of the first `n` of some trees, and what is reported on the way to them.
spec fn outcomes(trees: Seq<Tree>, ctx: CtxView, n: int) -> (Seq<FrameView>, Seq<SubtreeView>)
    decreases trees, n,
{
    if n <= 0 || n > trees.len() {
        (Seq::empty(), Seq::empty())
    } else {
        let (frames, out) = outcomes(trees, ctx, n - 1);
        let (frame, reported) = outcome(trees[n - 1], ctx);
        (frames.push(frame), out + reported)
    }
}

/// A frame's path stays while children are folded in.
proof fn lemma_closed_path(state: Closing, branch: BranchView, ctx: CtxView)
    ensures
        closed(state, branch, ctx).frame.path == state.frame.path,
        closed(state, branch, ctx).frame.root_hash == state.frame.root_hash,
    decreases state.stack.len(),
{
    if top_below(state.stack, state.frame.path) {
        let child = state.stack.last();
        lemma_closed_path(
            Closing {
                stack: state.stack.drop_last(),
                frame: folded(
                    state.frame,
                    child,
                    child_hash(branch, child.path[state.frame.path.len() as int] as int),
                    ctx,
                ),
                out: state.out + flushed(child, ctx),
            },
            branch,
            ctx,
        );
    }
}

/// What stands below the frames that a branch closes, and what was reported before, changes
/// nothing.
proof fn lemma_closed_on_top(
    base: Seq<FrameView>,
    told: Seq<SubtreeView>,
    top: Seq<FrameView>,
    frame: FrameView,
    out: Seq<SubtreeView>,
    branch: BranchView,
    ctx: CtxView,
)
    requires
        !top_below(base, frame.path),
        forall|i: int|
            0 <= i < top.len() ==> (#[trigger] top[i]).path.len() > frame.path.len()
                && starts_with(top[i].path, frame.path),
    ensures
        ({
            let alone = closed(Closing { stack: top, frame, out }, branch, ctx);
            let both = closed(
                Closing { stack: base + top, frame, out: told + out },
                branch,
                ctx,
            );
            &&& alone.stack.len() == 0
            &&& both.stack == base
            &&& both.frame == alone.frame
            &&& both.out == told + alone.out
        }),
    decreases top.len(),
{
    if top.len() == 0 {
        assert(base + top =~= base);
    } else {
        let child = top.last();
        assert((base + top).last() == child);
        assert((base + top).drop_last() =~= base + top.drop_last());
        let next = folded(
            frame,
            child,
            child_hash(branch, child.path[frame.path.len() as int] as int),
            ctx,
        );
        let more = out + flushed(child, ctx);
        assert((told + out) + flushed(child, ctx) =~= told + more);
        lemma_closed_on_top(base, told, top.drop_last(), next, more, branch, ctx);
    }
}

/// What was reported before changes nothing when clusters are folded in.
proof fn lemma_clusters_on_top(
    frame: FrameView,
    told: Seq<SubtreeView>,
    out: Seq<SubtreeView>,
    branch: BranchView,
    clusters: Seq<FrameView>,
    ctx: CtxView,
    n: int,
)
    requires
        0 <= n <= clusters.len(),
    ensures
        ({
            let alone = clusters_folded(frame, out, branch, clusters, ctx, n);
            let both = clusters_folded(frame, told + out, branch, clusters, ctx, n);
            &&& both.0 == alone.0
            &&& both.1 == told + alone.1
            &&& alone.0.path == frame.path
            &&& alone.0.root_hash == frame.root_hash
        }),
    decreases n,
{
    if n > 0 {
        lemma_clusters_on_top(frame, told, out, branch, clusters, ctx, n - 1);
        let before = clusters_folded(frame, out, branch, clusters, ctx, n - 1).1;
        assert((told + before) + flushed(clusters[n - 1], ctx) =~= told + (before + flushed(
            clusters[n - 1],
            ctx,
        )));
    }
}

/// Folding in a branch on top of other frames gives what it gives alone, on top of those frames.
proof fn lemma_branch_on_top(
    base: Seq<FrameView>,
    told: Seq<SubtreeView>,
    top: Seq<FrameView>,
    out: Seq<SubtreeView>,
    path: Seq<u8>,
    branch: BranchView,
    clusters: Seq<FrameView>,
    ctx: CtxView,
)
    requires
        !top_below(base, path),
        forall|i: int|
            0 <= i < top.len() ==> (#[trigger] top[i]).path.len() > path.len() && starts_with(
                top[i].path,
                path,
            ),
    ensures
        ({
            let alone = branch_folded(top, out, path, branch, clusters, ctx);
            let both = branch_folded(base + top, told + out, path, branch, clusters, ctx);
            &&& alone.0.len() == 1
            &&& both.0 == base.push(alone.0.last())
            &&& both.1 == told + alone.1
            &&& alone.0.last().path == path
            &&& alone.0.last().root_hash == branch.root_hash
        }),
{
    let frame = new_frame(path, branch.root_hash);
    lemma_closed_on_top(base, told, top, frame, out, branch, ctx);
    let alone = closed(Closing { stack: top, frame, out }, branch, ctx);
    lemma_closed_path(Closing { stack: top, frame, out }, branch, ctx);
    lemma_clusters_on_top(
        alone.frame,
        told,
        alone.out,
        branch,
        clusters,
        ctx,
        clusters.len() as int,
    );
}

/// Visits one after another.
proof fn lemma_visits_chain(
    stack: Seq<FrameView>,
    out: Seq<SubtreeView>,
    a: Seq<Visit>,
    b: Seq<Visit>,
    ctx: CtxView,
    n: int,
)
    requires
        0 <= n <= b.len(),
    ensures
        ({
            let mid = after_visits(stack, out, a, ctx, a.len() as int);
            after_visits(stack, out, a + b, ctx, a.len() + n) == after_visits(
                mid.0,
                mid.1,
                b,
                ctx,
                n,
            )
        }),
    decreases n,
{
    if n == 0 {
        lemma_visits_prefix(stack, out, a, b, ctx, a.len() as int);
    } else {
        lemma_visits_chain(stack, out, a, b, ctx, n - 1);
        assert((a + b)[a.len() + n - 1] == b[n - 1]);
    }
}

/// Visits that come later do not count.
pub proof fn lemma_visits_prefix(
    stack: Seq<FrameView>,
    out: Seq<SubtreeView>,
    a: Seq<Visit>,
    b: Seq<Visit>,
    ctx: CtxView,
    n: int,
)
    requires
        0 <= n <= a.len(),
    ensures
        after_visits(stack, out, a + b, ctx, n) == after_visits(stack, out, a, ctx, n),
    decreases n,
{
    if n > 0 {
        lemma_visits_prefix(stack, out, a, b, ctx, n - 1);
        assert((a + b)[n - 1] == a[n - 1]);
    }
}

/// A walk through a tree leaves one frame more, that of the tree.
proof fn lemma_tree_walk(
    tree: Tree,
    base: Seq<FrameView>,
    told: Seq<SubtreeView>,
    ctx: CtxView,
)
    requires
        well_placed(tree),
        !top_below(base, tree.path),
    ensures
        after_visits(base, told, visits(tree), ctx, visits(tree).len() as int) == (
            base.push(outcome(tree, ctx).0),
            told + outcome(tree, ctx).1,
        ),
        outcome(tree, ctx).0.path == tree.path,
        outcome(tree, ctx).0.root_hash == tree.branch.root_hash,
    decreases tree, 0int,
{
    let n = tree.inner.len() as int;
    let before = visits_of_all(tree.inner, n);
    let last = Visit { path: tree.path, branch: tree.branch, clusters: tree.clusters };
    lemma_trees_walk(tree.inner, tree.path, base, told, ctx, n);
    let (frames, out) = outcomes(tree.inner, ctx, n);
    assert(visits(tree) =~= before + seq![last]);
    lemma_visits_prefix(base, told, before, seq![last], ctx, before.len() as int);
    assert((before + seq![last])[before.len() as int] == last);
    lemma_branch_on_top(
        base,
        told,
        frames,
        out,
        tree.path,
        tree.branch,
        tree.clusters,
        ctx,
    );
}

/// A walk through some trees below a path leaves their frames.
proof fn lemma_trees_walk(
    trees: Seq<Tree>,
    path: Seq<u8>,
    base: Seq<FrameView>,
    told: Seq<SubtreeView>,
    ctx: CtxView,
    n: int,
)
    requires
        0 <= n <= trees.len(),
        all_well_placed(trees, trees.len() as int),
        forall|i: int|
            0 <= i < trees.len() ==> (#[trigger] trees[i]).path.len() > path.len() && starts_with(
                trees[i].path,
                path,
            ),
        !top_below(base, path),
        siblings_apart(trees),
    ensures
        ({
            let all = visits_of_all(trees, n);
            let (frames, out) = outcomes(trees, ctx, n);
            &&& after_visits(base, told, all, ctx, all.len() as int) == (base + frames, told + out)
            &&& frames.len() == n
            &&& forall|i: int| 0 <= i < n ==> (#[trigger] frames[i]).path == trees[i].path
        }),
    decreases trees, n,
{
    if n == 0 {
        assert(base + Seq::<FrameView>::empty() =~= base);
        assert(told + Seq::<SubtreeView>::empty() =~= told);
    } else {
        lemma_trees_walk(trees, path, base, told, ctx, n - 1);
        lemma_well_placed_at(trees, trees.len() as int, n - 1);
        let a = visits_of_all(trees, n - 1);
        let b = visits(trees[n - 1]);
        let (frames, out) = outcomes(trees, ctx, n - 1);
        assert(!top_below(base + frames, trees[n - 1].path)) by {
            if frames.len() > 0 {
                assert((base + frames).last() == frames.last());
                assert(frames.last().path == trees[n - 2].path);
            } else {
                assert(base + frames =~= base);
                if top_below(base, trees[n - 1].path) {
                    assert(starts_with(base.last().path, path));
                }
            }
        }
        lemma_tree_walk(trees[n - 1], base + frames, told + out, ctx);
        lemma_visits_chain(base, told, a, b, ctx, b.len() as int);
        let (frame, reported) = outcome(trees[n - 1], ctx);
        assert((base + frames).push(frame) =~= base + frames.push(frame));
        assert((told + out) + reported =~= told + (out + reported));
    }
}

/// One of some well placed trees is well placed.
proof fn lemma_well_placed_at(trees: Seq<Tree>, n: int, i: int)
    requires
        0 <= i < n <= trees.len(),
        all_well_placed(trees, n),
    ensures
        well_placed(trees[i]),
    decreases n,
{
    if i < n - 1 {
        lemma_well_placed_at(trees, n - 1, i);
    }
}

/// What was reported, without its order.
pub open spec fn bag(subtrees: Seq<SubtreeView>) -> Multiset<SubtreeView> {
    subtrees.to_multiset()
}

/// The order in which things are put together does not matter.
pub proof fn lemma_bag(a: Seq<SubtreeView>, b: Seq<SubtreeView>, x: SubtreeView)
    ensures
        bag(a + b) == bag(a).add(bag(b)),
        bag(a.push(x)) == bag(a).add(Multiset::singleton(x)),
        bag(Seq::empty()) == Multiset::<SubtreeView>::empty(),
        bag(seq![x]) == Multiset::singleton(x),
{
    broadcast use vstd::seq_lib::group_to_multiset_ensures;

    vstd::seq_lib::lemma_multiset_commutative(a, b);
    assert(bag(a.push(x)) =~= bag(a).add(Multiset::singleton(x)));
    assert(bag(Seq::empty()) =~= Multiset::<SubtreeView>::empty());
    assert(seq![x] =~= Seq::<SubtreeView>::empty().push(x));
    assert(bag(seq![x]) =~= Multiset::singleton(x));
}

/// Taking the same things away from two equal collections leaves equal ones.
proof fn lemma_cancel(
    a: Multiset<SubtreeView>,
    b: Multiset<SubtreeView>,
    c: Multiset<SubtreeView>,
)
    requires
        a.add(c) == b.add(c),
    ensures
        a == b,
{
    assert forall|x: SubtreeView| a.count(x) == b.count(x) by {
        assert(a.add(c).count(x) == a.count(x) + c.count(x));
        assert(b.add(c).count(x) == b.count(x) + c.count(x));
    }
    assert(a =~= b);
}

/// A child's share of what its parent's frame and what was reported hold.
proof fn lemma_fold_share(
    frame: FrameView,
    out: Seq<SubtreeView>,
    child: FrameView,
    hash: Option<Seq<u8>>,
    ctx: CtxView,
)
    requires
        ctx.emit_output,
    ensures
        bag(out + flushed(child, ctx)).add(bag(folded(frame, child, hash, ctx).candidates)) == bag(
            out,
        ).add(bag(frame.candidates)).add(
            if child.all_inactive && hash is Some {
                Multiset::singleton(subtree_at(ctx, child.path, hash->0, child.leaf_count))
            } else {
                bag(child.candidates)
            },
        ),
{
    let s = subtree_at(ctx, child.path, hash->0, child.leaf_count);
    lemma_bag(out, flushed(child, ctx), s);
    lemma_bag(frame.candidates, child.candidates, s);
    assert(bag(out + flushed(child, ctx)).add(bag(folded(frame, child, hash, ctx).candidates))
        =~= bag(out).add(bag(frame.candidates)).add(
        if child.all_inactive && hash is Some {
            Multiset::singleton(s)
        } else {
            bag(child.candidates)
        },
    ));
}

/// What a walk through a tree comes to: its frame knows whether all leaves are inactive and how
/// many there are, and the frame and what was reported hold the maximal inactive subtrees below.
proof fn lemma_outcome(tree: Tree, ctx: CtxView)
    requires
        well_placed(tree),
    ensures
        ({
            let (frame, out) = outcome(tree, ctx);
            &&& frame.path == tree.path
            &&& frame.root_hash == tree.branch.root_hash
            &&& frame.all_inactive == inactive(tree)
            &&& frame.leaf_count == leaves(tree)
            &&& inactive(tree) || !ctx.emit_output ==> out.len() == 0
            &&& ctx.emit_output ==> bag(out).add(bag(frame.candidates)) == maximal_below(tree, ctx)
        }),
    decreases tree, 0int,
{
    let n = tree.inner.len() as int;
    let m = tree.clusters.len() as int;
    let (frames, told) = outcomes(tree.inner, ctx, n);
    let start = new_frame(tree.path, tree.branch.root_hash);
    assert(!top_below(Seq::empty(), tree.path));
    lemma_tree_walk(tree, Seq::empty(), Seq::empty(), ctx);
    lemma_outcomes(tree.inner, ctx, n);
    assert forall|k: int| 0 <= k < tree.inner.len() implies {
        let (child, said) = outcome(tree.inner[k], ctx);
        &&& child.path == (#[trigger] tree.inner[k]).path
        &&& child.all_inactive == inactive(tree.inner[k])
        &&& child.leaf_count == leaves(tree.inner[k])
        &&& inactive(tree.inner[k]) ==> said.len() == 0
        &&& ctx.emit_output ==> bag(said).add(bag(child.candidates)) == maximal_below(
            tree.inner[k],
            ctx,
        )
    } by {
        assert(frames[k] == outcome(tree.inner[k], ctx).0);
    }
    lemma_closed_share(tree, start, told, ctx, n);
    let state = closed(Closing { stack: frames, frame: start, out: told }, tree.branch, ctx);
    lemma_clusters_share(state.frame, state.out, tree, ctx, m);
    let (frame, out) = clusters_folded(
        state.frame,
        state.out,
        tree.branch,
        tree.clusters,
        ctx,
        m,
    );
    assert(outcome(tree, ctx) == (frame, out));
    if ctx.emit_output {
        let inner = maximal_inner(tree.inner, tree.branch, tree.path.len(), ctx, n);
        let rest = maximal_clusters(tree.clusters, tree.branch, ctx, m);
        lemma_bag(told, told, subtree_at(ctx, tree.path, tree.path, 0));
        assert(bag(told).add(bag(start.candidates)).add(inner) =~= inner.add(bag(told)));
        lemma_cancel(bag(state.out).add(bag(state.frame.candidates)), inner, bag(told));
        assert(bag(out).add(bag(frame.candidates)) =~= inner.add(rest));
    }
}

/// The same for the first `n` of some trees.
proof fn lemma_outcomes(trees: Seq<Tree>, ctx: CtxView, n: int)
    requires
        0 <= n <= trees.len(),
        all_well_placed(trees, trees.len() as int),
    ensures
        ({
            let (frames, out) = outcomes(trees, ctx, n);
            &&& frames.len() == n
            &&& forall|i: int|
                0 <= i < n ==> {
                    let (frame, told) = outcome(trees[i], ctx);
                    &&& #[trigger] frames[i] == frame
                    &&& frame.path == trees[i].path
                    &&& frame.all_inactive == inactive(trees[i])
                    &&& frame.leaf_count == leaves(trees[i])
                    &&& inactive(trees[i]) ==> told.len() == 0
                    &&& ctx.emit_output ==> bag(told).add(bag(frame.candidates)) == maximal_below(
                        trees[i],
                        ctx,
                    )
                }
            &&& all_inactive(trees, n) || !ctx.emit_output ==> out.len() == 0
        }),
    decreases trees, n,
{
    if n > 0 {
        lemma_outcomes(trees, ctx, n - 1);
        lemma_well_placed_at(trees, trees.len() as int, n - 1);
        lemma_outcome(trees[n - 1], ctx);
        let (frames, _) = outcomes(trees, ctx, n);
        let (before, _) = outcomes(trees, ctx, n - 1);
        assert forall|i: int| 0 <= i < n implies {
            let (frame, told) = outcome(trees[i], ctx);
            &&& #[trigger] frames[i] == frame
            &&& frame.path == trees[i].path
            &&& frame.all_inactive == inactive(trees[i])
            &&& frame.leaf_count == leaves(trees[i])
            &&& inactive(trees[i]) ==> told.len() == 0
            &&& ctx.emit_output ==> bag(told).add(bag(frame.candidates)) == maximal_below(
                trees[i],
                ctx,
            )
        } by {
            if i < n - 1 {
                assert(frames[i] == before[i]);
            }
        }
    }
}

/// What folding the first `n` branches below a branch into its frame comes to.
proof fn lemma_closed_share(
    tree: Tree,
    frame: FrameView,
    out: Seq<SubtreeView>,
    ctx: CtxView,
    n: int,
)
    requires
        well_placed(tree),
        0 <= n <= tree.inner.len(),
        frame.path == tree.path,
        forall|k: int|
            0 <= k < tree.inner.len() ==> {
                let (child, told) = outcome(tree.inner[k], ctx);
                &&& child.path == (#[trigger] tree.inner[k]).path
                &&& child.all_inactive == inactive(tree.inner[k])
                &&& child.leaf_count == leaves(tree.inner[k])
                &&& inactive(tree.inner[k]) ==> told.len() == 0
                &&& ctx.emit_output ==> bag(told).add(bag(child.candidates)) == maximal_below(
                    tree.inner[k],
                    ctx,
                )
            },
    ensures
        ({
            let (frames, told) = outcomes(tree.inner, ctx, n);
            let end = closed(Closing { stack: frames, frame, out }, tree.branch, ctx);
            &&& end.stack.len() == 0
            &&& end.frame.all_inactive == (frame.all_inactive && all_inactive(tree.inner, n))
            &&& end.frame.leaf_count == frame.leaf_count + leaves_of_all(tree.inner, n)
            &&& all_inactive(tree.inner, n) || !ctx.emit_output ==> end.out == out
            &&& ctx.emit_output ==> bag(end.out).add(bag(end.frame.candidates)).add(bag(told))
                == bag(out).add(bag(frame.candidates)).add(
                maximal_inner(tree.inner, tree.branch, tree.path.len(), ctx, n),
            )
        }),
    decreases n,
{
    let (frames, told) = outcomes(tree.inner, ctx, n);
    let depth = tree.path.len();
    if n == 0 {
        lemma_bag(out, out, subtree_at(ctx, tree.path, tree.path, 0));
        let end = closed(Closing { stack: frames, frame, out }, tree.branch, ctx);
        assert(end == (Closing { stack: frames, frame, out }));
        assert(bag(end.out).add(bag(end.frame.candidates)).add(bag(told)) =~= bag(out).add(
            bag(frame.candidates),
        ).add(maximal_inner(tree.inner, tree.branch, depth, ctx, n)));
    } else {
        let kid = tree.inner[n - 1];
        let (child, said) = outcome(kid, ctx);
        let (before, earlier) = outcomes(tree.inner, ctx, n - 1);
        assert(frames.last() == child);
        assert(frames.drop_last() =~= before);
        let hash = child_hash(tree.branch, nibble_at(kid.path, depth));
        let next = folded(frame, child, hash, ctx);
        let more = out + flushed(child, ctx);
        assert(top_below(frames, frame.path));
        lemma_closed_share(tree, next, more, ctx, n - 1);
        let end = closed(Closing { stack: frames, frame, out }, tree.branch, ctx);
        assert(end == closed(
            Closing { stack: before, frame: next, out: more },
            tree.branch,
            ctx,
        ));
        if inactive(kid) || !ctx.emit_output {
            assert(more =~= out);
        }
        if ctx.emit_output {
            lemma_fold_share(frame, out, child, hash, ctx);
            lemma_bag(earlier, said, subtree_at(ctx, tree.path, tree.path, 0));
            let rest = maximal_inner(tree.inner, tree.branch, depth, ctx, n - 1);
            let share = if child.all_inactive && hash is Some {
                Multiset::singleton(subtree_at(ctx, child.path, hash->0, child.leaf_count))
            } else {
                bag(child.candidates)
            };
            if inactive(kid) {
                assert(said =~= Seq::empty());
            }
            assert(share.add(bag(said)) =~= maximal(kid, hash, ctx));
            assert(bag(end.out).add(bag(end.frame.candidates)).add(bag(told)) =~= bag(out).add(
                bag(frame.candidates),
            ).add(share).add(rest).add(bag(said)));
            assert(maximal_inner(tree.inner, tree.branch, depth, ctx, n) == rest.add(
                maximal(kid, hash, ctx),
            ));
            assert(bag(end.out).add(bag(end.frame.candidates)).add(bag(told)) =~= bag(out).add(
                bag(frame.candidates),
            ).add(maximal_inner(tree.inner, tree.branch, depth, ctx, n)));
        }
    }
}

/// What folding the first `n` clusters below a branch into its frame comes to.
proof fn lemma_clusters_share(
    frame: FrameView,
    out: Seq<SubtreeView>,
    tree: Tree,
    ctx: CtxView,
    n: int,
)
    requires
        well_placed(tree),
        0 <= n <= tree.clusters.len(),
    ensures
        ({
            let end = clusters_folded(frame, out, tree.branch, tree.clusters, ctx, n);
            &&& end.0.all_inactive == (frame.all_inactive && forall|i: int|
                0 <= i < n ==> quiet(#[trigger] tree.clusters[i]))
            &&& end.0.leaf_count == frame.leaf_count + cluster_leaves(tree.clusters, n)
            &&& end.1 == out
            &&& ctx.emit_output ==> bag(end.1).add(bag(end.0.candidates)) == bag(out).add(
                bag(frame.candidates),
            ).add(maximal_clusters(tree.clusters, tree.branch, ctx, n))
        }),
    decreases n,
{
    if n == 0 {
        assert(bag(out).add(bag(frame.candidates)) =~= bag(out).add(bag(frame.candidates)).add(
            maximal_clusters(tree.clusters, tree.branch, ctx, n),
        ));
    } else {
        lemma_clusters_share(frame, out, tree, ctx, n - 1);
        let cluster = tree.clusters[n - 1];
        let mid = clusters_folded(frame, out, tree.branch, tree.clusters, ctx, n - 1);
        let end = clusters_folded(frame, out, tree.branch, tree.clusters, ctx, n);
        let hash = child_hash(tree.branch, cluster.path.last() as int);
        let share = maximal_cluster(cluster, tree.branch, ctx);
        assert(cluster.candidates =~= Seq::empty());
        assert(flushed(cluster, ctx) =~= Seq::empty());
        assert(mid.1 + flushed(cluster, ctx) =~= mid.1);
        if ctx.emit_output {
            lemma_bag(out, out, subtree_at(ctx, tree.path, tree.path, 0));
            if cluster.leaf_count > 0 {
                lemma_fold_share(mid.0, mid.1, cluster, hash, ctx);
            }
            assert(bag(end.1).add(bag(end.0.candidates)) =~= bag(mid.1).add(
                bag(mid.0.candidates),
            ).add(share));
            assert(bag(end.1).add(bag(end.0.candidates)) =~= bag(out).add(
                bag(frame.candidates),
            ).add(maximal_clusters(tree.clusters, tree.branch, ctx, n)));
        }
    }
}

/// The hash by which the root of a trie stands: its own, or the one that is known otherwise.
pub open spec fn root_hash_of(tree: Tree, known: Option<Seq<u8>>) -> Option<Seq<u8>> {
    if tree.branch.root_hash is None {
        known
    } else {
        tree.branch.root_hash
    }
}

/// A walk through a whole trie, children first, reports exactly its maximal inactive subtrees,
/// each once; or nothing where the trie is not to be reported.
pub proof fn lemma_trie_reports_maximal(tree: Tree, known: Option<Seq<u8>>, ctx: CtxView)
    requires
        well_placed(tree),
        tree.path.len() == 0,
    ensures
        ({
            let (stack, out) = after_visits(
                Seq::empty(),
                Seq::empty(),
                visits(tree),
                ctx,
                visits(tree).len() as int,
            );
            let all = out + walk_output(stack, known, ctx);
            &&& ctx.emit_output ==> bag(all) == maximal(tree, root_hash_of(tree, known), ctx)
            &&& !ctx.emit_output ==> all.len() == 0
        }),
{
    assert(!top_below(Seq::empty(), tree.path));
    lemma_tree_walk(tree, Seq::empty(), Seq::empty(), ctx);
    lemma_outcome(tree, ctx);
    let (frame, out) = outcome(tree, ctx);
    let stack = Seq::empty().push(frame);
    assert(Seq::<SubtreeView>::empty() + out =~= out);
    let root = FrameView { root_hash: root_hash_of(tree, known), ..frame };
    assert(walk_output(stack, known, ctx) == root_output(root, ctx));
    lemma_bag(
        out,
        root_output(root, ctx),
        subtree_at(ctx, tree.path, root_hash_of(tree, known)->0, leaves(tree)),
    );
    if ctx.emit_output {
        if inactive(tree) {
            assert(out =~= Seq::empty());
        }
        assert(bag(out + root_output(root, ctx)) =~= maximal(
            tree,
            root_hash_of(tree, known),
            ctx,
        ));
    }
}

/// A walk through a whole trie whose topmost branch stands below the empty path, because all its
/// keys begin alike, reports exactly its maximal inactive subtrees, each once. Its root is no
/// branch: where the root's hash is known and all leaves are inactive, it is the one that is
/// reported, and otherwise the topmost branch has no hash to stand by.
pub proof fn lemma_low_trie_reports_maximal(tree: Tree, known: Option<Seq<u8>>, ctx: CtxView)
    requires
        well_placed(tree),
        tree.path.len() > 0,
    ensures
        ({
            let (stack, out) = after_visits(
                Seq::empty(),
                Seq::empty(),
                visits(tree),
                ctx,
                visits(tree).len() as int,
            );
            let all = out + walk_output(stack, known, ctx);
            &&& ctx.emit_output ==> bag(all) == (if inactive(tree) && known is Some {
                Multiset::singleton(subtree_at(ctx, Seq::empty(), known->0, leaves(tree)))
            } else {
                maximal_below(tree, ctx)
            })
            &&& !ctx.emit_output ==> all.len() == 0
        }),
{
    assert(!top_below(Seq::empty(), tree.path));
    lemma_tree_walk(tree, Seq::empty(), Seq::empty(), ctx);
    lemma_outcome(tree, ctx);
    let (frame, out) = outcome(tree, ctx);
    let stack = Seq::empty().push(frame);
    assert(Seq::<SubtreeView>::empty() + out =~= out);
    let start = new_frame(Seq::empty(), known);
    let root = folded(start, frame, None, ctx);
    let told = flushed(frame, ctx);
    assert(all_folded(start, stack, ctx, 0) == (start, Seq::<SubtreeView>::empty()));
    assert(Seq::<SubtreeView>::empty() + told =~= told);
    assert(all_folded(start, stack, ctx, 1) == (root, told));
    let last = told + root_output(root, ctx);
    assert(walk_output(stack, known, ctx) == last);
    let whole = subtree_at(ctx, Seq::empty(), known->0, leaves(tree));
    lemma_bag(out, last, whole);
    lemma_bag(told, root_output(root, ctx), whole);
    assert(start.candidates + frame.candidates =~= frame.candidates);
    if ctx.emit_output {
        if inactive(tree) {
            assert(out =~= Seq::empty());
            assert(told =~= Seq::empty());
            if known is Some {
                assert(root_output(root, ctx) == seq![whole]);
                assert(bag(out + last) =~= Multiset::singleton(whole));
            } else {
                assert(bag(out + last) =~= bag(out).add(bag(frame.candidates)));
            }
        } else {
            assert(root_output(root, ctx) =~= Seq::empty());
            assert(bag(out + last) =~= bag(out).add(bag(frame.candidates)));
        }
    }
}

/// The maximal inactive subtrees of a whole trie, by its topmost branch and the hash of its root
/// where that is known otherwise. A topmost branch at the empty path is the root; one that stands
/// lower has the root above it, and no hash of its own.
pub open spec fn trie_maximal(
    tree: Tree,
    known: Option<Seq<u8>>,
    ctx: CtxView,
) -> Multiset<SubtreeView> {
    if tree.path.len() == 0 {
        maximal(tree, root_hash_of(tree, known), ctx)
    } else if inactive(tree) && known is Some {
        Multiset::singleton(subtree_at(ctx, Seq::empty(), known->0, leaves(tree)))
    } else {
        maximal_below(tree, ctx)
    }
}

/// A walk through a whole trie of either kind reports exactly its maximal inactive subtrees, each
/// once; or nothing where the trie is not to be reported.
pub proof fn lemma_any_trie_reports_maximal(tree: Tree, known: Option<Seq<u8>>, ctx: CtxView)
    requires
        well_placed(tree),
    ensures
        ({
            let (stack, out) = after_visits(
                Seq::empty(),
                Seq::empty(),
                visits(tree),
                ctx,
                visits(tree).len() as int,
            );
            let all = out + walk_output(stack, known, ctx);
            &&& ctx.emit_output ==> bag(all) == trie_maximal(tree, known, ctx)
            &&& !ctx.emit_output ==> all.len() == 0
        }),
{
    if tree.path.len() == 0 {
        lemma_trie_reports_maximal(tree, known, ctx);
    } else {
        lemma_low_trie_reports_maximal(tree, known, ctx);
    }
}

} // verus!
