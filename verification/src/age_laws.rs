//! A smaller minimum age loses no leaf that was reported inactive.
use vstd::prelude::*;

use crate::identifier::{
    child_hash, cluster_of, descends_storage, emits_accounts, leaf_inactive, subtree_at,
    BranchView, CtxView, FrameView, IdentifyConfig, SubtreeView, TrieKind,
};
use crate::identify::{identified, slots_of, Leaves};
use crate::identify_laws::{
    all_inactive, all_well_placed, bag, cluster_leaves, inactive, leaves, leaves_of_all, maximal,
    maximal_below, maximal_cluster, nibble_at, quiet, root_hash_of, trie_maximal, visits,
    visits_of_all, well_placed, Tree, Visit,
};
use crate::key_order::keys_under;
use crate::maximal_laws::{
    all_slots_apart, inactive_below, inactive_inner, inactive_node, lemma_maximal_cover,
    lemma_maximal_stand_apart, slot_count, slot_path, slots_apart, text_under,
};
use crate::nibbles::{hex_of, unpacked};
use crate::period_index::PeriodIndexView;
use crate::primitives::B256;
use crate::run_laws::{
    account_maximal, account_visits, lemma_run_reports_maximal, owned, run_over, storage_maximal,
    storage_visits, tries_in_turn, visit_of,
};
use crate::walk::{account_ctx, leaf_prefixes, storage_ctx, ItemView};

verus! {

/// What the clusters of one trie are made from.
pub struct Cut {
    pub keys: Seq<B256>,
    pub ctx: CtxView,
    pub index: PeriodIndexView,
    pub config: IdentifyConfig,
}

/// What the clusters of the account trie, or of an owner's storage trie, are made from.
pub open spec fn cut_of(
    owner: Option<Seq<u8>>,
    leaves: Leaves,
    index: PeriodIndexView,
    config: IdentifyConfig,
) -> Cut {
    match owner {
        None => Cut {
            keys: leaves.accounts@,
            ctx: account_ctx(config.scope),
            index,
            config,
        },
        Some(o) => Cut {
            keys: slots_of(leaves.storages@, o, 0),
            ctx: storage_ctx(o),
            index,
            config,
        },
    }
}

/// Some clusters, made anew.
pub open spec fn recut_clusters(clusters: Seq<FrameView>, cut: Cut) -> Seq<FrameView> {
    Seq::new(
        clusters.len(),
        |i: int| cluster_of(clusters[i].path, cut.keys, cut.ctx, cut.index, cut.config),
    )
}

/// A tree with its clusters made anew.
pub open spec fn recut(tree: Tree, cut: Cut) -> Tree
    decreases tree, 0int,
{
    Tree {
        path: tree.path,
        branch: tree.branch,
        inner: recut_all(tree.inner, cut, tree.inner.len() as int),
        clusters: recut_clusters(tree.clusters, cut),
    }
}

/// The first `n` of some trees with their clusters made anew.
pub open spec fn recut_all(trees: Seq<Tree>, cut: Cut, n: int) -> Seq<Tree>
    decreases trees, n,
{
    if n <= 0 || n > trees.len() {
        Seq::empty()
    } else {
        recut_all(trees, cut, n - 1).push(recut(trees[n - 1], cut))
    }
}

/// A visit with its clusters made anew.
pub open spec fn recut_visit(v: Visit, cut: Cut) -> Visit {
    Visit { path: v.path, branch: v.branch, clusters: recut_clusters(v.clusters, cut) }
}

/// Some visits with their clusters made anew.
spec fn recut_visits(vs: Seq<Visit>, cut: Cut) -> Seq<Visit> {
    Seq::new(vs.len(), |i: int| recut_visit(vs[i], cut))
}

/// Each of some trees is made anew.
proof fn lemma_recut_all(trees: Seq<Tree>, cut: Cut, n: int)
    requires
        0 <= n <= trees.len(),
    ensures
        recut_all(trees, cut, n).len() == n,
        forall|i: int| 0 <= i < n ==> #[trigger] recut_all(trees, cut, n)[i] == recut(trees[i], cut),
    decreases n,
{
    if n > 0 {
        lemma_recut_all(trees, cut, n - 1);
    }
}

/// A tree made anew is visited as before, with clusters made anew.
proof fn lemma_recut_visits(tree: Tree, cut: Cut)
    ensures
        visits(recut(tree, cut)) == recut_visits(visits(tree), cut),
    decreases tree, 0int,
{
    let n = tree.inner.len() as int;
    lemma_recut_all(tree.inner, cut, n);
    lemma_recut_visits_of_all(tree.inner, cut, n);
    assert(visits(recut(tree, cut)) =~= recut_visits(visits(tree), cut));
}

/// The same of the first `n` of some trees.
proof fn lemma_recut_visits_of_all(trees: Seq<Tree>, cut: Cut, n: int)
    requires
        0 <= n <= trees.len(),
    ensures
        visits_of_all(recut_all(trees, cut, trees.len() as int), n) == recut_visits(
            visits_of_all(trees, n),
            cut,
        ),
    decreases trees, n,
{
    let all = recut_all(trees, cut, trees.len() as int);
    lemma_recut_all(trees, cut, trees.len() as int);
    if n > 0 {
        lemma_recut_visits_of_all(trees, cut, n - 1);
        lemma_recut_visits(trees[n - 1], cut);
    }
    assert(visits_of_all(all, n) =~= recut_visits(visits_of_all(trees, n), cut));
}

/// A tree made anew is as well placed as before.
proof fn lemma_recut_placed(tree: Tree, cut: Cut)
    requires
        well_placed(tree),
    ensures
        well_placed(recut(tree, cut)),
    decreases tree, 0int,
{
    let n = tree.inner.len() as int;
    let inner = recut_all(tree.inner, cut, n);
    lemma_recut_all(tree.inner, cut, n);
    lemma_recut_all_placed(tree.inner, cut, n);
    assert forall|i: int, j: int|
        0 <= i < inner.len() && 0 <= j < inner.len() && i
            != j implies !crate::nibbles::starts_with(
        (#[trigger] inner[i]).path,
        (#[trigger] inner[j]).path,
    ) by {
        assert(inner[i].path == tree.inner[i].path && inner[j].path == tree.inner[j].path);
    }
    assert forall|i: int| 0 <= i < inner.len() implies (#[trigger] inner[i]).path.len()
        > tree.path.len() && crate::nibbles::starts_with(inner[i].path, tree.path) by {
        assert(inner[i].path == tree.inner[i].path);
    }
    let clusters = recut_clusters(tree.clusters, cut);
    assert forall|i: int| 0 <= i < clusters.len() implies (#[trigger] clusters[i]).candidates.len()
        == 0 && clusters[i].path.len() == tree.path.len() + 1 && crate::nibbles::starts_with(
        clusters[i].path,
        tree.path,
    ) by {
        assert(clusters[i].path == tree.clusters[i].path);
    }
}

/// The same of the first `n` of some trees.
proof fn lemma_recut_all_placed(trees: Seq<Tree>, cut: Cut, n: int)
    requires
        0 <= n <= trees.len(),
        all_well_placed(trees, n),
    ensures
        all_well_placed(recut_all(trees, cut, trees.len() as int), n),
    decreases trees, n,
{
    lemma_recut_all(trees, cut, trees.len() as int);
    if n > 0 {
        lemma_recut_all_placed(trees, cut, n - 1);
        lemma_recut_placed(trees[n - 1], cut);
    }
}

/// The slots of a tree made anew stand apart as before.
proof fn lemma_recut_apart(tree: Tree, cut: Cut)
    requires
        slots_apart(tree),
    ensures
        slots_apart(recut(tree, cut)),
    decreases tree, 0int,
{
    let n = tree.inner.len() as int;
    let new = recut(tree, cut);
    lemma_recut_all(tree.inner, cut, n);
    lemma_recut_all_apart(tree.inner, cut, n);
    assert forall|i: int| 0 <= i < slot_count(new) implies #[trigger] slot_path(new, i)
        == slot_path(tree, i) by {
        if i < n {
            assert(new.inner[i].path == tree.inner[i].path);
        } else {
            assert(new.clusters[i - n].path == tree.clusters[i - n].path);
        }
    }
}

/// The same of the first `n` of some trees.
proof fn lemma_recut_all_apart(trees: Seq<Tree>, cut: Cut, n: int)
    requires
        0 <= n <= trees.len(),
        all_slots_apart(trees, n),
    ensures
        all_slots_apart(recut_all(trees, cut, trees.len() as int), n),
    decreases trees, n,
{
    lemma_recut_all(trees, cut, trees.len() as int);
    if n > 0 {
        lemma_recut_all_apart(trees, cut, n - 1);
        lemma_recut_apart(trees[n - 1], cut);
    }
}

/// The same parameters with another minimum age.
pub open spec fn with_age(config: IdentifyConfig, age: u32) -> IdentifyConfig {
    IdentifyConfig { inactive_min_age: age, ..config }
}

/// The two make clusters of the same leaves, `young` with a minimum age that is no larger.
spec fn younger(young: Cut, old: Cut) -> bool {
    &&& young.keys == old.keys
    &&& young.ctx == old.ctx
    &&& young.index == old.index
    &&& young.config == with_age(old.config, young.config.inactive_min_age)
    &&& young.config.inactive_min_age <= old.config.inactive_min_age
}

/// A smaller minimum age keeps the leaves of a cluster, and keeps it inactive.
proof fn lemma_younger_cluster(path: Seq<u8>, young: Cut, old: Cut)
    requires
        younger(young, old),
    ensures
        ({
            let a = cluster_of(path, young.keys, young.ctx, young.index, young.config);
            let b = cluster_of(path, old.keys, old.ctx, old.index, old.config);
            &&& a.leaf_count == b.leaf_count
            &&& a.path == b.path
            &&& b.all_inactive ==> a.all_inactive
        }),
{
    let kept = keys_under(old.keys, path);
    let b = cluster_of(path, old.keys, old.ctx, old.index, old.config);
    if b.all_inactive {
        assert forall|i: int| 0 <= i < kept.len() implies leaf_inactive(
            young.index,
            young.ctx,
            young.config,
            #[trigger] kept[i],
        ) by {
            assert(leaf_inactive(old.index, old.ctx, old.config, kept[i]));
        }
    }
}

/// A smaller minimum age keeps the leaves of a tree, and keeps it inactive.
proof fn lemma_younger_tree(tree: Tree, young: Cut, old: Cut)
    requires
        younger(young, old),
    ensures
        leaves(recut(tree, young)) == leaves(recut(tree, old)),
        inactive(recut(tree, old)) ==> inactive(recut(tree, young)),
    decreases tree, 0int,
{
    let n = tree.inner.len() as int;
    let a = recut(tree, young);
    let b = recut(tree, old);
    lemma_recut_all(tree.inner, young, n);
    lemma_recut_all(tree.inner, old, n);
    lemma_younger_trees(tree.inner, young, old, n);
    lemma_younger_clusters(tree.clusters, young, old, tree.clusters.len() as int);
    if inactive(b) {
        assert forall|i: int| 0 <= i < a.clusters.len() implies quiet(#[trigger] a.clusters[i]) by {
            lemma_younger_cluster(tree.clusters[i].path, young, old);
            assert(quiet(b.clusters[i]));
        }
    }
}

/// The same of the first `n` of some trees.
proof fn lemma_younger_trees(trees: Seq<Tree>, young: Cut, old: Cut, n: int)
    requires
        younger(young, old),
        0 <= n <= trees.len(),
    ensures
        leaves_of_all(recut_all(trees, young, trees.len() as int), n) == leaves_of_all(
            recut_all(trees, old, trees.len() as int),
            n,
        ),
        all_inactive(recut_all(trees, old, trees.len() as int), n) ==> all_inactive(
            recut_all(trees, young, trees.len() as int),
            n,
        ),
    decreases trees, n,
{
    lemma_recut_all(trees, young, trees.len() as int);
    lemma_recut_all(trees, old, trees.len() as int);
    if n > 0 {
        lemma_younger_trees(trees, young, old, n - 1);
        lemma_younger_tree(trees[n - 1], young, old);
    }
}

/// A smaller minimum age keeps the leaves of clusters.
proof fn lemma_younger_clusters(clusters: Seq<FrameView>, young: Cut, old: Cut, n: int)
    requires
        younger(young, old),
        0 <= n <= clusters.len(),
    ensures
        cluster_leaves(recut_clusters(clusters, young), n) == cluster_leaves(
            recut_clusters(clusters, old),
            n,
        ),
    decreases n,
{
    if n > 0 {
        lemma_younger_clusters(clusters, young, old, n - 1);
        lemma_younger_cluster(clusters[n - 1].path, young, old);
    }
}

/// An inactive node stays one under a smaller minimum age.
proof fn lemma_younger_node(
    tree: Tree,
    hash: Option<Seq<u8>>,
    x: SubtreeView,
    young: Cut,
    old: Cut,
    ctx: CtxView,
)
    requires
        younger(young, old),
        inactive_node(recut(tree, old), hash, x, ctx),
    ensures
        inactive_node(recut(tree, young), hash, x, ctx),
    decreases tree, 1int,
{
    let n = tree.inner.len() as int;
    let a = recut(tree, young);
    let b = recut(tree, old);
    lemma_younger_tree(tree, young, old);
    lemma_recut_all(tree.inner, young, n);
    lemma_recut_all(tree.inner, old, n);
    if inactive_inner(b.inner, b.branch, b.path.len(), x, ctx, n) {
        lemma_younger_inner(tree.inner, tree.branch, tree.path.len(), x, young, old, ctx, n);
    } else if exists|i: int|
        0 <= i < b.clusters.len() && maximal_cluster(
            #[trigger] b.clusters[i],
            b.branch,
            ctx,
        ).contains(x) {
        let i = choose|i: int|
            0 <= i < b.clusters.len() && maximal_cluster(
                #[trigger] b.clusters[i],
                b.branch,
                ctx,
            ).contains(x);
        lemma_younger_cluster(tree.clusters[i].path, young, old);
        assert(maximal_cluster(a.clusters[i], a.branch, ctx).contains(x));
    }
}

/// The same of the first `n` branches below a branch.
proof fn lemma_younger_inner(
    trees: Seq<Tree>,
    branch: BranchView,
    depth: nat,
    x: SubtreeView,
    young: Cut,
    old: Cut,
    ctx: CtxView,
    n: int,
)
    requires
        younger(young, old),
        0 <= n <= trees.len(),
        inactive_inner(
            recut_all(trees, old, trees.len() as int),
            branch,
            depth,
            x,
            ctx,
            n,
        ),
    ensures
        inactive_inner(
            recut_all(trees, young, trees.len() as int),
            branch,
            depth,
            x,
            ctx,
            n,
        ),
    decreases trees, n,
{
    let a = recut_all(trees, young, trees.len() as int);
    let b = recut_all(trees, old, trees.len() as int);
    lemma_recut_all(trees, young, trees.len() as int);
    lemma_recut_all(trees, old, trees.len() as int);
    let hash = child_hash(branch, nibble_at(trees[n - 1].path, depth));
    assert(a[n - 1].path == trees[n - 1].path && b[n - 1].path == trees[n - 1].path);
    if inactive_inner(b, branch, depth, x, ctx, n - 1) {
        lemma_younger_inner(trees, branch, depth, x, young, old, ctx, n - 1);
    } else {
        lemma_younger_node(trees[n - 1], hash, x, young, old, ctx);
    }
}

/// An inactive node is of the trie that it was found in.
pub proof fn lemma_node_of_trie(tree: Tree, hash: Option<Seq<u8>>, x: SubtreeView, ctx: CtxView)
    requires
        inactive_node(tree, hash, x, ctx),
    ensures
        x.trie == ctx.trie_label,
        x.owner == ctx.owner,
    decreases tree, 1int,
{
    if inactive_below(tree, x, ctx) && inactive_inner(
        tree.inner,
        tree.branch,
        tree.path.len(),
        x,
        ctx,
        tree.inner.len() as int,
    ) {
        lemma_inner_of_trie(
            tree.inner,
            tree.branch,
            tree.path.len(),
            x,
            ctx,
            tree.inner.len() as int,
        );
    }
}

/// The same of the first `n` branches below a branch.
proof fn lemma_inner_of_trie(
    trees: Seq<Tree>,
    branch: BranchView,
    depth: nat,
    x: SubtreeView,
    ctx: CtxView,
    n: int,
)
    requires
        0 <= n <= trees.len(),
        inactive_inner(trees, branch, depth, x, ctx, n),
    ensures
        x.trie == ctx.trie_label,
        x.owner == ctx.owner,
    decreases trees, n,
{
    let hash = child_hash(branch, nibble_at(trees[n - 1].path, depth));
    if inactive_inner(trees, branch, depth, x, ctx, n - 1) {
        lemma_inner_of_trie(trees, branch, depth, x, ctx, n - 1);
    } else {
        lemma_node_of_trie(trees[n - 1], hash, x, ctx);
    }
}

/// `y` is of the same trie as `x`, and stands at or above it.
pub open spec fn at_or_above(y: SubtreeView, x: SubtreeView) -> bool {
    y.trie == x.trie && y.owner == x.owner && text_under(x.path, y.path)
}

/// What a tree reports under a root with this hash is covered under a smaller minimum age.
proof fn lemma_younger_maximal(
    tree: Tree,
    hash: Option<Seq<u8>>,
    x: SubtreeView,
    young: Cut,
    old: Cut,
    ctx: CtxView,
) -> (y: SubtreeView)
    requires
        younger(young, old),
        slots_apart(tree),
        maximal(recut(tree, old), hash, ctx).contains(x),
    ensures
        maximal(recut(tree, young), hash, ctx).contains(y),
        at_or_above(y, x),
{
    let a = recut(tree, young);
    let b = recut(tree, old);
    lemma_recut_apart(tree, young);
    lemma_recut_apart(tree, old);
    lemma_maximal_stand_apart(b, hash, ctx);
    lemma_younger_node(tree, hash, x, young, old, ctx);
    let y = lemma_maximal_cover(a, hash, x, ctx);
    lemma_maximal_stand_apart(a, hash, ctx);
    lemma_node_of_trie(a, hash, x, ctx);
    lemma_node_of_trie(a, hash, y, ctx);
    y
}

/// What a whole trie reports is covered under a smaller minimum age.
proof fn lemma_younger_trie(
    tree: Tree,
    known: Option<Seq<u8>>,
    x: SubtreeView,
    young: Cut,
    old: Cut,
    ctx: CtxView,
) -> (y: SubtreeView)
    requires
        younger(young, old),
        slots_apart(tree),
        trie_maximal(recut(tree, old), known, ctx).contains(x),
    ensures
        trie_maximal(recut(tree, young), known, ctx).contains(y),
        at_or_above(y, x),
{
    let a = recut(tree, young);
    let b = recut(tree, old);
    lemma_younger_tree(tree, young, old);
    if tree.path.len() == 0 {
        assert(root_hash_of(a, known) == root_hash_of(b, known));
        lemma_younger_maximal(tree, root_hash_of(a, known), x, young, old, ctx)
    } else if inactive(a) && known is Some {
        let whole = subtree_at(ctx, Seq::empty(), known->0, leaves(a));
        if !inactive(b) {
            assert(maximal(b, None, ctx) == maximal_below(b, ctx));
            let y = lemma_younger_maximal(tree, None, x, young, old, ctx);
            lemma_recut_apart(tree, young);
            lemma_maximal_stand_apart(a, None, ctx);
            lemma_node_of_trie(a, None, y, ctx);
        }
        whole
    } else {
        assert(maximal(a, None, ctx) == maximal_below(a, ctx));
        assert(maximal(b, None, ctx) == maximal_below(b, ctx));
        lemma_younger_maximal(tree, None, x, young, old, ctx)
    }
}

/// An item under another minimum age is visited with its clusters made anew.
proof fn lemma_visit_recut(
    item: ItemView,
    leaves: Leaves,
    index: PeriodIndexView,
    config: IdentifyConfig,
    age: u32,
)
    ensures
        visit_of(item, leaves, index, with_age(config, age)) == recut_visit(
            visit_of(item, leaves, index, config),
            cut_of(item.owner, leaves, index, with_age(config, age)),
        ),
{
    let cut = cut_of(item.owner, leaves, index, with_age(config, age));
    let v = visit_of(item, leaves, index, config);
    let w = visit_of(item, leaves, index, with_age(config, age));
    let prefixes = leaf_prefixes(item.path, item.branch);
    assert forall|i: int| 0 <= i < w.clusters.len() implies #[trigger] w.clusters[i]
        == recut_clusters(v.clusters, cut)[i] by {
        assert(v.clusters[i].path == prefixes[i]);
    }
    assert(w.clusters =~= recut_clusters(v.clusters, cut));
}

/// The branches of the account trie under another minimum age.
proof fn lemma_account_visits_recut(
    items: Seq<ItemView>,
    leaves: Leaves,
    index: PeriodIndexView,
    config: IdentifyConfig,
    age: u32,
    n: int,
)
    requires
        0 <= n <= items.len(),
    ensures
        account_visits(items, leaves, index, with_age(config, age), n) == recut_visits(
            account_visits(items, leaves, index, config, n),
            cut_of(None, leaves, index, with_age(config, age)),
        ),
    decreases n,
{
    let cut = cut_of(None, leaves, index, with_age(config, age));
    if n > 0 {
        lemma_account_visits_recut(items, leaves, index, config, age, n - 1);
        lemma_visit_recut(items[n - 1], leaves, index, config, age);
    }
    assert(account_visits(items, leaves, index, with_age(config, age), n) =~= recut_visits(
        account_visits(items, leaves, index, config, n),
        cut,
    ));
}

/// Visits of storage tries with their clusters made anew.
spec fn recut_owned(
    vs: Seq<(Seq<u8>, Visit)>,
    leaves: Leaves,
    index: PeriodIndexView,
    config: IdentifyConfig,
) -> Seq<(Seq<u8>, Visit)> {
    Seq::new(
        vs.len(),
        |i: int| (vs[i].0, recut_visit(vs[i].1, cut_of(Some(vs[i].0), leaves, index, config))),
    )
}

/// The branches of storage tries under another minimum age.
proof fn lemma_storage_visits_recut(
    items: Seq<ItemView>,
    leaves: Leaves,
    index: PeriodIndexView,
    config: IdentifyConfig,
    age: u32,
    n: int,
)
    requires
        0 <= n <= items.len(),
    ensures
        storage_visits(items, leaves, index, with_age(config, age), n) == recut_owned(
            storage_visits(items, leaves, index, config, n),
            leaves,
            index,
            with_age(config, age),
        ),
    decreases n,
{
    if n > 0 {
        lemma_storage_visits_recut(items, leaves, index, config, age, n - 1);
        lemma_visit_recut(items[n - 1], leaves, index, config, age);
    }
    assert(storage_visits(items, leaves, index, with_age(config, age), n) =~= recut_owned(
        storage_visits(items, leaves, index, config, n),
        leaves,
        index,
        with_age(config, age),
    ));
}

/// The storage tries with their clusters made anew.
pub open spec fn recut_tries(
    tries: Seq<(Seq<u8>, Tree)>,
    leaves: Leaves,
    index: PeriodIndexView,
    config: IdentifyConfig,
) -> Seq<(Seq<u8>, Tree)> {
    Seq::new(
        tries.len(),
        |i: int|
            (tries[i].0, recut(tries[i].1, cut_of(Some(tries[i].0), leaves, index, config))),
    )
}

/// The storage tries made anew are visited as before, with clusters made anew.
proof fn lemma_tries_recut(
    tries: Seq<(Seq<u8>, Tree)>,
    leaves: Leaves,
    index: PeriodIndexView,
    config: IdentifyConfig,
    n: int,
)
    requires
        0 <= n <= tries.len(),
    ensures
        tries_in_turn(recut_tries(tries, leaves, index, config), n) == recut_owned(
            tries_in_turn(tries, n),
            leaves,
            index,
            config,
        ),
    decreases n,
{
    let new = recut_tries(tries, leaves, index, config);
    if n > 0 {
        lemma_tries_recut(tries, leaves, index, config, n - 1);
        let (owner, tree) = tries[n - 1];
        lemma_recut_visits(tree, cut_of(Some(owner), leaves, index, config));
        assert(owned(owner, visits(new[n - 1].1)) =~= recut_owned(
            owned(owner, visits(tree)),
            leaves,
            index,
            config,
        ));
    }
    assert(tries_in_turn(new, n) =~= recut_owned(tries_in_turn(tries, n), leaves, index, config));
}

/// The account trie with its clusters made anew.
pub open spec fn recut_account(
    account: Option<Tree>,
    leaves: Leaves,
    index: PeriodIndexView,
    config: IdentifyConfig,
) -> Option<Tree> {
    match account {
        Some(tree) => Some(recut(tree, cut_of(None, leaves, index, config))),
        None => None,
    }
}

/// The same items make a run over the same tries under another minimum age.
proof fn lemma_run_recut(
    items: Seq<ItemView>,
    leaves: Leaves,
    index: PeriodIndexView,
    config: IdentifyConfig,
    age: u32,
    account: Option<Tree>,
    tries: Seq<(Seq<u8>, Tree)>,
)
    requires
        run_over(items, leaves, index, config, account, tries),
    ensures
        run_over(
            items,
            leaves,
            index,
            with_age(config, age),
            recut_account(account, leaves, index, with_age(config, age)),
            recut_tries(tries, leaves, index, with_age(config, age)),
        ),
{
    let n = items.len() as int;
    let other = with_age(config, age);
    let cut = cut_of(None, leaves, index, other);
    lemma_account_visits_recut(items, leaves, index, config, age, n);
    match account {
        Some(tree) => {
            lemma_recut_visits(tree, cut);
            lemma_recut_placed(tree, cut);
        },
        None => {
            assert(recut_visits(Seq::empty(), cut) =~= Seq::<Visit>::empty());
        },
    }
    lemma_storage_visits_recut(items, leaves, index, config, age, n);
    lemma_tries_recut(tries, leaves, index, other, tries.len() as int);
    let new = recut_tries(tries, leaves, index, other);
    assert forall|i: int| 0 <= i < new.len() implies well_placed((#[trigger] new[i]).1) by {
        assert(well_placed(tries[i].1));
        lemma_recut_placed(tries[i].1, cut_of(Some(tries[i].0), leaves, index, other));
    }
    assert forall|i: int| 0 < i < new.len() implies (#[trigger] new[i]).0 != new[i - 1].0 by {
        assert(tries[i].0 != tries[i - 1].0);
    }
}

/// A subtree of one of the storage tries is of one of them.
pub proof fn lemma_storage_at(
    tries: Seq<(Seq<u8>, Tree)>,
    n: int,
    x: SubtreeView,
) -> (i: int)
    requires
        0 <= n <= tries.len(),
        storage_maximal(tries, n).contains(x),
    ensures
        0 <= i < n,
        trie_maximal(tries[i].1, None, storage_ctx(tries[i].0)).contains(x),
    decreases n,
{
    let (owner, tree) = tries[n - 1];
    if trie_maximal(tree, None, storage_ctx(owner)).contains(x) {
        n - 1
    } else {
        lemma_storage_at(tries, n - 1, x)
    }
}

/// A subtree of one of them is a subtree of the storage tries.
pub proof fn lemma_storage_has(tries: Seq<(Seq<u8>, Tree)>, n: int, i: int, x: SubtreeView)
    requires
        0 <= i < n <= tries.len(),
        trie_maximal(tries[i].1, None, storage_ctx(tries[i].0)).contains(x),
    ensures
        storage_maximal(tries, n).contains(x),
    decreases n,
{
    if i < n - 1 {
        lemma_storage_has(tries, n - 1, i, x);
    }
}

/// The slots of the tries stand apart, as those of tries do.
pub open spec fn tries_apart(account: Option<Tree>, tries: Seq<(Seq<u8>, Tree)>) -> bool {
    &&& account matches Some(tree) ==> slots_apart(tree)
    &&& forall|i: int| 0 <= i < tries.len() ==> slots_apart((#[trigger] tries[i]).1)
}

/// A run with a smaller minimum age reports, for every subtree that was reported, that subtree or
/// one above it.
pub proof fn lemma_smaller_age_covers(
    items: Seq<ItemView>,
    leaves: Leaves,
    state_root: Seq<u8>,
    index: PeriodIndexView,
    config: IdentifyConfig,
    smaller: u32,
    account: Option<Tree>,
    tries: Seq<(Seq<u8>, Tree)>,
    x: SubtreeView,
) -> (y: SubtreeView)
    requires
        smaller <= config.inactive_min_age,
        run_over(items, leaves, index, config, account, tries),
        tries_apart(account, tries),
        identified(items, leaves, state_root, index, config).contains(x),
    ensures
        identified(items, leaves, state_root, index, with_age(config, smaller)).contains(y),
        at_or_above(y, x),
{
    let age = config.inactive_min_age;
    let young = with_age(config, smaller);
    assert(with_age(config, age) == config);
    lemma_run_recut(items, leaves, index, config, age, account, tries);
    lemma_run_recut(items, leaves, index, config, smaller, account, tries);
    let account_a = recut_account(account, leaves, index, young);
    let account_b = recut_account(account, leaves, index, config);
    let tries_a = recut_tries(tries, leaves, index, young);
    let tries_b = recut_tries(tries, leaves, index, config);
    let out_a = identified(items, leaves, state_root, index, young);
    let out_b = identified(items, leaves, state_root, index, config);
    lemma_run_reports_maximal(items, leaves, state_root, index, young, account_a, tries_a);
    lemma_run_reports_maximal(items, leaves, state_root, index, config, account_b, tries_b);
    out_a.to_multiset_ensures();
    out_b.to_multiset_ensures();
    assert(bag(out_b).count(x) > 0);
    let n = tries.len() as int;
    let ctx = account_ctx(config.scope);
    let y = if emits_accounts(config.scope) && account_maximal(
        account_b,
        state_root,
        config.scope,
    ).contains(x) {
        let tree = account->0;
        let y = lemma_younger_trie(
            tree,
            Some(state_root),
            x,
            cut_of(None, leaves, index, young),
            cut_of(None, leaves, index, config),
            ctx,
        );
        assert(account_maximal(account_a, state_root, young.scope).contains(y));
        y
    } else {
        assert(descends_storage(config.scope));
        let i = lemma_storage_at(tries_b, n, x);
        let owner = tries[i].0;
        assert(slots_apart(tries[i].1));
        let y = lemma_younger_trie(
            tries[i].1,
            None,
            x,
            cut_of(Some(owner), leaves, index, young),
            cut_of(Some(owner), leaves, index, config),
            storage_ctx(owner),
        );
        lemma_storage_has(tries_a, n, i, y);
        y
    };
    assert(bag(out_a).count(y) > 0);
    assert(out_a.contains(y));
    y
}

/// The leaf with this key of this trie lies under one of the reported subtrees.
pub open spec fn leaf_reported(
    subtrees: Seq<SubtreeView>,
    trie: TrieKind,
    owner: Seq<u8>,
    key: B256,
) -> bool {
    exists|s: SubtreeView| #[trigger]
        subtrees.contains(s) && s.trie == trie && s.owner == owner && text_under(
            hex_of(unpacked(key@)),
            s.path,
        )
}

/// A smaller minimum age loses no leaf: each leaf that lies under a reported subtree lies under
/// one that is reported with a smaller minimum age.
pub proof fn lemma_smaller_age_loses_no_leaf(
    items: Seq<ItemView>,
    leaves: Leaves,
    state_root: Seq<u8>,
    index: PeriodIndexView,
    config: IdentifyConfig,
    smaller: u32,
    account: Option<Tree>,
    tries: Seq<(Seq<u8>, Tree)>,
    trie: TrieKind,
    owner: Seq<u8>,
    key: B256,
)
    requires
        smaller <= config.inactive_min_age,
        run_over(items, leaves, index, config, account, tries),
        tries_apart(account, tries),
        leaf_reported(
            identified(items, leaves, state_root, index, config),
            trie,
            owner,
            key,
        ),
    ensures
        leaf_reported(
            identified(items, leaves, state_root, index, with_age(config, smaller)),
            trie,
            owner,
            key,
        ),
{
    let out = identified(items, leaves, state_root, index, config);
    let text = hex_of(unpacked(key@));
    let x = choose|s: SubtreeView| #[trigger]
        out.contains(s) && s.trie == trie && s.owner == owner && text_under(text, s.path);
    let y = lemma_smaller_age_covers(
        items,
        leaves,
        state_root,
        index,
        config,
        smaller,
        account,
        tries,
        x,
    );
    assert forall|i: int| 0 <= i < y.path.len() implies text[i] == y.path[i] by {
        assert(x.path[i] == y.path[i]);
    }
    assert(text_under(text, y.path));
}

} // verus!
