//! The leaves that a subtree stands for: a trie over a table of leaves counts each leaf once, and
//! is inactive where all of its leaves are.
use vstd::prelude::*;

use crate::identifier::{cluster_of, leaf_inactive, CtxView, IdentifyConfig};
use crate::identify_laws::{
    all_inactive, cluster_leaves, inactive, leaves, leaves_of_all, quiet, Tree,
};
use crate::key_order::{key_under, keys_under};
use crate::maximal_laws::{lemma_slots_apart_at, slot_count, slot_path, slots_apart};
use crate::nibbles::starts_with;
use crate::period_index::PeriodIndexView;
use crate::primitives::B256;

verus! {

/// A tree is the trie of the leaves of a table: each cluster is that of the leaves in its slot, and
/// each leaf below a branch is in one of its slots.
pub open spec fn trie_over(
    tree: Tree,
    keys: Seq<B256>,
    ctx: CtxView,
    index: PeriodIndexView,
    config: IdentifyConfig,
) -> bool
    decreases tree, 0int,
{
    &&& all_tries_over(tree.inner, keys, ctx, index, config, tree.inner.len() as int)
    &&& forall|i: int|
        0 <= i < tree.clusters.len() ==> #[trigger] tree.clusters[i] == cluster_of(
            tree.clusters[i].path,
            keys,
            ctx,
            index,
            config,
        )
    &&& forall|k: int|
        0 <= k < keys.len() && key_under(#[trigger] keys[k], tree.path) ==> in_some_slot(
            tree,
            keys[k],
        )
}

/// The same of the first `n` of some trees.
pub open spec fn all_tries_over(
    trees: Seq<Tree>,
    keys: Seq<B256>,
    ctx: CtxView,
    index: PeriodIndexView,
    config: IdentifyConfig,
    n: int,
) -> bool
    decreases trees, n,
{
    if n <= 0 || n > trees.len() {
        true
    } else {
        all_tries_over(trees, keys, ctx, index, config, n - 1) && trie_over(
            trees[n - 1],
            keys,
            ctx,
            index,
            config,
        )
    }
}

/// A leaf is in one of the slots of a branch.
pub open spec fn in_some_slot(tree: Tree, key: B256) -> bool {
    exists|i: int| 0 <= i < slot_count(tree) && key_under(key, #[trigger] slot_path(tree, i))
}

/// The leaves in the first `n` slots of a branch, slot by slot.
spec fn slot_sum(tree: Tree, keys: Seq<B256>, n: int) -> nat
    decreases n,
{
    if n <= 0 {
        0
    } else {
        slot_sum(tree, keys, n - 1) + keys_under(keys, slot_path(tree, n - 1)).len()
    }
}

/// In how many of the first `n` slots of a branch a leaf is.
spec fn slots_of_key(tree: Tree, key: B256, n: int) -> nat
    decreases n,
{
    if n <= 0 {
        0
    } else {
        slots_of_key(tree, key, n - 1) + if key_under(key, slot_path(tree, n - 1)) {
            1nat
        } else {
            0
        }
    }
}

/// One more leaf adds to each slot that it is in.
proof fn lemma_sum_of_last(tree: Tree, keys: Seq<B256>, n: int)
    requires
        keys.len() > 0,
        0 <= n,
    ensures
        slot_sum(tree, keys, n) == slot_sum(tree, keys.drop_last(), n) + slots_of_key(
            tree,
            keys.last(),
            n,
        ),
    decreases n,
{
    reveal(Seq::filter);
    if n > 0 {
        lemma_sum_of_last(tree, keys, n - 1);
    }
}

/// A leaf is in at most one slot.
proof fn lemma_one_slot(tree: Tree, key: B256, n: int)
    requires
        slots_apart(tree),
        0 <= n <= slot_count(tree),
    ensures
        slots_of_key(tree, key, n) <= 1,
        slots_of_key(tree, key, n) == 1 <==> exists|i: int|
            0 <= i < n && key_under(key, #[trigger] slot_path(tree, i)),
    decreases n,
{
    if n > 0 {
        lemma_one_slot(tree, key, n - 1);
        if key_under(key, slot_path(tree, n - 1)) {
            assert forall|i: int| 0 <= i < n - 1 implies !key_under(
                key,
                #[trigger] slot_path(tree, i),
            ) by {
                if key_under(key, slot_path(tree, i)) {
                    lemma_prefixes_nest(key, slot_path(tree, i), slot_path(tree, n - 1));
                }
            }
            assert(slots_of_key(tree, key, n - 1) == 0);
        } else if exists|i: int| 0 <= i < n && key_under(key, #[trigger] slot_path(tree, i)) {
            let i = choose|i: int| 0 <= i < n && key_under(key, #[trigger] slot_path(tree, i));
            assert(i < n - 1);
        }
    }
}

/// Of two paths that a key begins with, one begins with the other.
proof fn lemma_prefixes_nest(key: B256, a: Seq<u8>, b: Seq<u8>)
    requires
        key_under(key, a),
        key_under(key, b),
    ensures
        starts_with(a, b) || starts_with(b, a),
{
}

/// A key in a slot is below the branch.
proof fn lemma_slot_is_below(tree: Tree, key: B256, i: int)
    requires
        slots_apart(tree),
        0 <= i < slot_count(tree),
        key_under(key, slot_path(tree, i)),
    ensures
        key_under(key, tree.path),
{
    assert(starts_with(slot_path(tree, i), tree.path));
}

/// The slots of a branch share out the leaves below it.
proof fn lemma_slots_share_out(tree: Tree, keys: Seq<B256>)
    requires
        slots_apart(tree),
        forall|k: int|
            0 <= k < keys.len() && key_under(#[trigger] keys[k], tree.path) ==> in_some_slot(
                tree,
                keys[k],
            ),
    ensures
        slot_sum(tree, keys, slot_count(tree)) == keys_under(keys, tree.path).len(),
    decreases keys.len(),
{
    reveal(Seq::filter);
    let n = slot_count(tree);
    if keys.len() == 0 {
        lemma_no_keys(tree, keys, n);
    } else {
        let init = keys.drop_last();
        let last = keys.last();
        assert forall|k: int|
            0 <= k < init.len() && key_under(#[trigger] init[k], tree.path) implies in_some_slot(
            tree,
            init[k],
        ) by {
            assert(init[k] == keys[k]);
        }
        lemma_slots_share_out(tree, init);
        lemma_sum_of_last(tree, keys, n);
        lemma_one_slot(tree, last, n);
        assert(keys[keys.len() - 1] == last);
        if key_under(last, tree.path) {
            assert(in_some_slot(tree, last));
        } else if exists|i: int| 0 <= i < n && key_under(last, #[trigger] slot_path(tree, i)) {
            let i = choose|i: int| 0 <= i < n && key_under(last, #[trigger] slot_path(tree, i));
            lemma_slot_is_below(tree, last, i);
        }
    }
}

/// Without leaves there are none in the slots.
proof fn lemma_no_keys(tree: Tree, keys: Seq<B256>, n: int)
    requires
        keys.len() == 0,
        0 <= n,
    ensures
        slot_sum(tree, keys, n) == 0,
    decreases n,
{
    reveal(Seq::filter);
    if n > 0 {
        lemma_no_keys(tree, keys, n - 1);
    }
}

/// All leaves of a table under a path are inactive.
pub open spec fn leaves_inactive(
    keys: Seq<B256>,
    path: Seq<u8>,
    ctx: CtxView,
    index: PeriodIndexView,
    config: IdentifyConfig,
) -> bool {
    forall|k: int|
        0 <= k < keys.len() && key_under(#[trigger] keys[k], path) ==> leaf_inactive(
            index,
            ctx,
            config,
            keys[k],
        )
}

/// What a filter keeps is what passes it.
proof fn lemma_kept(keys: Seq<B256>, keep: spec_fn(B256) -> bool)
    ensures
        forall|k: int|
            0 <= k < keys.len() && keep(#[trigger] keys[k]) ==> keys.filter(keep).contains(keys[k]),
        forall|i: int|
            0 <= i < keys.filter(keep).len() ==> keep(#[trigger] keys.filter(keep)[i])
                && keys.contains(keys.filter(keep)[i]),
    decreases keys.len(),
{
    reveal(Seq::filter);
    if keys.len() > 0 {
        let init = keys.drop_last();
        lemma_kept(init, keep);
        let before = init.filter(keep);
        let kept = keys.filter(keep);
        assert forall|k: int| 0 <= k < keys.len() && keep(#[trigger] keys[k]) implies kept.contains(
            keys[k],
        ) by {
            if k < init.len() {
                assert(init[k] == keys[k]);
                let i = choose|i: int| 0 <= i < before.len() && before[i] == keys[k];
                assert(kept[i] == keys[k]);
            } else {
                assert(kept[kept.len() - 1] == keys[k]);
            }
        }
        assert forall|i: int| 0 <= i < kept.len() implies keep(#[trigger] kept[i])
            && keys.contains(kept[i]) by {
            if i < before.len() {
                assert(kept[i] == before[i]);
                let k = choose|k: int| 0 <= k < init.len() && init[k] == before[i];
                assert(keys[k] == kept[i]);
            } else {
                assert(keys[keys.len() - 1] == kept[i]);
            }
        }
    }
}

/// A cluster is inactive where all leaves in its slot are.
pub proof fn lemma_cluster_inactive(
    path: Seq<u8>,
    keys: Seq<B256>,
    ctx: CtxView,
    index: PeriodIndexView,
    config: IdentifyConfig,
)
    ensures
        quiet(cluster_of(path, keys, ctx, index, config)) <==> leaves_inactive(
            keys,
            path,
            ctx,
            index,
            config,
        ),
{
    let keep = |key: B256| key_under(key, path);
    let kept = keys_under(keys, path);
    lemma_kept(keys, keep);
    if leaves_inactive(keys, path, ctx, index, config) {
        assert forall|i: int| 0 <= i < kept.len() implies leaf_inactive(
            index,
            ctx,
            config,
            #[trigger] kept[i],
        ) by {
            assert(keep(kept[i]));
            let k = choose|k: int| 0 <= k < keys.len() && keys[k] == kept[i];
            assert(key_under(keys[k], path));
        }
    }
    if quiet(cluster_of(path, keys, ctx, index, config)) {
        assert forall|k: int|
            0 <= k < keys.len() && key_under(#[trigger] keys[k], path) implies leaf_inactive(
            index,
            ctx,
            config,
            keys[k],
        ) by {
            assert(keep(keys[k]));
            let i = choose|i: int| 0 <= i < kept.len() && kept[i] == keys[k];
            assert(leaf_inactive(index, ctx, config, kept[i]));
        }
    }
}

/// A trie over a table counts exactly the leaves under its path, and is inactive exactly where all
/// of them are.
pub proof fn lemma_tree_counts_its_leaves(
    tree: Tree,
    keys: Seq<B256>,
    ctx: CtxView,
    index: PeriodIndexView,
    config: IdentifyConfig,
)
    requires
        slots_apart(tree),
        trie_over(tree, keys, ctx, index, config),
    ensures
        leaves(tree) == keys_under(keys, tree.path).len(),
        inactive(tree) <==> leaves_inactive(keys, tree.path, ctx, index, config),
    decreases tree, 0int,
{
    let m = tree.inner.len() as int;
    let n = tree.clusters.len() as int;
    lemma_inner_counts(tree, keys, ctx, index, config, m);
    lemma_cluster_counts(tree, keys, ctx, index, config, n);
    lemma_slots_share_out(tree, keys);
    assert(leaves(tree) == slot_sum(tree, keys, slot_count(tree)));
    if inactive(tree) {
        assert forall|k: int|
            0 <= k < keys.len() && key_under(#[trigger] keys[k], tree.path) implies leaf_inactive(
            index,
            ctx,
            config,
            keys[k],
        ) by {
            assert(in_some_slot(tree, keys[k]));
            let i = choose|i: int|
                0 <= i < slot_count(tree) && key_under(keys[k], #[trigger] slot_path(tree, i));
            if i < m {
                assert(slot_path(tree, i) == tree.inner[i].path);
            } else {
                assert(quiet(tree.clusters[i - m]));
                assert(slot_path(tree, i) == tree.clusters[i - m].path);
                lemma_cluster_inactive(tree.clusters[i - m].path, keys, ctx, index, config);
            }
            assert(leaves_inactive(keys, slot_path(tree, i), ctx, index, config));
        }
    }
    if leaves_inactive(keys, tree.path, ctx, index, config) {
        assert forall|i: int| 0 <= i < slot_count(tree) implies leaves_inactive(
            keys,
            #[trigger] slot_path(tree, i),
            ctx,
            index,
            config,
        ) by {
            assert forall|k: int|
                0 <= k < keys.len() && key_under(
                    #[trigger] keys[k],
                    slot_path(tree, i),
                ) implies leaf_inactive(index, ctx, config, keys[k]) by {
                lemma_slot_is_below(tree, keys[k], i);
            }
        }
        assert forall|i: int| 0 <= i < m implies leaves_inactive(
            keys,
            (#[trigger] tree.inner[i]).path,
            ctx,
            index,
            config,
        ) by {
            assert(slot_path(tree, i) == tree.inner[i].path);
        }
        assert forall|i: int| 0 <= i < n implies quiet(#[trigger] tree.clusters[i]) by {
            assert(slot_path(tree, m + i) == tree.clusters[i].path);
            lemma_cluster_inactive(tree.clusters[i].path, keys, ctx, index, config);
        }
    }
}

/// The branches below a branch count the leaves in their slots.
proof fn lemma_inner_counts(
    tree: Tree,
    keys: Seq<B256>,
    ctx: CtxView,
    index: PeriodIndexView,
    config: IdentifyConfig,
    n: int,
)
    requires
        slots_apart(tree),
        trie_over(tree, keys, ctx, index, config),
        0 <= n <= tree.inner.len(),
    ensures
        leaves_of_all(tree.inner, n) == slot_sum(tree, keys, n),
        all_inactive(tree.inner, n) <==> forall|i: int|
            0 <= i < n ==> leaves_inactive(
                keys,
                (#[trigger] tree.inner[i]).path,
                ctx,
                index,
                config,
            ),
    decreases tree.inner, n,
{
    if n > 0 {
        lemma_inner_counts(tree, keys, ctx, index, config, n - 1);
        let kid = tree.inner[n - 1];
        lemma_slots_apart_at(tree.inner, tree.inner.len() as int, n - 1);
        lemma_trie_over_at(tree.inner, keys, ctx, index, config, tree.inner.len() as int, n - 1);
        lemma_tree_counts_its_leaves(kid, keys, ctx, index, config);
        assert(slot_path(tree, n - 1) == kid.path);
    }
}

/// One of some tries over a table is one.
pub proof fn lemma_trie_over_at(
    trees: Seq<Tree>,
    keys: Seq<B256>,
    ctx: CtxView,
    index: PeriodIndexView,
    config: IdentifyConfig,
    n: int,
    i: int,
)
    requires
        0 <= i < n <= trees.len(),
        all_tries_over(trees, keys, ctx, index, config, n),
    ensures
        trie_over(trees[i], keys, ctx, index, config),
    decreases n,
{
    if i < n - 1 {
        lemma_trie_over_at(trees, keys, ctx, index, config, n - 1, i);
    }
}

/// The clusters below a branch count the leaves in their slots.
proof fn lemma_cluster_counts(
    tree: Tree,
    keys: Seq<B256>,
    ctx: CtxView,
    index: PeriodIndexView,
    config: IdentifyConfig,
    n: int,
)
    requires
        trie_over(tree, keys, ctx, index, config),
        0 <= n <= tree.clusters.len(),
    ensures
        slot_sum(tree, keys, tree.inner.len() as int) + cluster_leaves(tree.clusters, n)
            == slot_sum(tree, keys, tree.inner.len() + n),
    decreases n,
{
    if n > 0 {
        lemma_cluster_counts(tree, keys, ctx, index, config, n - 1);
        let m = tree.inner.len() as int;
        assert(slot_path(tree, m + n - 1) == tree.clusters[n - 1].path);
        assert(tree.clusters[n - 1].leaf_count == keys_under(
            keys,
            tree.clusters[n - 1].path,
        ).len());
    }
}

} // verus!
