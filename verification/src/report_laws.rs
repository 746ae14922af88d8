//! What a reported subtree stands for: the leaves of its trie under its path, all of them inactive
//! and counted, and no other reported subtree's.
use vstd::prelude::*;

use crate::age_laws::{lemma_node_of_trie, lemma_storage_at};
use crate::convert::root_row;
use crate::identifier::{child_hash, CtxView, IdentifyConfig, SubtreeView, TrieKind};
use crate::identify::{identified, slots_of, Leaves};
use crate::identify_laws::{
    bag, inactive, leaves, maximal, maximal_below, maximal_cluster, nibble_at, root_hash_of,
    trie_maximal, Tree,
};
use crate::key_order::{key_under, keys_under};
use crate::leaf_laws::{
    leaves_inactive, lemma_cluster_inactive, lemma_tree_counts_its_leaves, lemma_trie_over_at,
    trie_over,
};
use crate::maximal_laws::{
    apart, inactive_inner, inactive_node, lemma_inner_at, lemma_maximal_stand_apart,
    lemma_slots_apart_at, slot_path, slots_apart, text_under,
};
use crate::nibbles::{
    all_nibbles, hex_char, hex_of, lemma_hex_digit, path_of_hex, starts_with,
};
use crate::period_index::PeriodIndexView;
use crate::primitives::B256;
use crate::row_range::row_covered;
use crate::run_laws::{
    account_maximal, lemma_run_reports_maximal, run_over, storage_maximal,
};
use crate::stub_laws::roots_apart;
use crate::walk::{account_ctx, storage_ctx, ItemView};

verus! {

/// A subtree stands at `path` for the leaves of a table: they are all inactive, and its count is
/// theirs.
pub open spec fn stands_at(
    x: SubtreeView,
    path: Seq<u8>,
    keys: Seq<B256>,
    ctx: CtxView,
    index: PeriodIndexView,
    config: IdentifyConfig,
) -> bool {
    &&& all_nibbles(path)
    &&& x.path == hex_of(path)
    &&& x.leaf_count == keys_under(keys, path).len()
    &&& leaves_inactive(keys, path, ctx, index, config)
}

/// The trie of a table: its slots stand apart, each leaf is in one of them, and all leaves stand
/// below its topmost branch.
pub open spec fn trie_of_table(
    tree: Tree,
    keys: Seq<B256>,
    ctx: CtxView,
    index: PeriodIndexView,
    config: IdentifyConfig,
) -> bool {
    &&& slots_apart(tree)
    &&& trie_over(tree, keys, ctx, index, config)
    &&& forall|k: int| 0 <= k < keys.len() ==> key_under(#[trigger] keys[k], tree.path)
}

/// The tries of all tables, one per owner.
pub open spec fn tries_of_tables(
    account: Option<Tree>,
    tries: Seq<(Seq<u8>, Tree)>,
    leaves: Leaves,
    index: PeriodIndexView,
    config: IdentifyConfig,
) -> bool {
    &&& account matches Some(tree) ==> trie_of_table(
        tree,
        leaves.accounts@,
        account_ctx(config.scope),
        index,
        config,
    )
    &&& forall|i: int|
        0 <= i < tries.len() ==> (#[trigger] tries[i]).0.len() == 32 && trie_of_table(
            tries[i].1,
            slots_of(leaves.storages@, tries[i].0, 0),
            storage_ctx(tries[i].0),
            index,
            config,
        )
    &&& forall|i: int, j: int|
        0 <= i < j < tries.len() ==> (#[trigger] tries[i]).0 != (#[trigger] tries[j]).0
}

/// The leaves of the trie that a subtree is of.
pub open spec fn table_of(x: SubtreeView, leaves: Leaves) -> Seq<B256> {
    match x.trie {
        TrieKind::Account => leaves.accounts@,
        TrieKind::Storage => slots_of(leaves.storages@, x.owner, 0),
    }
}

/// The trie that a subtree is of.
pub open spec fn trie_of(x: SubtreeView, config: IdentifyConfig) -> CtxView {
    match x.trie {
        TrieKind::Account => account_ctx(config.scope),
        TrieKind::Storage => storage_ctx(x.owner),
    }
}

/// An inactive node of a trie stands for the leaves under it.
proof fn lemma_node_stands(
    tree: Tree,
    hash: Option<Seq<u8>>,
    x: SubtreeView,
    keys: Seq<B256>,
    ctx: CtxView,
    index: PeriodIndexView,
    config: IdentifyConfig,
) -> (path: Seq<u8>)
    requires
        slots_apart(tree),
        trie_over(tree, keys, ctx, index, config),
        inactive_node(tree, hash, x, ctx),
    ensures
        stands_at(x, path, keys, ctx, index, config),
    decreases tree,
{
    let n = tree.inner.len() as int;
    if inactive(tree) && hash is Some && x == crate::identifier::subtree_at(
        ctx,
        tree.path,
        hash->0,
        leaves(tree),
    ) {
        lemma_tree_counts_its_leaves(tree, keys, ctx, index, config);
        tree.path
    } else if inactive_inner(tree.inner, tree.branch, tree.path.len(), x, ctx, n) {
        let i = lemma_inner_at(tree, x, ctx, n);
        let kid = tree.inner[i];
        let kid_hash = child_hash(tree.branch, nibble_at(kid.path, tree.path.len()));
        lemma_slots_apart_at(tree.inner, n, i);
        lemma_trie_over_at(tree.inner, keys, ctx, index, config, n, i);
        lemma_node_stands(kid, kid_hash, x, keys, ctx, index, config)
    } else {
        let i = choose|i: int|
            0 <= i < tree.clusters.len() && maximal_cluster(
                #[trigger] tree.clusters[i],
                tree.branch,
                ctx,
            ).contains(x);
        let path = tree.clusters[i].path;
        assert(slot_path(tree, n + i) == path);
        lemma_cluster_inactive(path, keys, ctx, index, config);
        path
    }
}

/// A filter that drops nothing keeps all.
proof fn lemma_filter_all(keys: Seq<B256>, keep: spec_fn(B256) -> bool)
    requires
        forall|k: int| 0 <= k < keys.len() ==> keep(#[trigger] keys[k]),
    ensures
        keys.filter(keep) == keys,
    decreases keys.len(),
{
    reveal(Seq::filter);
    if keys.len() > 0 {
        let init = keys.drop_last();
        assert forall|k: int| 0 <= k < init.len() implies keep(#[trigger] init[k]) by {
            assert(init[k] == keys[k]);
        }
        lemma_filter_all(init, keep);
        assert(keep(keys[keys.len() - 1]));
        assert(keys.filter(keep) =~= keys);
    } else {
        assert(keys.filter(keep) =~= keys);
    }
}

/// What a whole trie reports stands for leaves under its path, is of that trie, and stands apart.
proof fn lemma_trie_reports(
    tree: Tree,
    known: Option<Seq<u8>>,
    x: SubtreeView,
    keys: Seq<B256>,
    ctx: CtxView,
    index: PeriodIndexView,
    config: IdentifyConfig,
) -> (path: Seq<u8>)
    requires
        trie_of_table(tree, keys, ctx, index, config),
        trie_maximal(tree, known, ctx).contains(x),
    ensures
        stands_at(x, path, keys, ctx, index, config),
        x.trie == ctx.trie_label,
        x.owner == ctx.owner,
{
    if tree.path.len() > 0 && inactive(tree) && known is Some {
        let none = Seq::<u8>::empty();
        lemma_tree_counts_its_leaves(tree, keys, ctx, index, config);
        assert forall|k: int| 0 <= k < keys.len() implies key_under(
            #[trigger] keys[k],
            none,
        ) by {}
        lemma_filter_all(keys, |key: B256| key_under(key, none));
        lemma_filter_all(keys, |key: B256| key_under(key, tree.path));
        assert forall|k: int|
            0 <= k < keys.len() && key_under(#[trigger] keys[k], none) implies crate::identifier::leaf_inactive(
            index,
            ctx,
            config,
            keys[k],
        ) by {
            assert(key_under(keys[k], tree.path));
        }
        none
    } else {
        let hash = if tree.path.len() == 0 {
            root_hash_of(tree, known)
        } else {
            None
        };
        assert(maximal(tree, None, ctx) == maximal_below(tree, ctx));
        assert(maximal(tree, hash, ctx).contains(x));
        lemma_maximal_stand_apart(tree, hash, ctx);
        lemma_node_of_trie(tree, hash, x, ctx);
        lemma_node_stands(tree, hash, x, keys, ctx, index, config)
    }
}

/// What a whole trie reports stands apart.
proof fn lemma_trie_apart(tree: Tree, known: Option<Seq<u8>>, ctx: CtxView)
    requires
        slots_apart(tree),
    ensures
        apart(trie_maximal(tree, known, ctx)),
{
    lemma_maximal_stand_apart(tree, root_hash_of(tree, known), ctx);
    lemma_maximal_stand_apart(tree, None, ctx);
    assert(maximal(tree, None, ctx) == maximal_below(tree, ctx));
}

/// A subtree of a storage trie is reported once, by the trie of its owner.
proof fn lemma_storage_once(
    tries: Seq<(Seq<u8>, Tree)>,
    account: Option<Tree>,
    leaves: Leaves,
    index: PeriodIndexView,
    config: IdentifyConfig,
    x: SubtreeView,
    n: int,
)
    requires
        0 <= n <= tries.len(),
        tries_of_tables(account, tries, leaves, index, config),
    ensures
        storage_maximal(tries, n).count(x) <= 1,
        storage_maximal(tries, n).contains(x) ==> x.trie == TrieKind::Storage,
    decreases n,
{
    if n > 0 {
        lemma_storage_once(tries, account, leaves, index, config, x, n - 1);
        let (owner, tree) = tries[n - 1];
        let ctx = storage_ctx(owner);
        let keys = slots_of(leaves.storages@, owner, 0);
        assert(trie_of_table(tries[n - 1].1, keys, ctx, index, config));
        lemma_trie_apart(tree, None, ctx);
        let new = trie_maximal(tree, None, ctx);
        let before = storage_maximal(tries, n - 1);
        assert(new.count(x) <= 1);
        if new.contains(x) {
            let path = lemma_trie_reports(tree, None, x, keys, ctx, index, config);
            if before.contains(x) {
                let i = lemma_storage_at(tries, n - 1, x);
                let other = tries[i].0;
                assert(trie_of_table(
                    tries[i].1,
                    slots_of(leaves.storages@, other, 0),
                    storage_ctx(other),
                    index,
                    config,
                ));
                let _ = lemma_trie_reports(
                    tries[i].1,
                    None,
                    x,
                    slots_of(leaves.storages@, other, 0),
                    storage_ctx(other),
                    index,
                    config,
                );
                assert(tries[i].0 != tries[n - 1].0);
            }
        }
    }
}

/// The one trie that a reported subtree is of, as its place among the storage tries.
spec fn reported_by(
    x: SubtreeView,
    account: Option<Tree>,
    tries: Seq<(Seq<u8>, Tree)>,
    state_root: Seq<u8>,
    config: IdentifyConfig,
    i: int,
) -> bool {
    if x.trie is Account {
        account matches Some(tree) && trie_maximal(
            tree,
            Some(state_root),
            account_ctx(config.scope),
        ).contains(x)
    } else {
        &&& 0 <= i < tries.len()
        &&& tries[i].0 == x.owner
        &&& trie_maximal(tries[i].1, None, storage_ctx(x.owner)).contains(x)
    }
}

/// A reported subtree is reported once, and by one trie.
proof fn lemma_reported_once(
    items: Seq<ItemView>,
    leaves: Leaves,
    state_root: Seq<u8>,
    index: PeriodIndexView,
    config: IdentifyConfig,
    account: Option<Tree>,
    tries: Seq<(Seq<u8>, Tree)>,
    x: SubtreeView,
) -> (i: int)
    requires
        run_over(items, leaves, index, config, account, tries),
        tries_of_tables(account, tries, leaves, index, config),
    ensures
        bag(identified(items, leaves, state_root, index, config)).count(x) <= 1,
        bag(identified(items, leaves, state_root, index, config)).contains(x) ==> reported_by(
            x,
            account,
            tries,
            state_root,
            config,
            i,
        ),
{
    lemma_run_reports_maximal(items, leaves, state_root, index, config, account, tries);
    let n = tries.len() as int;
    let all = bag(identified(items, leaves, state_root, index, config));
    let ctx = account_ctx(config.scope);
    lemma_storage_once(tries, account, leaves, index, config, x, n);
    if let Some(tree) = account {
        lemma_trie_apart(tree, Some(state_root), ctx);
        assert(account_maximal(account, state_root, config.scope).count(x) <= 1);
        if account_maximal(account, state_root, config.scope).contains(x) {
            let _ = lemma_trie_reports(
                tree,
                Some(state_root),
                x,
                leaves.accounts@,
                ctx,
                index,
                config,
            );
        }
    }
    if storage_maximal(tries, n).contains(x) {
        let i = lemma_storage_at(tries, n, x);
        let owner = tries[i].0;
        assert(trie_of_table(
            tries[i].1,
            slots_of(leaves.storages@, owner, 0),
            storage_ctx(owner),
            index,
            config,
        ));
        let _ = lemma_trie_reports(
            tries[i].1,
            None,
            x,
            slots_of(leaves.storages@, owner, 0),
            storage_ctx(owner),
            index,
            config,
        );
        i
    } else {
        0
    }
}

/// Each reported subtree stands at a path for the leaves of its trie under it: they are all
/// inactive, and its count is theirs.
pub proof fn lemma_reported_leaves_are_inactive(
    items: Seq<ItemView>,
    leaves: Leaves,
    state_root: Seq<u8>,
    index: PeriodIndexView,
    config: IdentifyConfig,
    account: Option<Tree>,
    tries: Seq<(Seq<u8>, Tree)>,
    n: int,
) -> (path: Seq<u8>)
    requires
        run_over(items, leaves, index, config, account, tries),
        tries_of_tables(account, tries, leaves, index, config),
        0 <= n < identified(items, leaves, state_root, index, config).len(),
    ensures
        ({
            let x = identified(items, leaves, state_root, index, config)[n];
            stands_at(x, path, table_of(x, leaves), trie_of(x, config), index, config)
        }),
{
    let out = identified(items, leaves, state_root, index, config);
    let x = out[n];
    out.to_multiset_ensures();
    assert(out.contains(x));
    assert(bag(out).count(x) > 0);
    let i = lemma_reported_once(items, leaves, state_root, index, config, account, tries, x);
    match x.trie {
        TrieKind::Account => {
            lemma_trie_reports(
                account->0,
                Some(state_root),
                x,
                leaves.accounts@,
                account_ctx(config.scope),
                index,
                config,
            )
        },
        TrieKind::Storage => {
            assert(tries[i].0 == x.owner);
            lemma_trie_reports(
                tries[i].1,
                None,
                x,
                slots_of(leaves.storages@, x.owner, 0),
                storage_ctx(x.owner),
                index,
                config,
            )
        },
    }
}

/// No reported subtree stands at or below another of its trie.
pub proof fn lemma_reported_stand_apart(
    items: Seq<ItemView>,
    leaves: Leaves,
    state_root: Seq<u8>,
    index: PeriodIndexView,
    config: IdentifyConfig,
    account: Option<Tree>,
    tries: Seq<(Seq<u8>, Tree)>,
    m: int,
    n: int,
)
    requires
        run_over(items, leaves, index, config, account, tries),
        tries_of_tables(account, tries, leaves, index, config),
        0 <= m < identified(items, leaves, state_root, index, config).len(),
        0 <= n < identified(items, leaves, state_root, index, config).len(),
        m != n,
    ensures
        ({
            let x = identified(items, leaves, state_root, index, config)[m];
            let y = identified(items, leaves, state_root, index, config)[n];
            x.trie == y.trie && x.owner == y.owner ==> !text_under(x.path, y.path)
        }),
{
    let out = identified(items, leaves, state_root, index, config);
    let x = out[m];
    let y = out[n];
    out.to_multiset_ensures();
    assert(out.contains(x) && out.contains(y));
    assert(bag(out).count(x) > 0 && bag(out).count(y) > 0);
    assert forall|z: SubtreeView| bag(out).contains(z) implies #[trigger] bag(out).count(z)
        == 1 by {
        let _ = lemma_reported_once(items, leaves, state_root, index, config, account, tries, z);
    }
    out.lemma_multiset_has_no_duplicates_conv();
    assert(x != y);
    if x.trie == y.trie && x.owner == y.owner {
        let i = lemma_reported_once(items, leaves, state_root, index, config, account, tries, x);
        let j = lemma_reported_once(items, leaves, state_root, index, config, account, tries, y);
        match x.trie {
            TrieKind::Account => {
                lemma_trie_apart(account->0, Some(state_root), account_ctx(config.scope));
            },
            TrieKind::Storage => {
                if i < j {
                    assert(tries[i].0 != tries[j].0);
                } else if j < i {
                    assert(tries[j].0 != tries[i].0);
                }
                assert(tries[i].0.len() == 32);
                lemma_trie_apart(tries[i].1, None, storage_ctx(x.owner));
            },
        }
    }
}

/// The text of nibbles leads back to them.
proof fn lemma_text_back(path: Seq<u8>)
    requires
        all_nibbles(path),
    ensures
        path_of_hex(hex_of(path)) == path,
{
    assert forall|i: int| 0 <= i < path.len() implies path_of_hex(hex_of(path))[i] == path[i] by {
        assert(hex_of(path)[i] == hex_char(path[i]));
        lemma_hex_digit(path[i]);
    }
    assert(path_of_hex(hex_of(path)) =~= path);
}

/// The roots of reported subtrees stand apart, so that none of them is in the way of another's
/// stub.
pub proof fn lemma_reported_roots_apart(
    items: Seq<ItemView>,
    leaves: Leaves,
    state_root: Seq<u8>,
    index: PeriodIndexView,
    config: IdentifyConfig,
    account: Option<Tree>,
    tries: Seq<(Seq<u8>, Tree)>,
)
    requires
        run_over(items, leaves, index, config, account, tries),
        tries_of_tables(account, tries, leaves, index, config),
    ensures
        roots_apart(identified(items, leaves, state_root, index, config)),
{
    let out = identified(items, leaves, state_root, index, config);
    assert forall|m: int, n: int|
        0 <= m < out.len() && 0 <= n < out.len() && m != n implies !row_covered(
        root_row(#[trigger] out[m]),
        root_row(#[trigger] out[n]).owner,
        root_row(out[n]).path,
    ) by {
        let x = out[m];
        let y = out[n];
        let p = lemma_reported_leaves_are_inactive(
            items,
            leaves,
            state_root,
            index,
            config,
            account,
            tries,
            m,
        );
        let q = lemma_reported_leaves_are_inactive(
            items,
            leaves,
            state_root,
            index,
            config,
            account,
            tries,
            n,
        );
        lemma_text_back(p);
        lemma_text_back(q);
        lemma_reported_stand_apart(
            items,
            leaves,
            state_root,
            index,
            config,
            account,
            tries,
            m,
            n,
        );
        lemma_owner_len(items, leaves, state_root, index, config, account, tries, m);
        lemma_owner_len(items, leaves, state_root, index, config, account, tries, n);
        if row_covered(root_row(x), root_row(y).owner, root_row(y).path) {
            assert(starts_with(p, q));
            assert(text_under(hex_of(p), hex_of(q)));
        }
    }
}

/// The owner of a reported subtree of a storage trie is a hash, and all of the account trie have
/// the same.
pub proof fn lemma_owner_len(
    items: Seq<ItemView>,
    leaves: Leaves,
    state_root: Seq<u8>,
    index: PeriodIndexView,
    config: IdentifyConfig,
    account: Option<Tree>,
    tries: Seq<(Seq<u8>, Tree)>,
    n: int,
)
    requires
        run_over(items, leaves, index, config, account, tries),
        tries_of_tables(account, tries, leaves, index, config),
        0 <= n < identified(items, leaves, state_root, index, config).len(),
    ensures
        ({
            let x = identified(items, leaves, state_root, index, config)[n];
            &&& x.owner.len() == 32
            &&& x.trie is Account ==> x.owner == account_ctx(config.scope).owner
        }),
{
    let out = identified(items, leaves, state_root, index, config);
    let x = out[n];
    out.to_multiset_ensures();
    assert(out.contains(x));
    assert(bag(out).count(x) > 0);
    let i = lemma_reported_once(items, leaves, state_root, index, config, account, tries, x);
    if x.trie is Account {
        let _ = lemma_trie_reports(
            account->0,
            Some(state_root),
            x,
            leaves.accounts@,
            account_ctx(config.scope),
            index,
            config,
        );
    } else {
        assert(tries[i].0.len() == 32);
    }
}

/// A node of a tree stands at this path with this hash: the root with its own, or a node below by
/// the hash that its parent holds for it.
pub open spec fn hashed_node(
    tree: Tree,
    hash: Option<Seq<u8>>,
    path: Seq<u8>,
    h: Seq<u8>,
) -> bool
    decreases tree, 1int,
{
    ||| tree.path == path && hash == Some(h)
    ||| hashed_below(tree.inner, tree.branch, tree.path.len(), path, h, tree.inner.len() as int)
    ||| exists|i: int|
        0 <= i < tree.clusters.len() && (#[trigger] tree.clusters[i]).path == path && child_hash(
            tree.branch,
            path.last() as int,
        ) == Some(h)
}

/// A node of the first `n` branches below a branch stands at this path with this hash.
pub open spec fn hashed_below(
    trees: Seq<Tree>,
    branch: crate::identifier::BranchView,
    depth: nat,
    path: Seq<u8>,
    h: Seq<u8>,
    n: int,
) -> bool
    decreases trees, n,
{
    if n <= 0 || n > trees.len() {
        false
    } else {
        ||| hashed_below(trees, branch, depth, path, h, n - 1)
        ||| hashed_node(
            trees[n - 1],
            child_hash(branch, nibble_at(trees[n - 1].path, depth)),
            path,
            h,
        )
    }
}

/// A hashed node whose leaves in the table are all inactive is an inactive node.
proof fn lemma_quiet_node(
    tree: Tree,
    hash: Option<Seq<u8>>,
    path: Seq<u8>,
    h: Seq<u8>,
    keys: Seq<B256>,
    ctx: CtxView,
    index: PeriodIndexView,
    config: IdentifyConfig,
) -> (x: SubtreeView)
    requires
        slots_apart(tree),
        trie_over(tree, keys, ctx, index, config),
        hashed_node(tree, hash, path, h),
        leaves_inactive(keys, path, ctx, index, config),
        keys_under(keys, path).len() > 0,
    ensures
        inactive_node(tree, hash, x, ctx),
        x.path == hex_of(path),
        x.hash == h,
        x.leaf_count == keys_under(keys, path).len(),
    decreases tree, 1int,
{
    let n = tree.inner.len() as int;
    let x = crate::identifier::subtree_at(ctx, path, h, keys_under(keys, path).len());
    if tree.path == path && hash == Some(h) {
        lemma_tree_counts_its_leaves(tree, keys, ctx, index, config);
    } else if hashed_below(tree.inner, tree.branch, tree.path.len(), path, h, n) {
        lemma_quiet_below(tree, path, h, keys, ctx, index, config, n);
    } else {
        let i = choose|i: int|
            0 <= i < tree.clusters.len() && (#[trigger] tree.clusters[i]).path == path
                && child_hash(tree.branch, path.last() as int) == Some(h);
        lemma_cluster_inactive(path, keys, ctx, index, config);
        assert(maximal_cluster(tree.clusters[i], tree.branch, ctx).contains(x));
    }
    x
}

/// The same of the first `n` branches below a branch.
proof fn lemma_quiet_below(
    tree: Tree,
    path: Seq<u8>,
    h: Seq<u8>,
    keys: Seq<B256>,
    ctx: CtxView,
    index: PeriodIndexView,
    config: IdentifyConfig,
    n: int,
)
    requires
        slots_apart(tree),
        trie_over(tree, keys, ctx, index, config),
        0 <= n <= tree.inner.len(),
        hashed_below(tree.inner, tree.branch, tree.path.len(), path, h, n),
        leaves_inactive(keys, path, ctx, index, config),
        keys_under(keys, path).len() > 0,
    ensures
        inactive_inner(
            tree.inner,
            tree.branch,
            tree.path.len(),
            crate::identifier::subtree_at(ctx, path, h, keys_under(keys, path).len()),
            ctx,
            n,
        ),
    decreases tree, 0int, n,
{
    let depth = tree.path.len();
    if hashed_below(tree.inner, tree.branch, depth, path, h, n - 1) {
        lemma_quiet_below(tree, path, h, keys, ctx, index, config, n - 1);
    } else {
        let kid = tree.inner[n - 1];
        let m = tree.inner.len() as int;
        lemma_slots_apart_at(tree.inner, m, n - 1);
        lemma_trie_over_at(tree.inner, keys, ctx, index, config, m, n - 1);
        let x = lemma_quiet_node(
            kid,
            child_hash(tree.branch, nibble_at(kid.path, depth)),
            path,
            h,
            keys,
            ctx,
            index,
            config,
        );
        lemma_node_of_trie(
            kid,
            child_hash(tree.branch, nibble_at(kid.path, depth)),
            x,
            ctx,
        );
        assert(x == crate::identifier::subtree_at(
            ctx,
            path,
            h,
            keys_under(keys, path).len(),
        ));
    }
}

/// No inactive subtree is missed: a node of the account trie that has a hash, and leaves that are
/// all inactive, is reported, or one above it is.
pub proof fn lemma_no_account_node_is_missed(
    items: Seq<ItemView>,
    leaves: Leaves,
    state_root: Seq<u8>,
    index: PeriodIndexView,
    config: IdentifyConfig,
    tree: Tree,
    tries: Seq<(Seq<u8>, Tree)>,
    path: Seq<u8>,
    h: Seq<u8>,
) -> (n: int)
    requires
        run_over(items, leaves, index, config, Some(tree), tries),
        tries_of_tables(Some(tree), tries, leaves, index, config),
        config.scope != crate::identifier::Scope::Storage,
        tree.path.len() == 0,
        hashed_node(
            tree,
            if tree.branch.root_hash is Some {
                tree.branch.root_hash
            } else {
                Some(state_root)
            },
            path,
            h,
        ),
        leaves_inactive(leaves.accounts@, path, account_ctx(config.scope), index, config),
        keys_under(leaves.accounts@, path).len() > 0,
    ensures
        ({
            let out = identified(items, leaves, state_root, index, config);
            &&& 0 <= n < out.len()
            &&& out[n].trie is Account
            &&& text_under(hex_of(path), out[n].path)
        }),
{
    let ctx = account_ctx(config.scope);
    let hash = root_hash_of(tree, Some(state_root));
    let x = lemma_quiet_node(tree, hash, path, h, leaves.accounts@, ctx, index, config);
    let y = crate::maximal_laws::lemma_maximal_cover(tree, hash, x, ctx);
    lemma_maximal_stand_apart(tree, hash, ctx);
    lemma_node_of_trie(tree, hash, y, ctx);
    lemma_run_reports_maximal(items, leaves, state_root, index, config, Some(tree), tries);
    let out = identified(items, leaves, state_root, index, config);
    out.to_multiset_ensures();
    assert(account_maximal(Some(tree), state_root, config.scope).contains(y));
    assert(bag(out).count(y) > 0);
    assert(out.contains(y));
    choose|n: int| 0 <= n < out.len() && out[n] == y
}

/// No inactive subtree is missed: a node of a storage trie that has a hash, and leaves that are all
/// inactive, is reported, or one above it is.
pub proof fn lemma_no_storage_node_is_missed(
    items: Seq<ItemView>,
    leaves: Leaves,
    state_root: Seq<u8>,
    index: PeriodIndexView,
    config: IdentifyConfig,
    account: Option<Tree>,
    tries: Seq<(Seq<u8>, Tree)>,
    i: int,
    path: Seq<u8>,
    h: Seq<u8>,
) -> (n: int)
    requires
        run_over(items, leaves, index, config, account, tries),
        tries_of_tables(account, tries, leaves, index, config),
        config.scope != crate::identifier::Scope::Account,
        0 <= i < tries.len(),
        hashed_node(
            tries[i].1,
            if tries[i].1.path.len() == 0 {
                tries[i].1.branch.root_hash
            } else {
                None
            },
            path,
            h,
        ),
        leaves_inactive(
            slots_of(leaves.storages@, tries[i].0, 0),
            path,
            storage_ctx(tries[i].0),
            index,
            config,
        ),
        keys_under(slots_of(leaves.storages@, tries[i].0, 0), path).len() > 0,
    ensures
        ({
            let out = identified(items, leaves, state_root, index, config);
            &&& 0 <= n < out.len()
            &&& out[n].trie is Storage
            &&& out[n].owner == tries[i].0
            &&& text_under(hex_of(path), out[n].path)
        }),
{
    let (owner, tree) = tries[i];
    let ctx = storage_ctx(owner);
    let keys = slots_of(leaves.storages@, owner, 0);
    assert(trie_of_table(tries[i].1, keys, ctx, index, config));
    let hash = if tree.path.len() == 0 {
        root_hash_of(tree, None)
    } else {
        None
    };
    let x = lemma_quiet_node(tree, hash, path, h, keys, ctx, index, config);
    let y = crate::maximal_laws::lemma_maximal_cover(tree, hash, x, ctx);
    lemma_maximal_stand_apart(tree, hash, ctx);
    lemma_node_of_trie(tree, hash, y, ctx);
    assert(maximal(tree, None, ctx) == maximal_below(tree, ctx));
    assert(trie_maximal(tree, None, ctx).contains(y));
    crate::age_laws::lemma_storage_has(tries, tries.len() as int, i, y);
    lemma_run_reports_maximal(items, leaves, state_root, index, config, account, tries);
    let out = identified(items, leaves, state_root, index, config);
    out.to_multiset_ensures();
    assert(bag(out).count(y) > 0);
    assert(out.contains(y));
    choose|n: int| 0 <= n < out.len() && out[n] == y
}

} // verus!
