//! What is reported and counted, in terms of the records of last writes: a leaf counts by the last
//! row of its own, and a leaf without one is active.
use vstd::prelude::*;

use crate::identifier::{
    cluster_of, inactive_at, leaf_block, leaf_inactive, leaf_sum, missing, BranchView, CtxView,
    IdentifyConfig, Scope, SubtreeView,
};
use crate::identify::{clusters_of, identified, missing_under, run_items, slots_of, Leaves};
use crate::identify_laws::{visits, Tree, Visit};
use crate::key_order::{key_under, keys_under};
use crate::maximal_laws::text_under;
use crate::nibbles::{all_nibbles, hex_char, hex_of, lemma_hex_digit, starts_with, unpacked};
use crate::outside::keccak256_of;
use crate::period_index::{
    found_in, hashed_accounts, hashed_slots, rows_after, PeriodIndexView,
};
use crate::primitives::{Address, B256};
use crate::report_laws::{
    lemma_owner_len, lemma_reported_leaves_are_inactive, table_of, trie_of, tries_of_tables,
};
use crate::run_laws::{owned, run_over, storage_visits, tries_in_turn, visit_of};
use crate::walk::{
    empty_clusters, item_ctx, leaf_nibbles, leaf_prefixes, lemma_leaf_nibbles, ItemView,
};

verus! {

/// The rows of accounts' and slots' last writes.
pub struct Records {
    pub accounts: Seq<(Address, u64)>,
    pub slots: Seq<((Address, B256), u64)>,
}

/// Row `i` is the last one of the account with this hashed address.
pub open spec fn account_row(records: Records, hash: Seq<u8>, i: int) -> bool {
    &&& 0 <= i < records.accounts.len()
    &&& keccak256_of(records.accounts[i].0@) == hash
    &&& forall|j: int|
        i < j < records.accounts.len() ==> keccak256_of((#[trigger] records.accounts[j]).0@) != hash
}

/// Row `i` is the last one of the slot with this hash of the account with this hashed address.
pub open spec fn slot_row(records: Records, owner: Seq<u8>, hash: Seq<u8>, i: int) -> bool {
    &&& 0 <= i < records.slots.len()
    &&& keccak256_of(records.slots[i].0.0@) == owner
    &&& keccak256_of(records.slots[i].0.1@) == hash
    &&& forall|j: int|
        i < j < records.slots.len() ==> !(keccak256_of((#[trigger] records.slots[j]).0.0@) == owner
            && keccak256_of(records.slots[j].0.1@) == hash)
}

/// The last write of a leaf by its own rows: those of its account, or of its slot of its owner.
pub open spec fn own_block(
    records: Records,
    owner: Option<Seq<u8>>,
    key: B256,
    block: u64,
) -> bool {
    match owner {
        None => exists|i: int| #[trigger]
            account_row(records, key@, i) && records.accounts[i].1 == block,
        Some(o) => exists|i: int| #[trigger]
            slot_row(records, o, key@, i) && records.slots[i].1 == block,
    }
}

/// A leaf has a row of its own.
pub open spec fn has_row(records: Records, owner: Option<Seq<u8>>, key: B256) -> bool {
    match owner {
        None => exists|i: int|
            0 <= i < records.accounts.len() && keccak256_of((#[trigger] records.accounts[i]).0@)
                == key@,
        Some(o) => exists|i: int|
            0 <= i < records.slots.len() && keccak256_of((#[trigger] records.slots[i]).0.0@) == o
                && keccak256_of(records.slots[i].0.1@) == key@,
    }
}

/// The index was built from these rows.
pub open spec fn index_of(index: PeriodIndexView, records: Records) -> bool {
    &&& index.accounts == rows_after(
        hashed_accounts(records.accounts),
        records.accounts.len() as int,
    )
    &&& index.storage == rows_after(hashed_slots(records.slots), records.slots.len() as int)
    &&& forall|i: int|
        0 <= i < records.slots.len() ==> keccak256_of((#[trigger] records.slots[i]).0.0@).len()
            == 32
}

/// What is found is the last row of a key.
proof fn lemma_found_is_last(rows: Seq<(Seq<u8>, u64)>, key: Seq<u8>, n: int) -> (i: int)
    requires
        0 <= n <= rows.len(),
    ensures
        found_in(rows_after(rows, n), key) is None ==> forall|j: int|
            0 <= j < n ==> (#[trigger] rows[j]).0 != key,
        found_in(rows_after(rows, n), key) matches Some(block) ==> {
            &&& 0 <= i < n
            &&& rows[i].0 == key
            &&& rows[i].1 == block
            &&& forall|j: int| i < j < n ==> (#[trigger] rows[j]).0 != key
        },
    decreases n,
{
    if n == 0 {
        0
    } else if rows[n - 1].0 == key {
        n - 1
    } else {
        lemma_found_is_last(rows, key, n - 1)
    }
}

/// The trie with this owner.
pub open spec fn is_trie(ctx: CtxView, owner: Option<Seq<u8>>) -> bool {
    match owner {
        None => ctx.trie_label is Account,
        Some(o) => ctx.trie_label is Storage && ctx.owner == o && o.len() == 32,
    }
}

/// The last write of a leaf is that of the last row of its own, and of nothing else: a slot has
/// none from its account, nor an account from its slots.
pub proof fn lemma_leaves_have_own_rows(
    index: PeriodIndexView,
    records: Records,
    ctx: CtxView,
    owner: Option<Seq<u8>>,
    key: B256,
)
    requires
        index_of(index, records),
        is_trie(ctx, owner),
    ensures
        match leaf_block(index, ctx, key) {
            Some(block) => own_block(records, owner, key, block) && has_row(records, owner, key),
            None => !has_row(records, owner, key),
        },
{
    match owner {
        None => {
            let rows = hashed_accounts(records.accounts);
            let i = lemma_found_is_last(rows, key@, records.accounts.len() as int);
            match leaf_block(index, ctx, key) {
                Some(block) => {
                    assert forall|j: int| i < j < records.accounts.len() implies keccak256_of(
                        (#[trigger] records.accounts[j]).0@,
                    ) != key@ by {
                        assert(rows[j].0 != key@);
                    }
                    assert(account_row(records, key@, i));
                },
                None => {
                    assert forall|j: int| 0 <= j < records.accounts.len() implies keccak256_of(
                        (#[trigger] records.accounts[j]).0@,
                    ) != key@ by {
                        assert(rows[j].0 != key@);
                    }
                },
            }
        },
        Some(o) => {
            let rows = hashed_slots(records.slots);
            let whole = o + key@;
            let i = lemma_found_is_last(rows, whole, records.slots.len() as int);
            assert forall|j: int| 0 <= j < records.slots.len() implies ((#[trigger] rows[j]).0
                == whole <==> keccak256_of(records.slots[j].0.0@) == o && keccak256_of(
                records.slots[j].0.1@,
            ) == key@) by {
                let a = keccak256_of(records.slots[j].0.0@);
                let b = keccak256_of(records.slots[j].0.1@);
                assert(records.slots[j].0.0@.len() == 20);
                assert(a.len() == 32);
                if a + b == whole {
                    assert((a + b).take(32) =~= a);
                    assert(whole.take(32) =~= o);
                    assert((a + b).skip(32) =~= b);
                    assert(whole.skip(32) =~= key@);
                }
            }
            match leaf_block(index, ctx, key) {
                Some(block) => {
                    assert(rows[i].0 == whole);
                    assert forall|j: int| i < j < records.slots.len() implies !(keccak256_of(
                        (#[trigger] records.slots[j]).0.0@,
                    ) == o && keccak256_of(records.slots[j].0.1@) == key@) by {
                        assert(rows[j].0 != whole);
                    }
                    assert(slot_row(records, o, key@, i));
                    assert(keccak256_of(records.slots[i].0.0@) == o);
                },
                None => {
                    assert forall|j: int| 0 <= j < records.slots.len() implies !(keccak256_of(
                        (#[trigger] records.slots[j]).0.0@,
                    ) == o && keccak256_of(records.slots[j].0.1@) == key@) by {
                        assert(rows[j].0 != whole);
                    }
                },
            }
        },
    }
}

/// The owner of the trie that a subtree is of.
pub open spec fn owner_of(x: SubtreeView) -> Option<Seq<u8>> {
    if x.trie is Account {
        None
    } else {
        Some(x.owner)
    }
}

/// Text that begins alike is that of nibbles that begin alike.
proof fn lemma_text_to_path(a: Seq<u8>, b: Seq<u8>)
    requires
        all_nibbles(a),
        all_nibbles(b),
        text_under(hex_of(a), hex_of(b)),
    ensures
        starts_with(a, b),
{
    assert(hex_of(a).len() == a.len() && hex_of(b).len() == b.len());
    assert forall|i: int| 0 <= i < b.len() implies a[i] == b[i] by {
        assert(hex_of(a)[i] == hex_of(b)[i]);
        assert(hex_of(a)[i] == hex_char(a[i]));
        assert(hex_of(b)[i] == hex_char(b[i]));
        lemma_hex_digit(a[i]);
        lemma_hex_digit(b[i]);
    }
}

/// Every leaf under a reported subtree has a row of its own, and the block of its last row is old
/// enough. So a leaf without a row is under no reported subtree.
pub proof fn lemma_reported_leaves_are_recorded(
    items: Seq<ItemView>,
    leaves: Leaves,
    state_root: Seq<u8>,
    index: PeriodIndexView,
    config: IdentifyConfig,
    account: Option<Tree>,
    tries: Seq<(Seq<u8>, Tree)>,
    records: Records,
    n: int,
    key: B256,
) -> (block: u64)
    requires
        run_over(items, leaves, index, config, account, tries),
        tries_of_tables(account, tries, leaves, index, config),
        index_of(index, records),
        0 <= n < identified(items, leaves, state_root, index, config).len(),
        ({
            let x = identified(items, leaves, state_root, index, config)[n];
            &&& table_of(x, leaves).contains(key)
            &&& text_under(hex_of(unpacked(key@)), x.path)
        }),
    ensures
        ({
            let x = identified(items, leaves, state_root, index, config)[n];
            &&& has_row(records, owner_of(x), key)
            &&& own_block(records, owner_of(x), key, block)
            &&& inactive_at(config, block)
        }),
{
    let x = identified(items, leaves, state_root, index, config)[n];
    let path = lemma_reported_leaves_are_inactive(
        items,
        leaves,
        state_root,
        index,
        config,
        account,
        tries,
        n,
    );
    lemma_owner_len(items, leaves, state_root, index, config, account, tries, n);
    let keys = table_of(x, leaves);
    let ctx = trie_of(x, config);
    assert(all_nibbles(unpacked(key@)));
    lemma_text_to_path(unpacked(key@), path);
    let k = choose|k: int| 0 <= k < keys.len() && keys[k] == key;
    assert(key_under(keys[k], path));
    assert(leaf_inactive(index, ctx, config, keys[k]));
    lemma_leaves_have_own_rows(index, records, ctx, owner_of(x), key);
    leaf_block(index, ctx, key)->0
}

/// A nibble is looked for among the leaves exactly where the branch has a child there that is not
/// yielded as a branch, once, and in ascending order.
pub proof fn lemma_scanned_slots(path: Seq<u8>, branch: BranchView)
    ensures
        forall|n: u8|
            n < 16 ==> (#[trigger] leaf_prefixes(path, branch).contains(path.push(n)) <==> (
            branch.state_mask >> (n as u16)) % 2 == 1 && (branch.tree_mask >> (n as u16)) % 2 != 1),
        forall|i: int, j: int|
            0 <= i < j < leaf_prefixes(path, branch).len() ==> (#[trigger] leaf_prefixes(
                path,
                branch,
            )[i]).last() < (#[trigger] leaf_prefixes(path, branch)[j]).last(),
        forall|i: int|
            0 <= i < leaf_prefixes(path, branch).len() ==> (#[trigger] leaf_prefixes(
                path,
                branch,
            )[i]).drop_last() == path,
{
    lemma_nibbles_listed(branch, 16);
    let nibbles = leaf_nibbles(branch, 16);
    let prefixes = leaf_prefixes(path, branch);
    assert forall|n: u8| n < 16 implies (#[trigger] prefixes.contains(path.push(n)) <==> (
    branch.state_mask >> (n as u16)) % 2 == 1 && (branch.tree_mask >> (n as u16)) % 2 != 1) by {
        crate::trie_node::lemma_bits_are_digits(branch.state_mask, n as u16);
        crate::trie_node::lemma_bits_are_digits(branch.tree_mask, n as u16);
        if prefixes.contains(path.push(n)) {
            let i = choose|i: int| 0 <= i < prefixes.len() && prefixes[i] == path.push(n);
            assert(path.push(nibbles[i]).last() == path.push(n).last());
            assert(nibbles[i] == n);
            assert(nibbles.contains(n));
        }
        if nibbles.contains(n) {
            let i = choose|i: int| 0 <= i < nibbles.len() && nibbles[i] == n;
            assert(prefixes[i] == path.push(n));
        }
    }
    assert forall|i: int| 0 <= i < prefixes.len() implies (#[trigger] prefixes[i]).drop_last()
        == path && prefixes[i].last() == nibbles[i] by {
        assert(prefixes[i] == path.push(nibbles[i]));
        assert(prefixes[i].drop_last() =~= path);
    }
}

/// The scanned nibbles below `n`, listed.
proof fn lemma_nibbles_listed(branch: BranchView, n: int)
    requires
        0 <= n <= 16,
    ensures
        forall|b: u8|
            b < n ==> (#[trigger] leaf_nibbles(branch, n).contains(b)
                <==> crate::trie_node::has_bit(branch.state_mask, b as int)
                && !crate::trie_node::has_bit(branch.tree_mask, b as int)),
        forall|i: int, j: int|
            0 <= i < j < leaf_nibbles(branch, n).len() ==> #[trigger] leaf_nibbles(branch, n)[i]
                < #[trigger] leaf_nibbles(branch, n)[j],
        forall|i: int|
            0 <= i < leaf_nibbles(branch, n).len() ==> #[trigger] leaf_nibbles(branch, n)[i] < n,
    decreases n,
{
    if n > 0 {
        lemma_nibbles_listed(branch, n - 1);
        lemma_leaf_nibbles(branch, n);
        let before = leaf_nibbles(branch, n - 1);
        let all = leaf_nibbles(branch, n);
        assert forall|b: u8| b < n implies (#[trigger] all.contains(b)
            <==> crate::trie_node::has_bit(branch.state_mask, b as int)
            && !crate::trie_node::has_bit(branch.tree_mask, b as int)) by {
            if b < n - 1 {
                if before.contains(b) {
                    let i = choose|i: int| 0 <= i < before.len() && before[i] == b;
                    assert(all[i] == b);
                }
                if all.contains(b) {
                    let i = choose|i: int| 0 <= i < all.len() && all[i] == b;
                    assert(i < before.len());
                    assert(before[i] == b);
                }
            } else {
                if all.len() > before.len() {
                    assert(all[before.len() as int] == b);
                } else if all.contains(b) {
                    let i = choose|i: int| 0 <= i < all.len() && all[i] == b;
                    assert(before[i] < n - 1);
                }
            }
        }
    }
}

/// Leaves with the owner of their trie.
pub open spec fn tagged(owner: Option<Seq<u8>>, keys: Seq<B256>) -> Seq<(Option<Seq<u8>>, B256)> {
    Seq::new(keys.len(), |i: int| (owner, keys[i]))
}

/// The leaves under the first `n` prefixes, prefix by prefix.
pub open spec fn scanned_under(
    owner: Option<Seq<u8>>,
    keys: Seq<B256>,
    prefixes: Seq<Seq<u8>>,
    n: int,
) -> Seq<(Option<Seq<u8>>, B256)>
    decreases n,
{
    if n <= 0 {
        Seq::empty()
    } else {
        scanned_under(owner, keys, prefixes, n - 1) + tagged(
            owner,
            keys_under(keys, prefixes[n - 1]),
        )
    }
}

/// The leaves of the trie with this owner.
pub open spec fn leaves_with(leaves: Leaves, owner: Option<Seq<u8>>) -> Seq<B256> {
    match owner {
        None => leaves.accounts@,
        Some(o) => slots_of(leaves.storages@, o, 0),
    }
}

/// The leaves that a run looks at for its first `n` items: those under the slots of each branch
/// that are not branches themselves. Storage tries are left out where only accounts are asked for.
pub open spec fn scanned(
    items: Seq<ItemView>,
    leaves: Leaves,
    scope: Scope,
    n: int,
) -> Seq<(Option<Seq<u8>>, B256)>
    decreases n,
{
    if n <= 0 {
        Seq::empty()
    } else {
        let before = scanned(items, leaves, scope, n - 1);
        let item = items[n - 1];
        let prefixes = leaf_prefixes(item.path, item.branch);
        if item.owner is Some && scope is Account {
            before
        } else {
            before + scanned_under(
                item.owner,
                leaves_with(leaves, item.owner),
                prefixes,
                prefixes.len() as int,
            )
        }
    }
}

/// How many of some leaves are of the account trie, of storage tries, and without a row.
pub open spec fn count_accounts(s: Seq<(Option<Seq<u8>>, B256)>) -> nat {
    s.filter(|leaf: (Option<Seq<u8>>, B256)| leaf.0 is None).len()
}

/// How many of some leaves are of storage tries.
pub open spec fn count_slots(s: Seq<(Option<Seq<u8>>, B256)>) -> nat {
    s.filter(|leaf: (Option<Seq<u8>>, B256)| leaf.0 is Some).len()
}

/// How many of some leaves have no row of their own.
pub open spec fn count_unrecorded(s: Seq<(Option<Seq<u8>>, B256)>, records: Records) -> nat {
    s.filter(|leaf: (Option<Seq<u8>>, B256)| !has_row(records, leaf.0, leaf.1)).len()
}

/// A filter of two sequences one after the other.
proof fn lemma_filter_adds<T>(a: Seq<T>, b: Seq<T>, keep: spec_fn(T) -> bool)
    ensures
        (a + b).filter(keep) == a.filter(keep) + b.filter(keep),
    decreases b.len(),
{
    reveal(Seq::filter);
    if b.len() == 0 {
        assert(a + b =~= a);
        assert(a.filter(keep) + b.filter(keep) =~= a.filter(keep));
    } else {
        lemma_filter_adds(a, b.drop_last(), keep);
        assert((a + b).drop_last() =~= a + b.drop_last());
        assert((a + b).last() == b.last());
        assert((a + b).filter(keep) =~= a.filter(keep) + b.filter(keep));
    }
}

/// The counts of two sequences of leaves add up.
proof fn lemma_counts_add(
    a: Seq<(Option<Seq<u8>>, B256)>,
    b: Seq<(Option<Seq<u8>>, B256)>,
    records: Records,
)
    ensures
        count_accounts(a + b) == count_accounts(a) + count_accounts(b),
        count_slots(a + b) == count_slots(a) + count_slots(b),
        count_unrecorded(a + b, records) == count_unrecorded(a, records) + count_unrecorded(
            b,
            records,
        ),
{
    lemma_filter_adds(a, b, |leaf: (Option<Seq<u8>>, B256)| leaf.0 is None);
    lemma_filter_adds(a, b, |leaf: (Option<Seq<u8>>, B256)| leaf.0 is Some);
    lemma_filter_adds(
        a,
        b,
        |leaf: (Option<Seq<u8>>, B256)| !has_row(records, leaf.0, leaf.1),
    );
}

/// The counts of the leaves of one trie.
proof fn lemma_tagged_counts(
    owner: Option<Seq<u8>>,
    keys: Seq<B256>,
    ctx: CtxView,
    index: PeriodIndexView,
    records: Records,
)
    requires
        index_of(index, records),
        is_trie(ctx, owner),
    ensures
        count_accounts(tagged(owner, keys)) == (if owner is None {
            keys.len()
        } else {
            0
        }),
        count_slots(tagged(owner, keys)) == (if owner is Some {
            keys.len()
        } else {
            0
        }),
        count_unrecorded(tagged(owner, keys), records) == missing(index, ctx, keys),
    decreases keys.len(),
{
    reveal(Seq::filter);
    if keys.len() > 0 {
        let init = keys.drop_last();
        lemma_tagged_counts(owner, init, ctx, index, records);
        let all = tagged(owner, keys);
        assert(all.drop_last() =~= tagged(owner, init));
        assert(all.last() == (owner, keys.last()));
        lemma_leaves_have_own_rows(index, records, ctx, owner, keys.last());
    }
}

/// The counts of the leaves under some prefixes.
proof fn lemma_scanned_under(
    owner: Option<Seq<u8>>,
    keys: Seq<B256>,
    prefixes: Seq<Seq<u8>>,
    ctx: CtxView,
    index: PeriodIndexView,
    config: IdentifyConfig,
    records: Records,
    n: int,
)
    requires
        index_of(index, records),
        is_trie(ctx, owner),
        0 <= n <= prefixes.len(),
    ensures
        ({
            let s = scanned_under(owner, keys, prefixes, n);
            let clusters = prefixes.take(n).map_values(
                |prefix: Seq<u8>| cluster_of(prefix, keys, ctx, index, config),
            );
            &&& count_accounts(s) == (if owner is None {
                leaf_sum(clusters)
            } else {
                0
            })
            &&& count_slots(s) == (if owner is Some {
                leaf_sum(clusters)
            } else {
                0
            })
            &&& count_unrecorded(s, records) == missing_under(prefixes, keys, ctx, index, n)
        }),
    decreases n,
{
    let cut = |prefix: Seq<u8>| cluster_of(prefix, keys, ctx, index, config);
    if n == 0 {
        reveal(Seq::filter);
        assert(prefixes.take(0).map_values(cut).len() == 0);
    } else {
        lemma_scanned_under(owner, keys, prefixes, ctx, index, config, records, n - 1);
        let under = keys_under(keys, prefixes[n - 1]);
        lemma_tagged_counts(owner, under, ctx, index, records);
        lemma_counts_add(
            scanned_under(owner, keys, prefixes, n - 1),
            tagged(owner, under),
            records,
        );
        let clusters = prefixes.take(n).map_values(cut);
        assert(clusters.drop_last() =~= prefixes.take(n - 1).map_values(cut));
        assert(clusters.last() == cut(prefixes[n - 1]));
    }
}

/// The counters of a run are counts of the leaves that it looked at: accounts, slots, and those
/// that have no row of their own.
pub proof fn lemma_counters_count_leaves(
    items: Seq<ItemView>,
    leaves: Leaves,
    index: PeriodIndexView,
    config: IdentifyConfig,
    records: Records,
    n: int,
)
    requires
        index_of(index, records),
        0 <= n <= items.len(),
        forall|i: int|
            0 <= i < items.len() ==> ((#[trigger] items[i]).owner matches Some(o) ==> o.len()
                == 32),
    ensures
        ({
            let run = run_items(items, leaves, index, config, n);
            let s = scanned(items, leaves, config.scope, n);
            &&& run.accounts_scanned == count_accounts(s)
            &&& run.storage_slots_scanned == count_slots(s)
            &&& run.period_lookup_misses == count_unrecorded(s, records)
        }),
    decreases n,
{
    if n == 0 {
        reveal(Seq::filter);
    } else {
        lemma_counters_count_leaves(items, leaves, index, config, records, n - 1);
        let item = items[n - 1];
        let ctx = item_ctx(item, config.scope);
        let keys = leaves_with(leaves, item.owner);
        assert(keys == leaves.of_item(item));
        let prefixes = leaf_prefixes(item.path, item.branch);
        let m = prefixes.len() as int;
        lemma_scanned_under(item.owner, keys, prefixes, ctx, index, config, records, m);
        assert(prefixes.take(m) =~= prefixes);
        lemma_counts_add(
            scanned(items, leaves, config.scope, n - 1),
            scanned_under(item.owner, keys, prefixes, m),
            records,
        );
    }
}

/// How many of the first `n` prefixes have no leaf under them.
pub open spec fn bare_prefixes(keys: Seq<B256>, prefixes: Seq<Seq<u8>>, n: int) -> nat
    decreases n,
{
    if n <= 0 {
        0
    } else {
        bare_prefixes(keys, prefixes, n - 1) + if exists|k: int|
            0 <= k < keys.len() && key_under(#[trigger] keys[k], prefixes[n - 1]) {
            0nat
        } else {
            1
        }
    }
}

/// A slot counts as a mismatch exactly where no leaf of the trie is under it.
pub proof fn lemma_mismatches_are_bare(
    item: ItemView,
    keys: Seq<B256>,
    ctx: CtxView,
    index: PeriodIndexView,
    config: IdentifyConfig,
    n: int,
)
    requires
        0 <= n <= leaf_prefixes(item.path, item.branch).len(),
    ensures
        empty_clusters(clusters_of(item, keys, ctx, index, config).take(n)) == bare_prefixes(
            keys,
            leaf_prefixes(item.path, item.branch),
            n,
        ),
    decreases n,
{
    let prefixes = leaf_prefixes(item.path, item.branch);
    let clusters = clusters_of(item, keys, ctx, index, config);
    if n > 0 {
        lemma_mismatches_are_bare(item, keys, ctx, index, config, n - 1);
        assert(clusters.take(n).drop_last() =~= clusters.take(n - 1));
        let prefix = prefixes[n - 1];
        assert(clusters.take(n).last() == cluster_of(prefix, keys, ctx, index, config));
        lemma_none_kept(keys, |key: B256| key_under(key, prefix));
        if exists|k: int| 0 <= k < keys.len() && key_under(#[trigger] keys[k], prefix) {
            let k = choose|k: int| 0 <= k < keys.len() && key_under(#[trigger] keys[k], prefix);
            assert(keys_under(keys, prefix).len() > 0);
        }
    }
}

/// A filter keeps nothing exactly where nothing passes it.
proof fn lemma_none_kept(keys: Seq<B256>, keep: spec_fn(B256) -> bool)
    ensures
        keys.filter(keep).len() == 0 <==> forall|k: int|
            0 <= k < keys.len() ==> !keep(#[trigger] keys[k]),
    decreases keys.len(),
{
    reveal(Seq::filter);
    if keys.len() > 0 {
        let init = keys.drop_last();
        lemma_none_kept(init, keep);
        assert(keys[keys.len() - 1] == keys.last());
        assert forall|k: int| 0 <= k < init.len() implies init[k] == #[trigger] keys[k] by {}
        if keys.filter(keep).len() == 0 {
            assert forall|k: int| 0 <= k < keys.len() implies !keep(#[trigger] keys[k]) by {
                if k < init.len() {
                    assert(init[k] == keys[k]);
                }
            }
        }
        if forall|k: int| 0 <= k < keys.len() ==> !keep(#[trigger] keys[k]) {
            assert forall|k: int| 0 <= k < init.len() implies !keep(#[trigger] init[k]) by {
                assert(init[k] == keys[k]);
            }
            assert(!keep(keys[keys.len() - 1]));
        }
    }
}

/// How often the owner changes among the first `n` branches of storage tries.
spec fn owner_changes(vs: Seq<(Seq<u8>, Visit)>, n: int) -> nat
    decreases n,
{
    if n <= 0 {
        0
    } else {
        owner_changes(vs, n - 1) + if n >= 2 && vs[n - 1].0 == vs[n - 2].0 {
            0nat
        } else {
            1
        }
    }
}

/// Storage tries are counted where the owner changes.
proof fn lemma_tries_by_owner(
    items: Seq<ItemView>,
    leaves: Leaves,
    index: PeriodIndexView,
    config: IdentifyConfig,
    n: int,
)
    requires
        0 <= n <= items.len(),
        config.scope is Storage || config.scope is Both,
    ensures
        ({
            let run = run_items(items, leaves, index, config, n);
            let vs = storage_visits(items, leaves, index, config, n);
            let m = vs.len() as int;
            &&& run.storage_tries_walked == owner_changes(vs, m)
            &&& m == 0 ==> run.walk.owner is None
            &&& m > 0 ==> run.walk.owner == Some(vs[m - 1].0)
        }),
    decreases n,
{
    if n > 0 {
        lemma_tries_by_owner(items, leaves, index, config, n - 1);
        let before = storage_visits(items, leaves, index, config, n - 1);
        let vs = storage_visits(items, leaves, index, config, n);
        if let Some(owner) = items[n - 1].owner {
            let v = (owner, visit_of(items[n - 1], leaves, index, config));
            assert(vs == before.push(v));
            lemma_changes_prefix(before, seq![v], before.len() as int);
            assert(before + seq![v] =~= vs);
        }
    }
}

/// Branches that come later do not count.
proof fn lemma_changes_prefix(
    a: Seq<(Seq<u8>, Visit)>,
    b: Seq<(Seq<u8>, Visit)>,
    n: int,
)
    requires
        0 <= n <= a.len(),
    ensures
        owner_changes(a + b, n) == owner_changes(a, n),
    decreases n,
{
    if n > 0 {
        lemma_changes_prefix(a, b, n - 1);
        assert((a + b)[n - 1] == a[n - 1]);
        if n >= 2 {
            assert((a + b)[n - 2] == a[n - 2]);
        }
    }
}

/// Tries in turn change the owner once each.
proof fn lemma_changes_are_tries(tries: Seq<(Seq<u8>, Tree)>, n: int)
    requires
        0 <= n <= tries.len(),
        forall|i: int| 0 < i < tries.len() ==> (#[trigger] tries[i]).0 != tries[i - 1].0,
    ensures
        ({
            let vs = tries_in_turn(tries, n);
            &&& owner_changes(vs, vs.len() as int) == n
            &&& n > 0 ==> vs.len() > 0 && vs.last().0 == tries[n - 1].0
            &&& n == 0 ==> vs.len() == 0
        }),
    decreases n,
{
    if n > 0 {
        lemma_changes_are_tries(tries, n - 1);
        let before = tries_in_turn(tries, n - 1);
        let (owner, tree) = tries[n - 1];
        let own = owned(owner, visits(tree));
        if n > 1 {
            assert(tries[n - 1].0 != tries[n - 2].0);
        }
        lemma_changes_of_one(before, own, owner, own.len() as int);
        let vs = tries_in_turn(tries, n);
        assert(vs.last() == own.last());
    }
}

/// A trie changes the owner once.
proof fn lemma_changes_of_one(
    before: Seq<(Seq<u8>, Visit)>,
    own: Seq<(Seq<u8>, Visit)>,
    owner: Seq<u8>,
    m: int,
)
    requires
        0 < m <= own.len(),
        forall|i: int| 0 <= i < own.len() ==> (#[trigger] own[i]).0 == owner,
        before.len() > 0 ==> before.last().0 != owner,
    ensures
        owner_changes(before + own, before.len() + m) == owner_changes(
            before,
            before.len() as int,
        ) + 1,
    decreases m,
{
    let all = before + own;
    let n = before.len() as int;
    assert(all[n + m - 1] == own[m - 1]);
    if m == 1 {
        lemma_changes_prefix(before, own, n);
        if n > 0 {
            assert(all[n - 1] == before.last());
        }
    } else {
        lemma_changes_of_one(before, own, owner, m - 1);
        assert(all[n + m - 2] == own[m - 2]);
    }
}

/// Where storage tries are looked into, each is counted once; where they are not, none is.
pub proof fn lemma_storage_tries_counted(
    items: Seq<ItemView>,
    leaves: Leaves,
    index: PeriodIndexView,
    config: IdentifyConfig,
    account: Option<Tree>,
    tries: Seq<(Seq<u8>, Tree)>,
)
    requires
        run_over(items, leaves, index, config, account, tries),
    ensures
        run_items(items, leaves, index, config, items.len() as int).storage_tries_walked == (
        if config.scope is Account {
            0
        } else {
            tries.len()
        }),
{
    let n = items.len() as int;
    if config.scope is Account {
        lemma_no_tries(items, leaves, index, config, n);
    } else {
        lemma_tries_by_owner(items, leaves, index, config, n);
        lemma_changes_are_tries(tries, tries.len() as int);
    }
}

/// Without storage no trie is counted.
proof fn lemma_no_tries(
    items: Seq<ItemView>,
    leaves: Leaves,
    index: PeriodIndexView,
    config: IdentifyConfig,
    n: int,
)
    requires
        0 <= n <= items.len(),
        config.scope is Account,
    ensures
        run_items(items, leaves, index, config, n).storage_tries_walked == 0,
    decreases n,
{
    if n > 0 {
        lemma_no_tries(items, leaves, index, config, n - 1);
    }
}

/// A leaf is inactive exactly where it has a row of its own and the block of its last row is old
/// enough.
pub proof fn lemma_inactive_by_own_row(
    index: PeriodIndexView,
    records: Records,
    ctx: CtxView,
    owner: Option<Seq<u8>>,
    config: IdentifyConfig,
    key: B256,
)
    requires
        index_of(index, records),
        is_trie(ctx, owner),
    ensures
        leaf_inactive(index, ctx, config, key) <==> exists|block: u64| #[trigger]
            own_block(records, owner, key, block) && inactive_at(config, block),
{
    lemma_leaves_have_own_rows(index, records, ctx, owner, key);
    if exists|block: u64| #[trigger]
        own_block(records, owner, key, block) && inactive_at(config, block) {
        let block = choose|block: u64| #[trigger]
            own_block(records, owner, key, block) && inactive_at(config, block);
        lemma_one_last_row(records, owner, key, block);
        assert(has_row(records, owner, key));
        lemma_same_last_row(records, owner, key, block, leaf_block(index, ctx, key)->0);
    }
}

/// A leaf whose last write is known has a row.
proof fn lemma_one_last_row(records: Records, owner: Option<Seq<u8>>, key: B256, block: u64)
    requires
        own_block(records, owner, key, block),
    ensures
        has_row(records, owner, key),
{
    match owner {
        None => {
            let i = choose|i: int| #[trigger]
                account_row(records, key@, i) && records.accounts[i].1 == block;
            assert(keccak256_of(records.accounts[i].0@) == key@);
        },
        Some(o) => {
            let i = choose|i: int| #[trigger]
                slot_row(records, o, key@, i) && records.slots[i].1 == block;
            assert(keccak256_of(records.slots[i].0.0@) == o);
        },
    }
}

/// A leaf has one last write.
proof fn lemma_same_last_row(
    records: Records,
    owner: Option<Seq<u8>>,
    key: B256,
    a: u64,
    b: u64,
)
    requires
        own_block(records, owner, key, a),
        own_block(records, owner, key, b),
    ensures
        a == b,
{
    match owner {
        None => {
            let i = choose|i: int| #[trigger]
                account_row(records, key@, i) && records.accounts[i].1 == a;
            let j = choose|j: int| #[trigger]
                account_row(records, key@, j) && records.accounts[j].1 == b;
            if i < j {
                assert(keccak256_of(records.accounts[j].0@) != key@);
            } else if j < i {
                assert(keccak256_of(records.accounts[i].0@) != key@);
            }
        },
        Some(o) => {
            let i = choose|i: int| #[trigger]
                slot_row(records, o, key@, i) && records.slots[i].1 == a;
            let j = choose|j: int| #[trigger]
                slot_row(records, o, key@, j) && records.slots[j].1 == b;
            if i < j {
                assert(!(keccak256_of(records.slots[j].0.0@) == o && keccak256_of(
                    records.slots[j].0.1@,
                ) == key@));
            } else if j < i {
                assert(!(keccak256_of(records.slots[i].0.0@) == o && keccak256_of(
                    records.slots[i].0.1@,
                ) == key@));
            }
        },
    }
}

} // verus!
