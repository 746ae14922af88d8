//! One run of the identifier: every maximal inactive subtree of the account trie and of the
//! storage tries.
use vstd::prelude::*;

use crate::identifier::{
    cluster_of, frames_view, leaf_sum, missing, room_for, scan_leaf_cluster, stats_after,
    subtrees_view, CtxView, EmitCtx, Findings, FrameView, IdentifyConfig, IdentifyStats,
    InactiveSubtree, NodeFrame, SubtreeView,
};
use crate::key_order::{ascending, keys_under};
use crate::nibbles::{is_path, Nibbles, MAX_NIBBLES};
use crate::path_laws::{lemma_identified_paths, paths_are_hex};
use crate::period_index::{PeriodIndex, PeriodIndexView};
use crate::primitives::{same_hash, B256};
use crate::walk::{
    empty_clusters, finished, item_ctx, items_view, leaf_nibbles, leaf_prefixes, lemma_leaf_nibbles,
    opens_trie, paths_view, skipped, visited, walk_start, BranchItem, ItemView, WalkView, Walker,
};

verus! {

/// The hashed slots of one account, in ascending order.
#[derive(Debug)]
pub struct StorageTable {
    pub owner: B256,
    pub slots: Vec<B256>,
}

/// The slots of the first table of an owner among those from `i` on.
pub open spec fn slots_of(tables: Seq<StorageTable>, owner: Seq<u8>, i: int) -> Seq<B256>
    decreases tables.len() - i,
{
    if i < 0 || i >= tables.len() {
        Seq::empty()
    } else if tables[i].owner@ == owner {
        tables[i].slots@
    } else {
        slots_of(tables, owner, i + 1)
    }
}

/// The hashed leaves of all tries.
pub struct Leaves<'a> {
    pub accounts: &'a [B256],
    pub storages: &'a [StorageTable],
}

impl<'a> Leaves<'a> {
    /// Every table is in ascending order.
    pub open spec fn sorted(&self) -> bool {
        &&& ascending(self.accounts@)
        &&& forall|i: int| 0 <= i < self.storages@.len() ==> ascending(
            (#[trigger] self.storages@[i]).slots@,
        )
    }

    /// The leaves of the trie that an item belongs to.
    pub open spec fn of_item(&self, item: ItemView) -> Seq<B256> {
        match item.owner {
            None => self.accounts@,
            Some(owner) => slots_of(self.storages@, owner, 0),
        }
    }

    /// No table has more than `rows` leaves.
    pub open spec fn within(&self, rows: nat) -> bool {
        &&& self.accounts@.len() <= rows
        &&& forall|i: int|
            0 <= i < self.storages@.len() ==> (#[trigger] self.storages@[i]).slots@.len() <= rows
    }
}

/// The slots of an owner are those of one of the tables, or none.
proof fn lemma_slots_of(tables: Seq<StorageTable>, owner: Seq<u8>, i: int)
    requires
        0 <= i <= tables.len(),
    ensures
        slots_of(tables, owner, i).len() == 0 || exists|j: int|
            0 <= j < tables.len() && slots_of(tables, owner, i) == #[trigger] tables[j].slots@,
    decreases tables.len() - i,
{
    if i < tables.len() && tables[i].owner@ != owner {
        lemma_slots_of(tables, owner, i + 1);
    }
}

/// The clusters of leaves below an item.
pub open spec fn clusters_of(
    item: ItemView,
    keys: Seq<B256>,
    ctx: CtxView,
    index: PeriodIndexView,
    config: IdentifyConfig,
) -> Seq<FrameView> {
    leaf_prefixes(item.path, item.branch).map_values(
        |prefix: Seq<u8>| cluster_of(prefix, keys, ctx, index, config),
    )
}

/// How many of the leaves under the first `n` prefixes have no last written block.
pub open spec fn missing_under(
    prefixes: Seq<Seq<u8>>,
    keys: Seq<B256>,
    ctx: CtxView,
    index: PeriodIndexView,
    n: int,
) -> nat
    decreases n,
{
    if n <= 0 {
        0
    } else {
        missing_under(prefixes, keys, ctx, index, n - 1) + missing(
            index,
            ctx,
            keys_under(keys, prefixes[n - 1]),
        )
    }
}

/// A run so far: the walk, what was reported, and the counters but those of what was reported.
pub struct Run {
    pub walk: WalkView,
    pub out: Seq<SubtreeView>,
    pub accounts_scanned: nat,
    pub storage_slots_scanned: nat,
    pub storage_tries_walked: nat,
    pub period_lookup_misses: nat,
    pub leaf_slot_prefix_mismatches: nat,
}

/// The run after one more item.
pub open spec fn run_item(
    run: Run,
    item: ItemView,
    leaves: Leaves,
    index: PeriodIndexView,
    config: IdentifyConfig,
) -> Run {
    if skipped(item, config.scope) {
        run
    } else {
        let ctx = item_ctx(item, config.scope);
        let keys = leaves.of_item(item);
        let clusters = clusters_of(item, keys, ctx, index, config);
        let prefixes = leaf_prefixes(item.path, item.branch);
        let (walk, out) = visited(run.walk, run.out, item, clusters, config.scope);
        Run {
            walk,
            out,
            accounts_scanned: run.accounts_scanned + if item.owner is None {
                leaf_sum(clusters)
            } else {
                0
            },
            storage_slots_scanned: run.storage_slots_scanned + if item.owner is None {
                0
            } else {
                leaf_sum(clusters)
            },
            storage_tries_walked: run.storage_tries_walked + if opens_trie(
                run.walk,
                item,
                config.scope,
            ) {
                1nat
            } else {
                0
            },
            period_lookup_misses: run.period_lookup_misses + missing_under(
                prefixes,
                keys,
                ctx,
                index,
                prefixes.len() as int,
            ),
            leaf_slot_prefix_mismatches: run.leaf_slot_prefix_mismatches + empty_clusters(clusters),
        }
    }
}

/// The run after the first `n` items.
pub open spec fn run_items(
    items: Seq<ItemView>,
    leaves: Leaves,
    index: PeriodIndexView,
    config: IdentifyConfig,
    n: int,
) -> Run
    decreases n,
{
    if n <= 0 {
        Run {
            walk: walk_start(),
            out: Seq::empty(),
            accounts_scanned: 0,
            storage_slots_scanned: 0,
            storage_tries_walked: 0,
            period_lookup_misses: 0,
            leaf_slot_prefix_mismatches: 0,
        }
    } else {
        let before = run_items(items, leaves, index, config, n - 1);
        run_item(before, items[n - 1], leaves, index, config)
    }
}

/// Every subtree that a whole run reports, in order.
pub open spec fn identified(
    items: Seq<ItemView>,
    leaves: Leaves,
    state_root: Seq<u8>,
    index: PeriodIndexView,
    config: IdentifyConfig,
) -> Seq<SubtreeView> {
    let run = run_items(items, leaves, index, config, items.len() as int);
    finished(run.walk, run.out, state_root, config.scope)
}

/// The slots of an owner.
fn find_slots<'a>(tables: &'a [StorageTable], owner: &B256) -> (slots: &'a [B256])
    ensures
        slots@ == slots_of(tables@, owner@, 0),
{
    let mut i: usize = 0;
    while i < tables.len()
        invariant
            i <= tables@.len(),
            slots_of(tables@, owner@, 0) == slots_of(tables@, owner@, i as int),
        decreases tables.len() - i,
    {
        if same_hash(&tables[i].owner, owner) {
            return tables[i].slots.as_slice();
        }
        i = i + 1;
    }
    let none: &'a [B256] = &[];
    assert(none@ =~= Seq::<B256>::empty());
    none
}

/// A filter keeps no more than there is.
proof fn lemma_filter_len(keys: Seq<B256>, keep: spec_fn(B256) -> bool)
    ensures
        keys.filter(keep).len() <= keys.len(),
    decreases keys.len(),
{
    reveal(Seq::filter);
    if keys.len() > 0 {
        lemma_filter_len(keys.drop_last(), keep);
    }
}

/// Finds the leaves under each of some prefixes.
fn scan_clusters(
    prefixes: &Vec<Nibbles>,
    keys: &[B256],
    ctx: &EmitCtx,
    index: &PeriodIndex,
    config: &IdentifyConfig,
    stats: &mut IdentifyStats,
) -> (clusters: Vec<NodeFrame>)
    requires
        ascending(keys@),
        room_for(*old(stats), prefixes@.len() * keys@.len()),
    ensures
        frames_view(clusters@) == paths_view(prefixes@).map_values(
            |prefix: Seq<u8>| cluster_of(prefix, keys@, ctx@, index@, *config),
        ),
        *final(stats) == stats_after(
            *old(stats),
            ctx.trie_label,
            leaf_sum(frames_view(clusters@)),
            missing_under(
                paths_view(prefixes@),
                keys@,
                ctx@,
                index@,
                prefixes@.len() as int,
            ),
        ),
        leaf_sum(frames_view(clusters@)) <= prefixes@.len() * keys@.len(),
        missing_under(paths_view(prefixes@), keys@, ctx@, index@, prefixes@.len() as int)
            <= leaf_sum(frames_view(clusters@)),
{
    let ghost paths = paths_view(prefixes@);
    let ghost found = |prefix: Seq<u8>| cluster_of(prefix, keys@, ctx@, index@, *config);
    let mut clusters: Vec<NodeFrame> = Vec::new();
    let mut i: usize = 0;
    assert(frames_view(clusters@) =~= paths.take(0).map_values(found));
    while i < prefixes.len()
        invariant
            i <= prefixes@.len(),
            ascending(keys@),
            room_for(*old(stats), prefixes@.len() * keys@.len()),
            paths == paths_view(prefixes@),
            found == (|prefix: Seq<u8>| cluster_of(prefix, keys@, ctx@, index@, *config)),
            frames_view(clusters@) == paths.take(i as int).map_values(found),
            *stats == stats_after(
                *old(stats),
                ctx.trie_label,
                leaf_sum(frames_view(clusters@)),
                missing_under(paths, keys@, ctx@, index@, i as int),
            ),
            leaf_sum(frames_view(clusters@)) <= i * keys@.len(),
            missing_under(paths, keys@, ctx@, index@, i as int) <= leaf_sum(frames_view(clusters@)),
        decreases prefixes.len() - i,
    {
        let ghost before = frames_view(clusters@);
        proof {
            let len = keys@.len();
            let n = prefixes@.len();
            assert(i * len + len == (i + 1) * len) by (nonlinear_arith);
            assert((i + 1) * len <= n * len) by (nonlinear_arith)
                requires
                    i + 1 <= n,
            ;
            let leaves = keys_under(keys@, paths[i as int]);
            lemma_filter_len(
                keys@,
                |key: B256| crate::key_order::key_under(key, paths[i as int]),
            );
            lemma_filter_len(
                leaves,
                |key: B256| crate::identifier::leaf_block(index@, ctx@, key) is None,
            );
        }
        let cluster: NodeFrame = scan_leaf_cluster(&prefixes[i], keys, ctx, index, config, stats);
        clusters.push(cluster);
        proof {
            assert(frames_view(clusters@) =~= before.push(cluster@));
            assert(frames_view(clusters@).drop_last() =~= before);
            assert(frames_view(clusters@) =~= paths.take(i + 1).map_values(found));
        }
        i = i + 1;
    }
    assert(paths.take(i as int) =~= paths);
    clusters
}

/// A number of steps, each of which adds at most `step`, stays below what all of them add.
proof fn lemma_bounded_steps(i: nat, n: nat, step: nat)
    requires
        i < n,
    ensures
        i * step + step == (i + 1) * step,
        (i + 1) * step <= n * step,
{
    assert(i * step + step == (i + 1) * step) by (nonlinear_arith);
    assert((i + 1) * step <= n * step) by (nonlinear_arith)
        requires
            i + 1 <= n,
    ;
}

/// At most all clusters are empty.
proof fn lemma_empty_clusters(clusters: Seq<FrameView>)
    ensures
        empty_clusters(clusters) <= clusters.len(),
    decreases clusters.len(),
{
    if clusters.len() > 0 {
        lemma_empty_clusters(clusters.drop_last());
    }
}

/// The counters of a run are those of `stats`.
pub open spec fn counts_match(run: Run, stats: IdentifyStats) -> bool {
    &&& stats.accounts_scanned == run.accounts_scanned
    &&& stats.storage_slots_scanned == run.storage_slots_scanned
    &&& stats.storage_tries_walked == run.storage_tries_walked
    &&& stats.period_lookup_misses == run.period_lookup_misses
    &&& stats.leaf_slot_prefix_mismatches == run.leaf_slot_prefix_mismatches
}

/// No counter of `stats` is above `cap`.
spec fn counts_within(stats: IdentifyStats, cap: nat) -> bool {
    &&& stats.accounts_scanned <= cap
    &&& stats.storage_slots_scanned <= cap
    &&& stats.storage_tries_walked <= cap
    &&& stats.period_lookup_misses <= cap
    &&& stats.leaf_slot_prefix_mismatches <= cap
}

/// Folds one item with the leaves below it into a run.
fn identify_item(
    walker: &mut Walker,
    item: &BranchItem,
    leaves: &Leaves,
    index: &PeriodIndex,
    config: &IdentifyConfig,
    findings: &mut Findings,
    Ghost(run): Ghost<Run>,
    Ghost(rows): Ghost<nat>,
    Ghost(cap): Ghost<nat>,
)
    requires
        item@.path.len() < MAX_NIBBLES,
        leaves.sorted(),
        leaves.within(rows),
        old(findings).tallied(),
        old(walker)@ == run.walk,
        old(findings)@ == run.out,
        counts_match(run, old(findings).stats),
        counts_within(old(findings).stats, cap),
        leaf_sum(run.walk.accounts) <= cap,
        leaf_sum(run.walk.storage) <= cap,
        cap + 16 * (rows + 1) <= u64::MAX,
    ensures
        ({
            let next = run_item(run, item@, *leaves, index@, *config);
            &&& final(walker)@ == next.walk
            &&& final(findings)@ == next.out
            &&& counts_match(next, final(findings).stats)
            &&& counts_within(final(findings).stats, cap + 16 * (rows + 1))
            &&& leaf_sum(next.walk.accounts) <= cap + 16 * (rows + 1)
            &&& leaf_sum(next.walk.storage) <= cap + 16 * (rows + 1)
        }),
        final(findings).tallied(),
{
    let (prefixes, ctx): (Vec<Nibbles>, EmitCtx) = match Walker::to_scan(item, config.scope) {
        None => return,
        Some(scan) => scan,
    };
    let keys: &[B256] = match item {
        BranchItem::Account(_, _) => leaves.accounts,
        BranchItem::Storage(owner, _, _) => find_slots(leaves.storages, owner),
    };
    proof {
        assert(keys@ == leaves.of_item(item@));
        if item@.owner is Some {
            lemma_slots_of(leaves.storages@, item@.owner->0, 0);
        }
        assert(keys@.len() <= rows);
        assert(ascending(keys@));
        lemma_leaf_nibbles(item@.branch, 16);
        assert(paths_view(prefixes@).len() == prefixes@.len());
        let n = prefixes@.len();
        let len = keys@.len();
        assert(n * len <= 16 * rows) by (nonlinear_arith)
            requires
                n <= 16,
                len <= rows,
        ;
    }
    let clusters: Vec<NodeFrame> = scan_clusters(
        &prefixes,
        keys,
        &ctx,
        index,
        config,
        &mut findings.stats,
    );
    proof {
        let all = frames_view(clusters@);
        assert(all == clusters_of(item@, keys@, ctx@, index@, *config));
        let found = |prefix: Seq<u8>| cluster_of(prefix, keys@, ctx@, index@, *config);
        assert(all.len() == prefixes@.len());
        assert forall|i: int| 0 <= i < all.len() implies (#[trigger] all[i]).path
            == item@.path.push(leaf_nibbles(item@.branch, 16)[i]) by {
            assert(all[i] == found(leaf_prefixes(item@.path, item@.branch)[i]));
        }
        lemma_empty_clusters(all);
    }
    walker.visit(item, clusters, config.scope, findings);
}

/// An item stands at a path.
fn note_path(item: &BranchItem)
    ensures
        is_path(item@.path),
{
    match item {
        BranchItem::Account(path, _) => {
            proof {
                use_type_invariant(path);
            }
        },
        BranchItem::Storage(_, path, _) => {
            proof {
                use_type_invariant(path);
            }
        },
    }
}

/// Walks every item, children first, with the leaves below it, and returns every maximal inactive
/// subtree and the counters.
pub fn identify(
    items: &[BranchItem],
    leaves: &Leaves,
    state_root: &B256,
    index: &PeriodIndex,
    config: &IdentifyConfig,
) -> (r: (Vec<InactiveSubtree>, IdentifyStats))
    requires
        leaves.sorted(),
        forall|i: int| 0 <= i < items@.len() ==> (#[trigger] items@[i])@.path.len() < MAX_NIBBLES,
        exists|rows: nat| #[trigger]
            leaves.within(rows) && items@.len() * (16 * (rows + 1)) <= u64::MAX,
    ensures
        subtrees_view(r.0@) == identified(
            items_view(items@),
            *leaves,
            state_root@,
            index@,
            *config,
        ),
        counts_match(
            run_items(items_view(items@), *leaves, index@, *config, items@.len() as int),
            r.1,
        ),
        (Findings { subtrees: r.0, stats: r.1 }).tallied(),
        paths_are_hex(subtrees_view(r.0@)),
{
    let ghost rows = choose|rows: nat| #[trigger]
        leaves.within(rows) && items@.len() * (16 * (rows + 1)) <= u64::MAX;
    let ghost all = items_view(items@);
    let ghost step = 16 * (rows + 1);
    let mut walker: Walker = Walker::new();
    let mut findings: Findings = Findings::new();
    let mut i: usize = 0;
    while i < items.len()
        invariant
            i <= items@.len(),
            all == items_view(items@),
            step == 16 * (rows + 1),
            leaves.sorted(),
            leaves.within(rows),
            forall|i: int|
                0 <= i < items@.len() ==> (#[trigger] items@[i])@.path.len() < MAX_NIBBLES,
            items@.len() * step <= u64::MAX,
            ({
                let run = run_items(all, *leaves, index@, *config, i as int);
                &&& walker@ == run.walk
                &&& findings@ == run.out
                &&& counts_match(run, findings.stats)
                &&& counts_within(findings.stats, (i * step) as nat)
                &&& leaf_sum(run.walk.accounts) <= i * step
                &&& leaf_sum(run.walk.storage) <= i * step
            }),
            findings.tallied(),
            forall|j: int| 0 <= j < i ==> is_path((#[trigger] all[j]).path),
        decreases items.len() - i,
    {
        note_path(&items[i]);
        proof {
            lemma_bounded_steps(i as nat, items@.len(), step as nat);
            assert(all[i as int] == items@[i as int]@);
        }
        identify_item(
            &mut walker,
            &items[i],
            leaves,
            index,
            config,
            &mut findings,
            Ghost(run_items(all, *leaves, index@, *config, i as int)),
            Ghost(rows),
            Ghost((i * step) as nat),
        );
        i = i + 1;
    }
    walker.finish(state_root, config.scope, &mut findings);
    proof {
        assert forall|j: int| 0 <= j < all.len() implies is_path((#[trigger] all[j]).path)
            && all[j].path.len() < MAX_NIBBLES by {
            assert(all[j] == items@[j]@);
        }
        lemma_identified_paths(all, *leaves, state_root@, index@, *config);
    }
    (findings.subtrees, findings.stats)
}

} // verus!
