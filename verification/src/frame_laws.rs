//! What the parts of a walk keep to, one by one: ages, hashes, frames, and the order of what is
//! reported.
use vstd::multiset::Multiset;
use vstd::prelude::*;

use crate::identifier::{
    all_folded, child_hash, closed, flushed, folded, inactive_at, masks_agree, new_frame,
    root_output, subtree_at, walk_output, BranchView, Closing, CtxView, FrameView, IdentifyConfig,
    Scope, SubtreeView, TrieKind,
};
use crate::identify::{clusters_of, identified, run_items, slots_of, Leaves, StorageTable};
use crate::identify_laws::{bag, lemma_bag, Visit};
use crate::nibbles::hex_of;
use crate::period_index::PeriodIndexView;
use crate::periods::lemma_period_spans;
use crate::run_laws::lemma_branch_adds;
use crate::trie_node::{has_bit, lemma_bits_listed};
use crate::walk::{
    account_ctx, finished, item_ctx, storage_ctx, storage_output, visited, ItemView, WalkView,
};

verus! {

/// A leaf is inactive exactly where the minimum age in whole periods has passed since its period:
/// where its block is before the end of the period that is the minimum age before the current one.
pub proof fn lemma_inactive_blocks(config: IdentifyConfig, block: u64)
    requires
        config.blocks_per_period > 0,
        config.current_period < u32::MAX,
    ensures
        inactive_at(config, block) <==> config.inactive_min_age <= config.current_period && block
            < config.fork_block + (config.current_period - config.inactive_min_age + 1)
            * config.blocks_per_period,
{
    let d = config.blocks_per_period as int;
    let fork = config.fork_block as int;
    let p = crate::periods::period_at(block, config.fork_block, config.blocks_per_period);
    let last = config.current_period - config.inactive_min_age;
    if config.inactive_min_age <= config.current_period {
        assert(d <= (last + 1) * d) by (nonlinear_arith)
            requires
                last >= 0,
                d > 0,
        ;
        if block >= config.fork_block {
            lemma_period_spans(block, config.fork_block, config.blocks_per_period, p as u32);
            if p <= last {
                assert((p + 1) * d <= (last + 1) * d) by (nonlinear_arith)
                    requires
                        p <= last,
                        d > 0,
                ;
            } else {
                assert((last + 1) * d <= p * d) by (nonlinear_arith)
                    requires
                        last + 1 <= p,
                        d > 0,
                ;
            }
        } else {
            lemma_period_spans(block, config.fork_block, config.blocks_per_period, 0);
        }
    }
}

/// A larger minimum age, or an earlier current period, makes no leaf inactive; nor does a later
/// write.
pub proof fn lemma_inactive_is_monotone(
    config: IdentifyConfig,
    older: u32,
    block: u64,
    later: u64,
)
    requires
        config.inactive_min_age <= older,
        block <= later,
    ensures
        inactive_at((IdentifyConfig { inactive_min_age: older, ..config }), later) ==> inactive_at(
            config,
            block,
        ),
{
    crate::periods::lemma_periods_ascend(
        block,
        later,
        config.fork_block,
        config.blocks_per_period,
    );
}

/// The hashes of a branch are those of the children that its hash mask names, in the order of their
/// nibbles; no other child has one.
pub proof fn lemma_hashes_by_nibble(branch: BranchView) -> (nibbles: Seq<int>)
    requires
        masks_agree(
            branch.state_mask,
            branch.tree_mask,
            branch.hash_mask,
            branch.hashes.len(),
        ),
    ensures
        nibbles.len() == branch.hashes.len(),
        forall|i: int, j: int|
            0 <= i < j < nibbles.len() ==> #[trigger] nibbles[i] < #[trigger] nibbles[j],
        forall|i: int|
            0 <= i < nibbles.len() ==> 0 <= #[trigger] nibbles[i] < 16 && child_hash(
                branch,
                nibbles[i],
            ) == Some(branch.hashes[i]),
        forall|n: int|
            0 <= n < 16 && !nibbles.contains(n) ==> #[trigger] child_hash(branch, n) is None,
        forall|n: int|
            0 <= n < 16 ==> (#[trigger] nibbles.contains(n) <==> has_bit(branch.hash_mask, n)),
{
    let nibbles = lemma_bits_listed(branch.hash_mask, 16);
    assert forall|n: int| 0 <= n < 16 implies (#[trigger] nibbles.contains(n) <==> has_bit(
        branch.hash_mask,
        n,
    )) by {
        if nibbles.contains(n) {
            let i = choose|i: int| 0 <= i < nibbles.len() && nibbles[i] == n;
            assert(has_bit(branch.hash_mask, nibbles[i]));
        }
    }
    nibbles
}

/// A reported subtree names its trie, the trie's owner, the text of its path, its hash and its
/// number of leaves.
pub proof fn lemma_subtree_parts(ctx: CtxView, path: Seq<u8>, hash: Seq<u8>, leaf_count: nat)
    ensures
        subtree_at(ctx, path, hash, leaf_count).trie == ctx.trie_label,
        subtree_at(ctx, path, hash, leaf_count).owner == ctx.owner,
        subtree_at(ctx, path, hash, leaf_count).path == hex_of(path),
        subtree_at(ctx, path, hash, leaf_count).hash == hash,
        subtree_at(ctx, path, hash, leaf_count).leaf_count == leaf_count,
{
}

/// The account trie has no owner but zeros, and is reported unless only storage is asked for. A
/// storage trie has its owner, and is always reported.
pub proof fn lemma_contexts(scope: Scope, owner: Seq<u8>)
    ensures
        account_ctx(scope).trie_label == TrieKind::Account,
        account_ctx(scope).owner.len() == 32,
        forall|i: int| 0 <= i < 32 ==> #[trigger] account_ctx(scope).owner[i] == 0,
        account_ctx(scope).emit_output <==> scope != Scope::Storage,
        storage_ctx(owner).trie_label == TrieKind::Storage,
        storage_ctx(owner).owner == owner,
        storage_ctx(owner).emit_output,
{
}

/// Folding a child in adds to what the parent holds, behind it: the child itself where it is
/// inactive and has a hash, what it holds where it is inactive without one, and nothing otherwise.
/// Only the last is reported at once.
pub proof fn lemma_fold_adds_behind(
    parent: FrameView,
    child: FrameView,
    hash: Option<Seq<u8>>,
    ctx: CtxView,
)
    ensures
        ({
            let after = folded(parent, child, hash, ctx);
            let told = flushed(child, ctx);
            &&& after.path == parent.path
            &&& after.root_hash == parent.root_hash
            &&& after.leaf_count == parent.leaf_count + child.leaf_count
            &&& after.all_inactive <==> parent.all_inactive && child.all_inactive
            &&& after.candidates.take(parent.candidates.len() as int) == parent.candidates
            &&& child.all_inactive && hash is Some ==> after.candidates.skip(
                parent.candidates.len() as int,
            ) == seq![subtree_at(ctx, child.path, hash->0, child.leaf_count)]
            &&& child.all_inactive && hash is None ==> after.candidates.skip(
                parent.candidates.len() as int,
            ) == child.candidates
            &&& !child.all_inactive ==> after.candidates == parent.candidates
            &&& told == if !child.all_inactive && ctx.emit_output {
                child.candidates
            } else {
                Seq::empty()
            }
        }),
{
    let after = folded(parent, child, hash, ctx);
    let n = parent.candidates.len() as int;
    assert(after.candidates.take(n) =~= parent.candidates);
    if child.all_inactive {
        match hash {
            Some(h) => {
                assert(after.candidates.skip(n) =~= seq![
                    subtree_at(ctx, child.path, h, child.leaf_count),
                ]);
            },
            None => {
                assert(after.candidates.skip(n) =~= child.candidates);
            },
        }
    }
}

/// The hash of a root is its own where it has one, and otherwise the known one: the root is
/// reported by it where all leaves are inactive. Without either, and where a leaf is active, what
/// is held below the root is reported.
pub proof fn lemma_root_is_reported(root: FrameView, known: Option<Seq<u8>>, ctx: CtxView)
    requires
        root.path.len() == 0,
        ctx.emit_output,
    ensures
        root.all_inactive && root.root_hash is Some ==> walk_output(seq![root], known, ctx) == seq![
            subtree_at(ctx, Seq::empty(), root.root_hash->0, root.leaf_count),
        ],
        root.all_inactive && root.root_hash is None && known is Some ==> walk_output(
            seq![root],
            known,
            ctx,
        ) == seq![subtree_at(ctx, Seq::empty(), known->0, root.leaf_count)],
        !root.all_inactive || (root.root_hash is None && known is None) ==> walk_output(
            seq![root],
            known,
            ctx,
        ) == root.candidates,
        walk_output(Seq::empty(), known, ctx).len() == 0,
{
    assert(root.path =~= Seq::empty());
    let one = seq![root];
    assert(one.len() == 1 && one[0] == root);
}

/// What the first `n` of some frames hold.
pub open spec fn held(frames: Seq<FrameView>, n: int) -> Multiset<SubtreeView>
    decreases n,
{
    if n <= 0 {
        Multiset::empty()
    } else {
        held(frames, n - 1).add(bag(frames[n - 1].candidates))
    }
}

/// The leaves of the first `n` of some frames.
pub open spec fn leaves_of_frames(frames: Seq<FrameView>, n: int) -> nat
    decreases n,
{
    if n <= 0 {
        0
    } else {
        leaves_of_frames(frames, n - 1) + frames[n - 1].leaf_count
    }
}

/// Frames that are left without a root have one put above them. Where all are inactive and the
/// root's hash is known, that root is reported for all their leaves; otherwise what they hold is
/// reported, each once.
pub proof fn lemma_stray_frames(frames: Seq<FrameView>, known: Option<Seq<u8>>, ctx: CtxView)
    requires
        frames.len() > 1 || (frames.len() == 1 && frames[0].path.len() > 0),
        ctx.emit_output,
    ensures
        ({
            let n = frames.len() as int;
            let quiet = forall|i: int| 0 <= i < n ==> (#[trigger] frames[i]).all_inactive;
            if quiet && known is Some {
                walk_output(frames, known, ctx) == seq![
                    subtree_at(ctx, Seq::empty(), known->0, leaves_of_frames(frames, n)),
                ]
            } else {
                bag(walk_output(frames, known, ctx)) == held(frames, n)
            }
        }),
{
    let n = frames.len() as int;
    let start = new_frame(Seq::empty(), known);
    lemma_strays_folded(start, frames, ctx, n);
    let (root, out) = all_folded(start, frames, ctx, n);
    let last = root_output(root, ctx);
    let x = subtree_at(ctx, Seq::empty(), Seq::empty(), 0);
    lemma_bag(out, last, x);
    if root.all_inactive && known is Some {
        assert(out + last =~= last);
    } else {
        assert(bag(start.candidates) =~= Multiset::empty()) by {
            lemma_bag(start.candidates, start.candidates, x);
        }
        assert(bag(out + last) =~= held(frames, n));
    }
}

/// What folding stray frames into a root comes to.
proof fn lemma_strays_folded(start: FrameView, frames: Seq<FrameView>, ctx: CtxView, n: int)
    requires
        0 <= n <= frames.len(),
        ctx.emit_output,
        start.all_inactive,
        start.leaf_count == 0,
        start.candidates.len() == 0,
    ensures
        ({
            let (root, out) = all_folded(start, frames, ctx, n);
            &&& root.path == start.path
            &&& root.root_hash == start.root_hash
            &&& root.all_inactive <==> forall|i: int|
                0 <= i < n ==> (#[trigger] frames[i]).all_inactive
            &&& root.leaf_count == leaves_of_frames(frames, n)
            &&& root.all_inactive ==> out.len() == 0
            &&& bag(out).add(bag(root.candidates)) == held(frames, n)
        }),
    decreases n,
{
    let x = subtree_at(ctx, Seq::empty(), Seq::empty(), 0);
    if n == 0 {
        lemma_bag(start.candidates, start.candidates, x);
        assert(start.candidates =~= Seq::empty());
        assert(bag(Seq::empty()).add(bag(start.candidates)) =~= held(frames, 0));
    } else {
        lemma_strays_folded(start, frames, ctx, n - 1);
        let (root, out) = all_folded(start, frames, ctx, n - 1);
        let child = frames[n - 1];
        let after = folded(root, child, None, ctx);
        lemma_bag(out, flushed(child, ctx), x);
        lemma_bag(root.candidates, child.candidates, x);
        assert(bag(out + flushed(child, ctx)).add(bag(after.candidates)) =~= held(frames, n));
    }
}

/// A branch takes its children off the stack from the last to the first, and leaves what does not
/// stand below it.
pub proof fn lemma_children_from_the_last(
    base: Seq<FrameView>,
    child: FrameView,
    frame: FrameView,
    out: Seq<SubtreeView>,
    branch: BranchView,
    ctx: CtxView,
)
    ensures
        child.path.len() > frame.path.len() && child.path.take(frame.path.len() as int)
            == frame.path ==> closed(
            Closing { stack: base.push(child), frame, out },
            branch,
            ctx,
        ) == closed(
            Closing {
                stack: base,
                frame: folded(
                    frame,
                    child,
                    child_hash(branch, child.path[frame.path.len() as int] as int),
                    ctx,
                ),
                out: out + flushed(child, ctx),
            },
            branch,
            ctx,
        ),
        child.path.len() <= frame.path.len() || child.path.take(frame.path.len() as int)
            != frame.path ==> closed(
            Closing { stack: base.push(child), frame, out },
            branch,
            ctx,
        ) == (Closing { stack: base.push(child), frame, out }),
        closed(Closing { stack: Seq::empty(), frame, out }, branch, ctx) == (Closing {
            stack: Seq::empty(),
            frame,
            out,
        }),
{
    let stack = base.push(child);
    let n = frame.path.len() as int;
    assert(stack.drop_last() =~= base);
    assert(stack.last() == child);
    if child.path.len() > n {
        if child.path.take(n) == frame.path {
            assert forall|i: int| 0 <= i < n implies child.path[i] == frame.path[i] by {
                assert(child.path.take(n)[i] == child.path[i]);
            }
        } else if crate::nibbles::starts_with(child.path, frame.path) {
            assert(child.path.take(n) =~= frame.path);
        }
    }
}

/// A walk ends with what the open storage trie reports and then what the account trie does, behind
/// all that was reported before.
pub proof fn lemma_end_of_walk(
    walk: WalkView,
    out: Seq<SubtreeView>,
    state_root: Seq<u8>,
    scope: Scope,
)
    ensures
        ({
            let all = finished(walk, out, state_root, scope);
            let storage = match walk.owner {
                Some(owner) => walk_output(walk.storage, None, storage_ctx(owner)),
                None => Seq::empty(),
            };
            let accounts = walk_output(walk.accounts, Some(state_root), account_ctx(scope));
            &&& all.len() == out.len() + storage.len() + accounts.len()
            &&& all.take(out.len() as int) == out
            &&& all.subrange(out.len() as int, out.len() as int + storage.len()) == storage
            &&& all.skip(out.len() as int + storage.len()) == accounts
        }),
{
    let all = finished(walk, out, state_root, scope);
    let storage = storage_output(walk);
    let accounts = walk_output(walk.accounts, Some(state_root), account_ctx(scope));
    assert(all.take(out.len() as int) =~= out);
    assert(all.subrange(out.len() as int, out.len() as int + storage.len()) =~= storage);
    assert(all.skip(out.len() as int + storage.len()) =~= accounts);
}

/// The slots of an owner are those of the first table that has the owner, and none where no table
/// has.
pub proof fn lemma_slots_are_of_owner(tables: Seq<StorageTable>, owner: Seq<u8>, i: int)
    requires
        0 <= i <= tables.len(),
    ensures
        slots_of(tables, owner, i).len() > 0 ==> exists|j: int|
            i <= j < tables.len() && (#[trigger] tables[j]).owner@ == owner && tables[j].slots@
                == slots_of(tables, owner, i),
        forall|j: int|
            i <= j < tables.len() && (#[trigger] tables[j]).owner@ == owner && (forall|k: int|
                i <= k < j ==> (#[trigger] tables[k]).owner@ != owner) ==> slots_of(
                tables,
                owner,
                i,
            ) == tables[j].slots@,
        (forall|j: int| i <= j < tables.len() ==> (#[trigger] tables[j]).owner@ != owner)
            ==> slots_of(tables, owner, i).len() == 0,
    decreases tables.len() - i,
{
    if i < tables.len() && tables[i].owner@ != owner {
        lemma_slots_are_of_owner(tables, owner, i + 1);
    }
}

/// A leaf is inactive exactly where its period and the minimum age together do not go past the
/// current period. Where periods have no length, every leaf is of the first.
pub proof fn lemma_age_in_periods(config: IdentifyConfig, block: u64)
    ensures
        inactive_at(config, block) <==> crate::periods::period_at(
            block,
            config.fork_block,
            config.blocks_per_period,
        ) + config.inactive_min_age <= config.current_period,
        config.blocks_per_period == 0 ==> (inactive_at(config, block) <==> config.inactive_min_age
            <= config.current_period),
{
    if config.blocks_per_period > 0 {
        lemma_period_spans(block, config.fork_block, config.blocks_per_period, 0);
    }
}

/// The subtrees of one kind are those whose trie is of it, in order; a new run has found none and
/// counted nothing, and its counters of reported subtrees are the numbers of each kind.
pub proof fn lemma_tallies(
    subtrees: Seq<SubtreeView>,
    kind: TrieKind,
    findings: crate::identifier::Findings,
)
    ensures
        crate::identifier::of_kind(subtrees, kind) == subtrees.filter(
            |s: SubtreeView| s.trie == kind,
        ),
        findings.tallied() <==> findings.stats.inactive_account_subtrees == findings@.filter(
            |s: SubtreeView| s.trie == TrieKind::Account,
        ).len() && findings.stats.inactive_storage_subtrees == findings@.filter(
            |s: SubtreeView| s.trie == TrieKind::Storage,
        ).len(),
        crate::identifier::no_stats().accounts_scanned == 0,
        crate::identifier::no_stats().storage_slots_scanned == 0,
        crate::identifier::no_stats().storage_tries_walked == 0,
        crate::identifier::no_stats().inactive_account_subtrees == 0,
        crate::identifier::no_stats().inactive_storage_subtrees == 0,
        crate::identifier::no_stats().period_lookup_misses == 0,
        crate::identifier::no_stats().leaf_slot_prefix_mismatches == 0,
{
    let a = |s: SubtreeView| s.trie == kind;
    assert(crate::identifier::of_kind(subtrees, kind) == subtrees.filter(a));
}

/// The counters that a run hands out are its own, each in its place.
pub proof fn lemma_counters_in_place(
    run: crate::identify::Run,
    stats: crate::identifier::IdentifyStats,
    other: crate::identifier::IdentifyStats,
)
    ensures
        crate::identify::counts_match(run, stats) <==> stats.accounts_scanned
            == run.accounts_scanned && stats.storage_slots_scanned == run.storage_slots_scanned
            && stats.storage_tries_walked == run.storage_tries_walked && stats.period_lookup_misses
            == run.period_lookup_misses && stats.leaf_slot_prefix_mismatches
            == run.leaf_slot_prefix_mismatches,
        crate::identifier::same_scans(stats, other) <==> stats.accounts_scanned
            == other.accounts_scanned && stats.storage_slots_scanned == other.storage_slots_scanned
            && stats.storage_tries_walked == other.storage_tries_walked
            && stats.period_lookup_misses == other.period_lookup_misses
            && stats.leaf_slot_prefix_mismatches == other.leaf_slot_prefix_mismatches,
{
}

/// What was reported before a branch stays in front of what the branch reports; where the branch
/// begins another storage trie, the rest of the one before is reported right behind it.
pub proof fn lemma_visit_reports_behind(
    walk: WalkView,
    out: Seq<SubtreeView>,
    item: ItemView,
    clusters: Seq<FrameView>,
    scope: Scope,
)
    ensures
        ({
            let told = visited(walk, out, item, clusters, scope).1;
            let rest = match walk.owner {
                Some(owner) => walk_output(walk.storage, None, storage_ctx(owner)),
                None => Seq::empty(),
            };
            &&& told.len() >= out.len()
            &&& told.take(out.len() as int) == out
            &&& item.owner is Some && scope != Scope::Account && walk.owner != item.owner ==> {
                &&& told.len() >= out.len() + rest.len()
                &&& told.subrange(out.len() as int, out.len() as int + rest.len()) == rest
            }
        }),
{
    let told = visited(walk, out, item, clusters, scope).1;
    let none = Seq::<SubtreeView>::empty();
    let v = Visit { path: item.path, branch: item.branch, clusters };
    match item.owner {
        None => {
            assert(out + none =~= out);
            lemma_branch_adds(walk.accounts, out, none, v, account_ctx(scope));
            assert(told.take(out.len() as int) =~= out);
        },
        Some(owner) => {
            let rest = storage_output(walk);
            let so_far = if walk.owner == Some(owner) {
                out
            } else {
                out + rest
            };
            let open = if walk.owner == Some(owner) {
                walk.storage
            } else {
                Seq::empty()
            };
            assert(so_far + none =~= so_far);
            lemma_branch_adds(open, so_far, none, v, storage_ctx(owner));
            assert(told.take(out.len() as int) =~= out);
            if scope != Scope::Account && walk.owner != item.owner {
                assert(told.subrange(out.len() as int, out.len() as int + rest.len()) =~= rest);
            }
        },
    }
}

/// A run only adds to its report: what it has reported after some branches stands, in order, at
/// the beginning of what it reports in the end.
pub proof fn lemma_run_reports_in_order(
    items: Seq<ItemView>,
    leaves: Leaves,
    state_root: Seq<u8>,
    index: PeriodIndexView,
    config: IdentifyConfig,
    m: int,
    n: int,
)
    requires
        0 <= m <= n <= items.len(),
    ensures
        ({
            let early = run_items(items, leaves, index, config, m).out;
            let late = run_items(items, leaves, index, config, n).out;
            let all = identified(items, leaves, state_root, index, config);
            &&& late.len() >= early.len()
            &&& late.take(early.len() as int) == early
            &&& n == items.len() ==> all.len() >= early.len() && all.take(early.len() as int)
                == early
        }),
    decreases n,
{
    let early = run_items(items, leaves, index, config, m).out;
    let late = run_items(items, leaves, index, config, n).out;
    if m == n {
        assert(late.take(early.len() as int) =~= early);
    } else {
        lemma_run_reports_in_order(items, leaves, state_root, index, config, m, n - 1);
        let run = run_items(items, leaves, index, config, n - 1);
        let item = items[n - 1];
        let keys = leaves.of_item(item);
        let clusters = clusters_of(item, keys, item_ctx(item, config.scope), index, config);
        lemma_visit_reports_behind(run.walk, run.out, item, clusters, config.scope);
        assert(late.take(early.len() as int) =~= late.take(run.out.len() as int).take(
            early.len() as int,
        ));
    }
    if n == items.len() {
        let run = run_items(items, leaves, index, config, n);
        let all = identified(items, leaves, state_root, index, config);
        lemma_end_of_walk(run.walk, run.out, state_root, config.scope);
        assert(all.take(early.len() as int) =~= all.take(late.len() as int).take(
            early.len() as int,
        ));
    }
}

} // verus!
