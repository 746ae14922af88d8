//! What a whole run reports: exactly the maximal inactive subtrees of the account trie and of
//! every storage trie, as far as they are in scope.
use vstd::multiset::Multiset;
use vstd::prelude::*;

use crate::identifier::{
    child_hash, closed, descends_storage, emits_accounts, flushed, folded, new_frame, top_below,
    walk_output, BranchView, Closing, CtxView, FrameView, IdentifyConfig, Scope, SubtreeView,
};
use crate::identify::{clusters_of, identified, run_items, Leaves};
use crate::identify_laws::{
    after_visits, bag, lemma_any_trie_reports_maximal, lemma_bag, trie_maximal, visits,
    well_placed, Tree, Visit,
};
use crate::period_index::PeriodIndexView;
use crate::walk::{
    account_ctx, branch_folded, clusters_folded, item_ctx, storage_ctx, storage_output, ItemView,
    WalkView,
};

verus! {

/// An item as the walk of its trie comes to it.
pub open spec fn visit_of(
    item: ItemView,
    leaves: Leaves,
    index: PeriodIndexView,
    config: IdentifyConfig,
) -> Visit {
    Visit {
        path: item.path,
        branch: item.branch,
        clusters: clusters_of(
            item,
            leaves.of_item(item),
            item_ctx(item, config.scope),
            index,
            config,
        ),
    }
}

/// The branches of the account trie among the first `n` items.
pub open spec fn account_visits(
    items: Seq<ItemView>,
    leaves: Leaves,
    index: PeriodIndexView,
    config: IdentifyConfig,
    n: int,
) -> Seq<Visit>
    decreases n,
{
    if n <= 0 {
        Seq::empty()
    } else {
        let before = account_visits(items, leaves, index, config, n - 1);
        if items[n - 1].owner is None {
            before.push(visit_of(items[n - 1], leaves, index, config))
        } else {
            before
        }
    }
}

/// The branches of storage tries among the first `n` items, with their owners.
pub open spec fn storage_visits(
    items: Seq<ItemView>,
    leaves: Leaves,
    index: PeriodIndexView,
    config: IdentifyConfig,
    n: int,
) -> Seq<(Seq<u8>, Visit)>
    decreases n,
{
    if n <= 0 {
        Seq::empty()
    } else {
        let before = storage_visits(items, leaves, index, config, n - 1);
        match items[n - 1].owner {
            Some(owner) => before.push((owner, visit_of(items[n - 1], leaves, index, config))),
            None => before,
        }
    }
}

/// A tree's branches, with their owner.
pub open spec fn owned(owner: Seq<u8>, visits: Seq<Visit>) -> Seq<(Seq<u8>, Visit)> {
    Seq::new(visits.len(), |i: int| (owner, visits[i]))
}

/// The branches of the first `n` of some storage tries, one trie after another.
pub open spec fn tries_in_turn(tries: Seq<(Seq<u8>, Tree)>, n: int) -> Seq<(Seq<u8>, Visit)>
    decreases n,
{
    if n <= 0 {
        Seq::empty()
    } else {
        tries_in_turn(tries, n - 1) + owned(tries[n - 1].0, visits(tries[n - 1].1))
    }
}

/// The maximal inactive subtrees of the first `n` of some storage tries.
pub open spec fn storage_maximal(tries: Seq<(Seq<u8>, Tree)>, n: int) -> Multiset<SubtreeView>
    decreases n,
{
    if n <= 0 {
        Multiset::empty()
    } else {
        let (owner, tree) = tries[n - 1];
        storage_maximal(tries, n - 1).add(trie_maximal(tree, None, storage_ctx(owner)))
    }
}

/// The branches of the account trie, if it has any.
pub open spec fn trie_visits(account: Option<Tree>) -> Seq<Visit> {
    match account {
        Some(tree) => visits(tree),
        None => Seq::empty(),
    }
}

/// The maximal inactive subtrees of the account trie, under the state root.
pub open spec fn account_maximal(
    account: Option<Tree>,
    state_root: Seq<u8>,
    scope: Scope,
) -> Multiset<SubtreeView> {
    match account {
        Some(tree) => trie_maximal(tree, Some(state_root), account_ctx(scope)),
        None => Multiset::empty(),
    }
}

/// Each storage trie is a whole trie, and no two in a row have the same owner.
pub open spec fn whole_tries(tries: Seq<(Seq<u8>, Tree)>) -> bool {
    &&& forall|i: int|
        0 <= i < tries.len() ==> well_placed((#[trigger] tries[i]).1)
    &&& forall|i: int| 0 < i < tries.len() ==> (#[trigger] tries[i]).0 != tries[i - 1].0
}

/// The items of a run are the branches of these tries, children first, as the run comes to them.
pub open spec fn run_over(
    items: Seq<ItemView>,
    leaves: Leaves,
    index: PeriodIndexView,
    config: IdentifyConfig,
    account: Option<Tree>,
    tries: Seq<(Seq<u8>, Tree)>,
) -> bool {
    &&& account_visits(items, leaves, index, config, items.len() as int) == trie_visits(account)
    &&& storage_visits(items, leaves, index, config, items.len() as int) == tries_in_turn(
        tries,
        tries.len() as int,
    )
    &&& account matches Some(tree) ==> well_placed(tree)
    &&& whole_tries(tries)
}

/// What was reported before a branch closes its children is not looked at.
proof fn lemma_closed_adds(state: Closing, told: Seq<SubtreeView>, branch: BranchView, ctx: CtxView)
    ensures
        ({
            let alone = closed(state, branch, ctx);
            let both = closed(
                Closing { stack: state.stack, frame: state.frame, out: told + state.out },
                branch,
                ctx,
            );
            both == (Closing { out: told + alone.out, ..alone })
        }),
    decreases state.stack.len(),
{
    if top_below(state.stack, state.frame.path) {
        let child = state.stack.last();
        let next = Closing {
            stack: state.stack.drop_last(),
            frame: folded(
                state.frame,
                child,
                child_hash(branch, child.path[state.frame.path.len() as int] as int),
                ctx,
            ),
            out: state.out + flushed(child, ctx),
        };
        assert((told + state.out) + flushed(child, ctx) =~= told + next.out);
        lemma_closed_adds(next, told, branch, ctx);
    }
}

/// What was reported before clusters are folded in is not looked at.
proof fn lemma_clusters_add(
    frame: FrameView,
    told: Seq<SubtreeView>,
    out: Seq<SubtreeView>,
    branch: BranchView,
    clusters: Seq<FrameView>,
    ctx: CtxView,
    n: int,
)
    ensures
        ({
            let alone = clusters_folded(frame, out, branch, clusters, ctx, n);
            clusters_folded(frame, told + out, branch, clusters, ctx, n) == (
                alone.0,
                told + alone.1,
            )
        }),
    decreases n,
{
    if n > 0 {
        lemma_clusters_add(frame, told, out, branch, clusters, ctx, n - 1);
        let before = clusters_folded(frame, out, branch, clusters, ctx, n - 1).1;
        assert((told + before) + flushed(clusters[n - 1], ctx) =~= told + (before + flushed(
            clusters[n - 1],
            ctx,
        )));
    }
}

/// What was reported before a branch is folded in is not looked at.
pub proof fn lemma_branch_adds(
    stack: Seq<FrameView>,
    told: Seq<SubtreeView>,
    out: Seq<SubtreeView>,
    v: Visit,
    ctx: CtxView,
)
    ensures
        ({
            let alone = branch_folded(stack, out, v.path, v.branch, v.clusters, ctx);
            branch_folded(stack, told + out, v.path, v.branch, v.clusters, ctx) == (
                alone.0,
                told + alone.1,
            )
        }),
{
    let start = Closing { stack, frame: new_frame(v.path, v.branch.root_hash), out };
    lemma_closed_adds(start, told, v.branch, ctx);
    let end = closed(start, v.branch, ctx);
    lemma_clusters_add(
        end.frame,
        told,
        end.out,
        v.branch,
        v.clusters,
        ctx,
        v.clusters.len() as int,
    );
}

/// A walk of storage tries: the owner of the one that is open, its frames, and what was reported.
spec fn storage_walk(visits: Seq<(Seq<u8>, Visit)>, n: int) -> (WalkView, Seq<SubtreeView>)
    decreases n,
{
    if n <= 0 {
        (
            WalkView { accounts: Seq::empty(), owner: None, storage: Seq::empty() },
            Seq::empty(),
        )
    } else {
        let (walk, out) = storage_walk(visits, n - 1);
        let (owner, v) = visits[n - 1];
        let (open, so_far) = if walk.owner == Some(owner) {
            (walk.storage, out)
        } else {
            (Seq::empty(), out + storage_output(walk))
        };
        let (storage, reported) = branch_folded(
            open,
            so_far,
            v.path,
            v.branch,
            v.clusters,
            storage_ctx(owner),
        );
        (WalkView { owner: Some(owner), storage, ..walk }, reported)
    }
}

/// The account trie and the storage tries do not touch each other.
proof fn lemma_walks_apart(
    items: Seq<ItemView>,
    leaves: Leaves,
    index: PeriodIndexView,
    config: IdentifyConfig,
    n: int,
)
    requires
        0 <= n <= items.len(),
    ensures
        ({
            let run = run_items(items, leaves, index, config, n);
            let a = account_visits(items, leaves, index, config, n);
            let s = if descends_storage(config.scope) {
                storage_visits(items, leaves, index, config, n)
            } else {
                Seq::empty()
            };
            let accounts = after_visits(
                Seq::empty(),
                Seq::empty(),
                a,
                account_ctx(config.scope),
                a.len() as int,
            );
            let storage = storage_walk(s, s.len() as int);
            &&& run.walk.accounts == accounts.0
            &&& run.walk.owner == storage.0.owner
            &&& run.walk.storage == storage.0.storage
            &&& bag(run.out) == bag(accounts.1).add(bag(storage.1))
        }),
    decreases n,
{
    let none = Seq::<SubtreeView>::empty();
    let x = crate::identifier::subtree_at(account_ctx(config.scope), Seq::empty(), Seq::empty(), 0);
    if n == 0 {
        lemma_bag(none, none, x);
        assert(bag(none) =~= bag(none).add(bag(none)));
    } else {
        lemma_walks_apart(items, leaves, index, config, n - 1);
        let before = run_items(items, leaves, index, config, n - 1);
        let run = run_items(items, leaves, index, config, n);
        let item = items[n - 1];
        let v = visit_of(item, leaves, index, config);
        let a = account_visits(items, leaves, index, config, n - 1);
        let ctx = account_ctx(config.scope);
        let accounts = after_visits(Seq::empty(), none, a, ctx, a.len() as int);
        let s = if descends_storage(config.scope) {
            storage_visits(items, leaves, index, config, n - 1)
        } else {
            Seq::empty()
        };
        let storage = storage_walk(s, s.len() as int);
        match item.owner {
            None => {
                lemma_after_push(a, v, ctx);
                let alone = branch_folded(accounts.0, none, v.path, v.branch, v.clusters, ctx);
                lemma_branch_adds(accounts.0, before.out, none, v, ctx);
                lemma_branch_adds(accounts.0, accounts.1, none, v, ctx);
                assert(before.out + none =~= before.out);
                assert(accounts.1 + none =~= accounts.1);
                lemma_bag(before.out, alone.1, x);
                lemma_bag(accounts.1, alone.1, x);
                assert(run.out == before.out + alone.1);
                assert(bag(run.out) =~= bag(accounts.1 + alone.1).add(bag(storage.1)));
            },
            Some(owner) => {
                if descends_storage(config.scope) {
                    lemma_storage_push(s, owner, v);
                    let ctx = storage_ctx(owner);
                    let fresh = storage.0.owner != Some(owner);
                    let open = if fresh {
                        Seq::empty()
                    } else {
                        storage.0.storage
                    };
                    let ended = if fresh {
                        storage_output(before.walk)
                    } else {
                        none
                    };
                    assert(storage_output(before.walk) == storage_output(storage.0));
                    let alone = branch_folded(open, none, v.path, v.branch, v.clusters, ctx);
                    lemma_branch_adds(open, before.out + ended, none, v, ctx);
                    lemma_branch_adds(open, storage.1 + ended, none, v, ctx);
                    assert((before.out + ended) + none =~= before.out + ended);
                    assert((storage.1 + ended) + none =~= storage.1 + ended);
                    if !fresh {
                        assert(before.out + ended =~= before.out);
                        assert(storage.1 + ended =~= storage.1);
                    }
                    lemma_bag(before.out, ended, x);
                    lemma_bag(storage.1, ended, x);
                    lemma_bag(before.out + ended, alone.1, x);
                    lemma_bag(storage.1 + ended, alone.1, x);
                    assert(run.out == before.out + ended + alone.1);
                    assert(bag(run.out) =~= bag(accounts.1).add(
                        bag(storage.1 + ended + alone.1),
                    ));
                }
            },
        }
    }
}

/// One more branch of the account trie.
proof fn lemma_after_push(a: Seq<Visit>, v: Visit, ctx: CtxView)
    ensures
        ({
            let before = after_visits(Seq::empty(), Seq::empty(), a, ctx, a.len() as int);
            after_visits(Seq::empty(), Seq::empty(), a.push(v), ctx, a.len() as int + 1) == branch_folded(
                before.0,
                before.1,
                v.path,
                v.branch,
                v.clusters,
                ctx,
            )
        }),
{
    crate::identify_laws::lemma_visits_prefix(
        Seq::empty(),
        Seq::empty(),
        a,
        seq![v],
        ctx,
        a.len() as int,
    );
    assert(a + seq![v] =~= a.push(v));
}

/// One more branch of a storage trie leaves those before it as they were.
proof fn lemma_storage_prefix(
    a: Seq<(Seq<u8>, Visit)>,
    b: Seq<(Seq<u8>, Visit)>,
    n: int,
)
    requires
        0 <= n <= a.len(),
    ensures
        storage_walk(a + b, n) == storage_walk(a, n),
    decreases n,
{
    if n > 0 {
        lemma_storage_prefix(a, b, n - 1);
        assert((a + b)[n - 1] == a[n - 1]);
    }
}

/// One more branch of a storage trie.
proof fn lemma_storage_push(s: Seq<(Seq<u8>, Visit)>, owner: Seq<u8>, v: Visit)
    ensures
        ({
            let (walk, out) = storage_walk(s, s.len() as int);
            let (open, so_far) = if walk.owner == Some(owner) {
                (walk.storage, out)
            } else {
                (Seq::empty(), out + storage_output(walk))
            };
            let (storage, reported) = branch_folded(
                open,
                so_far,
                v.path,
                v.branch,
                v.clusters,
                storage_ctx(owner),
            );
            storage_walk(s.push((owner, v)), s.len() as int + 1) == (
                WalkView { owner: Some(owner), storage, ..walk },
                reported,
            )
        }),
{
    lemma_storage_prefix(s, seq![(owner, v)], s.len() as int);
    assert(s + seq![(owner, v)] =~= s.push((owner, v)));
}

/// A trie's branches on top of tries of other owners: the last of those is ended, and the new one
/// is walked as if it stood alone.
proof fn lemma_next_trie(
    s: Seq<(Seq<u8>, Visit)>,
    owner: Seq<u8>,
    vs: Seq<Visit>,
    m: int,
)
    requires
        0 < m <= vs.len(),
        storage_walk(s, s.len() as int).0.owner != Some(owner),
    ensures
        ({
            let (walk, out) = storage_walk(s, s.len() as int);
            let alone = after_visits(Seq::empty(), Seq::empty(), vs, storage_ctx(owner), m);
            let (now, told) = storage_walk(s + owned(owner, vs), s.len() + m);
            &&& now.owner == Some(owner)
            &&& now.storage == alone.0
            &&& told == out + storage_output(walk) + alone.1
        }),
    decreases m,
{
    let none = Seq::<SubtreeView>::empty();
    let all = s + owned(owner, vs);
    let (walk, out) = storage_walk(s, s.len() as int);
    let ctx = storage_ctx(owner);
    let v = vs[m - 1];
    assert(all[s.len() + m - 1] == (owner, v));
    if m == 1 {
        lemma_storage_prefix(s, owned(owner, vs), s.len() as int);
        lemma_branch_adds(Seq::empty(), out + storage_output(walk), none, v, ctx);
        assert((out + storage_output(walk)) + none =~= out + storage_output(walk));
        assert(after_visits(Seq::empty(), none, vs, ctx, 0) == (Seq::<FrameView>::empty(), none));
    } else {
        lemma_next_trie(s, owner, vs, m - 1);
        let before = after_visits(Seq::empty(), none, vs, ctx, m - 1);
        lemma_branch_adds(before.0, out + storage_output(walk), before.1, v, ctx);
    }
}

/// The storage tries, one after another, report their maximal inactive subtrees.
proof fn lemma_storage_tries(tries: Seq<(Seq<u8>, Tree)>, n: int)
    requires
        0 <= n <= tries.len(),
        whole_tries(tries),
    ensures
        ({
            let s = tries_in_turn(tries, n);
            let (walk, out) = storage_walk(s, s.len() as int);
            &&& n == 0 ==> walk.owner is None
            &&& n > 0 ==> walk.owner == Some(tries[n - 1].0)
            &&& bag(out + storage_output(walk)) == storage_maximal(tries, n)
        }),
    decreases n,
{
    let none = Seq::<SubtreeView>::empty();
    let x = crate::identifier::subtree_at(storage_ctx(Seq::empty()), Seq::empty(), Seq::empty(), 0);
    if n == 0 {
        lemma_bag(none, none, x);
        assert(none + none =~= none);
    } else {
        lemma_storage_tries(tries, n - 1);
        let (owner, tree) = tries[n - 1];
        assert(well_placed(tries[n - 1].1));
        let s = tries_in_turn(tries, n - 1);
        let vs = visits(tree);
        let (walk, out) = storage_walk(s, s.len() as int);
        if n > 1 {
            assert(tries[n - 1].0 != tries[n - 2].0);
        }
        lemma_next_trie(s, owner, vs, vs.len() as int);
        lemma_any_trie_reports_maximal(tree, None, storage_ctx(owner));
        let alone = after_visits(
            Seq::empty(),
            Seq::empty(),
            vs,
            storage_ctx(owner),
            vs.len() as int,
        );
        let all = tries_in_turn(tries, n);
        assert(all.len() == s.len() + vs.len());
        let (now, told) = storage_walk(all, all.len() as int);
        let ended = out + storage_output(walk);
        assert(told + storage_output(now) =~= ended + (alone.1 + storage_output(now)));
        lemma_bag(ended, alone.1 + storage_output(now), x);
    }
}

/// A whole run reports exactly the maximal inactive subtrees of the account trie, under the state
/// root, and of each storage trie, each once: those of the account trie only where the scope takes
/// it in, those of the storage tries only where the scope descends into them. It does not matter
/// how the branches of the account trie come between the storage tries, nor how deep the topmost
/// branch of a trie stands. An account trie that yields no branch reports nothing.
pub proof fn lemma_run_reports_maximal(
    items: Seq<ItemView>,
    leaves: Leaves,
    state_root: Seq<u8>,
    index: PeriodIndexView,
    config: IdentifyConfig,
    account: Option<Tree>,
    tries: Seq<(Seq<u8>, Tree)>,
)
    requires
        run_over(items, leaves, index, config, account, tries),
    ensures
        bag(identified(items, leaves, state_root, index, config)) == (if emits_accounts(
            config.scope,
        ) {
            account_maximal(account, state_root, config.scope)
        } else {
            Multiset::empty()
        }).add(
            if descends_storage(config.scope) {
                storage_maximal(tries, tries.len() as int)
            } else {
                Multiset::empty()
            },
        ),
{
    let none = Seq::<SubtreeView>::empty();
    let n = items.len() as int;
    let ctx = account_ctx(config.scope);
    let x = crate::identifier::subtree_at(ctx, Seq::empty(), Seq::empty(), 0);
    let run = run_items(items, leaves, index, config, n);
    lemma_walks_apart(items, leaves, index, config, n);
    lemma_storage_tries(tries, tries.len() as int);
    let vs = trie_visits(account);
    let accounts = after_visits(Seq::empty(), none, vs, ctx, vs.len() as int);
    let s = if descends_storage(config.scope) {
        tries_in_turn(tries, tries.len() as int)
    } else {
        Seq::empty()
    };
    let (walk, out) = storage_walk(s, s.len() as int);
    let last_storage = storage_output(run.walk);
    let last_account = walk_output(run.walk.accounts, Some(state_root), ctx);
    assert(last_storage == storage_output(walk));
    lemma_bag(run.out, last_storage, x);
    lemma_bag(run.out + last_storage, last_account, x);
    lemma_bag(accounts.1, last_account, x);
    lemma_bag(out, last_storage, x);
    match account {
        Some(tree) => lemma_any_trie_reports_maximal(tree, Some(state_root), ctx),
        None => assert(accounts.1 + last_account =~= none),
    }
    if !ctx.emit_output {
        assert(accounts.1 + last_account =~= none);
    }
    if !descends_storage(config.scope) {
        assert(out + last_storage =~= none);
    }
    assert(bag(identified(items, leaves, state_root, index, config)) =~= bag(
        accounts.1 + last_account,
    ).add(bag(out + last_storage)));
}

} // verus!
