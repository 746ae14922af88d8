//! Finding the maximal subtrees of a trie whose leaves are all inactive: the frames that stand for
//! nodes, and how a node's frame is folded into its parent's.
use vstd::prelude::*;

use crate::key_order::{
    ascending, key_under, keys_under, lemma_run_is_all, seek,
};
use crate::nibbles::{hex_of, nibbles_hex, pack_seek_key, starts_with, Nibbles};
use crate::period_index::{found_in, PeriodIndex, PeriodIndexView};
use crate::periods::{compute_period, period_at};
use crate::primitives::B256;
use crate::trie_node::{
    bits_below, count_bits_below, has_bit, is_bit_set, lemma_bits_below_bound,
};

verus! {

/// Which tries are reported. The account trie is walked in any case.
#[derive(Debug, Clone, Copy, PartialEq, Eq, Structural)]
pub enum Scope {
    /// Only the account trie.
    Account,
    /// Only the storage tries.
    Storage,
    /// The account trie and the storage tries.
    Both,
}

impl Scope {
    /// Whether subtrees of the account trie are reported.
    pub fn emit_account(self) -> (r: bool)
        ensures
            r == emits_accounts(self),
            r == (self == Scope::Account || self == Scope::Both),
    {
        matches!(self, Scope::Account | Scope::Both)
    }

    /// Whether storage tries are looked into.
    pub fn descend_storage(self) -> (r: bool)
        ensures
            r == descends_storage(self),
            r == (self == Scope::Storage || self == Scope::Both),
    {
        matches!(self, Scope::Storage | Scope::Both)
    }
}

/// The scope takes in the account trie.
pub open spec fn emits_accounts(scope: Scope) -> bool {
    scope is Account || scope is Both
}

/// The scope takes in the storage tries.
pub open spec fn descends_storage(scope: Scope) -> bool {
    scope is Storage || scope is Both
}

/// Which kind of trie a subtree belongs to.
#[derive(Debug, Clone, Copy, PartialEq, Eq, Structural)]
pub enum TrieKind {
    Account,
    Storage,
}

impl TrieKind {
    /// The name under which the kind is reported.
    pub fn label(self) -> (text: &'static str)
        ensures
            text@ == (if self == TrieKind::Account {
                "account"@
            } else {
                "storage"@
            }),
    {
        match self {
            TrieKind::Account => "account",
            TrieKind::Storage => "storage",
        }
    }
}

/// The root of a maximal inactive subtree.
#[derive(Debug, PartialEq, Eq)]
pub struct InactiveSubtree {
    pub trie: TrieKind,
    /// The hashed address of the account whose storage it is; zero in the account trie.
    pub owner: B256,
    /// The root's path, one hexadecimal digit per nibble.
    pub path: String,
    pub hash: B256,
    pub leaf_count: u64,
}

/// What a subtree is, as mathematical values.
pub struct SubtreeView {
    pub trie: TrieKind,
    pub owner: Seq<u8>,
    pub path: Seq<char>,
    pub hash: Seq<u8>,
    pub leaf_count: nat,
}

impl View for InactiveSubtree {
    type V = SubtreeView;

    open spec fn view(&self) -> SubtreeView {
        SubtreeView {
            trie: self.trie,
            owner: self.owner@,
            path: self.path@,
            hash: self.hash@,
            leaf_count: self.leaf_count as nat,
        }
    }
}

impl Clone for InactiveSubtree {
    fn clone(&self) -> (copy: Self)
        ensures
            copy@ == self@,
    {
        InactiveSubtree {
            trie: self.trie,
            owner: self.owner,
            path: self.path.clone(),
            hash: self.hash,
            leaf_count: self.leaf_count,
        }
    }
}

/// What each of some subtrees is.
pub open spec fn subtrees_view(subtrees: Seq<InactiveSubtree>) -> Seq<SubtreeView> {
    Seq::new(subtrees.len(), |i: int| subtrees[i]@)
}

/// The subtrees of one kind of trie.
pub open spec fn of_kind(subtrees: Seq<SubtreeView>, kind: TrieKind) -> Seq<SubtreeView> {
    subtrees.filter(|s: SubtreeView| s.trie == kind)
}

/// What counts as inactive, and what is to be reported.
#[derive(Debug, Clone, Copy)]
pub struct IdentifyConfig {
    pub fork_block: u64,
    pub blocks_per_period: u64,
    pub current_period: u32,
    pub inactive_min_age: u32,
    pub scope: Scope,
}

/// A leaf last written at `block` is inactive: its period is not in the future and is at least
/// the minimum age back.
pub open spec fn inactive_at(config: IdentifyConfig, block: u64) -> bool {
    let period = period_at(block, config.fork_block, config.blocks_per_period);
    period <= config.current_period && config.current_period - period >= config.inactive_min_age
}

impl IdentifyConfig {
    /// Whether a leaf last written at `last_written_block` is inactive.
    pub fn is_inactive(&self, last_written_block: u64) -> (r: bool)
        ensures
            r == inactive_at(*self, last_written_block),
    {
        let leaf_period: u32 = compute_period(
            last_written_block,
            self.fork_block,
            self.blocks_per_period,
        );
        if self.current_period < leaf_period {
            return false;
        }
        self.current_period - leaf_period >= self.inactive_min_age
    }
}

/// Counters of one run.
#[derive(Debug, Clone, Copy, PartialEq, Eq, Structural)]
pub struct IdentifyStats {
    pub accounts_scanned: u64,
    pub storage_slots_scanned: u64,
    pub storage_tries_walked: u64,
    pub inactive_account_subtrees: u64,
    pub inactive_storage_subtrees: u64,
    /// Leaves without a last written block; they count as active.
    pub period_lookup_misses: u64,
    /// Child slots that no leaf was found under.
    pub leaf_slot_prefix_mismatches: u64,
}

impl Default for IdentifyStats {
    /// All counters at zero.
    fn default() -> (stats: Self)
        ensures
            stats == no_stats(),
    {
        IdentifyStats {
            accounts_scanned: 0,
            storage_slots_scanned: 0,
            storage_tries_walked: 0,
            inactive_account_subtrees: 0,
            inactive_storage_subtrees: 0,
            period_lookup_misses: 0,
            leaf_slot_prefix_mismatches: 0,
        }
    }
}

/// All counters at zero.
pub open spec fn no_stats() -> IdentifyStats {
    IdentifyStats {
        accounts_scanned: 0,
        storage_slots_scanned: 0,
        storage_tries_walked: 0,
        inactive_account_subtrees: 0,
        inactive_storage_subtrees: 0,
        period_lookup_misses: 0,
        leaf_slot_prefix_mismatches: 0,
    }
}

/// All counters but those of the reported subtrees agree.
pub open spec fn same_scans(a: IdentifyStats, b: IdentifyStats) -> bool {
    &&& a.accounts_scanned == b.accounts_scanned
    &&& a.storage_slots_scanned == b.storage_slots_scanned
    &&& a.storage_tries_walked == b.storage_tries_walked
    &&& a.period_lookup_misses == b.period_lookup_misses
    &&& a.leaf_slot_prefix_mismatches == b.leaf_slot_prefix_mismatches
}

/// The subtrees reported so far, and the counters.
#[derive(Debug)]
pub struct Findings {
    pub subtrees: Vec<InactiveSubtree>,
    pub stats: IdentifyStats,
}

impl View for Findings {
    type V = Seq<SubtreeView>;

    open spec fn view(&self) -> Seq<SubtreeView> {
        subtrees_view(self.subtrees@)
    }
}

impl Findings {
    /// The counters of reported subtrees are right.
    pub open spec fn tallied(&self) -> bool {
        &&& self.stats.inactive_account_subtrees == of_kind(self@, TrieKind::Account).len()
        &&& self.stats.inactive_storage_subtrees == of_kind(self@, TrieKind::Storage).len()
    }

    /// Nothing reported yet.
    pub fn new() -> (findings: Self)
        ensures
            findings@ == Seq::<SubtreeView>::empty(),
            findings.stats == no_stats(),
            findings.tallied(),
    {
        reveal(Seq::filter);
        let findings = Findings { subtrees: Vec::new(), stats: IdentifyStats::default() };
        assert(findings@ =~= Seq::<SubtreeView>::empty());
        findings
    }
}

/// A reported subtree counts for its kind alone, and each is of one of the two kinds.
proof fn lemma_kinds_add_up(subtrees: Seq<SubtreeView>)
    ensures
        of_kind(subtrees, TrieKind::Account).len() + of_kind(subtrees, TrieKind::Storage).len()
            == subtrees.len(),
    decreases subtrees.len(),
{
    reveal(Seq::filter);
    if subtrees.len() > 0 {
        lemma_kinds_add_up(subtrees.drop_last());
    }
}

/// Reports a subtree.
pub fn emit(subtree: InactiveSubtree, findings: &mut Findings)
    requires
        old(findings).tallied(),
    ensures
        final(findings)@ == old(findings)@.push(subtree@),
        final(findings).tallied(),
        same_scans(final(findings).stats, old(findings).stats),
{
    let kind: TrieKind = subtree.trie;
    let ghost before = findings@;
    findings.subtrees.push(subtree);
    assert(findings.subtrees@.len() == findings.subtrees.len());
    proof {
        reveal(Seq::filter);
        assert(findings@ =~= before.push(subtree@));
        assert(findings@.drop_last() =~= before);
        lemma_kinds_add_up(before);
    }
    match kind {
        TrieKind::Account => {
            findings.stats.inactive_account_subtrees = findings.stats.inactive_account_subtrees + 1;
        },
        TrieKind::Storage => {
            findings.stats.inactive_storage_subtrees = findings.stats.inactive_storage_subtrees + 1;
        },
    }
}

/// Reports each of some subtrees, in order.
pub fn emit_all(subtrees: &Vec<InactiveSubtree>, findings: &mut Findings)
    requires
        old(findings).tallied(),
    ensures
        final(findings)@ == old(findings)@ + subtrees_view(subtrees@),
        final(findings).tallied(),
        same_scans(final(findings).stats, old(findings).stats),
{
    let ghost all = subtrees_view(subtrees@);
    let mut i: usize = 0;
    assert(findings@ =~= findings@ + all.take(0));
    while i < subtrees.len()
        invariant
            i <= subtrees@.len(),
            all == subtrees_view(subtrees@),
            findings.tallied(),
            findings@ == old(findings)@ + all.take(i as int),
            same_scans(findings.stats, old(findings).stats),
        decreases subtrees.len() - i,
    {
        emit(subtrees[i].clone(), findings);
        assert(findings@ =~= old(findings)@ + all.take(i + 1));
        i = i + 1;
    }
    assert(all.take(i as int) =~= all);
}

/// The hash that an option holds.
pub open spec fn hash_view(hash: Option<B256>) -> Option<Seq<u8>> {
    match hash {
        Some(h) => Some(h@),
        None => None,
    }
}

/// A node whose children have been folded in so far, before its own parent decides on it.
#[derive(Debug)]
pub struct NodeFrame {
    pub path: Nibbles,
    /// The hash of a root node; other nodes' hashes are known to their parents.
    pub root_hash: Option<B256>,
    pub all_inactive: bool,
    pub leaf_count: u64,
    /// The maximal inactive subtrees below, for as long as the node itself may be inactive.
    pub candidates: Vec<InactiveSubtree>,
}

/// What a frame is, as mathematical values.
pub struct FrameView {
    pub path: Seq<u8>,
    pub root_hash: Option<Seq<u8>>,
    pub all_inactive: bool,
    pub leaf_count: nat,
    pub candidates: Seq<SubtreeView>,
}

impl View for NodeFrame {
    type V = FrameView;

    open spec fn view(&self) -> FrameView {
        FrameView {
            path: self.path@,
            root_hash: hash_view(self.root_hash),
            all_inactive: self.all_inactive,
            leaf_count: self.leaf_count as nat,
            candidates: subtrees_view(self.candidates@),
        }
    }
}

/// What each of some frames is.
pub open spec fn frames_view(frames: Seq<NodeFrame>) -> Seq<FrameView> {
    Seq::new(frames.len(), |i: int| frames[i]@)
}

/// A frame that nothing has been folded into.
pub open spec fn new_frame(path: Seq<u8>, root_hash: Option<Seq<u8>>) -> FrameView {
    FrameView {
        path,
        root_hash,
        all_inactive: true,
        leaf_count: 0,
        candidates: Seq::empty(),
    }
}

impl NodeFrame {
    /// A frame that nothing has been folded into.
    pub fn new(path: Nibbles, root_hash: Option<B256>) -> (frame: Self)
        ensures
            frame@ == new_frame(path@, hash_view(root_hash)),
    {
        let frame = NodeFrame {
            path,
            root_hash,
            all_inactive: true,
            leaf_count: 0,
            candidates: Vec::new(),
        };
        assert(frame@.candidates =~= Seq::<SubtreeView>::empty());
        frame
    }
}

/// The trie that a walk is in: its kind, whose storage it is, and whether it is reported.
#[derive(Debug, Clone, Copy)]
pub struct EmitCtx {
    pub trie_label: TrieKind,
    pub owner: B256,
    pub emit_output: bool,
}

/// What the trie is, as mathematical values.
pub struct CtxView {
    pub trie_label: TrieKind,
    pub owner: Seq<u8>,
    pub emit_output: bool,
}

impl View for EmitCtx {
    type V = CtxView;

    open spec fn view(&self) -> CtxView {
        CtxView {
            trie_label: self.trie_label,
            owner: self.owner@,
            emit_output: self.emit_output,
        }
    }
}

/// The subtree at a node with a hash of its own.
pub open spec fn subtree_at(
    ctx: CtxView,
    path: Seq<u8>,
    hash: Seq<u8>,
    leaf_count: nat,
) -> SubtreeView {
    SubtreeView {
        trie: ctx.trie_label,
        owner: ctx.owner,
        path: hex_of(path),
        hash,
        leaf_count,
    }
}

/// The parent's frame once a child is folded in: an inactive child with a hash stands as one
/// candidate, in place of the candidates below it; an inactive child without a hash hands its
/// candidates up; any other child makes the parent active.
pub open spec fn folded(
    parent: FrameView,
    child: FrameView,
    child_hash: Option<Seq<u8>>,
    ctx: CtxView,
) -> FrameView {
    FrameView {
        leaf_count: parent.leaf_count + child.leaf_count,
        all_inactive: parent.all_inactive && child.all_inactive,
        candidates: if !child.all_inactive {
            parent.candidates
        } else {
            match child_hash {
                Some(hash) => parent.candidates.push(
                    subtree_at(ctx, child.path, hash, child.leaf_count),
                ),
                None => parent.candidates + child.candidates,
            }
        },
        ..parent
    }
}

/// What is reported when a child is folded in: the candidates of a child that is not inactive,
/// for nothing above can take their place.
pub open spec fn flushed(child: FrameView, ctx: CtxView) -> Seq<SubtreeView> {
    if !child.all_inactive && ctx.emit_output {
        child.candidates
    } else {
        Seq::empty()
    }
}

/// Folds a child into its parent. `popped_hash` is the child's hash, if it has one.
pub fn fold_child(
    popped: NodeFrame,
    popped_hash: Option<B256>,
    parent: &mut NodeFrame,
    ctx: &EmitCtx,
    findings: &mut Findings,
)
    requires
        old(parent).leaf_count + popped.leaf_count <= u64::MAX,
        old(findings).tallied(),
    ensures
        final(parent)@ == folded(old(parent)@, popped@, hash_view(popped_hash), ctx@),
        final(findings)@ == old(findings)@ + flushed(popped@, ctx@),
        final(findings).tallied(),
        same_scans(final(findings).stats, old(findings).stats),
{
    let ghost before = parent@;
    let ghost child = popped@;
    parent.leaf_count = parent.leaf_count + popped.leaf_count;
    if popped.all_inactive {
        match popped_hash {
            Some(hash) => {
                let subtree = InactiveSubtree {
                    trie: ctx.trie_label,
                    owner: ctx.owner,
                    path: nibbles_hex(&popped.path),
                    hash,
                    leaf_count: popped.leaf_count,
                };
                parent.candidates.push(subtree);
                assert(parent@.candidates =~= before.candidates.push(subtree@));
            },
            None => {
                let mut inner: Vec<InactiveSubtree> = popped.candidates;
                parent.candidates.append(&mut inner);
                assert(parent@.candidates =~= before.candidates + child.candidates);
            },
        }
    } else {
        parent.all_inactive = false;
        if ctx.emit_output {
            emit_all(&popped.candidates, findings);
        }
    }
    assert(findings@ =~= old(findings)@ + flushed(child, ctx@));
}

/// What is reported at the root of a trie: the root itself where it is inactive and its hash is
/// known, and otherwise what is left below it.
pub open spec fn root_output(root: FrameView, ctx: CtxView) -> Seq<SubtreeView> {
    if !ctx.emit_output {
        Seq::empty()
    } else if root.all_inactive && root.root_hash is Some {
        seq![subtree_at(ctx, root.path, root.root_hash->0, root.leaf_count)]
    } else {
        root.candidates
    }
}

/// Reports what is to be reported at the root of a trie.
pub fn finalize_root(popped: NodeFrame, ctx: &EmitCtx, findings: &mut Findings)
    requires
        old(findings).tallied(),
    ensures
        final(findings)@ == old(findings)@ + root_output(popped@, ctx@),
        final(findings).tallied(),
        same_scans(final(findings).stats, old(findings).stats),
{
    if ctx.emit_output {
        match popped.root_hash {
            Some(hash) if popped.all_inactive => {
                let subtree = InactiveSubtree {
                    trie: ctx.trie_label,
                    owner: ctx.owner,
                    path: nibbles_hex(&popped.path),
                    hash,
                    leaf_count: popped.leaf_count,
                };
                emit(subtree, findings);
            },
            _ => {
                emit_all(&popped.candidates, findings);
            },
        }
    }
    assert(findings@ =~= old(findings)@ + root_output(popped@, ctx@));
}

/// The leaves of some frames together.
pub open spec fn leaf_sum(frames: Seq<FrameView>) -> nat
    decreases frames.len(),
{
    if frames.len() == 0 {
        0
    } else {
        leaf_sum(frames.drop_last()) + frames.last().leaf_count
    }
}

/// The leaves of a part of some frames are no more than all of them.
pub proof fn lemma_leaf_sum_take(frames: Seq<FrameView>, n: int)
    requires
        0 <= n <= frames.len(),
    ensures
        leaf_sum(frames.take(n)) <= leaf_sum(frames),
    decreases frames.len(),
{
    if n == frames.len() {
        assert(frames.take(n) =~= frames);
    } else {
        assert(frames.drop_last().take(n) =~= frames.take(n));
        lemma_leaf_sum_take(frames.drop_last(), n);
    }
}

/// A frame into which the first `n` of some frames without known hashes are folded, and what is
/// reported on the way.
pub open spec fn all_folded(
    root: FrameView,
    frames: Seq<FrameView>,
    ctx: CtxView,
    n: int,
) -> (FrameView, Seq<SubtreeView>)
    decreases n,
{
    if n <= 0 {
        (root, Seq::empty())
    } else {
        let (frame, out) = all_folded(root, frames, ctx, n - 1);
        (folded(frame, frames[n - 1], None, ctx), out + flushed(frames[n - 1], ctx))
    }
}

/// What is reported at the end of a walk that leaves these frames: those of the root, whose own
/// hash goes before the known one. Should other frames be left, a root is put above them.
pub open spec fn walk_output(
    stack: Seq<FrameView>,
    known_root_hash: Option<Seq<u8>>,
    ctx: CtxView,
) -> Seq<SubtreeView> {
    if stack.len() == 0 {
        Seq::empty()
    } else if stack.len() == 1 && stack[0].path.len() == 0 {
        root_output(
            FrameView {
                root_hash: if stack[0].root_hash is None {
                    known_root_hash
                } else {
                    stack[0].root_hash
                },
                ..stack[0]
            },
            ctx,
        )
    } else {
        let (root, out) = all_folded(
            new_frame(Seq::empty(), known_root_hash),
            stack,
            ctx,
            stack.len() as int,
        );
        out + root_output(root, ctx)
    }
}

/// Reports what is to be reported at the end of a walk that leaves these frames.
pub fn finalize_walk(
    stack: Vec<NodeFrame>,
    known_root_hash: Option<B256>,
    ctx: &EmitCtx,
    findings: &mut Findings,
)
    requires
        leaf_sum(frames_view(stack@)) <= u64::MAX,
        old(findings).tallied(),
    ensures
        final(findings)@ == old(findings)@ + walk_output(
            frames_view(stack@),
            hash_view(known_root_hash),
            ctx@,
        ),
        final(findings).tallied(),
        same_scans(final(findings).stats, old(findings).stats),
{
    let mut stack: Vec<NodeFrame> = stack;
    let ghost all = frames_view(stack@);
    if stack.len() == 0 {
        assert(findings@ =~= old(findings)@ + Seq::empty());
        return;
    }
    if stack.len() == 1 && stack[0].path.is_empty() {
        match stack.pop() {
            None => {},
            Some(mut root) => {
                assert(root@ == all[0]);
                if root.root_hash.is_none() {
                    root.root_hash = known_root_hash;
                }
                finalize_root(root, ctx, findings);
            },
        }
        return;
    }
    let ghost known = hash_view(known_root_hash);
    let ghost start = new_frame(Seq::empty(), known);
    let mut root: NodeFrame = NodeFrame::new(Nibbles::new(), known_root_hash);
    let mut rest: Vec<NodeFrame> = reversed(stack);
    let ghost n = 0int;
    assert(findings@ =~= old(findings)@ + all_folded(start, all, ctx@, 0).1);
    assert(leaf_sum(all.take(0)) == 0);
    while rest.len() > 0
        invariant
            0 <= n <= all.len(),
            rest@.len() == all.len() - n,
            forall|i: int| 0 <= i < rest@.len() ==> (#[trigger] rest@[i])@ == all[all.len() - 1 - i],
            root@ == all_folded(start, all, ctx@, n).0,
            root@.leaf_count == leaf_sum(all.take(n)),
            leaf_sum(all) <= u64::MAX,
            findings@ == old(findings)@ + all_folded(start, all, ctx@, n).1,
            findings.tallied(),
            same_scans(findings.stats, old(findings).stats),
        decreases rest.len(),
    {
        match rest.pop() {
            None => {},
            Some(frame) => {
                proof {
                    assert(frame@ == all[n]);
                    assert(all.take(n + 1).drop_last() =~= all.take(n));
                    assert(all.take(n + 1).last() == all[n]);
                    lemma_leaf_sum_take(all, n + 1);
                }
                fold_child(frame, None, &mut root, ctx, findings);
                proof {
                    assert(findings@ =~= old(findings)@ + all_folded(start, all, ctx@, n + 1).1);
                    n = n + 1;
                }
            },
        }
    }
    let ghost out = all_folded(start, all, ctx@, n).1;
    finalize_root(root, ctx, findings);
    assert(findings@ =~= old(findings)@ + (out + root_output(
        all_folded(start, all, ctx@, n).0,
        ctx@,
    )));
}

/// The frames in the opposite order.
pub fn reversed(frames: Vec<NodeFrame>) -> (r: Vec<NodeFrame>)
    ensures
        r@.len() == frames@.len(),
        forall|i: int| 0 <= i < r@.len() ==> (#[trigger] r@[i])@ == frames@[frames@.len() - 1 - i]@,
{
    let ghost all = frames@;
    let mut frames: Vec<NodeFrame> = frames;
    let mut r: Vec<NodeFrame> = Vec::new();
    while frames.len() > 0
        invariant
            r@.len() + frames@.len() == all.len(),
            forall|i: int| 0 <= i < frames@.len() ==> #[trigger] frames@[i] == all[i],
            forall|i: int| 0 <= i < r@.len() ==> #[trigger] r@[i] == all[all.len() - 1 - i],
        decreases frames.len(),
    {
        match frames.pop() {
            None => {},
            Some(frame) => {
                r.push(frame);
            },
        }
    }
    r
}

/// A branch as a trie walk yields it: which children it has, which of them are yielded as branches
/// of their own, which of them have a hash, and those hashes.
#[derive(Debug)]
pub struct BranchNodeCompact {
    state_mask: u16,
    tree_mask: u16,
    hash_mask: u16,
    hashes: Vec<B256>,
    root_hash: Option<B256>,
}

/// What a branch is, as mathematical values.
pub struct BranchView {
    pub state_mask: u16,
    pub tree_mask: u16,
    pub hash_mask: u16,
    pub hashes: Seq<Seq<u8>>,
    pub root_hash: Option<Seq<u8>>,
}

/// What each of some hashes is.
pub open spec fn hashes_view(hashes: Seq<B256>) -> Seq<Seq<u8>> {
    Seq::new(hashes.len(), |i: int| hashes[i]@)
}

/// `a` has no bit that `b` has not.
pub open spec fn subset_mask(a: u16, b: u16) -> bool {
    forall|n: int| 0 <= n < 16 && #[trigger] has_bit(a, n) ==> has_bit(b, n)
}

/// The masks name children, and there is a hash for each bit of the hash mask.
pub open spec fn masks_agree(
    state_mask: u16,
    tree_mask: u16,
    hash_mask: u16,
    hashes: nat,
) -> bool {
    &&& subset_mask(tree_mask, state_mask)
    &&& subset_mask(hash_mask, state_mask)
    &&& bits_below(hash_mask, 16) == hashes
}

impl View for BranchNodeCompact {
    type V = BranchView;

    closed spec fn view(&self) -> BranchView {
        BranchView {
            state_mask: self.state_mask,
            tree_mask: self.tree_mask,
            hash_mask: self.hash_mask,
            hashes: hashes_view(self.hashes@),
            root_hash: hash_view(self.root_hash),
        }
    }
}

/// The hash of the child at nibble `n`, if the branch holds it.
pub open spec fn child_hash(branch: BranchView, n: int) -> Option<Seq<u8>> {
    if has_bit(branch.hash_mask, n) {
        Some(branch.hashes[bits_below(branch.hash_mask, n) as int])
    } else {
        None
    }
}

/// Whether every bit of `a` is a bit of `b`.
fn is_subset_mask(a: u16, b: u16) -> (r: bool)
    ensures
        r == subset_mask(a, b),
{
    let mut n: u8 = 0;
    while n < 16
        invariant
            n <= 16,
            forall|i: int| 0 <= i < n && #[trigger] has_bit(a, i) ==> has_bit(b, i),
        decreases 16 - n,
    {
        if is_bit_set(a, n) && !is_bit_set(b, n) {
            return false;
        }
        n = n + 1;
    }
    true
}

impl BranchNodeCompact {
    /// The masks of every branch agree.
    #[verifier::type_invariant]
    pub open spec fn well_formed(self) -> bool {
        masks_agree(
            self@.state_mask,
            self@.tree_mask,
            self@.hash_mask,
            self@.hashes.len(),
        )
    }

    /// The branch with these parts, unless the masks disagree.
    pub fn new(
        state_mask: u16,
        tree_mask: u16,
        hash_mask: u16,
        hashes: Vec<B256>,
        root_hash: Option<B256>,
    ) -> (r: Option<Self>)
        ensures
            r is Some <==> masks_agree(state_mask, tree_mask, hash_mask, hashes@.len()),
            r matches Some(branch) ==> branch@ == (BranchView {
                state_mask,
                tree_mask,
                hash_mask,
                hashes: hashes_view(hashes@),
                root_hash: hash_view(root_hash),
            }),
    {
        if is_subset_mask(tree_mask, state_mask) && is_subset_mask(hash_mask, state_mask)
            && count_bits_below(hash_mask, 16) == hashes.len() {
            Some(BranchNodeCompact { state_mask, tree_mask, hash_mask, hashes, root_hash })
        } else {
            None
        }
    }

    /// The hash of a root branch, if it is known.
    pub fn root_hash(&self) -> (r: Option<B256>)
        ensures
            hash_view(r) == self@.root_hash,
    {
        self.root_hash
    }

    /// Whether the child at nibble `n` is to be looked for among the leaves: there is one, and it
    /// is not yielded as a branch of its own.
    pub fn is_leaf_slot(&self, n: u8) -> (r: bool)
        requires
            n < 16,
        ensures
            r == leaf_slot(self@, n as int),
    {
        is_bit_set(self.state_mask, n) && !is_bit_set(self.tree_mask, n)
    }

    /// The hash of the child at nibble `n`, if the branch holds it.
    pub fn hash_for_nibble(&self, n: u8) -> (r: Option<B256>)
        requires
            n < 16,
        ensures
            hash_view(r) == child_hash(self@, n as int),
    {
        proof {
            use_type_invariant(self);
            lemma_bits_below_bound(self.hash_mask, n as int, 16);
            lemma_bits_below_bound(self.hash_mask, n + 1, 16);
        }
        if is_bit_set(self.hash_mask, n) {
            Some(self.hashes[count_bits_below(self.hash_mask, n)])
        } else {
            None
        }
    }
}

/// The child at nibble `n` is to be looked for among the leaves.
pub open spec fn leaf_slot(branch: BranchView, n: int) -> bool {
    has_bit(branch.state_mask, n) && !has_bit(branch.tree_mask, n)
}

/// The last frame stands below `path`.
pub open spec fn top_below(stack: Seq<FrameView>, path: Seq<u8>) -> bool {
    &&& stack.len() > 0
    &&& stack.last().path.len() > path.len()
    &&& starts_with(stack.last().path, path)
}

/// Frames on a stack, a frame that is being filled, and what was reported on the way.
pub struct Closing {
    pub stack: Seq<FrameView>,
    pub frame: FrameView,
    pub out: Seq<SubtreeView>,
}

/// Folding every frame at the end of the stack that stands below the branch into the branch's own.
pub open spec fn closed(state: Closing, branch: BranchView, ctx: CtxView) -> Closing
    decreases state.stack.len(),
{
    if !top_below(state.stack, state.frame.path) {
        state
    } else {
        let child = state.stack.last();
        closed(
            Closing {
                stack: state.stack.drop_last(),
                frame: folded(
                    state.frame,
                    child,
                    child_hash(branch, child.path[state.frame.path.len() as int] as int),
                    ctx,
                ),
                out: state.out + flushed(child, ctx),
            },
            branch,
            ctx,
        )
    }
}

/// Takes the children of the branch at `path` off the stack and folds them into its frame.
pub fn pop_closed_children(
    stack: &mut Vec<NodeFrame>,
    path: Nibbles,
    branch: &BranchNodeCompact,
    ctx: &EmitCtx,
    findings: &mut Findings,
) -> (frame: NodeFrame)
    requires
        leaf_sum(frames_view(old(stack)@)) <= u64::MAX,
        old(findings).tallied(),
    ensures
        ({
            let end = closed(
                Closing {
                    stack: frames_view(old(stack)@),
                    frame: new_frame(path@, branch@.root_hash),
                    out: old(findings)@,
                },
                branch@,
                ctx@,
            );
            &&& frames_view(final(stack)@) == end.stack
            &&& frame@ == end.frame
            &&& final(findings)@ == end.out
        }),
        frame.leaf_count + leaf_sum(frames_view(final(stack)@)) == leaf_sum(
            frames_view(old(stack)@),
        ),
        final(findings).tallied(),
        same_scans(final(findings).stats, old(findings).stats),
{
    let ghost start = Closing {
        stack: frames_view(stack@),
        frame: new_frame(path@, branch@.root_hash),
        out: findings@,
    };
    let depth: usize = path.len();
    let prefix: Nibbles = path.clone();
    let mut frame: NodeFrame = NodeFrame::new(path, branch.root_hash());
    loop
        invariant_except_break
            closed(start, branch@, ctx@) == closed(
                (Closing { stack: frames_view(stack@), frame: frame@, out: findings@ }),
                branch@,
                ctx@,
            ),
        invariant
            prefix@ == path@,
            frame@.path == path@,
            depth == path@.len(),
            frame.leaf_count + leaf_sum(frames_view(stack@)) == leaf_sum(start.stack),
            leaf_sum(start.stack) <= u64::MAX,
            findings.tallied(),
            same_scans(findings.stats, old(findings).stats),
        ensures
            closed(start, branch@, ctx@) == (Closing {
                stack: frames_view(stack@),
                frame: frame@,
                out: findings@,
            }),
        decreases stack.len(),
    {
        let n: usize = stack.len();
        if n == 0 {
            break;
        }
        assert(frames_view(stack@).last() == stack@.last()@);
        if stack[n - 1].path.len() <= depth || !stack[n - 1].path.starts_with(&prefix) {
            break;
        }
        let ghost before = frames_view(stack@);
        match stack.pop() {
            None => {
                break;
            },
            Some(child) => {
                proof {
                    assert(frames_view(stack@) =~= before.drop_last());
                    assert(child@ == before.last());
                }
                match child.path.get(depth) {
                    None => {
                        assert(false);
                    },
                    Some(nibble) => {
                        let hash: Option<B256> = branch.hash_for_nibble(nibble);
                        fold_child(child, hash, &mut frame, ctx, findings);
                    },
                }
            },
        }
    }
    frame
}

/// The last written block of a leaf of this trie.
pub open spec fn leaf_block(index: PeriodIndexView, ctx: CtxView, key: B256) -> Option<u64> {
    match ctx.trie_label {
        TrieKind::Account => found_in(index.accounts, key@),
        TrieKind::Storage => found_in(index.storage, ctx.owner + key@),
    }
}

/// A leaf of this trie is inactive: it has a last written block, and that is old enough.
pub open spec fn leaf_inactive(
    index: PeriodIndexView,
    ctx: CtxView,
    config: IdentifyConfig,
    key: B256,
) -> bool {
    leaf_block(index, ctx, key) matches Some(block) && inactive_at(config, block)
}

/// How many of these leaves have no last written block.
pub open spec fn missing(index: PeriodIndexView, ctx: CtxView, keys: Seq<B256>) -> nat {
    keys.filter(|key: B256| leaf_block(index, ctx, key) is None).len()
}

/// The frame of the leaves of a table that stand under `prefix`.
pub open spec fn cluster_of(
    prefix: Seq<u8>,
    keys: Seq<B256>,
    ctx: CtxView,
    index: PeriodIndexView,
    config: IdentifyConfig,
) -> FrameView {
    let leaves = keys_under(keys, prefix);
    FrameView {
        path: prefix,
        root_hash: None,
        all_inactive: forall|i: int|
            0 <= i < leaves.len() ==> leaf_inactive(index, ctx, config, #[trigger] leaves[i]),
        leaf_count: leaves.len(),
        candidates: Seq::empty(),
    }
}

/// The counters once `leaves` leaves of a trie were seen, `misses` of them without a block.
pub open spec fn stats_after(
    stats: IdentifyStats,
    kind: TrieKind,
    leaves: nat,
    misses: nat,
) -> IdentifyStats {
    IdentifyStats {
        accounts_scanned: (stats.accounts_scanned + if kind is Account {
            leaves
        } else {
            0
        }) as u64,
        storage_slots_scanned: (stats.storage_slots_scanned + if kind is Storage {
            leaves
        } else {
            0
        }) as u64,
        period_lookup_misses: (stats.period_lookup_misses + misses) as u64,
        ..stats
    }
}

/// `leaves` more leaves can be counted.
pub open spec fn room_for(stats: IdentifyStats, leaves: nat) -> bool {
    &&& stats.accounts_scanned + leaves <= u64::MAX
    &&& stats.storage_slots_scanned + leaves <= u64::MAX
    &&& stats.period_lookup_misses + leaves <= u64::MAX
}

/// Takes the next key of a table into the cluster of leaves under the cluster's path. Returns
/// whether the key belongs there; if not, the cluster is complete.
pub fn scan_leaf(
    cluster: &mut NodeFrame,
    key: &B256,
    ctx: &EmitCtx,
    index: &PeriodIndex,
    config: &IdentifyConfig,
    stats: &mut IdentifyStats,
) -> (more: bool)
    requires
        old(cluster).leaf_count < u64::MAX,
        room_for(*old(stats), 1),
    ensures
        more == key_under(*key, old(cluster).path@),
        final(cluster)@ == (if more {
            FrameView {
                all_inactive: old(cluster).all_inactive && leaf_inactive(
                    index@,
                    ctx@,
                    *config,
                    *key,
                ),
                leaf_count: old(cluster)@.leaf_count + 1,
                ..old(cluster)@
            }
        } else {
            old(cluster)@
        }),
        *final(stats) == (if more {
            stats_after(
                *old(stats),
                ctx.trie_label,
                1,
                if leaf_block(index@, ctx@, *key) is None {
                    1
                } else {
                    0
                },
            )
        } else {
            *old(stats)
        }),
{
    if !Nibbles::unpack(key).starts_with(&cluster.path) {
        return false;
    }
    cluster.leaf_count = cluster.leaf_count + 1;
    let block: Option<u64> = match ctx.trie_label {
        TrieKind::Account => {
            stats.accounts_scanned = stats.accounts_scanned + 1;
            index.account_block(key)
        },
        TrieKind::Storage => {
            stats.storage_slots_scanned = stats.storage_slots_scanned + 1;
            index.storage_block(&ctx.owner, key)
        },
    };
    let inactive: bool = match block {
        Some(block) => config.is_inactive(block),
        None => {
            stats.period_lookup_misses = stats.period_lookup_misses + 1;
            false
        },
    };
    if !inactive {
        cluster.all_inactive = false;
    }
    true
}

/// Finds every leaf of a table under `leaf_prefix`, from where a search for the padded prefix ends
/// to the first key that is not under it, and returns their frame.
pub fn scan_leaf_cluster(
    leaf_prefix: &Nibbles,
    keys: &[B256],
    ctx: &EmitCtx,
    index: &PeriodIndex,
    config: &IdentifyConfig,
    stats: &mut IdentifyStats,
) -> (cluster: NodeFrame)
    requires
        ascending(keys@),
        room_for(*old(stats), keys@.len()),
    ensures
        cluster@ == cluster_of(leaf_prefix@, keys@, ctx@, index@, *config),
        *final(stats) == stats_after(
            *old(stats),
            ctx.trie_label,
            keys_under(keys@, leaf_prefix@).len(),
            missing(index@, ctx@, keys_under(keys@, leaf_prefix@)),
        ),
{
    proof {
        use_type_invariant(leaf_prefix);
    }
    let mut cluster: NodeFrame = NodeFrame::new(leaf_prefix.clone(), None);
    let start: usize = seek(keys, &pack_seek_key(leaf_prefix));
    let mut at: usize = start;
    let mut more: bool = true;
    let ghost no_block = |key: B256| leaf_block(index@, ctx@, key) is None;
    proof {
        reveal(Seq::filter);
        assert(keys@.subrange(start as int, at as int).filter(no_block).len() == 0);
    }
    while more && at < keys.len()
        invariant
            start <= at <= keys@.len(),
            keys@.len() == keys.len(),
            cluster@ == (FrameView {
                path: leaf_prefix@,
                root_hash: None,
                all_inactive: cluster.all_inactive,
                leaf_count: (at - start) as nat,
                candidates: Seq::empty(),
            }),
            cluster.all_inactive == (forall|i: int|
                start <= i < at ==> leaf_inactive(index@, ctx@, *config, #[trigger] keys@[i])),
            forall|i: int| start <= i < at ==> key_under(#[trigger] keys@[i], leaf_prefix@),
            !more ==> at < keys@.len() && !key_under(keys@[at as int], leaf_prefix@),
            room_for(*old(stats), keys@.len()),
            no_block == (|key: B256| leaf_block(index@, ctx@, key) is None),
            *stats == stats_after(
                *old(stats),
                ctx.trie_label,
                (at - start) as nat,
                keys@.subrange(start as int, at as int).filter(no_block).len(),
            ),
            keys@.subrange(start as int, at as int).filter(no_block).len() <= at - start,
        decreases keys.len() - at + (if more { 1nat } else { 0 }),
    {
        proof {
            reveal(Seq::filter);
            let next = keys@.subrange(start as int, at + 1);
            assert(next.drop_last() =~= keys@.subrange(start as int, at as int));
            assert(next.last() == keys@[at as int]);
        }
        more = scan_leaf(&mut cluster, &keys[at], ctx, index, config, stats);
        if more {
            at = at + 1;
        }
    }
    proof {
        lemma_run_is_all(keys@, leaf_prefix@, start as int, at as int);
        let leaves = keys@.subrange(start as int, at as int);
        assert(cluster.all_inactive == (forall|i: int|
            0 <= i < leaves.len() ==> leaf_inactive(index@, ctx@, *config, #[trigger] leaves[i])))
            by {
            if cluster.all_inactive {
                assert forall|i: int| 0 <= i < leaves.len() implies leaf_inactive(
                    index@,
                    ctx@,
                    *config,
                    #[trigger] leaves[i],
                ) by {
                    assert(leaves[i] == keys@[start + i]);
                }
            } else {
                let i = choose|i: int|
                    start <= i < at && !leaf_inactive(index@, ctx@, *config, #[trigger] keys@[i]);
                assert(leaves[i - start] == keys@[i]);
            }
        }
    }
    cluster
}

} // verus!
