use cold_state::identifier::{
    finalize_root, finalize_walk, fold_child, scan_leaf_cluster, BranchNodeCompact, EmitCtx,
    Findings, IdentifyConfig, IdentifyStats, InactiveSubtree, NodeFrame, Scope, TrieKind,
};
use cold_state::identify::{identify, Leaves, StorageTable};
use cold_state::nibbles::Nibbles;
use cold_state::period_index::{HashedStorageKey, PeriodIndex};
use cold_state::periods::compute_period;
use cold_state::walk::BranchItem;

fn config(current_period: u32, inactive_min_age: u32) -> IdentifyConfig {
    IdentifyConfig {
        fork_block: 0,
        blocks_per_period: 1000,
        current_period,
        inactive_min_age,
        scope: Scope::Both,
    }
}

fn account_ctx(emit_output: bool) -> EmitCtx {
    EmitCtx { trie_label: TrieKind::Account, owner: [0; 32], emit_output }
}

fn subtree(path: &str, hash: u8) -> InactiveSubtree {
    InactiveSubtree {
        trie: TrieKind::Account,
        owner: [0; 32],
        path: path.to_string(),
        hash: [hash; 32],
        leaf_count: 1,
    }
}

fn leaf_frame(path: &[u8], inactive: bool) -> NodeFrame {
    NodeFrame {
        path: Nibbles::from_nibbles(path),
        root_hash: None,
        all_inactive: inactive,
        leaf_count: 1,
        candidates: Vec::new(),
    }
}

#[test]
fn test_compute_period() {
    let cases = [
        ("before fork", 5, 10, 1000, 0),
        ("at fork", 10, 10, 1000, 0),
        ("one period in", 1010, 10, 1000, 1),
        ("many periods", 50_000, 0, 1000, 50),
        ("zero length saturates", 99, 0, 0, 0),
    ];
    for (name, block, fork, blocks_per_period, want) in cases {
        assert_eq!(compute_period(block, fork, blocks_per_period), want, "case: {name}");
    }
    assert_eq!(compute_period(u64::MAX, 0, 1), u32::MAX);
}

#[test]
fn test_is_inactive_boundary() {
    let cfg = config(10, 2);
    assert!(!cfg.is_inactive(10_000)); // period 10, age 0 < 2
    assert!(!cfg.is_inactive(9_000)); // period 9, age 1 < 2
    assert!(cfg.is_inactive(8_000)); // period 8, age 2 >= 2
    assert!(cfg.is_inactive(0)); // period 0, age 10 >= 2
}

#[test]
fn test_is_inactive_future_period_defensive() {
    // A leaf whose period is ahead of `current_period` is never inactive.
    let cfg = config(1, 0);
    assert!(!cfg.is_inactive(5_000)); // period 5 > current_period 1
}

#[test]
fn test_is_inactive_no_fork_yet() {
    let cfg = config(0, 0);
    assert!(cfg.is_inactive(0)); // period 0, age 0 >= inactive_min_age 0
}

#[test]
fn test_fold_child_all_inactive_with_hash_becomes_single_candidate() {
    let mut findings = Findings::new();
    let mut parent = NodeFrame::new(Nibbles::from_nibbles(&[0x1]), None);
    let child = leaf_frame(&[0x1, 0x2], true);

    fold_child(child, Some([0xaa; 32]), &mut parent, &account_ctx(true), &mut findings);

    assert_eq!(parent.candidates.len(), 1);
    assert!(parent.all_inactive);
    assert_eq!(parent.leaf_count, 1);
    assert!(findings.subtrees.is_empty(), "nothing emitted yet, parent hasn't been finalized");
    assert_eq!(parent.candidates[0].path, "12");
}

#[test]
fn test_fold_child_double_counting_fix_drops_inner_candidates() {
    let mut findings = Findings::new();
    let mut child = leaf_frame(&[0x1, 0x2], true);
    child.candidates.push(subtree("0102ff", 0xcc));

    let mut grandparent = NodeFrame::new(Nibbles::from_nibbles(&[0x1]), None);
    fold_child(child, Some([0xbb; 32]), &mut grandparent, &account_ctx(true), &mut findings);

    assert_eq!(
        grandparent.candidates.len(),
        1,
        "only the child itself should be a candidate, not also its inner grandchild"
    );
    assert_eq!(grandparent.candidates[0].hash, [0xbb; 32]);
}

#[test]
fn test_fold_child_embedded_bubbles_up_candidates() {
    let mut findings = Findings::new();
    let mut child = leaf_frame(&[0x1, 0x2], true);
    let inner = subtree("0102ff", 0xcc);
    child.candidates.push(inner.clone());

    let mut parent = NodeFrame::new(Nibbles::from_nibbles(&[0x1]), None);
    fold_child(child, None, &mut parent, &account_ctx(true), &mut findings);

    assert_eq!(parent.candidates, vec![inner]);
}

#[test]
fn test_fold_child_active_child_flushes_candidates_and_marks_parent_active() {
    let mut findings = Findings::new();
    let mut child = leaf_frame(&[0x1, 0x2], false);
    child.candidates.push(subtree("0102ff", 0xcc));

    let mut parent = NodeFrame::new(Nibbles::from_nibbles(&[0x1]), None);
    fold_child(child, Some([0xdd; 32]), &mut parent, &account_ctx(true), &mut findings);

    assert!(!parent.all_inactive);
    assert!(parent.candidates.is_empty(), "child's own candidates were flushed, not carried");
    assert_eq!(findings.subtrees.len(), 1);
    assert_eq!(findings.subtrees[0].hash, [0xcc; 32]);
    assert_eq!(findings.stats.inactive_account_subtrees, 1);
}

fn root_frame(all_inactive: bool, leaf_count: u64, candidates: Vec<InactiveSubtree>) -> NodeFrame {
    NodeFrame {
        path: Nibbles::new(),
        root_hash: Some([0xee; 32]),
        all_inactive,
        leaf_count,
        candidates,
    }
}

#[test]
fn test_finalize_root_all_inactive_emits_single_subtree() {
    let mut findings = Findings::new();
    let root = root_frame(true, 3, vec![subtree("01", 0x11)]);

    finalize_root(root, &account_ctx(true), &mut findings);

    assert_eq!(findings.subtrees.len(), 1);
    assert_eq!(findings.subtrees[0].hash, [0xee; 32]);
    assert_eq!(findings.subtrees[0].leaf_count, 3);
}

#[test]
fn test_finalize_root_mixed_emits_candidates_not_root() {
    let mut findings = Findings::new();
    let candidate = subtree("01", 0x11);
    let root = root_frame(false, 3, vec![candidate.clone()]);

    finalize_root(root, &account_ctx(true), &mut findings);

    assert_eq!(findings.subtrees, vec![candidate]);
}

#[test]
fn test_finalize_root_suppressed_when_emit_output_false() {
    let mut findings = Findings::new();
    let root = root_frame(true, 1, Vec::new());

    finalize_root(root, &account_ctx(false), &mut findings);

    assert!(findings.subtrees.is_empty(), "Scope::Storage must suppress account-trie emissions");
}

#[test]
fn test_scan_leaf_cluster_no_match_returns_empty() {
    // No accounts at all under prefix `0xf`.
    let accounts = [[0x00; 32]];
    let prefix = Nibbles::from_nibbles(&[0xf]);
    let mut stats = IdentifyStats::default();
    let cluster = scan_leaf_cluster(
        &prefix,
        &accounts,
        &account_ctx(true),
        &PeriodIndex::new(),
        &config(0, 0),
        &mut stats,
    );

    assert_eq!(cluster.leaf_count, 0);
    assert_eq!(stats.accounts_scanned, 0);
}

#[test]
fn test_scan_leaf_cluster_finds_every_leaf_under_a_shared_prefix() {
    let mut key_a = [0u8; 32];
    key_a[0] = 0x0a; // nibble path: 0, a, ...
    let mut key_b = [0u8; 32];
    key_b[0] = 0x0b; // nibble path: 0, b, ... shares the `0` prefix with key_a
    let mut key_c = [0u8; 32];
    key_c[0] = 0x10; // nibble path: 1, ... outside the `0` prefix
    let accounts = [key_a, key_b, key_c];

    let prefix = Nibbles::from_nibbles(&[0x0]);
    let mut stats = IdentifyStats::default();
    let cluster = scan_leaf_cluster(
        &prefix,
        &accounts,
        &account_ctx(true),
        &PeriodIndex::new(),
        &config(0, 0),
        &mut stats,
    );

    assert_eq!(cluster.leaf_count, 2, "both key_a and key_b share the `0` prefix");
    assert_eq!(stats.accounts_scanned, 2);
    assert_eq!(stats.period_lookup_misses, 2, "period_lookup returns None for both in this test");
    assert!(!cluster.all_inactive);
}

#[test]
fn scopes_and_labels() {
    assert!(Scope::Account.emit_account() && !Scope::Account.descend_storage());
    assert!(!Scope::Storage.emit_account() && Scope::Storage.descend_storage());
    assert!(Scope::Both.emit_account() && Scope::Both.descend_storage());
    assert_eq!(TrieKind::Account.label(), "account");
    assert_eq!(TrieKind::Storage.label(), "storage");
}

#[test]
fn period_index_finds_by_hash() {
    let alice = [0xaa; 20];
    let bob = [0xbb; 20];
    let slot = [0x01; 32];
    let index =
        PeriodIndex::build(&[(alice, 7), (bob, 8), (alice, 9)], &[((alice, slot), 30)]);
    let alice_hash = alloy_primitives::keccak256(alice).0;
    let slot_hash = alloy_primitives::keccak256(slot).0;
    assert_eq!(index.account_block(&alice_hash), Some(9));
    assert_eq!(index.account_block(&alloy_primitives::keccak256(bob).0), Some(8));
    assert_eq!(index.account_block(&[0; 32]), None);
    assert_eq!(index.storage_block(&alice_hash, &slot_hash), Some(30));
    assert_eq!(index.storage_block(&slot_hash, &alice_hash), None);

    let key = HashedStorageKey { owner: alice_hash, slot: slot_hash };
    let bytes = key.encode();
    assert_eq!(&bytes[..32], &alice_hash[..]);
    assert_eq!(&bytes[32..], &slot_hash[..]);
    assert_eq!(HashedStorageKey::decode(&bytes), key);
}

#[test]
fn branch_masks_must_agree() {
    let branch = BranchNodeCompact::new(0b111, 0b010, 0b101, vec![[1; 32], [2; 32]], None);
    let branch = branch.unwrap();
    assert_eq!(branch.hash_for_nibble(0), Some([1; 32]));
    assert_eq!(branch.hash_for_nibble(1), None);
    assert_eq!(branch.hash_for_nibble(2), Some([2; 32]));
    assert!(branch.is_leaf_slot(0) && !branch.is_leaf_slot(1) && !branch.is_leaf_slot(3));
    assert!(BranchNodeCompact::new(0b001, 0b010, 0, vec![], None).is_none());
    assert!(BranchNodeCompact::new(0b001, 0, 0b010, vec![[1; 32]], None).is_none());
    assert!(BranchNodeCompact::new(0b001, 0, 0b001, vec![], None).is_none());
}

#[test]
fn stray_frames_fold_into_a_root() {
    let mut findings = Findings::new();
    let mut a = leaf_frame(&[1], true);
    a.candidates.push(subtree("12", 1));
    let mut b = leaf_frame(&[2], false);
    b.candidates.push(subtree("23", 2));
    finalize_walk(vec![a, b], Some([9; 32]), &account_ctx(true), &mut findings);
    let paths: Vec<&str> = findings.subtrees.iter().map(|s| s.path.as_str()).collect();
    assert_eq!(paths, vec!["23", "12"]);
    assert_eq!(findings.stats.inactive_account_subtrees, 2);

    let mut all = Findings::new();
    finalize_walk(
        vec![leaf_frame(&[1], true), leaf_frame(&[2], true)],
        Some([9; 32]),
        &account_ctx(true),
        &mut all,
    );
    assert_eq!(all.subtrees.len(), 1);
    assert_eq!(all.subtrees[0].hash, [9; 32]);
    assert_eq!(all.subtrees[0].path, "");
    assert_eq!(all.subtrees[0].leaf_count, 2);
}

fn key(first: u8) -> [u8; 32] {
    let mut key = [0u8; 32];
    key[0] = first;
    key
}

fn branch(state: u16, tree: u16, hash: u16, hashes: Vec<[u8; 32]>) -> BranchNodeCompact {
    BranchNodeCompact::new(state, tree, hash, hashes, None).unwrap()
}

/// Accounts whose hashed addresses the index knows; the addresses are those of `inactive`.
fn sorted_hashes(addresses: &[[u8; 20]]) -> Vec<[u8; 32]> {
    let mut keys: Vec<[u8; 32]> =
        addresses.iter().map(|a| alloy_primitives::keccak256(a).0).collect();
    keys.sort();
    keys
}

#[test]
fn whole_trie_inactive_is_one_subtree() {
    let addresses: Vec<[u8; 20]> = (0..40u8).map(|n| [n; 20]).collect();
    let rows: Vec<([u8; 20], u64)> = addresses.iter().map(|a| (*a, 5)).collect();
    let index = PeriodIndex::build(&rows, &[]);
    let keys = sorted_hashes(&addresses);
    let state = keys.iter().fold(0u16, |mask, k| mask | (1 << (k[0] >> 4)));
    let items = [BranchItem::Account(Nibbles::new(), branch(state, 0, 0, vec![]))];
    let leaves = Leaves { accounts: &keys, storages: &[] };

    let (found, stats) = identify(&items, &leaves, &[3; 32], &index, &config(2, 1));
    assert_eq!(found.len(), 1);
    assert_eq!(found[0].path, "");
    assert_eq!(found[0].hash, [3; 32]);
    assert_eq!(found[0].leaf_count, 40);
    assert_eq!(stats.accounts_scanned, 40);
    assert_eq!(stats.inactive_account_subtrees, 1);

    let only_storage = IdentifyConfig { scope: Scope::Storage, ..config(2, 1) };
    let (none, stats) = identify(&items, &leaves, &[3; 32], &index, &only_storage);
    assert!(none.is_empty());
    assert_eq!(stats.accounts_scanned, 40);
}

#[test]
fn maximal_subtrees_of_a_mixed_trie() {
    // The slots 0 to 3 of the storage of one owner, all old; slot 4 has no record.
    let owner_address = [0xaa; 20];
    let owner = alloy_primitives::keccak256(owner_address).0;
    let slots: Vec<[u8; 32]> = (0..5u8).map(|n| [n; 32]).collect();
    let rows: Vec<(([u8; 20], [u8; 32]), u64)> =
        slots[..4].iter().map(|s| ((owner_address, *s), 1)).collect();
    let index = PeriodIndex::build(&[], &rows);
    let mut hashed: Vec<[u8; 32]> =
        slots.iter().map(|s| alloy_primitives::keccak256(s).0).collect();
    let active = hashed[4];
    hashed.sort();
    let state = hashed.iter().fold(0u16, |mask, k| mask | (1 << (k[0] >> 4)));
    let hashes: Vec<[u8; 32]> =
        (0..16u8).filter(|n| state & (1 << n) != 0).map(|n| [n; 32]).collect();
    let items =
        [BranchItem::Storage(owner, Nibbles::new(), branch(state, 0, state, hashes))];
    let tables = [StorageTable { owner, slots: hashed.clone() }];
    let leaves = Leaves { accounts: &[], storages: &tables };

    let (found, stats) = identify(&items, &leaves, &[3; 32], &index, &config(2, 1));
    let quiet: Vec<u8> = (0..16u8)
        .filter(|n| state & (1 << n) != 0 && active[0] >> 4 != *n)
        .collect();
    assert_eq!(found.len(), quiet.len());
    for (subtree, n) in found.iter().zip(&quiet) {
        assert_eq!(subtree.trie, TrieKind::Storage);
        assert_eq!(subtree.owner, owner);
        assert_eq!(subtree.path, format!("{n:x}"));
        assert_eq!(subtree.hash, [*n; 32]);
    }
    assert_eq!(stats.storage_slots_scanned, 5);
    assert_eq!(stats.storage_tries_walked, 1);
    assert_eq!(stats.period_lookup_misses, 1);
    assert_eq!(stats.inactive_storage_subtrees, quiet.len() as u64);

    let only_accounts = IdentifyConfig { scope: Scope::Account, ..config(2, 1) };
    let (none, stats) = identify(&items, &leaves, &[3; 32], &index, &only_accounts);
    assert!(none.is_empty());
    assert_eq!(stats.storage_tries_walked, 0);
    assert_eq!(stats.storage_slots_scanned, 0);
}

#[test]
fn inner_branch_and_empty_slot() {
    // A branch at `1` below the root; its slot 2 has a leaf, its slot 3 has none.
    let keys = [key(0x12), key(0x50)];
    let items = [
        BranchItem::Account(
            Nibbles::from_nibbles(&[1]),
            branch(0b1100, 0, 0b0100, vec![[7; 32]]),
        ),
        BranchItem::Account(Nibbles::new(), branch(0b10_0010, 0b10, 0b10, vec![[8; 32]])),
    ];
    let leaves = Leaves { accounts: &keys, storages: &[] };
    let (found, stats) =
        identify(&items, &leaves, &[3; 32], &PeriodIndex::new(), &config(2, 1));
    assert!(found.is_empty(), "leaves without records are active");
    assert_eq!(stats.leaf_slot_prefix_mismatches, 1);
    assert_eq!(stats.period_lookup_misses, 2);
    assert_eq!(stats.accounts_scanned, 2);
}

#[test]
fn low_tries_report_what_is_below() {
    // All keys begin with the nibble 1, so the topmost branch stands at `1`.
    let keys = [key(0x12), key(0x15)];
    let top = || branch(0b10_0100, 0, 0b10_0100, vec![[7; 32], [8; 32]]);
    let leaves = Leaves { accounts: &keys, storages: &[] };
    let items = [BranchItem::Account(Nibbles::from_nibbles(&[1]), top())];
    let (none, _) = identify(&items, &leaves, &[3; 32], &PeriodIndex::new(), &config(2, 1));
    assert!(none.is_empty());

    // The storage of one owner, all of whose slots are old.
    let owner_address = [0xaa; 20];
    let owner = alloy_primitives::keccak256(owner_address).0;
    let slots: Vec<[u8; 32]> = (0..200u8)
        .map(|n| [n; 32])
        .filter(|slot| alloy_primitives::keccak256(slot).0[0] >> 4 == 1)
        .collect();
    let rows: Vec<(([u8; 20], [u8; 32]), u64)> =
        slots.iter().map(|slot| ((owner_address, *slot), 1)).collect();
    let index = PeriodIndex::build(&[], &rows);
    let mut hashed: Vec<[u8; 32]> =
        slots.iter().map(|slot| alloy_primitives::keccak256(slot).0).collect();
    hashed.sort();
    let state = hashed.iter().fold(0u16, |mask, k| mask | (1 << (k[0] & 15)));
    let hashes: Vec<[u8; 32]> =
        (0..16u8).filter(|n| state & (1 << n) != 0).map(|n| [n; 32]).collect();
    let count = hashes.len();
    assert!(count > 0);
    let items =
        [BranchItem::Storage(owner, Nibbles::from_nibbles(&[1]), branch(state, 0, state, hashes))];
    let tables = [StorageTable { owner, slots: hashed.clone() }];
    let leaves = Leaves { accounts: &[], storages: &tables };
    let (found, _) = identify(&items, &leaves, &[3; 32], &index, &config(2, 1));
    assert_eq!(found.len(), count, "the root of a storage trie has no known hash");
    assert!(found.iter().all(|s| s.path.len() == 2 && s.path.starts_with('1')));
    let leaf_count: u64 = found.iter().map(|s| s.leaf_count).sum();
    assert_eq!(leaf_count, hashed.len() as u64);
}

/// Some accounts and the storage of one of them, old and new.
fn mixed_state() -> (Vec<BranchItem>, Vec<[u8; 32]>, Vec<StorageTable>, PeriodIndex) {
    let addresses: Vec<[u8; 20]> = (0..60u8).map(|n| [n; 20]).collect();
    let rows: Vec<([u8; 20], u64)> =
        addresses.iter().enumerate().map(|(i, a)| (*a, (i as u64 % 5) * 1000)).collect();
    let slots: Vec<[u8; 32]> = (0..9u8).map(|n| [n; 32]).collect();
    let slot_rows: Vec<(([u8; 20], [u8; 32]), u64)> =
        slots.iter().map(|s| ((addresses[0], *s), (s[0] as u64 % 3) * 1000)).collect();
    let index = PeriodIndex::build(&rows, &slot_rows);
    let keys = sorted_hashes(&addresses);
    let owner = alloy_primitives::keccak256(addresses[0]).0;
    let mut hashed: Vec<[u8; 32]> =
        slots.iter().map(|s| alloy_primitives::keccak256(s).0).collect();
    hashed.sort();
    let top = |keys: &[[u8; 32]]| {
        let state = keys.iter().fold(0u16, |mask, k| mask | (1 << (k[0] >> 4)));
        let hashes = (0..16u8).filter(|n| state & (1 << n) != 0).map(|n| [n; 32]).collect();
        branch(state, 0, state, hashes)
    };
    let items = vec![
        BranchItem::Storage(owner, Nibbles::new(), top(&hashed)),
        BranchItem::Account(Nibbles::new(), top(&keys)),
    ];
    (items, keys, vec![StorageTable { owner, slots: hashed }], index)
}

#[test]
fn narrow_scopes_filter_the_wide_one() {
    let (items, keys, tables, index) = mixed_state();
    let leaves = Leaves { accounts: &keys, storages: &tables };
    let run = |scope| {
        let config = IdentifyConfig { scope, ..config(4, 2) };
        identify(&items, &leaves, &[3; 32], &index, &config)
    };
    let (both, wide) = run(Scope::Both);
    for (scope, kind) in [(Scope::Account, TrieKind::Account), (Scope::Storage, TrieKind::Storage)] {
        let (some, stats) = run(scope);
        let expected: Vec<InactiveSubtree> =
            both.iter().filter(|s| s.trie == kind).cloned().collect();
        assert_eq!(some, expected);
        assert_eq!(stats.accounts_scanned, wide.accounts_scanned);
    }
    assert!(both.iter().any(|s| s.trie == TrieKind::Storage));
    assert_eq!(run(Scope::Account).1.storage_tries_walked, 0);
    assert_eq!(run(Scope::Account).1.storage_slots_scanned, 0);
    assert_eq!(run(Scope::Storage).1.storage_slots_scanned, wide.storage_slots_scanned);
}

#[test]
fn smaller_ages_lose_no_leaf() {
    let (items, keys, tables, index) = mixed_state();
    let leaves = Leaves { accounts: &keys, storages: &tables };
    let covered = |age| -> Vec<(TrieKind, String)> {
        let (found, _) = identify(&items, &leaves, &[3; 32], &index, &config(4, age));
        let hex = |k: &[u8; 32]| k.iter().map(|b| format!("{b:02x}")).collect::<String>();
        let under = |kind: TrieKind, k: &[u8; 32]| {
            found.iter().any(|s| s.trie == kind && hex(k).starts_with(&s.path))
        };
        let mut all = Vec::new();
        for k in keys.iter().filter(|k| under(TrieKind::Account, k)) {
            all.push((TrieKind::Account, hex(k)));
        }
        for k in tables[0].slots.iter().filter(|k| under(TrieKind::Storage, k)) {
            all.push((TrieKind::Storage, hex(k)));
        }
        all
    };
    for age in 1..5 {
        let smaller = covered(age - 1);
        assert!(covered(age).iter().all(|leaf| smaller.contains(leaf)));
    }
    assert_eq!(covered(0).len(), keys.len() + tables[0].slots.len());
}
