use alloy_primitives::keccak256;
use alloy_trie::proof::ProofRetainer;
use alloy_trie::HashBuilder;
use cold_state::capture::{capture_subtree, scan_leaf_keys, sort_post_order, CaptureError};
use cold_state::cold_file::{read_and_verify, ColdFileWriter};
use cold_state::cold_format::ColdError;
use cold_state::cold_stub::ColdStub;
use cold_state::convert::{
    plan_cold_file, read_checkpoint, reconcile_cold_file, root_key, write_checkpoint, ConvertError, Converter,
    Stats, Task,
};
use cold_state::identifier::{BranchNodeCompact, IdentifyConfig, InactiveSubtree, Scope, TrieKind};
use cold_state::identify::{identify, Leaves};
use cold_state::nibbles::{nibbles_hex, parse_nibbles_hex, Nibbles, WalkOrder};
use cold_state::period_index::PeriodIndex;
use cold_state::row_range::{delete_range, keys_above, RangeDelete, RowKey};
use cold_state::trie_node::{LeafNode, TrieNode};
use cold_state::walk::BranchItem;
use std::collections::BTreeMap;

/// The hashed accounts, with the value of each.
struct State {
    accounts: BTreeMap<[u8; 32], Vec<u8>>,
}

impl State {
    fn keys(&self) -> Vec<[u8; 32]> {
        self.accounts.keys().copied().collect()
    }

    fn builder(&self, targets: &[[u8; 32]]) -> HashBuilder {
        let targets = targets.iter().map(|key| alloy_trie::Nibbles::unpack(key)).collect();
        let mut builder = HashBuilder::default()
            .with_updates(true)
            .with_proof_retainer(ProofRetainer::new(targets));
        for (key, value) in &self.accounts {
            builder.add_leaf(alloy_trie::Nibbles::unpack(key), value);
        }
        builder
    }

    fn root(&self) -> [u8; 32] {
        self.builder(&[]).root().0
    }

    /// The branches of the trie, children first.
    fn items(&self) -> Vec<BranchItem> {
        let mut builder = self.builder(&[]);
        builder.root();
        let (_, updates) = builder.split();
        let mut branches: Vec<(Nibbles, alloy_trie::BranchNodeCompact)> = updates
            .into_iter()
            .map(|(path, branch)| (Nibbles::from_nibbles(&path.to_vec()), branch))
            .collect();
        branches.sort_by(|(a, _), (b, _)| match a.depth_first_order(b) {
            WalkOrder::Before => std::cmp::Ordering::Less,
            WalkOrder::Same => std::cmp::Ordering::Equal,
            WalkOrder::After => std::cmp::Ordering::Greater,
        });
        branches
            .into_iter()
            .map(|(path, branch)| {
                let hashes = branch.hashes.iter().map(|hash| hash.0).collect();
                let compact = BranchNodeCompact::new(
                    branch.state_mask.get(),
                    branch.tree_mask.get(),
                    branch.hash_mask.get(),
                    hashes,
                    branch.root_hash.map(|hash| hash.0),
                );
                BranchItem::Account(path, compact.unwrap())
            })
            .collect()
    }

    fn multiproof(&self, targets: &[[u8; 32]]) -> Vec<(Nibbles, Vec<u8>)> {
        let mut builder = self.builder(targets);
        builder.root();
        builder
            .take_proof_nodes()
            .iter()
            .map(|(path, bytes)| (Nibbles::from_nibbles(&path.to_vec()), bytes.to_vec()))
            .collect()
    }
}

/// The tables and the cold file.
#[derive(Default)]
struct Store {
    rows: Vec<RowKey>,
    stubs: BTreeMap<String, ColdStub>,
    checkpoint: Option<Vec<u8>>,
    exists: bool,
    file: Vec<u8>,
    commits: usize,
    appends: usize,
}

impl Store {
    fn delete_stubs(&mut self, key: &RowKey) -> u64 {
        let prefix = nibbles_hex(&key.path);
        let before = self.stubs.len();
        self.stubs.retain(|path, _| !path.starts_with(&prefix));
        (before - self.stubs.len()) as u64
    }

    fn run(
        &mut self,
        state: &State,
        subtrees: Vec<InactiveSubtree>,
        batch_size: usize,
        dry_run: bool,
    ) -> Result<Stats, ConvertError> {
        let found = if self.exists { Some(self.file.len() as u64) } else { None };
        let checkpoint = read_checkpoint(&self.checkpoint)?;
        let plan = plan_cold_file(dry_run, found, checkpoint)?;
        self.exists |= plan.create;
        if plan.cut {
            self.file.truncate(plan.writer.valid_length() as usize);
        }
        let writer = plan.writer;
        let (mut converter, mut task) = Converter::start(subtrees, batch_size, dry_run, writer);
        loop {
            task = match task {
                Task::FindStub(key) => {
                    converter.stub_found(self.stubs.contains_key(&nibbles_hex(&key.path)))
                }
                Task::FindLeaves(key) => {
                    converter.leaves_found(scan_leaf_keys(&key.path, &state.keys()))
                }
                Task::Prove(owner, targets) => {
                    assert_eq!(owner, None);
                    converter.proof_made(&state.multiproof(&targets))?
                }
                Task::Append(bytes) => {
                    self.file.extend_from_slice(&bytes);
                    self.appends += 1;
                    converter.blob_appended()
                }
                Task::ReadBlob(stub) => {
                    converter.blob_read(&self.file[stub.blob_offset as usize..])?
                }
                Task::DeleteRows(key) => {
                    let deleted = delete_range(&mut self.rows, key.owner, &key.path);
                    converter.rows_deleted(deleted)
                }
                Task::DeleteStubs(key) => {
                    let deleted = self.delete_stubs(&key);
                    converter.stubs_deleted(deleted)
                }
                Task::DropStubs(keys) => {
                    for key in &keys {
                        self.stubs.remove(&nibbles_hex(&key.path));
                    }
                    converter.stubs_dropped()
                }
                Task::PutStub(key, stub) => {
                    self.stubs.insert(nibbles_hex(&key.path), stub);
                    converter.stub_put()
                }
                Task::Commit(row) => {
                    self.checkpoint = Some(row);
                    self.commits += 1;
                    converter.committed()
                }
                Task::Finish => return Ok(converter.stats()),
            }
        }
    }
}

fn address(n: u32) -> [u8; 20] {
    let mut address = [0u8; 20];
    address[16..].copy_from_slice(&n.to_be_bytes());
    address
}

/// Two accounts that share the prefix `00` and were written long ago, among some hundred that
/// have no record.
fn seed_two_leaf_subtree() -> (State, PeriodIndex) {
    let reserved = |n: u32| keccak256(address(n)).0[0] == 0x00;
    let pair: Vec<u32> = (1u32..).filter(|n| reserved(*n)).take(2).collect();
    let filler = (1_000_000u32..1_000_500).filter(|n| !reserved(*n));
    let mut accounts = BTreeMap::new();
    for (i, n) in pair.iter().copied().chain(filler).enumerate() {
        let mut value = vec![0xf8, 0x44];
        value.extend_from_slice(&(i as u64).to_be_bytes());
        value.resize(70, 0x55);
        accounts.insert(keccak256(address(n)).0, value);
    }
    let rows: Vec<([u8; 20], u64)> = pair.iter().map(|n| (address(*n), 100)).collect();
    (State { accounts }, PeriodIndex::build(&rows, &[]))
}

fn config() -> IdentifyConfig {
    IdentifyConfig {
        fork_block: 0,
        blocks_per_period: 1000,
        current_period: 1,
        inactive_min_age: 1,
        scope: Scope::Both,
    }
}

fn found(state: &State, index: &PeriodIndex) -> Vec<InactiveSubtree> {
    let keys = state.keys();
    let leaves = Leaves { accounts: &keys, storages: &[] };
    identify(&state.items(), &leaves, &state.root(), index, &config()).0
}

#[test]
fn test_convert_end_to_end_writes_stub_and_cold_blob() {
    let (state, index) = seed_two_leaf_subtree();
    let subtrees = found(&state, &index);
    assert_eq!(subtrees.len(), 1, "expected exactly one maximal inactive account subtree");
    assert_eq!(subtrees[0].leaf_count, 2);

    let mut store = Store::default();
    store.rows = vec![
        RowKey { owner: None, path: Nibbles::from_nibbles(&[0]) },
        RowKey { owner: None, path: Nibbles::from_nibbles(&[0, 0]) },
        RowKey { owner: None, path: Nibbles::from_nibbles(&[0, 0, 5]) },
        RowKey { owner: None, path: Nibbles::from_nibbles(&[0, 1]) },
    ];
    let stats = store.run(&state, subtrees.clone(), 256, false).unwrap();

    assert_eq!(stats.subtrees_converted, 1);
    assert_eq!(stats.subtrees_skipped_already_converted, 0);
    assert_eq!(stats.subtrees_skipped_root_hash_mismatch, 0);
    assert!(stats.account_nodes_written > 0);
    assert_eq!(stats.account_nodes_written, 3, "a branch and its two leaves");
    assert_eq!(stats.hot_rows_deleted, 2);
    assert_eq!(stats.bytes_written_cold, store.file.len() as u64);
    assert_eq!(store.rows.len(), 2);

    // The stub row exists at the subtree's path and leads to the reported hash.
    let stub = *store.stubs.get(&subtrees[0].path).expect("stub row must exist after conversion");
    let recomputed = read_and_verify(&store.file, &stub).unwrap();
    assert_eq!(recomputed, subtrees[0].hash);
    assert_eq!(read_checkpoint(&store.checkpoint), Ok(Some(store.file.len() as u64)));

    // A second run is a clean no-op, not a duplicate blob or stub.
    let length = store.file.len();
    let second_stats = store.run(&state, subtrees, 256, false).unwrap();
    assert_eq!(second_stats.subtrees_converted, 0);
    assert_eq!(second_stats.subtrees_skipped_already_converted, 1);
    assert_eq!(store.file.len(), length);
    assert_eq!(store.appends, 1);
}

#[test]
fn orphaned_tail_is_cut_off() {
    let (state, index) = seed_two_leaf_subtree();
    let subtrees = found(&state, &index);
    let mut store = Store::default();
    store.run(&state, subtrees.clone(), 0, false).unwrap();
    let length = store.file.len();
    store.file.extend_from_slice(&[1, 2, 3]);
    store.run(&state, subtrees.clone(), 1, false).unwrap();
    assert_eq!(store.file.len(), length);
    let stub = store.stubs[&subtrees[0].path];
    assert_eq!(read_and_verify(&store.file, &stub).unwrap(), subtrees[0].hash);

    store.file.truncate(length - 1);
    assert_eq!(
        store.run(&state, subtrees, 1, false),
        Err(ConvertError::FileShorterThanCheckpoint)
    );
    assert_eq!(read_checkpoint(&Some(vec![0; 7])), Err(ConvertError::CorruptCheckpoint));
    assert_eq!(read_checkpoint(&None), Ok(None));
    assert_eq!(write_checkpoint(0x0102_0304_0506_0708), vec![1, 2, 3, 4, 5, 6, 7, 8]);
}

#[test]
fn dry_run_writes_nothing() {
    let (state, index) = seed_two_leaf_subtree();
    let subtrees = found(&state, &index);
    let mut store = Store::default();
    let stats = store.run(&state, subtrees, 256, true).unwrap();
    assert_eq!(stats.subtrees_identified, 1);
    assert_eq!(stats.subtrees_converted, 0);
    assert_eq!(stats.subtrees_skipped_root_hash_mismatch, 0);
    assert!(store.file.is_empty() && store.stubs.is_empty());
    assert_eq!((store.commits, store.appends), (0, 0));
    assert!(!store.exists, "a dry run creates no file");
}

#[test]
fn dry_run_cuts_nothing_off() {
    let (state, index) = seed_two_leaf_subtree();
    let subtrees = found(&state, &index);
    let mut store = Store::default();
    store.run(&state, subtrees.clone(), 256, false).unwrap();
    assert!(store.exists);
    store.file.extend_from_slice(&[1, 2, 3]);
    let before = store.file.clone();
    let stats = store.run(&state, subtrees, 256, true).unwrap();
    assert_eq!(stats.subtrees_skipped_already_converted, 1);
    assert_eq!(store.file, before);
}

#[test]
fn cold_file_plans() {
    let plan = |dry_run, found, checkpoint| {
        plan_cold_file(dry_run, found, checkpoint)
            .map(|plan| (plan.create, plan.cut, plan.writer.valid_length()))
    };
    assert_eq!(plan(false, None, None), Ok((true, false, 0)));
    assert_eq!(plan(false, Some(9), None), Ok((false, false, 9)));
    assert_eq!(plan(false, Some(9), Some(7)), Ok((false, true, 7)));
    assert_eq!(plan(false, Some(7), Some(7)), Ok((false, false, 7)));
    assert_eq!(plan(true, None, None), Ok((false, false, 0)));
    assert_eq!(plan(true, Some(9), Some(7)), Ok((false, false, 7)));
    let short = Err(ConvertError::FileShorterThanCheckpoint);
    assert_eq!(plan(false, Some(6), Some(7)), short);
    assert_eq!(plan(true, None, Some(1)), short);
    let mut writer = ColdFileWriter::open(9);
    assert_eq!(reconcile_cold_file(&mut writer, Some(7)), Ok(true));
    assert_eq!(writer.valid_length(), 7);
}

#[test]
fn changed_subtrees_are_skipped() {
    let (state, index) = seed_two_leaf_subtree();
    let mut subtrees = found(&state, &index);
    let mut gone = subtrees[0].clone();
    gone.path = "0000000000".to_string();
    subtrees[0].hash = [1; 32];
    subtrees.push(gone);
    let mut store = Store::default();
    let stats = store.run(&state, subtrees, 1, false).unwrap();
    assert_eq!(stats.subtrees_skipped_root_hash_mismatch, 2);
    assert_eq!(stats.subtrees_converted, 0);
    assert_eq!(store.commits, 2, "each batch is committed");
    assert!(store.file.is_empty());
}

#[test]
fn larger_stub_replaces_smaller_ones() {
    let (state, index) = seed_two_leaf_subtree();
    let subtrees = found(&state, &index);
    let mut store = Store::default();
    let below = format!("{}a", subtrees[0].path);
    let other = ColdStub { blob_offset: 0, root_in_blob: 0, root_size: 0 };
    store.stubs.insert(below.clone(), other);
    let stats = store.run(&state, subtrees, 256, false).unwrap();
    assert_eq!(stats.stub_rows_subsumed, 1);
    assert!(!store.stubs.contains_key(&below));
}

#[test]
fn stub_above_a_converted_subtree_is_dropped() {
    let (state, index) = seed_two_leaf_subtree();
    let subtrees = found(&state, &index);
    let mut store = Store::default();
    let path = subtrees[0].path.clone();
    let other = ColdStub { blob_offset: 0, root_in_blob: 0, root_size: 0 };
    store.stubs.insert(path[..1].to_string(), other);
    store.stubs.insert("f".to_string(), other);
    let stats = store.run(&state, subtrees.clone(), 256, false).unwrap();
    assert_eq!(stats.subtrees_converted, 1);
    assert_eq!(stats.subtrees_skipped_already_converted, 0);
    assert_eq!(stats.stub_rows_subsumed, 0);
    let left: Vec<&str> = store.stubs.keys().map(String::as_str).collect();
    assert_eq!(left, vec![path.as_str(), "f"], "stubs do not nest");
    let stub = store.stubs[&path];
    assert_eq!(read_and_verify(&store.file, &stub).unwrap(), subtrees[0].hash);
}

#[test]
fn outcomes_add_up() {
    let (state, index) = seed_two_leaf_subtree();
    let mut subtrees = found(&state, &index);
    let mut gone = subtrees[0].clone();
    gone.path = "0000000000".to_string();
    subtrees.insert(0, gone);
    subtrees.push(subtrees[1].clone());
    let mut store = Store::default();
    let stats = store.run(&state, subtrees, 2, false).unwrap();
    assert_eq!(stats.subtrees_identified, 3);
    assert_eq!(stats.subtrees_converted, 1);
    assert_eq!(stats.subtrees_skipped_already_converted, 1);
    assert_eq!(stats.subtrees_skipped_root_hash_mismatch, 1);
}

#[test]
fn keys_above_run_from_the_root() {
    let key = RowKey { owner: Some([4; 32]), path: Nibbles::from_nibbles(&[1, 2]) };
    let paths: Vec<String> = keys_above(&key).iter().map(|k| nibbles_hex(&k.path)).collect();
    assert_eq!(paths, vec!["", "1"]);
    assert!(keys_above(&key).iter().all(|k| k.owner == key.owner));
}

#[test]
fn bad_read_back_stops_the_conversion() {
    let (state, index) = seed_two_leaf_subtree();
    let subtrees = found(&state, &index);
    let start = || {
        let writer = ColdFileWriter::open(0);
        let (mut converter, _) = Converter::start(subtrees.clone(), 1, false, writer);
        converter.stub_found(false);
        let keys = scan_leaf_keys(&parse_nibbles_hex(&subtrees[0].path), &state.keys());
        converter.leaves_found(keys.clone());
        let task = converter.proof_made(&state.multiproof(&keys)).unwrap();
        converter.blob_appended();
        (converter, task)
    };
    let (mut converter, task) = start();
    let bytes = match task {
        Task::Append(bytes) => bytes,
        _ => panic!("expected a blob"),
    };
    assert_eq!(converter.file_len(), bytes.len() as u64);
    assert_eq!(
        converter.blob_read(&bytes[..20]).unwrap_err(),
        ConvertError::Cold(ColdError::FileTruncated)
    );
    let (mut converter, _) = start();
    // Another hash in a slot of the root gives the root another hash.
    let mut flipped = bytes.clone();
    let mut at = 17 + u32::from_be_bytes(bytes[8..12].try_into().unwrap()) as usize;
    while bytes[at] == 0 {
        at += 1;
    }
    flipped[at + 1] ^= 1;
    assert_eq!(converter.blob_read(&flipped).unwrap_err(), ConvertError::WriteNotRoundTripped);
    let (mut converter, _) = start();
    assert!(matches!(converter.blob_read(&bytes), Ok(Task::DeleteRows(_))));
}

#[test]
fn failed_proofs_are_skipped() {
    let (state, index) = seed_two_leaf_subtree();
    let subtrees = found(&state, &index);
    let keys = scan_leaf_keys(&parse_nibbles_hex(&subtrees[0].path), &state.keys());
    assert_eq!(keys.len(), 2);
    let (mut converter, _) = Converter::start(subtrees, 1, false, ColdFileWriter::open(0));
    converter.stub_found(false);
    converter.leaves_found(keys);
    assert!(matches!(converter.proof_failed(), Task::Commit(_)));
    assert_eq!(converter.stats().subtrees_skipped_root_hash_mismatch, 1);
    assert!(matches!(converter.committed(), Task::Finish));
}

#[test]
fn capture_errors() {
    let (state, index) = seed_two_leaf_subtree();
    let subtrees = found(&state, &index);
    let path = parse_nibbles_hex(&subtrees[0].path);
    let keys = scan_leaf_keys(&path, &state.keys());
    let proven = state.multiproof(&keys);
    let hash = subtrees[0].hash;

    let nodes = capture_subtree(&path, &hash, &proven).unwrap();
    assert_eq!(nodes.len(), 3);
    assert_eq!(nibbles_hex(&nodes[2].0), subtrees[0].path);

    assert_eq!(capture_subtree(&path, &[0; 32], &proven), Err(CaptureError::RootHashMismatch));
    assert_eq!(capture_subtree(&path, &hash, &[]), Err(CaptureError::NoProofNodes));
    let broken = vec![(path.clone(), vec![0xc1])];
    assert_eq!(capture_subtree(&path, &hash, &broken), Err(CaptureError::UndecodableNode));
    // A leaf with a one-byte key and a one-byte value is too short to have a hash.
    let short = vec![(path.clone(), vec![0xc2, 0x31, 0x05])];
    assert_eq!(capture_subtree(&path, &hash, &short), Err(CaptureError::RootNotHashed));
    let elsewhere = vec![(Nibbles::from_nibbles(&[0xf]), vec![0xc1])];
    assert_eq!(capture_subtree(&path, &hash, &elsewhere), Err(CaptureError::NoProofNodes));
}

#[test]
fn post_order_puts_children_first() {
    let node = || {
        TrieNode::Leaf(LeafNode { key: Nibbles::new(), value: Vec::new() })
    };
    let paths: [&[u8]; 6] = [&[], &[1], &[1, 2], &[0], &[1, 0, 5], &[2]];
    let nodes = paths.iter().map(|p| (Nibbles::from_nibbles(p), node())).collect();
    let sorted: Vec<String> =
        sort_post_order(nodes).iter().map(|(path, _)| nibbles_hex(path)).collect();
    assert_eq!(sorted, vec!["0", "105", "12", "1", "2", ""]);
}

#[test]
fn ranges_cover_owner_and_prefix() {
    let row = |owner: u8, path: &[u8]| RowKey {
        owner: Some([owner; 32]),
        path: Nibbles::from_nibbles(path),
    };
    let mut rows = vec![
        row(1, &[5, 6]),
        row(2, &[5]),
        row(2, &[5, 6]),
        row(2, &[5, 6, 0]),
        row(2, &[5, 6, 15, 1]),
        row(2, &[5, 7]),
        row(3, &[5, 6]),
    ];
    let deleted = delete_range(&mut rows, Some([2; 32]), &Nibbles::from_nibbles(&[5, 6]));
    assert_eq!(deleted, 3);
    assert_eq!(
        rows,
        vec![row(1, &[5, 6]), row(2, &[5]), row(2, &[5, 7]), row(3, &[5, 6])]
    );
    let mut range = RangeDelete::new(Some([2; 32]), Nibbles::from_nibbles(&[5]));
    assert!(range.offer(&row(2, &[5, 7])));
    assert!(!range.offer(&row(3, &[5, 6])));
    assert_eq!(range.deleted, 1);
}

#[test]
fn keys_of_roots() {
    let mut subtree = InactiveSubtree {
        trie: TrieKind::Storage,
        owner: [4; 32],
        path: "0fA".to_string(),
        hash: [0; 32],
        leaf_count: 1,
    };
    let key = root_key(&subtree);
    assert_eq!(key, RowKey { owner: Some([4; 32]), path: Nibbles::from_nibbles(&[0, 15, 10]) });
    subtree.trie = TrieKind::Account;
    assert_eq!(root_key(&subtree).owner, None);
}
