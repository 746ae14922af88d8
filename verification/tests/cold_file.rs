use cold_state::cold_file::{
    cold_node_to_rlp, read_and_verify, recompute_root_hash, to_cold_node, verify_blob,
    ColdFileWriter,
};
use cold_state::cold_format::{BlobHeader, ChildSlot, ColdError, ColdNode};
use cold_state::cold_stub::ColdStub;
use cold_state::nibble_map::NibbleMap;
use cold_state::nibbles::Nibbles;
use cold_state::trie_node::{BranchNode, ExtensionNode, LeafNode, RlpNode, TrieNode};
use std::collections::HashMap;

fn path(nibbles: &[u8]) -> Nibbles {
    Nibbles::from_nibbles(nibbles)
}

fn leaf(key: &[u8], value: Vec<u8>) -> TrieNode {
    TrieNode::Leaf(LeafNode { key: path(key), value })
}

/// The reference to a leaf, by the outside crate.
fn leaf_reference(key: &[u8], value: Vec<u8>) -> RlpNode {
    let node = alloy_trie::nodes::LeafNode::new(
        alloy_trie::Nibbles::from_nibbles(key),
        value,
    );
    let rlp = alloy_trie::nodes::TrieNode::Leaf(node).rlp(&mut Vec::new());
    RlpNode::from_raw(&rlp).unwrap()
}

/// A branch at the empty path with two short leaves under the nibbles one and two.
fn two_leaf_subtree() -> Vec<(Nibbles, TrieNode)> {
    let branch = BranchNode {
        stack: vec![
            leaf_reference(&[0xa], vec![0xaa; 10]),
            leaf_reference(&[0xb], vec![0xbb; 10]),
        ],
        state_mask: 0b110,
    };
    vec![
        (path(&[0x1]), leaf(&[0xa], vec![0xaa; 10])),
        (path(&[0x2]), leaf(&[0xb], vec![0xbb; 10])),
        (Nibbles::default(), TrieNode::Branch(branch)),
    ]
}

/// The hash of the branch of `two_leaf_subtree`, by the outside crate.
fn expected_hash() -> [u8; 32] {
    let rlp = |key: u8, byte: u8| {
        let node = alloy_trie::nodes::LeafNode::new(
            alloy_trie::Nibbles::from_nibbles([key]),
            vec![byte; 10],
        );
        alloy_trie::nodes::TrieNode::Leaf(node).rlp(&mut Vec::new())
    };
    let mut branch = alloy_trie::nodes::BranchNode::default();
    branch.state_mask.set_bit(0x1);
    branch.state_mask.set_bit(0x2);
    branch.stack.push(rlp(0xa, 0xaa));
    branch.stack.push(rlp(0xb, 0xbb));
    let rlp = alloy_trie::nodes::TrieNode::Branch(branch).rlp(&mut Vec::new());
    rlp.as_hash().expect("branch with two hashed-size leaves must hash, not embed").0
}

fn append(file: &mut Vec<u8>, writer: &mut ColdFileWriter, nodes: &[(Nibbles, TrieNode)]) -> ColdStub {
    let blob = writer.write_blob(nodes).unwrap();
    file.extend_from_slice(&blob.bytes);
    writer.blob_written(&blob);
    blob.stub
}

#[test]
fn test_write_blob_and_read_and_verify_round_trips() {
    let nodes = two_leaf_subtree();
    let mut file = Vec::new();
    let mut writer = ColdFileWriter::open(0);
    let stub = append(&mut file, &mut writer, &nodes);
    assert_eq!(stub.blob_offset, 0);
    assert!(stub.root_in_blob > 0, "leaves are written before the branch root");

    let recomputed = read_and_verify(&file, &stub).unwrap();
    assert_eq!(recomputed, expected_hash());
}

#[test]
fn test_write_blob_rejects_empty_input() {
    let writer = ColdFileWriter::open(0);
    assert!(writer.write_blob(&[]).is_err());
    assert_eq!(writer.write_blob(&[]).unwrap_err(), ColdError::EmptyBlob);
}

#[test]
fn test_second_blob_appends_after_first() {
    let mut file = Vec::new();
    let mut writer = ColdFileWriter::open(0);

    let stub_a = append(&mut file, &mut writer, &two_leaf_subtree());
    let stub_b = append(&mut file, &mut writer, &two_leaf_subtree());

    assert_eq!(stub_a.blob_offset, 0);
    assert!(stub_b.blob_offset > stub_a.blob_offset);
    assert_eq!(
        writer.valid_length(),
        stub_b.blob_offset + 16 + u64::from(stub_b.root_in_blob + stub_b.root_size)
    );
    assert_eq!(read_and_verify(&file, &stub_a).unwrap(), expected_hash());
    assert_eq!(read_and_verify(&file, &stub_b).unwrap(), expected_hash());
}

#[test]
fn test_truncate_to_drops_orphaned_tail() {
    let mut file = Vec::new();
    let mut writer = ColdFileWriter::open(0);

    let stub = append(&mut file, &mut writer, &two_leaf_subtree());
    let checkpoint = writer.valid_length();
    append(&mut file, &mut writer, &two_leaf_subtree());
    assert!(writer.valid_length() > checkpoint);

    writer.truncate_to(checkpoint);
    file.truncate(checkpoint as usize);
    assert_eq!(writer.valid_length(), checkpoint);
    assert_eq!(file.len() as u64, checkpoint);
    assert_eq!(read_and_verify(&file, &stub).unwrap(), expected_hash());
}

#[test]
fn blob_bytes_are_exact() {
    let blob = ColdFileWriter::open(7).write_blob(&[(path(&[1]), leaf(&[0xa, 0xb], vec![9, 8]))]);
    let blob = blob.unwrap();
    let mut expected = vec![0, 1, 0, 0, 0, 0, 0, 0, 0, 0, 0, 0, 0, 0, 0, 11];
    expected.extend_from_slice(&[1, 2, 0xa, 0xb, 3, 0, 0, 0, 2, 9, 8]);
    assert_eq!(blob.bytes, expected);
    assert_eq!(blob.stub, ColdStub { blob_offset: 7, root_in_blob: 0, root_size: 11 });
}

#[test]
fn extension_above_hashed_branch_reads_back() {
    let hash = expected_hash();
    let mut nodes: Vec<(Nibbles, TrieNode)> = two_leaf_subtree()
        .into_iter()
        .map(|(p, node)| {
            let mut full = path(&[0x7, 0x8]);
            full.extend(&p);
            (full, node)
        })
        .collect();
    let child = RlpNode::word_rlp(&hash);
    nodes.push((
        Nibbles::default(),
        TrieNode::Extension(ExtensionNode { key: path(&[0x7, 0x8]), child }),
    ));
    let mut file = vec![0xee; 5];
    let mut writer = ColdFileWriter::open(5);
    let stub = append(&mut file, &mut writer, &nodes);
    file.extend_from_slice(&[1, 2, 3]);

    let node = alloy_trie::nodes::ExtensionNode::new(
        alloy_trie::Nibbles::from_nibbles([0x7, 0x8]),
        alloy_trie::nodes::RlpNode::word_rlp(&alloy_primitives::B256::from(hash)),
    );
    let rlp = alloy_trie::nodes::TrieNode::Extension(node).rlp(&mut Vec::new());
    assert_eq!(read_and_verify(&file, &stub).unwrap(), rlp.as_hash().unwrap().0);
}

#[test]
fn write_errors() {
    let writer = ColdFileWriter::open(0);
    let nodes = two_leaf_subtree();
    assert_eq!(writer.write_blob(&nodes[2..]).unwrap_err(), ColdError::ChildNotPlaced);
    assert_eq!(
        writer.write_blob(&[(Nibbles::new(), TrieNode::EmptyRoot)]).unwrap_err(),
        ColdError::UnexpectedEmptyRoot
    );
    let short = BranchNode { stack: vec![], state_mask: 1 };
    assert_eq!(
        writer.write_blob(&[(Nibbles::new(), TrieNode::Branch(short))]).unwrap_err(),
        ColdError::BranchStackTooShort
    );
    let deep = BranchNode { stack: vec![leaf_reference(&[1], vec![1])], state_mask: 1 };
    assert_eq!(
        writer.write_blob(&[(path(&[0; 64]), TrieNode::Branch(deep))]).unwrap_err(),
        ColdError::PathTooLong
    );
    let mut placed = NibbleMap::new();
    placed.insert(&[3], (40, 2));
    let ext = ExtensionNode { key: path(&[3]), child: leaf_reference(&[1], vec![1]) };
    let cold = to_cold_node(&Nibbles::new(), &TrieNode::Extension(ext), &placed).unwrap();
    assert_eq!(
        cold,
        ColdNode::Short { key: path(&[3]), child: ChildSlot::Embedded { offset: 40, size: 2 } }
    );
}

#[test]
fn header_errors_and_round_trip() {
    let header = BlobHeader { root_offset: 0x01020304, root_size: 0xa0b0c0d0 };
    let mut bytes = Vec::new();
    header.encode(&mut bytes);
    assert_eq!(bytes, vec![0, 1, 0, 0, 0, 0, 0, 0, 1, 2, 3, 4, 0xa0, 0xb0, 0xc0, 0xd0]);
    assert_eq!(BlobHeader::decode(&bytes), Ok(header));
    assert_eq!(BlobHeader::decode(&bytes[..15]), Err(ColdError::HeaderTruncated));
    bytes[1] = 2;
    assert_eq!(BlobHeader::decode(&bytes), Err(ColdError::UnsupportedVersion(2)));
}

#[test]
fn slot_errors_and_round_trip() {
    let slots = vec![
        ChildSlot::Empty,
        ChildSlot::Hashed { hash: [7; 32], offset: 1, size: 2 },
        ChildSlot::Embedded { offset: 3, size: 4 },
        ChildSlot::InlineValue(vec![1, 2, 3]),
    ];
    for slot in slots {
        let mut bytes = Vec::new();
        slot.encode(&mut bytes);
        let n = bytes.len();
        bytes.push(0xff);
        assert_eq!(ChildSlot::decode(&bytes), Ok((slot, n)));
    }
    assert_eq!(ChildSlot::decode(&[]), Err(ColdError::SlotBufferEmpty));
    assert_eq!(ChildSlot::decode(&[1; 40]), Err(ColdError::HashedSlotTruncated));
    assert_eq!(ChildSlot::decode(&[2; 8]), Err(ColdError::EmbeddedSlotTruncated));
    assert_eq!(ChildSlot::decode(&[3, 0, 0, 0]), Err(ColdError::InlineLengthTruncated));
    assert_eq!(ChildSlot::decode(&[3, 0, 0, 0, 2, 9]), Err(ColdError::InlineValueTruncated));
    assert_eq!(ChildSlot::decode(&[4]), Err(ColdError::UnknownSlotKind(4)));
}

#[test]
fn node_errors_and_round_trip() {
    let node = ColdNode::Short { key: path(&[1, 15]), child: ChildSlot::InlineValue(vec![5]) };
    let mut bytes = Vec::new();
    node.encode(&mut bytes);
    assert_eq!(bytes, vec![1, 2, 1, 15, 3, 0, 0, 0, 1, 5]);
    assert_eq!(ColdNode::decode(&bytes), Ok((node, 10)));
    assert_eq!(ColdNode::decode(&[]), Err(ColdError::NodeBufferEmpty));
    assert_eq!(ColdNode::decode(&[1]), Err(ColdError::KeyLengthTruncated));
    assert_eq!(ColdNode::decode(&[1, 2, 0]), Err(ColdError::KeyTruncated));
    assert_eq!(ColdNode::decode(&[9]), Err(ColdError::UnknownNodeKind(9)));
    let mut long = vec![1, 65];
    long.extend_from_slice(&[0; 70]);
    assert_eq!(ColdNode::decode(&long), Err(ColdError::KeyTooLong(65)));
    // A key's bytes count by their low halves.
    let (high, size) = ColdNode::decode(&[1, 1, 0xf3, 0]).unwrap();
    assert_eq!(high, ColdNode::Short { key: path(&[3]), child: ChildSlot::Empty });
    assert_eq!(size, 4);
    // A full node has seventeen slots.
    assert_eq!(ColdNode::decode(&[0; 17]), Err(ColdError::SlotBufferEmpty));
    let (full, size) = ColdNode::decode(&[0; 18]).unwrap();
    assert_eq!(size, 18);
    assert!(matches!(full, ColdNode::Full(slots) if slots.len() == 17));
}

#[test]
fn body_errors() {
    let resolved: HashMap<u32, RlpNode> = HashMap::new();
    let bare = ColdNode::Short { key: path(&[1]), child: ChildSlot::Empty };
    assert_eq!(cold_node_to_rlp(&bare, &resolved), Err(ColdError::SlotWithoutNode));
    let lost =
        ColdNode::Short { key: path(&[1]), child: ChildSlot::Embedded { offset: 6, size: 1 } };
    assert_eq!(cold_node_to_rlp(&lost, &resolved), Err(ColdError::EmbeddedChildMissing(6)));

    let leaf_body = [1u8, 1, 0xa, 3, 0, 0, 0, 1, 7];
    let whole = BlobHeader { root_offset: 0, root_size: 9 };
    assert_eq!(recompute_root_hash(&leaf_body, &whole), Err(ColdError::RootNotHashed));
    let short = BlobHeader { root_offset: 0, root_size: 10 };
    assert_eq!(recompute_root_hash(&leaf_body, &short), Err(ColdError::BodyTooShort));
    let inside = BlobHeader { root_offset: 0, root_size: 5 };
    assert_eq!(recompute_root_hash(&leaf_body, &inside), Err(ColdError::RootMisaligned));
    let none = BlobHeader { root_offset: 0, root_size: 0 };
    assert_eq!(recompute_root_hash(&leaf_body, &none), Err(ColdError::BodyEmpty));

    let stub = ColdStub { blob_offset: 3, root_in_blob: 0, root_size: 0 };
    assert_eq!(read_and_verify(&[0, 0], &stub), Err(ColdError::FileTruncated));
    assert_eq!(verify_blob(&[0; 15]), Err(ColdError::FileTruncated));
    assert_eq!(verify_blob(&[0; 16]), Err(ColdError::UnsupportedVersion(0)));
    let mut cut = Vec::new();
    whole.encode(&mut cut);
    cut.extend_from_slice(&leaf_body[..8]);
    assert_eq!(verify_blob(&cut), Err(ColdError::FileTruncated));
}

#[test]
fn test_cold_stub_compact_round_trip() {
    let stub = ColdStub {
        blob_offset: 0x1122_3344_5566_7788,
        root_in_blob: 0xaabbccdd,
        root_size: 0x1234,
    };
    let mut buf = Vec::new();
    let written = stub.to_compact(&mut buf);
    assert_eq!(written, 16);
    assert_eq!(buf.len(), 16);
    let (decoded, rest) = ColdStub::from_compact(&buf, 16);
    assert_eq!(decoded, stub);
    assert!(rest.is_empty());
    assert_eq!(
        buf,
        vec![
            0x11, 0x22, 0x33, 0x44, 0x55, 0x66, 0x77, 0x88, 0xaa, 0xbb, 0xcc, 0xdd, 0, 0, 0x12,
            0x34
        ]
    );
}
