//! Writing a subtree's nodes as one blob of the cold file, and reading a blob back to the hash of
//! its root.
use std::collections::HashMap;

use vstd::prelude::*;

use crate::be_bytes::{bytes_from, low32, low_u32, push_bytes};
use crate::cold_format::{
    header_bytes, header_of_bytes, node_bytes, node_of_bytes, slots_view, BlobHeader, ChildSlot,
    ColdError, ColdNode, ColdView, SlotView, HEADER_LEN,
};
use crate::cold_stub::ColdStub;
use crate::nibble_map::NibbleMap;
use crate::nibbles::{Nibbles, MAX_NIBBLES};
use crate::outside::{node_reference, trie_node_rlp};
use crate::primitives::B256;
use crate::trie_node::{
    bits_below, has_bit, hash_in, is_bit_set, lemma_with_bit, lemma_zero_mask, stack_view, with_bit,
    word_rlp, BranchNode, ExtensionNode, LeafNode, NodeView, RlpNode, TrieNode,
};

verus! {

broadcast use vstd::std_specs::hash::group_hash_axioms;

/// Where the nodes of a body stand: offset and size by path.
pub type Places = Map<Seq<u8>, (u32, u32)>;

/// The slot for the child at `path` that its parent refers to by `rlp`.
pub open spec fn slot_for(rlp: Seq<u8>, path: Seq<u8>, placed: Places) -> Result<
    SlotView,
    ColdError,
> {
    if path.len() > MAX_NIBBLES {
        Err(ColdError::PathTooLong)
    } else if !placed.contains_key(path) {
        Err(ColdError::ChildNotPlaced)
    } else {
        let (offset, size) = placed[path];
        match hash_in(rlp) {
            Some(hash) => Ok(SlotView::Hashed { hash, offset, size }),
            None => Ok(SlotView::Embedded { offset, size }),
        }
    }
}

/// The slots of a branch at `path` for its first `n` nibbles.
pub open spec fn branch_slots(
    stack: Seq<Seq<u8>>,
    state_mask: u16,
    path: Seq<u8>,
    placed: Places,
    n: int,
) -> Result<Seq<SlotView>, ColdError>
    decreases n,
{
    if n <= 0 {
        Ok(Seq::empty())
    } else {
        match branch_slots(stack, state_mask, path, placed, n - 1) {
            Err(e) => Err(e),
            Ok(slots) => if !has_bit(state_mask, n - 1) {
                Ok(slots.push(SlotView::Empty))
            } else if bits_below(state_mask, n - 1) >= stack.len() {
                Err(ColdError::BranchStackTooShort)
            } else {
                match slot_for(
                    stack[bits_below(state_mask, n - 1) as int],
                    path.push((n - 1) as u8),
                    placed,
                ) {
                    Err(e) => Err(e),
                    Ok(slot) => Ok(slots.push(slot)),
                }
            },
        }
    }
}

/// The node at `path` as it is written in a body where its children stand at `placed`.
pub open spec fn cold_form(path: Seq<u8>, node: NodeView, placed: Places) -> Result<
    ColdView,
    ColdError,
> {
    match node {
        NodeView::Branch { stack, state_mask } => match branch_slots(
            stack,
            state_mask,
            path,
            placed,
            16,
        ) {
            Err(e) => Err(e),
            Ok(slots) => Ok(ColdView::Full(slots.push(SlotView::Empty))),
        },
        NodeView::Extension { key, child } => match slot_for(child, path + key, placed) {
            Err(e) => Err(e),
            Ok(slot) => Ok(ColdView::Short { key, child: slot }),
        },
        NodeView::Leaf { key, value } => Ok(
            ColdView::Short { key, child: SlotView::InlineValue(value) },
        ),
        NodeView::EmptyRoot => Err(ColdError::UnexpectedEmptyRoot),
    }
}

/// The body that holds `nodes` one after another, and where each path's node stands in it.
pub open spec fn laid_out(nodes: Seq<(Seq<u8>, NodeView)>) -> Result<(Seq<u8>, Places), ColdError>
    decreases nodes.len(),
{
    if nodes.len() == 0 {
        Ok((Seq::empty(), Map::empty()))
    } else {
        match laid_out(nodes.drop_last()) {
            Err(e) => Err(e),
            Ok((body, placed)) => match cold_form(nodes.last().0, nodes.last().1, placed) {
                Err(e) => Err(e),
                Ok(cold) => Ok(
                    (
                        body + node_bytes(cold),
                        placed.insert(
                            nodes.last().0,
                            (low32(body.len()), low32(node_bytes(cold).len())),
                        ),
                    ),
                ),
            },
        }
    }
}

/// The bytes of a blob that holds `nodes`, the root last, and the stub that points at it when it
/// stands at `blob_offset` in the file.
pub open spec fn blob_of(nodes: Seq<(Seq<u8>, NodeView)>, blob_offset: u64) -> Result<
    (Seq<u8>, ColdStub),
    ColdError,
> {
    if nodes.len() == 0 {
        Err(ColdError::EmptyBlob)
    } else {
        match laid_out(nodes) {
            Err(e) => Err(e),
            Ok((body, placed)) => {
                let (root_offset, root_size) = placed[nodes.last().0];
                Ok(
                    (
                        header_bytes(BlobHeader { root_offset, root_size }) + body,
                        ColdStub { blob_offset, root_in_blob: root_offset, root_size },
                    ),
                )
            },
        }
    }
}

/// What each of some nodes with their paths is.
pub open spec fn nodes_view(nodes: Seq<(Nibbles, TrieNode)>) -> Seq<(Seq<u8>, NodeView)> {
    Seq::new(nodes.len(), |i: int| (nodes[i].0@, nodes[i].1@))
}

/// The slot for the child at `child_path` that its parent refers to by `rlp`.
pub fn child_slot_for(
    rlp: &RlpNode,
    child_path: &Nibbles,
    placed: &NibbleMap<(u32, u32)>,
) -> (r: Result<ChildSlot, ColdError>)
    ensures
        match r {
            Ok(slot) => slot_for(rlp@, child_path@, placed@) == Ok::<_, ColdError>(slot@),
            Err(e) => slot_for(rlp@, child_path@, placed@) == Err::<SlotView, _>(e),
        },
{
    let key: &[u8] = child_path.as_slice();
    match placed.get(key) {
        None => Err(ColdError::ChildNotPlaced),
        Some(place) => match rlp.as_hash() {
            Some(hash) => Ok(ChildSlot::Hashed { hash, offset: place.0, size: place.1 }),
            None => Ok(ChildSlot::Embedded { offset: place.0, size: place.1 }),
        },
    }
}

/// Once a branch's slot cannot be made, asking for more slots does not help.
proof fn lemma_branch_error_stays(
    stack: Seq<Seq<u8>>,
    state_mask: u16,
    path: Seq<u8>,
    placed: Places,
    m: int,
    n: int,
    e: ColdError,
)
    requires
        0 < m <= n,
        branch_slots(stack, state_mask, path, placed, m) == Err::<Seq<SlotView>, _>(e),
    ensures
        branch_slots(stack, state_mask, path, placed, n) == Err::<Seq<SlotView>, _>(e),
    decreases n,
{
    if m < n {
        lemma_branch_error_stays(stack, state_mask, path, placed, m, n - 1, e);
    }
}

/// The slots of the branch at `path`: one per nibble, and the empty one for a value.
fn branch_to_slots(
    path: &Nibbles,
    branch: &BranchNode,
    placed: &NibbleMap<(u32, u32)>,
) -> (r: Result<Vec<ChildSlot>, ColdError>)
    ensures
        ({
            let slots = branch_slots(
                stack_view(branch.stack@),
                branch.state_mask,
                path@,
                placed@,
                16,
            );
            match r {
                Ok(full) => slots matches Ok(s) && slots_view(full@) == s.push(SlotView::Empty),
                Err(e) => slots == Err::<Seq<SlotView>, _>(e),
            }
        }),
{
    let ghost stack = stack_view(branch.stack@);
    let ghost mask = branch.state_mask;
    let mut slots: Vec<ChildSlot> = Vec::new();
    let mut next: usize = 0;
    let mut nibble: u8 = 0;
    assert(slots_view(slots@) =~= Seq::<SlotView>::empty());
    while nibble < 16
        invariant
            nibble <= 16,
            next == bits_below(mask, nibble as int),
            next <= nibble,
            stack == stack_view(branch.stack@),
            mask == branch.state_mask,
            branch_slots(stack, mask, path@, placed@, nibble as int) == Ok::<_, ColdError>(
                slots_view(slots@),
            ),
        decreases 16 - nibble,
    {
        let ghost before = slots@;
        if is_bit_set(branch.state_mask, nibble) {
            if next >= branch.stack.len() {
                proof {
                    lemma_branch_error_stays(
                        stack,
                        mask,
                        path@,
                        placed@,
                        nibble + 1,
                        16,
                        ColdError::BranchStackTooShort,
                    );
                }
                return Err(ColdError::BranchStackTooShort);
            }
            if path.len() >= MAX_NIBBLES {
                proof {
                    lemma_branch_error_stays(
                        stack,
                        mask,
                        path@,
                        placed@,
                        nibble + 1,
                        16,
                        ColdError::PathTooLong,
                    );
                }
                return Err(ColdError::PathTooLong);
            }
            let mut child_path: Nibbles = path.clone();
            child_path.push(nibble);
            match child_slot_for(&branch.stack[next], &child_path, placed) {
                Err(e) => {
                    proof {
                        lemma_branch_error_stays(stack, mask, path@, placed@, nibble + 1, 16, e);
                    }
                    return Err(e);
                },
                Ok(slot) => {
                    slots.push(slot);
                    assert(slots_view(slots@) =~= slots_view(before).push(slot@));
                },
            }
            next = next + 1;
        } else {
            slots.push(ChildSlot::Empty);
            assert(slots_view(slots@) =~= slots_view(before).push(SlotView::Empty));
        }
        nibble = nibble + 1;
    }
    let ghost before = slots@;
    slots.push(ChildSlot::Empty);
    assert(slots_view(slots@) =~= slots_view(before).push(SlotView::Empty));
    Ok(slots)
}

/// The node at `path` as it is written in a body where its children stand at `placed`.
pub fn to_cold_node(
    path: &Nibbles,
    node: &TrieNode,
    placed: &NibbleMap<(u32, u32)>,
) -> (r: Result<ColdNode, ColdError>)
    ensures
        match r {
            Ok(cold) => cold_form(path@, node@, placed@) == Ok::<_, ColdError>(cold@),
            Err(e) => cold_form(path@, node@, placed@) == Err::<ColdView, _>(e),
        },
{
    match node {
        TrieNode::Branch(branch) => match branch_to_slots(path, branch, placed) {
            Ok(slots) => Ok(ColdNode::Full(slots)),
            Err(e) => Err(e),
        },
        TrieNode::Extension(ext) => {
            if path.len() + ext.key.len() > MAX_NIBBLES {
                return Err(ColdError::PathTooLong);
            }
            let mut child_path: Nibbles = path.clone();
            child_path.extend(&ext.key);
            match child_slot_for(&ext.child, &child_path, placed) {
                Ok(child) => Ok(ColdNode::Short { key: ext.key.clone(), child }),
                Err(e) => Err(e),
            }
        },
        TrieNode::Leaf(leaf) => {
            let value: Vec<u8> = vstd::slice::slice_to_vec(leaf.value.as_slice());
            Ok(ColdNode::Short { key: leaf.key.clone(), child: ChildSlot::InlineValue(value) })
        },
        TrieNode::EmptyRoot => Err(ColdError::UnexpectedEmptyRoot),
    }
}

/// Once a node cannot be placed, the nodes after it do not help.
proof fn lemma_layout_error_stays(nodes: Seq<(Seq<u8>, NodeView)>, m: int, e: ColdError)
    requires
        0 <= m <= nodes.len(),
        laid_out(nodes.take(m)) == Err::<(Seq<u8>, Places), _>(e),
    ensures
        laid_out(nodes) == Err::<(Seq<u8>, Places), _>(e),
    decreases nodes.len(),
{
    if m == nodes.len() {
        assert(nodes.take(m) =~= nodes);
    } else {
        assert(nodes.drop_last().take(m) =~= nodes.take(m));
        lemma_layout_error_stays(nodes.drop_last(), m, e);
    }
}

/// The body of a blob that holds `nodes`, and the place of the last of them.
fn lay_out(nodes: &[(Nibbles, TrieNode)]) -> (r: Result<(Vec<u8>, (u32, u32)), ColdError>)
    requires
        nodes@.len() > 0,
    ensures
        match r {
            Ok((body, place)) => laid_out(nodes_view(nodes@)) matches Ok((bytes, placed)) && body@
                == bytes && place == placed[nodes@.last().0@],
            Err(e) => laid_out(nodes_view(nodes@)) == Err::<(Seq<u8>, Places), _>(e),
        },
{
    let ghost all = nodes_view(nodes@);
    let mut body: Vec<u8> = Vec::new();
    let mut placed: NibbleMap<(u32, u32)> = NibbleMap::new();
    let mut place: (u32, u32) = (0, 0);
    let mut i: usize = 0;
    assert(all.take(0) =~= Seq::empty());
    while i < nodes.len()
        invariant
            i <= nodes@.len(),
            all == nodes_view(nodes@),
            laid_out(all.take(i as int)) == Ok::<_, ColdError>((body@, placed@)),
            i > 0 ==> place == placed@[nodes@[i - 1].0@],
        decreases nodes.len() - i,
    {
        let path: &Nibbles = &nodes[i].0;
        let node: &TrieNode = &nodes[i].1;
        proof {
            assert(all.take(i + 1).drop_last() =~= all.take(i as int));
            assert(all.take(i + 1).last() == (path@, node@));
        }
        match to_cold_node(path, node, &placed) {
            Err(e) => {
                proof {
                    lemma_layout_error_stays(all, i + 1, e);
                }
                return Err(e);
            },
            Ok(cold) => {
                let ghost before = body@;
                let start: usize = body.len();
                cold.encode(&mut body);
                assert(body@.len() - start == node_bytes(cold@).len());
                place = (low_u32(start), low_u32(body.len() - start));
                placed.insert(path.as_slice(), place);
            },
        }
        i = i + 1;
    }
    assert(all.take(i as int) =~= all);
    Ok((body, place))
}

/// A blob that is ready to be appended to the cold file.
#[derive(Debug, PartialEq, Eq)]
pub struct Blob {
    /// The bytes to append.
    pub bytes: Vec<u8>,
    /// Points at the blob once they are appended.
    pub stub: ColdStub,
}

/// Keeps the length of the cold file and makes the blobs to append to it.
#[derive(Debug)]
pub struct ColdFileWriter {
    next_offset: u64,
}

impl View for ColdFileWriter {
    type V = u64;

    /// The length of the file.
    closed spec fn view(&self) -> u64 {
        self.next_offset
    }
}

impl ColdFileWriter {
    /// A writer for a file of `len` bytes.
    pub fn open(len: u64) -> (writer: Self)
        ensures
            writer@ == len,
    {
        ColdFileWriter { next_offset: len }
    }

    /// The length of the file: every byte before it belongs to a complete blob, or to a tail that
    /// can be cut off.
    pub fn valid_length(&self) -> (len: u64)
        ensures
            len == self@,
    {
        self.next_offset
    }

    /// Takes note that the file was cut to `len` bytes.
    pub fn truncate_to(&mut self, len: u64)
        ensures
            final(self)@ == len,
    {
        self.next_offset = len;
    }

    /// Makes one blob of `nodes`, which come children first and end in the subtree's root.
    pub fn write_blob(&self, nodes: &[(Nibbles, TrieNode)]) -> (r: Result<Blob, ColdError>)
        ensures
            match r {
                Ok(blob) => blob_of(nodes_view(nodes@), self@) == Ok::<_, ColdError>(
                    (blob.bytes@, blob.stub),
                ),
                Err(e) => blob_of(nodes_view(nodes@), self@) == Err::<(Seq<u8>, ColdStub), _>(e),
            },
    {
        if nodes.len() == 0 {
            return Err(ColdError::EmptyBlob);
        }
        match lay_out(nodes) {
            Err(e) => Err(e),
            Ok((body, place)) => {
                let mut bytes: Vec<u8> = Vec::new();
                BlobHeader { root_offset: place.0, root_size: place.1 }.encode(&mut bytes);
                push_bytes(&mut bytes, body.as_slice());
                let ghost header = BlobHeader { root_offset: place.0, root_size: place.1 };
                assert(bytes@ =~= header_bytes(header) + body@);
                assert(nodes_view(nodes@).last().0 == nodes@.last().0@);
                Ok(
                    Blob {
                        bytes,
                        stub: ColdStub {
                            blob_offset: self.next_offset,
                            root_in_blob: place.0,
                            root_size: place.1,
                        },
                    },
                )
            },
        }
    }

    /// Takes note that `blob` was appended to the file and is durable.
    pub fn blob_written(&mut self, blob: &Blob)
        requires
            old(self)@ + blob.bytes@.len() <= u64::MAX,
        ensures
            final(self)@ == old(self)@ + blob.bytes@.len(),
    {
        self.next_offset = self.next_offset + blob.bytes.len() as u64;
    }
}

/// The reference to the child in `slot`, where `resolved` holds those of the nodes read so far by
/// offset.
pub open spec fn slot_reference(slot: SlotView, resolved: Map<u32, Seq<u8>>) -> Result<
    Seq<u8>,
    ColdError,
> {
    match slot {
        SlotView::Empty | SlotView::InlineValue(_) => Err(ColdError::SlotWithoutNode),
        SlotView::Hashed { hash, .. } => Ok(word_rlp(hash)),
        SlotView::Embedded { offset, .. } => if resolved.contains_key(offset) {
            Ok(resolved[offset])
        } else {
            Err(ColdError::EmbeddedChildMissing(offset))
        },
    }
}

/// The references and the mask of a branch with the first `n` of these slots.
pub open spec fn branch_of_slots(
    slots: Seq<SlotView>,
    resolved: Map<u32, Seq<u8>>,
    n: int,
) -> Result<(Seq<Seq<u8>>, u16), ColdError>
    decreases n,
{
    if n <= 0 {
        Ok((Seq::empty(), 0))
    } else {
        match branch_of_slots(slots, resolved, n - 1) {
            Err(e) => Err(e),
            Ok((stack, mask)) => if slots[n - 1] is Empty {
                Ok((stack, mask))
            } else {
                match slot_reference(slots[n - 1], resolved) {
                    Err(e) => Err(e),
                    Ok(rlp) => Ok((stack.push(rlp), mask | (1u16 << ((n - 1) as u16)))),
                }
            },
        }
    }
}

/// The trie node that a node of a body stands for.
pub open spec fn trie_form(node: ColdView, resolved: Map<u32, Seq<u8>>) -> Result<
    NodeView,
    ColdError,
> {
    match node {
        ColdView::Full(slots) => match branch_of_slots(
            slots,
            resolved,
            if slots.len() < 16 {
                slots.len() as int
            } else {
                16
            },
        ) {
            Err(e) => Err(e),
            Ok((stack, state_mask)) => Ok(NodeView::Branch { stack, state_mask }),
        },
        ColdView::Short { key, child: SlotView::InlineValue(value) } => Ok(
            NodeView::Leaf { key, value },
        ),
        ColdView::Short { key, child } => match slot_reference(child, resolved) {
            Err(e) => Err(e),
            Ok(rlp) => Ok(NodeView::Extension { key, child: rlp }),
        },
    }
}

/// The reference to a node of a body.
pub open spec fn cold_reference(node: ColdView, resolved: Map<u32, Seq<u8>>) -> Result<
    Seq<u8>,
    ColdError,
> {
    match trie_form(node, resolved) {
        Err(e) => Err(e),
        Ok(trie_node) => Ok(node_reference(trie_node)),
    }
}

/// How far a body has been read: the offset reached, the references of the nodes before it by
/// their offsets, and the last node's offset and reference.
pub struct Replay {
    pub offset: nat,
    pub resolved: Map<u32, Seq<u8>>,
    pub last: Option<(nat, Seq<u8>)>,
}

/// A body of which nothing has been read.
pub open spec fn replay_start() -> Replay {
    Replay { offset: 0, resolved: Map::empty(), last: None }
}

/// Reading on from `state` until `limit` is reached.
pub open spec fn replayed(body: Seq<u8>, limit: nat, state: Replay) -> Result<Replay, ColdError>
    decreases
            if state.offset < limit {
                limit - state.offset
            } else {
                0
            },
{
    if state.offset >= limit {
        Ok(state)
    } else {
        match node_of_bytes(body.skip(state.offset as int)) {
            Err(e) => Err(e),
            Ok((node, size)) => match cold_reference(node, state.resolved) {
                Err(e) => Err(e),
                Ok(rlp) => replayed(
                    body,
                    limit,
                    Replay {
                        offset: state.offset + size,
                        resolved: state.resolved.insert(low32(state.offset), rlp),
                        last: Some((state.offset, rlp)),
                    },
                ),
            },
        }
    }
}

/// The hash of the root node of a body with this header.
pub open spec fn root_of_body(body: Seq<u8>, header: BlobHeader) -> Result<Seq<u8>, ColdError> {
    let limit = (header.root_offset + header.root_size) as nat;
    if limit > body.len() {
        Err(ColdError::BodyTooShort)
    } else {
        match replayed(body, limit, replay_start()) {
            Err(e) => Err(e),
            Ok(end) => match end.last {
                None => Err(ColdError::BodyEmpty),
                Some((offset, rlp)) => if end.offset != limit || offset != header.root_offset {
                    Err(ColdError::RootMisaligned)
                } else {
                    match hash_in(rlp) {
                        None => Err(ColdError::RootNotHashed),
                        Some(hash) => Ok(hash),
                    }
                },
            },
        }
    }
}

/// The hash of the root node of the blob that starts `bytes`.
pub open spec fn root_of_blob(bytes: Seq<u8>) -> Result<Seq<u8>, ColdError> {
    if bytes.len() < HEADER_LEN {
        Err(ColdError::FileTruncated)
    } else {
        match header_of_bytes(bytes) {
            Err(e) => Err(e),
            Ok(header) => {
                let end = HEADER_LEN + header.root_offset + header.root_size;
                if bytes.len() < end {
                    Err(ColdError::FileTruncated)
                } else {
                    root_of_body(bytes.subrange(HEADER_LEN as int, end), header)
                }
            },
        }
    }
}

/// The hash of the root node of the blob that a stub points at.
pub open spec fn root_in_file(file: Seq<u8>, stub: ColdStub) -> Result<Seq<u8>, ColdError> {
    if stub.blob_offset > file.len() {
        Err(ColdError::FileTruncated)
    } else {
        root_of_blob(file.skip(stub.blob_offset as int))
    }
}

/// What the references read so far are, as mathematical values.
pub open spec fn resolved_view(resolved: Map<u32, RlpNode>) -> Map<u32, Seq<u8>> {
    resolved.map_values(|rlp: RlpNode| rlp@)
}

/// The reference to the child in `slot`.
fn resolve_slot(slot: &ChildSlot, resolved: &HashMap<u32, RlpNode>) -> (r: Result<
    RlpNode,
    ColdError,
>)
    ensures
        match r {
            Ok(rlp) => slot_reference(slot@, resolved_view(resolved@)) == Ok::<_, ColdError>(rlp@),
            Err(e) => slot_reference(slot@, resolved_view(resolved@)) == Err::<Seq<u8>, _>(e),
        },
{
    match slot {
        ChildSlot::Empty => Err(ColdError::SlotWithoutNode),
        ChildSlot::InlineValue(_) => Err(ColdError::SlotWithoutNode),
        ChildSlot::Hashed { hash, .. } => Ok(RlpNode::word_rlp(hash)),
        ChildSlot::Embedded { offset, .. } => match resolved.get(offset) {
            Some(rlp) => Ok(rlp.clone()),
            None => Err(ColdError::EmbeddedChildMissing(*offset)),
        },
    }
}

/// Masks that agree on their low bits have as many of them set.
pub proof fn lemma_same_low_bits(a: u16, b: u16, n: int)
    requires
        0 <= n,
        forall|i: int| 0 <= i < n ==> #[trigger] has_bit(a, i) == has_bit(b, i),
    ensures
        bits_below(a, n) == bits_below(b, n),
    decreases n,
{
    if n > 0 {
        lemma_same_low_bits(a, b, n - 1);
        assert(has_bit(a, n - 1) == has_bit(b, n - 1));
    }
}

/// A branch made of slots has a reference for each bit of its mask, and its mask names the slots
/// that are not empty.
pub proof fn lemma_branch_of_slots(slots: Seq<SlotView>, resolved: Map<u32, Seq<u8>>, n: int)
    requires
        0 <= n <= 16,
    ensures
        branch_of_slots(slots, resolved, n) matches Ok((stack, mask)) ==> {
            &&& bits_below(mask, n) == stack.len()
            &&& bits_below(mask, 16) == stack.len()
            &&& forall|i: int|
                0 <= i < 16 ==> #[trigger] has_bit(mask, i) == (i < n && !(slots[i] is Empty))
        },
    decreases n,
{
    lemma_zero_mask();
    if n == 0 {
        lemma_no_bits(0, 0, 16);
    } else {
        lemma_branch_of_slots(slots, resolved, n - 1);
        if let Ok((stack, mask)) = branch_of_slots(slots, resolved, n - 1) {
            lemma_with_bit(mask, (n - 1) as u16);
            let set = mask | (1u16 << ((n - 1) as u16));
            lemma_same_low_bits(mask, set, n - 1);
            if let Ok((_, full)) = branch_of_slots(slots, resolved, n) {
                assert(has_bit(full, n - 1) == !(slots[n - 1] is Empty));
                lemma_no_bits(full, n, 16);
            }
        }
    }
}

/// Bits that are not set do not count.
proof fn lemma_no_bits(mask: u16, m: int, n: int)
    requires
        0 <= m <= n,
        forall|i: int| m <= i < n ==> !#[trigger] has_bit(mask, i),
    ensures
        bits_below(mask, n) == bits_below(mask, m),
    decreases n,
{
    if m < n {
        lemma_no_bits(mask, m, n - 1);
        assert(!has_bit(mask, n - 1));
    }
}

/// Once a slot cannot be resolved, the slots after it do not help.
proof fn lemma_unresolved_stays(
    slots: Seq<SlotView>,
    resolved: Map<u32, Seq<u8>>,
    m: int,
    n: int,
    e: ColdError,
)
    requires
        0 < m <= n,
        branch_of_slots(slots, resolved, m) == Err::<(Seq<Seq<u8>>, u16), _>(e),
    ensures
        branch_of_slots(slots, resolved, n) == Err::<(Seq<Seq<u8>>, u16), _>(e),
    decreases n,
{
    if m < n {
        lemma_unresolved_stays(slots, resolved, m, n - 1, e);
    }
}

/// The branch that has these slots.
fn slots_to_branch(slots: &Vec<ChildSlot>, resolved: &HashMap<u32, RlpNode>) -> (r: Result<
    BranchNode,
    ColdError,
>)
    ensures
        ({
            let n = if slots@.len() < 16 {
                slots@.len() as int
            } else {
                16
            };
            let branch = branch_of_slots(slots_view(slots@), resolved_view(resolved@), n);
            match r {
                Ok(b) => branch == Ok::<_, ColdError>((stack_view(b.stack@), b.state_mask)),
                Err(e) => branch == Err::<(Seq<Seq<u8>>, u16), _>(e),
            }
        }),
{
    let ghost all = slots_view(slots@);
    let ghost known = resolved_view(resolved@);
    let count: u8 = if slots.len() < 16 {
        slots.len() as u8
    } else {
        16
    };
    let mut stack: Vec<RlpNode> = Vec::new();
    let mut state_mask: u16 = 0;
    let mut nibble: u8 = 0;
    assert(stack_view(stack@) =~= Seq::<Seq<u8>>::empty());
    while nibble < count
        invariant
            nibble <= count,
            count == if slots@.len() < 16 {
                slots@.len()
            } else {
                16
            },
            all == slots_view(slots@),
            known == resolved_view(resolved@),
            branch_of_slots(all, known, nibble as int) == Ok::<_, ColdError>(
                (stack_view(stack@), state_mask),
            ),
        decreases count - nibble,
    {
        let slot: &ChildSlot = &slots[nibble as usize];
        assert(all[nibble as int] == slot@);
        if !matches!(slot, ChildSlot::Empty) {
            let ghost before = stack@;
            match resolve_slot(slot, resolved) {
                Err(e) => {
                    proof {
                        lemma_unresolved_stays(all, known, nibble + 1, count as int, e);
                    }
                    return Err(e);
                },
                Ok(rlp) => {
                    state_mask = with_bit(state_mask, nibble);
                    stack.push(rlp);
                    assert(stack_view(stack@) =~= stack_view(before).push(rlp@));
                },
            }
        }
        nibble = nibble + 1;
    }
    Ok(BranchNode { stack, state_mask })
}

/// The reference to a node of a body, where `resolved` holds those of the nodes before it.
pub fn cold_node_to_rlp(node: &ColdNode, resolved: &HashMap<u32, RlpNode>) -> (r: Result<
    RlpNode,
    ColdError,
>)
    ensures
        match r {
            Ok(rlp) => cold_reference(node@, resolved_view(resolved@)) == Ok::<_, ColdError>(rlp@),
            Err(e) => cold_reference(node@, resolved_view(resolved@)) == Err::<Seq<u8>, _>(e),
        },
{
    let trie_node: TrieNode = match node {
        ColdNode::Full(slots) => match slots_to_branch(slots, resolved) {
            Err(e) => return Err(e),
            Ok(branch) => {
                proof {
                    let n = if slots@.len() < 16 {
                        slots@.len() as int
                    } else {
                        16
                    };
                    lemma_branch_of_slots(slots_view(slots@), resolved_view(resolved@), n);
                }
                TrieNode::Branch(branch)
            },
        },
        ColdNode::Short { key, child } => match child {
            ChildSlot::InlineValue(value) => {
                let value: Vec<u8> = vstd::slice::slice_to_vec(value.as_slice());
                TrieNode::Leaf(LeafNode { key: key.clone(), value })
            },
            _ => match resolve_slot(child, resolved) {
                Err(e) => return Err(e),
                Ok(rlp) => TrieNode::Extension(ExtensionNode { key: key.clone(), child: rlp }),
            },
        },
    };
    Ok(trie_node_rlp(&trie_node))
}

/// Reads every node of a body in order, up to the end of the root node, and returns the root's
/// hash, computed anew from the nodes.
pub fn recompute_root_hash(body: &[u8], header: &BlobHeader) -> (r: Result<B256, ColdError>)
    ensures
        match r {
            Ok(hash) => root_of_body(body@, *header) == Ok::<_, ColdError>(hash@),
            Err(e) => root_of_body(body@, *header) == Err::<Seq<u8>, _>(e),
        },
{
    if header.body_len() > body.len() as u64 {
        return Err(ColdError::BodyTooShort);
    }
    let limit: usize = header.root_offset as usize + header.root_size as usize;
    let mut resolved: HashMap<u32, RlpNode> = HashMap::new();
    let mut offset: usize = 0;
    let mut last: Option<(usize, RlpNode)> = None;
    assert(resolved_view(resolved@) =~= Map::empty());
    while offset < limit
        invariant
            limit == header.root_offset + header.root_size,
            limit <= body@.len(),
            offset <= body@.len(),
            replayed(body@, limit as nat, replay_start()) == replayed(
                body@,
                limit as nat,
                Replay {
                    offset: offset as nat,
                    resolved: resolved_view(resolved@),
                    last: match last {
                        None => None,
                        Some((at, rlp)) => Some((at as nat, rlp@)),
                    },
                },
            ),
        decreases
                if offset < limit {
                    limit - offset
                } else {
                    0
                },
    {
        let (node, consumed): (ColdNode, usize) = match ColdNode::decode(bytes_from(body, offset)) {
            Err(e) => return Err(e),
            Ok(parsed) => parsed,
        };
        let rlp: RlpNode = match cold_node_to_rlp(&node, &resolved) {
            Err(e) => return Err(e),
            Ok(rlp) => rlp,
        };
        let ghost before = resolved@;
        resolved.insert(low_u32(offset), rlp.clone());
        assert(resolved_view(resolved@) =~= resolved_view(before).insert(
            low32(offset as nat),
            rlp@,
        ));
        last = Some((offset, rlp));
        assert(body@.len() == body.len());
        offset = offset + consumed;
    }
    match last {
        None => Err(ColdError::BodyEmpty),
        Some((last_offset, rlp)) => {
            if offset != limit || last_offset != header.root_offset as usize {
                return Err(ColdError::RootMisaligned);
            }
            match rlp.as_hash() {
                None => Err(ColdError::RootNotHashed),
                Some(hash) => Ok(hash),
            }
        },
    }
}

/// Reads the blob that starts `bytes` and returns the hash of its root node.
pub fn verify_blob(bytes: &[u8]) -> (r: Result<B256, ColdError>)
    ensures
        match r {
            Ok(hash) => root_of_blob(bytes@) == Ok::<_, ColdError>(hash@),
            Err(e) => root_of_blob(bytes@) == Err::<Seq<u8>, _>(e),
        },
{
    if bytes.len() < HEADER_LEN {
        return Err(ColdError::FileTruncated);
    }
    match BlobHeader::decode(bytes) {
        Err(e) => Err(e),
        Ok(header) => {
            if ((bytes.len() - HEADER_LEN) as u64) < header.body_len() {
                return Err(ColdError::FileTruncated);
            }
            let end: usize = HEADER_LEN + (header.root_offset as usize + header.root_size as usize);
            let body: &[u8] = vstd::slice::slice_subrange(bytes, HEADER_LEN, end);
            recompute_root_hash(body, &header)
        },
    }
}

/// Reads the blob that `stub` points at in the contents of a cold file, and returns the hash of
/// its root node.
pub fn read_and_verify(file: &[u8], stub: &ColdStub) -> (r: Result<B256, ColdError>)
    ensures
        match r {
            Ok(hash) => root_in_file(file@, *stub) == Ok::<_, ColdError>(hash@),
            Err(e) => root_in_file(file@, *stub) == Err::<Seq<u8>, _>(e),
        },
{
    if stub.blob_offset > file.len() as u64 {
        return Err(ColdError::FileTruncated);
    }
    verify_blob(bytes_from(file, stub.blob_offset as usize))
}

} // verus!
