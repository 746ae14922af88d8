//! What reading a blob back tells: the hash is that of the node at the root's place, and of no other.
use vstd::prelude::*;

use crate::cold_file::{
    branch_of_slots, cold_reference, lemma_branch_of_slots, replay_start, replayed, root_in_file,
    root_of_body, slot_reference, trie_form, Replay,
};
use crate::cold_format::{header_of_bytes, node_of_bytes, BlobHeader, ColdError, ColdView, SlotView};
use crate::cold_stub::ColdStub;
use crate::layout_laws::lemma_node_rewrites;
use crate::outside::node_reference;
use crate::trie_node::{bits_below, has_bit, hash_in, NodeView};

verus! {

/// A hashed child is referred to by its hash, an embedded one by what was read at its offset, and
/// no other slot has a node.
pub proof fn lemma_slot_references(slot: SlotView, resolved: Map<u32, Seq<u8>>)
    ensures
        match slot {
            SlotView::Empty => slot_reference(slot, resolved) == Err::<Seq<u8>, _>(
                ColdError::SlotWithoutNode,
            ),
            SlotView::InlineValue(_) => slot_reference(slot, resolved) == Err::<Seq<u8>, _>(
                ColdError::SlotWithoutNode,
            ),
            SlotView::Hashed { hash, .. } => slot_reference(slot, resolved) == Ok::<_, ColdError>(
                seq![0xa0u8] + hash,
            ),
            SlotView::Embedded { offset, .. } => if resolved.contains_key(offset) {
                slot_reference(slot, resolved) == Ok::<_, ColdError>(resolved[offset])
            } else {
                slot_reference(slot, resolved) == Err::<Seq<u8>, _>(
                    ColdError::EmbeddedChildMissing(offset),
                )
            },
        },
{
}

/// A full node stands for the branch that has a child in each of its first sixteen slots that is
/// not empty, with the references of those slots in order. Where one of them has no reference there
/// is no branch, and the seventeenth does not matter.
pub proof fn lemma_full_node_is_branch(slots: Seq<SlotView>, resolved: Map<u32, Seq<u8>>)
    requires
        slots.len() == 17,
    ensures
        match trie_form(ColdView::Full(slots), resolved) {
            Ok(node) => node matches NodeView::Branch { stack, state_mask } && {
                &&& bits_below(state_mask, 16) == stack.len()
                &&& forall|n: int|
                    0 <= n < 16 ==> (#[trigger] has_bit(state_mask, n) <==> !(slots[n] is Empty))
                &&& forall|n: int|
                    0 <= n < 16 && #[trigger] has_bit(state_mask, n) ==> slot_reference(
                        slots[n],
                        resolved,
                    ) == Ok::<_, ColdError>(stack[bits_below(state_mask, n) as int])
            },
            Err(e) => exists|n: int|
                0 <= n < 16 && !((#[trigger] slots[n]) is Empty) && slot_reference(
                    slots[n],
                    resolved,
                ) == Err::<Seq<u8>, _>(e),
        },
{
    lemma_branch_of_slots(slots, resolved, 16);
    lemma_references_in_order(slots, resolved, 16);
    if let Ok((stack, mask)) = branch_of_slots(slots, resolved, 16) {
        assert forall|n: int| 0 <= n < 16 && #[trigger] has_bit(mask, n) implies slot_reference(
            slots[n],
            resolved,
        ) == Ok::<_, ColdError>(stack[bits_below(mask, n) as int]) by {
            lemma_count_is_place(slots, resolved, mask, n, 16);
        }
    }
}

/// How many of the first `n` slots are not empty.
spec fn taken(slots: Seq<SlotView>, n: int) -> nat
    decreases n,
{
    if n <= 0 {
        0
    } else {
        taken(slots, n - 1) + if slots[n - 1] is Empty {
            0nat
        } else {
            1
        }
    }
}

/// The references of a branch are those of its slots, in order.
proof fn lemma_references_in_order(slots: Seq<SlotView>, resolved: Map<u32, Seq<u8>>, n: int)
    requires
        0 <= n <= slots.len(),
    ensures
        match branch_of_slots(slots, resolved, n) {
            Ok((stack, _)) => stack.len() == taken(slots, n) && forall|i: int|
                0 <= i < n && !((#[trigger] slots[i]) is Empty) ==> taken(slots, i) < stack.len()
                    && slot_reference(slots[i], resolved) == Ok::<_, ColdError>(
                    stack[taken(slots, i) as int],
                ),
            Err(e) => exists|i: int|
                0 <= i < n && !((#[trigger] slots[i]) is Empty) && slot_reference(
                    slots[i],
                    resolved,
                ) == Err::<Seq<u8>, _>(e),
        },
    decreases n,
{
    if n > 0 {
        lemma_references_in_order(slots, resolved, n - 1);
        match branch_of_slots(slots, resolved, n) {
            Ok((stack, _)) => {
                let before = (branch_of_slots(slots, resolved, n - 1)->Ok_0).0;
                assert forall|i: int| 0 <= i < n && !((#[trigger] slots[i]) is Empty) implies taken(
                    slots,
                    i,
                ) < stack.len() && slot_reference(slots[i], resolved) == Ok::<_, ColdError>(
                    stack[taken(slots, i) as int],
                ) by {
                    if i < n - 1 {
                        assert(stack[taken(slots, i) as int] == before[taken(slots, i) as int]);
                    }
                }
            },
            Err(_) => {
                if branch_of_slots(slots, resolved, n - 1) is Ok {
                    assert(!(slots[n - 1] is Empty));
                }
            },
        }
    }
}

/// The slots that are not empty are the set bits of the mask.
proof fn lemma_count_is_place(
    slots: Seq<SlotView>,
    resolved: Map<u32, Seq<u8>>,
    mask: u16,
    n: int,
    m: int,
)
    requires
        0 <= n <= m <= 16,
        forall|i: int| 0 <= i < 16 ==> #[trigger] has_bit(mask, i) == (i < m && !(slots[i] is Empty)),
    ensures
        bits_below(mask, n) == taken(slots, n),
    decreases n,
{
    if n > 0 {
        lemma_count_is_place(slots, resolved, mask, n - 1, m);
        assert(has_bit(mask, n - 1) == !(slots[n - 1] is Empty));
    }
}

/// A short node stands for a leaf where it has a value, and otherwise for an extension to the child
/// that its slot refers to.
pub proof fn lemma_short_node(key: Seq<u8>, child: SlotView, resolved: Map<u32, Seq<u8>>)
    ensures
        match child {
            SlotView::InlineValue(value) => trie_form(
                ColdView::Short { key, child },
                resolved,
            ) == Ok::<_, ColdError>(NodeView::Leaf { key, value }),
            _ => match slot_reference(child, resolved) {
                Ok(rlp) => trie_form(ColdView::Short { key, child }, resolved) == Ok::<
                    _,
                    ColdError,
                >(NodeView::Extension { key, child: rlp }),
                Err(e) => trie_form(ColdView::Short { key, child }, resolved) == Err::<
                    NodeView,
                    _,
                >(e),
            },
        },
{
}

/// The last node that was read stands at its offset and ends where reading has come to.
spec fn last_was_read(body: Seq<u8>, state: Replay) -> bool {
    state.last matches Some((offset, rlp)) ==> last_node(body, offset, state.offset, rlp)
}

/// A node stands from `offset` to `end`, and has this reference.
pub open spec fn last_node(body: Seq<u8>, offset: nat, end: nat, rlp: Seq<u8>) -> bool {
    exists|node: ColdView, resolved: Map<u32, Seq<u8>>|
        offset < end && node_of_bytes(body.skip(offset as int)) == Ok::<_, ColdError>(
            (node, (end - offset) as nat),
        ) && #[trigger] cold_reference(node, resolved) == Ok::<_, ColdError>(rlp)
}

/// Reading on keeps to that.
proof fn lemma_last_was_read(body: Seq<u8>, limit: nat, state: Replay)
    requires
        last_was_read(body, state),
    ensures
        replayed(body, limit, state) matches Ok(end) ==> last_was_read(body, end),
    decreases
            if state.offset < limit {
                limit - state.offset
            } else {
                0
            },
{
    if state.offset < limit {
        if let Ok((node, size)) = node_of_bytes(body.skip(state.offset as int)) {
            lemma_node_rewrites(body.skip(state.offset as int));
            if let Ok(rlp) = cold_reference(node, state.resolved) {
                let next = Replay {
                    offset: state.offset + size,
                    resolved: state.resolved.insert(crate::be_bytes::low32(state.offset), rlp),
                    last: Some((state.offset, rlp)),
                };
                assert(cold_reference(node, state.resolved) == Ok::<_, ColdError>(rlp));
                assert(last_node(body, state.offset, next.offset, rlp));
                lemma_last_was_read(body, limit, next);
            }
        }
    }
}

/// What a body reads back to is the hash of the node that stands at the place that the header gives
/// the root, and fills it.
pub proof fn lemma_hash_is_of_root_place(body: Seq<u8>, header: BlobHeader)
    ensures
        root_of_body(body, header) matches Ok(hash) ==> {
            &&& header.root_size > 0
            &&& header.root_offset + header.root_size <= body.len()
            &&& exists|node: ColdView, resolved: Map<u32, Seq<u8>>|
                node_of_bytes(body.skip(header.root_offset as int)) == Ok::<_, ColdError>(
                    (node, header.root_size as nat),
                ) && (#[trigger] cold_reference(node, resolved) matches Ok(rlp) && hash_in(rlp)
                    == Some(hash))
        },
{
    let limit = (header.root_offset + header.root_size) as nat;
    lemma_last_was_read(body, limit, replay_start());
    if let Ok(hash) = root_of_body(body, header) {
        let end = replayed(body, limit, replay_start())->Ok_0;
        let (offset, rlp) = end.last->0;
        assert(last_node(body, offset, end.offset, rlp));
        let (node, resolved) = choose|node: ColdView, resolved: Map<u32, Seq<u8>>|
            offset < end.offset && node_of_bytes(body.skip(offset as int)) == Ok::<_, ColdError>(
                (node, (end.offset - offset) as nat),
            ) && #[trigger] cold_reference(node, resolved) == Ok::<_, ColdError>(rlp);
        assert(cold_reference(node, resolved) == Ok::<_, ColdError>(rlp));
    }
}

/// A body has one root: of two headers that end at the same byte, at most one is accepted.
pub proof fn lemma_one_root(body: Seq<u8>, a: BlobHeader, b: BlobHeader)
    requires
        a.root_offset + a.root_size == b.root_offset + b.root_size,
        root_of_body(body, a) is Ok,
        root_of_body(body, b) is Ok,
    ensures
        a == b,
{
}

/// A body that ends before its root, holds nothing, or begins with no node, is refused.
pub proof fn lemma_bodies_refused(body: Seq<u8>, header: BlobHeader)
    ensures
        body.len() < header.root_offset + header.root_size ==> root_of_body(body, header) == Err::<
            Seq<u8>,
            _,
        >(ColdError::BodyTooShort),
        header.root_offset == 0 && header.root_size == 0 ==> root_of_body(body, header) == Err::<
            Seq<u8>,
            _,
        >(ColdError::BodyEmpty),
        0 < header.root_offset + header.root_size <= body.len() && node_of_bytes(body) is Err
            ==> root_of_body(body, header) == Err::<Seq<u8>, _>(node_of_bytes(body)->Err_0),
{
    assert(body.skip(0) =~= body);
}

/// A blob is read at the stub's offset: the header, and then as many bytes as it asks for.
pub proof fn lemma_blob_in_file(file: Seq<u8>, stub: ColdStub)
    ensures
        file.len() < stub.blob_offset + 16 ==> root_in_file(file, stub) == Err::<Seq<u8>, _>(
            ColdError::FileTruncated,
        ),
        file.len() >= stub.blob_offset + 16 ==> match header_of_bytes(
            file.skip(stub.blob_offset as int),
        ) {
            Err(e) => root_in_file(file, stub) == Err::<Seq<u8>, _>(e),
            Ok(header) => {
                let start = stub.blob_offset + 16;
                let end = start + header.root_offset + header.root_size;
                if file.len() < end {
                    root_in_file(file, stub) == Err::<Seq<u8>, _>(ColdError::FileTruncated)
                } else {
                    root_in_file(file, stub) == root_of_body(file.subrange(start, end), header)
                }
            },
        },
{
    if file.len() >= stub.blob_offset + 16 {
        if let Ok(header) = header_of_bytes(file.skip(stub.blob_offset as int)) {
            let start = stub.blob_offset + 16;
            let end = start + header.root_offset + header.root_size;
            if file.len() >= end {
                assert(file.skip(stub.blob_offset as int).subrange(16, end - stub.blob_offset)
                    =~= file.subrange(start, end));
            }
        }
    }
}

/// The reference of a node of a body is that of the trie node that it stands for.
pub proof fn lemma_reference_of_node(node: ColdView, resolved: Map<u32, Seq<u8>>)
    ensures
        trie_form(node, resolved) matches Ok(n) ==> cold_reference(node, resolved) == Ok::<
            _,
            ColdError,
        >(node_reference(n)),
        trie_form(node, resolved) matches Err(e) ==> cold_reference(node, resolved) == Err::<
            Seq<u8>,
            _,
        >(e),
{
}

} // verus!
