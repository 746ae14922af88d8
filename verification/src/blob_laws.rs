//! A blob is a subtree that can be walked: from the root every child, and every leaf's value, is
//! found where its parent's slot says.
use vstd::prelude::*;

use crate::be_bytes::low32;
use crate::capture::distinct_paths;
use crate::cold_file::{blob_of, branch_slots, cold_form, laid_out, slot_for, Places};
use crate::cold_format::{
    header_bytes, lemma_node_round_trip, node_bytes, node_fits, node_of_bytes, slot_fits,
    BlobHeader, ColdError, ColdView, SlotView,
};
use crate::nibbles::{is_path, starts_with};
use crate::trie_node::{
    bits_below, has_bit, lemma_bits_below_bound, lemma_hash_reference, NodeView,
};

verus! {

/// A slot is that of a child that its parent refers to by `rlp`: with the hash where the reference
/// holds one.
pub open spec fn slot_refers(slot: SlotView, rlp: Seq<u8>) -> bool {
    if rlp.len() == 33 {
        slot matches SlotView::Hashed { hash, .. } && hash == rlp.subrange(1, 33)
    } else {
        slot is Embedded
    }
}

/// Where in the body the child of a slot stands, and its size.
pub open spec fn child_place(slot: SlotView) -> Option<(u32, u32)> {
    match slot {
        SlotView::Hashed { offset, size, .. } => Some((offset, size)),
        SlotView::Embedded { offset, size } => Some((offset, size)),
        _ => None,
    }
}

/// A node of a body is this node of a trie: a leaf with its value, an extension with its child, or
/// a branch with a slot for each child and empty ones otherwise.
pub open spec fn shows(cold: ColdView, node: NodeView) -> bool {
    match node {
        NodeView::EmptyRoot => false,
        NodeView::Leaf { key, value } => cold == (ColdView::Short {
            key,
            child: SlotView::InlineValue(value),
        }),
        NodeView::Extension { key, child } => cold matches ColdView::Short { key: k, child: slot }
            && k == key && slot_refers(slot, child),
        NodeView::Branch { stack, state_mask } => cold matches ColdView::Full(slots) && {
            &&& slots.len() == 17
            &&& slots[16] is Empty
            &&& forall|n: int|
                0 <= n < 16 ==> if has_bit(state_mask, n) {
                    slot_refers(#[trigger] slots[n], stack[bits_below(state_mask, n) as int])
                } else {
                    slots[n] is Empty
                }
        },
    }
}

/// These bytes of a body are the written form of a node.
pub open spec fn written_as(
    body: Seq<u8>,
    offset: int,
    size: int,
    node: NodeView,
    cold: ColdView,
) -> bool {
    &&& 0 <= offset
    &&& 0 <= size
    &&& offset + size <= body.len()
    &&& body.subrange(offset, offset + size) == node_bytes(cold)
    &&& node_fits(cold)
    &&& shows(cold, node)
}

/// At this place of a body stands the node `k`, and each of its slots leads to the place of a node
/// before it that stands at the child's path.
pub open spec fn subtree_stands(
    nodes: Seq<(Seq<u8>, NodeView)>,
    body: Seq<u8>,
    k: int,
    offset: int,
    size: int,
) -> bool
    decreases k, 2int,
{
    exists|cold: ColdView|
        #![trigger written_as(body, offset, size, nodes[k].1, cold)]
        written_as(body, offset, size, nodes[k].1, cold) && slots_lead(nodes, body, k, cold)
}

/// Each slot of the node `k` leads to the place of a node before it that stands at the child's path.
pub open spec fn slots_lead(
    nodes: Seq<(Seq<u8>, NodeView)>,
    body: Seq<u8>,
    k: int,
    cold: ColdView,
) -> bool
    decreases k, 1int,
{
    match (nodes[k].1, cold) {
        (NodeView::Extension { key, .. }, ColdView::Short { child, .. }) => child_stands(
            nodes,
            body,
            k,
            nodes[k].0 + key,
            child,
        ),
        (NodeView::Branch { state_mask, .. }, ColdView::Full(slots)) => forall|n: int|
            0 <= n < 16 && has_bit(state_mask, n) ==> child_stands(
                nodes,
                body,
                k,
                nodes[k].0.push(n as u8),
                #[trigger] slots[n],
            ),
        _ => true,
    }
}

/// A slot leads to the place of a node before `k` that stands at the child's path.
pub open spec fn child_stands(
    nodes: Seq<(Seq<u8>, NodeView)>,
    body: Seq<u8>,
    k: int,
    path: Seq<u8>,
    slot: SlotView,
) -> bool
    decreases k, 0int,
{
    child_place(slot) matches Some((offset, size)) && exists|m: int|
        0 <= m < k && (#[trigger] nodes[m]).0 == path && subtree_stands(
            nodes,
            body,
            m,
            offset as int,
            size as int,
        )
}

/// The keys of some nodes are paths, as those of a trie are.
pub open spec fn keys_are_paths(nodes: Seq<(Seq<u8>, NodeView)>) -> bool {
    forall|i: int|
        0 <= i < nodes.len() ==> match (#[trigger] nodes[i]).1 {
            NodeView::Leaf { key, .. } => is_path(key),
            NodeView::Extension { key, .. } => is_path(key),
            _ => true,
        }
}

/// What stands in a body stands there when the body goes on and more nodes come.
proof fn lemma_stands_still(
    nodes: Seq<(Seq<u8>, NodeView)>,
    body: Seq<u8>,
    more: Seq<(Seq<u8>, NodeView)>,
    longer: Seq<u8>,
    k: int,
    offset: int,
    size: int,
)
    requires
        0 <= k < nodes.len() <= more.len(),
        forall|i: int| 0 <= i < nodes.len() ==> more[i] == nodes[i],
        body.len() <= longer.len(),
        longer.take(body.len() as int) == body,
        subtree_stands(nodes, body, k, offset, size),
    ensures
        subtree_stands(more, longer, k, offset, size),
    decreases k, 2int,
{
    let cold = choose|cold: ColdView|
        #![trigger written_as(body, offset, size, nodes[k].1, cold)]
        written_as(body, offset, size, nodes[k].1, cold) && slots_lead(nodes, body, k, cold);
    lemma_written_still(body, longer, offset, size, nodes[k].1, cold);
    lemma_slots_lead_still(nodes, body, more, longer, k, cold);
    assert(written_as(longer, offset, size, more[k].1, cold));
}

/// What is written stays written when the body goes on.
proof fn lemma_written_still(
    body: Seq<u8>,
    longer: Seq<u8>,
    offset: int,
    size: int,
    node: NodeView,
    cold: ColdView,
)
    requires
        body.len() <= longer.len(),
        longer.take(body.len() as int) == body,
        written_as(body, offset, size, node, cold),
    ensures
        written_as(longer, offset, size, node, cold),
{
    assert forall|i: int| 0 <= i < body.len() implies longer[i] == body[i] by {
        assert(longer.take(body.len() as int)[i] == longer[i]);
    }
    assert(longer.subrange(offset, offset + size) =~= body.subrange(offset, offset + size));
}

/// The slots of a node lead where they led.
proof fn lemma_slots_lead_still(
    nodes: Seq<(Seq<u8>, NodeView)>,
    body: Seq<u8>,
    more: Seq<(Seq<u8>, NodeView)>,
    longer: Seq<u8>,
    k: int,
    cold: ColdView,
)
    requires
        0 <= k < nodes.len() <= more.len(),
        forall|i: int| 0 <= i < nodes.len() ==> more[i] == nodes[i],
        body.len() <= longer.len(),
        longer.take(body.len() as int) == body,
        slots_lead(nodes, body, k, cold),
    ensures
        slots_lead(more, longer, k, cold),
    decreases k, 1int,
{
    match (nodes[k].1, cold) {
        (NodeView::Extension { key, .. }, ColdView::Short { child, .. }) => {
            lemma_child_stands_still(nodes, body, more, longer, k, nodes[k].0 + key, child);
        },
        (NodeView::Branch { state_mask, .. }, ColdView::Full(slots)) => {
            assert forall|n: int| 0 <= n < 16 && has_bit(state_mask, n) implies child_stands(
                more,
                longer,
                k,
                more[k].0.push(n as u8),
                #[trigger] slots[n],
            ) by {
                lemma_child_stands_still(
                    nodes,
                    body,
                    more,
                    longer,
                    k,
                    nodes[k].0.push(n as u8),
                    slots[n],
                );
            }
        },
        _ => {},
    }
}

/// The same of a child.
proof fn lemma_child_stands_still(
    nodes: Seq<(Seq<u8>, NodeView)>,
    body: Seq<u8>,
    more: Seq<(Seq<u8>, NodeView)>,
    longer: Seq<u8>,
    k: int,
    path: Seq<u8>,
    slot: SlotView,
)
    requires
        0 <= k < nodes.len() <= more.len(),
        forall|i: int| 0 <= i < nodes.len() ==> more[i] == nodes[i],
        body.len() <= longer.len(),
        longer.take(body.len() as int) == body,
        child_stands(nodes, body, k, path, slot),
    ensures
        child_stands(more, longer, k, path, slot),
    decreases k, 0int,
{
    let (offset, size) = child_place(slot)->0;
    let m = choose|m: int|
        0 <= m < k && (#[trigger] nodes[m]).0 == path && subtree_stands(
            nodes,
            body,
            m,
            offset as int,
            size as int,
        );
    lemma_stands_still(nodes, body, more, longer, m, offset as int, size as int);
    assert(more[m].0 == path);
}

/// The slots that are made for a branch: one with the child's place for each set bit, and an empty
/// one for any other.
proof fn lemma_slots_made(
    stack: Seq<Seq<u8>>,
    mask: u16,
    path: Seq<u8>,
    placed: Places,
    n: int,
)
    requires
        0 <= n <= 16,
        branch_slots(stack, mask, path, placed, n) is Ok,
    ensures
        ({
            let slots = branch_slots(stack, mask, path, placed, n)->Ok_0;
            &&& slots.len() == n
            &&& forall|i: int|
                0 <= i < n ==> if has_bit(mask, i) {
                    &&& bits_below(mask, i) < stack.len()
                    &&& slot_for(
                        stack[bits_below(mask, i) as int],
                        path.push(i as u8),
                        placed,
                    ) == Ok::<_, ColdError>(#[trigger] slots[i])
                } else {
                    slots[i] is Empty
                }
        }),
    decreases n,
{
    if n > 0 {
        lemma_slots_made(stack, mask, path, placed, n - 1);
        let before = branch_slots(stack, mask, path, placed, n - 1)->Ok_0;
        let slots = branch_slots(stack, mask, path, placed, n)->Ok_0;
        assert forall|i: int| 0 <= i < n implies if has_bit(mask, i) {
            &&& bits_below(mask, i) < stack.len()
            &&& slot_for(
                stack[bits_below(mask, i) as int],
                path.push(i as u8),
                placed,
            ) == Ok::<_, ColdError>(#[trigger] slots[i])
        } else {
            slots[i] is Empty
        } by {
            if i < n - 1 {
                assert(slots[i] == before[i]);
            }
        }
    }
}

/// A slot that is made refers to its child, gives the child's place, and can be written down.
proof fn lemma_slot_made(rlp: Seq<u8>, path: Seq<u8>, placed: Places)
    requires
        slot_for(rlp, path, placed) is Ok,
    ensures
        ({
            let slot = slot_for(rlp, path, placed)->Ok_0;
            &&& placed.contains_key(path)
            &&& child_place(slot) == Some(placed[path])
            &&& slot_refers(slot, rlp)
            &&& slot_fits(slot)
        }),
{
    if rlp.len() == 33 {
        lemma_hash_reference(rlp.skip(1), rlp);
    }
}

/// Every place is that of a node that stands there.
spec fn places_hold(nodes: Seq<(Seq<u8>, NodeView)>, body: Seq<u8>, placed: Places) -> bool {
    forall|path: Seq<u8>| #[trigger]
        placed.contains_key(path) ==> exists|m: int|
            0 <= m < nodes.len() && (#[trigger] nodes[m]).0 == path && subtree_stands(
                nodes,
                body,
                m,
                placed[path].0 as int,
                placed[path].1 as int,
            )
}

/// What is laid out stands: every place is that of a node, and the last node stands at the end.
proof fn lemma_layout_stands(nodes: Seq<(Seq<u8>, NodeView)>)
    requires
        keys_are_paths(nodes),
        laid_out(nodes) matches Ok((body, _)) && body.len() <= u32::MAX,
    ensures
        ({
            let (body, placed) = laid_out(nodes)->Ok_0;
            &&& places_hold(nodes, body, placed)
            &&& nodes.len() > 0 ==> {
                let (offset, size) = placed[nodes.last().0];
                &&& subtree_stands(nodes, body, nodes.len() - 1, offset as int, size as int)
                &&& offset + size == body.len()
            }
        }),
    decreases nodes.len(),
{
    if nodes.len() > 0 {
        let init = nodes.drop_last();
        let (path, node) = nodes.last();
        let (before, old_places) = laid_out(init)->Ok_0;
        let (body, placed) = laid_out(nodes)->Ok_0;
        let cold = cold_form(path, node, old_places)->Ok_0;
        let bytes = node_bytes(cold);
        assert(body == before + bytes);
        assert forall|i: int| 0 <= i < init.len() implies match (#[trigger] init[i]).1 {
            NodeView::Leaf { key, .. } => is_path(key),
            NodeView::Extension { key, .. } => is_path(key),
            _ => true,
        } by {
            assert(init[i] == nodes[i]);
        }
        lemma_layout_stands(init);
        assert(body.take(before.len() as int) =~= before);
        let k = nodes.len() - 1;
        lemma_last_stands(nodes, before, body, old_places, cold);
        assert forall|q: Seq<u8>| #[trigger] placed.contains_key(q) implies exists|m: int|
            0 <= m < nodes.len() && (#[trigger] nodes[m]).0 == q && subtree_stands(
                nodes,
                body,
                m,
                placed[q].0 as int,
                placed[q].1 as int,
            ) by {
            if q == path {
                assert(nodes[k].0 == q);
            } else {
                assert(old_places.contains_key(q));
                let m = choose|m: int|
                    0 <= m < init.len() && (#[trigger] init[m]).0 == q && subtree_stands(
                        init,
                        before,
                        m,
                        old_places[q].0 as int,
                        old_places[q].1 as int,
                    );
                lemma_stands_still(
                    init,
                    before,
                    nodes,
                    body,
                    m,
                    old_places[q].0 as int,
                    old_places[q].1 as int,
                );
                assert(nodes[m].0 == q);
            }
        }
    }
}

/// The last node stands at the end of the body.
proof fn lemma_last_stands(
    nodes: Seq<(Seq<u8>, NodeView)>,
    before: Seq<u8>,
    body: Seq<u8>,
    old_places: Places,
    cold: ColdView,
)
    requires
        nodes.len() > 0,
        keys_are_paths(nodes),
        places_hold(nodes.drop_last(), before, old_places),
        cold_form(nodes.last().0, nodes.last().1, old_places) == Ok::<_, ColdError>(cold),
        body == before + node_bytes(cold),
        body.take(before.len() as int) == before,
        body.len() <= u32::MAX,
    ensures
        subtree_stands(
            nodes,
            body,
            nodes.len() - 1,
            low32(before.len()) as int,
            low32(node_bytes(cold).len()) as int,
        ),
        low32(before.len()) + low32(node_bytes(cold).len()) == body.len(),
{
    let k = nodes.len() - 1;
    let bytes = node_bytes(cold);
    let offset = before.len() as int;
    let size = bytes.len() as int;
    lemma_children_stand(nodes, before, body, old_places, cold, bytes);
    assert(body.subrange(offset, offset + size) =~= bytes);
    assert(nodes[k] == nodes.last());
    assert(written_as(body, offset, size, nodes[k].1, cold));
    assert(low32(before.len()) == offset && low32(bytes.len()) == size);
}

/// The last node shows what it is, and its slots lead to children.
proof fn lemma_children_stand(
    nodes: Seq<(Seq<u8>, NodeView)>,
    before: Seq<u8>,
    body: Seq<u8>,
    old_places: Places,
    cold: ColdView,
    bytes: Seq<u8>,
)
    requires
        nodes.len() > 0,
        keys_are_paths(nodes),
        places_hold(nodes.drop_last(), before, old_places),
        cold_form(nodes.last().0, nodes.last().1, old_places) == Ok::<_, ColdError>(cold),
        bytes == node_bytes(cold),
        body == before + bytes,
        body.take(before.len() as int) == before,
        body.len() <= u32::MAX,
    ensures
        node_fits(cold),
        shows(cold, nodes.last().1),
        slots_lead(nodes, body, nodes.len() - 1, cold),
{
    let init = nodes.drop_last();
    let (path, node) = nodes.last();
    assert(nodes[nodes.len() - 1] == (path, node));
    match node {
        NodeView::EmptyRoot => {},
        NodeView::Leaf { key, value } => {
            assert(bytes.len() >= value.len());
        },
        NodeView::Extension { key, child } => {
            lemma_slot_made(child, path + key, old_places);
            lemma_slot_leads(nodes, before, body, old_places, child, path + key);
        },
        NodeView::Branch { stack, state_mask } => {
            lemma_slots_made(stack, state_mask, path, old_places, 16);
            let slots = branch_slots(stack, state_mask, path, old_places, 16)->Ok_0;
            let full = slots.push(SlotView::Empty);
            assert(cold == ColdView::Full(full));
            assert forall|n: int| 0 <= n < 16 implies (if has_bit(state_mask, n) {
                slot_refers(#[trigger] full[n], stack[bits_below(state_mask, n) as int])
                    && slot_fits(full[n]) && child_stands(
                    nodes,
                    body,
                    nodes.len() - 1,
                    path.push(n as u8),
                    full[n],
                )
            } else {
                full[n] is Empty
            }) by {
                assert(full[n] == slots[n]);
                if has_bit(state_mask, n) {
                    let rlp = stack[bits_below(state_mask, n) as int];
                    lemma_slot_made(rlp, path.push(n as u8), old_places);
                    lemma_slot_leads(
                        nodes,
                        before,
                        body,
                        old_places,
                        rlp,
                        path.push(n as u8),
                    );
                }
            }
            assert forall|i: int| 0 <= i < full.len() implies slot_fits(#[trigger] full[i]) by {
                if i < 16 {
                    assert(if has_bit(state_mask, i) {
                        slot_fits(full[i])
                    } else {
                        full[i] is Empty
                    });
                }
            }
        },
    }
}

/// A slot leads to the place of an earlier node.
proof fn lemma_slot_leads(
    nodes: Seq<(Seq<u8>, NodeView)>,
    before: Seq<u8>,
    body: Seq<u8>,
    old_places: Places,
    rlp: Seq<u8>,
    path: Seq<u8>,
)
    requires
        nodes.len() > 0,
        places_hold(nodes.drop_last(), before, old_places),
        slot_for(rlp, path, old_places) is Ok,
        before.len() <= body.len(),
        body.take(before.len() as int) == before,
    ensures
        child_stands(
            nodes,
            body,
            nodes.len() - 1,
            path,
            slot_for(rlp, path, old_places)->Ok_0,
        ),
{
    lemma_slot_made(rlp, path, old_places);
    let init = nodes.drop_last();
    let (offset, size) = old_places[path];
    let m = choose|m: int|
        0 <= m < init.len() && (#[trigger] init[m]).0 == path && subtree_stands(
            init,
            before,
            m,
            offset as int,
            size as int,
        );
    lemma_stands_still(init, before, nodes, body, m, offset as int, size as int);
    assert(nodes[m].0 == path);
}

/// A node that stands in a body is read there, and nothing else of the body is looked at.
proof fn lemma_written_is_read(
    body: Seq<u8>,
    offset: int,
    size: int,
    node: NodeView,
    cold: ColdView,
)
    requires
        written_as(body, offset, size, node, cold),
    ensures
        node_of_bytes(body.skip(offset)) == Ok::<_, ColdError>((cold, size as nat)),
{
    let rest = body.skip(offset + size);
    lemma_node_round_trip(cold, rest);
    assert(body.skip(offset) =~= body.subrange(offset, offset + size) + rest);
    assert(node_bytes(cold).len() == size);
}

/// A written blob can be walked: its header and its stub name the place of the root, which ends the
/// body, and from there each slot leads to the place where the child that stands at its path was
/// written, down to the leaves and their values.
pub proof fn lemma_blob_can_be_walked(nodes: Seq<(Seq<u8>, NodeView)>, blob_offset: u64)
    requires
        nodes.len() > 0,
        keys_are_paths(nodes),
        blob_of(nodes, blob_offset) is Ok,
        laid_out(nodes) matches Ok((body, _)) ==> body.len() <= u32::MAX,
    ensures
        blob_of(nodes, blob_offset) matches Ok((bytes, stub)) && {
            let body = bytes.skip(16);
            &&& stub.blob_offset == blob_offset
            &&& bytes.take(16) == header_bytes(
                BlobHeader { root_offset: stub.root_in_blob, root_size: stub.root_size },
            )
            &&& stub.root_in_blob + stub.root_size == body.len()
            &&& subtree_stands(
                nodes,
                body,
                nodes.len() - 1,
                stub.root_in_blob as int,
                stub.root_size as int,
            )
        },
{
    lemma_layout_stands(nodes);
    let (bytes, stub) = blob_of(nodes, blob_offset)->Ok_0;
    let (body, placed) = laid_out(nodes)->Ok_0;
    let header = BlobHeader { root_offset: stub.root_in_blob, root_size: stub.root_size };
    crate::layout_laws::lemma_header_layout(header);
    assert(bytes.skip(16) =~= body);
    assert(bytes.take(16) =~= header_bytes(header));
}

/// Every node of a blob stands somewhere in its body, with slots that lead to its children.
pub proof fn lemma_every_node_stands(nodes: Seq<(Seq<u8>, NodeView)>, k: int) -> (place: (int, int))
    requires
        0 <= k < nodes.len(),
        keys_are_paths(nodes),
        laid_out(nodes) matches Ok((body, _)) && body.len() <= u32::MAX,
    ensures
        subtree_stands(nodes, (laid_out(nodes)->Ok_0).0, k, place.0, place.1),
    decreases nodes.len(),
{
    let (body, placed) = laid_out(nodes)->Ok_0;
    if k == nodes.len() - 1 {
        lemma_layout_stands(nodes);
        let (offset, size) = placed[nodes.last().0];
        (offset as int, size as int)
    } else {
        let init = nodes.drop_last();
        let before = (laid_out(init)->Ok_0).0;
        assert forall|i: int| 0 <= i < init.len() implies match (#[trigger] init[i]).1 {
            NodeView::Leaf { key, .. } => is_path(key),
            NodeView::Extension { key, .. } => is_path(key),
            _ => true,
        } by {
            assert(init[i] == nodes[i]);
        }
        assert(body.take(before.len() as int) =~= before);
        let place = lemma_every_node_stands(init, k);
        lemma_stands_still(init, before, nodes, body, k, place.0, place.1);
        place
    }
}

/// The value at a key below the node that stands at an offset, found by following slots.
pub open spec fn value_at(body: Seq<u8>, offset: int, key: Seq<u8>) -> Option<Seq<u8>>
    decreases key.len(),
{
    match node_of_bytes(body.skip(offset)) {
        Ok((ColdView::Short { key: k, child: SlotView::InlineValue(value) }, _)) => if k == key {
            Some(value)
        } else {
            None
        },
        Ok((ColdView::Short { key: k, child }, _)) => match child_place(child) {
            Some((next, _)) if k.len() > 0 && starts_with(key, k) => value_at(
                body,
                next as int,
                key.skip(k.len() as int),
            ),
            _ => None,
        },
        Ok((ColdView::Full(slots), _)) => if key.len() > 0 && key[0] < 16 {
            match child_place(slots[key[0] as int]) {
                Some((next, _)) => value_at(body, next as int, key.skip(1)),
                None => None,
            }
        } else {
            None
        },
        Err(_) => None,
    }
}

/// Some nodes of a trie hold this value at a key below a path.
pub open spec fn value_held(
    nodes: Seq<(Seq<u8>, NodeView)>,
    path: Seq<u8>,
    key: Seq<u8>,
    value: Seq<u8>,
) -> bool
    decreases key.len(),
{
    exists|k: int|
        0 <= k < nodes.len() && (#[trigger] nodes[k]).0 == path && match nodes[k].1 {
            NodeView::EmptyRoot => false,
            NodeView::Leaf { key: rest, value: v } => rest == key && v == value,
            NodeView::Extension { key: part, .. } => part.len() > 0 && starts_with(key, part)
                && value_held(nodes, path + part, key.skip(part.len() as int), value),
            NodeView::Branch { state_mask, .. } => key.len() > 0 && key[0] < 16 && has_bit(
                state_mask,
                key[0] as int,
            ) && value_held(nodes, path.push(key[0]), key.skip(1), value),
        }
}

/// Following the slots from where a node stands finds exactly the values that the trie holds below
/// it, each at its key.
pub proof fn lemma_values_are_found(
    nodes: Seq<(Seq<u8>, NodeView)>,
    body: Seq<u8>,
    k: int,
    offset: int,
    size: int,
    key: Seq<u8>,
    value: Seq<u8>,
)
    requires
        distinct_paths(nodes),
        0 <= k < nodes.len(),
        subtree_stands(nodes, body, k, offset, size),
    ensures
        value_at(body, offset, key) == Some(value) <==> value_held(nodes, nodes[k].0, key, value),
    decreases key.len(),
{
    let path = nodes[k].0;
    let cold = choose|cold: ColdView|
        #![trigger written_as(body, offset, size, nodes[k].1, cold)]
        written_as(body, offset, size, nodes[k].1, cold) && slots_lead(nodes, body, k, cold);
    lemma_written_is_read(body, offset, size, nodes[k].1, cold);
    assert forall|j: int| 0 <= j < nodes.len() && (#[trigger] nodes[j]).0 == path implies j == k by {
        if j < k {
            assert(nodes[j].0 != nodes[k].0);
        } else if k < j {
            assert(nodes[k].0 != nodes[j].0);
        }
    }
    match nodes[k].1 {
        NodeView::EmptyRoot => {},
        NodeView::Leaf { .. } => {},
        NodeView::Extension { key: part, .. } => {
            if let ColdView::Short { child, .. } = cold {
                let (next, next_size) = child_place(child)->0;
                let m = choose|m: int|
                    0 <= m < k && (#[trigger] nodes[m]).0 == path + part && subtree_stands(
                        nodes,
                        body,
                        m,
                        next as int,
                        next_size as int,
                    );
                if part.len() > 0 && starts_with(key, part) {
                    lemma_values_are_found(
                        nodes,
                        body,
                        m,
                        next as int,
                        next_size as int,
                        key.skip(part.len() as int),
                        value,
                    );
                }
            }
        },
        NodeView::Branch { state_mask, .. } => {
            if let ColdView::Full(slots) = cold {
                if key.len() > 0 && key[0] < 16 {
                    let n = key[0] as int;
                    let slot = slots[n];
                    if has_bit(state_mask, n) {
                        assert(child_stands(nodes, body, k, path.push(n as u8), slot));
                        let (next, next_size) = child_place(slot)->0;
                        let m = choose|m: int|
                            0 <= m < k && (#[trigger] nodes[m]).0 == path.push(n as u8)
                                && subtree_stands(
                                nodes,
                                body,
                                m,
                                next as int,
                                next_size as int,
                            );
                        lemma_values_are_found(
                            nodes,
                            body,
                            m,
                            next as int,
                            next_size as int,
                            key.skip(1),
                            value,
                        );
                    } else {
                        assert(slots[n] is Empty);
                    }
                }
            }
        },
    }
}

/// What is wrong with a node that cannot be written behind these others: it is an empty root, a
/// branch with fewer references than children, or it has a child that stands too deep or has not
/// been written.
pub open spec fn misfit(
    nodes: Seq<(Seq<u8>, NodeView)>,
    path: Seq<u8>,
    node: NodeView,
    e: ColdError,
) -> bool {
    match e {
        ColdError::UnexpectedEmptyRoot => node is EmptyRoot,
        ColdError::BranchStackTooShort => node matches NodeView::Branch { stack, state_mask }
            && bits_below(state_mask, 16) > stack.len(),
        ColdError::PathTooLong => has_child(
            path,
            node,
            |child: Seq<u8>| child.len() > 64,
        ),
        ColdError::ChildNotPlaced => has_child(
            path,
            node,
            |child: Seq<u8>|
                child.len() <= 64 && forall|i: int|
                    0 <= i < nodes.len() ==> (#[trigger] nodes[i]).0 != child,
        ),
        _ => false,
    }
}

/// A node has a child at a path of which this holds.
pub open spec fn has_child(path: Seq<u8>, node: NodeView, p: spec_fn(Seq<u8>) -> bool) -> bool {
    match node {
        NodeView::Extension { key, .. } => p(path + key),
        NodeView::Branch { state_mask, .. } => exists|n: int|
            0 <= n < 16 && #[trigger] has_bit(state_mask, n) && p(path.push(n as u8)),
        _ => false,
    }
}

/// The paths that have places are those of the nodes.
proof fn lemma_placed_paths(nodes: Seq<(Seq<u8>, NodeView)>, path: Seq<u8>)
    requires
        laid_out(nodes) is Ok,
    ensures
        (laid_out(nodes)->Ok_0).1.contains_key(path) <==> exists|i: int|
            0 <= i < nodes.len() && (#[trigger] nodes[i]).0 == path,
    decreases nodes.len(),
{
    if nodes.len() > 0 {
        let init = nodes.drop_last();
        lemma_placed_paths(init, path);
        if exists|i: int| 0 <= i < nodes.len() && (#[trigger] nodes[i]).0 == path {
            let i = choose|i: int| 0 <= i < nodes.len() && (#[trigger] nodes[i]).0 == path;
            if i < init.len() {
                assert(init[i].0 == path);
            }
        }
        if exists|i: int| 0 <= i < init.len() && (#[trigger] init[i]).0 == path {
            let i = choose|i: int| 0 <= i < init.len() && (#[trigger] init[i]).0 == path;
            assert(nodes[i].0 == path);
        }
        assert(nodes[nodes.len() - 1] == nodes.last());
    }
}

/// Nodes are refused only for a node that does not fit behind those before it, and for what is
/// wrong with it; and where one does not fit, they are refused.
pub proof fn lemma_only_misfits_are_refused(nodes: Seq<(Seq<u8>, NodeView)>)
    ensures
        laid_out(nodes) matches Err(e) ==> exists|i: int|
            0 <= i < nodes.len() && misfit(
                nodes.take(i),
                (#[trigger] nodes[i]).0,
                nodes[i].1,
                e,
            ),
        laid_out(nodes) is Ok ==> forall|i: int, e: ColdError|
            0 <= i < nodes.len() ==> !#[trigger] misfit(
                nodes.take(i),
                nodes[i].0,
                nodes[i].1,
                e,
            ),
    decreases nodes.len(),
{
    if nodes.len() > 0 {
        let init = nodes.drop_last();
        let n = nodes.len() - 1;
        let (path, node) = nodes.last();
        assert(nodes[n] == (path, node));
        assert(nodes.take(n) =~= init);
        lemma_only_misfits_are_refused(init);
        assert forall|i: int| 0 <= i < init.len() implies #[trigger] init.take(i) == nodes.take(
            i,
        ) by {
            assert(init.take(i) =~= nodes.take(i));
        }
        match laid_out(init) {
            Err(e) => {
                let i = choose|i: int|
                    0 <= i < init.len() && misfit(
                        init.take(i),
                        (#[trigger] init[i]).0,
                        init[i].1,
                        e,
                    );
                assert(init.take(i) == nodes.take(i));
                assert(misfit(nodes.take(i), nodes[i].0, nodes[i].1, e));
            },
            Ok((body, placed)) => {
                lemma_misfit_refused(init, path, node, placed);
                if laid_out(nodes) is Ok {
                    assert forall|i: int, e: ColdError| 0 <= i < nodes.len() implies !#[trigger] misfit(
                        nodes.take(i),
                        nodes[i].0,
                        nodes[i].1,
                        e,
                    ) by {
                        if i < n {
                            assert(init.take(i) == nodes.take(i));
                            assert(!misfit(init.take(i), init[i].0, init[i].1, e));
                        }
                    }
                } else {
                    let e = laid_out(nodes)->Err_0;
                    assert(misfit(nodes.take(n), nodes[n].0, nodes[n].1, e));
                }
            },
        }
    }
}

/// A node is refused exactly where it does not fit.
proof fn lemma_misfit_refused(
    init: Seq<(Seq<u8>, NodeView)>,
    path: Seq<u8>,
    node: NodeView,
    placed: Places,
)
    requires
        laid_out(init) matches Ok((_, p)) && p == placed,
    ensures
        cold_form(path, node, placed) matches Err(e) ==> misfit(init, path, node, e),
        cold_form(path, node, placed) is Ok ==> forall|e: ColdError| !#[trigger] misfit(
            init,
            path,
            node,
            e,
        ),
{
    assert forall|child: Seq<u8>| #[trigger] placed.contains_key(child) <==> exists|i: int|
        0 <= i < init.len() && (#[trigger] init[i]).0 == child by {
        lemma_placed_paths(init, child);
    }
    match node {
        NodeView::Branch { stack, state_mask } => {
            lemma_branch_refused(stack, state_mask, path, placed, 16);
            if branch_slots(stack, state_mask, path, placed, 16) is Ok {
                lemma_slots_made(stack, state_mask, path, placed, 16);
                let slots = branch_slots(stack, state_mask, path, placed, 16)->Ok_0;
                assert forall|n: int| 0 <= n < 16 && #[trigger] has_bit(
                    state_mask,
                    n,
                ) implies path.push(n as u8).len() <= 64 && placed.contains_key(
                    path.push(n as u8),
                ) by {
                    assert(slot_for(
                        stack[bits_below(state_mask, n) as int],
                        path.push(n as u8),
                        placed,
                    ) == Ok::<_, ColdError>(slots[n]));
                }
                lemma_enough_references(stack, state_mask, path, placed, 16);
            } else {
                let e = branch_slots(stack, state_mask, path, placed, 16)->Err_0;
                let n = choose|n: int|
                    0 <= n < 16 && #[trigger] has_bit(state_mask, n) && (if e
                        == ColdError::BranchStackTooShort {
                        bits_below(state_mask, n) >= stack.len()
                    } else {
                        slot_for(
                            stack[bits_below(state_mask, n) as int],
                            path.push(n as u8),
                            placed,
                        ) == Err::<SlotView, _>(e)
                    });
                lemma_bits_below_bound(state_mask, n + 1, 16);
            }
        },
        _ => {},
    }
}

/// A branch is refused for one of its children.
proof fn lemma_branch_refused(
    stack: Seq<Seq<u8>>,
    mask: u16,
    path: Seq<u8>,
    placed: Places,
    n: int,
)
    requires
        0 <= n <= 16,
    ensures
        branch_slots(stack, mask, path, placed, n) matches Err(e) ==> exists|i: int|
            0 <= i < n && #[trigger] has_bit(mask, i) && (if e == ColdError::BranchStackTooShort {
                bits_below(mask, i) >= stack.len()
            } else {
                slot_for(
                    stack[bits_below(mask, i) as int],
                    path.push(i as u8),
                    placed,
                ) == Err::<SlotView, _>(e)
            }),
    decreases n,
{
    if n > 0 {
        lemma_branch_refused(stack, mask, path, placed, n - 1);
        if branch_slots(stack, mask, path, placed, n) is Err {
            if branch_slots(stack, mask, path, placed, n - 1) is Ok {
                assert(has_bit(mask, n - 1));
            }
        }
    }
}

/// A branch whose slots are made has a reference for each child.
proof fn lemma_enough_references(
    stack: Seq<Seq<u8>>,
    mask: u16,
    path: Seq<u8>,
    placed: Places,
    n: int,
)
    requires
        0 <= n <= 16,
        branch_slots(stack, mask, path, placed, n) is Ok,
    ensures
        bits_below(mask, n) <= stack.len(),
    decreases n,
{
    if n > 0 {
        lemma_enough_references(stack, mask, path, placed, n - 1);
    }
}

} // verus!
