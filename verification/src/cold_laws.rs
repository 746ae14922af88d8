//! What the cold file gives back: a blob made of a consistent subtree reads back to the hash of
//! the subtree's root, wherever it stands in the file.
use vstd::prelude::*;

use crate::be_bytes::low32;
use crate::cold_file::{
    blob_of, branch_of_slots, branch_slots, cold_form, cold_reference, laid_out,
    lemma_branch_of_slots, replay_start, replayed, root_in_file, root_of_blob,
    root_of_body,
    slot_for, slot_reference, trie_form, Places, Replay,
};
use crate::cold_format::{
    header_bytes, lemma_header_round_trip, lemma_node_round_trip, node_bytes, node_fits, slot_fits,
    node_of_bytes, BlobHeader, ColdError, ColdView, SlotView, HEADER_LEN,
};
use crate::nibbles::{is_path, MAX_NIBBLES};
use crate::outside::node_reference;
use crate::trie_node::{
    bits_below, has_bit, hash_in, is_reference, lemma_bits_below_bound, lemma_masks_equal,
    lemma_reference_of_hash, stack_matches_mask, NodeView,
};

verus! {

/// The reference of the last node at each path.
pub open spec fn references(nodes: Seq<(Seq<u8>, NodeView)>) -> Map<Seq<u8>, Seq<u8>>
    decreases nodes.len(),
{
    if nodes.len() == 0 {
        Map::empty()
    } else {
        references(nodes.drop_last()).insert(nodes.last().0, node_reference(nodes.last().1))
    }
}

/// A parent refers by `rlp` to the node at `path`, by its hash or, where the node is too short to
/// have one, by the node itself.
pub open spec fn link_holds(
    rlp: Seq<u8>,
    path: Seq<u8>,
    known: Map<Seq<u8>, Seq<u8>>,
) -> bool {
    &&& is_reference(rlp)
    &&& known.contains_key(path)
    &&& hash_in(rlp) is None ==> rlp == known[path]
}

/// All references in the node at `path` hold.
pub open spec fn node_linked(
    path: Seq<u8>,
    node: NodeView,
    known: Map<Seq<u8>, Seq<u8>>,
) -> bool {
    match node {
        NodeView::EmptyRoot => false,
        NodeView::Leaf { key, .. } => is_path(key),
        NodeView::Extension { key, child } => is_path(key) && link_holds(child, path + key, known),
        NodeView::Branch { stack, state_mask } => {
            &&& stack_matches_mask(node)
            &&& forall|n: int|
                0 <= n < 16 && #[trigger] has_bit(state_mask, n) ==> link_holds(
                    stack[bits_below(state_mask, n) as int],
                    path.push(n as u8),
                    known,
                )
        },
    }
}

/// `nodes` come children first, and every reference in them holds.
pub open spec fn linked(nodes: Seq<(Seq<u8>, NodeView)>) -> bool
    decreases nodes.len(),
{
    nodes.len() > 0 ==> {
        &&& linked(nodes.drop_last())
        &&& is_path(nodes.last().0)
        &&& node_linked(nodes.last().0, nodes.last().1, references(nodes.drop_last()))
    }
}

/// The references that reading a body back finds, by offset.
spec fn found(nodes: Seq<(Seq<u8>, NodeView)>) -> Map<u32, Seq<u8>>
    decreases nodes.len(),
{
    if nodes.len() == 0 {
        Map::empty()
    } else {
        found(nodes.drop_last()).insert(
            low32((laid_out(nodes.drop_last())->Ok_0).0.len()),
            node_reference(nodes.last().1),
        )
    }
}

/// Where a node stands, its reference is found.
spec fn places_agree(
    placed: Places,
    known: Map<Seq<u8>, Seq<u8>>,
    resolved: Map<u32, Seq<u8>>,
) -> bool {
    forall|path: Seq<u8>| #[trigger]
        known.contains_key(path) ==> {
            &&& path.len() <= MAX_NIBBLES
            &&& placed.contains_key(path)
            &&& resolved.contains_key(placed[path].0)
            &&& resolved[placed[path].0] == known[path]
        }
}

/// A reference that holds is written as a slot that leads back to it.
proof fn lemma_slot_leads_back(
    rlp: Seq<u8>,
    path: Seq<u8>,
    placed: Places,
    known: Map<Seq<u8>, Seq<u8>>,
    resolved: Map<u32, Seq<u8>>,
)
    requires
        link_holds(rlp, path, known),
        places_agree(placed, known, resolved),
    ensures
        slot_for(rlp, path, placed) matches Ok(slot) && slot_fits(slot) && !(slot is Empty)
            && !(slot is InlineValue) && slot_reference(slot, resolved) == Ok::<_, ColdError>(rlp),
{
    if hash_in(rlp) is Some {
        lemma_reference_of_hash(rlp);
    }
}

/// The slots of a branch lead back to its references, nibble by nibble.
proof fn lemma_branch_leads_back(
    stack: Seq<Seq<u8>>,
    mask: u16,
    path: Seq<u8>,
    placed: Places,
    known: Map<Seq<u8>, Seq<u8>>,
    resolved: Map<u32, Seq<u8>>,
    n: int,
)
    requires
        0 <= n <= 16,
        node_linked(path, (NodeView::Branch { stack, state_mask: mask }), known),
        places_agree(placed, known, resolved),
    ensures
        branch_slots(stack, mask, path, placed, n) matches Ok(slots) && {
            &&& slots.len() == n
            &&& forall|i: int|
                0 <= i < n ==> slot_fits(#[trigger] slots[i]) && (slots[i] is Empty
                    <==> !has_bit(mask, i))
            &&& branch_of_slots(slots, resolved, n) matches Ok((refs, _)) && refs =~= stack.take(
                bits_below(mask, n) as int,
            )
        },
    decreases n,
{
    if n > 0 {
        lemma_branch_leads_back(stack, mask, path, placed, known, resolved, n - 1);
        lemma_bits_below_bound(mask, n - 1, 16);
        lemma_bits_below_bound(mask, n, 16);
        let before = branch_slots(stack, mask, path, placed, n - 1)->Ok_0;
        if has_bit(mask, n - 1) {
            let rlp = stack[bits_below(mask, n - 1) as int];
            assert(link_holds(rlp, path.push((n - 1) as u8), known));
            lemma_slot_leads_back(rlp, path.push((n - 1) as u8), placed, known, resolved);
        }
        let slots = branch_slots(stack, mask, path, placed, n)->Ok_0;
        assert(slots.drop_last() =~= before);
        lemma_slots_below(slots, before, resolved, n - 1);
    }
}

/// What the first slots of a branch lead to depends on those slots alone.
proof fn lemma_slots_below(
    a: Seq<SlotView>,
    b: Seq<SlotView>,
    resolved: Map<u32, Seq<u8>>,
    n: int,
)
    requires
        0 <= n <= a.len(),
        n <= b.len(),
        forall|i: int| 0 <= i < n ==> a[i] == b[i],
    ensures
        branch_of_slots(a, resolved, n) == branch_of_slots(b, resolved, n),
    decreases n,
{
    if n > 0 {
        lemma_slots_below(a, b, resolved, n - 1);
    }
}

/// A node whose references hold is written in a form that can be read and that leads back to it.
proof fn lemma_node_leads_back(
    path: Seq<u8>,
    node: NodeView,
    placed: Places,
    known: Map<Seq<u8>, Seq<u8>>,
    resolved: Map<u32, Seq<u8>>,
)
    requires
        node_linked(path, node, known),
        places_agree(placed, known, resolved),
        node matches NodeView::Leaf { value, .. } ==> value.len() <= u32::MAX,
    ensures
        cold_form(path, node, placed) matches Ok(cold) && node_fits(cold) && trie_form(
            cold,
            resolved,
        ) == Ok::<_, ColdError>(node),
{
    match node {
        NodeView::EmptyRoot => {},
        NodeView::Leaf { .. } => {},
        NodeView::Extension { key, child } => {
            lemma_slot_leads_back(child, path + key, placed, known, resolved);
        },
        NodeView::Branch { stack, state_mask } => {
            lemma_branch_leads_back(stack, state_mask, path, placed, known, resolved, 16);
            let slots = branch_slots(stack, state_mask, path, placed, 16)->Ok_0;
            let full = slots.push(SlotView::Empty);
            assert forall|i: int| 0 <= i < full.len() implies slot_fits(#[trigger] full[i]) by {
                if i < 16 {
                    assert(full[i] == slots[i]);
                }
            }
            lemma_slots_below(full, slots, resolved, 16);
            lemma_branch_of_slots(slots, resolved, 16);
            let (refs, mask) = branch_of_slots(slots, resolved, 16)->Ok_0;
            assert forall|i: int| 0 <= i < 16 implies has_bit(mask, i) == has_bit(
                state_mask,
                i,
            ) by {
                assert(slot_fits(slots[i]));
            }
            lemma_masks_equal(mask, state_mask);
            assert(stack.take(bits_below(state_mask, 16) as int) =~= stack);
        },
    }
}

/// How far reading a body back has come when it has read `nodes`.
spec fn reached(nodes: Seq<(Seq<u8>, NodeView)>) -> Replay {
    Replay {
        offset: (laid_out(nodes)->Ok_0).0.len(),
        resolved: found(nodes),
        last: if nodes.len() == 0 {
            None
        } else {
            Some(
                (
                    (laid_out(nodes.drop_last())->Ok_0).0.len(),
                    node_reference(nodes.last().1),
                ),
            )
        },
    }
}

/// Each value's length can be written down.
pub open spec fn values_fit(nodes: Seq<(Seq<u8>, NodeView)>) -> bool {
    forall|i: int|
        0 <= i < nodes.len() ==> (#[trigger] nodes[i].1 matches NodeView::Leaf { value, .. }
            ==> value.len() <= u32::MAX)
}

/// Every node that has a reference has a place.
spec fn all_placed(placed: Places, known: Map<Seq<u8>, Seq<u8>>) -> bool {
    forall|path: Seq<u8>| #[trigger]
        known.contains_key(path) ==> path.len() <= MAX_NIBBLES && placed.contains_key(path)
}

/// The slots of a branch whose references hold can be made.
proof fn lemma_branch_slots_exist(
    stack: Seq<Seq<u8>>,
    mask: u16,
    path: Seq<u8>,
    placed: Places,
    known: Map<Seq<u8>, Seq<u8>>,
    n: int,
)
    requires
        0 <= n <= 16,
        node_linked(path, (NodeView::Branch { stack, state_mask: mask }), known),
        all_placed(placed, known),
    ensures
        branch_slots(stack, mask, path, placed, n) is Ok,
    decreases n,
{
    if n > 0 {
        lemma_branch_slots_exist(stack, mask, path, placed, known, n - 1);
        lemma_bits_below_bound(mask, n, 16);
        if has_bit(mask, n - 1) {
            let rlp = stack[bits_below(mask, n - 1) as int];
            assert(link_holds(rlp, path.push((n - 1) as u8), known));
        }
    }
}

/// Nodes that come children first, with references that hold, can be laid out.
pub proof fn lemma_linked_nodes_are_laid_out(nodes: Seq<(Seq<u8>, NodeView)>)
    requires
        linked(nodes),
    ensures
        laid_out(nodes) is Ok,
{
    lemma_layout_exists(nodes);
}

/// Consistent nodes can be laid out, and each then has its place.
proof fn lemma_layout_exists(nodes: Seq<(Seq<u8>, NodeView)>)
    requires
        linked(nodes),
    ensures
        laid_out(nodes) matches Ok((_, placed)) && all_placed(placed, references(nodes)),
    decreases nodes.len(),
{
    if nodes.len() > 0 {
        let init = nodes.drop_last();
        let (path, node) = nodes.last();
        lemma_layout_exists(init);
        let placed = (laid_out(init)->Ok_0).1;
        match node {
            NodeView::Branch { stack, state_mask } => {
                lemma_branch_slots_exist(stack, state_mask, path, placed, references(init), 16);
            },
            _ => {},
        }
    }
}

/// The body of consistent nodes.
spec fn body_of(nodes: Seq<(Seq<u8>, NodeView)>) -> Seq<u8> {
    (laid_out(nodes)->Ok_0).0
}

/// One node more makes the body longer.
proof fn lemma_body_grows(nodes: Seq<(Seq<u8>, NodeView)>)
    requires
        linked(nodes),
        nodes.len() > 0,
    ensures
        body_of(nodes.drop_last()).len() < body_of(nodes).len(),
        body_of(nodes).take(body_of(nodes.drop_last()).len() as int) == body_of(nodes.drop_last()),
{
    lemma_layout_exists(nodes);
    lemma_layout_exists(nodes.drop_last());
    let before = body_of(nodes.drop_last());
    let placed = (laid_out(nodes.drop_last())->Ok_0).1;
    let cold = cold_form(nodes.last().0, nodes.last().1, placed)->Ok_0;
    assert((before + node_bytes(cold)).take(before.len() as int) =~= before);
}

/// Where a node stands, its reference is found.
proof fn lemma_found(nodes: Seq<(Seq<u8>, NodeView)>)
    requires
        linked(nodes),
        body_of(nodes).len() <= u32::MAX,
    ensures
        laid_out(nodes) matches Ok((_, placed)) && places_agree(
            placed,
            references(nodes),
            found(nodes),
        ),
        forall|at: u32| #[trigger] found(nodes).contains_key(at) ==> at < body_of(nodes).len(),
    decreases nodes.len(),
{
    lemma_layout_exists(nodes);
    if nodes.len() > 0 {
        let init = nodes.drop_last();
        lemma_body_grows(nodes);
        lemma_found(init);
        let path = nodes.last().0;
        let placed = (laid_out(init)->Ok_0).1;
        let all = (laid_out(nodes)->Ok_0).1;
        assert forall|p: Seq<u8>| #[trigger] references(nodes).contains_key(p) implies {
            &&& p.len() <= MAX_NIBBLES
            &&& all.contains_key(p)
            &&& found(nodes).contains_key(all[p].0)
            &&& found(nodes)[all[p].0] == references(nodes)[p]
        } by {
            if p != path {
                assert(references(init).contains_key(p));
                assert(all[p] == placed[p]);
                assert(found(init).contains_key(placed[p].0));
            }
        }
    }
}

/// Reading back a body that starts with consistent nodes comes to the end of those nodes.
proof fn lemma_body_reads_back(nodes: Seq<(Seq<u8>, NodeView)>, body: Seq<u8>, limit: nat)
    requires
        linked(nodes),
        values_fit(nodes),
        body_of(nodes).len() <= limit <= body.len(),
        body.take(body_of(nodes).len() as int) == body_of(nodes),
        body_of(nodes).len() <= u32::MAX,
    ensures
        replayed(body, limit, replay_start()) == replayed(body, limit, reached(nodes)),
    decreases nodes.len(),
{
    if nodes.len() == 0 {
        assert(reached(nodes) == replay_start());
    } else {
        let init = nodes.drop_last();
        lemma_body_grows(nodes);
        let before = body_of(init);
        let bytes = body_of(nodes);
        assert(body.take(before.len() as int) =~= body.take(bytes.len() as int).take(
            before.len() as int,
        ));
        assert(values_fit(init)) by {
            assert forall|i: int| 0 <= i < init.len() implies (#[trigger] init[i].1 matches
                NodeView::Leaf { value, .. } ==> value.len() <= u32::MAX) by {
                assert(init[i].1 == nodes[i].1);
            }
        }
        lemma_body_reads_back(init, body, limit);
        lemma_next_node_reads_back(nodes, body, limit);
    }
}

/// Reading on from the end of all nodes but the last comes to the end of the last.
proof fn lemma_next_node_reads_back(
    nodes: Seq<(Seq<u8>, NodeView)>,
    body: Seq<u8>,
    limit: nat,
)
    requires
        linked(nodes),
        nodes.len() > 0,
        values_fit(nodes),
        body_of(nodes).len() <= limit <= body.len(),
        body.take(body_of(nodes).len() as int) == body_of(nodes),
        body_of(nodes).len() <= u32::MAX,
    ensures
        replayed(body, limit, reached(nodes.drop_last())) == replayed(
            body,
            limit,
            reached(nodes),
        ),
{
    let init = nodes.drop_last();
    let (path, node) = nodes.last();
    let before = body_of(init);
    lemma_body_grows(nodes);
    lemma_layout_exists(init);
    lemma_layout_exists(nodes);
    lemma_found(init);
    let placed = (laid_out(init)->Ok_0).1;
    assert(nodes[nodes.len() - 1].1 == node);
    lemma_node_leads_back(path, node, placed, references(init), found(init));
    let cold = cold_form(path, node, placed)->Ok_0;
    let bytes = node_bytes(cold);
    let rlp = node_reference(node);
    assert(body_of(nodes) == before + bytes);
    let rest = body.skip(body_of(nodes).len() as int);
    lemma_rest_of_body(before, bytes, body);
    lemma_node_round_trip(cold, rest);
    lemma_replay_step(body, limit, reached(init), cold, bytes.len(), rlp);
}

/// What follows the first part of a body.
proof fn lemma_rest_of_body(before: Seq<u8>, bytes: Seq<u8>, body: Seq<u8>)
    requires
        before.len() + bytes.len() <= body.len(),
        body.take((before + bytes).len() as int) == before + bytes,
    ensures
        body.skip(before.len() as int) == bytes + body.skip((before + bytes).len() as int),
{
    let n = (before + bytes).len() as int;
    assert(body =~= body.take(n) + body.skip(n));
    assert(body.skip(before.len() as int) =~= bytes + body.skip(n));
}

/// One step of reading back.
proof fn lemma_replay_step(
    body: Seq<u8>,
    limit: nat,
    state: Replay,
    node: ColdView,
    size: nat,
    rlp: Seq<u8>,
)
    requires
        state.offset < limit,
        node_of_bytes(body.skip(state.offset as int)) == Ok::<_, ColdError>((node, size)),
        cold_reference(node, state.resolved) == Ok::<_, ColdError>(rlp),
        size > 0,
    ensures
        replayed(body, limit, state) == replayed(
            body,
            limit,
            (Replay {
                offset: state.offset + size,
                resolved: state.resolved.insert(low32(state.offset), rlp),
                last: Some((state.offset, rlp)),
            }),
        ),
{
}

/// A body made of nodes that come children first, with references that hold, reads back to the
/// hash of its root.
pub proof fn lemma_body_round_trip(nodes: Seq<(Seq<u8>, NodeView)>, hash: Seq<u8>)
    requires
        linked(nodes),
        nodes.len() > 0,
        hash_in(node_reference(nodes.last().1)) == Some(hash),
        laid_out(nodes) matches Ok((body, _)) ==> body.len() <= u32::MAX,
    ensures
        laid_out(nodes) matches Ok((body, placed)) && {
            let (root_offset, root_size) = placed[nodes.last().0];
            &&& root_offset + root_size == body.len()
            &&& root_of_body(body, BlobHeader { root_offset, root_size }) == Ok::<_, ColdError>(
                hash,
            )
        },
{
    lemma_layout_exists(nodes);
    lemma_root_place(nodes);
    let body = body_of(nodes);
    lemma_values_fit(nodes);
    assert(body.take(body.len() as int) =~= body);
    lemma_body_reads_back(nodes, body, body.len());
    lemma_replay_ends(body, body.len(), reached(nodes));
}

/// The root is the last node of a body, and ends where the body ends.
proof fn lemma_root_place(nodes: Seq<(Seq<u8>, NodeView)>)
    requires
        linked(nodes),
        nodes.len() > 0,
        body_of(nodes).len() <= u32::MAX,
    ensures
        ({
            let (root_offset, root_size) = (laid_out(nodes)->Ok_0).1[nodes.last().0];
            &&& root_offset == body_of(nodes.drop_last()).len()
            &&& root_offset + root_size == body_of(nodes).len()
        }),
{
    lemma_layout_exists(nodes);
    lemma_layout_exists(nodes.drop_last());
    lemma_body_grows(nodes);
}

/// At the limit reading ends.
proof fn lemma_replay_ends(body: Seq<u8>, limit: nat, state: Replay)
    requires
        state.offset >= limit,
    ensures
        replayed(body, limit, state) == Ok::<_, ColdError>(state),
{
}

/// In a body that is not too long, neither is any value.
proof fn lemma_values_fit(nodes: Seq<(Seq<u8>, NodeView)>)
    requires
        linked(nodes),
        body_of(nodes).len() <= u32::MAX,
    ensures
        values_fit(nodes),
    decreases nodes.len(),
{
    if nodes.len() > 0 {
        let init = nodes.drop_last();
        lemma_body_grows(nodes);
        lemma_layout_exists(nodes);
        lemma_layout_exists(init);
        lemma_values_fit(init);
        assert forall|i: int| 0 <= i < nodes.len() implies (#[trigger] nodes[i].1 matches
            NodeView::Leaf { value, .. } ==> value.len() <= u32::MAX) by {
            if i < init.len() {
                assert(init[i].1 == nodes[i].1);
            }
        }
    }
}

/// What is read is what was written: a blob made of nodes that come children first, with
/// references that hold, reads back to the hash of its root through its stub, whatever stands
/// before and after it in the file.
pub proof fn lemma_blob_round_trip(
    nodes: Seq<(Seq<u8>, NodeView)>,
    hash: Seq<u8>,
    before: Seq<u8>,
    after: Seq<u8>,
)
    requires
        linked(nodes),
        nodes.len() > 0,
        hash_in(node_reference(nodes.last().1)) == Some(hash),
        laid_out(nodes) matches Ok((body, _)) ==> body.len() <= u32::MAX,
        before.len() <= u64::MAX,
    ensures
        blob_of(nodes, before.len() as u64) matches Ok((bytes, stub)) && {
            &&& stub.blob_offset == before.len()
            &&& bytes.len() == HEADER_LEN + stub.root_in_blob + stub.root_size
            &&& root_in_file(before + bytes + after, stub) == Ok::<_, ColdError>(hash)
        },
{
    lemma_body_round_trip(nodes, hash);
    let (body, placed) = laid_out(nodes)->Ok_0;
    let (root_offset, root_size) = placed[nodes.last().0];
    let header = BlobHeader { root_offset, root_size };
    let bytes = header_bytes(header) + body;
    let file = before + bytes + after;
    assert(file.skip(before.len() as int) =~= header_bytes(header) + (body + after));
    lemma_blob_in_file(header, body, after);
}

/// A blob whose body ends with its root node reads back to the root of that body.
proof fn lemma_blob_in_file(header: BlobHeader, body: Seq<u8>, after: Seq<u8>)
    requires
        header.root_offset + header.root_size == body.len(),
    ensures
        header_bytes(header).len() == HEADER_LEN,
        root_of_blob(header_bytes(header) + (body + after)) == root_of_body(body, header),
{
    lemma_header_round_trip(header, body + after);
    let head = header_bytes(header);
    let bytes = head + (body + after);
    let end = HEADER_LEN + header.root_offset + header.root_size;
    assert(bytes.subrange(HEADER_LEN as int, end) =~= body);
}

} // verus!
