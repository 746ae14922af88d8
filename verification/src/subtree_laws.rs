//! The way of a subtree into the cold file: what is captured of it is in the order in which it has
//! to be written, and what is written reads back.
use vstd::prelude::*;

use crate::capture::{
    captured, distinct_paths, lemma_children_first, post_ordered, root_check,
};
use crate::cold_file::{blob_of, laid_out, root_in_file};
use crate::cold_format::ColdError;
use crate::cold_laws::{lemma_blob_round_trip, link_holds, linked, node_linked, references};
use crate::nibbles::{is_path, starts_with, Nibbles};
use crate::outside::node_reference;
use crate::trie_node::{
    bits_below, has_bit, hash_in, is_reference, stack_matches_mask, NodeView,
};

verus! {

/// Among `nodes` is the one at `path` that a parent refers to by `rlp`.
pub open spec fn child_there(
    rlp: Seq<u8>,
    path: Seq<u8>,
    nodes: Seq<(Seq<u8>, NodeView)>,
) -> bool {
    &&& is_reference(rlp)
    &&& exists|j: int|
        0 <= j < nodes.len() && (#[trigger] nodes[j]).0 == path && (hash_in(rlp) is None ==> rlp
            == node_reference(nodes[j].1))
}

/// Among `nodes` are all children of the node at `path`.
pub open spec fn children_there(
    path: Seq<u8>,
    node: NodeView,
    nodes: Seq<(Seq<u8>, NodeView)>,
) -> bool {
    match node {
        NodeView::EmptyRoot => false,
        NodeView::Leaf { key, .. } => is_path(key),
        NodeView::Extension { key, child } => {
            &&& is_path(key)
            &&& key.len() > 0
            &&& child_there(child, path + key, nodes)
        },
        NodeView::Branch { stack, state_mask } => {
            &&& stack_matches_mask(node)
            &&& forall|n: int|
                0 <= n < 16 && #[trigger] has_bit(state_mask, n) ==> child_there(
                    stack[bits_below(state_mask, n) as int],
                    path.push(n as u8),
                    nodes,
                )
        },
    }
}

/// The nodes of a whole subtree, in any order: one per path, each with all its children.
pub open spec fn whole_subtree(nodes: Seq<(Seq<u8>, NodeView)>) -> bool {
    &&& distinct_paths(nodes)
    &&& forall|i: int|
        0 <= i < nodes.len() ==> is_path((#[trigger] nodes[i]).0) && children_there(
            nodes[i].0,
            nodes[i].1,
            nodes,
        )
}

/// Of nodes that have different paths, the reference of each is known by its path.
proof fn lemma_reference_known(nodes: Seq<(Seq<u8>, NodeView)>, n: int, j: int)
    requires
        distinct_paths(nodes),
        0 <= j < n <= nodes.len(),
    ensures
        references(nodes.take(n)).contains_key(nodes[j].0),
        references(nodes.take(n))[nodes[j].0] == node_reference(nodes[j].1),
    decreases n,
{
    let part = nodes.take(n);
    assert(part.drop_last() =~= nodes.take(n - 1));
    assert(part.last() == nodes[n - 1]);
    if j < n - 1 {
        lemma_reference_known(nodes, n - 1, j);
        assert(nodes[j].0 != nodes[n - 1].0);
    }
}

/// A child stands before its parent, so its reference is known there.
proof fn lemma_child_known(
    nodes: Seq<(Seq<u8>, NodeView)>,
    i: int,
    rlp: Seq<u8>,
    path: Seq<u8>,
)
    requires
        whole_subtree(nodes),
        post_ordered(nodes),
        0 <= i < nodes.len(),
        path.len() > nodes[i].0.len(),
        starts_with(path, nodes[i].0),
        child_there(rlp, path, nodes),
    ensures
        link_holds(rlp, path, references(nodes.take(i))),
{
    let j = choose|j: int|
        0 <= j < nodes.len() && (#[trigger] nodes[j]).0 == path && (hash_in(rlp) is None ==> rlp
            == node_reference(nodes[j].1));
    lemma_children_first(nodes, j, i);
    lemma_reference_known(nodes, i, j);
}

/// The nodes of a whole subtree that come children first can be written: every reference in them
/// holds when its turn comes.
pub proof fn lemma_post_order_is_linked(nodes: Seq<(Seq<u8>, NodeView)>, n: int)
    requires
        whole_subtree(nodes),
        post_ordered(nodes),
        0 <= n <= nodes.len(),
    ensures
        linked(nodes.take(n)),
    decreases n,
{
    if n > 0 {
        lemma_post_order_is_linked(nodes, n - 1);
        let part = nodes.take(n);
        assert(part.drop_last() =~= nodes.take(n - 1));
        assert(part.last() == nodes[n - 1]);
        let (path, node) = nodes[n - 1];
        let known = references(nodes.take(n - 1));
        assert(is_path(nodes[n - 1].0) && children_there(nodes[n - 1].0, nodes[n - 1].1, nodes));
        match node {
            NodeView::EmptyRoot => {},
            NodeView::Leaf { .. } => {},
            NodeView::Extension { key, child } => {
                lemma_child_known(nodes, n - 1, child, path + key);
            },
            NodeView::Branch { stack, state_mask } => {
                assert forall|b: int|
                    0 <= b < 16 && #[trigger] has_bit(state_mask, b) implies link_holds(
                    stack[bits_below(state_mask, b) as int],
                    path.push(b as u8),
                    known,
                ) by {
                    lemma_child_known(
                        nodes,
                        n - 1,
                        stack[bits_below(state_mask, b) as int],
                        path.push(b as u8),
                    );
                }
            },
        }
        assert(node_linked(path, node, known));
    }
}

/// A captured subtree whose nodes are all there is written and reads back to the hash that it was
/// found with, wherever its blob stands in the file.
pub proof fn lemma_captured_subtree_reads_back(
    nodes: Seq<(Seq<u8>, NodeView)>,
    proof_nodes: Seq<(Nibbles, Vec<u8>)>,
    path: Seq<u8>,
    hash: Seq<u8>,
    before: Seq<u8>,
    after: Seq<u8>,
)
    requires
        captured(nodes, proof_nodes, path),
        whole_subtree(nodes),
        nodes.len() > 0,
        root_check(nodes, hash) is Ok,
        laid_out(nodes) matches Ok((body, _)) ==> body.len() <= u32::MAX,
        before.len() <= u64::MAX,
    ensures
        blob_of(nodes, before.len() as u64) matches Ok((bytes, stub)) && root_in_file(
            before + bytes + after,
            stub,
        ) == Ok::<_, ColdError>(hash),
{
    lemma_post_order_is_linked(nodes, nodes.len() as int);
    assert(nodes.take(nodes.len() as int) =~= nodes);
    lemma_blob_round_trip(nodes, hash, before, after);
}

} // verus!
