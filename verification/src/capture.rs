//! Taking a subtree's nodes out of a proof: those under the subtree's path, decoded, children
//! first, and checked against the subtree's hash.
use vstd::multiset::Multiset;
use vstd::prelude::*;

use crate::cold_file::nodes_view;
use crate::key_order::{ascending, key_under, keys_under, lemma_run_is_all, seek};
use crate::nibbles::{
    depth_first_before, lemma_depth_first_irreflexive, lemma_depth_first_total,
    lemma_depth_first_transitive, pack_seek_key, splits_before, starts_with, Nibbles, WalkOrder,
};
use crate::outside::{decode_trie_node, decoded_node, node_reference, trie_node_rlp};
use crate::primitives::{same_hash, B256};
use crate::trie_node::{hash_in, stack_covers_mask, stack_matches_mask, NodeView, TrieNode};

verus! {

/// Why a subtree could not be captured.
#[derive(Debug, Clone, Copy, PartialEq, Eq, Structural)]
pub enum CaptureError {
    /// A node of the proof does not decode.
    UndecodableNode,
    /// The proof has no node under the subtree's path.
    NoProofNodes,
    /// The root is too short to have a hash.
    RootNotHashed,
    /// The root has another hash than the subtree.
    RootHashMismatch,
}

/// The keys under a prefix that a table holds, in order.
pub fn scan_leaf_keys(prefix: &Nibbles, keys: &[B256]) -> (found: Vec<B256>)
    requires
        ascending(keys@),
    ensures
        found@ == keys_under(keys@, prefix@),
{
    proof {
        use_type_invariant(prefix);
    }
    let start: usize = seek(keys, &pack_seek_key(prefix));
    let mut at: usize = start;
    let mut found: Vec<B256> = Vec::new();
    let mut more: bool = true;
    while more && at < keys.len()
        invariant
            start <= at <= keys@.len(),
            found@ == keys@.subrange(start as int, at as int),
            forall|i: int| start <= i < at ==> key_under(#[trigger] keys@[i], prefix@),
            !more ==> at < keys@.len() && !key_under(keys@[at as int], prefix@),
        decreases keys.len() - at + (if more { 1nat } else { 0 }),
    {
        more = collect_leaf_key(prefix, &keys[at], &mut found);
        if more {
            assert(keys@.subrange(start as int, at + 1) =~= keys@.subrange(
                start as int,
                at as int,
            ).push(keys@[at as int]));
            at = at + 1;
        }
    }
    proof {
        lemma_run_is_all(keys@, prefix@, start as int, at as int);
    }
    found
}

/// Takes the next key of a table if it is under `prefix`; if not, there are no more.
pub fn collect_leaf_key(prefix: &Nibbles, key: &B256, found: &mut Vec<B256>) -> (more: bool)
    ensures
        more == key_under(*key, prefix@),
        final(found)@ == (if more {
            old(found)@.push(*key)
        } else {
            old(found)@
        }),
{
    if !Nibbles::unpack(key).starts_with(prefix) {
        return false;
    }
    found.push(*key);
    true
}

/// A node with its path, as the library holds it.
pub type PathNode = (Nibbles, TrieNode);

/// The nodes come children first: none stands before one that should come earlier.
pub open spec fn post_ordered(nodes: Seq<(Seq<u8>, NodeView)>) -> bool {
    forall|i: int, j: int|
        0 <= i < j < nodes.len() ==> !depth_first_before(
            (#[trigger] nodes[j]).0,
            (#[trigger] nodes[i]).0,
        )
}

/// No path has two nodes.
pub open spec fn distinct_paths(nodes: Seq<(Seq<u8>, NodeView)>) -> bool {
    forall|i: int, j: int|
        0 <= i < j < nodes.len() ==> (#[trigger] nodes[i]).0 != (#[trigger] nodes[j]).0
}

/// In nodes that come children first, whatever stands below a node comes before it.
pub proof fn lemma_children_first(nodes: Seq<(Seq<u8>, NodeView)>, child: int, parent: int)
    requires
        post_ordered(nodes),
        0 <= child < nodes.len(),
        0 <= parent < nodes.len(),
        starts_with(nodes[child].0, nodes[parent].0),
        nodes[child].0.len() > nodes[parent].0.len(),
    ensures
        child < parent,
{
    let a = nodes[child].0;
    let b = nodes[parent].0;
    assert(splits_before(a, b, b.len() as int));
    if child > parent {
        assert(!depth_first_before(nodes[child].0, nodes[parent].0));
    }
}

/// The paths and nodes of a proof that stand at or below `path`.
pub open spec fn nodes_under(
    proof_nodes: Seq<(Nibbles, Vec<u8>)>,
    path: Seq<u8>,
) -> Seq<(Nibbles, Vec<u8>)> {
    proof_nodes.filter(|node: (Nibbles, Vec<u8>)| starts_with(node.0@, path))
}

/// Every one of these nodes decodes.
pub open spec fn all_decode(kept: Seq<(Nibbles, Vec<u8>)>) -> bool {
    forall|i: int| 0 <= i < kept.len() ==> decoded_node((#[trigger] kept[i]).1@) is Some
}

/// What these nodes decode to.
pub open spec fn decoded(kept: Seq<(Nibbles, Vec<u8>)>) -> Seq<(Seq<u8>, NodeView)> {
    Seq::new(kept.len(), |i: int| (kept[i].0@, decoded_node(kept[i].1@)->0))
}

/// `nodes` are the nodes of a proof at or below `path`, children first.
pub open spec fn captured(
    nodes: Seq<(Seq<u8>, NodeView)>,
    proof_nodes: Seq<(Nibbles, Vec<u8>)>,
    path: Seq<u8>,
) -> bool {
    &&& all_decode(nodes_under(proof_nodes, path))
    &&& nodes.to_multiset() == decoded(nodes_under(proof_nodes, path)).to_multiset()
    &&& post_ordered(nodes)
}

/// What holds of the root of captured nodes: it has the hash it should have, or why not.
pub open spec fn root_check(nodes: Seq<(Seq<u8>, NodeView)>, hash: Seq<u8>) -> Result<
    (),
    CaptureError,
> {
    match hash_in(node_reference(nodes.last().1)) {
        None => Err(CaptureError::RootNotHashed),
        Some(found) => if found == hash {
            Ok(())
        } else {
            Err(CaptureError::RootHashMismatch)
        },
    }
}

/// Checks the hash of the last node, the root, against the hash that the subtree was found with.
pub fn verify_root_hash(nodes: &[PathNode], hash: &B256) -> (r: Result<(), CaptureError>)
    requires
        nodes@.len() > 0,
        stack_covers_mask(nodes@.last().1@),
    ensures
        r == root_check(nodes_view(nodes@), hash@),
{
    let root: &TrieNode = &nodes[nodes.len() - 1].1;
    assert(nodes_view(nodes@).last().1 == root@);
    match trie_node_rlp(root).as_hash() {
        None => Err(CaptureError::RootNotHashed),
        Some(found) => {
            if same_hash(&found, hash) {
                Ok(())
            } else {
                Err(CaptureError::RootHashMismatch)
            }
        },
    }
}

/// Decodes the nodes of a proof that stand at or below `path`.
fn decode_under(proof_nodes: &[(Nibbles, Vec<u8>)], path: &Nibbles) -> (r: Result<
    Vec<PathNode>,
    CaptureError,
>)
    ensures
        match r {
            Ok(nodes) => {
                &&& all_decode(nodes_under(proof_nodes@, path@))
                &&& nodes_view(nodes@) == decoded(nodes_under(proof_nodes@, path@))
                &&& forall|i: int|
                    0 <= i < nodes@.len() ==> stack_matches_mask((#[trigger] nodes@[i]).1@)
            },
            Err(e) => e == CaptureError::UndecodableNode && !all_decode(
                nodes_under(proof_nodes@, path@),
            ),
        },
{
    let ghost under = |node: (Nibbles, Vec<u8>)| starts_with(node.0@, path@);
    let mut nodes: Vec<PathNode> = Vec::new();
    let mut i: usize = 0;
    proof {
        reveal(Seq::filter);
        assert(proof_nodes@.take(0).filter(under) =~= Seq::empty());
        assert(nodes_view(nodes@) =~= decoded(proof_nodes@.take(0).filter(under)));
    }
    while i < proof_nodes.len()
        invariant
            i <= proof_nodes@.len(),
            under == (|node: (Nibbles, Vec<u8>)| starts_with(node.0@, path@)),
            all_decode(proof_nodes@.take(i as int).filter(under)),
            nodes_view(nodes@) == decoded(proof_nodes@.take(i as int).filter(under)),
            forall|k: int| 0 <= k < nodes@.len() ==> stack_matches_mask((#[trigger] nodes@[k]).1@),
        decreases proof_nodes.len() - i,
    {
        let ghost before = proof_nodes@.take(i as int).filter(under);
        let ghost after = proof_nodes@.take(i + 1).filter(under);
        let ghost held = nodes@;
        proof {
            reveal(Seq::filter);
            assert(proof_nodes@.take(i + 1).drop_last() =~= proof_nodes@.take(i as int));
        }
        if proof_nodes[i].0.starts_with(path) {
            assert(after == before.push(proof_nodes@[i as int]));
            match decode_trie_node(proof_nodes[i].1.as_slice()) {
                Err(_) => {
                    proof {
                        lemma_kept_prefix(proof_nodes@, under, i + 1);
                        assert(after[before.len() as int] == proof_nodes@[i as int]);
                        let all = proof_nodes@.filter(under);
                        assert(all[before.len() as int] == after[before.len() as int]);
                    }
                    return Err(CaptureError::UndecodableNode);
                },
                Ok(node) => {
                    let ghost shown = node@;
                    nodes.push((proof_nodes[i].0.clone(), node));
                    proof {
                        assert(nodes_view(nodes@) =~= nodes_view(held).push(
                            (proof_nodes@[i as int].0@, shown),
                        ));
                        assert(nodes_view(nodes@) =~= decoded(after));
                        assert forall|k: int| 0 <= k < after.len() implies decoded_node(
                            (#[trigger] after[k]).1@,
                        ) is Some by {
                            if k < before.len() {
                                assert(after[k] == before[k]);
                            }
                        }
                    }
                },
            }
        }
        i = i + 1;
    }
    assert(proof_nodes@.take(i as int) =~= proof_nodes@);
    Ok(nodes)
}

/// What a filter keeps of the start of a sequence starts what it keeps of all of it.
proof fn lemma_kept_prefix(
    s: Seq<(Nibbles, Vec<u8>)>,
    keep: spec_fn((Nibbles, Vec<u8>)) -> bool,
    n: int,
)
    requires
        0 <= n <= s.len(),
    ensures
        s.take(n).filter(keep).len() <= s.filter(keep).len(),
        forall|i: int|
            0 <= i < s.take(n).filter(keep).len() ==> s.take(n).filter(keep)[i] == s.filter(
                keep,
            )[i],
    decreases s.len(),
{
    reveal(Seq::filter);
    if n == s.len() {
        assert(s.take(n) =~= s);
    } else {
        assert(s.drop_last().take(n) =~= s.take(n));
        lemma_kept_prefix(s.drop_last(), keep, n);
    }
}

/// The nodes come children first.
pub open spec fn sorted_nodes(nodes: Seq<PathNode>) -> bool {
    forall|i: int, j: int|
        0 <= i < j < nodes.len() ==> !depth_first_before(
            (#[trigger] nodes[j]).0@,
            (#[trigger] nodes[i]).0@,
        )
}

/// Puts nodes in post-order: children before parents, siblings in ascending order.
pub fn sort_post_order(nodes: Vec<PathNode>) -> (sorted: Vec<PathNode>)
    ensures
        sorted_nodes(sorted@),
        sorted@.to_multiset() == nodes@.to_multiset(),
        sorted@.len() == nodes@.len(),
    decreases nodes@.len(),
{
    let n: usize = nodes.len();
    if n <= 1 {
        return nodes;
    }
    let ghost all = nodes@;
    let mut left: Vec<PathNode> = nodes;
    let right: Vec<PathNode> = left.split_off(n / 2);
    proof {
        assert(all =~= left@ + right@);
        vstd::seq_lib::lemma_multiset_commutative(left@, right@);
    }
    let left: Vec<PathNode> = sort_post_order(left);
    let right: Vec<PathNode> = sort_post_order(right);
    merge(left, right)
}

/// `later` may come after all of `nodes`.
spec fn after_all(nodes: Seq<PathNode>, later: PathNode) -> bool {
    forall|i: int| 0 <= i < nodes.len() ==> !depth_first_before(
        later.0@,
        (#[trigger] nodes[i]).0@,
    )
}

/// The nodes in the opposite order.
fn reverse_nodes(nodes: Vec<PathNode>) -> (r: Vec<PathNode>)
    ensures
        r@ == nodes@.reverse(),
{
    let ghost all = nodes@;
    let mut nodes: Vec<PathNode> = nodes;
    let mut r: Vec<PathNode> = Vec::new();
    while nodes.len() > 0
        invariant
            r@.len() + nodes@.len() == all.len(),
            nodes@ == all.take(nodes@.len() as int),
            forall|i: int| 0 <= i < r@.len() ==> #[trigger] r@[i] == all[all.len() - 1 - i],
        decreases nodes.len(),
    {
        let ghost before = nodes@;
        match nodes.pop() {
            None => {},
            Some(node) => {
                assert(nodes@ =~= all.take(nodes@.len() as int));
                assert(node == all[before.len() - 1]);
                r.push(node);
            },
        }
    }
    assert(r@ =~= all.reverse());
    r
}

/// What comes last of sorted nodes may come after all of them, also after what comes earlier.
proof fn lemma_last_after(nodes: Seq<PathNode>, later: PathNode)
    requires
        sorted_nodes(nodes),
        nodes.len() > 0,
        !depth_first_before(later.0@, nodes.last().0@),
    ensures
        after_all(nodes, later),
{
    assert forall|i: int| 0 <= i < nodes.len() implies !depth_first_before(
        later.0@,
        (#[trigger] nodes[i]).0@,
    ) by {
        let x = nodes[i].0@;
        let y = nodes.last().0@;
        let z = later.0@;
        if i < nodes.len() - 1 {
            assert(!depth_first_before(nodes[nodes.len() - 1].0@, nodes[i].0@));
            if depth_first_before(z, x) {
                lemma_depth_first_total(x, y);
                if x != y {
                    lemma_depth_first_transitive(z, x, y);
                }
            }
        }
    }
}

/// Merges two sorted runs of nodes into one.
fn merge(left: Vec<PathNode>, right: Vec<PathNode>) -> (merged: Vec<PathNode>)
    requires
        sorted_nodes(left@),
        sorted_nodes(right@),
        left@.len() + right@.len() <= usize::MAX,
    ensures
        sorted_nodes(merged@),
        merged@.to_multiset() == left@.to_multiset().add(right@.to_multiset()),
        merged@.len() == left@.len() + right@.len(),
{
    broadcast use vstd::seq_lib::group_to_multiset_ensures;

    let ghost a = left@;
    let ghost b = right@;
    let mut left: Vec<PathNode> = left;
    let mut right: Vec<PathNode> = right;
    let mut back: Vec<PathNode> = Vec::new();
    proof {
        assert(back@.to_multiset() =~= Multiset::empty());
        assert(back@.to_multiset().add(left@.to_multiset()).add(right@.to_multiset())
            =~= a.to_multiset().add(b.to_multiset()));
    }
    while left.len() > 0 || right.len() > 0
        invariant
            sorted_nodes(left@),
            sorted_nodes(right@),
            left@.len() + right@.len() + back@.len() == a.len() + b.len(),
            sorted_nodes(back@.reverse()),
            forall|i: int|
                0 <= i < back@.len() ==> after_all(left@, #[trigger] back@[i]) && after_all(
                    right@,
                    back@[i],
                ),
            back@.to_multiset().add(left@.to_multiset()).add(right@.to_multiset())
                == a.to_multiset().add(b.to_multiset()),
        decreases left.len() + right.len(),
    {
        let take_left: bool = if right.len() == 0 {
            true
        } else if left.len() == 0 {
            false
        } else {
            match left[left.len() - 1].0.depth_first_order(&right[right.len() - 1].0) {
                WalkOrder::Before => false,
                _ => true,
            }
        };
        let ghost l = left@;
        let ghost r = right@;
        let ghost held = back@;
        let ghost rest = if take_left {
            l.drop_last()
        } else {
            r.drop_last()
        };
        let popped: Option<PathNode> = if take_left {
            left.pop()
        } else {
            right.pop()
        };
        match popped {
            None => {},
            Some(node) => {
                proof {
                    if take_left {
                        assert(l =~= left@.push(node));
                        lemma_depth_first_irreflexive(node.0@);
                        lemma_last_after(l, node);
                        if r.len() > 0 {
                            lemma_depth_first_total(node.0@, r.last().0@);
                            lemma_last_after(r, node);
                        }
                    } else {
                        assert(r =~= right@.push(node));
                        lemma_depth_first_irreflexive(node.0@);
                        lemma_last_after(r, node);
                        if l.len() > 0 {
                            lemma_depth_first_total(node.0@, l.last().0@);
                            lemma_last_after(l, node);
                        }
                    }
                    lemma_still_after(l, r, left@, right@, held, node);
                }
                back.push(node);
                proof {
                    lemma_reverse_push(held, node);
                    vstd::seq_lib::to_multiset_build(held, node);
                    vstd::seq_lib::to_multiset_build(
                        if take_left {
                            left@
                        } else {
                            right@
                        },
                        node,
                    );
                    assert(held.to_multiset().insert(node).add(left@.to_multiset()).add(
                        right@.to_multiset(),
                    ) =~= held.to_multiset().add(l.to_multiset()).add(r.to_multiset()));
                }
            },
        }
    }
    proof {
        assert(left@ =~= Seq::empty());
        assert(right@ =~= Seq::empty());
        back@.lemma_reverse_to_multiset();
        assert(back@.to_multiset() =~= a.to_multiset().add(b.to_multiset()));
    }
    reverse_nodes(back)
}

/// What was put aside, and the node that is put aside next, may come after what is left.
proof fn lemma_still_after(
    l: Seq<PathNode>,
    r: Seq<PathNode>,
    left: Seq<PathNode>,
    right: Seq<PathNode>,
    held: Seq<PathNode>,
    node: PathNode,
)
    requires
        after_all(l, node),
        after_all(r, node),
        (l == left.push(node) && r == right) || (l == left && r == right.push(node)),
        forall|i: int|
            0 <= i < held.len() ==> after_all(l, #[trigger] held[i]) && after_all(r, held[i]),
        sorted_nodes(held.reverse()),
        sorted_nodes(l),
        sorted_nodes(r),
    ensures
        sorted_nodes(left),
        sorted_nodes(right),
        forall|i: int|
            0 <= i < held.push(node).len() ==> after_all(left, #[trigger] held.push(node)[i])
                && after_all(right, held.push(node)[i]),
        forall|i: int|
            0 <= i < held.len() ==> !depth_first_before((#[trigger] held[i]).0@, node.0@),
{
    assert forall|i: int, j: int| 0 <= i < j < left.len() implies !depth_first_before(
        (#[trigger] left[j]).0@,
        (#[trigger] left[i]).0@,
    ) by {
        assert(l[j] == left[j] && l[i] == left[i]);
    }
    assert forall|i: int, j: int| 0 <= i < j < right.len() implies !depth_first_before(
        (#[trigger] right[j]).0@,
        (#[trigger] right[i]).0@,
    ) by {
        assert(r[j] == right[j] && r[i] == right[i]);
    }
    assert forall|i: int| 0 <= i < held.push(node).len() implies after_all(
        left,
        #[trigger] held.push(node)[i],
    ) && after_all(right, held.push(node)[i]) by {
        let x = held.push(node)[i];
        assert(after_all(l, x) && after_all(r, x)) by {
            if i < held.len() {
                assert(x == held[i]);
            }
        }
        assert forall|k: int| 0 <= k < left.len() implies !depth_first_before(
            x.0@,
            (#[trigger] left[k]).0@,
        ) by {
            assert(l[k] == left[k]);
        }
        assert forall|k: int| 0 <= k < right.len() implies !depth_first_before(
            x.0@,
            (#[trigger] right[k]).0@,
        ) by {
            assert(r[k] == right[k]);
        }
    }
    assert forall|i: int| 0 <= i < held.len() implies !depth_first_before(
        (#[trigger] held[i]).0@,
        node.0@,
    ) by {
        assert(after_all(l, held[i]) && after_all(r, held[i]));
        if l == left.push(node) {
            assert(l[left.len() as int] == node);
        } else {
            assert(r[right.len() as int] == node);
        }
    }
}

/// A node that may come before all that is put aside goes to its front.
proof fn lemma_reverse_push(held: Seq<PathNode>, node: PathNode)
    requires
        sorted_nodes(held.reverse()),
        forall|i: int|
            0 <= i < held.len() ==> !depth_first_before((#[trigger] held[i]).0@, node.0@),
    ensures
        sorted_nodes(held.push(node).reverse()),
{
    let all = held.push(node).reverse();
    assert forall|i: int, j: int| 0 <= i < j < all.len() implies !depth_first_before(
        (#[trigger] all[j]).0@,
        (#[trigger] all[i]).0@,
    ) by {
        assert(all[j] == held[held.len() - j]);
        if i == 0 {
            assert(all[i] == node);
        } else {
            assert(all[i] == held.reverse()[i - 1]);
            assert(all[j] == held.reverse()[j - 1]);
        }
    }
}

/// The nodes of a subtree, taken out of a proof for its leaves: those at or below its path,
/// children first and the root last, with the hash that the subtree was found with.
pub fn capture_subtree(
    subtree_path: &Nibbles,
    hash: &B256,
    proof_nodes: &[(Nibbles, Vec<u8>)],
) -> (r: Result<Vec<PathNode>, CaptureError>)
    ensures
        r == Err::<Vec<PathNode>, _>(CaptureError::UndecodableNode) <==> !all_decode(
            nodes_under(proof_nodes@, subtree_path@),
        ),
        r == Err::<Vec<PathNode>, _>(CaptureError::NoProofNodes) <==> nodes_under(
            proof_nodes@,
            subtree_path@,
        ).len() == 0,
        all_decode(nodes_under(proof_nodes@, subtree_path@)) && nodes_under(
            proof_nodes@,
            subtree_path@,
        ).len() > 0 ==> exists|nodes: Seq<(Seq<u8>, NodeView)>| #[trigger]
            captured(nodes, proof_nodes@, subtree_path@) && match r {
                Ok(found) => nodes_view(found@) == nodes && root_check(nodes, hash@) is Ok,
                Err(e) => root_check(nodes, hash@) == Err::<(), _>(e),
            },
        r matches Ok(found) ==> found@.len() > 0,
{
    let nodes: Vec<PathNode> = match decode_under(proof_nodes, subtree_path) {
        Err(e) => return Err(e),
        Ok(nodes) => nodes,
    };
    let ghost kept = nodes_under(proof_nodes@, subtree_path@);
    let ghost found = nodes@;
    assert(nodes_view(found).len() == decoded(kept).len());
    if nodes.len() == 0 {
        return Err(CaptureError::NoProofNodes);
    }
    let sorted: Vec<PathNode> = sort_post_order(nodes);
    proof {
        lemma_view_multiset(sorted@, found);
        let shown = nodes_view(sorted@);
        assert forall|i: int, j: int| 0 <= i < j < shown.len() implies !depth_first_before(
            (#[trigger] shown[j]).0,
            (#[trigger] shown[i]).0,
        ) by {
            assert(shown[i].0 == sorted@[i].0@ && shown[j].0 == sorted@[j].0@);
        }
        assert(captured(shown, proof_nodes@, subtree_path@));
        let k = lemma_same_members(sorted@, found, sorted@.len() - 1);
        assert(stack_matches_mask(found[k].1@));
    }
    match verify_root_hash(sorted.as_slice(), hash) {
        Err(e) => Err(e),
        Ok(()) => Ok(sorted),
    }
}

/// What is in one order of some things is in any other.
proof fn lemma_same_members<T>(a: Seq<T>, b: Seq<T>, i: int) -> (k: int)
    requires
        a.to_multiset() == b.to_multiset(),
        0 <= i < a.len(),
    ensures
        a.len() == b.len(),
        0 <= k < b.len(),
        b[k] == a[i],
{
    a.to_multiset_ensures();
    b.to_multiset_ensures();
    assert(a.contains(a[i]));
    assert(a.to_multiset().count(a[i]) > 0);
    assert(b.to_multiset().count(a[i]) > 0);
    assert(b.contains(a[i]));
    choose|k: int| 0 <= k < b.len() && b[k] == a[i]
}

/// Nodes that are the same but for their order show the same but for their order.
proof fn lemma_view_multiset(a: Seq<PathNode>, b: Seq<PathNode>)
    requires
        a.to_multiset() == b.to_multiset(),
    ensures
        nodes_view(a).to_multiset() == nodes_view(b).to_multiset(),
    decreases a.len(),
{
    broadcast use vstd::seq_lib::group_to_multiset_ensures;

    a.to_multiset_ensures();
    b.to_multiset_ensures();
    assert(a.len() == b.len());
    if a.len() == 0 {
        assert(nodes_view(a) =~= nodes_view(b));
    } else {
        let x = a.last();
        let k = lemma_same_members(a, b, a.len() - 1);
        let init = a.drop_last();
        let rest = b.remove(k);
        assert(a =~= init.push(x));
        assert(init.to_multiset() =~= a.to_multiset().remove(x));
        lemma_view_multiset(init, rest);
        assert(nodes_view(a) =~= nodes_view(init).push(nodes_view(a).last()));
        assert(nodes_view(b).remove(k) =~= nodes_view(rest));
        assert(nodes_view(b)[k] == (x.0@, x.1@));
        let shown = nodes_view(b);
        assert(shown.remove(k).to_multiset() =~= shown.to_multiset().remove(shown[k]));
        assert(shown.contains(shown[k]));
        assert(nodes_view(a).to_multiset() =~= nodes_view(b).to_multiset());
    }
}

/// Where no path has two nodes, there is one order only in which they come children first.
pub proof fn lemma_post_order_unique(a: Seq<(Seq<u8>, NodeView)>, b: Seq<(Seq<u8>, NodeView)>)
    requires
        post_ordered(a),
        post_ordered(b),
        distinct_paths(a),
        a.to_multiset() == b.to_multiset(),
    ensures
        a == b,
    decreases a.len(),
{
    broadcast use vstd::seq_lib::group_to_multiset_ensures;

    a.to_multiset_ensures();
    b.to_multiset_ensures();
    assert(a.len() == b.len());
    if a.len() == 0 {
        assert(a =~= b);
    } else {
        let n = a.len() - 1;
        let x = a[n];
        let y = b[n];
        let i = lemma_same_members(a, b, n);
        let j = lemma_same_members(b, a, n);
        if x != y {
            assert(i < n && j < n);
            assert(!depth_first_before(b[n].0, b[i].0));
            assert(!depth_first_before(a[n].0, a[j].0));
            assert(a[j].0 != a[n].0);
            lemma_depth_first_total(x.0, y.0);
        }
        let c = a.drop_last();
        let d = b.drop_last();
        assert(a =~= c.push(x));
        assert(b =~= d.push(x));
        assert(c.to_multiset() =~= a.to_multiset().remove(x));
        assert(d.to_multiset() =~= b.to_multiset().remove(x));
        assert forall|i: int, j: int| 0 <= i < j < c.len() implies !depth_first_before(
            (#[trigger] c[j]).0,
            (#[trigger] c[i]).0,
        ) by {
            assert(c[j] == a[j] && c[i] == a[i]);
        }
        assert forall|i: int, j: int| 0 <= i < j < d.len() implies !depth_first_before(
            (#[trigger] d[j]).0,
            (#[trigger] d[i]).0,
        ) by {
            assert(d[j] == b[j] && d[i] == b[i]);
        }
        assert forall|i: int, j: int| 0 <= i < j < c.len() implies (#[trigger] c[i]).0 != (
        #[trigger] c[j]).0 by {
            assert(c[j] == a[j] && c[i] == a[i]);
        }
        lemma_post_order_unique(c, d);
    }
}

/// A node is decoded from the bytes that a proof has at its path.
pub open spec fn decoded_in(
    proof_nodes: Seq<(Nibbles, Vec<u8>)>,
    node: (Seq<u8>, NodeView),
) -> bool {
    exists|i: int|
        0 <= i < proof_nodes.len() && (#[trigger] proof_nodes[i]).0@ == node.0 && decoded_node(
            proof_nodes[i].1@,
        ) == Some(node.1)
}

/// The captured nodes are those of the proof whose path begins with the subtree's, each decoded
/// from its bytes and kept at its path, and no others.
pub proof fn lemma_captured_members(
    nodes: Seq<(Seq<u8>, NodeView)>,
    proof_nodes: Seq<(Nibbles, Vec<u8>)>,
    path: Seq<u8>,
)
    requires
        captured(nodes, proof_nodes, path),
    ensures
        forall|i: int|
            0 <= i < proof_nodes.len() && path.len() <= (#[trigger] proof_nodes[i]).0@.len()
                && proof_nodes[i].0@.take(path.len() as int) == path ==> (decoded_node(
                proof_nodes[i].1@,
            ) matches Some(node) && nodes.contains((proof_nodes[i].0@, node))),
        forall|k: int|
            0 <= k < nodes.len() ==> path.len() <= (#[trigger] nodes[k]).0.len()
                && nodes[k].0.take(path.len() as int) == path && decoded_in(proof_nodes, nodes[k]),
        nodes.len() <= proof_nodes.len(),
{
    let keep = |node: (Nibbles, Vec<u8>)| starts_with(node.0@, path);
    let kept = nodes_under(proof_nodes, path);
    lemma_kept_of_proof(proof_nodes, keep);
    nodes.to_multiset_ensures();
    decoded(kept).to_multiset_ensures();
    assert forall|i: int|
        0 <= i < proof_nodes.len() && path.len() <= (#[trigger] proof_nodes[i]).0@.len()
            && proof_nodes[i].0@.take(path.len() as int) == path implies (decoded_node(
        proof_nodes[i].1@,
    ) matches Some(node) && nodes.contains((proof_nodes[i].0@, node))) by {
        assert forall|j: int| 0 <= j < path.len() implies proof_nodes[i].0@[j] == path[j] by {
            assert(proof_nodes[i].0@.take(path.len() as int)[j] == proof_nodes[i].0@[j]);
        }
        assert(keep(proof_nodes[i]));
        let m = choose|m: int| 0 <= m < kept.len() && kept[m] == proof_nodes[i];
        assert(decoded_node(kept[m].1@) is Some);
        let k = lemma_same_members(decoded(kept), nodes, m);
        assert(nodes[k] == decoded(kept)[m]);
    }
    assert forall|k: int| 0 <= k < nodes.len() implies path.len() <= (#[trigger] nodes[k]).0.len()
        && nodes[k].0.take(path.len() as int) == path && decoded_in(proof_nodes, nodes[k]) by {
        let m = lemma_same_members(nodes, decoded(kept), k);
        assert(decoded(kept)[m] == nodes[k]);
        assert(decoded_node(kept[m].1@) is Some);
        assert(keep(kept[m]));
        let i = choose|i: int| 0 <= i < proof_nodes.len() && proof_nodes[i] == kept[m];
        assert(nodes[k].0.take(path.len() as int) =~= path);
        assert(proof_nodes[i].0@ == nodes[k].0);
    }
}

/// What a filter keeps was there and passes it, and what passes it is kept.
proof fn lemma_kept_of_proof(
    s: Seq<(Nibbles, Vec<u8>)>,
    keep: spec_fn((Nibbles, Vec<u8>)) -> bool,
)
    ensures
        forall|i: int|
            0 <= i < s.len() && keep(#[trigger] s[i]) ==> s.filter(keep).contains(s[i]),
        forall|m: int|
            0 <= m < s.filter(keep).len() ==> keep(#[trigger] s.filter(keep)[m]) && s.contains(
                s.filter(keep)[m],
            ),
        s.filter(keep).len() <= s.len(),
    decreases s.len(),
{
    reveal(Seq::filter);
    if s.len() > 0 {
        let init = s.drop_last();
        lemma_kept_of_proof(init, keep);
        let before = init.filter(keep);
        let all = s.filter(keep);
        assert forall|i: int| 0 <= i < s.len() && keep(#[trigger] s[i]) implies all.contains(
            s[i],
        ) by {
            if i < init.len() {
                assert(init[i] == s[i]);
                let m = choose|m: int| 0 <= m < before.len() && before[m] == s[i];
                assert(all[m] == s[i]);
            } else {
                assert(all[all.len() - 1] == s[i]);
            }
        }
        assert forall|m: int| 0 <= m < all.len() implies keep(#[trigger] all[m]) && s.contains(
            all[m],
        ) by {
            if m < before.len() {
                assert(all[m] == before[m]);
                let i = choose|i: int| 0 <= i < init.len() && init[i] == before[m];
                assert(s[i] == all[m]);
            } else {
                assert(s[s.len() - 1] == all[m]);
            }
        }
    }
}

/// The root of captured nodes is accepted exactly where its reference holds the hash that the
/// subtree was found with; one without a hash and one with another are told apart.
pub proof fn lemma_root_accepted(nodes: Seq<(Seq<u8>, NodeView)>, hash: Seq<u8>)
    ensures
        root_check(nodes, hash) is Ok <==> hash_in(node_reference(nodes[nodes.len() - 1].1))
            == Some(hash),
        root_check(nodes, hash) == Err::<(), _>(CaptureError::RootNotHashed) <==> hash_in(
            node_reference(nodes[nodes.len() - 1].1),
        ) is None,
        root_check(nodes, hash) is Err && hash_in(node_reference(nodes[nodes.len() - 1].1)) is Some
            ==> root_check(nodes, hash) == Err::<(), _>(CaptureError::RootHashMismatch),
{
}

} // verus!
