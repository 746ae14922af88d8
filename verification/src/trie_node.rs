//! The nodes of a Merkle Patricia trie, held as plain values.
use vstd::prelude::*;
use vstd::slice::slice_to_vec;

use crate::be_bytes::push_bytes;
use crate::nibbles::Nibbles;
use crate::primitives::B256;

verus! {

/// The longest reference to a node: the length byte of a hash and its 32 bytes.
pub const MAX_RLP_NODE: usize = 33;

/// The byte that announces a 32-byte string.
pub const HASH_PREFIX: u8 = 0xa0;

/// Bit `n` of `mask` is set.
pub open spec fn has_bit(mask: u16, n: int) -> bool {
    mask & (1u16 << (n as u16)) != 0
}

/// How many of the lowest `n` bits of `mask` are set.
pub open spec fn bits_below(mask: u16, n: int) -> nat
    decreases n,
{
    if n <= 0 {
        0
    } else {
        bits_below(mask, n - 1) + (if has_bit(mask, n - 1) {
            1nat
        } else {
            0nat
        })
    }
}

/// Whether bit `n` of `mask` is set.
pub fn is_bit_set(mask: u16, n: u8) -> (r: bool)
    requires
        n < 16,
    ensures
        r == has_bit(mask, n as int),
{
    mask & (1u16 << (n as u16)) != 0
}

/// `mask` with bit `n` set.
pub fn with_bit(mask: u16, n: u8) -> (r: u16)
    requires
        n < 16,
    ensures
        r == mask | (1u16 << (n as u16)),
        forall|i: int| 0 <= i < 16 ==> #[trigger] has_bit(r, i) == (has_bit(mask, i) || i == n),
{
    proof {
        lemma_with_bit(mask, n as u16);
    }
    mask | (1u16 << (n as u16))
}

/// Setting a bit sets that bit and no other.
pub proof fn lemma_with_bit(mask: u16, n: u16)
    requires
        n < 16,
    ensures
        forall|i: int|
            0 <= i < 16 ==> #[trigger] has_bit(mask | (1u16 << n), i) == (has_bit(mask, i) || i
                == n),
{
    let set = mask | (1u16 << n);
    assert forall|i: int| 0 <= i < 16 implies #[trigger] has_bit(set, i) == (has_bit(mask, i) || i
        == n) by {
        let j = i as u16;
        assert((set & (1u16 << j) != 0) == ((mask & (1u16 << j) != 0) || j == n)) by (bit_vector)
            requires
                n < 16,
                j < 16,
                set == mask | (1u16 << n),
        ;
    }
}

/// Two masks with the same sixteen bits are the same mask.
pub proof fn lemma_masks_equal(a: u16, b: u16)
    requires
        forall|i: int| 0 <= i < 16 ==> has_bit(a, i) == has_bit(b, i),
    ensures
        a == b,
{
    if a != b {
        assert(exists|i: u16| i < 16 && (a & (1u16 << i) != 0) != (b & (1u16 << i) != 0)) by {
            let d = a ^ b;
            lemma_nonzero_has_bit(d);
            let i = choose|i: u16| i < 16 && #[trigger] (d & (1u16 << i)) != 0;
            assert((a & (1u16 << i) != 0) != (b & (1u16 << i) != 0)) by (bit_vector)
                requires
                    d == a ^ b,
                    i < 16,
                    d & (1u16 << i) != 0,
            ;
        }
        let i = choose|i: u16| i < 16 && (a & (1u16 << i) != 0) != (b & (1u16 << i) != 0);
        assert(has_bit(a, i as int) != has_bit(b, i as int));
    }
}

/// A mask that is not zero has a set bit.
proof fn lemma_nonzero_has_bit(d: u16)
    requires
        d != 0 || exists|a: u16, b: u16| a != b && d == a ^ b,
    ensures
        exists|i: u16| i < 16 && #[trigger] (d & (1u16 << i)) != 0,
{
    assert forall|a: u16, b: u16| a != b implies #[trigger] (a ^ b) != 0 by {
        assert(a != b ==> a ^ b != 0) by (bit_vector);
    }
    assert(d != 0 ==> (d & (1u16 << 0u16)) != 0 || (d & (1u16 << 1u16)) != 0 || (d & (1u16
        << 2u16)) != 0 || (d & (1u16 << 3u16)) != 0 || (d & (1u16 << 4u16)) != 0 || (d & (1u16
        << 5u16)) != 0 || (d & (1u16 << 6u16)) != 0 || (d & (1u16 << 7u16)) != 0 || (d & (1u16
        << 8u16)) != 0 || (d & (1u16 << 9u16)) != 0 || (d & (1u16 << 10u16)) != 0 || (d & (1u16
        << 11u16)) != 0 || (d & (1u16 << 12u16)) != 0 || (d & (1u16 << 13u16)) != 0 || (d & (1u16
        << 14u16)) != 0 || (d & (1u16 << 15u16)) != 0) by (bit_vector);
}

/// A mask without set bits is zero, and the other way round.
pub proof fn lemma_zero_mask()
    ensures
        forall|i: int| 0 <= i < 16 ==> !has_bit(0, i),
{
    assert forall|i: int| 0 <= i < 16 implies !has_bit(0, i) by {
        let j = i as u16;
        assert(0u16 & (1u16 << j) == 0) by (bit_vector);
    }
}

/// The number of set bits among the lowest `n` is at most `n`, and grows with `n`.
pub proof fn lemma_bits_below_bound(mask: u16, m: int, n: int)
    requires
        0 <= m <= n,
    ensures
        bits_below(mask, m) <= bits_below(mask, n) <= bits_below(mask, m) + (n - m),
        bits_below(mask, m) <= m,
    decreases n,
{
    if m < n {
        lemma_bits_below_bound(mask, m, n - 1);
    } else if m > 0 {
        lemma_bits_below_bound(mask, m - 1, n - 1);
    }
}

/// How many of the lowest `n` bits of `mask` are set.
pub fn count_bits_below(mask: u16, n: u8) -> (count: usize)
    requires
        n <= 16,
    ensures
        count == bits_below(mask, n as int),
        count <= n,
{
    let mut count: usize = 0;
    let mut i: u8 = 0;
    while i < n
        invariant
            i <= n <= 16,
            count == bits_below(mask, i as int),
            count <= i,
        decreases n - i,
    {
        if is_bit_set(mask, i) {
            count = count + 1;
        }
        i = i + 1;
    }
    count
}

/// The reference to a node whose encoding hashes to `hash`.
pub open spec fn word_rlp(hash: Seq<u8>) -> Seq<u8> {
    seq![HASH_PREFIX] + hash
}

/// The hash that a reference to a node holds, if it holds one.
pub open spec fn hash_in(rlp: Seq<u8>) -> Option<Seq<u8>> {
    if rlp.len() == MAX_RLP_NODE {
        Some(rlp.skip(1))
    } else {
        None
    }
}

/// A reference to a node as an encoder makes it: the node itself where it takes less than 32
/// bytes, its hash otherwise.
pub open spec fn is_reference(rlp: Seq<u8>) -> bool {
    rlp.len() < 32 || (rlp.len() == MAX_RLP_NODE && rlp[0] == HASH_PREFIX)
}

/// A reference that holds a hash is the reference made of that hash.
pub proof fn lemma_reference_of_hash(rlp: Seq<u8>)
    requires
        is_reference(rlp),
        hash_in(rlp) is Some,
    ensures
        word_rlp(hash_in(rlp)->0) == rlp,
{
    assert(word_rlp(hash_in(rlp)->0) =~= rlp);
}

/// A reference to a node: its encoding where that is short, its hash otherwise.
#[derive(PartialEq, Eq, Debug)]
pub struct RlpNode {
    bytes: Vec<u8>,
}

impl View for RlpNode {
    type V = Seq<u8>;

    closed spec fn view(&self) -> Seq<u8> {
        self.bytes@
    }
}

impl Clone for RlpNode {
    fn clone(&self) -> (copy: Self)
        ensures
            copy@ == self@,
    {
        proof {
            use_type_invariant(self);
        }
        let bytes: Vec<u8> = self.bytes.clone();
        assert(bytes@ =~= self.bytes@);
        RlpNode { bytes }
    }
}

impl RlpNode {
    /// A reference takes at most 33 bytes.
    #[verifier::type_invariant]
    pub open spec fn well_formed(self) -> bool {
        self@.len() <= MAX_RLP_NODE
    }

    /// The reference made of these bytes, unless there are too many.
    pub fn from_raw(data: &[u8]) -> (r: Option<Self>)
        ensures
            r is Some <==> data@.len() <= MAX_RLP_NODE,
            r matches Some(node) ==> node@ == data@,
    {
        if data.len() > MAX_RLP_NODE {
            None
        } else {
            let bytes: Vec<u8> = slice_to_vec(data);
            Some(RlpNode { bytes })
        }
    }

    /// The reference to a node whose encoding hashes to `hash`.
    pub fn word_rlp(hash: &B256) -> (r: Self)
        ensures
            r@ == word_rlp(hash@),
    {
        let mut bytes: Vec<u8> = Vec::new();
        bytes.push(HASH_PREFIX);
        push_bytes(&mut bytes, hash.as_slice());
        assert(bytes@ =~= word_rlp(hash@));
        RlpNode { bytes }
    }

    /// The hash that the reference holds, if it holds one.
    pub fn as_hash(&self) -> (r: Option<B256>)
        ensures
            match r {
                Some(hash) => hash_in(self@) == Some(hash@),
                None => hash_in(self@) is None,
            },
    {
        if self.bytes.len() != MAX_RLP_NODE {
            return None;
        }
        let mut hash: [u8; 32] = [0u8; 32];
        let mut i: usize = 0;
        while i < 32
            invariant
                i <= 32,
                self.bytes@.len() == 33,
                forall|j: int| 0 <= j < i ==> hash@[j] == self.bytes@[j + 1],
            decreases 32 - i,
        {
            hash[i] = self.bytes[i + 1];
            i = i + 1;
        }
        assert(hash@ =~= self@.skip(1));
        Some(hash)
    }

    /// The bytes of the reference.
    pub fn as_slice(&self) -> (s: &[u8])
        ensures
            s@ == self@,
            s@.len() <= MAX_RLP_NODE,
    {
        proof {
            use_type_invariant(self);
        }
        self.bytes.as_slice()
    }
}

/// A branch: the references to its children, in nibble order, and which nibbles they stand at.
#[derive(PartialEq, Eq, Debug)]
pub struct BranchNode {
    pub stack: Vec<RlpNode>,
    pub state_mask: u16,
}

/// A run of nibbles that leads to a single child.
#[derive(PartialEq, Eq, Debug)]
pub struct ExtensionNode {
    pub key: Nibbles,
    pub child: RlpNode,
}

/// The rest of a key, and its value.
#[derive(PartialEq, Eq, Debug)]
pub struct LeafNode {
    pub key: Nibbles,
    pub value: Vec<u8>,
}

/// A node of a trie.
#[derive(PartialEq, Eq, Debug)]
pub enum TrieNode {
    EmptyRoot,
    Branch(BranchNode),
    Extension(ExtensionNode),
    Leaf(LeafNode),
}

/// What a node is, as mathematical values.
pub enum NodeView {
    EmptyRoot,
    Branch { stack: Seq<Seq<u8>>, state_mask: u16 },
    Extension { key: Seq<u8>, child: Seq<u8> },
    Leaf { key: Seq<u8>, value: Seq<u8> },
}

/// The bytes of each reference.
pub open spec fn stack_view(stack: Seq<RlpNode>) -> Seq<Seq<u8>> {
    Seq::new(stack.len(), |i: int| stack[i]@)
}

impl View for TrieNode {
    type V = NodeView;

    open spec fn view(&self) -> NodeView {
        match self {
            TrieNode::EmptyRoot => NodeView::EmptyRoot,
            TrieNode::Branch(branch) => NodeView::Branch {
                stack: stack_view(branch.stack@),
                state_mask: branch.state_mask,
            },
            TrieNode::Extension(ext) => NodeView::Extension { key: ext.key@, child: ext.child@ },
            TrieNode::Leaf(leaf) => NodeView::Leaf { key: leaf.key@, value: leaf.value@ },
        }
    }
}

/// A branch holds a reference for each nibble that its mask names.
pub open spec fn stack_covers_mask(node: NodeView) -> bool {
    node matches NodeView::Branch { stack, state_mask } ==> bits_below(state_mask, 16)
        <= stack.len()
}

/// A branch holds exactly one reference for each nibble that its mask names.
pub open spec fn stack_matches_mask(node: NodeView) -> bool {
    node matches NodeView::Branch { stack, state_mask } ==> bits_below(state_mask, 16)
        == stack.len()
}

/// A bit of a mask is a digit of it to the base two.
pub proof fn lemma_bits_are_digits(mask: u16, n: u16)
    requires
        n < 16,
    ensures
        has_bit(mask, n as int) <==> (mask >> n) % 2 == 1,
{
    assert((mask & (1u16 << n) != 0) == ((mask >> n) % 2 == 1)) by (bit_vector)
        requires
            n < 16,
    ;
}

/// The set bits of a mask below `n`, in ascending order.
pub proof fn lemma_bits_listed(mask: u16, n: int) -> (bits: Seq<int>)
    requires
        0 <= n,
    ensures
        bits.len() == bits_below(mask, n),
        forall|i: int| 0 <= i < bits.len() ==> 0 <= #[trigger] bits[i] < n && has_bit(mask, bits[i]),
        forall|i: int, j: int| 0 <= i < j < bits.len() ==> #[trigger] bits[i] < #[trigger] bits[j],
        forall|b: int| 0 <= b < n && #[trigger] has_bit(mask, b) ==> bits.contains(b),
        forall|i: int| 0 <= i < bits.len() ==> bits_below(mask, #[trigger] bits[i]) == i,
    decreases n,
{
    if n == 0 {
        Seq::empty()
    } else {
        let before = lemma_bits_listed(mask, n - 1);
        if has_bit(mask, n - 1) {
            let bits = before.push(n - 1);
            assert forall|b: int| 0 <= b < n && #[trigger] has_bit(mask, b) implies bits.contains(
                b,
            ) by {
                if b < n - 1 {
                    let i = choose|i: int| 0 <= i < before.len() && before[i] == b;
                    assert(bits[i] == b);
                } else {
                    assert(bits[before.len() as int] == b);
                }
            }
            bits
        } else {
            assert forall|b: int| 0 <= b < n && #[trigger] has_bit(
                mask,
                b,
            ) implies before.contains(b) by {
                assert(b < n - 1);
            }
            before
        }
    }
}

/// The reference made of a hash is that hash behind the byte that announces it, and holds it; only
/// references of that length hold a hash.
pub proof fn lemma_hash_reference(hash: Seq<u8>, rlp: Seq<u8>)
    requires
        hash.len() == 32,
    ensures
        word_rlp(hash) == seq![0xa0u8] + hash,
        hash_in(word_rlp(hash)) == Some(hash),
        hash_in(rlp) is Some <==> rlp.len() == 33,
        rlp.len() == 33 ==> hash_in(rlp) == Some(rlp.subrange(1, 33)),
{
    assert(word_rlp(hash).skip(1) =~= hash);
    if rlp.len() == 33 {
        assert(rlp.skip(1) =~= rlp.subrange(1, 33));
    }
}

} // verus!
