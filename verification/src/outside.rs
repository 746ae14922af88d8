//! The calls into other crates. Nothing here is proved: each contract states what the called
//! function is documented or seen to do.
use alloy_rlp::Decodable;
use alloy_trie::nodes::{
    BranchNode as OutBranch, ExtensionNode as OutExtension, LeafNode as OutLeaf,
    RlpNode as OutLink, TrieNode as OutNode,
};
use alloy_trie::Nibbles as OutPath;
use bytes::BufMut;
use vstd::prelude::*;

use crate::be_bytes::{be32, be64};
use crate::nibbles::{digit_value, Nibbles};
use crate::primitives::{Address, B256};
use crate::trie_node::{
    is_reference, stack_covers_mask, stack_matches_mask, BranchNode, ExtensionNode, LeafNode,
    NodeView, RlpNode, TrieNode,
};

verus! {

/// The error of the RLP decoder.
#[verifier::external_type_specification]
#[verifier::external_body]
pub struct ExRlpError(alloy_rlp::Error);

/// The error of the hexadecimal decoder.
#[verifier::external_type_specification]
#[verifier::external_body]
pub struct ExFromHexError(alloy_primitives::hex::FromHexError);

/// The Keccak-256 hash of some bytes.
pub uninterp spec fn keccak256_of(bytes: Seq<u8>) -> Seq<u8>;

/// `alloy_primitives::keccak256`: the Keccak-256 hash of `bytes`, which depends on nothing else.
#[verifier::external_body]
pub(crate) fn keccak256(bytes: &[u8]) -> (hash: B256)
    ensures
        hash@ == keccak256_of(bytes@),
{
    alloy_primitives::keccak256(bytes).0
}

/// The reference by which a parent names a node.
pub uninterp spec fn node_reference(node: NodeView) -> Seq<u8>;

/// `alloy_trie::nodes::TrieNode::rlp`, on an empty buffer: the node's RLP encoding where that
/// takes less than 32 bytes, and otherwise the 33-byte encoding of its Keccak-256 hash. The
/// encoder panics on a branch with fewer references than its mask names.
#[verifier::external_body]
pub(crate) fn trie_node_rlp(node: &TrieNode) -> (rlp: RlpNode)
    requires
        stack_covers_mask(node@),
    ensures
        rlp@ == node_reference(node@),
        is_reference(rlp@),
{
    let path = |key: &Nibbles| OutPath::from_nibbles_unchecked(key.as_slice());
    let link = |raw: &RlpNode| OutLink::from_raw(raw.as_slice()).expect("fits");
    let node = match node {
        TrieNode::EmptyRoot => OutNode::EmptyRoot,
        TrieNode::Branch(b) => OutNode::Branch(OutBranch::new(
            b.stack.iter().map(link).collect(),
            b.state_mask.into(),
        )),
        TrieNode::Extension(e) => OutNode::Extension(
            OutExtension::new(path(&e.key), link(&e.child))),
        TrieNode::Leaf(l) => OutNode::Leaf(
            OutLeaf::new(path(&l.key), l.value.clone())),
    };
    RlpNode::from_raw(&node.rlp(&mut Vec::new())).expect("fits")
}

/// The node that some bytes encode, if they encode one.
pub uninterp spec fn decoded_node(bytes: Seq<u8>) -> Option<NodeView>;

/// `<alloy_trie::nodes::TrieNode as alloy_rlp::Decodable>::decode`: the node that `bytes` begin
/// with, or an error where they begin with none. A branch comes back with one reference per bit
/// of its mask. What follows the node is left alone.
#[verifier::external_body]
pub(crate) fn decode_trie_node(bytes: &[u8]) -> (r: Result<TrieNode, alloy_rlp::Error>)
    ensures
        r matches Ok(node) ==> decoded_node(bytes@) == Some(node@) && stack_matches_mask(node@),
        r is Err ==> decoded_node(bytes@) is None,
{
    let path = |key: OutPath| Nibbles::from_nibbles(&key.to_vec());
    let link = |raw: &OutLink| RlpNode::from_raw(raw).expect("fits");
    Ok(match OutNode::decode(&mut &*bytes)? {
        OutNode::EmptyRoot => TrieNode::EmptyRoot,
        OutNode::Branch(b) => TrieNode::Branch(BranchNode {
            stack: b.stack.iter().map(link).collect(),
            state_mask: b.state_mask.get(),
        }),
        OutNode::Extension(e) => TrieNode::Extension(
            ExtensionNode { key: path(e.key), child: link(&e.child) }),
        OutNode::Leaf(l) => TrieNode::Leaf(
            LeafNode { key: path(l.key), value: l.value }),
    })
}

/// The digits of a hexadecimal text, without a leading `0x` or `0X`.
pub open spec fn hex_digits(text: Seq<char>) -> Seq<char> {
    if text.len() >= 2 && text[0] == '0' && (text[1] == 'x' || text[1] == 'X') {
        text.skip(2)
    } else {
        text
    }
}

/// The `n` bytes that a hexadecimal text with or without a leading `0x` spells, if it spells
/// exactly that many.
pub open spec fn hex_bytes(text: Seq<char>, n: nat) -> Option<Seq<u8>> {
    let digits = hex_digits(text);
    if digits.len() == 2 * n && (forall|i: int|
        0 <= i < digits.len() ==> digit_value(#[trigger] digits[i]) is Some) {
        Some(
            Seq::new(
                n,
                |i: int|
                    (digit_value(digits[2 * i])->0 * 16 + digit_value(digits[2 * i + 1])->0) as u8,
            ),
        )
    } else {
        None
    }
}

/// `<alloy_primitives::Address as FromStr>::from_str`: the address that a text of forty
/// hexadecimal digits spells, in either case, with or without a leading `0x`; an error for any
/// other text.
#[verifier::external_body]
pub(crate) fn parse_address(
    text: &str,
) -> (r: Result<Address, alloy_primitives::hex::FromHexError>)
    ensures
        r matches Ok(address) ==> hex_bytes(text@, 20) == Some(address@),
        r is Err ==> hex_bytes(text@, 20) is None,
{
    text.parse::<alloy_primitives::Address>().map(|address| address.into_array())
}

/// `<alloy_primitives::B256 as FromStr>::from_str`: the 32 bytes that a text of sixty-four
/// hexadecimal digits spells, in either case, with or without a leading `0x`; an error for any
/// other text.
#[verifier::external_body]
pub(crate) fn parse_b256(text: &str) -> (r: Result<B256, alloy_primitives::hex::FromHexError>)
    ensures
        r matches Ok(word) ==> hex_bytes(text@, 32) == Some(word@),
        r is Err ==> hex_bytes(text@, 32) is None,
{
    text.parse::<alloy_primitives::B256>().map(|word| word.0)
}

/// `bytes::BufMut::put_u64` on a vector: appends the eight big-endian bytes of `n`.
#[verifier::external_body]
pub(crate) fn put_u64(buf: &mut Vec<u8>, n: u64)
    ensures
        final(buf)@ == old(buf)@ + be64(n),
{
    buf.put_u64(n)
}

/// `bytes::BufMut::put_u32` on a vector: appends the four big-endian bytes of `n`.
#[verifier::external_body]
pub(crate) fn put_u32(buf: &mut Vec<u8>, n: u32)
    ensures
        final(buf)@ == old(buf)@ + be32(n),
{
    buf.put_u32(n)
}

} // verus!
