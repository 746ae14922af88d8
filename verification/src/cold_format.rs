//! The cold file's format: a blob is a sixteen-byte header and a body of self-describing nodes,
//! children before parents and the root last.
use vstd::prelude::*;
use vstd::slice::{slice_subrange, slice_to_vec};

use crate::be_bytes::{
    be16, be32, bytes_from, from_be16, from_be32, lemma_be16_round_trip, lemma_be32_round_trip,
    low32, low_u32, push_be16, push_be32, push_bytes, read_be16, read_be32,
};
use crate::nibbles::{is_path, low_nibbles, Nibbles, MAX_NIBBLES};
use crate::primitives::B256;

verus! {

/// Why a blob could not be written or read back.
#[derive(Debug, Clone, Copy, PartialEq, Eq, Structural)]
pub enum ColdError {
    /// There are no nodes to write.
    EmptyBlob,
    /// A branch has fewer references than its mask names.
    BranchStackTooShort,
    /// A subtree that is not empty holds an empty root.
    UnexpectedEmptyRoot,
    /// A child stands deeper than a key is long.
    PathTooLong,
    /// A node comes before one of its children.
    ChildNotPlaced,
    /// The blob header is cut short.
    HeaderTruncated,
    /// The blob was written in another version of the format.
    UnsupportedVersion(u16),
    /// No bytes are left where a node starts.
    NodeBufferEmpty,
    /// A short node ends before its key length.
    KeyLengthTruncated,
    /// A short node ends within its key.
    KeyTruncated,
    /// A short node's key has more nibbles than a key can have.
    KeyTooLong(u8),
    /// A node starts with an unknown kind.
    UnknownNodeKind(u8),
    /// No bytes are left where a child slot starts.
    SlotBufferEmpty,
    /// A hashed child slot is cut short.
    HashedSlotTruncated,
    /// An embedded child slot is cut short.
    EmbeddedSlotTruncated,
    /// An inline value ends before its length.
    InlineLengthTruncated,
    /// An inline value is cut short.
    InlineValueTruncated,
    /// A child slot starts with an unknown kind.
    UnknownSlotKind(u8),
    /// A child slot that holds no node stands where a node is needed.
    SlotWithoutNode,
    /// An embedded child stands at an offset where no node has been read.
    EmbeddedChildMissing(u32),
    /// The body ends before the root node that the header names.
    BodyTooShort,
    /// The body holds no node.
    BodyEmpty,
    /// The nodes of the body do not end in the root node that the header names.
    RootMisaligned,
    /// The root node is too short to have a hash.
    RootNotHashed,
    /// The file ends within the blob.
    FileTruncated,
}

/// The header of a blob: where in the body the root node stands.
#[derive(Debug, Clone, Copy, PartialEq, Eq, Structural)]
pub struct BlobHeader {
    pub root_offset: u32,
    pub root_size: u32,
}

/// The size of an encoded header.
pub const HEADER_LEN: usize = 16;

/// The version of the format.
pub const FORMAT_VERSION: u16 = 1;

/// The sixteen bytes of a header: version, six reserved bytes, root offset, root size.
pub open spec fn header_bytes(header: BlobHeader) -> Seq<u8> {
    be16(FORMAT_VERSION) + Seq::new(6, |i: int| 0u8) + be32(header.root_offset) + be32(
        header.root_size,
    )
}

/// The header that starts `bytes`.
pub open spec fn header_of_bytes(bytes: Seq<u8>) -> Result<BlobHeader, ColdError> {
    if bytes.len() < HEADER_LEN {
        Err(ColdError::HeaderTruncated)
    } else if from_be16(bytes) != FORMAT_VERSION {
        Err(ColdError::UnsupportedVersion(from_be16(bytes)))
    } else {
        Ok(
            BlobHeader {
                root_offset: from_be32(bytes.skip(8)),
                root_size: from_be32(bytes.skip(12)),
            },
        )
    }
}

impl BlobHeader {
    /// Appends the header to `buf`.
    pub fn encode(&self, buf: &mut Vec<u8>)
        ensures
            final(buf)@ == old(buf)@ + header_bytes(*self),
    {
        push_be16(buf, FORMAT_VERSION);
        let reserved: [u8; 6] = [0u8; 6];
        push_bytes(buf, reserved.as_slice());
        assert(reserved@ =~= Seq::new(6, |i: int| 0u8));
        push_be32(buf, self.root_offset);
        push_be32(buf, self.root_size);
        assert(buf@ =~= old(buf)@ + header_bytes(*self));
    }

    /// Reads the header that starts `buf`.
    pub fn decode(buf: &[u8]) -> (r: Result<BlobHeader, ColdError>)
        ensures
            r == header_of_bytes(buf@),
    {
        if buf.len() < HEADER_LEN {
            return Err(ColdError::HeaderTruncated);
        }
        assert(buf@.skip(0) =~= buf@);
        let version: u16 = read_be16(buf, 0);
        if version != FORMAT_VERSION {
            return Err(ColdError::UnsupportedVersion(version));
        }
        let root_offset: u32 = read_be32(buf, 8);
        let root_size: u32 = read_be32(buf, 12);
        Ok(BlobHeader { root_offset, root_size })
    }

    /// How many bytes the body takes up to the end of its root node.
    pub fn body_len(&self) -> (n: u64)
        ensures
            n == self.root_offset + self.root_size,
    {
        self.root_offset as u64 + self.root_size as u64
    }
}

/// What a node's slot says of the child that belongs there.
#[derive(Debug, PartialEq, Eq)]
pub enum ChildSlot {
    /// There is no child.
    Empty,
    /// The child's hash and its place in the body.
    Hashed { hash: B256, offset: u32, size: u32 },
    /// The place in the body of a child too short to have a hash.
    Embedded { offset: u32, size: u32 },
    /// A leaf's value.
    InlineValue(Vec<u8>),
}

/// What a slot is, as mathematical values.
pub enum SlotView {
    Empty,
    Hashed { hash: Seq<u8>, offset: u32, size: u32 },
    Embedded { offset: u32, size: u32 },
    InlineValue(Seq<u8>),
}

impl View for ChildSlot {
    type V = SlotView;

    open spec fn view(&self) -> SlotView {
        match self {
            ChildSlot::Empty => SlotView::Empty,
            ChildSlot::Hashed { hash, offset, size } => SlotView::Hashed {
                hash: hash@,
                offset: *offset,
                size: *size,
            },
            ChildSlot::Embedded { offset, size } => SlotView::Embedded {
                offset: *offset,
                size: *size,
            },
            ChildSlot::InlineValue(value) => SlotView::InlineValue(value@),
        }
    }
}

/// The bytes of a slot: its kind, then its parts.
pub open spec fn slot_bytes(slot: SlotView) -> Seq<u8> {
    match slot {
        SlotView::Empty => seq![0u8],
        SlotView::Hashed { hash, offset, size } => seq![1u8] + hash + be32(offset) + be32(size),
        SlotView::Embedded { offset, size } => seq![2u8] + be32(offset) + be32(size),
        SlotView::InlineValue(value) => seq![3u8] + be32(low32(value.len())) + value,
    }
}

/// The slot that starts `bytes`, and its size.
pub open spec fn slot_of_bytes(bytes: Seq<u8>) -> Result<(SlotView, nat), ColdError> {
    if bytes.len() == 0 {
        Err(ColdError::SlotBufferEmpty)
    } else if bytes[0] == 0 {
        Ok((SlotView::Empty, 1))
    } else if bytes[0] == 1 {
        if bytes.len() < 41 {
            Err(ColdError::HashedSlotTruncated)
        } else {
            Ok(
                (
                    SlotView::Hashed {
                        hash: bytes.subrange(1, 33),
                        offset: from_be32(bytes.skip(33)),
                        size: from_be32(bytes.skip(37)),
                    },
                    41,
                ),
            )
        }
    } else if bytes[0] == 2 {
        if bytes.len() < 9 {
            Err(ColdError::EmbeddedSlotTruncated)
        } else {
            Ok(
                (
                    SlotView::Embedded {
                        offset: from_be32(bytes.skip(1)),
                        size: from_be32(bytes.skip(5)),
                    },
                    9,
                ),
            )
        }
    } else if bytes[0] == 3 {
        if bytes.len() < 5 {
            Err(ColdError::InlineLengthTruncated)
        } else {
            let len = from_be32(bytes.skip(1));
            if bytes.len() < 5 + len {
                Err(ColdError::InlineValueTruncated)
            } else {
                Ok((SlotView::InlineValue(bytes.subrange(5, 5 + len)), (5 + len) as nat))
            }
        }
    } else {
        Err(ColdError::UnknownSlotKind(bytes[0]))
    }
}

impl ChildSlot {
    /// Appends the slot to `buf`.
    pub fn encode(&self, buf: &mut Vec<u8>)
        ensures
            final(buf)@ == old(buf)@ + slot_bytes(self@),
    {
        match self {
            ChildSlot::Empty => {
                buf.push(0);
            },
            ChildSlot::Hashed { hash, offset, size } => {
                buf.push(1);
                push_bytes(buf, hash.as_slice());
                push_be32(buf, *offset);
                push_be32(buf, *size);
            },
            ChildSlot::Embedded { offset, size } => {
                buf.push(2);
                push_be32(buf, *offset);
                push_be32(buf, *size);
            },
            ChildSlot::InlineValue(value) => {
                buf.push(3);
                push_be32(buf, low_u32(value.len()));
                push_bytes(buf, value.as_slice());
            },
        }
        assert(buf@ =~= old(buf)@ + slot_bytes(self@));
    }

    /// Reads the slot that starts `buf`; returns it and its size.
    pub fn decode(buf: &[u8]) -> (r: Result<(ChildSlot, usize), ColdError>)
        ensures
            match r {
                Ok((slot, consumed)) => slot_of_bytes(buf@) == Ok::<_, ColdError>(
                    (slot@, consumed as nat),
                ) && 0 < consumed <= buf@.len(),
                Err(e) => slot_of_bytes(buf@) == Err::<(SlotView, nat), _>(e),
            },
    {
        if buf.len() == 0 {
            return Err(ColdError::SlotBufferEmpty);
        }
        match buf[0] {
            0 => Ok((ChildSlot::Empty, 1)),
            1 => {
                if buf.len() < 41 {
                    return Err(ColdError::HashedSlotTruncated);
                }
                let hash: B256 = read_hash(buf, 1);
                let offset: u32 = read_be32(buf, 33);
                let size: u32 = read_be32(buf, 37);
                Ok((ChildSlot::Hashed { hash, offset, size }, 41))
            },
            2 => {
                if buf.len() < 9 {
                    return Err(ColdError::EmbeddedSlotTruncated);
                }
                let offset: u32 = read_be32(buf, 1);
                let size: u32 = read_be32(buf, 5);
                Ok((ChildSlot::Embedded { offset, size }, 9))
            },
            3 => {
                if buf.len() < 5 {
                    return Err(ColdError::InlineLengthTruncated);
                }
                let len: u32 = read_be32(buf, 1);
                if ((buf.len() - 5) as u64) < len as u64 {
                    return Err(ColdError::InlineValueTruncated);
                }
                let end: usize = 5 + len as usize;
                let value: Vec<u8> = slice_to_vec(slice_subrange(buf, 5, end));
                Ok((ChildSlot::InlineValue(value), end))
            },
            other => Err(ColdError::UnknownSlotKind(other)),
        }
    }
}

/// Reads the hash at `buf[at..at + 32]`.
pub fn read_hash(buf: &[u8], at: usize) -> (hash: B256)
    requires
        at + 32 <= buf@.len(),
    ensures
        hash@ == buf@.subrange(at as int, at + 32),
{
    let mut hash: [u8; 32] = [0u8; 32];
    let mut i: usize = 0;
    while i < 32
        invariant
            i <= 32,
            at + 32 <= buf@.len(),
            forall|j: int| 0 <= j < i ==> hash@[j] == buf@[at + j],
        decreases 32 - i,
    {
        assert(at + 32 <= buf.len());
        hash[i] = buf[at + i];
        i = i + 1;
    }
    assert(hash@ =~= buf@.subrange(at as int, at + 32));
    hash
}

/// The number of slots of a full node: one per nibble, and one for a value.
pub const FULL_SLOTS: usize = 17;

/// One node of a blob's body. A full node is a branch; a short node is a leaf or an extension.
#[derive(Debug, PartialEq, Eq)]
pub enum ColdNode {
    Full(Vec<ChildSlot>),
    Short { key: Nibbles, child: ChildSlot },
}

/// What a node of a body is, as mathematical values.
pub enum ColdView {
    Full(Seq<SlotView>),
    Short { key: Seq<u8>, child: SlotView },
}

/// What each of some slots is.
pub open spec fn slots_view(slots: Seq<ChildSlot>) -> Seq<SlotView> {
    Seq::new(slots.len(), |i: int| slots[i]@)
}

impl View for ColdNode {
    type V = ColdView;

    open spec fn view(&self) -> ColdView {
        match self {
            ColdNode::Full(slots) => ColdView::Full(slots_view(slots@)),
            ColdNode::Short { key, child } => ColdView::Short { key: key@, child: child@ },
        }
    }
}

/// The bytes of the first `n` slots, one after another.
pub open spec fn slots_bytes(slots: Seq<SlotView>, n: int) -> Seq<u8>
    decreases n,
{
    if n <= 0 {
        Seq::empty()
    } else {
        slots_bytes(slots, n - 1) + slot_bytes(slots[n - 1])
    }
}

/// The bytes of a node: its kind, then its slots, or its key and its child.
pub open spec fn node_bytes(node: ColdView) -> Seq<u8> {
    match node {
        ColdView::Full(slots) => seq![0u8] + slots_bytes(slots, slots.len() as int),
        ColdView::Short { key, child } => seq![1u8, key.len() as u8] + key + slot_bytes(child),
    }
}

/// The `n` slots that start `bytes`, and their size together.
pub open spec fn slots_of_bytes(bytes: Seq<u8>, n: int) -> Result<(Seq<SlotView>, nat), ColdError>
    decreases n,
{
    if n <= 0 {
        Ok((Seq::empty(), 0))
    } else {
        match slots_of_bytes(bytes, n - 1) {
            Err(e) => Err(e),
            Ok((slots, used)) => match slot_of_bytes(bytes.skip(used as int)) {
                Err(e) => Err(e),
                Ok((slot, size)) => Ok((slots.push(slot), used + size)),
            },
        }
    }
}

/// The node that starts `bytes`, and its size.
pub open spec fn node_of_bytes(bytes: Seq<u8>) -> Result<(ColdView, nat), ColdError> {
    if bytes.len() == 0 {
        Err(ColdError::NodeBufferEmpty)
    } else if bytes[0] == 0 {
        match slots_of_bytes(bytes.skip(1), FULL_SLOTS as int) {
            Err(e) => Err(e),
            Ok((slots, used)) => Ok((ColdView::Full(slots), 1 + used)),
        }
    } else if bytes[0] == 1 {
        if bytes.len() < 2 {
            Err(ColdError::KeyLengthTruncated)
        } else if bytes.len() < 2 + bytes[1] {
            Err(ColdError::KeyTruncated)
        } else if bytes[1] > MAX_NIBBLES {
            Err(ColdError::KeyTooLong(bytes[1]))
        } else {
            match slot_of_bytes(bytes.skip(2 + bytes[1])) {
                Err(e) => Err(e),
                Ok((child, size)) => Ok(
                    (
                        ColdView::Short {
                            key: low_nibbles(bytes.subrange(2, 2 + bytes[1])),
                            child,
                        },
                        (2 + bytes[1] + size) as nat,
                    ),
                ),
            }
        }
    } else {
        Err(ColdError::UnknownNodeKind(bytes[0]))
    }
}

impl ColdNode {
    /// Appends the node to `buf`.
    pub fn encode(&self, buf: &mut Vec<u8>)
        ensures
            final(buf)@ == old(buf)@ + node_bytes(self@),
    {
        match self {
            ColdNode::Full(slots) => {
                buf.push(0);
                let mut i: usize = 0;
                while i < slots.len()
                    invariant
                        i <= slots@.len(),
                        buf@ == old(buf)@.push(0) + slots_bytes(slots_view(slots@), i as int),
                    decreases slots.len() - i,
                {
                    slots[i].encode(buf);
                    assert(buf@ =~= old(buf)@.push(0) + slots_bytes(slots_view(slots@), i + 1));
                    i = i + 1;
                }
            },
            ColdNode::Short { key, child } => {
                buf.push(1);
                buf.push(key.len() as u8);
                push_bytes(buf, key.as_slice());
                child.encode(buf);
            },
        }
        assert(buf@ =~= old(buf)@ + node_bytes(self@));
    }

    /// Reads the node that starts `buf`; returns it and its size.
    pub fn decode(buf: &[u8]) -> (r: Result<(ColdNode, usize), ColdError>)
        ensures
            match r {
                Ok((node, consumed)) => node_of_bytes(buf@) == Ok::<_, ColdError>(
                    (node@, consumed as nat),
                ) && 0 < consumed <= buf@.len(),
                Err(e) => node_of_bytes(buf@) == Err::<(ColdView, nat), _>(e),
            },
    {
        if buf.len() == 0 {
            return Err(ColdError::NodeBufferEmpty);
        }
        match buf[0] {
            0 => {
                let body: &[u8] = bytes_from(buf, 1);
                let mut used: usize = 0;
                let mut slots: Vec<ChildSlot> = Vec::new();
                let mut i: usize = 0;
                assert(slots_view(slots@) =~= Seq::<SlotView>::empty());
                while i < FULL_SLOTS
                    invariant
                        i <= FULL_SLOTS,
                        buf@.len() > 0,
                        buf@[0] == 0,
                        body@ == buf@.skip(1),
                        used <= body@.len(),
                        slots_of_bytes(body@, i as int) == Ok::<_, ColdError>(
                            (slots_view(slots@), used as nat),
                        ),
                    decreases FULL_SLOTS - i,
                {
                    let ghost before = slots@;
                    match ChildSlot::decode(bytes_from(body, used)) {
                        Err(e) => {
                            proof {
                                lemma_slots_error_stays(body@, i + 1, FULL_SLOTS as int, e);
                            }
                            return Err(e);
                        },
                        Ok((slot, consumed)) => {
                            slots.push(slot);
                            assert(slots_view(slots@) =~= slots_view(before).push(slot@));
                            assert(body@.len() == body.len());
                            used = used + consumed;
                        },
                    }
                    i = i + 1;
                }
                assert(buf@.len() == buf.len());
                Ok((ColdNode::Full(slots), 1 + used))
            },
            1 => {
                if buf.len() < 2 {
                    return Err(ColdError::KeyLengthTruncated);
                }
                let key_len: usize = buf[1] as usize;
                if buf.len() < 2 + key_len {
                    return Err(ColdError::KeyTruncated);
                }
                if key_len > MAX_NIBBLES {
                    return Err(ColdError::KeyTooLong(buf[1]));
                }
                let key: Nibbles = Nibbles::from_nibbles_unchecked(
                    slice_subrange(buf, 2, 2 + key_len),
                );
                match ChildSlot::decode(bytes_from(buf, 2 + key_len)) {
                    Err(e) => Err(e),
                    Ok((child, consumed)) => Ok(
                        (ColdNode::Short { key, child }, 2 + key_len + consumed),
                    ),
                }
            },
            other => Err(ColdError::UnknownNodeKind(other)),
        }
    }
}

/// Once a slot does not parse, asking for more slots does not help.
proof fn lemma_slots_error_stays(bytes: Seq<u8>, m: int, n: int, e: ColdError)
    requires
        0 < m <= n,
        slots_of_bytes(bytes, m) == Err::<(Seq<SlotView>, nat), _>(e),
    ensures
        slots_of_bytes(bytes, n) == Err::<(Seq<SlotView>, nat), _>(e),
    decreases n,
{
    if m < n {
        lemma_slots_error_stays(bytes, m, n - 1, e);
    }
}

/// A header reads back as it was written, whatever follows it.
pub proof fn lemma_header_round_trip(header: BlobHeader, rest: Seq<u8>)
    ensures
        header_bytes(header).len() == HEADER_LEN,
        header_of_bytes(header_bytes(header) + rest) == Ok::<_, ColdError>(header),
{
    let bytes = header_bytes(header) + rest;
    let tail = Seq::new(6, |i: int| 0u8) + be32(header.root_offset) + be32(header.root_size) + rest;
    lemma_be16_round_trip(FORMAT_VERSION, tail);
    lemma_be32_round_trip(header.root_offset, be32(header.root_size) + rest);
    lemma_be32_round_trip(header.root_size, rest);
    assert(bytes =~= be16(FORMAT_VERSION) + tail);
    assert(bytes.skip(8) =~= be32(header.root_offset) + (be32(header.root_size) + rest));
    assert(bytes.skip(12) =~= be32(header.root_size) + rest);
}

/// A slot can be written down: its hash has 32 bytes, the length of its value fits in four.
pub open spec fn slot_fits(slot: SlotView) -> bool {
    match slot {
        SlotView::Hashed { hash, .. } => hash.len() == 32,
        SlotView::InlineValue(value) => value.len() <= u32::MAX,
        _ => true,
    }
}

/// A slot reads back as it was written, whatever follows it.
pub proof fn lemma_slot_round_trip(slot: SlotView, rest: Seq<u8>)
    requires
        slot_fits(slot),
    ensures
        slot_of_bytes(slot_bytes(slot) + rest) == Ok::<_, ColdError>(
            (slot, slot_bytes(slot).len()),
        ),
{
    let bytes = slot_bytes(slot) + rest;
    match slot {
        SlotView::Empty => {},
        SlotView::Hashed { hash, offset, size } => {
            lemma_be32_round_trip(offset, be32(size) + rest);
            lemma_be32_round_trip(size, rest);
            assert(bytes.subrange(1, 33) =~= hash);
            assert(bytes.skip(33) =~= be32(offset) + (be32(size) + rest));
            assert(bytes.skip(37) =~= be32(size) + rest);
        },
        SlotView::Embedded { offset, size } => {
            lemma_be32_round_trip(offset, be32(size) + rest);
            lemma_be32_round_trip(size, rest);
            assert(bytes.skip(1) =~= be32(offset) + (be32(size) + rest));
            assert(bytes.skip(5) =~= be32(size) + rest);
        },
        SlotView::InlineValue(value) => {
            lemma_be32_round_trip(low32(value.len()), value + rest);
            assert(bytes.skip(1) =~= be32(low32(value.len())) + (value + rest));
            assert(bytes.subrange(5, 5 + value.len() as int) =~= value);
        },
    }
}

/// The first `n` slots of a node read back as they were written.
proof fn lemma_slots_round_trip(slots: Seq<SlotView>, n: int, rest: Seq<u8>)
    requires
        0 <= n <= slots.len(),
        forall|i: int| 0 <= i < slots.len() ==> slot_fits(#[trigger] slots[i]),
    ensures
        slots_of_bytes(slots_bytes(slots, n) + rest, n) == Ok::<_, ColdError>(
            (slots.take(n), slots_bytes(slots, n).len()),
        ),
    decreases n,
{
    if n == 0 {
        assert(slots.take(0) =~= Seq::empty());
    } else {
        let tail = slot_bytes(slots[n - 1]) + rest;
        let bytes = slots_bytes(slots, n) + rest;
        lemma_slots_round_trip(slots, n - 1, tail);
        lemma_slot_round_trip(slots[n - 1], rest);
        assert(bytes =~= slots_bytes(slots, n - 1) + tail);
        assert(bytes.skip(slots_bytes(slots, n - 1).len() as int) =~= tail);
        assert(slots.take(n) =~= slots.take(n - 1).push(slots[n - 1]));
    }
}

/// A node can be written down: it has all its slots, or a key that is a path, and each slot can
/// be written down.
pub open spec fn node_fits(node: ColdView) -> bool {
    match node {
        ColdView::Full(slots) => slots.len() == FULL_SLOTS && forall|i: int|
            0 <= i < slots.len() ==> slot_fits(#[trigger] slots[i]),
        ColdView::Short { key, child } => is_path(key) && slot_fits(child),
    }
}

/// A node reads back as it was written, whatever follows it.
pub proof fn lemma_node_round_trip(node: ColdView, rest: Seq<u8>)
    requires
        node_fits(node),
    ensures
        node_of_bytes(node_bytes(node) + rest) == Ok::<_, ColdError>(
            (node, node_bytes(node).len()),
        ),
{
    match node {
        ColdView::Full(slots) => {
            lemma_full_round_trip(slots, rest);
        },
        ColdView::Short { key, child } => {
            lemma_short_round_trip(key, child, rest);
        },
    }
}

/// A full node reads back as it was written.
proof fn lemma_full_round_trip(slots: Seq<SlotView>, rest: Seq<u8>)
    requires
        node_fits(ColdView::Full(slots)),
    ensures
        node_of_bytes(node_bytes(ColdView::Full(slots)) + rest) == Ok::<_, ColdError>(
            (ColdView::Full(slots), node_bytes(ColdView::Full(slots)).len()),
        ),
{
    let body = slots_bytes(slots, FULL_SLOTS as int);
    let bytes = (seq![0u8] + body) + rest;
    lemma_slots_round_trip(slots, FULL_SLOTS as int, rest);
    assert(bytes.skip(1) =~= body + rest);
    assert(slots.take(FULL_SLOTS as int) =~= slots);
    assert(bytes[0] == 0);
}

/// A short node reads back as it was written.
proof fn lemma_short_round_trip(key: Seq<u8>, child: SlotView, rest: Seq<u8>)
    requires
        is_path(key),
        slot_fits(child),
    ensures
        node_of_bytes(node_bytes(ColdView::Short { key, child }) + rest) == Ok::<_, ColdError>(
            (ColdView::Short { key, child }, node_bytes(ColdView::Short { key, child }).len()),
        ),
{
    let tail = slot_bytes(child);
    let n = key.len() as int;
    let bytes = (seq![1u8, n as u8] + key + tail) + rest;
    lemma_slot_round_trip(child, rest);
    assert(bytes[0] == 1);
    assert(bytes[1] == n);
    assert(bytes.skip(2 + n) =~= tail + rest);
    assert(bytes.subrange(2, 2 + n) =~= key);
    assert(low_nibbles(key) =~= key);
}

} // verus!
