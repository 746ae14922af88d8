//! The layout of what is written to disk, byte by byte, and that what is read is what stands there.
use vstd::prelude::*;

use crate::be_bytes::{be32, be64, from_be32, lemma_bytes_are_digits, lemma_digits_are_read, low32};
use crate::cold_format::{
    header_bytes, header_of_bytes, node_bytes, node_of_bytes, slot_bytes, slot_of_bytes,
    slots_bytes, slots_of_bytes, BlobHeader, ColdError, ColdView, SlotView,
};
use crate::cold_stub::{stub_bytes, stub_of_bytes, ColdStub};
use crate::convert::{checkpoint_of, ConvertError};

verus! {

/// A stub's row is the offset of the blob in eight bytes, that of the root in the body in four, and
/// the root's size in four.
pub proof fn lemma_stub_layout(stub: ColdStub, row: Seq<u8>)
    requires
        row.len() >= 16,
    ensures
        stub_bytes(stub).len() == 16,
        stub_bytes(stub).subrange(0, 8) == be64(stub.blob_offset),
        stub_bytes(stub).subrange(8, 12) == be32(stub.root_in_blob),
        stub_bytes(stub).subrange(12, 16) == be32(stub.root_size),
        stub_of_bytes(row).root_in_blob == row[8] * 0x100_0000 + row[9] * 0x1_0000 + row[10] * 0x100
            + row[11],
        stub_of_bytes(row).root_size == row[12] * 0x100_0000 + row[13] * 0x1_0000 + row[14] * 0x100
            + row[15],
{
    assert(stub_bytes(stub).subrange(0, 8) =~= be64(stub.blob_offset));
    assert(stub_bytes(stub).subrange(8, 12) =~= be32(stub.root_in_blob));
    assert(stub_bytes(stub).subrange(12, 16) =~= be32(stub.root_size));
    lemma_digits_are_read(row.skip(8));
    lemma_digits_are_read(row.skip(12));
}

/// A recorded length is eight bytes, the most significant first; any other number of bytes is no
/// recorded length.
pub proof fn lemma_checkpoint_layout(row: Seq<u8>)
    ensures
        row.len() != 8 ==> checkpoint_of(Some(row)) == Err::<Option<u64>, _>(
            ConvertError::CorruptCheckpoint,
        ),
        row.len() == 8 ==> (checkpoint_of(Some(row)) matches Ok(Some(len)) && len == (row[0]
            * 0x100_0000 + row[1] * 0x1_0000 + row[2] * 0x100 + row[3]) * 0x1_0000_0000 + (row[4]
            * 0x100_0000 + row[5] * 0x1_0000 + row[6] * 0x100 + row[7])),
        checkpoint_of(None) == Ok::<Option<u64>, ConvertError>(None),
{
    lemma_digits_are_read(row);
}

/// A header is the version in two bytes, six zeros, and the offset and the size of the root in four
/// bytes each.
pub proof fn lemma_header_layout(header: BlobHeader)
    ensures
        header_bytes(header).len() == 16,
        header_bytes(header).subrange(0, 8) == seq![0u8, 1, 0, 0, 0, 0, 0, 0],
        header_bytes(header).subrange(8, 12) == be32(header.root_offset),
        header_bytes(header).subrange(12, 16) == be32(header.root_size),
{
    lemma_bytes_are_digits(1, 0, 0);
    let bytes = header_bytes(header);
    assert(bytes.subrange(0, 8) =~= seq![0u8, 1, 0, 0, 0, 0, 0, 0]);
    assert(bytes.subrange(8, 12) =~= be32(header.root_offset));
    assert(bytes.subrange(12, 16) =~= be32(header.root_size));
}

/// A header is read from its first two bytes and its last eight; what stands between them, or
/// after it, does not matter.
pub proof fn lemma_header_reads(bytes: Seq<u8>)
    ensures
        bytes.len() < 16 ==> header_of_bytes(bytes) == Err::<BlobHeader, _>(
            ColdError::HeaderTruncated,
        ),
        bytes.len() >= 16 && (bytes[0] != 0 || bytes[1] != 1) ==> header_of_bytes(bytes) == Err::<
            BlobHeader,
            _,
        >(ColdError::UnsupportedVersion((bytes[0] * 0x100 + bytes[1]) as u16)),
        bytes.len() >= 16 && bytes[0] == 0 && bytes[1] == 1 ==> (header_of_bytes(bytes) matches Ok(
            header,
        ) && header.root_offset == bytes[8] * 0x100_0000 + bytes[9] * 0x1_0000 + bytes[10] * 0x100
            + bytes[11] && header.root_size == bytes[12] * 0x100_0000 + bytes[13] * 0x1_0000
            + bytes[14] * 0x100 + bytes[15]),
{
    lemma_digits_are_read(bytes);
    if bytes.len() >= 16 {
        lemma_digits_are_read(bytes.skip(8));
        lemma_digits_are_read(bytes.skip(12));
    }
}

/// A slot is a byte for its kind, and then: nothing for an empty one; the hash, the offset and the
/// size of a hashed child; the offset and the size of an embedded child; or the length of a value
/// and the value.
pub proof fn lemma_slot_layout(slot: SlotView)
    ensures
        match slot {
            SlotView::Empty => slot_bytes(slot) == seq![0u8],
            SlotView::Hashed { hash, offset, size } => hash.len() == 32 ==> {
                let bytes = slot_bytes(slot);
                &&& bytes.len() == 41
                &&& bytes[0] == 1
                &&& bytes.subrange(1, 33) == hash
                &&& bytes.subrange(33, 37) == be32(offset)
                &&& bytes.subrange(37, 41) == be32(size)
            },
            SlotView::Embedded { offset, size } => {
                let bytes = slot_bytes(slot);
                &&& bytes.len() == 9
                &&& bytes[0] == 2
                &&& bytes.subrange(1, 5) == be32(offset)
                &&& bytes.subrange(5, 9) == be32(size)
            },
            SlotView::InlineValue(value) => value.len() <= u32::MAX ==> {
                let bytes = slot_bytes(slot);
                &&& bytes.len() == 5 + value.len()
                &&& bytes[0] == 3
                &&& bytes.subrange(1, 5) == be32(value.len() as u32)
                &&& bytes.skip(5) == value
            },
        },
{
    let bytes = slot_bytes(slot);
    match slot {
        SlotView::Empty => {
            assert(bytes =~= seq![0u8]);
        },
        SlotView::Hashed { hash, offset, size } => {
            if hash.len() == 32 {
                assert(bytes.subrange(1, 33) =~= hash);
                assert(bytes.subrange(33, 37) =~= be32(offset));
                assert(bytes.subrange(37, 41) =~= be32(size));
            }
        },
        SlotView::Embedded { offset, size } => {
            assert(bytes.subrange(1, 5) =~= be32(offset));
            assert(bytes.subrange(5, 9) =~= be32(size));
        },
        SlotView::InlineValue(value) => {
            if value.len() <= u32::MAX {
                assert(low32(value.len()) == value.len() as u32);
                assert(bytes.subrange(1, 5) =~= be32(value.len() as u32));
                assert(bytes.skip(5) =~= value);
            }
        },
    }
}

/// Four bytes are those of the number that they are read as.
proof fn lemma_number_rewrites(s: Seq<u8>)
    requires
        s.len() >= 4,
    ensures
        be32(from_be32(s)) == s.take(4),
{
    lemma_digits_are_read(s);
    lemma_bytes_are_digits(0, from_be32(s), 0);
    assert(be32(from_be32(s)) =~= s.take(4));
}

/// A slot that is read is the one that is written there: writing it again gives the bytes that it
/// was read from.
pub proof fn lemma_slot_rewrites(bytes: Seq<u8>)
    ensures
        slot_of_bytes(bytes) matches Ok((slot, n)) ==> 0 < n <= bytes.len() && slot_bytes(slot)
            == bytes.take(n as int),
{
    if let Ok((slot, n)) = slot_of_bytes(bytes) {
        let k = n as int;
        match slot {
            SlotView::Empty => {},
            SlotView::Hashed { .. } => {
                lemma_number_rewrites(bytes.skip(33));
                lemma_number_rewrites(bytes.skip(37));
                assert(bytes.skip(33).take(4) =~= bytes.subrange(33, 37));
                assert(bytes.skip(37).take(4) =~= bytes.subrange(37, 41));
            },
            SlotView::Embedded { .. } => {
                lemma_number_rewrites(bytes.skip(1));
                lemma_number_rewrites(bytes.skip(5));
                assert(bytes.skip(1).take(4) =~= bytes.subrange(1, 5));
                assert(bytes.skip(5).take(4) =~= bytes.subrange(5, 9));
            },
            SlotView::InlineValue(value) => {
                lemma_number_rewrites(bytes.skip(1));
                assert(bytes.skip(1).take(4) =~= bytes.subrange(1, 5));
                assert(low32(value.len()) == from_be32(bytes.skip(1)));
            },
        }
        assert(slot_bytes(slot) =~= bytes.take(k));
    }
}

/// Why no slot is read: there is nothing, the kind is unknown, or the bytes end too soon.
pub proof fn lemma_slot_refused(bytes: Seq<u8>)
    ensures
        bytes.len() == 0 ==> slot_of_bytes(bytes) == Err::<(SlotView, nat), _>(
            ColdError::SlotBufferEmpty,
        ),
        bytes.len() > 0 && bytes[0] == 0 ==> slot_of_bytes(bytes) is Ok,
        bytes.len() > 0 && bytes[0] == 1 ==> (slot_of_bytes(bytes) is Ok <==> bytes.len() >= 41),
        bytes.len() > 0 && bytes[0] == 1 && bytes.len() < 41 ==> slot_of_bytes(bytes) == Err::<
            (SlotView, nat),
            _,
        >(ColdError::HashedSlotTruncated),
        bytes.len() > 0 && bytes[0] == 2 ==> (slot_of_bytes(bytes) is Ok <==> bytes.len() >= 9),
        bytes.len() > 0 && bytes[0] == 2 && bytes.len() < 9 ==> slot_of_bytes(bytes) == Err::<
            (SlotView, nat),
            _,
        >(ColdError::EmbeddedSlotTruncated),
        bytes.len() > 0 && bytes[0] == 3 && bytes.len() < 5 ==> slot_of_bytes(bytes) == Err::<
            (SlotView, nat),
            _,
        >(ColdError::InlineLengthTruncated),
        bytes.len() >= 5 && bytes[0] == 3 ==> {
            let len = bytes[1] * 0x100_0000 + bytes[2] * 0x1_0000 + bytes[3] * 0x100 + bytes[4];
            if bytes.len() < 5 + len {
                slot_of_bytes(bytes) == Err::<(SlotView, nat), _>(ColdError::InlineValueTruncated)
            } else {
                slot_of_bytes(bytes) is Ok
            }
        },
        bytes.len() > 0 && bytes[0] > 3 ==> slot_of_bytes(bytes) == Err::<(SlotView, nat), _>(
            ColdError::UnknownSlotKind(bytes[0]),
        ),
{
    if bytes.len() >= 5 {
        lemma_digits_are_read(bytes.skip(1));
    }
}

/// A full node is a zero byte and its slots, one after another. A short node is a byte with the
/// value one, the number of its nibbles, the nibbles, and its child.
pub proof fn lemma_node_layout(node: ColdView)
    ensures
        match node {
            ColdView::Full(slots) => {
                &&& node_bytes(node)[0] == 0
                &&& node_bytes(node).skip(1) == slots_bytes(slots, slots.len() as int)
            },
            ColdView::Short { key, child } => key.len() <= 64 ==> {
                let bytes = node_bytes(node);
                let n = key.len() as int;
                &&& bytes[0] == 1
                &&& bytes[1] == n
                &&& bytes.subrange(2, 2 + n) == key
                &&& bytes.skip(2 + n) == slot_bytes(child)
            },
        },
{
    let bytes = node_bytes(node);
    match node {
        ColdView::Full(slots) => {
            assert(bytes.skip(1) =~= slots_bytes(slots, slots.len() as int));
        },
        ColdView::Short { key, child } => {
            let n = key.len() as int;
            if n <= 64 {
                assert(bytes.subrange(2, 2 + n) =~= key);
                assert(bytes.skip(2 + n) =~= slot_bytes(child));
            }
        },
    }
}

/// Slots stand one after another, in order.
pub proof fn lemma_slots_stand_in_order(a: Seq<SlotView>, b: Seq<SlotView>, n: int)
    requires
        0 <= n <= b.len(),
    ensures
        slots_bytes(a + b, a.len() + n) == slots_bytes(a, a.len() as int) + slots_bytes(b, n),
        a.len() == 1 ==> slots_bytes(a, 1) == slot_bytes(a[0]),
    decreases n,
{
    let first = slots_bytes(a, a.len() as int);
    if a.len() == 1 {
        assert(slots_bytes(a, 0) =~= Seq::empty());
        assert(slots_bytes(a, 1) =~= slot_bytes(a[0]));
    }
    if n == 0 {
        lemma_slots_prefix(a, b, a.len() as int);
        assert(first + Seq::<u8>::empty() =~= first);
    } else {
        lemma_slots_stand_in_order(a, b, n - 1);
        assert((a + b)[a.len() + n - 1] == b[n - 1]);
        assert(slots_bytes(a + b, a.len() + n) =~= first + slots_bytes(b, n));
    }
}

/// Slots that come later do not count.
proof fn lemma_slots_prefix(a: Seq<SlotView>, b: Seq<SlotView>, n: int)
    requires
        0 <= n <= a.len(),
    ensures
        slots_bytes(a + b, n) == slots_bytes(a, n),
    decreases n,
{
    if n > 0 {
        lemma_slots_prefix(a, b, n - 1);
        assert((a + b)[n - 1] == a[n - 1]);
    }
}

/// Slots that are read are those that are written there.
proof fn lemma_slots_rewrite(bytes: Seq<u8>, n: int)
    requires
        0 <= n,
    ensures
        slots_of_bytes(bytes, n) matches Ok((slots, used)) ==> {
            &&& slots.len() == n
            &&& used <= bytes.len()
            &&& slots_bytes(slots, n) == bytes.take(used as int)
        },
    decreases n,
{
    if n > 0 {
        lemma_slots_rewrite(bytes, n - 1);
        if let Ok((slots, used)) = slots_of_bytes(bytes, n) {
            let (before, start) = slots_of_bytes(bytes, n - 1)->Ok_0;
            lemma_slot_rewrites(bytes.skip(start as int));
            let last = slots[n - 1];
            assert(slots =~= before + seq![last]);
            lemma_slots_prefix(before, seq![last], n - 1);
            assert(bytes.take(used as int) =~= bytes.take(start as int) + bytes.skip(
                start as int,
            ).take(used - start));
        }
    } else {
        assert(bytes.take(0) =~= Seq::empty());
    }
}

/// A node that is read is the one that is written there: a full node has seventeen slots, and
/// writing it again gives the bytes that it was read from. So does writing a short node again, but
/// for the high halves of its key's bytes, which do not count.
pub proof fn lemma_node_rewrites(bytes: Seq<u8>)
    ensures
        node_of_bytes(bytes) matches Ok((node, n)) ==> 0 < n <= bytes.len() && match node {
            ColdView::Full(slots) => slots.len() == 17 && node_bytes(node) == bytes.take(n as int),
            ColdView::Short { key, child } => {
                &&& bytes[0] == 1
                &&& key.len() == bytes[1] <= 64
                &&& forall|i: int| 0 <= i < key.len() ==> #[trigger] key[i] == bytes[2 + i] % 16
                &&& slot_bytes(child) == bytes.subrange(2 + key.len() as int, n as int)
            },
        },
{
    if let Ok((node, n)) = node_of_bytes(bytes) {
        match node {
            ColdView::Full(slots) => {
                lemma_slots_rewrite(bytes.skip(1), 17);
                assert(node_bytes(node) =~= bytes.take(n as int));
            },
            ColdView::Short { key, child } => {
                let k = key.len() as int;
                lemma_slot_rewrites(bytes.skip(2 + k));
                assert(slot_bytes(child) =~= bytes.subrange(2 + k, n as int));
                assert forall|i: int| 0 <= i < key.len() implies #[trigger] key[i] == bytes[2 + i]
                    % 16 by {
                    assert(bytes.subrange(2, 2 + k)[i] == bytes[2 + i]);
                }
            },
        }
    }
}

/// Why no node is read: there is nothing, the kind is unknown, the key ends too soon or is too
/// long, or a slot is refused.
pub proof fn lemma_node_refused(bytes: Seq<u8>)
    ensures
        bytes.len() == 0 ==> node_of_bytes(bytes) == Err::<(ColdView, nat), _>(
            ColdError::NodeBufferEmpty,
        ),
        bytes.len() > 0 && bytes[0] > 1 ==> node_of_bytes(bytes) == Err::<(ColdView, nat), _>(
            ColdError::UnknownNodeKind(bytes[0]),
        ),
        bytes.len() == 1 && bytes[0] == 1 ==> node_of_bytes(bytes) == Err::<(ColdView, nat), _>(
            ColdError::KeyLengthTruncated,
        ),
        bytes.len() >= 2 && bytes[0] == 1 && bytes.len() < 2 + bytes[1] ==> node_of_bytes(bytes)
            == Err::<(ColdView, nat), _>(ColdError::KeyTruncated),
        bytes.len() >= 2 && bytes[0] == 1 && bytes.len() >= 2 + bytes[1] && bytes[1] > 64
            ==> node_of_bytes(bytes) == Err::<(ColdView, nat), _>(ColdError::KeyTooLong(bytes[1])),
        bytes.len() >= 2 && bytes[0] == 1 && bytes.len() >= 2 + bytes[1] && bytes[1] <= 64 ==> (
        node_of_bytes(bytes) is Ok <==> slot_of_bytes(bytes.skip(2 + bytes[1])) is Ok),
        bytes.len() >= 2 && bytes[0] == 1 && bytes.len() >= 2 + bytes[1] && bytes[1] <= 64
            && slot_of_bytes(bytes.skip(2 + bytes[1])) is Err ==> node_of_bytes(bytes) == Err::<
            (ColdView, nat),
            _,
        >(slot_of_bytes(bytes.skip(2 + bytes[1]))->Err_0),
        bytes.len() > 0 && bytes[0] == 0 ==> (node_of_bytes(bytes) is Ok <==> slots_of_bytes(
            bytes.skip(1),
            17,
        ) is Ok),
        bytes.len() > 0 && bytes[0] == 0 && node_of_bytes(bytes) is Err ==> slot_refused_at(
            bytes.skip(1),
            node_of_bytes(bytes)->Err_0,
            17,
        ),
{
    if bytes.len() > 0 && bytes[0] == 0 && node_of_bytes(bytes) is Err {
        lemma_slot_refused_at(bytes.skip(1), 17);
    }
}

/// One of the first `n` slots is refused with this error, behind slots that are read.
pub open spec fn slot_refused_at(bytes: Seq<u8>, e: ColdError, n: int) -> bool {
    exists|m: int|
        0 <= m < n && (#[trigger] slots_of_bytes(bytes, m) matches Ok((_, used))
            && slot_of_bytes(bytes.skip(used as int)) == Err::<(SlotView, nat), _>(e))
}

/// Where not all slots are read, one is refused.
proof fn lemma_slot_refused_at(bytes: Seq<u8>, n: int)
    requires
        0 <= n,
        slots_of_bytes(bytes, n) is Err,
    ensures
        slot_refused_at(bytes, slots_of_bytes(bytes, n)->Err_0, n),
    decreases n,
{
    if slots_of_bytes(bytes, n - 1) is Err {
        lemma_slot_refused_at(bytes, n - 1);
        let e = slots_of_bytes(bytes, n)->Err_0;
        let m = choose|m: int|
            0 <= m < n - 1 && (#[trigger] slots_of_bytes(bytes, m) matches Ok((_, used))
                && slot_of_bytes(bytes.skip(used as int)) == Err::<(SlotView, nat), _>(e));
        assert(slots_of_bytes(bytes, m) is Ok);
    } else {
        assert(slots_of_bytes(bytes, n - 1) is Ok);
    }
}

} // verus!
