//! The row that stands for a subtree whose nodes were moved to the cold file.
use vstd::prelude::*;

use crate::be_bytes::{
    be32, be64, bytes_from, from_be32, from_be64, lemma_be32_round_trip, lemma_be64_round_trip,
    read_be32, read_be64,
};
use crate::outside::{put_u32, put_u64};

verus! {

/// Points at the blob that a converted subtree's nodes were written to.
#[derive(Debug, Clone, Copy, PartialEq, Eq, Hash, Structural)]
pub struct ColdStub {
    /// Byte offset of the blob's start in the cold file.
    pub blob_offset: u64,
    /// Offset of the subtree's root node, from the start of the blob's body.
    pub root_in_blob: u32,
    /// Byte size of the root node's encoding.
    pub root_size: u32,
}

/// The sixteen bytes of a stub row.
pub open spec fn stub_bytes(stub: ColdStub) -> Seq<u8> {
    be64(stub.blob_offset) + be32(stub.root_in_blob) + be32(stub.root_size)
}

/// The stub whose row starts `bytes`.
pub open spec fn stub_of_bytes(bytes: Seq<u8>) -> ColdStub {
    ColdStub {
        blob_offset: from_be64(bytes),
        root_in_blob: from_be32(bytes.skip(8)),
        root_size: from_be32(bytes.skip(12)),
    }
}

impl ColdStub {
    /// Appends the row to `buf` and returns its size.
    pub fn to_compact(&self, buf: &mut Vec<u8>) -> (written: usize)
        ensures
            final(buf)@ == old(buf)@ + stub_bytes(*self),
            written == 16,
            written == stub_bytes(*self).len(),
    {
        put_u64(buf, self.blob_offset);
        put_u32(buf, self.root_in_blob);
        put_u32(buf, self.root_size);
        assert(buf@ =~= old(buf)@ + stub_bytes(*self));
        16
    }

    /// Reads the row that starts `buf`, and returns what follows it.
    pub fn from_compact(buf: &[u8], _len: usize) -> (r: (ColdStub, &[u8]))
        requires
            buf@.len() >= 16,
        ensures
            r.0 == stub_of_bytes(buf@),
            r.1@ == buf@.skip(16),
    {
        assert(buf@.skip(0) =~= buf@);
        let blob_offset: u64 = read_be64(buf, 0);
        let root_in_blob: u32 = read_be32(buf, 8);
        let root_size: u32 = read_be32(buf, 12);
        (ColdStub { blob_offset, root_in_blob, root_size }, bytes_from(buf, 16))
    }
}

/// A row reads back as the stub it was written for, and leaves what follows it.
pub proof fn lemma_stub_round_trip(stub: ColdStub, rest: Seq<u8>)
    ensures
        stub_bytes(stub).len() == 16,
        stub_of_bytes(stub_bytes(stub) + rest) == stub,
        (stub_bytes(stub) + rest).skip(16) == rest,
{
    let bytes = stub_bytes(stub) + rest;
    lemma_be64_round_trip(stub.blob_offset, be32(stub.root_in_blob) + be32(stub.root_size) + rest);
    lemma_be32_round_trip(stub.root_in_blob, be32(stub.root_size) + rest);
    lemma_be32_round_trip(stub.root_size, rest);
    assert(bytes =~= be64(stub.blob_offset) + (be32(stub.root_in_blob) + be32(stub.root_size)
        + rest));
    assert(bytes.skip(8) =~= be32(stub.root_in_blob) + (be32(stub.root_size) + rest));
    assert(bytes.skip(12) =~= be32(stub.root_size) + rest);
    assert(bytes.skip(16) =~= rest);
}

} // verus!
